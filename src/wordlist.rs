//! The wordlist expander: each line of a wordlist becomes a run of candidate
//! path segments, built from swap, prepend, append and extension lists.
use vstd::prelude::*;
use std::collections::VecDeque;
use crate::text::{
    contains, contains_str, csv_fields, replace_all, replace_str, split_csv, trim_newline,
    trimmed, views,
};

verus! {

/// The token in a line that each swap value takes the place of.
pub open spec fn marker() -> Seq<char> {
    seq!['{', 'S', 'W', 'A', 'P', '}']
}

/// `w` followed in turn by each of `xs`.
pub open spec fn suffixed(w: Seq<char>, xs: Seq<Seq<char>>) -> Seq<Seq<char>> {
    xs.map_values(|x: Seq<char>| w + x)
}

/// For a base `b`: for each prepend value `p`, first `p + b`, then `p + b + a`
/// for each append value `a`.
pub open spec fn prefixed(b: Seq<char>, ps: Seq<Seq<char>>, app: Seq<Seq<char>>) -> Seq<
    Seq<char>,
>
    decreases ps.len(),
{
    if ps.len() == 0 {
        seq![]
    } else {
        prefixed(b, ps.drop_last(), app) + seq![ps.last() + b] + suffixed(ps.last() + b, app)
    }
}

/// `prefixed` of each base in turn.
pub open spec fn combined(bases: Seq<Seq<char>>, ps: Seq<Seq<char>>, app: Seq<Seq<char>>) -> Seq<
    Seq<char>,
>
    decreases bases.len(),
{
    if bases.len() == 0 {
        seq![]
    } else {
        combined(bases.drop_last(), ps, app) + prefixed(bases.last(), ps, app)
    }
}

/// For each word in turn, the word followed by each extension.
pub open spec fn extended(ws: Seq<Seq<char>>, es: Seq<Seq<char>>) -> Seq<Seq<char>>
    decreases ws.len(),
{
    if ws.len() == 0 {
        seq![]
    } else {
        extended(ws.drop_last(), es) + suffixed(ws.last(), es)
    }
}

/// The line with the marker replaced by each swap value in turn.
pub open spec fn swapped(l: Seq<char>, sw: Seq<Seq<char>>) -> Seq<Seq<char>> {
    sw.map_values(|s: Seq<char>| replace_all(l, marker(), s))
}

/// The candidates of a line before extensions: a line holding the marker gives
/// the combinations of its swapped forms; any other line gives itself, then the
/// combinations of itself.
pub open spec fn first_pass(
    l: Seq<char>,
    ps: Seq<Seq<char>>,
    app: Seq<Seq<char>>,
    sw: Seq<Seq<char>>,
) -> Seq<Seq<char>> {
    if contains(l, marker()) {
        combined(swapped(l, sw), ps, app)
    } else {
        seq![l] + combined(seq![l], ps, app)
    }
}

/// All candidates of one (trimmed) line, in the order they are yielded: the
/// first pass, then each of its words with each extension.
pub open spec fn line_candidates(
    l: Seq<char>,
    ps: Seq<Seq<char>>,
    app: Seq<Seq<char>>,
    sw: Seq<Seq<char>>,
    es: Seq<Seq<char>>,
) -> Seq<Seq<char>> {
    let f = first_pass(l, ps, app, sw);
    f + extended(f, es)
}

fn concat(a: &str, b: &str) -> (r: String)
    ensures
        r@ == a@ + b@,
{
    let mut r = String::from_str(a);
    r.append(b);
    r
}

fn push_suffixed(out: &mut Vec<String>, w: &String, xs: &Vec<String>)
    ensures
        views(final(out)@) == views(old(out)@) + suffixed(w@, views(xs@)),
{
    let mut j: usize = 0;
    while j < xs.len()
        invariant
            j <= xs@.len(),
            views(out@) == views(old(out)@) + suffixed(w@, views(xs@.subrange(0, j as int))),
        decreases xs@.len() - j,
    {
        let ghost before = out@;
        out.push(concat(w.as_str(), xs[j].as_str()));
        assert(views(out@) =~= views(before).push(w@ + xs@[j as int]@));
        assert(suffixed(w@, views(xs@.subrange(0, j as int + 1))) =~= suffixed(
            w@,
            views(xs@.subrange(0, j as int)),
        ).push(w@ + xs@[j as int]@));
        j = j + 1;
    }
    assert(xs@.subrange(0, xs@.len() as int) =~= xs@);
}

fn push_prefixed(out: &mut Vec<String>, b: &String, ps: &Vec<String>, app: &Vec<String>)
    ensures
        views(final(out)@) == views(old(out)@) + prefixed(b@, views(ps@), views(app@)),
{
    let mut j: usize = 0;
    while j < ps.len()
        invariant
            j <= ps@.len(),
            views(out@) == views(old(out)@) + prefixed(
                b@,
                views(ps@.subrange(0, j as int)),
                views(app@),
            ),
        decreases ps@.len() - j,
    {
        let ghost before = out@;
        let pb = concat(ps[j].as_str(), b.as_str());
        out.push(pb.clone());
        push_suffixed(out, &pb, app);
        let ghost sub = views(ps@.subrange(0, j as int + 1));
        assert(sub.drop_last() =~= views(ps@.subrange(0, j as int)));
        assert(sub.last() == ps@[j as int]@);
        assert(views(before.push(pb)) =~= views(before).push(pb@));
        assert(views(out@) =~= views(old(out)@) + prefixed(b@, sub, views(app@)));
        j = j + 1;
    }
    assert(ps@.subrange(0, ps@.len() as int) =~= ps@);
}

fn push_combined(
    out: &mut Vec<String>,
    bases: &Vec<String>,
    ps: &Vec<String>,
    app: &Vec<String>,
)
    ensures
        views(final(out)@) == views(old(out)@) + combined(views(bases@), views(ps@), views(app@)),
{
    let mut j: usize = 0;
    while j < bases.len()
        invariant
            j <= bases@.len(),
            views(out@) == views(old(out)@) + combined(
                views(bases@.subrange(0, j as int)),
                views(ps@),
                views(app@),
            ),
        decreases bases@.len() - j,
    {
        push_prefixed(out, &bases[j], ps, app);
        let ghost sub = views(bases@.subrange(0, j as int + 1));
        assert(sub.drop_last() =~= views(bases@.subrange(0, j as int)));
        assert(sub.last() == bases@[j as int]@);
        assert(views(out@) =~= views(old(out)@) + combined(sub, views(ps@), views(app@)));
        j = j + 1;
    }
    assert(bases@.subrange(0, bases@.len() as int) =~= bases@);
}

fn push_extended(out: &mut Vec<String>, ws: &Vec<String>, es: &Vec<String>)
    ensures
        views(final(out)@) == views(old(out)@) + extended(views(ws@), views(es@)),
{
    let mut j: usize = 0;
    while j < ws.len()
        invariant
            j <= ws@.len(),
            views(out@) == views(old(out)@) + extended(
                views(ws@.subrange(0, j as int)),
                views(es@),
            ),
        decreases ws@.len() - j,
    {
        push_suffixed(out, &ws[j], es);
        let ghost sub = views(ws@.subrange(0, j as int + 1));
        assert(sub.drop_last() =~= views(ws@.subrange(0, j as int)));
        assert(sub.last() == ws@[j as int]@);
        assert(views(out@) =~= views(old(out)@) + extended(sub, views(es@)));
        j = j + 1;
    }
    assert(ws@.subrange(0, ws@.len() as int) =~= ws@);
}

fn swap_marker() -> (r: &'static str)
    ensures
        r@ == marker(),
{
    let m = "{SWAP}";
    proof {
        reveal_strlit("{SWAP}");
    }
    assert(m@ =~= marker());
    m
}

/// The candidates of one line, already stripped of its line terminator.
pub fn line_permutations(
    line: &str,
    prepend: &Vec<String>,
    append: &Vec<String>,
    swap: &Vec<String>,
    extensions: &Vec<String>,
) -> (r: Vec<String>)
    ensures
        views(r@) == line_candidates(
            line@,
            views(prepend@),
            views(append@),
            views(swap@),
            views(extensions@),
        ),
{
    let m = swap_marker();
    let mut first: Vec<String> = Vec::new();
    if contains_str(line, m) {
        let mut bases: Vec<String> = Vec::new();
        let mut j: usize = 0;
        while j < swap.len()
            invariant
                m@ == marker(),
                j <= swap@.len(),
                views(bases@) == swapped(line@, views(swap@.subrange(0, j as int))),
            decreases swap@.len() - j,
        {
            let ghost before = bases@;
            bases.push(replace_str(line, m, swap[j].as_str()));
            assert(views(bases@) =~= views(before).push(replace_all(line@, marker(), swap@[j as int]@)));
            assert(swapped(line@, views(swap@.subrange(0, j as int + 1))) =~= swapped(
                line@,
                views(swap@.subrange(0, j as int)),
            ).push(replace_all(line@, marker(), swap@[j as int]@)));
            j = j + 1;
        }
        assert(swap@.subrange(0, swap@.len() as int) =~= swap@);
        assert(views(first@) =~= seq![]);
        push_combined(&mut first, &bases, prepend, append);
        assert(views(first@) =~= combined(views(bases@), views(prepend@), views(append@)));
    } else {
        let word = String::from_str(line);
        first.push(word.clone());
        let mut bases: Vec<String> = Vec::new();
        bases.push(word);
        assert(views(bases@) =~= seq![line@]);
        assert(views(first@) =~= seq![line@]);
        push_combined(&mut first, &bases, prepend, append);
    }
    let mut all: Vec<String> = first.clone();
    assert(all@ == first@);
    push_extended(&mut all, &first, extensions);
    all
}


/// How many bytes of `data` are `\n`: the number of terminated lines.
pub open spec fn newline_count(data: Seq<u8>) -> nat
    decreases data.len(),
{
    if data.len() == 0 {
        0
    } else {
        newline_count(data.drop_last()) + if data.last() == 10u8 {
            1nat
        } else {
            0nat
        }
    }
}

/// Counts the lines of `data` that end in `\n`; a last line without one is
/// not counted.
pub fn count_lines(data: &[u8]) -> (r: usize)
    ensures
        r == newline_count(data@),
{
    let mut count: usize = 0;
    let mut i: usize = 0;
    while i < data.len()
        invariant
            i <= data@.len(),
            count <= i,
            count == newline_count(data@.subrange(0, i as int)),
        decreases data@.len() - i,
    {
        assert(data@.subrange(0, i as int + 1).drop_last() =~= data@.subrange(0, i as int));
        if data[i] == 10u8 {
            count = count + 1;
        }
        i = i + 1;
    }
    assert(data@.subrange(0, data@.len() as int) =~= data@);
    count
}

/// The fields of an optional comma-separated list; absent counts as empty.
pub open spec fn option_fields(o: Option<String>) -> Seq<Seq<char>> {
    match o {
        Some(s) => csv_fields(s@),
        None => csv_fields(Seq::empty()),
    }
}

/// The estimated number of candidates: the line count times the size of
/// each list.
pub open spec fn estimate(
    base_count: nat,
    ps: Seq<Seq<char>>,
    app: Seq<Seq<char>>,
    sw: Seq<Seq<char>>,
    es: Seq<Seq<char>>,
) -> nat {
    base_count * ps.len() * app.len() * sw.len() * es.len()
}

fn option_list(o: Option<String>) -> (r: Vec<String>)
    ensures
        views(r@) == option_fields(o),
        r@.len() >= 1,
{
    let s = match o {
        Some(s) => s,
        None => String::new(),
    };
    split_csv(s.as_str())
}

/// A wordlist being expanded: the lists that shape its candidates, and the
/// candidates of the lines read so far that have not been handed out yet.
pub struct Wordlist {
    /// Where the wordlist was read from.
    pub path: String,
    /// The number of lines of the wordlist.
    pub base_count: usize,
    /// The estimated number of candidates (see `estimate`).
    pub total_count: usize,
    pub prepend: Vec<String>,
    pub append: Vec<String>,
    pub swap: Vec<String>,
    pub extensions: Vec<String>,
    /// Candidates of the lines read so far, not yet handed out.
    pub word_perms: VecDeque<String>,
}

impl View for Wordlist {
    type V = Seq<Seq<char>>;

    /// The candidates waiting to be handed out, first one first.
    open spec fn view(&self) -> Seq<Seq<char>> {
        views(self.word_perms@)
    }
}

impl Wordlist {
    /// The candidates of a raw line (terminator included) under this
    /// wordlist's lists.
    pub open spec fn candidates_of(&self, raw: Seq<char>) -> Seq<Seq<char>> {
        line_candidates(
            trimmed(raw),
            views(self.prepend@),
            views(self.append@),
            views(self.swap@),
            views(self.extensions@),
        )
    }

    /// Sets up the expansion of a wordlist of `base_count` lines; each list
    /// is split at commas, and an absent one is a single empty value.
    pub fn new(
        path: String,
        base_count: usize,
        prepend: Option<String>,
        append: Option<String>,
        swap: Option<String>,
        extensions: Option<String>,
    ) -> (r: Self)
        requires
            estimate(
                base_count as nat,
                option_fields(prepend),
                option_fields(append),
                option_fields(swap),
                option_fields(extensions),
            ) <= usize::MAX,
        ensures
            r.path == path,
            r.base_count == base_count,
            views(r.prepend@) == option_fields(prepend),
            views(r.append@) == option_fields(append),
            views(r.swap@) == option_fields(swap),
            views(r.extensions@) == option_fields(extensions),
            r.total_count == estimate(
                base_count as nat,
                option_fields(prepend),
                option_fields(append),
                option_fields(swap),
                option_fields(extensions),
            ),
            r@ == Seq::<Seq<char>>::empty(),
    {
        let pre_strs = option_list(prepend);
        let app_strs = option_list(append);
        let swap_strs = option_list(swap);
        let ext_strs = option_list(extensions);
        let ghost b = base_count as nat;
        let ghost p = pre_strs@.len();
        let ghost a = app_strs@.len();
        let ghost s = swap_strs@.len();
        let ghost e = ext_strs@.len();
        assert(views(pre_strs@).len() == p);
        assert(views(app_strs@).len() == a);
        assert(views(swap_strs@).len() == s);
        assert(views(ext_strs@).len() == e);
        assert(b * p <= b * p * a * s * e && b * p * a <= b * p * a * s * e && b * p * a * s
            <= b * p * a * s * e) by (nonlinear_arith)
            requires
                p >= 1,
                a >= 1,
                s >= 1,
                e >= 1,
        ;
        let total = base_count * pre_strs.len() * app_strs.len() * swap_strs.len()
            * ext_strs.len();
        let r = Wordlist {
            path,
            base_count,
            total_count: total,
            prepend: pre_strs,
            append: app_strs,
            swap: swap_strs,
            extensions: ext_strs,
            word_perms: VecDeque::new(),
        };
        assert(r@ =~= Seq::<Seq<char>>::empty());
        r
    }

    /// Whether every candidate of the lines read so far has been handed out,
    /// so that the next line is due.
    pub fn needs_line(&self) -> (r: bool)
        ensures
            r == (self@.len() == 0),
    {
        self.word_perms.len() == 0
    }

    /// Queues the candidates of one raw line of the wordlist, after those
    /// still waiting.
    pub fn push_line(&mut self, raw: String)
        ensures
            final(self)@ == old(self)@ + old(self).candidates_of(raw@),
            final(self).path == old(self).path,
            final(self).base_count == old(self).base_count,
            final(self).total_count == old(self).total_count,
            final(self).prepend == old(self).prepend,
            final(self).append == old(self).append,
            final(self).swap == old(self).swap,
            final(self).extensions == old(self).extensions,
    {
        let mut line = raw;
        trim_newline(&mut line);
        let perms = line_permutations(
            line.as_str(),
            &self.prepend,
            &self.append,
            &self.swap,
            &self.extensions,
        );
        let mut j: usize = 0;
        while j < perms.len()
            invariant
                j <= perms@.len(),
                self.path == old(self).path,
                self.base_count == old(self).base_count,
                self.total_count == old(self).total_count,
                self.prepend == old(self).prepend,
                self.append == old(self).append,
                self.swap == old(self).swap,
                self.extensions == old(self).extensions,
                self@ == old(self)@ + views(perms@.subrange(0, j as int)),
            decreases perms@.len() - j,
        {
            let ghost before = self.word_perms@;
            self.word_perms.push_back(perms[j].clone());
            assert(views(self.word_perms@) =~= views(before).push(perms@[j as int]@));
            assert(views(perms@.subrange(0, j as int + 1)) =~= views(
                perms@.subrange(0, j as int),
            ).push(perms@[j as int]@));
            j = j + 1;
        }
        assert(perms@.subrange(0, perms@.len() as int) =~= perms@);
    }

    /// Hands out the first waiting candidate, if any.
    pub fn next(&mut self) -> (r: Option<String>)
        ensures
            final(self).path == old(self).path,
            final(self).base_count == old(self).base_count,
            final(self).total_count == old(self).total_count,
            final(self).prepend == old(self).prepend,
            final(self).append == old(self).append,
            final(self).swap == old(self).swap,
            final(self).extensions == old(self).extensions,
            match r {
                Some(c) => old(self)@.len() > 0 && c@ == old(self)@[0] && final(self)@
                    == old(self)@.drop_first(),
                None => old(self)@.len() == 0 && final(self)@ == old(self)@,
            },
    {
        let r = self.word_perms.pop_front();
        proof {
            if r is Some {
                assert(self@ =~= old(self)@.drop_first());
            }
        }
        r
    }
}


/// How many candidates one trimmed line gives: a line with the marker gives
/// its combinations once per swap value; any other line gives itself and its
/// combinations; each of those comes again once per extension.
pub open spec fn line_count(
    l: Seq<char>,
    ps: Seq<Seq<char>>,
    app: Seq<Seq<char>>,
    sw: Seq<Seq<char>>,
    es: Seq<Seq<char>>,
) -> nat {
    let per_base = ps.len() * (1 + app.len());
    let first = if contains(l, marker()) {
        sw.len() * per_base
    } else {
        1 + per_base
    };
    first * (1 + es.len())
}

proof fn lemma_prefixed_len(b: Seq<char>, ps: Seq<Seq<char>>, app: Seq<Seq<char>>)
    ensures
        prefixed(b, ps, app).len() == ps.len() * (1 + app.len()),
    decreases ps.len(),
{
    if ps.len() > 0 {
        lemma_prefixed_len(b, ps.drop_last(), app);
        let k = 1 + app.len();
        assert((ps.len() - 1) * k + k == ps.len() * k) by (nonlinear_arith);
    }
}

proof fn lemma_combined_len(bases: Seq<Seq<char>>, ps: Seq<Seq<char>>, app: Seq<Seq<char>>)
    ensures
        combined(bases, ps, app).len() == bases.len() * (ps.len() * (1 + app.len())),
    decreases bases.len(),
{
    if bases.len() > 0 {
        lemma_combined_len(bases.drop_last(), ps, app);
        lemma_prefixed_len(bases.last(), ps, app);
        let k = ps.len() * (1 + app.len());
        assert((bases.len() - 1) * k + k == bases.len() * k) by (nonlinear_arith);
    }
}

proof fn lemma_extended_len(ws: Seq<Seq<char>>, es: Seq<Seq<char>>)
    ensures
        extended(ws, es).len() == ws.len() * es.len(),
    decreases ws.len(),
{
    if ws.len() > 0 {
        lemma_extended_len(ws.drop_last(), es);
        assert((ws.len() - 1) * es.len() + es.len() == ws.len() * es.len()) by (nonlinear_arith);
    }
}

/// The number of candidates of one line is `line_count`.
pub proof fn lemma_line_candidates_len(
    l: Seq<char>,
    ps: Seq<Seq<char>>,
    app: Seq<Seq<char>>,
    sw: Seq<Seq<char>>,
    es: Seq<Seq<char>>,
)
    ensures
        line_candidates(l, ps, app, sw, es).len() == line_count(l, ps, app, sw, es),
{
    let f = first_pass(l, ps, app, sw);
    let per_base = ps.len() * (1 + app.len());
    if contains(l, marker()) {
        lemma_combined_len(swapped(l, sw), ps, app);
        assert(swapped(l, sw).len() == sw.len());
        assert(f.len() == sw.len() * per_base);
    } else {
        lemma_combined_len(seq![l], ps, app);
        assert(seq![l].len() == 1);
        assert(1 * per_base == per_base);
        assert(f.len() == 1 + per_base);
    }
    lemma_extended_len(f, es);
    assert(f.len() + f.len() * es.len() == f.len() * (1 + es.len())) by (nonlinear_arith);
}

/// The lists in effect when none is given: one empty value.
pub open spec fn default_list() -> Seq<Seq<char>> {
    seq![Seq::<char>::empty()]
}

/// The candidates of a whole wordlist, line after line.
pub open spec fn wordlist_candidates(
    raws: Seq<Seq<char>>,
    ps: Seq<Seq<char>>,
    app: Seq<Seq<char>>,
    sw: Seq<Seq<char>>,
    es: Seq<Seq<char>>,
) -> Seq<Seq<char>>
    decreases raws.len(),
{
    if raws.len() == 0 {
        seq![]
    } else {
        wordlist_candidates(raws.drop_last(), ps, app, sw, es) + line_candidates(
            trimmed(raws.last()),
            ps,
            app,
            sw,
            es,
        )
    }
}

/// An absent list is the one-empty-value default.
pub proof fn lemma_absent_list_is_default()
    ensures
        option_fields(None) == default_list(),
{
    assert(csv_fields(Seq::<char>::empty()) == default_list());
}

/// With every list at its default, a wordlist of `n` lines none of which holds
/// the marker yields exactly `6 n` candidates: each line itself, then `p + b`
/// and `p + b + a` (both again the line), and each of those three once more
/// with the empty extension.
pub proof fn lemma_default_lists_count(raws: Seq<Seq<char>>)
    requires
        forall|i: int| 0 <= i < raws.len() ==> !contains(trimmed(#[trigger] raws[i]), marker()),
    ensures
        wordlist_candidates(
            raws,
            default_list(),
            default_list(),
            default_list(),
            default_list(),
        ).len() == 6 * raws.len(),
    decreases raws.len(),
{
    let d = default_list();
    if raws.len() > 0 {
        let init = raws.drop_last();
        assert forall|i: int| 0 <= i < init.len() implies !contains(
            trimmed(#[trigger] init[i]),
            marker(),
        ) by {
            assert(init[i] == raws[i]);
        }
        lemma_default_lists_count(init);
        assert(raws.last() == raws[raws.len() - 1]);
        lemma_line_candidates_len(trimmed(raws.last()), d, d, d, d);
        assert(d.len() == 1);
        assert(!contains(trimmed(raws[raws.len() - 1]), marker()));
        assert(d.len() * (1 + d.len()) == 2);
        let l0 = trimmed(raws.last());
        assert(!contains(l0, marker()));
        let first: nat = 1 + d.len() * (1 + d.len());
        assert(first == 3);
        assert(line_count(l0, d, d, d, d) == first * (1 + d.len()));
        let dl = d.len();
        assert(first * (1 + dl) == 6) by (nonlinear_arith)
            requires
                first == 3,
                dl == 1,
        ;
        assert(6 * init.len() + 6 == 6 * raws.len());
    }
}

} // verus!
