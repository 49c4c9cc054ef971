//! Facts about every candidate a line expands to: what it is built from, and
//! what it cannot hold.
use vstd::prelude::*;
use crate::text::{contains, occurs_at, replace_all, trimmed};
use crate::wordlist::{
    combined, extended, first_pass, line_candidates, marker, prefixed, suffixed, swapped,
};

verus! {

/// `s` holds neither `\n` nor `\r`.
pub open spec fn no_breaks(s: Seq<char>) -> bool {
    forall|i: int| 0 <= i < s.len() ==> s[i] != '\n' && s[i] != '\r'
}

/// No string of `cs` holds a line break.
pub open spec fn all_clean(cs: Seq<Seq<char>>) -> bool {
    forall|k: int| 0 <= k < cs.len() ==> no_breaks(#[trigger] cs[k])
}

proof fn lemma_concat_clean(a: Seq<char>, b: Seq<char>)
    requires
        no_breaks(a),
        no_breaks(b),
    ensures
        no_breaks(a + b),
{
    assert forall|i: int| 0 <= i < (a + b).len() implies (a + b)[i] != '\n' && (a + b)[i]
        != '\r' by {
        if i < a.len() {
            assert((a + b)[i] == a[i]);
        } else {
            assert((a + b)[i] == b[i - a.len()]);
        }
    }
}

proof fn lemma_all_concat_clean(x: Seq<Seq<char>>, y: Seq<Seq<char>>)
    requires
        all_clean(x),
        all_clean(y),
    ensures
        all_clean(x + y),
{
    assert forall|k: int| 0 <= k < (x + y).len() implies no_breaks(#[trigger] (x + y)[k]) by {
        if k < x.len() {
            assert((x + y)[k] == x[k]);
        } else {
            assert((x + y)[k] == y[k - x.len()]);
        }
    }
}

proof fn lemma_replace_clean(s: Seq<char>, m: Seq<char>, r: Seq<char>)
    requires
        no_breaks(s),
        no_breaks(r),
    ensures
        no_breaks(replace_all(s, m, r)),
    decreases s.len(),
{
    if s.len() > 0 {
        if m.len() > 0 && m.len() <= s.len() && s.subrange(0, m.len() as int) == m {
            let t = s.subrange(m.len() as int, s.len() as int);
            assert(no_breaks(t));
            lemma_replace_clean(t, m, r);
            lemma_concat_clean(r, replace_all(t, m, r));
        } else {
            let t = s.subrange(1, s.len() as int);
            assert(no_breaks(t));
            lemma_replace_clean(t, m, r);
            lemma_concat_clean(seq![s[0]], replace_all(t, m, r));
        }
    }
}

proof fn lemma_suffixed_clean(w: Seq<char>, xs: Seq<Seq<char>>)
    requires
        no_breaks(w),
        all_clean(xs),
    ensures
        all_clean(suffixed(w, xs)),
{
    assert forall|k: int| 0 <= k < suffixed(w, xs).len() implies no_breaks(
        #[trigger] suffixed(w, xs)[k],
    ) by {
        lemma_concat_clean(w, xs[k]);
    }
}

proof fn lemma_prefixed_clean(b: Seq<char>, ps: Seq<Seq<char>>, app: Seq<Seq<char>>)
    requires
        no_breaks(b),
        all_clean(ps),
        all_clean(app),
    ensures
        all_clean(prefixed(b, ps, app)),
    decreases ps.len(),
{
    if ps.len() > 0 {
        let init = ps.drop_last();
        assert(all_clean(init)) by {
            assert forall|k: int| 0 <= k < init.len() implies no_breaks(#[trigger] init[k]) by {
                assert(init[k] == ps[k]);
            }
        }
        lemma_prefixed_clean(b, init, app);
        let p = ps[ps.len() - 1];
        lemma_concat_clean(p, b);
        lemma_suffixed_clean(p + b, app);
        assert(all_clean(seq![p + b]));
        lemma_all_concat_clean(prefixed(b, init, app), seq![p + b]);
        lemma_all_concat_clean(prefixed(b, init, app) + seq![p + b], suffixed(p + b, app));
    }
}

proof fn lemma_combined_clean(bases: Seq<Seq<char>>, ps: Seq<Seq<char>>, app: Seq<Seq<char>>)
    requires
        all_clean(bases),
        all_clean(ps),
        all_clean(app),
    ensures
        all_clean(combined(bases, ps, app)),
    decreases bases.len(),
{
    if bases.len() > 0 {
        let init = bases.drop_last();
        assert(all_clean(init)) by {
            assert forall|k: int| 0 <= k < init.len() implies no_breaks(#[trigger] init[k]) by {
                assert(init[k] == bases[k]);
            }
        }
        lemma_combined_clean(init, ps, app);
        lemma_prefixed_clean(bases[bases.len() - 1], ps, app);
        lemma_all_concat_clean(combined(init, ps, app), prefixed(bases.last(), ps, app));
    }
}

proof fn lemma_extended_clean(ws: Seq<Seq<char>>, es: Seq<Seq<char>>)
    requires
        all_clean(ws),
        all_clean(es),
    ensures
        all_clean(extended(ws, es)),
    decreases ws.len(),
{
    if ws.len() > 0 {
        let init = ws.drop_last();
        assert(all_clean(init)) by {
            assert forall|k: int| 0 <= k < init.len() implies no_breaks(#[trigger] init[k]) by {
                assert(init[k] == ws[k]);
            }
        }
        lemma_extended_clean(init, es);
        lemma_suffixed_clean(ws[ws.len() - 1], es);
        lemma_all_concat_clean(extended(init, es), suffixed(ws.last(), es));
    }
}

/// No candidate holds a line break, as long as the line holds none once its
/// terminator is stripped and no value it is combined with holds one (the
/// swap values count only for a line that holds the marker).
pub proof fn lemma_no_line_breaks(
    raw: Seq<char>,
    ps: Seq<Seq<char>>,
    app: Seq<Seq<char>>,
    sw: Seq<Seq<char>>,
    es: Seq<Seq<char>>,
)
    requires
        no_breaks(trimmed(raw)),
        all_clean(ps),
        all_clean(app),
        all_clean(es),
        contains(trimmed(raw), marker()) ==> all_clean(sw),
    ensures
        all_clean(line_candidates(trimmed(raw), ps, app, sw, es)),
{
    let l = trimmed(raw);
    let f = first_pass(l, ps, app, sw);
    if contains(l, marker()) {
        assert forall|k: int| 0 <= k < swapped(l, sw).len() implies no_breaks(
            #[trigger] swapped(l, sw)[k],
        ) by {
            lemma_replace_clean(l, marker(), sw[k]);
        }
        lemma_combined_clean(swapped(l, sw), ps, app);
    } else {
        assert(all_clean(seq![l]));
        lemma_combined_clean(seq![l], ps, app);
        lemma_all_concat_clean(seq![l], combined(seq![l], ps, app));
    }
    lemma_extended_clean(f, es);
    lemma_all_concat_clean(f, extended(f, es));
}


proof fn lemma_contains_middle(a: Seq<char>, x: Seq<char>, b: Seq<char>)
    ensures
        contains(a + x + b, x),
{
    assert((a + x + b).subrange(a.len() as int, (a.len() + x.len()) as int) =~= x);
    assert(occurs_at(a + x + b, x, a.len() as int));
}

proof fn lemma_contains_trans(c: Seq<char>, x: Seq<char>, y: Seq<char>)
    requires
        contains(c, x),
        contains(x, y),
    ensures
        contains(c, y),
{
    let i = choose|i: int| occurs_at(c, x, i);
    let j = choose|j: int| occurs_at(x, y, j);
    assert(c.subrange(i + j, i + j + y.len()) =~= y) by {
        assert forall|t: int| 0 <= t < y.len() implies c.subrange(i + j, i + j + y.len())[t]
            == y[t] by {
            assert(x.subrange(j, j + y.len())[t] == x[j + t]);
            assert(c.subrange(i, i + x.len())[j + t] == c[i + j + t]);
        }
    }
    assert(occurs_at(c, y, i + j));
}

/// Every string of `cs` holds some string of `bs`.
pub open spec fn covered(cs: Seq<Seq<char>>, bs: Seq<Seq<char>>) -> bool {
    forall|k: int|
        0 <= k < cs.len() ==> exists|j: int| 0 <= j < bs.len() && contains(#[trigger] cs[k], bs[j])
}

proof fn lemma_prefixed_holds_base(b: Seq<char>, ps: Seq<Seq<char>>, app: Seq<Seq<char>>)
    ensures
        forall|k: int| 0 <= k < prefixed(b, ps, app).len() ==> contains(
            #[trigger] prefixed(b, ps, app)[k],
            b,
        ),
    decreases ps.len(),
{
    if ps.len() > 0 {
        let init = ps.drop_last();
        lemma_prefixed_holds_base(b, init, app);
        let p = ps.last();
        let head = prefixed(b, init, app) + seq![p + b];
        let tail = suffixed(p + b, app);
        assert forall|k: int| 0 <= k < prefixed(b, ps, app).len() implies contains(
            #[trigger] prefixed(b, ps, app)[k],
            b,
        ) by {
            if k < prefixed(b, init, app).len() {
                assert(prefixed(b, ps, app)[k] == prefixed(b, init, app)[k]);
            } else if k < head.len() {
                assert(prefixed(b, ps, app)[k] == p + b);
                lemma_contains_middle(p, b, Seq::empty());
                assert(p + b + Seq::<char>::empty() =~= p + b);
            } else {
                let a = app[k - head.len()];
                assert(prefixed(b, ps, app)[k] == tail[k - head.len()]);
                lemma_contains_middle(p, b, a);
            }
        }
    }
}

proof fn lemma_combined_covered(bases: Seq<Seq<char>>, ps: Seq<Seq<char>>, app: Seq<Seq<char>>)
    ensures
        covered(combined(bases, ps, app), bases),
    decreases bases.len(),
{
    if bases.len() > 0 {
        let init = bases.drop_last();
        lemma_combined_covered(init, ps, app);
        let last = bases.len() - 1;
        lemma_prefixed_holds_base(bases[last], ps, app);
        let front = combined(init, ps, app);
        let all = combined(bases, ps, app);
        assert forall|k: int| 0 <= k < all.len() implies exists|j: int|
            0 <= j < bases.len() && contains(#[trigger] all[k], bases[j]) by {
            if k < front.len() {
                assert(all[k] == front[k]);
                let j = choose|j: int| 0 <= j < init.len() && contains(front[k], init[j]);
                assert(init[j] == bases[j]);
            } else {
                assert(all[k] == prefixed(bases[last], ps, app)[k - front.len()]);
                assert(contains(all[k], bases[last]));
            }
        }
    }
}

proof fn lemma_extended_covered(ws: Seq<Seq<char>>, es: Seq<Seq<char>>)
    ensures
        covered(extended(ws, es), ws),
    decreases ws.len(),
{
    if ws.len() > 0 {
        let init = ws.drop_last();
        lemma_extended_covered(init, es);
        let last = ws.len() - 1;
        let front = extended(init, es);
        let all = extended(ws, es);
        assert forall|k: int| 0 <= k < all.len() implies exists|j: int|
            0 <= j < ws.len() && contains(#[trigger] all[k], ws[j]) by {
            if k < front.len() {
                assert(all[k] == front[k]);
                let j = choose|j: int| 0 <= j < init.len() && contains(front[k], init[j]);
                assert(init[j] == ws[j]);
            } else {
                let e = es[k - front.len()];
                assert(all[k] == ws[last] + e);
                lemma_contains_middle(Seq::empty(), ws[last], e);
                assert(Seq::<char>::empty() + ws[last] + e =~= ws[last] + e);
            }
        }
    }
}

/// For a line that holds the marker, every candidate holds the line with the
/// marker replaced by one of the swap values.
pub proof fn lemma_swapped_line(
    l: Seq<char>,
    ps: Seq<Seq<char>>,
    app: Seq<Seq<char>>,
    sw: Seq<Seq<char>>,
    es: Seq<Seq<char>>,
)
    requires
        contains(l, marker()),
    ensures
        forall|k: int|
            0 <= k < line_candidates(l, ps, app, sw, es).len() ==> exists|j: int|
                0 <= j < sw.len() && contains(
                    #[trigger] line_candidates(l, ps, app, sw, es)[k],
                    replace_all(l, marker(), sw[j]),
                ),
{
    let f = first_pass(l, ps, app, sw);
    let bases = swapped(l, sw);
    let all = line_candidates(l, ps, app, sw, es);
    lemma_combined_covered(bases, ps, app);
    lemma_extended_covered(f, es);
    assert forall|k: int| 0 <= k < all.len() implies exists|j: int|
        0 <= j < sw.len() && contains(#[trigger] all[k], replace_all(l, marker(), sw[j])) by {
        if k < f.len() {
            assert(all[k] == f[k]);
            let j = choose|j: int| 0 <= j < bases.len() && contains(f[k], bases[j]);
            assert(bases[j] == replace_all(l, marker(), sw[j]));
        } else {
            let e = extended(f, es);
            assert(all[k] == e[k - f.len()]);
            let i = choose|i: int| 0 <= i < f.len() && contains(e[k - f.len()], f[i]);
            let j = choose|j: int| 0 <= j < bases.len() && contains(f[i], bases[j]);
            lemma_contains_trans(all[k], f[i], bases[j]);
            assert(bases[j] == replace_all(l, marker(), sw[j]));
        }
    }
}


/// No character of `x` is one of the marker's.
pub open spec fn free_of_marker_chars(x: Seq<char>) -> bool {
    forall|i: int| 0 <= i < x.len() ==> !marker().contains(#[trigger] x[i])
}

/// No string of `cs` holds the marker.
pub open spec fn all_marker_free(cs: Seq<Seq<char>>) -> bool {
    forall|k: int| 0 <= k < cs.len() ==> !contains(#[trigger] cs[k], marker())
}

/// Every string of `cs` is free of the marker's characters.
pub open spec fn all_free_of_marker_chars(cs: Seq<Seq<char>>) -> bool {
    forall|k: int| 0 <= k < cs.len() ==> free_of_marker_chars(#[trigger] cs[k])
}

proof fn lemma_occurrence_chars(c: Seq<char>, q: int, t: int)
    requires
        occurs_at(c, marker(), q),
        q <= t < q + 6,
    ensures
        marker().contains(c[t]),
{
    assert(c.subrange(q, q + 6)[t - q] == c[t]);
    assert(marker()[t - q] == c[t]);
}

/// While the replaced text starts with marker characters, it agrees with the
/// text before replacement, which then does not start with the marker.
proof fn lemma_replaced_prefix(l: Seq<char>, s: Seq<char>, k: int)
    requires
        s.len() > 0,
        free_of_marker_chars(s),
        0 <= k <= replace_all(l, marker(), s).len(),
        forall|i: int| 0 <= i < k ==> marker().contains(#[trigger] replace_all(l, marker(), s)[i]),
    ensures
        k <= l.len(),
        replace_all(l, marker(), s).subrange(0, k) == l.subrange(0, k),
        k > 0 ==> !(6 <= l.len() && l.subrange(0, 6) == marker()),
    decreases l.len(),
{
    let m = marker();
    let r = replace_all(l, m, s);
    if k > 0 {
        assert(l.len() > 0);
        let rest1 = l.subrange(1, l.len() as int);
        if m.len() <= l.len() && l.subrange(0, m.len() as int) == m {
            assert(r[0] == s[0]);
            assert(marker().contains(r[0]));
            assert(false);
        } else {
            let rr = replace_all(rest1, m, s);
            assert(r == seq![l[0]] + rr);
            assert forall|i: int| 0 <= i < k - 1 implies marker().contains(#[trigger] rr[i]) by {
                assert(r[i + 1] == rr[i]);
            }
            lemma_replaced_prefix(rest1, s, k - 1);
            assert(r.subrange(0, k) =~= l.subrange(0, k)) by {
                assert forall|i: int| 0 <= i < k implies r.subrange(0, k)[i] == l.subrange(
                    0,
                    k,
                )[i] by {
                    if i > 0 {
                        assert(rr.subrange(0, k - 1)[i - 1] == rest1.subrange(0, k - 1)[i - 1]);
                    }
                }
            }
        }
    }
}

/// Replacing the marker by a non-empty value free of its characters leaves no
/// marker behind.
pub proof fn lemma_replace_leaves_no_marker(l: Seq<char>, s: Seq<char>)
    requires
        s.len() > 0,
        free_of_marker_chars(s),
    ensures
        !contains(replace_all(l, marker(), s), marker()),
    decreases l.len(),
{
    let m = marker();
    let r = replace_all(l, m, s);
    if l.len() > 0 {
        if m.len() <= l.len() && l.subrange(0, m.len() as int) == m {
            let rest = l.subrange(m.len() as int, l.len() as int);
            let rr = replace_all(rest, m, s);
            lemma_replace_leaves_no_marker(rest, s);
            assert(r == s + rr);
            if contains(r, m) {
                let q = choose|q: int| occurs_at(r, m, q);
                if q < s.len() {
                    lemma_occurrence_chars(r, q, q);
                    assert(r[q] == s[q]);
                } else {
                    assert(r.subrange(q, q + 6) =~= rr.subrange(q - s.len(), q - s.len() + 6));
                    assert(occurs_at(rr, m, q - s.len()));
                }
            }
        } else {
            let rest = l.subrange(1, l.len() as int);
            let rr = replace_all(rest, m, s);
            lemma_replace_leaves_no_marker(rest, s);
            assert(r == seq![l[0]] + rr);
            if contains(r, m) {
                let q = choose|q: int| occurs_at(r, m, q);
                if q == 0 {
                    assert forall|i: int| 0 <= i < 5 implies marker().contains(#[trigger] rr[i]) by {
                        lemma_occurrence_chars(r, 0, i + 1);
                        assert(r[i + 1] == rr[i]);
                    }
                    lemma_replaced_prefix(rest, s, 5);
                    assert(l.subrange(0, 6) =~= m) by {
                        assert forall|i: int| 0 <= i < 6 implies l.subrange(0, 6)[i] == m[i] by {
                            assert(r.subrange(0, 6)[i] == m[i]);
                            if i > 0 {
                                assert(rr.subrange(0, 5)[i - 1] == rest.subrange(0, 5)[i - 1]);
                            }
                        }
                    }
                } else {
                    assert(r.subrange(q, q + 6) =~= rr.subrange(q - 1, q + 5));
                    assert(occurs_at(rr, m, q - 1));
                }
            }
        }
    }
}

proof fn lemma_join_marker_free(x: Seq<char>, y: Seq<char>)
    requires
        !contains(x, marker()) && free_of_marker_chars(y) || free_of_marker_chars(x) && !contains(
            y,
            marker(),
        ),
    ensures
        !contains(x + y, marker()),
{
    let m = marker();
    let c = x + y;
    if contains(c, m) {
        let q = choose|q: int| occurs_at(c, m, q);
        if free_of_marker_chars(y) && !contains(x, m) {
            if q + 6 <= x.len() {
                assert(c.subrange(q, q + 6) =~= x.subrange(q, q + 6));
                assert(occurs_at(x, m, q));
            } else {
                lemma_occurrence_chars(c, q, q + 5);
                assert(c[q + 5] == y[q + 5 - x.len()]);
            }
        } else {
            if q >= x.len() {
                assert(c.subrange(q, q + 6) =~= y.subrange(q - x.len(), q - x.len() + 6));
                assert(occurs_at(y, m, q - x.len()));
            } else {
                lemma_occurrence_chars(c, q, q);
                assert(c[q] == x[q]);
            }
        }
    }
}

proof fn lemma_all_concat_marker_free(x: Seq<Seq<char>>, y: Seq<Seq<char>>)
    requires
        all_marker_free(x),
        all_marker_free(y),
    ensures
        all_marker_free(x + y),
{
    assert forall|k: int| 0 <= k < (x + y).len() implies !contains(
        #[trigger] (x + y)[k],
        marker(),
    ) by {
        if k < x.len() {
            assert((x + y)[k] == x[k]);
        } else {
            assert((x + y)[k] == y[k - x.len()]);
        }
    }
}

proof fn lemma_suffixed_marker_free(w: Seq<char>, xs: Seq<Seq<char>>)
    requires
        !contains(w, marker()),
        all_free_of_marker_chars(xs),
    ensures
        all_marker_free(suffixed(w, xs)),
{
    assert forall|k: int| 0 <= k < suffixed(w, xs).len() implies !contains(
        #[trigger] suffixed(w, xs)[k],
        marker(),
    ) by {
        lemma_join_marker_free(w, xs[k]);
    }
}

proof fn lemma_prefixed_marker_free(b: Seq<char>, ps: Seq<Seq<char>>, app: Seq<Seq<char>>)
    requires
        !contains(b, marker()),
        all_free_of_marker_chars(ps),
        all_free_of_marker_chars(app),
    ensures
        all_marker_free(prefixed(b, ps, app)),
    decreases ps.len(),
{
    if ps.len() > 0 {
        let init = ps.drop_last();
        assert(all_free_of_marker_chars(init)) by {
            assert forall|k: int| 0 <= k < init.len() implies free_of_marker_chars(
                #[trigger] init[k],
            ) by {
                assert(init[k] == ps[k]);
            }
        }
        lemma_prefixed_marker_free(b, init, app);
        let p = ps[ps.len() - 1];
        lemma_join_marker_free(p, b);
        lemma_suffixed_marker_free(p + b, app);
        assert(all_marker_free(seq![p + b]));
        lemma_all_concat_marker_free(prefixed(b, init, app), seq![p + b]);
        lemma_all_concat_marker_free(
            prefixed(b, init, app) + seq![p + b],
            suffixed(p + b, app),
        );
    }
}

proof fn lemma_combined_marker_free(
    bases: Seq<Seq<char>>,
    ps: Seq<Seq<char>>,
    app: Seq<Seq<char>>,
)
    requires
        all_marker_free(bases),
        all_free_of_marker_chars(ps),
        all_free_of_marker_chars(app),
    ensures
        all_marker_free(combined(bases, ps, app)),
    decreases bases.len(),
{
    if bases.len() > 0 {
        let init = bases.drop_last();
        assert(all_marker_free(init)) by {
            assert forall|k: int| 0 <= k < init.len() implies !contains(
                #[trigger] init[k],
                marker(),
            ) by {
                assert(init[k] == bases[k]);
            }
        }
        lemma_combined_marker_free(init, ps, app);
        lemma_prefixed_marker_free(bases[bases.len() - 1], ps, app);
        lemma_all_concat_marker_free(combined(init, ps, app), prefixed(bases.last(), ps, app));
    }
}

proof fn lemma_extended_marker_free(ws: Seq<Seq<char>>, es: Seq<Seq<char>>)
    requires
        all_marker_free(ws),
        all_free_of_marker_chars(es),
    ensures
        all_marker_free(extended(ws, es)),
    decreases ws.len(),
{
    if ws.len() > 0 {
        let init = ws.drop_last();
        assert(all_marker_free(init)) by {
            assert forall|k: int| 0 <= k < init.len() implies !contains(
                #[trigger] init[k],
                marker(),
            ) by {
                assert(init[k] == ws[k]);
            }
        }
        lemma_extended_marker_free(init, es);
        lemma_suffixed_marker_free(ws[ws.len() - 1], es);
        lemma_all_concat_marker_free(extended(init, es), suffixed(ws.last(), es));
    }
}

/// For a line that holds the marker, no candidate holds the marker, when
/// every swap value is non-empty and no value of any list uses one of the
/// marker's characters.
pub proof fn lemma_swapped_line_marker_free(
    l: Seq<char>,
    ps: Seq<Seq<char>>,
    app: Seq<Seq<char>>,
    sw: Seq<Seq<char>>,
    es: Seq<Seq<char>>,
)
    requires
        contains(l, marker()),
        forall|j: int| 0 <= j < sw.len() ==> (#[trigger] sw[j]).len() > 0,
        all_free_of_marker_chars(ps),
        all_free_of_marker_chars(app),
        all_free_of_marker_chars(sw),
        all_free_of_marker_chars(es),
    ensures
        all_marker_free(line_candidates(l, ps, app, sw, es)),
{
    let bases = swapped(l, sw);
    assert forall|k: int| 0 <= k < bases.len() implies !contains(
        #[trigger] bases[k],
        marker(),
    ) by {
        lemma_replace_leaves_no_marker(l, sw[k]);
    }
    lemma_combined_marker_free(bases, ps, app);
    let f = first_pass(l, ps, app, sw);
    lemma_extended_marker_free(f, es);
    lemma_all_concat_marker_free(f, extended(f, es));
}

} // verus!
