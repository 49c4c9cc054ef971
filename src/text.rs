//! Character-level helpers on strings, each proved against a small
//! specification over `Seq<char>`.
use vstd::prelude::*;

verus! {

/// The line with one trailing `\n` removed, and then one `\r` before it.
pub open spec fn trimmed(s: Seq<char>) -> Seq<char> {
    if s.len() > 0 && s.last() == '\n' {
        let t = s.drop_last();
        if t.len() > 0 && t.last() == '\r' {
            t.drop_last()
        } else {
            t
        }
    } else {
        s
    }
}

/// Strips a trailing `\n` or `\r\n` from `s`, in place.
pub fn trim_newline(s: &mut String)
    ensures
        final(s)@ == trimmed(old(s)@),
{
    let n = s.as_str().unicode_len();
    if n > 0 && s.as_str().get_char(n - 1) == '\n' {
        let mut m = n - 1;
        if m > 0 && s.as_str().get_char(m - 1) == '\r' {
            m = m - 1;
        }
        let t = String::from_str(s.as_str().substring_char(0, m));
        proof {
            let u = old(s)@.drop_last();
            assert(u == old(s)@.subrange(0, n - 1));
            if n - 1 > 0 && u.last() == '\r' {
                assert(u.drop_last() =~= old(s)@.subrange(0, m as int));
            } else {
                assert(u =~= old(s)@.subrange(0, m as int));
            }
        }
        *s = t;
    }
}


/// The character views of a sequence of strings.
pub open spec fn views(v: Seq<String>) -> Seq<Seq<char>> {
    v.map_values(|s: String| s@)
}

/// The fields of `s` separated by `,`, read left to right; an input without
/// a comma is one field, the empty input one empty field.
pub open spec fn csv_fields(s: Seq<char>) -> Seq<Seq<char>>
    decreases s.len(),
{
    if s.len() == 0 {
        seq![Seq::empty()]
    } else {
        let f = csv_fields(s.drop_last());
        if s.last() == ',' {
            f.push(Seq::empty())
        } else {
            f.update(f.len() - 1, f.last().push(s.last()))
        }
    }
}

pub proof fn lemma_csv_fields_nonempty(s: Seq<char>)
    ensures
        csv_fields(s).len() >= 1,
    decreases s.len(),
{
    if s.len() > 0 {
        lemma_csv_fields_nonempty(s.drop_last());
    }
}

/// Splits `s` at every `,` into owned fields.
pub fn split_csv(s: &str) -> (r: Vec<String>)
    ensures
        views(r@) == csv_fields(s@),
        r@.len() >= 1,
{
    let n = s.unicode_len();
    let mut done: Vec<String> = Vec::new();
    let mut start: usize = 0;
    let mut i: usize = 0;
    assert(s@.subrange(0, 0) =~= Seq::<char>::empty());
    assert(views(done@).push(s@.subrange(0, 0)) =~= seq![Seq::<char>::empty()]);
    while i < n
        invariant
            n == s@.len(),
            start <= i <= n,
            views(done@).push(s@.subrange(start as int, i as int)) == csv_fields(
                s@.subrange(0, i as int),
            ),
        decreases n - i,
    {
        let c = s.get_char(i);
        let ghost pre = s@.subrange(0, i as int);
        let ghost cur = s@.subrange(0, i as int + 1);
        assert(cur.drop_last() =~= pre);
        proof {
            lemma_csv_fields_nonempty(pre);
        }
        if c == ',' {
            let ghost old_done = done@;
            done.push(String::from_str(s.substring_char(start, i)));
            assert(views(done@) =~= views(old_done).push(s@.subrange(start as int, i as int)));
            start = i + 1;
            assert(s@.subrange(start as int, i as int + 1) =~= Seq::<char>::empty());
            assert(views(done@).push(s@.subrange(start as int, i as int + 1)) =~= csv_fields(
                cur,
            ));
        } else {
            assert(s@.subrange(start as int, i as int + 1) =~= s@.subrange(
                start as int,
                i as int,
            ).push(c));
            assert(views(done@).push(s@.subrange(start as int, i as int + 1)) =~= csv_fields(
                cur,
            ));
        }
        i = i + 1;
    }
    let ghost old_done = done@;
    done.push(String::from_str(s.substring_char(start, n)));
    assert(s@.subrange(0, n as int) =~= s@);
    assert(views(done@) =~= views(old_done).push(s@.subrange(start as int, n as int)));
    done
}

/// `m` stands in `s` starting at position `i`.
pub open spec fn occurs_at(s: Seq<char>, m: Seq<char>, i: int) -> bool {
    0 <= i && i + m.len() <= s.len() && s.subrange(i, i + m.len()) == m
}

/// `m` stands somewhere in `s`.
pub open spec fn contains(s: Seq<char>, m: Seq<char>) -> bool {
    exists|i: int| occurs_at(s, m, i)
}

/// Every occurrence of a non-empty `m` in `s`, taken left to right without
/// overlap, replaced by `r`.
pub open spec fn replace_all(s: Seq<char>, m: Seq<char>, r: Seq<char>) -> Seq<char>
    decreases s.len(),
{
    if s.len() == 0 {
        s
    } else if m.len() > 0 && m.len() <= s.len() && s.subrange(0, m.len() as int) == m {
        r + replace_all(s.subrange(m.len() as int, s.len() as int), m, r)
    } else {
        seq![s[0]] + replace_all(s.subrange(1, s.len() as int), m, r)
    }
}

fn occurs_at_exec(s: &str, n: usize, m: &str, k: usize, i: usize) -> (r: bool)
    requires
        n == s@.len(),
        k == m@.len(),
        i + k <= n,
    ensures
        r == occurs_at(s@, m@, i as int),
{
    let mut j: usize = 0;
    while j < k
        invariant
            n == s@.len(),
            k == m@.len(),
            i + k <= n,
            j <= k,
            forall|t: int| 0 <= t < j ==> s@[i + t] == m@[t],
        decreases k - j,
    {
        if s.get_char(i + j) != m.get_char(j) {
            assert(s@.subrange(i as int, i + k)[j as int] != m@[j as int]);
            return false;
        }
        j = j + 1;
    }
    assert(s@.subrange(i as int, i + k) =~= m@);
    true
}

/// Whether `m` stands somewhere in `s`.
pub fn contains_str(s: &str, m: &str) -> (r: bool)
    ensures
        r == contains(s@, m@),
{
    let n = s.unicode_len();
    let k = m.unicode_len();
    if k > n {
        return false;
    }
    let mut i: usize = 0;
    loop
        invariant
            n == s@.len(),
            k == m@.len(),
            k <= n,
            i <= n - k,
            forall|t: int| 0 <= t < i ==> !occurs_at(s@, m@, t),
        decreases n - k - i,
    {
        if occurs_at_exec(s, n, m, k, i) {
            return true;
        }
        if i == n - k {
            return false;
        }
        i = i + 1;
    }
}

/// `s` with every occurrence of the non-empty `m` replaced by `r`.
pub fn replace_str(s: &str, m: &str, r: &str) -> (out: String)
    requires
        m@.len() > 0,
    ensures
        out@ == replace_all(s@, m@, r@),
{
    let n = s.unicode_len();
    let k = m.unicode_len();
    let mut out = String::new();
    let mut i: usize = 0;
    assert(s@.subrange(0, n as int) =~= s@);
    while i < n
        invariant
            n == s@.len(),
            k == m@.len(),
            k > 0,
            i <= n,
            out@ + replace_all(s@.subrange(i as int, n as int), m@, r@) == replace_all(
                s@,
                m@,
                r@,
            ),
        decreases n - i,
    {
        let ghost t = s@.subrange(i as int, n as int);
        let ghost before = out@;
        if k <= n - i && occurs_at_exec(s, n, m, k, i) {
            assert(t.subrange(0, k as int) =~= s@.subrange(i as int, i + k));
            assert(t.subrange(k as int, t.len() as int) =~= s@.subrange(i + k, n as int));
            out.append(r);
            assert(out@ + replace_all(s@.subrange(i + k, n as int), m@, r@) =~= before
                + replace_all(t, m@, r@));
            i = i + k;
        } else {
            assert(k <= t.len() ==> t.subrange(0, k as int) =~= s@.subrange(i as int, i + k));
            assert(t.subrange(1, t.len() as int) =~= s@.subrange(i + 1, n as int));
            out.append(s.substring_char(i, i + 1));
            assert(s@.subrange(i as int, i + 1) =~= seq![t[0]]);
            assert(out@ + replace_all(s@.subrange(i + 1, n as int), m@, r@) =~= before
                + replace_all(t, m@, r@));
            i = i + 1;
        }
    }
    assert(s@.subrange(n as int, n as int) =~= Seq::<char>::empty());
    assert(out@ + Seq::<char>::empty() =~= out@);
    out
}

/// The ten decimal digits, in order.
pub open spec fn digit_chars() -> Seq<char> {
    seq!['0', '1', '2', '3', '4', '5', '6', '7', '8', '9']
}

/// The decimal notation of `n`, without leading zeros.
pub open spec fn decimal(n: nat) -> Seq<char>
    decreases n,
{
    if n < 10 {
        seq![digit_chars()[n as int]]
    } else {
        decimal(n / 10).push(digit_chars()[(n % 10) as int])
    }
}

/// Writes `n` in decimal.
pub fn decimal_string(n: u64) -> (r: String)
    ensures
        r@ == decimal(n as nat),
    decreases n,
{
    let digits = "0123456789";
    proof {
        reveal_strlit("0123456789");
    }
    let d = (n % 10) as usize;
    let one = digits.substring_char(d, d + 1);
    assert(one@ =~= seq![digit_chars()[d as int]]);
    if n < 10 {
        String::from_str(one)
    } else {
        let mut s = decimal_string(n / 10);
        s.append(one);
        s
    }
}

} // verus!
