//! Character-level string helpers: prefix, suffix and infix tests, and splitting.
use vstd::prelude::*;
use vstd::string::StrSliceExecFns;

verus! {

broadcast use vstd::string::group_string_axioms;

/// `s` begins with `p`.
pub open spec fn seq_starts_with(s: Seq<char>, p: Seq<char>) -> bool {
    p.len() <= s.len() && s.subrange(0, p.len() as int) == p
}

/// `s` ends with `p`.
pub open spec fn seq_ends_with(s: Seq<char>, p: Seq<char>) -> bool {
    p.len() <= s.len() && s.subrange(s.len() - p.len(), s.len() as int) == p
}

/// `p` occurs in `s` at position `i`.
pub open spec fn occurs_at(s: Seq<char>, p: Seq<char>, i: int) -> bool {
    0 <= i && i + p.len() <= s.len() && s.subrange(i, i + p.len()) == p
}

/// `p` occurs somewhere in `s`.
pub open spec fn seq_contains(s: Seq<char>, p: Seq<char>) -> bool {
    exists|i: int| occurs_at(s, p, i)
}

/// The characters of `s`, in order.
pub fn chars_of(s: &str) -> (v: Vec<char>)
    ensures
        v@ == s@,
{
    let n = s.unicode_len();
    let mut v: Vec<char> = Vec::new();
    let mut i: usize = 0;
    while i < n
        invariant
            n == s@.len(),
            i <= n,
            v@ == s@.subrange(0, i as int),
        decreases n - i,
    {
        v.push(s.get_char(i));
        i = i + 1;
        assert(v@ =~= s@.subrange(0, i as int));
    }
    assert(v@ =~= s@);
    v
}

/// Whether `s[at..]` begins with `p`.
fn matches_at(s: &Vec<char>, p: &Vec<char>, at: usize) -> (b: bool)
    requires
        at + p@.len() <= s@.len(),
    ensures
        b == (s@.subrange(at as int, at + p@.len()) == p@),
{
    let mut i: usize = 0;
    while i < p.len()
        invariant
            i <= p@.len(),
            at + p@.len() <= s@.len(),
            s@.len() == s.len(),
            forall|j: int| 0 <= j < i ==> s@[at + j] == p@[j],
        decreases p@.len() - i,
    {
        if s[at + i] != p[i] {
            assert(s@.subrange(at as int, at + p@.len())[i as int] != p@[i as int]);
            return false;
        }
        i = i + 1;
    }
    assert(s@.subrange(at as int, at + p@.len()) =~= p@);
    true
}

/// Whether `s` begins with `p`.
pub fn starts_with(s: &Vec<char>, p: &Vec<char>) -> (b: bool)
    ensures
        b == seq_starts_with(s@, p@),
{
    if p.len() > s.len() {
        false
    } else {
        matches_at(s, p, 0)
    }
}

/// Whether `s` ends with `p`.
pub fn ends_with(s: &Vec<char>, p: &Vec<char>) -> (b: bool)
    ensures
        b == seq_ends_with(s@, p@),
{
    if p.len() > s.len() {
        false
    } else {
        matches_at(s, p, s.len() - p.len())
    }
}

/// Whether `p` occurs in `s`.
pub fn contains(s: &Vec<char>, p: &Vec<char>) -> (b: bool)
    ensures
        b == seq_contains(s@, p@),
{
    if p.len() > s.len() {
        return false;
    }
    let last = s.len() - p.len();
    let mut i: usize = 0;
    loop
        invariant
            last + p@.len() == s@.len(),
            i <= last,
            forall|j: int| 0 <= j < i ==> !occurs_at(s@, p@, j),
        decreases last - i,
    {
        if matches_at(s, p, i) {
            assert(occurs_at(s@, p@, i as int));
            return true;
        }
        if i == last {
            assert forall|j: int| !occurs_at(s@, p@, j) by {
                if 0 <= j <= last {
                }
            }
            return false;
        }
        i = i + 1;
    }
}

/// The pieces of `s` between occurrences of `sep`, as `str::split` with a
/// character pattern yields them: `k` separators give `k + 1` pieces.
pub open spec fn split_on(s: Seq<char>, sep: char) -> Seq<Seq<char>>
    decreases s.len(),
{
    if s.len() == 0 {
        seq![Seq::<char>::empty()]
    } else {
        let prev = split_on(s.drop_last(), sep);
        if s.last() == sep {
            prev.push(Seq::<char>::empty())
        } else {
            prev.update(prev.len() - 1, prev.last().push(s.last()))
        }
    }
}

/// There is always at least one piece.
pub proof fn lemma_split_on_nonempty(s: Seq<char>, sep: char)
    ensures
        split_on(s, sep).len() >= 1,
    decreases s.len(),
{
    if s.len() > 0 {
        lemma_split_on_nonempty(s.drop_last(), sep);
    }
}

/// Splits `s` at every occurrence of `sep`.
pub fn split_str<'a>(s: &'a str, sep: char) -> (v: Vec<&'a str>)
    ensures
        v@.len() == split_on(s@, sep).len(),
        forall|j: int| 0 <= j < v@.len() ==> (#[trigger] v@[j])@ == split_on(s@, sep)[j],
{
    let c = chars_of(s);
    let n = c.len();
    let mut v: Vec<&'a str> = Vec::new();
    let mut start: usize = 0;
    let mut i: usize = 0;
    assert(s@.subrange(0, 0) =~= Seq::<char>::empty());
    while i < n
        invariant
            c@ == s@,
            n == s@.len(),
            start <= i <= n,
            split_on(s@.subrange(0, i as int), sep).len() == v@.len() + 1,
            forall|j: int| 0 <= j < v@.len() ==> (#[trigger] v@[j])@ == split_on(s@.subrange(0, i as int), sep)[j],
            split_on(s@.subrange(0, i as int), sep).last() == s@.subrange(start as int, i as int),
        decreases n - i,
    {
        let ghost prev = split_on(s@.subrange(0, i as int), sep);
        assert(s@.subrange(0, i + 1).drop_last() =~= s@.subrange(0, i as int));
        if c[i] == sep {
            let piece = s.substring_char(start, i);
            v.push(piece);
            i = i + 1;
            start = i;
            assert(s@.subrange(start as int, i as int) =~= Seq::<char>::empty());
        } else {
            i = i + 1;
            assert(s@.subrange(start as int, i as int) =~= s@.subrange(start as int, i - 1).push(s@[i - 1]));
        }
    }
    let piece = s.substring_char(start, n);
    v.push(piece);
    assert(s@.subrange(0, n as int) =~= s@);
    v
}

/// Whether `a` and `b` hold the same characters.
pub fn str_eq(a: &str, b: &str) -> (r: bool)
    ensures
        r == (a@ == b@),
{
    let x = chars_of(a);
    let y = chars_of(b);
    if x.len() != y.len() {
        return false;
    }
    let r = starts_with(&x, &y);
    assert(x@.subrange(0, y@.len() as int) =~= x@);
    r
}

/// No piece of a split holds the separator.
pub proof fn lemma_split_pieces_lack_sep(t: Seq<char>, sep: char)
    ensures
        forall|j: int| 0 <= j < split_on(t, sep).len() ==> !(#[trigger] split_on(t, sep)[j]).contains(sep),
    decreases t.len(),
{
    if t.len() > 0 {
        lemma_split_pieces_lack_sep(t.drop_last(), sep);
        lemma_split_on_nonempty(t.drop_last(), sep);
        let prev = split_on(t.drop_last(), sep);
        if t.last() != sep {
            let last = prev.last().push(t.last());
            assert(!prev[prev.len() - 1].contains(sep));
            assert forall|k: int| 0 <= k < last.len() implies last[k] != sep by {
                if k < last.len() - 1 {
                    assert(last[k] == prev.last()[k]);
                }
            }
        }
        assert forall|j: int| 0 <= j < split_on(t, sep).len() implies !(#[trigger] split_on(t, sep)[j]).contains(sep) by {
            if t.last() == sep {
                if j < prev.len() {
                    assert(split_on(t, sep)[j] == prev[j]);
                } else {
                    assert(split_on(t, sep)[j] =~= Seq::<char>::empty());
                }
            } else if j < prev.len() - 1 {
                assert(split_on(t, sep)[j] == prev[j]);
            }
        }
    }
}

/// Text without the separator is one piece.
pub proof fn lemma_split_without_sep(x: Seq<char>, sep: char)
    requires
        !x.contains(sep),
    ensures
        split_on(x, sep) == seq![x],
    decreases x.len(),
{
    if x.len() > 0 {
        let p = x.drop_last();
        assert(!p.contains(sep)) by {
            if p.contains(sep) {
                let i = choose|i: int| 0 <= i < p.len() && p[i] == sep;
                assert(x[i] == sep);
            }
        }
        lemma_split_without_sep(p, sep);
        assert(x[x.len() - 1] != sep);
        assert(p.push(x.last()) =~= x);
        assert(split_on(x, sep) =~= seq![x]);
    } else {
        assert(x =~= Seq::<char>::empty());
    }
}

/// Splitting text joined at a separator gives the pieces of each side, in order.
pub proof fn lemma_split_join(x: Seq<char>, y: Seq<char>, sep: char)
    ensures
        split_on(x + seq![sep] + y, sep) == split_on(x, sep) + split_on(y, sep),
    decreases y.len(),
{
    let t = x + seq![sep] + y;
    lemma_split_on_nonempty(y, sep);
    if y.len() == 0 {
        assert(t =~= x.push(sep));
        assert(x.push(sep).drop_last() =~= x);
        assert(split_on(t, sep) =~= split_on(x, sep) + split_on(y, sep));
    } else {
        let y0 = y.drop_last();
        lemma_split_join(x, y0, sep);
        lemma_split_on_nonempty(y0, sep);
        assert(t.drop_last() =~= x + seq![sep] + y0);
        assert(t.last() == y.last());
        let a = split_on(x, sep);
        let b0 = split_on(y0, sep);
        if y.last() == sep {
            assert(split_on(t, sep) =~= a + split_on(y, sep));
        } else {
            assert((a + b0).last() == b0.last());
            assert(split_on(t, sep) =~= a + split_on(y, sep));
        }
    }
}

/// Whether `s` ends in `/`.
pub fn ends_with_slash(s: &str) -> (b: bool)
    ensures
        b == seq_ends_with(s@, seq!['/']),
{
    let c = chars_of(s);
    let b = c.len() > 0 && c[c.len() - 1] == '/';
    proof {
        if c@.len() > 0 {
            let tail = s@.subrange(s@.len() - 1, s@.len() as int);
            if s@.last() == '/' {
                assert(tail =~= seq!['/']);
            } else {
                assert(tail[0] != seq!['/'][0]);
            }
        }
    }
    b
}

/// What occurs in the middle piece of a concatenation occurs in the whole.
pub proof fn lemma_contains_in_middle(a: Seq<char>, b: Seq<char>, c: Seq<char>, x: Seq<char>)
    requires
        seq_contains(b, x),
    ensures
        seq_contains(a + b + c, x),
{
    let i = choose|i: int| occurs_at(b, x, i);
    let s = a + b + c;
    assert(s.subrange(a.len() + i, a.len() + i + x.len()) =~= b.subrange(i, i + x.len()));
    assert(occurs_at(s, x, a.len() + i));
}

} // verus!
