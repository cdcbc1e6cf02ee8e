//! Character-sequence helpers shared by the path model and the record
//! codec: locating a separator, splitting a sequence on every occurrence
//! of a separator, and a few verified executable string primitives.
use vstd::prelude::*;

verus! {

/// Index of the first occurrence of `c` in `s`, or `s.len()` if `c` does
/// not occur.
pub open spec fn first_index_of(s: Seq<char>, c: char) -> int
    decreases s.len(),
{
    if s.len() == 0 {
        0
    } else if s[0] == c {
        0
    } else {
        1 + first_index_of(s.drop_first(), c)
    }
}

pub proof fn lemma_first_index_of(s: Seq<char>, c: char)
    ensures
        0 <= first_index_of(s, c) <= s.len(),
        first_index_of(s, c) < s.len() ==> s[first_index_of(s, c)] == c,
        forall|j: int| 0 <= j < first_index_of(s, c) ==> s[j] != c,
        s.contains(c) <==> first_index_of(s, c) < s.len(),
    decreases s.len(),
{
    if s.len() == 0 {
    } else if s[0] == c {
    } else {
        let rest = s.drop_first();
        lemma_first_index_of(rest, c);
        assert forall|j: int| 0 <= j < first_index_of(s, c) implies s[j] != c by {
            if j > 0 {
                assert(rest[j - 1] == s[j]);
            }
        }
        if s.contains(c) {
            let w = choose|i: int| 0 <= i < s.len() && s[i] == c;
            assert(rest[w - 1] == c);
            assert(rest.contains(c));
        }
        if rest.contains(c) {
            let w = choose|i: int| 0 <= i < rest.len() && rest[i] == c;
            assert(s[w + 1] == c);
        }
    }
}

/// The index of the first occurrence is pinned by its characteristic
/// properties, so any search that finds them has found `first_index_of`.
pub proof fn lemma_first_index_of_unique(s: Seq<char>, c: char, i: int)
    requires
        0 <= i <= s.len(),
        i < s.len() ==> s[i] == c,
        forall|j: int| 0 <= j < i ==> s[j] != c,
        i == s.len() ==> !s.contains(c),
    ensures
        first_index_of(s, c) == i,
{
    lemma_first_index_of(s, c);
    let f = first_index_of(s, c);
    if f < i {
        assert(s[f] != c);
    }
    if i < f {
        assert(s.contains(c));
    }
}

/// Split `s` on every occurrence of `c`. The result always has at least
/// one piece; a separator at either end or two adjacent separators yield
/// empty pieces.
pub open spec fn split_on(s: Seq<char>, c: char) -> Seq<Seq<char>>
    decreases s.len(),
{
    if s.len() == 0 {
        seq![Seq::<char>::empty()]
    } else if s[0] == c {
        seq![Seq::<char>::empty()] + split_on(s.drop_first(), c)
    } else {
        let rest = split_on(s.drop_first(), c);
        seq![seq![s[0]] + rest[0]] + rest.drop_first()
    }
}

pub proof fn lemma_split_on_len(s: Seq<char>, c: char)
    ensures
        split_on(s, c).len() >= 1,
    decreases s.len(),
{
    if s.len() == 0 {
    } else {
        lemma_split_on_len(s.drop_first(), c);
    }
}

/// A sequence without the separator splits into exactly itself.
pub proof fn lemma_split_on_no_sep(s: Seq<char>, c: char)
    requires
        !s.contains(c),
    ensures
        split_on(s, c) == seq![s],
    decreases s.len(),
{
    if s.len() == 0 {
        assert(split_on(s, c) =~~= seq![s]);
    } else {
        assert(s[0] != c);
        let rest = s.drop_first();
        assert(!rest.contains(c)) by {
            if rest.contains(c) {
                let w = choose|i: int| 0 <= i < rest.len() && rest[i] == c;
                assert(s[w + 1] == c);
            }
        }
        lemma_split_on_no_sep(rest, c);
        assert(seq![s[0]] + rest =~= s);
        assert(split_on(s, c) =~~= seq![s]);
    }
}

/// Splitting distributes over a separator placed between two sequences.
pub proof fn lemma_split_on_append(a: Seq<char>, b: Seq<char>, c: char)
    ensures
        split_on(a + seq![c] + b, c) == split_on(a, c) + split_on(b, c),
    decreases a.len(),
{
    let s = a + seq![c] + b;
    if a.len() == 0 {
        assert(s[0] == c);
        assert(s.drop_first() =~= b);
        assert(split_on(a, c) =~~= seq![Seq::<char>::empty()]);
        assert(split_on(s, c) =~~= split_on(a, c) + split_on(b, c));
    } else if a[0] == c {
        assert(s[0] == c);
        assert(s.drop_first() =~= a.drop_first() + seq![c] + b);
        lemma_split_on_append(a.drop_first(), b, c);
        assert(split_on(s, c) =~~= split_on(a, c) + split_on(b, c));
    } else {
        assert(s[0] == a[0]);
        assert(s.drop_first() =~= a.drop_first() + seq![c] + b);
        lemma_split_on_append(a.drop_first(), b, c);
        let ra = split_on(a.drop_first(), c);
        let rs = split_on(s.drop_first(), c);
        lemma_split_on_len(a.drop_first(), c);
        assert(rs[0] == ra[0]);
        assert(rs.drop_first() =~= ra.drop_first() + split_on(b, c));
        assert(split_on(s, c) =~~= split_on(a, c) + split_on(b, c));
    }
}

/// Peeling the first piece off a split: if the first separator of `s`
/// stands at `i`, the pieces are `s.take(i)` followed by the pieces of
/// what comes after the separator.
pub proof fn lemma_split_on_first(s: Seq<char>, c: char, i: int)
    requires
        0 <= i < s.len(),
        s[i] == c,
        forall|j: int| 0 <= j < i ==> s[j] != c,
    ensures
        split_on(s, c) == seq![s.take(i)] + split_on(s.skip(i + 1), c),
{
    assert(s =~= s.take(i) + seq![c] + s.skip(i + 1));
    lemma_split_on_append(s.take(i), s.skip(i + 1), c);
    assert(!s.take(i).contains(c)) by {
        if s.take(i).contains(c) {
            let w = choose|j: int| 0 <= j < s.take(i).len() && s.take(i)[j] == c;
            assert(s[w] == c);
        }
    }
    lemma_split_on_no_sep(s.take(i), c);
}

/// Finds the first occurrence of `c` in `s` at or after `from`, returning
/// the length of `s` when there is none.
pub fn find_char(s: &str, from: usize, c: char) -> (r: usize)
    requires
        from <= s@.len(),
    ensures
        from <= r <= s@.len(),
        r < s@.len() ==> s@[r as int] == c,
        forall|j: int| from <= j < r ==> s@[j] != c,
{
    let n = s.unicode_len();
    let mut i = from;
    while i < n
        invariant
            from <= i <= n,
            n == s@.len(),
            forall|j: int| from <= j < i ==> s@[j] != c,
        decreases n - i,
    {
        if s.get_char(i) == c {
            return i;
        }
        i = i + 1;
    }
    n
}

/// Whether `s` contains the character `c`.
pub fn contains_char(s: &str, c: char) -> (r: bool)
    ensures
        r == s@.contains(c),
{
    let n = s.unicode_len();
    let i = find_char(s, 0, c);
    if i < n {
        assert(s@.contains(c));
        true
    } else {
        assert(!s@.contains(c)) by {
            if s@.contains(c) {
                let w = choose|j: int| 0 <= j < s@.len() && s@[j] == c;
                assert(s@[w] != c);
            }
        }
        false
    }
}

/// Character-for-character string equality.
pub fn str_eq(a: &str, b: &str) -> (r: bool)
    ensures
        r == (a@ == b@),
{
    let na = a.unicode_len();
    let nb = b.unicode_len();
    if na != nb {
        return false;
    }
    let mut i: usize = 0;
    while i < na
        invariant
            0 <= i <= na,
            na == a@.len(),
            na == b@.len(),
            forall|j: int| 0 <= j < i ==> a@[j] == b@[j],
        decreases na - i,
    {
        if a.get_char(i) != b.get_char(i) {
            return false;
        }
        i = i + 1;
    }
    proof {
        assert(a@ =~= b@);
    }
    true
}

/// Whether `p` is a prefix of `s`, character for character.
pub fn str_starts_with(s: &str, p: &str) -> (r: bool)
    ensures
        r == p@.is_prefix_of(s@),
{
    let ns = s.unicode_len();
    let np = p.unicode_len();
    if np > ns {
        return false;
    }
    let mut i: usize = 0;
    while i < np
        invariant
            0 <= i <= np,
            np == p@.len(),
            ns == s@.len(),
            np <= ns,
            forall|j: int| 0 <= j < i ==> p@[j] == s@[j],
        decreases np - i,
    {
        if p.get_char(i) != s.get_char(i) {
            assert(!p@.is_prefix_of(s@)) by {
                if p@.is_prefix_of(s@) {
                    assert(s@.subrange(0, p@.len() as int)[i as int] == s@[i as int]);
                }
            }
            return false;
        }
        i = i + 1;
    }
    proof {
        assert(p@ =~= s@.subrange(0, p@.len() as int));
    }
    true
}

/// A fresh `String` holding the characters of `s` from `from` to `to`.
pub fn substring(s: &str, from: usize, to: usize) -> (r: String)
    requires
        from <= to <= s@.len(),
    ensures
        r@ == s@.subrange(from as int, to as int),
{
    s.substring_char(from, to).to_owned()
}

} // verus!
