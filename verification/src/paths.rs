//! The path model: vault-relative paths are `/`-separated sequences of
//! non-empty segments (never `.` or `..`), one trailing separator is
//! stripped before any comparison, and namespaces nest by directory
//! prefix.
use vstd::prelude::*;

use crate::text::{
    find_char, lemma_split_on_append, lemma_split_on_first, lemma_split_on_len,
    lemma_split_on_no_sep, split_on, substring,
};

verus! {

/// A raw path with one trailing separator stripped, the form every query
/// and operation works on.
pub open spec fn norm(s: Seq<char>) -> Seq<char> {
    if s.len() > 0 && s.last() == '/' {
        s.drop_last()
    } else {
        s
    }
}

/// A well-formed path segment: non-empty and neither `.` nor `..`.
pub open spec fn seg_ok(seg: Seq<char>) -> bool {
    seg.len() > 0 && seg != seq!['.'] && seg != seq!['.', '.']
}

/// A valid vault-relative path: non-empty, every segment well-formed.
pub open spec fn valid_path(p: Seq<char>) -> bool {
    p.len() > 0 && forall|i: int|
        0 <= i < split_on(p, '/').len() ==> seg_ok(#[trigger] split_on(p, '/')[i])
}

/// `a` names a namespace that properly contains `b`.
pub open spec fn dir_prefix_of(a: Seq<char>, b: Seq<char>) -> bool {
    a.len() < b.len() && b.take(a.len() as int) == a && b[a.len() as int] == '/'
}

/// Length of the base prefix of a query: everything before the last
/// separator, nothing when the query is a single segment.
pub open spec fn base_len(s: Seq<char>) -> int
    decreases s.len(),
{
    if s.len() == 0 {
        0
    } else if s.last() == '/' {
        s.len() - 1
    } else {
        base_len(s.drop_last())
    }
}

/// The base prefix of a query: its segments but the last, joined.
pub open spec fn base_of(s: Seq<char>) -> Seq<char> {
    s.take(base_len(s))
}

pub proof fn lemma_base_len(s: Seq<char>)
    ensures
        0 <= base_len(s) <= s.len(),
        s.contains('/') ==> base_len(s) < s.len() && s[base_len(s)] == '/' && (forall|j: int|
            base_len(s) < j < s.len() ==> s[j] != '/'),
        !s.contains('/') ==> base_len(s) == 0,
    decreases s.len(),
{
    if s.len() == 0 {
        assert(!s.contains('/'));
    } else if s.last() == '/' {
        assert(s.contains('/'));
    } else {
        let d = s.drop_last();
        lemma_base_len(d);
        if s.contains('/') {
            let w = choose|j: int| 0 <= j < s.len() && s[j] == '/';
            assert(w < s.len() - 1);
            assert(d[w] == '/');
            assert(d.contains('/'));
            assert(s[base_len(s)] == d[base_len(d)]);
            assert forall|j: int| base_len(s) < j < s.len() implies s[j] != '/' by {
                if j < s.len() - 1 {
                    assert(s[j] == d[j]);
                }
            }
        } else {
            assert(!d.contains('/')) by {
                if d.contains('/') {
                    let w = choose|j: int| 0 <= j < d.len() && d[j] == '/';
                    assert(s[w] == '/');
                }
            }
        }
    }
}

/// Two valid paths joined by a separator form a valid path.
pub proof fn lemma_valid_join(a: Seq<char>, b: Seq<char>)
    requires
        valid_path(a),
        valid_path(b),
    ensures
        valid_path(a + seq!['/'] + b),
{
    lemma_split_on_append(a, b, '/');
    let whole = split_on(a + seq!['/'] + b, '/');
    assert forall|i: int| 0 <= i < whole.len() implies seg_ok(#[trigger] whole[i]) by {
        if i < split_on(a, '/').len() {
            assert(whole[i] == split_on(a, '/')[i]);
        } else {
            assert(whole[i] == split_on(b, '/')[i - split_on(a, '/').len()]);
        }
    }
}

/// Cutting a valid path at a separator leaves two valid paths.
pub proof fn lemma_valid_split(p: Seq<char>, i: int)
    requires
        valid_path(p),
        0 <= i < p.len(),
        p[i] == '/',
    ensures
        valid_path(p.take(i)),
        valid_path(p.skip(i + 1)),
{
    assert(p =~= p.take(i) + seq!['/'] + p.skip(i + 1));
    lemma_split_on_append(p.take(i), p.skip(i + 1), '/');
    let pa = split_on(p.take(i), '/');
    let pb = split_on(p.skip(i + 1), '/');
    lemma_split_on_len(p.take(i), '/');
    lemma_split_on_len(p.skip(i + 1), '/');
    assert forall|j: int| 0 <= j < pa.len() implies seg_ok(#[trigger] pa[j]) by {
        assert(pa[j] == split_on(p, '/')[j]);
    }
    assert forall|j: int| 0 <= j < pb.len() implies seg_ok(#[trigger] pb[j]) by {
        assert(pb[j] == split_on(p, '/')[j + pa.len()]);
    }
    if i == 0 {
        lemma_split_on_no_sep(p.take(0), '/');
        assert(pa[0] == p.take(0));
        assert(!seg_ok(p.take(0)));
    }
    if p.skip(i + 1).len() == 0 {
        lemma_split_on_no_sep(p.skip(i + 1), '/');
        assert(pb[0] == p.skip(i + 1));
        assert(!seg_ok(p.skip(i + 1)));
    }
}

/// Namespace containment is transitive.
pub proof fn lemma_dir_prefix_trans(a: Seq<char>, b: Seq<char>, c: Seq<char>)
    requires
        dir_prefix_of(a, b),
        dir_prefix_of(b, c),
    ensures
        dir_prefix_of(a, c),
{
    assert forall|j: int| 0 <= j < b.len() implies c[j] == b[j] by {
        assert(c.take(b.len() as int)[j] == c[j]);
    }
    assert(c.take(a.len() as int) =~= a) by {
        assert forall|j: int| 0 <= j < a.len() implies c[j] == a[j] by {
            assert(b.take(a.len() as int)[j] == b[j]);
        }
    }
}

/// Strips one trailing separator, the normalization every operation and
/// query applies first.
pub fn normalize(s: &str) -> (r: String)
    ensures
        r@ == norm(s@),
{
    let n = s.unicode_len();
    if n > 0 && s.get_char(n - 1) == '/' {
        let r = substring(s, 0, n - 1);
        proof {
            assert(s@.subrange(0, n - 1) =~= s@.drop_last());
        }
        r
    } else {
        s.to_owned()
    }
}

/// Whether `s` is a valid vault-relative path.
pub fn check_path(s: &str) -> (b: bool)
    ensures
        b == valid_path(s@),
{
    let n = s.unicode_len();
    if n == 0 {
        return false;
    }
    let ghost all = split_on(s@, '/');
    let ghost done = Seq::<Seq<char>>::empty();
    proof {
        assert(s@.skip(0) =~= s@);
    }
    let mut pos: usize = 0;
    loop
        invariant
            n == s@.len(),
            n > 0,
            pos <= n,
            all == split_on(s@, '/'),
            all =~= done + split_on(s@.skip(pos as int), '/'),
            forall|i: int| 0 <= i < done.len() ==> seg_ok(#[trigger] done[i]),
        decreases n - pos,
    {
        let e = find_char(s, pos, '/');
        let ghost seg = s@.subrange(pos as int, e as int);
        proof {
            let tail = s@.skip(pos as int);
            if e < n {
                lemma_split_on_first(tail, '/', e - pos);
                assert(tail.take(e - pos) =~= seg);
                assert(tail.skip(e - pos + 1) =~= s@.skip(e + 1));
            } else {
                assert(!tail.contains('/')) by {
                    if tail.contains('/') {
                        let w = choose|j: int| 0 <= j < tail.len() && tail[j] == '/';
                        assert(s@[pos + w] == '/');
                    }
                }
                lemma_split_on_no_sep(tail, '/');
                assert(tail =~= seg);
            }
            assert(all[done.len() as int] == seg);
        }
        let len = e - pos;
        let bad = if len == 0 {
            true
        } else if len == 1 && s.get_char(pos) == '.' {
            proof {
                assert(seg =~= seq!['.']);
            }
            true
        } else if len == 2 && s.get_char(pos) == '.' && s.get_char(pos + 1) == '.' {
            proof {
                assert(seg =~= seq!['.', '.']);
            }
            true
        } else {
            proof {
                if seg == seq!['.'] {
                    assert(seg.len() == 1 && seg[0] == '.');
                }
                if seg == seq!['.', '.'] {
                    assert(seg.len() == 2 && seg[0] == '.' && seg[1] == '.');
                }
            }
            false
        };
        if bad {
            assert(!seg_ok(all[done.len() as int]));
            return false;
        }
        if e == n {
            proof {
                assert(all =~= done.push(seg));
                assert forall|i: int| 0 <= i < all.len() implies seg_ok(#[trigger] all[i]) by {
                    if i < done.len() {
                        assert(all[i] == done[i]);
                    } else {
                        assert(all[i] == seg);
                    }
                }
            }
            return true;
        }
        pos = e + 1;
        proof {
            done = done.push(seg);
        }
    }
}

/// The base prefix of a query: the characters before its last separator,
/// or the empty string for a single-segment query.
pub fn base_prefix(s: &str) -> (r: String)
    ensures
        r@ == base_of(s@),
{
    let n = s.unicode_len();
    let mut i = n;
    while i > 0
        invariant
            0 <= i <= n,
            n == s@.len(),
            forall|j: int| i <= j < n ==> s@[j] != '/',
        decreases i,
    {
        if s.get_char(i - 1) == '/' {
            proof {
                lemma_base_len(s@);
                assert(s@.contains('/'));
                let b = base_len(s@);
                if b < i - 1 {
                    assert(s@[i - 1] != '/');
                }
                if b > i - 1 {
                    assert(s@[b] != '/');
                }
            }
            return substring(s, 0, i - 1);
        }
        i = i - 1;
    }
    proof {
        lemma_base_len(s@);
        assert(!s@.contains('/')) by {
            if s@.contains('/') {
                let w = choose|j: int| 0 <= j < s@.len() && s@[j] == '/';
                assert(s@[w] != '/');
            }
        }
        assert(base_of(s@) =~= Seq::<char>::empty());
    }
    String::new()
}

} // verus!
