//! Lexicographic order on byte strings, and sorted, duplicate-free
//! sequences of them. This total order is what makes the aggregated
//! header-directory set deterministic: any two sequences with the same
//! members sort to the same strictly increasing sequence.

use vstd::prelude::*;

verus! {

/// `a` is lexicographically at most `b` (bytewise, shorter prefix first).
pub open spec fn lex_le(a: Seq<u8>, b: Seq<u8>) -> bool
    decreases a.len(),
{
    if a.len() == 0 {
        true
    } else if b.len() == 0 {
        false
    } else if a[0] < b[0] {
        true
    } else if a[0] > b[0] {
        false
    } else {
        lex_le(a.skip(1), b.skip(1))
    }
}

/// Strict version of `lex_le`.
pub open spec fn lex_lt(a: Seq<u8>, b: Seq<u8>) -> bool {
    lex_le(a, b) && a != b
}

/// The order is total: one of the two directions always holds.
pub proof fn lemma_lex_total(a: Seq<u8>, b: Seq<u8>)
    ensures
        lex_le(a, b) || lex_le(b, a),
    decreases a.len(),
{
    if a.len() == 0 || b.len() == 0 {
    } else if a[0] == b[0] {
        lemma_lex_total(a.skip(1), b.skip(1));
    }
}

/// The order is antisymmetric: mutual `lex_le` means equality.
pub proof fn lemma_lex_antisym(a: Seq<u8>, b: Seq<u8>)
    requires
        lex_le(a, b),
        lex_le(b, a),
    ensures
        a == b,
    decreases a.len(),
{
    if a.len() == 0 {
        assert(b.len() == 0);
        assert(a =~= b);
    } else {
        assert(b.len() > 0);
        assert(a[0] == b[0]);
        lemma_lex_antisym(a.skip(1), b.skip(1));
        assert(a =~= seq![a[0]] + a.skip(1));
        assert(b =~= seq![b[0]] + b.skip(1));
    }
}

/// The order is transitive.
pub proof fn lemma_lex_trans(a: Seq<u8>, b: Seq<u8>, c: Seq<u8>)
    requires
        lex_le(a, b),
        lex_le(b, c),
    ensures
        lex_le(a, c),
    decreases a.len(),
{
    if a.len() == 0 || b.len() == 0 || c.len() == 0 {
    } else if a[0] == b[0] && b[0] == c[0] {
        lemma_lex_trans(a.skip(1), b.skip(1), c.skip(1));
    }
}

/// Equal prefixes do not affect the comparison of the remainders.
proof fn lemma_lex_skip(a: Seq<u8>, b: Seq<u8>, i: int)
    requires
        0 <= i <= a.len(),
        i <= b.len(),
        forall|j: int| 0 <= j < i ==> a[j] == b[j],
    ensures
        lex_le(a, b) == lex_le(a.skip(i), b.skip(i)),
    decreases i,
{
    if i > 0 {
        assert(a.len() > 0 && b.len() > 0 && a[0] == b[0]);
        assert(forall|j: int| 0 <= j < i - 1 ==> a.skip(1)[j] == b.skip(1)[j]);
        lemma_lex_skip(a.skip(1), b.skip(1), i - 1);
        assert(a.skip(1).skip(i - 1) =~= a.skip(i));
        assert(b.skip(1).skip(i - 1) =~= b.skip(i));
    } else {
        assert(a.skip(0) =~= a);
        assert(b.skip(0) =~= b);
    }
}

/// Bytewise comparison deciding `lex_le` on byte vectors.
pub fn lex_le_exec(a: &Vec<u8>, b: &Vec<u8>) -> (r: bool)
    ensures
        r == lex_le(a@, b@),
{
    let mut i: usize = 0;
    loop
        invariant
            i <= a.len(),
            i <= b.len(),
            forall|j: int| 0 <= j < i ==> a@[j] == b@[j],
        decreases a.len() - i,
    {
        if i == a.len() {
            proof {
                lemma_lex_skip(a@, b@, i as int);
                assert(a@.skip(i as int).len() == 0);
            }
            return true;
        }
        if i == b.len() {
            proof {
                lemma_lex_skip(a@, b@, i as int);
                assert(b@.skip(i as int).len() == 0);
                assert(a@.skip(i as int).len() > 0);
            }
            return false;
        }
        let x = a[i];
        let y = b[i];
        if x != y {
            proof {
                lemma_lex_skip(a@, b@, i as int);
                assert(a@.skip(i as int)[0] == a@[i as int]);
                assert(b@.skip(i as int)[0] == b@[i as int]);
            }
            return x < y;
        }
        i = i + 1;
    }
}

/// Bytewise equality on byte vectors.
pub fn bytes_eq(a: &Vec<u8>, b: &Vec<u8>) -> (r: bool)
    ensures
        r == (a@ == b@),
{
    if a.len() != b.len() {
        return false;
    }
    let mut i: usize = 0;
    while i < a.len()
        invariant
            i <= a.len(),
            a.len() == b.len(),
            forall|j: int| 0 <= j < i ==> a@[j] == b@[j],
        decreases a.len() - i,
    {
        if a[i] != b[i] {
            return false;
        }
        i = i + 1;
    }
    proof {
        assert(a@ =~= b@);
    }
    true
}

/// A fresh byte vector with the same contents.
pub fn copy_bytes(v: &Vec<u8>) -> (r: Vec<u8>)
    ensures
        r@ == v@,
{
    let mut r: Vec<u8> = Vec::new();
    let mut i: usize = 0;
    while i < v.len()
        invariant
            i <= v.len(),
            r@ == v@.take(i as int),
        decreases v.len() - i,
    {
        r.push(v[i]);
        proof {
            assert(v@.take(i as int + 1) =~= v@.take(i as int).push(v@[i as int]));
        }
        i = i + 1;
    }
    proof {
        assert(v@.take(v@.len() as int) =~= v@);
    }
    r
}

/// A fresh vector of byte vectors with the same contents.
pub fn copy_dirs(v: &Vec<Vec<u8>>) -> (r: Vec<Vec<u8>>)
    ensures
        views(r@) == views(v@),
        r@.len() == v@.len(),
{
    let mut r: Vec<Vec<u8>> = Vec::new();
    let mut i: usize = 0;
    while i < v.len()
        invariant
            i <= v.len(),
            r@.len() == i,
            forall|j: int| 0 <= j < i ==> r@[j]@ == v@[j]@,
        decreases v.len() - i,
    {
        r.push(copy_bytes(&v[i]));
        i = i + 1;
    }
    proof {
        assert(views(r@) =~= views(v@));
    }
    r
}

/// The views of a sequence of byte vectors.
pub open spec fn views(s: Seq<Vec<u8>>) -> Seq<Seq<u8>> {
    s.map_values(|v: Vec<u8>| v@)
}

/// Strictly increasing under `lex_lt`; hence also duplicate-free.
pub open spec fn strictly_sorted(s: Seq<Seq<u8>>) -> bool {
    forall|i: int, j: int| 0 <= i < j < s.len() ==> lex_lt(s[i], s[j])
}

/// Two strictly sorted sequences with the same members are equal:
/// the underlying set determines the sequence. This is the determinism
/// law behind the aggregated header-directory order.
pub proof fn lemma_strictly_sorted_unique(s1: Seq<Seq<u8>>, s2: Seq<Seq<u8>>)
    requires
        strictly_sorted(s1),
        strictly_sorted(s2),
        forall|p: Seq<u8>| s1.contains(p) <==> s2.contains(p),
    ensures
        s1 == s2,
    decreases s1.len(),
{
    if s1.len() == 0 {
        if s2.len() > 0 {
            assert(s2.contains(s2[0]));
            assert(false);
        }
        assert(s1 =~= s2);
    } else {
        assert(s1.contains(s1[0]));
        assert(s2.contains(s2[0]));
        let i = choose|i: int| 0 <= i < s2.len() && s2[i] == s1[0];
        let j = choose|j: int| 0 <= j < s1.len() && s1[j] == s2[0];
        if i > 0 {
            assert(lex_lt(s2[0], s2[i]));
        }
        if j > 0 {
            assert(lex_lt(s1[0], s1[j]));
        }
        if i > 0 && j > 0 {
            lemma_lex_antisym(s1[0], s2[0]);
            assert(false);
        }
        assert(s1[0] == s2[0]);
        let t1 = s1.skip(1);
        let t2 = s2.skip(1);
        assert forall|p: int, q: int| 0 <= p < q < t1.len() implies lex_lt(t1[p], t1[q]) by {
            assert(lex_lt(s1[p + 1], s1[q + 1]));
        }
        assert forall|p: int, q: int| 0 <= p < q < t2.len() implies lex_lt(t2[p], t2[q]) by {
            assert(lex_lt(s2[p + 1], s2[q + 1]));
        }
        assert forall|p: Seq<u8>| t1.contains(p) implies t2.contains(p) by {
            let k = choose|k: int| 0 <= k < t1.len() && t1[k] == p;
            assert(s1[k + 1] == p);
            assert(lex_lt(s1[0], p));
            assert(s2.contains(p));
            let m = choose|m: int| 0 <= m < s2.len() && s2[m] == p;
            if m == 0 {
                assert(p == s1[0]);
                assert(false);
            }
            assert(t2[m - 1] == p);
        }
        assert forall|p: Seq<u8>| t2.contains(p) implies t1.contains(p) by {
            let k = choose|k: int| 0 <= k < t2.len() && t2[k] == p;
            assert(s2[k + 1] == p);
            assert(lex_lt(s2[0], p));
            assert(s1.contains(p));
            let m = choose|m: int| 0 <= m < s1.len() && s1[m] == p;
            if m == 0 {
                assert(p == s2[0]);
                assert(false);
            }
            assert(t1[m - 1] == p);
        }
        lemma_strictly_sorted_unique(t1, t2);
        assert(s1.len() == s2.len());
        assert forall|k: int| 0 <= k < s1.len() implies s1[k] == s2[k] by {
            if k > 0 {
                assert(t1[k - 1] == t2[k - 1]);
            }
        }
        assert(s1 =~= s2);
    }
}

/// Insert `x` into a strictly sorted vector, keeping it strictly sorted;
/// a value already present is not inserted again.
pub fn insert_sorted(v: &mut Vec<Vec<u8>>, x: Vec<u8>)
    requires
        strictly_sorted(views(old(v)@)),
    ensures
        strictly_sorted(views(final(v)@)),
        forall|p: Seq<u8>|
            views(final(v)@).contains(p) <==> (views(old(v)@).contains(p) || p == x@),
{
    let ghost orig = views(v@);
    let mut i: usize = 0;
    loop
        invariant
            i <= v.len(),
            views(v@) == orig,
            strictly_sorted(orig),
            forall|j: int| 0 <= j < i ==> lex_lt(orig[j], x@),
        ensures
            i <= v.len(),
            views(v@) == orig,
            forall|j: int| 0 <= j < i ==> lex_lt(orig[j], x@),
            (i as int) < orig.len() ==> lex_lt(x@, orig[i as int]),
        decreases v.len() - i,
    {
        if i == v.len() {
            break;
        }
        let cur_lt = lex_le_exec(&v[i], &x);
        let cur_eq = bytes_eq(&v[i], &x);
        proof {
            assert(views(v@)[i as int] == v@[i as int]@);
        }
        if cur_eq {
            proof {
                assert(orig[i as int] == x@);
                assert(orig.contains(x@));
            }
            return;
        }
        if !cur_lt {
            proof {
                lemma_lex_total(orig[i as int], x@);
            }
            break;
        }
        proof {
            assert(lex_lt(orig[i as int], x@));
        }
        i = i + 1;
    }
    v.insert(i, x);
    proof {
        let now = views(v@);
        assert(now.len() == orig.len() + 1);
        assert(now[i as int] == x@);
        assert(forall|j: int| 0 <= j < i ==> now[j] == orig[j]);
        assert(forall|j: int| i < j < now.len() ==> now[j] == orig[j - 1]);
        let ghost ii = i as int;
        assert forall|p: int, q: int| 0 <= p < q < now.len() implies lex_lt(now[p], now[q]) by {
            if q < ii {
                assert(lex_lt(orig[p], orig[q]));
            } else if p > ii {
                assert(lex_lt(orig[p - 1], orig[q - 1]));
            } else if p < ii && q == ii {
                assert(lex_lt(orig[p], x@));
            } else if p == ii && q == ii + 1 {
                assert(lex_lt(x@, orig[ii]));
            } else if p == ii && q > ii + 1 {
                assert(lex_lt(orig[ii], orig[q - 1]));
                lemma_lex_trans(x@, orig[ii], orig[q - 1]);
                if x@ == orig[q - 1] {
                    lemma_lex_antisym(x@, orig[ii]);
                    assert(false);
                }
            } else {
                assert(p < ii && q > ii);
                assert(lex_lt(orig[p], orig[q - 1]));
            }
        }
        assert forall|p: Seq<u8>| now.contains(p) implies (orig.contains(p) || p == x@) by {
            let k = choose|k: int| 0 <= k < now.len() && now[k] == p;
            if k < i {
                assert(orig[k] == p);
            } else if k > i {
                assert(orig[k - 1] == p);
            }
        }
        assert forall|p: Seq<u8>| orig.contains(p) || p == x@ implies now.contains(p) by {
            if p == x@ {
                assert(now[i as int] == p);
            } else {
                let k = choose|k: int| 0 <= k < orig.len() && orig[k] == p;
                if k < i {
                    assert(now[k] == p);
                } else {
                    assert(now[k + 1] == p);
                }
            }
        }
    }
}

} // verus!
