//! The order in which the store keeps its keys: byte strings compared byte
//! by byte, a string before every longer string that starts with it.

use vstd::prelude::*;

verus! {

/// `a` comes before `b`: the first byte in which they differ is smaller in
/// `a`, or `a` ends where `b` goes on.
pub open spec fn bytes_lt(a: Seq<u8>, b: Seq<u8>) -> bool
    decreases a.len(),
{
    if b.len() == 0 {
        false
    } else if a.len() == 0 {
        true
    } else if a[0] != b[0] {
        a[0] < b[0]
    } else {
        bytes_lt(a.drop_first(), b.drop_first())
    }
}

/// `a` comes before `b` or is `b`.
pub open spec fn bytes_le(a: Seq<u8>, b: Seq<u8>) -> bool {
    a == b || bytes_lt(a, b)
}

/// Each key of the sequence comes before the next one.
pub open spec fn increasing(keys: Seq<Seq<u8>>) -> bool {
    forall|i: int, j: int| 0 <= i < j < keys.len() ==> bytes_lt(keys[i], keys[j])
}

proof fn lemma_split_first(a: Seq<u8>)
    requires
        a.len() > 0,
    ensures
        a == seq![a[0]] + a.drop_first(),
{
    assert(a =~= seq![a[0]] + a.drop_first());
}

/// No key comes before itself.
pub proof fn lemma_lt_irreflexive(a: Seq<u8>)
    ensures
        !bytes_lt(a, a),
    decreases a.len(),
{
    if a.len() > 0 {
        lemma_lt_irreflexive(a.drop_first());
    }
}

/// What comes before a key comes before every later key.
pub proof fn lemma_lt_transitive(a: Seq<u8>, b: Seq<u8>, c: Seq<u8>)
    requires
        bytes_lt(a, b),
        bytes_lt(b, c),
    ensures
        bytes_lt(a, c),
    decreases a.len(),
{
    if a.len() > 0 && a[0] == b[0] && b[0] == c[0] {
        lemma_lt_transitive(a.drop_first(), b.drop_first(), c.drop_first());
    }
}

/// Of two keys not both come before the other.
pub proof fn lemma_lt_asymmetric(a: Seq<u8>, b: Seq<u8>)
    requires
        bytes_lt(a, b),
    ensures
        !bytes_lt(b, a),
        a != b,
{
    lemma_lt_irreflexive(a);
    if bytes_lt(b, a) {
        lemma_lt_transitive(a, b, a);
    }
}

/// `<=` followed by `<` is `<`, and so is `<` followed by `<=`.
pub proof fn lemma_le_lt(a: Seq<u8>, b: Seq<u8>, c: Seq<u8>)
    requires
        (bytes_le(a, b) && bytes_lt(b, c)) || (bytes_lt(a, b) && bytes_le(b, c)),
    ensures
        bytes_lt(a, c),
{
    if a != b && b != c {
        lemma_lt_transitive(a, b, c);
    }
}

/// Keys that start alike compare as what follows the common start.
pub proof fn lemma_common_prefix(p: Seq<u8>, a: Seq<u8>, b: Seq<u8>)
    ensures
        bytes_lt(p + a, p + b) == bytes_lt(a, b),
    decreases p.len(),
{
    if p.len() == 0 {
        assert(p + a =~= a);
        assert(p + b =~= b);
    } else {
        assert((p + a).drop_first() =~= p.drop_first() + a);
        assert((p + b).drop_first() =~= p.drop_first() + b);
        lemma_common_prefix(p.drop_first(), a, b);
    }
}

/// A key comes before every longer key that starts with it.
pub proof fn lemma_prefix_lt(p: Seq<u8>, rest: Seq<u8>)
    requires
        rest.len() > 0,
    ensures
        bytes_lt(p, p + rest),
{
    lemma_common_prefix(p, Seq::empty(), rest);
    assert(p + Seq::<u8>::empty() =~= p);
}

/// Two keys that agree up to a position compare as their bytes there.
pub proof fn lemma_lt_at(a: Seq<u8>, b: Seq<u8>, at: int)
    requires
        0 <= at < a.len(),
        at < b.len(),
        a.take(at) == b.take(at),
        a[at] < b[at],
    ensures
        bytes_lt(a, b),
{
    let p = a.take(at);
    assert(a =~= p + a.skip(at));
    assert(b =~= p + b.skip(at));
    lemma_common_prefix(p, a.skip(at), b.skip(at));
}

/// The keys above `a` are the keys from `a` followed by a zero byte on: no
/// key lies between the two.
pub proof fn lemma_successor(a: Seq<u8>, k: Seq<u8>)
    ensures
        bytes_lt(a, k) <==> bytes_le(a.push(0u8), k),
    decreases a.len(),
{
    let next = a.push(0u8);
    assert(next.len() == a.len() + 1);
    if k.len() == 0 {
    } else if a.len() == 0 {
        assert(next[0] == 0u8);
        assert(next.drop_first() =~= Seq::<u8>::empty());
        if k[0] == 0 && k.len() == 1 {
            assert(k =~= next);
        } else if k[0] == 0 {
            assert(bytes_lt(next.drop_first(), k.drop_first()));
        }
    } else {
        assert(next[0] == a[0]);
        if a[0] == k[0] {
            assert(next.drop_first() =~= a.drop_first().push(0u8));
            lemma_successor(a.drop_first(), k.drop_first());
            lemma_split_first(next);
            lemma_split_first(k);
        }
    }
}

/// A key between `p` and a longer key that starts with `p` starts with `p`.
pub proof fn lemma_between_has_prefix(p: Seq<u8>, rest: Seq<u8>, k: Seq<u8>)
    requires
        bytes_le(p, k),
        bytes_le(k, p + rest),
    ensures
        p.is_prefix_of(k),
    decreases p.len(),
{
    if p.len() == 0 {
        assert(p =~= k.subrange(0, 0));
    } else if k == p || k == p + rest {
        assert(p =~= k.subrange(0, p.len() as int));
    } else {
        assert((p + rest)[0] == p[0]);
        assert((p + rest).drop_first() =~= p.drop_first() + rest);
        assert(k.len() > 0 && k[0] == p[0]);
        let q = p.drop_first();
        let l = k.drop_first();
        lemma_between_has_prefix(q, rest, l);
        assert(q =~= l.subrange(0, q.len() as int));
        assert forall|i: int| 0 <= i < p.len() implies p[i] == k[i] by {
            if i > 0 {
                assert(p[i] == q[i - 1]);
                assert(l.subrange(0, q.len() as int)[i - 1] == l[i - 1]);
            }
        }
        assert(p =~= k.subrange(0, p.len() as int));
    }
}

} // verus!
