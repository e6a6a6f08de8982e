//! Byte-wise ordering of keys and the canonical sorted arrangement of key/value pairs.
use vstd::prelude::*;

verus! {

/// `a` comes before `b` in byte-wise ascending order.
pub open spec fn bytes_lt(a: Seq<u8>, b: Seq<u8>) -> bool
    decreases a.len(),
{
    if a.len() == 0 {
        b.len() > 0
    } else if b.len() == 0 {
        false
    } else if a[0] != b[0] {
        a[0] < b[0]
    } else {
        bytes_lt(a.skip(1), b.skip(1))
    }
}

pub proof fn lemma_lt_irreflexive(a: Seq<u8>)
    ensures
        !bytes_lt(a, a),
    decreases a.len(),
{
    if a.len() > 0 {
        lemma_lt_irreflexive(a.skip(1));
    }
}

pub proof fn lemma_lt_transitive(a: Seq<u8>, b: Seq<u8>, c: Seq<u8>)
    requires
        bytes_lt(a, b),
        bytes_lt(b, c),
    ensures
        bytes_lt(a, c),
    decreases a.len(),
{
    if a.len() > 0 && b.len() > 0 && c.len() > 0 && a[0] == b[0] && b[0] == c[0] {
        lemma_lt_transitive(a.skip(1), b.skip(1), c.skip(1));
    }
}

/// Compares two byte strings: negative, zero or positive as `a` comes before,
/// equals or comes after `b`.
pub fn compare_bytes(a: &Vec<u8>, b: &Vec<u8>) -> (r: i8)
    ensures
        r < 0 <==> bytes_lt(a@, b@),
        r == 0 <==> a@ == b@,
        r > 0 <==> bytes_lt(b@, a@),
{
    let mut i: usize = 0;
    assert(a@.skip(0) =~= a@);
    assert(b@.skip(0) =~= b@);
    assert(a@.take(0) =~= b@.take(0));
    while i < a.len() && i < b.len()
        invariant
            i <= a.len(),
            i <= b.len(),
            a@.take(i as int) == b@.take(i as int),
            bytes_lt(a@, b@) == bytes_lt(a@.skip(i as int), b@.skip(i as int)),
            bytes_lt(b@, a@) == bytes_lt(b@.skip(i as int), a@.skip(i as int)),
        decreases a.len() - i,
    {
        if a[i] != b[i] {
            proof {
                assert(a@.skip(i as int)[0] == a@[i as int]);
                assert(b@.skip(i as int)[0] == b@[i as int]);
                if a@ == b@ {
                    assert(a@[i as int] == b@[i as int]);
                }
            }
            if a[i] < b[i] {
                return -1;
            } else {
                return 1;
            }
        }
        proof {
            assert(a@.skip(i as int).skip(1) =~= a@.skip(i + 1));
            assert(b@.skip(i as int).skip(1) =~= b@.skip(i + 1));
            assert(a@.take(i + 1) =~= a@.take(i as int).push(a@[i as int]));
            assert(b@.take(i + 1) =~= b@.take(i as int).push(b@[i as int]));
        }
        i = i + 1;
    }
    if i < b.len() {
        proof {
            assert(a@.skip(i as int).len() == 0);
            if a@ == b@ {
                assert(false);
            }
        }
        -1
    } else if i < a.len() {
        proof {
            assert(b@.skip(i as int).len() == 0);
        }
        1
    } else {
        proof {
            assert(a@ =~= a@.take(i as int));
            assert(b@ =~= b@.take(i as int));
            assert(a@.skip(i as int).len() == 0);
            assert(b@.skip(i as int).len() == 0);
        }
        0
    }
}

/// The keys of `ps` strictly ascend.
pub open spec fn sorted_by_key(ps: Seq<(Seq<u8>, Seq<u8>)>) -> bool {
    forall|i: int, j: int| 0 <= i < j < ps.len() ==> bytes_lt(#[trigger] ps[i].0, #[trigger] ps[j].0)
}

/// No two pairs of `ps` share a key.
pub open spec fn keys_unique(ps: Seq<(Seq<u8>, Seq<u8>)>) -> bool {
    forall|i: int, j: int| 0 <= i < j < ps.len() ==> #[trigger] ps[i].0 != #[trigger] ps[j].0
}

/// The arrangement of a set of pairs in strictly ascending key order.
pub open spec fn canonical(s: Set<(Seq<u8>, Seq<u8>)>) -> Seq<(Seq<u8>, Seq<u8>)> {
    choose|q: Seq<(Seq<u8>, Seq<u8>)>| sorted_by_key(q) && q.to_set() == s
}

/// Two arrangements in strictly ascending key order of one set are the same.
pub proof fn lemma_sorted_unique(p: Seq<(Seq<u8>, Seq<u8>)>, q: Seq<(Seq<u8>, Seq<u8>)>)
    requires
        sorted_by_key(p),
        sorted_by_key(q),
        p.to_set() == q.to_set(),
    ensures
        p == q,
    decreases p.len(),
{
    if p.len() == 0 {
        if q.len() > 0 {
            assert(q.to_set().contains(q[0]));
        }
        assert(p =~= q);
    } else {
        assert(p.to_set().contains(p[0]));
        assert(q.len() > 0);
        assert(q.to_set().contains(q[0]));
        let k = choose|k: int| 0 <= k < q.len() && q[k] == p[0];
        let m = choose|m: int| 0 <= m < p.len() && p[m] == q[0];
        if k > 0 {
            assert(bytes_lt(q[0].0, q[k].0));
            if m > 0 {
                assert(bytes_lt(p[0].0, p[m].0));
                lemma_lt_transitive(p[0].0, p[m].0, p[0].0);
            }
            lemma_lt_irreflexive(p[0].0);
        }
        assert(p[0] == q[0]);
        let p_tail = p.skip(1);
        let q_tail = q.skip(1);
        assert forall|x| p_tail.to_set().contains(x) implies q_tail.to_set().contains(x) by {
            let i = choose|i: int| 0 <= i < p_tail.len() && p_tail[i] == x;
            assert(p.to_set().contains(x));
            let j = choose|j: int| 0 <= j < q.len() && q[j] == x;
            if j == 0 {
                assert(bytes_lt(p[0].0, p[i + 1].0));
                lemma_lt_irreflexive(p[0].0);
            }
            assert(q_tail[j - 1] == x);
        }
        assert forall|x| q_tail.to_set().contains(x) implies p_tail.to_set().contains(x) by {
            let i = choose|i: int| 0 <= i < q_tail.len() && q_tail[i] == x;
            assert(q.to_set().contains(x));
            let j = choose|j: int| 0 <= j < p.len() && p[j] == x;
            if j == 0 {
                assert(bytes_lt(q[0].0, q[i + 1].0));
                lemma_lt_irreflexive(q[0].0);
            }
            assert(p_tail[j - 1] == x);
        }
        assert(p_tail.to_set() =~= q_tail.to_set());
        lemma_sorted_unique(p_tail, q_tail);
        assert(p =~= seq![p[0]] + p_tail);
        assert(q =~= seq![q[0]] + q_tail);
    }
}

} // verus!
