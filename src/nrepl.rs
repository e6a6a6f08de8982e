//! Operations of the REPL protocol and their encoding.
use vstd::prelude::*;
use vstd::string::StrSliceExecFns;
use vstd::utf8::encode_utf8;
use crate::wire::{Wire, WireValue, enc, encode, view_pairs};
use crate::order::{
    bytes_lt, compare_bytes, sorted_by_key, keys_unique, canonical, lemma_sorted_unique,
    lemma_lt_transitive, lemma_lt_irreflexive,
};

verus! {

/// The bytes of a text in UTF-8.
pub open spec fn utf8(s: Seq<char>) -> Seq<u8> {
    encode_utf8(s)
}

/// The key under which an operation's name is sent: `op`.
pub open spec fn op_key() -> Seq<u8> {
    seq![111u8, 112u8]
}

/// The byte pairs of a list of named text arguments.
pub open spec fn arg_pairs(args: Seq<(String, String)>) -> Seq<(Seq<u8>, Seq<u8>)> {
    args.map_values(|a: (String, String)| (utf8(a.0@), utf8(a.1@)))
}

/// A map whose values are all byte strings.
pub open spec fn text_dict(ps: Seq<(Seq<u8>, Seq<u8>)>) -> Wire {
    Wire::Dict(ps.map_values(|p: (Seq<u8>, Seq<u8>)| (p.0, Wire::Bytes(p.1))))
}

pub open spec fn pairs_view(s: Seq<(Vec<u8>, Vec<u8>)>) -> Seq<(Seq<u8>, Seq<u8>)> {
    s.map_values(|p: (Vec<u8>, Vec<u8>)| (p.0@, p.1@))
}

/// Why an operation cannot be encoded.
#[derive(Debug, Clone, Copy, PartialEq, Eq, Structural)]
pub enum EncodeError {
    /// Two arguments, or an argument and the operation name, share a key.
    DuplicateKey,
}

/// A named request with named text arguments.
#[derive(Debug)]
pub struct Op {
    pub name: String,
    pub args: Vec<(String, String)>,
}

impl Op {
    pub fn new(name: String, args: Vec<(String, String)>) -> (r: Op)
        ensures
            r.name@ == name@,
            r.args@ == args@,
    {
        Op { name, args }
    }

    /// The key/value pairs that the operation sends: its name under `op`, then its
    /// arguments in the order given.
    pub open spec fn pairs(&self) -> Seq<(Seq<u8>, Seq<u8>)> {
        seq![(op_key(), utf8(self.name@))] + arg_pairs(self.args@)
    }

    /// The map that the operation is sent as: its pairs in ascending key order.
    pub open spec fn wire(&self) -> Wire {
        text_dict(canonical(self.pairs().to_set()))
    }

    /// Encodes the operation as a map whose keys ascend byte-wise. Fails exactly
    /// when two of its keys are equal.
    pub fn encode(&self) -> (r: Result<Vec<u8>, EncodeError>)
        ensures
            r is Ok <==> keys_unique(self.pairs()),
            r is Ok ==> r->Ok_0@ == enc(self.wire()),
            r is Ok ==> sorted_by_key(canonical(self.pairs().to_set())) && canonical(
                self.pairs().to_set(),
            ).to_set() == self.pairs().to_set(),
            r is Err ==> r->Err_0 == EncodeError::DuplicateKey,
    {
        let mut out: Vec<(Vec<u8>, Vec<u8>)> = Vec::new();
        let ghost ps = self.pairs();
        let ok = insert_pair(&mut out, vec![111u8, 112u8], self.name.as_str().as_bytes_vec());
        assert(ok);
        proof {
            assert(ps.take(1) =~= seq![ps[0]]);
            assert(pairs_view(Seq::<(Vec<u8>, Vec<u8>)>::empty()).to_set() =~= Set::empty());
            lemma_push_to_set(Seq::empty(), ps[0]);
            assert(Seq::empty().push(ps[0]) =~= ps.take(1));
        }
        let mut i: usize = 0;
        while i < self.args.len()
            invariant
                i <= self.args.len(),
                ps == self.pairs(),
                ps.len() == self.args.len() + 1,
                sorted_by_key(pairs_view(out@)),
                pairs_view(out@).to_set() == ps.take(i + 1).to_set(),
                keys_unique(ps.take(i + 1)),
            decreases self.args.len() - i,
        {
            let k = self.args[i].0.as_str().as_bytes_vec();
            let v = self.args[i].1.as_str().as_bytes_vec();
            let ghost before = pairs_view(out@);
            assert(ps[i + 1] == (k@, v@));
            if !insert_pair(&mut out, k, v) {
                proof {
                    let j = choose|j: int| 0 <= j < before.len() && before[j].0 == k@;
                    assert(before.to_set().contains(before[j]));
                    let pre = ps.take(i + 1);
                    assert(pre.to_set().contains(before[j]));
                    let m = choose|m: int| 0 <= m < pre.len() && #[trigger] pre[m] == before[j];
                    assert(ps[m].0 == ps[i + 1].0);
                }
                return Err(EncodeError::DuplicateKey);
            }
            proof {
                assert(ps.take(i + 2) =~= ps.take(i + 1).push(ps[i + 1]));
                lemma_push_to_set(ps.take(i + 1), ps[i + 1]);
                assert forall|a: int, b: int| 0 <= a < b < ps.take(i + 2).len() implies
                    #[trigger] ps.take(i + 2)[a].0 != #[trigger] ps.take(i + 2)[b].0 by {
                    if b == i + 1 {
                        assert(ps.take(i + 1)[a] == ps[a]);
                        assert(ps.take(i + 1).to_set().contains(ps[a]));
                        assert(before.to_set().contains(ps[a]));
                        let j = choose|j: int| 0 <= j < before.len() && before[j] == ps[a];
                    } else {
                        assert(ps.take(i + 1)[a] == ps[a]);
                        assert(ps.take(i + 1)[b] == ps[b]);
                    }
                }
            }
            i = i + 1;
        }
        proof {
            assert(ps.take(i + 1) =~= ps);
            let q = pairs_view(out@);
            assert(sorted_by_key(q) && q.to_set() == ps.to_set());
            lemma_sorted_unique(q, canonical(ps.to_set()));
        }
        let mut dict: Vec<(Vec<u8>, WireValue)> = Vec::new();
        let mut n: usize = 0;
        while n < out.len()
            invariant
                n <= out.len(),
                view_pairs(dict@) == pairs_view(out@).take(n as int).map_values(
                    |p: (Seq<u8>, Seq<u8>)| (p.0, Wire::Bytes(p.1)),
                ),
            decreases out.len() - n,
        {
            let key = out[n].0.clone();
            let val = out[n].1.clone();
            proof {
                crate::decode::lemma_view_pairs_push(dict@, (key, WireValue::Bytes(val)));
            }
            dict.push((key, WireValue::Bytes(val)));
            proof {
                assert(pairs_view(out@).take(n + 1) =~= pairs_view(out@).take(n as int).push(
                    pairs_view(out@)[n as int],
                ));
                assert(view_pairs(dict@) =~= pairs_view(out@).take(n + 1).map_values(
                    |p: (Seq<u8>, Seq<u8>)| (p.0, Wire::Bytes(p.1)),
                ));
            }
            n = n + 1;
        }
        proof {
            assert(pairs_view(out@).take(n as int) =~= pairs_view(out@));
        }
        let d = WireValue::Dict(dict);
        assert(d@ == self.wire());
        proof {
            assert forall|q: Seq<(Seq<u8>, Seq<u8>)>|
                sorted_by_key(q) && q.to_set() == self.pairs().to_set() implies text_dict(q)
                == self.wire() by {
                lemma_sorted_unique(q, canonical(self.pairs().to_set()));
            }
        }
        Ok(encode(&d))
    }
}

/// Encoding is deterministic: two operations with the same name and the same set of
/// arguments, in whatever order they were given, are sent as the same map, and so
/// as the same bytes.
pub proof fn lemma_encoding_deterministic(a: Op, b: Op)
    requires
        a.name@ == b.name@,
        a.args@.to_set() == b.args@.to_set(),
    ensures
        a.wire() == b.wire(),
        enc(a.wire()) == enc(b.wire()),
{
    lemma_pairs_set(a, b);
    lemma_pairs_set(b, a);
    assert(a.pairs().to_set() =~= b.pairs().to_set());
}

proof fn lemma_pairs_set(a: Op, b: Op)
    requires
        a.name@ == b.name@,
        a.args@.to_set() == b.args@.to_set(),
    ensures
        forall|x| a.pairs().to_set().contains(x) ==> b.pairs().to_set().contains(x),
{
    assert forall|x| a.pairs().to_set().contains(x) implies b.pairs().to_set().contains(x) by {
        let i = choose|i: int| 0 <= i < a.pairs().len() && a.pairs()[i] == x;
        if i == 0 {
            assert(b.pairs()[0] == x);
        } else {
            let y = a.args@[i - 1];
            assert(a.args@.to_set().contains(y));
            let j = choose|j: int| 0 <= j < b.args@.len() && b.args@[j] == y;
            assert(b.pairs()[j + 1] == x);
        }
    }
}

proof fn lemma_push_to_set<T>(s: Seq<T>, x: T)
    ensures
        s.push(x).to_set() == s.to_set().insert(x),
{
    assert forall|y| s.push(x).to_set().contains(y) <==> s.to_set().insert(x).contains(y) by {
        if s.push(x).to_set().contains(y) {
            let j = choose|j: int| 0 <= j < s.push(x).len() && s.push(x)[j] == y;
            if j < s.len() {
                assert(s[j] == y);
            }
        }
        if s.to_set().contains(y) {
            let j = choose|j: int| 0 <= j < s.len() && s[j] == y;
            assert(s.push(x)[j] == y);
        }
        if y == x {
            assert(s.push(x)[s.len() as int] == y);
        }
    }
    assert(s.push(x).to_set() =~= s.to_set().insert(x));
}

/// Inserts a pair at its place in key order; returns false, and leaves `out`
/// as it was, when the key is already there.
fn insert_pair(out: &mut Vec<(Vec<u8>, Vec<u8>)>, k: Vec<u8>, v: Vec<u8>) -> (r: bool)
    requires
        sorted_by_key(pairs_view(old(out)@)),
    ensures
        sorted_by_key(pairs_view(final(out)@)),
        r ==> pairs_view(final(out)@).to_set() == pairs_view(old(out)@).to_set().insert(
            (k@, v@),
        ),
        r ==> forall|j: int|
            0 <= j < old(out)@.len() ==> #[trigger] pairs_view(old(out)@)[j].0 != k@,
        !r ==> final(out)@ == old(out)@,
        !r ==> exists|j: int|
            0 <= j < old(out)@.len() && #[trigger] pairs_view(old(out)@)[j].0 == k@,
{
    let ghost before = pairs_view(out@);
    let mut i: usize = 0;
    while i < out.len()
        invariant
            i <= out.len(),
            out@ == old(out)@,
            before == pairs_view(out@),
            sorted_by_key(before),
            forall|j: int| 0 <= j < i ==> bytes_lt(#[trigger] before[j].0, k@),
        ensures
            i <= out.len(),
            out@ == old(out)@,
            before == pairs_view(out@),
            forall|j: int| 0 <= j < i ==> bytes_lt(#[trigger] before[j].0, k@),
            i < out.len() ==> bytes_lt(k@, before[i as int].0),
        decreases out.len() - i,
    {
        let c = compare_bytes(&out[i].0, &k);
        if c == 0 {
            assert(before[i as int].0 == k@);
            return false;
        }
        if c > 0 {
            break;
        }
        i = i + 1;
    }
    proof {
        assert forall|j: int| i <= j < before.len() implies bytes_lt(k@, #[trigger] before[j].0) by {
            if j > i {
                lemma_lt_transitive(k@, before[i as int].0, before[j].0);
            }
        }
        assert forall|j: int| 0 <= j < before.len() implies #[trigger] before[j].0 != k@ by {
            if j < i {
                lemma_lt_irreflexive(k@);
            } else {
                lemma_lt_irreflexive(k@);
            }
        }
    }
    out.insert(i, (k, v));
    proof {
        let after = pairs_view(out@);
        assert(after =~= before.insert(i as int, (k@, v@)));
        assert forall|a: int, b: int| 0 <= a < b < after.len() implies bytes_lt(
            #[trigger] after[a].0,
            #[trigger] after[b].0,
        ) by {
            if b < i {
                assert(after[a] == before[a]);
                assert(after[b] == before[b]);
            } else if a < i && b == i {
                assert(after[a] == before[a]);
            } else if a < i && b > i {
                assert(after[a] == before[a]);
                assert(after[b] == before[b - 1]);
                lemma_lt_transitive(after[a].0, k@, after[b].0);
            } else if a == i {
                assert(after[b] == before[b - 1]);
            } else {
                assert(after[a] == before[a - 1]);
                assert(after[b] == before[b - 1]);
            }
        }
        assert forall|x| after.to_set().contains(x) <==> before.to_set().insert((k@, v@)).contains(x) by {
            if after.to_set().contains(x) {
                let j = choose|j: int| 0 <= j < after.len() && after[j] == x;
                if j < i {
                    assert(before[j] == x);
                } else if j > i {
                    assert(before[j - 1] == x);
                }
            }
            if before.to_set().contains(x) {
                let j = choose|j: int| 0 <= j < before.len() && before[j] == x;
                if j < i {
                    assert(after[j] == x);
                } else {
                    assert(after[j + 1] == x);
                }
            }
            if x == (k@, v@) {
                assert(after[i as int] == x);
            }
        }
        assert(after.to_set() =~= before.to_set().insert((k@, v@)));
    }
    true
}

} // verus!
