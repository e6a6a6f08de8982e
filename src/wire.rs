//! The value model of the wire encoding and its canonical encoder.
use vstd::prelude::*;

verus! {

/// Byte that opens an integer: `i`.
pub const INT_START: u8 = 105;
/// Byte that opens a list: `l`.
pub const LIST_START: u8 = 108;
/// Byte that opens a map: `d`.
pub const DICT_START: u8 = 100;
/// Byte that closes an integer, a list or a map: `e`.
pub const END: u8 = 101;
/// Byte between the length of a byte string and its contents: `:`.
pub const COLON: u8 = 58;
/// Sign of a negative integer: `-`.
pub const MINUS: u8 = 45;

/// The mathematical form of a wire value.
pub enum Wire {
    Int(i64),
    Bytes(Seq<u8>),
    List(Seq<Wire>),
    Dict(Seq<(Seq<u8>, Wire)>),
}

/// A value of the wire encoding: an integer, a byte string, a list or a map
/// whose keys are byte strings. A map keeps its pairs in the order in which they
/// were encoded, duplicate keys included: the grammar allows them, and it is a
/// response (`Resp`) that rejects a name given twice.
#[derive(Debug, PartialEq, Eq)]
pub enum WireValue {
    Int(i64),
    Bytes(Vec<u8>),
    List(Vec<WireValue>),
    Dict(Vec<(Vec<u8>, WireValue)>),
}

pub open spec fn view_items(s: Seq<WireValue>) -> Seq<Wire>
    decreases s,
{
    if s.len() == 0 {
        Seq::empty()
    } else {
        view_items(s.subrange(0, s.len() - 1)).push(s[s.len() - 1].view_wire())
    }
}

pub open spec fn view_pairs(s: Seq<(Vec<u8>, WireValue)>) -> Seq<(Seq<u8>, Wire)>
    decreases s,
{
    if s.len() == 0 {
        Seq::empty()
    } else {
        view_pairs(s.subrange(0, s.len() - 1)).push(
            (s[s.len() - 1].0@, s[s.len() - 1].1.view_wire()),
        )
    }
}

impl WireValue {
    pub open spec fn view_wire(&self) -> Wire
        decreases self,
    {
        match self {
            WireValue::Int(n) => Wire::Int(*n),
            WireValue::Bytes(b) => Wire::Bytes(b@),
            WireValue::List(items) => Wire::List(view_items(items@)),
            WireValue::Dict(pairs) => Wire::Dict(view_pairs(pairs@)),
        }
    }
}

pub proof fn lemma_view_items_len(s: Seq<WireValue>)
    ensures
        view_items(s).len() == s.len(),
    decreases s.len(),
{
    if s.len() > 0 {
        lemma_view_items_len(s.subrange(0, s.len() - 1));
    }
}

pub proof fn lemma_view_items_index(s: Seq<WireValue>, i: int)
    requires
        0 <= i < s.len(),
    ensures
        view_items(s)[i] == s[i]@,
    decreases s.len(),
{
    lemma_view_items_len(s);
    if i < s.len() - 1 {
        lemma_view_items_len(s.subrange(0, s.len() - 1));
        lemma_view_items_index(s.subrange(0, s.len() - 1), i);
    }
}

pub proof fn lemma_view_pairs_len(s: Seq<(Vec<u8>, WireValue)>)
    ensures
        view_pairs(s).len() == s.len(),
    decreases s.len(),
{
    if s.len() > 0 {
        lemma_view_pairs_len(s.subrange(0, s.len() - 1));
    }
}

pub proof fn lemma_view_pairs_index(s: Seq<(Vec<u8>, WireValue)>, i: int)
    requires
        0 <= i < s.len(),
    ensures
        view_pairs(s)[i] == (s[i].0@, s[i].1@),
    decreases s.len(),
{
    lemma_view_pairs_len(s);
    if i < s.len() - 1 {
        lemma_view_pairs_len(s.subrange(0, s.len() - 1));
        lemma_view_pairs_index(s.subrange(0, s.len() - 1), i);
    }
}

impl View for WireValue {
    type V = Wire;

    open spec fn view(&self) -> Wire {
        self.view_wire()
    }
}

/// Decimal digits of a natural number, most significant first, no leading zero.
pub open spec fn nat_text(n: nat) -> Seq<u8>
    decreases n,
{
    if n < 10 {
        seq![(48 + n) as u8]
    } else {
        nat_text(n / 10).push((48 + n % 10) as u8)
    }
}

/// Decimal text of an integer, with a leading `-` when it is negative.
pub open spec fn int_text(n: int) -> Seq<u8> {
    if n < 0 {
        seq![MINUS] + nat_text((-n) as nat)
    } else {
        nat_text(n as nat)
    }
}

/// The encoding of a byte string: its length, a colon, its contents.
pub open spec fn enc_bytes(b: Seq<u8>) -> Seq<u8> {
    nat_text(b.len()) + seq![COLON] + b
}

/// The canonical encoding of a value.
pub open spec fn enc(w: Wire) -> Seq<u8>
    decreases w,
{
    match w {
        Wire::Int(n) => seq![INT_START] + int_text(n as int) + seq![END],
        Wire::Bytes(b) => enc_bytes(b),
        Wire::List(items) => seq![LIST_START] + enc_items(items) + seq![END],
        Wire::Dict(pairs) => seq![DICT_START] + enc_pairs(pairs) + seq![END],
    }
}

/// The encodings of a sequence of values, one after the other.
pub open spec fn enc_items(s: Seq<Wire>) -> Seq<u8>
    decreases s,
{
    if s.len() == 0 {
        Seq::empty()
    } else {
        enc_items(s.subrange(0, s.len() - 1)) + enc(s[s.len() - 1])
    }
}

/// The encodings of the pairs of a map, each key followed by its value.
pub open spec fn enc_pairs(s: Seq<(Seq<u8>, Wire)>) -> Seq<u8>
    decreases s,
{
    if s.len() == 0 {
        Seq::empty()
    } else {
        enc_pairs(s.subrange(0, s.len() - 1)) + enc_bytes(s[s.len() - 1].0) + enc(
            s[s.len() - 1].1,
        )
    }
}

proof fn lemma_enc_items_push(s: Seq<Wire>, w: Wire)
    ensures
        enc_items(s.push(w)) == enc_items(s) + enc(w),
{
    assert(s.push(w).subrange(0, s.len() as int) =~= s);
}

proof fn lemma_enc_pairs_push(s: Seq<(Seq<u8>, Wire)>, p: (Seq<u8>, Wire))
    ensures
        enc_pairs(s.push(p)) == enc_pairs(s) + enc_bytes(p.0) + enc(p.1),
{
    assert(s.push(p).subrange(0, s.len() as int) =~= s);
}

fn push_nat(n: u64, out: &mut Vec<u8>)
    ensures
        final(out)@ == old(out)@ + nat_text(n as nat),
    decreases n,
{
    if n < 10 {
        out.push((48 + n) as u8);
    } else {
        push_nat(n / 10, out);
        out.push((48 + n % 10) as u8);
    }
}

fn push_int(n: i64, out: &mut Vec<u8>)
    ensures
        final(out)@ == old(out)@ + int_text(n as int),
{
    if n < 0 {
        out.push(MINUS);
        let m: u64 = if n == i64::MIN {
            9223372036854775808u64
        } else {
            (-n) as u64
        };
        push_nat(m, out);
    } else {
        push_nat(n as u64, out);
    }
}

fn push_bytes(b: &Vec<u8>, out: &mut Vec<u8>)
    ensures
        final(out)@ == old(out)@ + enc_bytes(b@),
{
    push_nat(b.len() as u64, out);
    out.push(COLON);
    let mut i: usize = 0;
    let ghost start = out@;
    while i < b.len()
        invariant
            i <= b.len(),
            out@ == start + b@.subrange(0, i as int),
        decreases b.len() - i,
    {
        out.push(b[i]);
        assert(b@.subrange(0, i + 1) =~= b@.subrange(0, i as int).push(b[i as int]));
        i = i + 1;
    }
    assert(b@.subrange(0, b.len() as int) =~= b@);
}

/// Appends the canonical encoding of `v` to `out`.
pub fn encode_into(v: &WireValue, out: &mut Vec<u8>)
    ensures
        final(out)@ == old(out)@ + enc(v@),
    decreases v,
{
    match v {
        WireValue::Int(n) => {
            out.push(INT_START);
            push_int(*n, out);
            out.push(END);
        },
        WireValue::Bytes(b) => {
            push_bytes(b, out);
        },
        WireValue::List(items) => {
            out.push(LIST_START);
            let ghost start = out@;
            proof {
                assert(decreases_to!(*v => *items));
                assert forall|k: int| 0 <= k < items.len() implies decreases_to!(*v => items@[k]) by {
                    assert(decreases_to!(*items => items@));
                    assert(decreases_to!(items@ => items@[k]));
                }
            }
            let mut i: usize = 0;
            while i < items.len()
                invariant
                    i <= items.len(),
                    forall|k: int| 0 <= k < items.len() ==> decreases_to!(*v => items@[k]),
                    out@ == start + enc_items(view_items(items@.subrange(0, i as int))),
                decreases items.len() - i,
            {
                encode_into(&items[i], out);
                proof {
                    let sub = items@.subrange(0, i + 1);
                    assert(sub.subrange(0, i as int) =~= items@.subrange(0, i as int));
                    lemma_enc_items_push(view_items(items@.subrange(0, i as int)), items@[i as int]@);
                }
                i = i + 1;
            }
            assert(items@.subrange(0, items.len() as int) =~= items@);
            out.push(END);
        },
        WireValue::Dict(pairs) => {
            out.push(DICT_START);
            let ghost start = out@;
            proof {
                assert(decreases_to!(*v => *pairs));
                assert forall|k: int| 0 <= k < pairs.len() implies decreases_to!(*v => pairs@[k].1) by {
                    assert(decreases_to!(*pairs => pairs@));
                    assert(decreases_to!(pairs@ => pairs@[k]));
                    assert(decreases_to!(pairs@[k] => pairs@[k].1));
                }
            }
            let mut i: usize = 0;
            while i < pairs.len()
                invariant
                    i <= pairs.len(),
                    forall|k: int| 0 <= k < pairs.len() ==> decreases_to!(*v => pairs@[k].1),
                    out@ == start + enc_pairs(view_pairs(pairs@.subrange(0, i as int))),
                decreases pairs.len() - i,
            {
                push_bytes(&pairs[i].0, out);
                encode_into(&pairs[i].1, out);
                proof {
                    let sub = pairs@.subrange(0, i + 1);
                    assert(sub.subrange(0, i as int) =~= pairs@.subrange(0, i as int));
                    lemma_enc_pairs_push(
                        view_pairs(pairs@.subrange(0, i as int)),
                        (pairs@[i as int].0@, pairs@[i as int].1@),
                    );
                }
                i = i + 1;
            }
            assert(pairs@.subrange(0, pairs.len() as int) =~= pairs@);
            out.push(END);
        },
    }
}

/// The canonical encoding of `v`.
pub fn encode(v: &WireValue) -> (r: Vec<u8>)
    ensures
        r@ == enc(v@),
{
    let mut out: Vec<u8> = Vec::new();
    encode_into(v, &mut out);
    assert(out@ =~= enc(v@));
    out
}

} // verus!
