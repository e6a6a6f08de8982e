//! Decoding values from bytes that arrive over time, in pieces of any size.
use vstd::prelude::*;
use crate::wire::{Wire, WireValue, INT_START, LIST_START, DICT_START, END, COLON};
use crate::decode::{
    DecodeError, Parsed, is_digit, find_from, parse_int, parse_bytes, parse_value,
    parse_list, parse_dict, decode,
};

verus! {

/// `t` holds the bytes of `s` at every position of `[i, j)` that it has.
pub open spec fn agree(s: Seq<u8>, t: Seq<u8>, i: int, j: int) -> bool {
    forall|k: int| i <= k < j && k < t.len() ==> #[trigger] t[k] == s[k]
}

proof fn lemma_find_props(s: Seq<u8>, a: int, b: u8)
    requires
        find_from(s, a, b) is Some,
    ensures
        a <= find_from(s, a, b)->0 < s.len(),
        s[find_from(s, a, b)->0] == b,
        forall|m: int| a <= m < find_from(s, a, b)->0 ==> s[m] != b,
    decreases s.len() - a,
{
    if a >= 0 && a < s.len() && s[a] != b {
        lemma_find_props(s, a + 1, b);
    }
}

proof fn lemma_find_prefix(s: Seq<u8>, t: Seq<u8>, a: int, b: u8)
    requires
        find_from(s, a, b) is Some,
        agree(s, t, a, find_from(s, a, b)->0 + 1),
    ensures
        t.len() > find_from(s, a, b)->0 ==> find_from(t, a, b) == find_from(s, a, b),
        t.len() <= find_from(s, a, b)->0 ==> find_from(t, a, b) is None,
    decreases s.len() - a,
{
    lemma_find_props(s, a, b);
    if a >= 0 && a < s.len() && s[a] != b {
        lemma_find_prefix(s, t, a + 1, b);
    }
}

proof fn lemma_bytes_prefix(s: Seq<u8>, t: Seq<u8>, i: int)
    requires
        0 <= i,
        parse_bytes(s, i) is Done,
        agree(s, t, i, parse_bytes(s, i)->Done_1),
    ensures
        i < parse_bytes(s, i)->Done_1 <= s.len(),
        t.len() >= parse_bytes(s, i)->Done_1 ==> parse_bytes(t, i) == parse_bytes(s, i),
        t.len() < parse_bytes(s, i)->Done_1 ==> parse_bytes(t, i) == Parsed::Fail(
            DecodeError::Truncated,
        ),
{
    lemma_find_props(s, i, COLON);
    let k = find_from(s, i, COLON)->0;
    lemma_find_prefix(s, t, i, COLON);
    if t.len() > k {
        assert(t.subrange(i, k) =~= s.subrange(i, k));
        let j = parse_bytes(s, i)->Done_1;
        if t.len() >= j {
            assert(t.subrange(k + 1, j) =~= s.subrange(k + 1, j));
        }
    }
}

proof fn lemma_int_prefix(s: Seq<u8>, t: Seq<u8>, i: int)
    requires
        0 <= i,
        parse_int(s, i) is Done,
        agree(s, t, i, parse_int(s, i)->Done_1),
    ensures
        i < parse_int(s, i)->Done_1 <= s.len(),
        t.len() >= parse_int(s, i)->Done_1 ==> parse_int(t, i) == parse_int(s, i),
        t.len() < parse_int(s, i)->Done_1 ==> parse_int(t, i) == Parsed::Fail(
            DecodeError::Truncated,
        ),
{
    lemma_find_props(s, i + 1, END);
    let k = find_from(s, i + 1, END)->0;
    lemma_find_prefix(s, t, i + 1, END);
    if t.len() > k {
        assert(t.subrange(i + 1, k) =~= s.subrange(i + 1, k));
    }
}

/// What a value's parse depends on: only the bytes of its own encoding. Bytes that
/// agree with them there parse the same, and bytes that stop short of its end are
/// truncated.
proof fn lemma_value_prefix(s: Seq<u8>, t: Seq<u8>, i: int)
    requires
        0 <= i,
        parse_value(s, i) is Done,
        agree(s, t, i, parse_value(s, i)->Done_1),
    ensures
        i < parse_value(s, i)->Done_1 <= s.len(),
        t.len() >= parse_value(s, i)->Done_1 ==> parse_value(t, i) == parse_value(s, i),
        t.len() < parse_value(s, i)->Done_1 ==> parse_value(t, i) == Parsed::Fail(
            DecodeError::Truncated,
        ),
    decreases s.len() - i, 0int,
{
    let j = parse_value(s, i)->Done_1;
    if s[i] == INT_START {
        lemma_int_prefix(s, t, i);
    } else if is_digit(s[i]) {
        lemma_bytes_prefix(s, t, i);
    } else if s[i] == LIST_START {
        lemma_list_prefix(s, t, i + 1, Seq::empty());
    } else if s[i] == DICT_START {
        lemma_dict_prefix(s, t, i + 1, Seq::empty());
    }
    if t.len() > i {
        assert(t[i] == s[i]);
    }
}

proof fn lemma_list_prefix(s: Seq<u8>, t: Seq<u8>, i: int, acc: Seq<Wire>)
    requires
        0 <= i,
        parse_list(s, i, acc) is Done,
        agree(s, t, i, parse_list(s, i, acc)->Done_1),
    ensures
        i < parse_list(s, i, acc)->Done_1 <= s.len(),
        t.len() >= parse_list(s, i, acc)->Done_1 ==> parse_list(t, i, acc) == parse_list(s, i, acc),
        t.len() < parse_list(s, i, acc)->Done_1 ==> parse_list(t, i, acc) == Parsed::Fail(
            DecodeError::Truncated,
        ),
    decreases s.len() - i, 1int,
{
    let j = parse_list(s, i, acc)->Done_1;
    if s[i] != END {
        let m = parse_value(s, i)->Done_1;
        let w = parse_value(s, i)->Done_0;
        lemma_list_prefix(s, t, m, acc.push(w));
        lemma_value_prefix(s, t, i);
    }
    if t.len() > i {
        assert(t[i] == s[i]);
    }
}

proof fn lemma_dict_prefix(s: Seq<u8>, t: Seq<u8>, i: int, acc: Seq<(Seq<u8>, Wire)>)
    requires
        0 <= i,
        parse_dict(s, i, acc) is Done,
        agree(s, t, i, parse_dict(s, i, acc)->Done_1),
    ensures
        i < parse_dict(s, i, acc)->Done_1 <= s.len(),
        t.len() >= parse_dict(s, i, acc)->Done_1 ==> parse_dict(t, i, acc) == parse_dict(s, i, acc),
        t.len() < parse_dict(s, i, acc)->Done_1 ==> parse_dict(t, i, acc) == Parsed::Fail(
            DecodeError::Truncated,
        ),
    decreases s.len() - i, 1int,
{
    let j = parse_dict(s, i, acc)->Done_1;
    if s[i] != END {
        let m = parse_bytes(s, i)->Done_1;
        let k = parse_bytes(s, i)->Done_0->Bytes_0;
        let n = parse_value(s, m)->Done_1;
        let w = parse_value(s, m)->Done_0;
        lemma_dict_prefix(s, t, n, acc.push((k, w)));
        lemma_value_prefix(s, t, m);
        lemma_bytes_prefix(s, t, i);
    }
    if t.len() > i {
        assert(t[i] == s[i]);
    }
}

/// `p` is a prefix of `t`.
pub open spec fn is_prefix(p: Seq<u8>, t: Seq<u8>) -> bool {
    p.len() <= t.len() && forall|k: int| 0 <= k < p.len() ==> #[trigger] t[k] == p[k]
}

proof fn lemma_int_ext(p: Seq<u8>, t: Seq<u8>, i: int)
    requires
        0 <= i,
        is_prefix(p, t),
        parse_int(p, i) != Parsed::Fail(DecodeError::Truncated),
    ensures
        parse_int(t, i) == parse_int(p, i),
{
    lemma_find_props(p, i + 1, END);
    let k = find_from(p, i + 1, END)->0;
    lemma_find_prefix(p, t, i + 1, END);
    assert(t.subrange(i + 1, k) =~= p.subrange(i + 1, k));
}

proof fn lemma_bytes_ext(p: Seq<u8>, t: Seq<u8>, i: int)
    requires
        0 <= i,
        is_prefix(p, t),
        parse_bytes(p, i) != Parsed::Fail(DecodeError::Truncated),
    ensures
        parse_bytes(t, i) == parse_bytes(p, i),
{
    lemma_find_props(p, i, COLON);
    let k = find_from(p, i, COLON)->0;
    lemma_find_prefix(p, t, i, COLON);
    assert(t.subrange(i, k) =~= p.subrange(i, k));
    if parse_bytes(p, i) is Done {
        let j = parse_bytes(p, i)->Done_1;
        assert(t.subrange(k + 1, j) =~= p.subrange(k + 1, j));
    }
}

/// Once the bytes so far give anything but truncation, more bytes change nothing.
proof fn lemma_value_ext(p: Seq<u8>, t: Seq<u8>, i: int)
    requires
        0 <= i,
        is_prefix(p, t),
        parse_value(p, i) != Parsed::Fail(DecodeError::Truncated),
    ensures
        parse_value(t, i) == parse_value(p, i),
    decreases p.len() - i, 0int,
{
    assert(t[i] == p[i]);
    if p[i] == INT_START {
        lemma_int_ext(p, t, i);
    } else if is_digit(p[i]) {
        lemma_bytes_ext(p, t, i);
    } else if p[i] == LIST_START {
        lemma_list_ext(p, t, i + 1, Seq::empty());
    } else if p[i] == DICT_START {
        lemma_dict_ext(p, t, i + 1, Seq::empty());
    }
}

proof fn lemma_list_ext(p: Seq<u8>, t: Seq<u8>, i: int, acc: Seq<Wire>)
    requires
        0 <= i,
        is_prefix(p, t),
        parse_list(p, i, acc) != Parsed::Fail(DecodeError::Truncated),
    ensures
        parse_list(t, i, acc) == parse_list(p, i, acc),
    decreases p.len() - i, 1int,
{
    assert(t[i] == p[i]);
    if p[i] != END {
        lemma_value_ext(p, t, i);
        if parse_value(p, i) is Done {
            let j = parse_value(p, i)->Done_1;
            let w = parse_value(p, i)->Done_0;
            lemma_list_ext(p, t, j, acc.push(w));
        }
    }
}

proof fn lemma_dict_ext(p: Seq<u8>, t: Seq<u8>, i: int, acc: Seq<(Seq<u8>, Wire)>)
    requires
        0 <= i,
        is_prefix(p, t),
        parse_dict(p, i, acc) != Parsed::Fail(DecodeError::Truncated),
    ensures
        parse_dict(t, i, acc) == parse_dict(p, i, acc),
    decreases p.len() - i, 1int,
{
    assert(t[i] == p[i]);
    if p[i] != END && is_digit(p[i]) {
        lemma_bytes_ext(p, t, i);
        if parse_bytes(p, i) is Done && parse_bytes(p, i)->Done_0 is Bytes {
            let j = parse_bytes(p, i)->Done_1;
            let k = parse_bytes(p, i)->Done_0->Bytes_0;
            if i < j <= p.len() {
                lemma_value_ext(p, t, j);
                if parse_value(p, j) is Done {
                    let m = parse_value(p, j)->Done_1;
                    let w = parse_value(p, j)->Done_0;
                    lemma_dict_ext(p, t, m, acc.push((k, w)));
                }
            }
        }
    }
}

/// Bytes that arrive in pieces decode as they do when they arrive at once. On every
/// prefix of the bytes the decoder either finds them truncated, and asks for more,
/// or reaches the very outcome that it reaches on the whole: the same value with
/// the same length, or the same error. A value is found truncated exactly while a
/// proper prefix of its encoding has arrived.
pub proof fn lemma_streaming(s: Seq<u8>, m: int)
    requires
        0 <= m <= s.len(),
    ensures
        parse_value(s.take(m), 0) == Parsed::Fail(DecodeError::Truncated) || parse_value(
            s.take(m),
            0,
        ) == parse_value(s, 0),
        parse_value(s, 0) is Done && m < parse_value(s, 0)->Done_1 ==> parse_value(s.take(m), 0)
            == Parsed::Fail(DecodeError::Truncated),
        parse_value(s, 0) is Done && m >= parse_value(s, 0)->Done_1 ==> parse_value(s.take(m), 0)
            == parse_value(s, 0),
{
    if parse_value(s.take(m), 0) != Parsed::Fail(DecodeError::Truncated) {
        lemma_value_ext(s.take(m), s, 0);
    }
    if parse_value(s, 0) is Done {
        lemma_value_prefix(s, s.take(m), 0);
    }
}

/// What the decoder has for the caller.
#[derive(Debug)]
pub enum Next {
    /// The next value of the stream.
    Value(WireValue),
    /// The bytes so far end inside a value: more must arrive.
    NeedMore,
    /// The stream was closed where a new value would start.
    EndOfStream,
}

/// A decoder of the values that arrive over a stream, in pieces of any size.
pub struct StreamDecoder {
    pub buf: Vec<u8>,
}

impl StreamDecoder {
    pub fn new() -> (r: StreamDecoder)
        ensures
            r.buf@ == Seq::<u8>::empty(),
    {
        StreamDecoder { buf: Vec::new() }
    }

    /// Takes bytes that have arrived.
    pub fn feed(&mut self, chunk: &[u8])
        ensures
            final(self).buf@ == old(self).buf@ + chunk@,
    {
        let mut i: usize = 0;
        while i < chunk.len()
            invariant
                i <= chunk.len(),
                self.buf@ == old(self).buf@ + chunk@.take(i as int),
            decreases chunk.len() - i,
        {
            self.buf.push(chunk[i]);
            assert(chunk@.take(i + 1) =~= chunk@.take(i as int).push(chunk@[i as int]));
            i = i + 1;
        }
        assert(chunk@.take(i as int) =~= chunk@);
    }

    /// Decodes the next value from the bytes that have arrived. `closed` tells
    /// whether the stream has ended; bytes that end inside a value then are an
    /// error, and no bytes at all are the end of the stream.
    pub fn next_value(&mut self, closed: bool) -> (r: Result<Next, DecodeError>)
        ensures
            match parse_value(old(self).buf@, 0) {
                Parsed::Done(w, n) => r is Ok && r->Ok_0 is Value && r->Ok_0->Value_0@ == w
                    && final(self).buf@ == old(self).buf@.skip(n),
                Parsed::Fail(DecodeError::Truncated) => if !closed {
                    r is Ok && r->Ok_0 is NeedMore && final(self).buf@ == old(self).buf@
                } else if old(self).buf@.len() == 0 {
                    r is Ok && r->Ok_0 is EndOfStream && final(self).buf@ == old(self).buf@
                } else {
                    r == Err::<Next, DecodeError>(DecodeError::Truncated) && final(self).buf@
                        == old(self).buf@
                },
                Parsed::Fail(e) => r == Err::<Next, DecodeError>(e) && final(self).buf@ == old(
                    self,
                ).buf@,
            },
    {
        match decode(&self.buf) {
            Ok((v, n)) => {
                let mut rest: Vec<u8> = Vec::new();
                let mut i: usize = n;
                while i < self.buf.len()
                    invariant
                        n <= i <= self.buf.len(),
                        self.buf@ == old(self).buf@,
                        rest@ == self.buf@.subrange(n as int, i as int),
                    decreases self.buf.len() - i,
                {
                    rest.push(self.buf[i]);
                    assert(self.buf@.subrange(n as int, i + 1) =~= self.buf@.subrange(
                        n as int,
                        i as int,
                    ).push(self.buf@[i as int]));
                    i = i + 1;
                }
                self.buf = rest;
                Ok(Next::Value(v))
            },
            Err(DecodeError::Truncated) => {
                if !closed {
                    Ok(Next::NeedMore)
                } else if self.buf.len() == 0 {
                    Ok(Next::EndOfStream)
                } else {
                    Err(DecodeError::Truncated)
                }
            },
            Err(e) => Err(e),
        }
    }
}

} // verus!
