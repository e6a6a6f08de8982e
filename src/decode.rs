//! Decoding of the wire encoding, one value at a time from the front of a buffer.
use vstd::prelude::*;
use crate::wire::{
    Wire, WireValue, view_items, view_pairs, INT_START, LIST_START, DICT_START, END, COLON, MINUS,
};

verus! {

/// Why bytes do not decode to a value.
#[derive(Debug, Clone, Copy, PartialEq, Eq, Structural)]
pub enum DecodeError {
    /// The bytes end inside a value.
    Truncated,
    /// The text of an integer is not a decimal number that fits in 64 bits.
    BadInteger,
    /// The length of a byte string is not a decimal number.
    BadLength,
    /// A byte that starts no value stands where a value must start.
    UnexpectedByte(u8),
    /// A map key position holds a value that is not a byte string.
    ExpectedKey,
}

/// What the grammar makes of the bytes from a position on.
pub enum Parsed {
    /// A value, and the position just past its encoding.
    Done(Wire, int),
    Fail(DecodeError),
}

/// Two to the sixty-four: the cap under which decimal values are kept exactly.
pub const DIGITS_CAP: u128 = 18446744073709551616;

pub open spec fn is_digit(b: u8) -> bool {
    48 <= b <= 57
}

pub open spec fn all_digits(t: Seq<u8>) -> bool {
    forall|k: int| 0 <= k < t.len() ==> is_digit(#[trigger] t[k])
}

/// The number that decimal digits stand for.
pub open spec fn digits_value(t: Seq<u8>) -> nat
    decreases t.len(),
{
    if t.len() == 0 {
        0
    } else {
        digits_value(t.subrange(0, t.len() - 1)) * 10 + (t[t.len() - 1] - 48) as nat
    }
}

/// The first position at or after `i` that holds `b`.
pub open spec fn find_from(s: Seq<u8>, i: int, b: u8) -> Option<int>
    decreases s.len() - i,
{
    if i < 0 || i >= s.len() {
        None
    } else if s[i] == b {
        Some(i)
    } else {
        find_from(s, i + 1, b)
    }
}

/// The integer that the text of an integer token stands for: an optional minus
/// sign and one or more decimal digits, within the range of `i64`.
pub open spec fn int_of_text(t: Seq<u8>) -> Option<i64> {
    if t.len() > 0 && t[0] == MINUS {
        let d = t.subrange(1, t.len() as int);
        if d.len() > 0 && all_digits(d) && digits_value(d) <= 0x8000_0000_0000_0000 {
            Some((-digits_value(d)) as i64)
        } else {
            None
        }
    } else if t.len() > 0 && all_digits(t) && digits_value(t) < 0x8000_0000_0000_0000 {
        Some(digits_value(t) as i64)
    } else {
        None
    }
}

/// An integer whose opening byte stands at `i`.
pub open spec fn parse_int(s: Seq<u8>, i: int) -> Parsed {
    match find_from(s, i + 1, END) {
        None => Parsed::Fail(DecodeError::Truncated),
        Some(k) => match int_of_text(s.subrange(i + 1, k)) {
            Some(n) => Parsed::Done(Wire::Int(n), k + 1),
            None => Parsed::Fail(DecodeError::BadInteger),
        },
    }
}

/// A byte string whose length starts at `i`.
pub open spec fn parse_bytes(s: Seq<u8>, i: int) -> Parsed {
    match find_from(s, i, COLON) {
        None => Parsed::Fail(DecodeError::Truncated),
        Some(k) => {
            let t = s.subrange(i, k);
            if !all_digits(t) {
                Parsed::Fail(DecodeError::BadLength)
            } else if k + 1 + digits_value(t) > s.len() {
                Parsed::Fail(DecodeError::Truncated)
            } else {
                Parsed::Done(
                    Wire::Bytes(s.subrange(k + 1, k + 1 + digits_value(t))),
                    k + 1 + digits_value(t),
                )
            }
        },
    }
}

/// The value whose encoding starts at `i`.
pub open spec fn parse_value(s: Seq<u8>, i: int) -> Parsed
    decreases s.len() - i, 0int,
{
    if i < 0 || i >= s.len() {
        Parsed::Fail(DecodeError::Truncated)
    } else if s[i] == INT_START {
        parse_int(s, i)
    } else if is_digit(s[i]) {
        parse_bytes(s, i)
    } else if s[i] == LIST_START {
        parse_list(s, i + 1, Seq::empty())
    } else if s[i] == DICT_START {
        parse_dict(s, i + 1, Seq::empty())
    } else {
        Parsed::Fail(DecodeError::UnexpectedByte(s[i]))
    }
}

/// The rest of a list whose items so far are `acc`, from `i` on.
pub open spec fn parse_list(s: Seq<u8>, i: int, acc: Seq<Wire>) -> Parsed
    decreases s.len() - i, 1int,
{
    if i < 0 || i >= s.len() {
        Parsed::Fail(DecodeError::Truncated)
    } else if s[i] == END {
        Parsed::Done(Wire::List(acc), i + 1)
    } else {
        match parse_value(s, i) {
            Parsed::Done(w, j) => if i < j <= s.len() {
                parse_list(s, j, acc.push(w))
            } else {
                Parsed::Fail(DecodeError::Truncated)
            },
            Parsed::Fail(e) => Parsed::Fail(e),
        }
    }
}

/// The rest of a map whose pairs so far are `acc`, from `i` on.
pub open spec fn parse_dict(s: Seq<u8>, i: int, acc: Seq<(Seq<u8>, Wire)>) -> Parsed
    decreases s.len() - i, 1int,
{
    if i < 0 || i >= s.len() {
        Parsed::Fail(DecodeError::Truncated)
    } else if s[i] == END {
        Parsed::Done(Wire::Dict(acc), i + 1)
    } else if is_digit(s[i]) {
        match parse_bytes(s, i) {
            Parsed::Done(Wire::Bytes(k), j) => if i < j <= s.len() {
                match parse_value(s, j) {
                    Parsed::Done(w, m) => if j < m <= s.len() {
                        parse_dict(s, m, acc.push((k, w)))
                    } else {
                        Parsed::Fail(DecodeError::Truncated)
                    },
                    Parsed::Fail(e) => Parsed::Fail(e),
                }
            } else {
                Parsed::Fail(DecodeError::Truncated)
            },
            Parsed::Done(_, _) => Parsed::Fail(DecodeError::ExpectedKey),
            Parsed::Fail(e) => Parsed::Fail(e),
        }
    } else if s[i] == INT_START || s[i] == LIST_START || s[i] == DICT_START {
        Parsed::Fail(DecodeError::ExpectedKey)
    } else {
        Parsed::Fail(DecodeError::UnexpectedByte(s[i]))
    }
}

/// Whether an executable result agrees with what the grammar makes of the bytes.
pub open spec fn agrees(r: Result<(WireValue, usize), DecodeError>, p: Parsed) -> bool {
    match r {
        Ok((v, j)) => p == Parsed::Done(v@, j as int),
        Err(e) => p == Parsed::Fail(e),
    }
}

/// A decimal value, or the cap when it reaches the cap.
pub open spec fn capped(v: nat) -> nat {
    if v < DIGITS_CAP {
        v
    } else {
        DIGITS_CAP as nat
    }
}

fn find_byte(buf: &Vec<u8>, from: usize, b: u8) -> (r: Option<usize>)
    requires
        from <= buf.len(),
    ensures
        match r {
            Some(k) => find_from(buf@, from as int, b) == Some(k as int) && from <= k < buf.len()
                && buf@[k as int] == b,
            None => find_from(buf@, from as int, b) is None,
        },
{
    let mut k: usize = from;
    while k < buf.len()
        invariant
            from <= k <= buf.len(),
            find_from(buf@, from as int, b) == find_from(buf@, k as int, b),
        decreases buf.len() - k,
    {
        if buf[k] == b {
            return Some(k);
        }
        k = k + 1;
    }
    None
}

fn scan_digits(buf: &Vec<u8>, from: usize, to: usize) -> (r: Option<u128>)
    requires
        from <= to <= buf.len(),
    ensures
        r is Some <==> all_digits(buf@.subrange(from as int, to as int)),
        r is Some ==> r->0 as nat == capped(digits_value(buf@.subrange(from as int, to as int))),
{
    let mut acc: u128 = 0;
    let mut m: usize = from;
    while m < to
        invariant
            from <= m <= to <= buf.len(),
            all_digits(buf@.subrange(from as int, m as int)),
            acc as nat == capped(digits_value(buf@.subrange(from as int, m as int))),
        decreases to - m,
    {
        let c = buf[m];
        if c < 48 || c > 57 {
            assert(buf@.subrange(from as int, to as int)[m - from] == c);
            return None;
        }
        let d = (c - 48) as u128;
        proof {
            let t = buf@.subrange(from as int, m + 1);
            assert(t.subrange(0, t.len() - 1) =~= buf@.subrange(from as int, m as int));
            assert(digits_value(t) == digits_value(buf@.subrange(from as int, m as int)) * 10
                + d);
            assert forall|k: int| 0 <= k < t.len() implies is_digit(#[trigger] t[k]) by {
                if k < t.len() - 1 {
                    assert(t[k] == buf@.subrange(from as int, m as int)[k]);
                }
            }
        }
        if acc >= DIGITS_CAP {
            acc = DIGITS_CAP;
        } else {
            let x = acc * 10 + d;
            acc = if x >= DIGITS_CAP {
                DIGITS_CAP
            } else {
                x
            };
        }
        m = m + 1;
    }
    Some(acc)
}

fn decode_int(buf: &Vec<u8>, i: usize) -> (r: Result<(WireValue, usize), DecodeError>)
    requires
        i < buf.len(),
        buf@[i as int] == INT_START,
    ensures
        agrees(r, parse_int(buf@, i as int)),
        match r {
            Ok((_, j)) => i < j <= buf.len(),
            Err(_) => true,
        },
{
    match find_byte(buf, i + 1, END) {
        None => Err(DecodeError::Truncated),
        Some(k) => {
            let ghost t = buf@.subrange(i + 1, k as int);
            if i + 1 < k && buf[i + 1] == MINUS {
                assert(t.subrange(1, t.len() as int) =~= buf@.subrange(i + 2, k as int));
                match scan_digits(buf, i + 2, k) {
                    None => Err(DecodeError::BadInteger),
                    Some(v) => {
                        if i + 2 < k && v <= 0x8000_0000_0000_0000 {
                            let n: i64 = if v == 0x8000_0000_0000_0000 {
                                i64::MIN
                            } else {
                                -(v as i64)
                            };
                            Ok((WireValue::Int(n), k + 1))
                        } else {
                            Err(DecodeError::BadInteger)
                        }
                    },
                }
            } else {
                match scan_digits(buf, i + 1, k) {
                    None => Err(DecodeError::BadInteger),
                    Some(v) => {
                        if i + 1 < k && v < 0x8000_0000_0000_0000 {
                            Ok((WireValue::Int(v as i64), k + 1))
                        } else {
                            Err(DecodeError::BadInteger)
                        }
                    },
                }
            }
        },
    }
}

fn decode_bytes(buf: &Vec<u8>, i: usize) -> (r: Result<(Vec<u8>, usize), DecodeError>)
    requires
        i < buf.len(),
        is_digit(buf@[i as int]),
    ensures
        match r {
            Ok((b, j)) => parse_bytes(buf@, i as int) == Parsed::Done(Wire::Bytes(b@), j as int)
                && i < j <= buf.len(),
            Err(e) => parse_bytes(buf@, i as int) == Parsed::Fail(e),
        },
{
    match find_byte(buf, i, COLON) {
        None => Err(DecodeError::Truncated),
        Some(k) => {
            match scan_digits(buf, i, k) {
                None => Err(DecodeError::BadLength),
                Some(v) => {
                    let rest = (buf.len() - (k + 1)) as u128;
                    if v > rest {
                        Err(DecodeError::Truncated)
                    } else {
                        let end = k + 1 + v as usize;
                        let mut out: Vec<u8> = Vec::new();
                        let mut m: usize = k + 1;
                        while m < end
                            invariant
                                k + 1 <= m <= end <= buf.len(),
                                out@ == buf@.subrange(k + 1, m as int),
                            decreases end - m,
                        {
                            out.push(buf[m]);
                            assert(buf@.subrange(k + 1, m + 1) =~= buf@.subrange(
                                k + 1,
                                m as int,
                            ).push(buf@[m as int]));
                            m = m + 1;
                        }
                        Ok((out, end))
                    }
                },
            }
        },
    }
}

proof fn lemma_view_items_push(s: Seq<WireValue>, v: WireValue)
    ensures
        view_items(s.push(v)) == view_items(s).push(v@),
{
    assert(s.push(v).subrange(0, s.len() as int) =~= s);
}

pub proof fn lemma_view_pairs_push(s: Seq<(Vec<u8>, WireValue)>, p: (Vec<u8>, WireValue))
    ensures
        view_pairs(s.push(p)) == view_pairs(s).push((p.0@, p.1@)),
{
    assert(s.push(p).subrange(0, s.len() as int) =~= s);
}

/// Decodes the value whose encoding starts at position `i` of `buf`, and gives
/// the position just past it.
pub fn decode_at(buf: &Vec<u8>, i: usize) -> (r: Result<(WireValue, usize), DecodeError>)
    requires
        i <= buf.len(),
    ensures
        agrees(r, parse_value(buf@, i as int)),
        match r {
            Ok((_, j)) => i < j <= buf.len(),
            Err(_) => true,
        },
    decreases buf.len() - i,
{
    if i >= buf.len() {
        return Err(DecodeError::Truncated);
    }
    let c = buf[i];
    if c == INT_START {
        decode_int(buf, i)
    } else if 48 <= c && c <= 57 {
        match decode_bytes(buf, i) {
            Ok((b, j)) => Ok((WireValue::Bytes(b), j)),
            Err(e) => Err(e),
        }
    } else if c == LIST_START {
        let mut items: Vec<WireValue> = Vec::new();
        let mut j: usize = i + 1;
        assert(view_items(items@) =~= Seq::<Wire>::empty());
        loop
            invariant
                i < j <= buf.len(),
                parse_value(buf@, i as int) == parse_list(buf@, j as int, view_items(items@)),
            decreases buf.len() - j,
        {
            if j >= buf.len() {
                return Err(DecodeError::Truncated);
            }
            if buf[j] == END {
                return Ok((WireValue::List(items), j + 1));
            }
            match decode_at(buf, j) {
                Err(e) => {
                    return Err(e);
                },
                Ok((w, m)) => {
                    proof {
                        lemma_view_items_push(items@, w);
                    }
                    items.push(w);
                    j = m;
                },
            }
        }
    } else if c == DICT_START {
        let mut pairs: Vec<(Vec<u8>, WireValue)> = Vec::new();
        let mut j: usize = i + 1;
        assert(view_pairs(pairs@) =~= Seq::<(Seq<u8>, Wire)>::empty());
        loop
            invariant
                i < j <= buf.len(),
                parse_value(buf@, i as int) == parse_dict(buf@, j as int, view_pairs(pairs@)),
            decreases buf.len() - j,
        {
            if j >= buf.len() {
                return Err(DecodeError::Truncated);
            }
            let d = buf[j];
            if d == END {
                return Ok((WireValue::Dict(pairs), j + 1));
            }
            if 48 <= d && d <= 57 {
                match decode_bytes(buf, j) {
                    Err(e) => {
                        return Err(e);
                    },
                    Ok((key, m)) => {
                        match decode_at(buf, m) {
                            Err(e) => {
                                return Err(e);
                            },
                            Ok((w, n)) => {
                                proof {
                                    lemma_view_pairs_push(pairs@, (key, w));
                                }
                                pairs.push((key, w));
                                j = n;
                            },
                        }
                    },
                }
            } else if d == INT_START || d == LIST_START || d == DICT_START {
                return Err(DecodeError::ExpectedKey);
            } else {
                return Err(DecodeError::UnexpectedByte(d));
            }
        }
    } else {
        Err(DecodeError::UnexpectedByte(c))
    }
}

/// Decodes the value at the front of `buf`, and gives the length of its encoding.
pub fn decode(buf: &Vec<u8>) -> (r: Result<(WireValue, usize), DecodeError>)
    ensures
        agrees(r, parse_value(buf@, 0)),
        match r {
            Ok((_, j)) => 0 < j <= buf.len(),
            Err(_) => true,
        },
{
    decode_at(buf, 0)
}

} // verus!
