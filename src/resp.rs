//! Responses of the REPL protocol, their terminal status, and the collection of
//! the responses of one exchange.
use vstd::prelude::*;
use vstd::string::StrSliceExecFns;
use vstd::utf8::{valid_utf8, decode_utf8, decode_utf8_encode_utf8};
use crate::wire::{Wire, WireValue, view_pairs, lemma_view_pairs_len};
use crate::order::compare_bytes;
use crate::nrepl::utf8;

verus! {

/// Relies on `String::from_utf8`: it succeeds exactly on valid UTF-8, and the
/// text then holds the characters that the bytes encode.
#[verifier::external_body]
pub(crate) fn text_from_utf8(b: Vec<u8>) -> (r: Option<String>)
    ensures
        r is Some <==> valid_utf8(b@),
        r is Some ==> r->0@ == decode_utf8(b@),
{
    String::from_utf8(b).ok()
}

/// Decodes UTF-8 bytes into text.
pub fn text_of(b: Vec<u8>) -> (r: Option<String>)
    ensures
        r is Some <==> valid_utf8(b@),
        r is Some ==> utf8(r->0@) == b@,
{
    let ghost bytes = b@;
    let r = text_from_utf8(b);
    proof {
        if r is Some {
            decode_utf8_encode_utf8(bytes);
        }
    }
    r
}

/// `status`
pub open spec fn status_key() -> Seq<u8> {
    seq![115u8, 116u8, 97u8, 116u8, 117u8, 115u8]
}

/// `done`
pub open spec fn done_token() -> Seq<u8> {
    seq![100u8, 111u8, 110u8, 101u8]
}

/// `eval-error`
pub open spec fn eval_error_token() -> Seq<u8> {
    seq![101u8, 118u8, 97u8, 108u8, 45u8, 101u8, 114u8, 114u8, 111u8, 114u8]
}

/// `no-info`
pub open spec fn no_info_token() -> Seq<u8> {
    seq![110u8, 111u8, 45u8, 105u8, 110u8, 102u8, 111u8]
}

/// Why a decoded value is not a response, or a response not a proper terminal one.
#[derive(Debug, Clone, Copy, PartialEq, Eq, Structural)]
pub enum RespError {
    /// The value is not a map.
    ExpectedMap,
    /// A field name is not valid UTF-8.
    BadUtf8,
    /// Two fields share a name.
    DuplicateKey,
    /// A field does not hold a byte string.
    ExpectedString,
    /// A field does not hold a list of byte strings.
    ExpectedStrList,
    /// A field does not hold an integer.
    ExpectedInt,
}

/// One response: named fields, each name at most once.
#[derive(Debug)]
pub struct Resp {
    pub fields: Vec<(String, WireValue)>,
}

/// The fields of a response, each name as its UTF-8 bytes.
pub open spec fn fields_view(f: Seq<(String, WireValue)>) -> Seq<(Seq<u8>, Wire)> {
    f.map_values(|p: (String, WireValue)| (utf8(p.0@), p.1@))
}

/// No two pairs share a key.
pub open spec fn unique_keys(ps: Seq<(Seq<u8>, Wire)>) -> bool {
    forall|i: int, j: int| 0 <= i < j < ps.len() ==> #[trigger] ps[i].0 != #[trigger] ps[j].0
}

/// Every key is valid UTF-8.
pub open spec fn keys_utf8(ps: Seq<(Seq<u8>, Wire)>) -> bool {
    forall|i: int| 0 <= i < ps.len() ==> valid_utf8(#[trigger] ps[i].0)
}

/// `i` is the first position of a field named `k`.
pub open spec fn first_at(ps: Seq<(Seq<u8>, Wire)>, k: Seq<u8>, i: int) -> bool {
    0 <= i < ps.len() && ps[i].0 == k && forall|j: int| 0 <= j < i ==> #[trigger] ps[j].0 != k
}

/// The position of the first field named `k`, if there is one.
pub open spec fn field_index(ps: Seq<(Seq<u8>, Wire)>, k: Seq<u8>) -> Option<int> {
    if exists|i: int| #[trigger] first_at(ps, k, i) {
        Some(choose|i: int| #[trigger] first_at(ps, k, i))
    } else {
        None
    }
}

impl View for Resp {
    type V = Seq<(Seq<u8>, Wire)>;

    open spec fn view(&self) -> Seq<(Seq<u8>, Wire)> {
        fields_view(self.fields@)
    }
}

impl Resp {
    /// The value of the field named `k`.
    pub open spec fn field(&self, k: Seq<u8>) -> Option<Wire> {
        match field_index(self@, k) {
            Some(i) => Some(self@[i].1),
            None => None,
        }
    }

    /// Makes a response of fields; fails exactly when two fields share a name.
    pub fn from_fields(fields: Vec<(String, WireValue)>) -> (r: Result<Resp, RespError>)
        ensures
            r is Ok <==> unique_keys(fields_view(fields@)),
            r is Ok ==> r->Ok_0.fields@ == fields@,
            r is Err ==> r->Err_0 == RespError::DuplicateKey,
    {
        let mut i: usize = 0;
        while i < fields.len()
            invariant
                i <= fields.len(),
                forall|a: int, b: int|
                    0 <= a < b < fields.len() && a < i ==> #[trigger] fields_view(fields@)[a].0
                        != #[trigger] fields_view(fields@)[b].0,
            decreases fields.len() - i,
        {
            let ki = fields[i].0.as_str().as_bytes_vec();
            assert(fields_view(fields@)[i as int].0 == ki@);
            let mut j: usize = i + 1;
            while j < fields.len()
                invariant
                    i < fields.len(),
                    i + 1 <= j <= fields.len(),
                    ki@ == fields_view(fields@)[i as int].0,
                    forall|a: int, b: int|
                        0 <= a < b < fields.len() && a < i ==> #[trigger] fields_view(fields@)[a].0
                            != #[trigger] fields_view(fields@)[b].0,
                    forall|b: int|
                        i < b < j ==> fields_view(fields@)[i as int].0 != #[trigger] fields_view(
                            fields@,
                        )[b].0,
                decreases fields.len() - j,
            {
                let kj = fields[j].0.as_str().as_bytes_vec();
                assert(fields_view(fields@)[j as int].0 == kj@);
                if compare_bytes(&ki, &kj) == 0 {
                    return Err(RespError::DuplicateKey);
                }
                j = j + 1;
            }
            i = i + 1;
        }
        Ok(Resp { fields })
    }

    /// Re-keys a decoded map by text field names. Fails when the value is not a
    /// map, when a name is not valid UTF-8, or when two fields share a name.
    pub fn from_wire(v: WireValue) -> (r: Result<Resp, RespError>)
        ensures
            !(v is Dict) ==> r == Err::<Resp, RespError>(RespError::ExpectedMap),
            v is Dict ==> (r is Ok <==> keys_utf8(v@->Dict_0) && unique_keys(v@->Dict_0)),
            r is Ok ==> r->Ok_0@ == v@->Dict_0,
            v is Dict && !keys_utf8(v@->Dict_0) ==> r == Err::<Resp, RespError>(RespError::BadUtf8),
            v is Dict && keys_utf8(v@->Dict_0) && !unique_keys(v@->Dict_0) ==> r == Err::<
                Resp,
                RespError,
            >(RespError::DuplicateKey),
    {
        match v {
            WireValue::Dict(pairs) => {
                let ghost all = view_pairs(pairs@);
                proof {
                    lemma_view_pairs_len(pairs@);
                }
                let mut rest = pairs;
                let mut fields: Vec<(String, WireValue)> = Vec::new();
                proof {
                    assert(all.skip(0) =~= all);
                    assert(fields_view(fields@) =~= all.take(0));
                }
                while rest.len() > 0
                    invariant
                        v is Dict,
                        all == v@->Dict_0,
                        all.len() == fields.len() + rest.len(),
                        fields_view(fields@) == all.take(fields.len() as int),
                        view_pairs(rest@) == all.skip(fields.len() as int),
                        keys_utf8(all.take(fields.len() as int)),
                    decreases rest.len(),
                {
                    let ghost n = fields.len() as int;
                    proof {
                        lemma_view_pairs_len(rest@);
                        lemma_view_pairs_front(rest@);
                        assert(all[n] == view_pairs(rest@)[0]);
                    }
                    let (k, w) = rest.remove(0);
                    let ghost kb = k@;
                    match text_of(k) {
                        None => {
                            assert(!valid_utf8(all[n].0));
                            return Err(RespError::BadUtf8);
                        },
                        Some(name) => {
                            proof {
                                assert(fields_view(fields@.push((name, w))) =~= fields_view(fields@).push(
                                    (kb, w@),
                                ));
                                assert(all.take(n + 1) =~= all.take(n).push(all[n]));
                                assert(all.skip(n + 1) =~= all.skip(n).skip(1));
                            }
                            fields.push((name, w));
                        },
                    }
                }
                proof {
                    assert(all.take(fields.len() as int) =~= all);
                }
                Resp::from_fields(fields)
            },
            _ => Err(RespError::ExpectedMap),
        }
    }

    /// Whether the response has a field named `key`.
    pub fn contains_key(&self, key: &str) -> (r: bool)
        ensures
            r <==> self.field(utf8(key@)) is Some,
    {
        let kb = key.as_bytes_vec();
        self.find_key(&kb).is_some()
    }

    /// The position of the first field named by the bytes `key`.
    pub fn find_key(&self, key: &Vec<u8>) -> (r: Option<usize>)
        ensures
            match r {
                Some(i) => i < self.fields.len() && field_index(self@, key@) == Some(i as int)
                    && self@[i as int].0 == key@,
                None => field_index(self@, key@) is None && forall|j: int|
                    0 <= j < self@.len() ==> #[trigger] self@[j].0 != key@,
            },
    {
        let mut i: usize = 0;
        while i < self.fields.len()
            invariant
                i <= self.fields.len(),
                forall|j: int| 0 <= j < i ==> #[trigger] self@[j].0 != key@,
            decreases self.fields.len() - i,
        {
            let fb = self.fields[i].0.as_str().as_bytes_vec();
            assert(self@[i as int].0 == fb@);
            if compare_bytes(&fb, key) == 0 {
                proof {
                    assert(first_at(self@, key@, i as int));
                    let c = choose|c: int| #[trigger] first_at(self@, key@, c);
                    if c < i {
                        assert(self@[c].0 != key@);
                    } else if c > i {
                        assert(self@[i as int].0 != key@);
                    }
                }
                return Some(i);
            }
            i = i + 1;
        }
        None
    }

    /// Takes out the first field named `key`, and gives its value.
    pub fn remove(&mut self, key: &str) -> (r: Option<WireValue>)
        ensures
            match field_index(old(self)@, utf8(key@)) {
                Some(i) => r == Some(old(self).fields@[i].1) && final(self).fields@ == old(
                    self,
                ).fields@.remove(i),
                None => r is None && *final(self) == *old(self),
            },
    {
        let kb = key.as_bytes_vec();
        match self.find_key(&kb) {
            Some(i) => {
                let (_, v) = self.fields.remove(i);
                Some(v)
            },
            None => None,
        }
    }
}

proof fn lemma_view_pairs_front(s: Seq<(Vec<u8>, WireValue)>)
    requires
        s.len() > 0,
    ensures
        view_pairs(s) == seq![(s[0].0@, s[0].1@)] + view_pairs(s.skip(1)),
        view_pairs(s).len() == s.len(),
    decreases s.len(),
{
    if s.len() == 1 {
        assert(s.subrange(0, 0) =~= Seq::<(Vec<u8>, WireValue)>::empty());
        assert(s.skip(1) =~= Seq::<(Vec<u8>, WireValue)>::empty());
        assert(view_pairs(s) =~= seq![(s[0].0@, s[0].1@)] + view_pairs(s.skip(1)));
    } else {
        let init = s.subrange(0, s.len() - 1);
        lemma_view_pairs_front(init);
        assert(init.skip(1) =~= s.skip(1).subrange(0, s.len() - 2));
        assert(s.skip(1)[s.len() - 2] == s[s.len() - 1]);
        assert(view_pairs(s) =~= seq![(s[0].0@, s[0].1@)] + view_pairs(s.skip(1)));
    }
}

} // verus!
