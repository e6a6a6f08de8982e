//! The operations that the library sends, and the reading of their responses.
use vstd::prelude::*;
use vstd::string::StringExecFns;
use vstd::string::StrSliceExecFns;
use vstd::utf8::valid_utf8;
use crate::wire::{Wire, WireValue};
use crate::nrepl::{Op, utf8};
use crate::resp::{Resp, RespError, field_index, text_of};
use crate::exchange::{Status, StatusKind, tokens_of, tokens_utf8, texts_view, str_tokens, texts_of};
use crate::session::Session;

verus! {

/// Why the responses to an operation do not give what it asked for.
#[derive(Debug, Clone, PartialEq, Eq)]
pub enum OpError {
    /// `clone` was answered without a `new-session` field.
    NoSessionIdInResponse,
    /// `ls-sessions` was answered without a `sessions` field.
    NoSessionsInResponse,
    /// A required field is missing.
    FieldNotFound,
    /// The exchange ended with a status that the operation does not accept: its
    /// kind and its raw tokens.
    BadStatus(StatusKind, Vec<String>),
    /// `describe` was answered with two `ops` maps.
    DuplicatedOpsInResponse,
    /// The server did not advertise `info`.
    InfoOpUnavailable,
    /// A field holds a value of the wrong shape.
    Field(RespError),
}

/// The raw tokens of a status, as texts.
pub open spec fn status_texts(st: Status) -> Seq<Seq<char>> {
    match st {
        Status::Done(_) => seq!["done"@],
        Status::NoInfo(_) => seq!["done"@, "no-info"@],
        Status::EvalError(_) => seq!["eval-error"@],
        Status::UnknownStatus(t, _) => t@.map_values(|x: String| x@),
    }
}

/// `e` reports the status `st`, with its kind and its raw tokens.
pub open spec fn is_bad_status(e: OpError, st: Status) -> bool {
    e is BadStatus && e->BadStatus_0 == st.kind() && e->BadStatus_1@.map_values(|x: String| x@)
        == status_texts(st)
}

/// The error that reports a status an operation does not accept.
pub fn bad_status(st: Status) -> (r: OpError)
    ensures
        is_bad_status(r, st),
{
    let kind = match &st {
        Status::Done(_) => StatusKind::Done,
        Status::NoInfo(_) => StatusKind::NoInfo,
        Status::EvalError(_) => StatusKind::EvalError,
        Status::UnknownStatus(_, _) => StatusKind::Unknown,
    };
    let ghost orig = st;
    let texts: Vec<String> = match st {
        Status::Done(_) => vec!["done".to_owned()],
        Status::NoInfo(_) => vec!["done".to_owned(), "no-info".to_owned()],
        Status::EvalError(_) => vec!["eval-error".to_owned()],
        Status::UnknownStatus(t, _) => t,
    };
    assert(texts@.map_values(|x: String| x@) =~= status_texts(orig));
    OpError::BadStatus(kind, texts)
}

/// What a field must hold to be read as text: a byte string in UTF-8.
pub open spec fn string_spec(w: Wire, r: Result<String, RespError>) -> bool {
    match w {
        Wire::Bytes(b) => if valid_utf8(b) {
            r is Ok && utf8(r->Ok_0@) == b
        } else {
            r == Err::<String, RespError>(RespError::BadUtf8)
        },
        _ => r == Err::<String, RespError>(RespError::ExpectedString),
    }
}

/// What a field must hold to be read as a list of texts.
pub open spec fn str_vec_spec(w: Wire, r: Result<Vec<String>, RespError>) -> bool {
    match tokens_of(w) {
        None => r == Err::<Vec<String>, RespError>(RespError::ExpectedStrList),
        Some(t) => if tokens_utf8(t) {
            r is Ok && texts_view(r->Ok_0@) == t
        } else {
            r == Err::<Vec<String>, RespError>(RespError::BadUtf8)
        },
    }
}

/// A result that holds a value, with no room for its absence.
pub open spec fn lift<T>(r: Result<Option<T>, RespError>) -> Result<T, RespError> {
    match r {
        Ok(Some(v)) => Ok(v),
        Ok(None) => Err(RespError::ExpectedString),
        Err(e) => Err(e),
    }
}

/// Reads a field as text.
pub fn try_into_string(val: &WireValue) -> (r: Result<String, RespError>)
    ensures
        string_spec(val@, r),
{
    match val {
        WireValue::Bytes(b) => match text_of(b.clone()) {
            Some(s) => Ok(s),
            None => Err(RespError::BadUtf8),
        },
        _ => Err(RespError::ExpectedString),
    }
}

/// Reads a field as a list of texts.
pub fn try_into_str_vec(val: &WireValue) -> (r: Result<Vec<String>, RespError>)
    ensures
        str_vec_spec(val@, r),
{
    match str_tokens(val) {
        None => Err(RespError::ExpectedStrList),
        Some(t) => match texts_of(t) {
            Some(texts) => Ok(texts),
            None => Err(RespError::BadUtf8),
        },
    }
}

/// Reads a field as an integer.
pub fn try_into_int(val: &WireValue) -> (r: Result<i64, RespError>)
    ensures
        match val@ {
            Wire::Int(n) => r == Ok::<i64, RespError>(n),
            _ => r == Err::<i64, RespError>(RespError::ExpectedInt),
        },
{
    match val {
        WireValue::Int(n) => Ok(*n),
        _ => Err(RespError::ExpectedInt),
    }
}

/// Takes the field `k` out of a response and reads it as an integer.
pub fn get_int_bencode(resp: &mut Resp, k: &str) -> (r: Result<Option<i64>, RespError>)
    ensures
        match field_index(old(resp)@, utf8(k@)) {
            None => r == Ok::<Option<i64>, RespError>(None) && *final(resp) == *old(resp),
            Some(i) => final(resp).fields@ == old(resp).fields@.remove(i) && match old(resp)@[i].1 {
                Wire::Int(n) => r == Ok::<Option<i64>, RespError>(Some(n)),
                _ => r == Err::<Option<i64>, RespError>(RespError::ExpectedInt),
            },
        },
{
    match resp.remove(k) {
        Some(v) => match try_into_int(&v) {
            Ok(n) => Ok(Some(n)),
            Err(e) => Err(e),
        },
        None => Ok(None),
    }
}

/// Takes the field `k` out of a response and reads it as text.
pub fn get_str_bencode(resp: &mut Resp, k: &str) -> (r: Result<Option<String>, RespError>)
    ensures
        match field_index(old(resp)@, utf8(k@)) {
            None => r == Ok::<Option<String>, RespError>(None) && *final(resp) == *old(resp),
            Some(i) => final(resp).fields@ == old(resp).fields@.remove(i) && (r is Ok ==> r->Ok_0 is Some)
                && string_spec(old(resp)@[i].1, lift(r)),
        },
{
    match resp.remove(k) {
        Some(v) => match try_into_string(&v) {
            Ok(s) => Ok(Some(s)),
            Err(e) => Err(e),
        },
        None => Ok(None),
    }
}

/// Takes the field `k` out of a response and reads it as a list of texts.
pub fn get_str_list_bencode(resp: &mut Resp, k: &str) -> (r: Result<Option<Vec<String>>, RespError>)
    ensures
        match field_index(old(resp)@, utf8(k@)) {
            None => r == Ok::<Option<Vec<String>>, RespError>(None) && *final(resp) == *old(resp),
            Some(i) => final(resp).fields@ == old(resp).fields@.remove(i) && (r is Ok ==> r->Ok_0 is Some)
                && str_vec_spec(old(resp)@[i].1, lift(r)),
        },
{
    match resp.remove(k) {
        Some(v) => match try_into_str_vec(&v) {
            Ok(s) => Ok(Some(s)),
            Err(e) => Err(e),
        },
        None => Ok(None),
    }
}

/// `i` is the first response with a field named `k`.
pub open spec fn first_resp_at(rs: Seq<Resp>, k: Seq<u8>, i: int) -> bool {
    0 <= i < rs.len() && field_index(rs[i]@, k) is Some && forall|j: int|
        0 <= j < i ==> field_index(#[trigger] rs[j]@, k) is None
}

/// The value of the field named `k` in the first response that has one.
pub open spec fn first_field_value(rs: Seq<Resp>, k: Seq<u8>) -> Option<Wire> {
    if exists|i: int| #[trigger] first_resp_at(rs, k, i) {
        rs[choose|i: int| #[trigger] first_resp_at(rs, k, i)].field(k)
    } else {
        None
    }
}

/// The field error inside an operation error.
pub open spec fn field_err<T>(r: Result<T, OpError>) -> Result<T, RespError> {
    match r {
        Ok(v) => Ok(v),
        Err(OpError::Field(e)) => Err(e),
        Err(_) => Err(RespError::ExpectedMap),
    }
}

/// The first response with a field named `key`, and the position of that field.
fn first_field(resps: &Vec<Resp>, key: &Vec<u8>) -> (r: Option<(usize, usize)>)
    ensures
        match r {
            Some((i, j)) => first_resp_at(resps@, key@, i as int) && j < resps@[i as int].fields@.len()
                && field_index(resps@[i as int]@, key@) == Some(j as int) && first_field_value(
                resps@,
                key@,
            ) == Some(resps@[i as int].fields@[j as int].1@),
            None => first_field_value(resps@, key@) is None && forall|i: int|
                0 <= i < resps@.len() ==> field_index(#[trigger] resps@[i]@, key@) is None,
        },
{
    let mut i: usize = 0;
    while i < resps.len()
        invariant
            i <= resps.len(),
            forall|j: int| 0 <= j < i ==> field_index(#[trigger] resps@[j]@, key@) is None,
        decreases resps.len() - i,
    {
        match resps[i].find_key(key) {
            Some(j) => {
                proof {
                    assert(first_resp_at(resps@, key@, i as int));
                    let c = choose|c: int| #[trigger] first_resp_at(resps@, key@, c);
                    if c < i {
                        assert(field_index(resps@[c]@, key@) is None);
                    } else if c > i {
                        assert(field_index(resps@[i as int]@, key@) is None);
                    }
                }
                return Some((i, j));
            },
            None => {},
        }
        i = i + 1;
    }
    None
}

/// Asks the server for a new session, a copy of `session` if one is given.
pub struct CloneSession {
    pub session: Option<String>,
}

impl CloneSession {
    pub fn new(session: Option<String>) -> (r: Self)
        ensures
            r.session == session,
    {
        Self { session }
    }

    /// The `clone` operation, with the session to copy as its `session` argument.
    pub fn to_op(&self) -> (r: Op)
        ensures
            r.name@ == "clone"@,
            self.session is None ==> r.args@.len() == 0,
            self.session is Some ==> r.args@.len() == 1 && r.args@[0].0@ == "session"@
                && r.args@[0].1@ == self.session->0@,
    {
        let mut args: Vec<(String, String)> = Vec::new();
        match &self.session {
            Some(s) => {
                args.push(("session".to_owned(), s.clone()));
            },
            None => {},
        }
        Op::new("clone".to_owned(), args)
    }

    /// The identifier of the new session: the `new-session` field of the first
    /// response that has one, in an exchange that ended `done`.
    pub fn read_response(status: Status) -> (r: Result<String, OpError>)
        ensures
            status.kind() != StatusKind::Done ==> r is Err && is_bad_status(r->Err_0, status),
            status.kind() == StatusKind::Done ==> match first_field_value(
                status.responses(),
                new_session_key(),
            ) {
                None => r == Err::<String, OpError>(OpError::NoSessionIdInResponse),
                Some(w) => string_spec(w, field_err(r)) && (r is Err ==> r->Err_0 is Field),
            },
    {
        let key: Vec<u8> = vec![110u8, 101u8, 119u8, 45u8, 115u8, 101u8, 115u8, 115u8, 105u8, 111u8, 110u8];
        assert(key@ =~= new_session_key());
        match status {
            Status::Done(resps) => match first_field(&resps, &key) {
                None => Err(OpError::NoSessionIdInResponse),
                Some((i, j)) => match try_into_string(&resps[i].fields[j].1) {
                    Ok(s) => Ok(s),
                    Err(e) => Err(OpError::Field(e)),
                },
            },
            other => Err(bad_status(other)),
        }
    }
}

/// `new-session`
pub open spec fn new_session_key() -> Seq<u8> {
    seq![110u8, 101u8, 119u8, 45u8, 115u8, 101u8, 115u8, 115u8, 105u8, 111u8, 110u8]
}

/// `sessions`
pub open spec fn sessions_key() -> Seq<u8> {
    seq![115u8, 101u8, 115u8, 115u8, 105u8, 111u8, 110u8, 115u8]
}

/// Asks the server for the identifiers of its live sessions.
pub struct LsSessions {}

impl LsSessions {
    pub fn new() -> (r: Self) {
        Self {  }
    }

    /// The `ls-sessions` operation, without arguments.
    pub fn to_op(&self) -> (r: Op)
        ensures
            r.name@ == "ls-sessions"@,
            r.args@.len() == 0,
    {
        Op::new("ls-sessions".to_owned(), Vec::new())
    }

    /// The live session identifiers: the `sessions` field of the first response
    /// that has one, in an exchange that ended `done`.
    pub fn read_response(status: Status) -> (r: Result<Vec<String>, OpError>)
        ensures
            status.kind() != StatusKind::Done ==> r is Err && is_bad_status(r->Err_0, status),
            status.kind() == StatusKind::Done ==> match first_field_value(
                status.responses(),
                sessions_key(),
            ) {
                None => r == Err::<Vec<String>, OpError>(OpError::NoSessionsInResponse),
                Some(w) => str_vec_spec(w, field_err(r)) && (r is Err ==> r->Err_0 is Field),
            },
    {
        let key: Vec<u8> = vec![115u8, 101u8, 115u8, 115u8, 105u8, 111u8, 110u8, 115u8];
        assert(key@ =~= sessions_key());
        match status {
            Status::Done(resps) => match first_field(&resps, &key) {
                None => Err(OpError::NoSessionsInResponse),
                Some((i, j)) => match try_into_str_vec(&resps[i].fields[j].1) {
                    Ok(s) => Ok(s),
                    Err(e) => Err(OpError::Field(e)),
                },
            },
            other => Err(bad_status(other)),
        }
    }
}

/// `ops`
pub open spec fn ops_key() -> Seq<u8> {
    seq![111u8, 112u8, 115u8]
}

/// The map under `ops` in a response, if that field holds a map.
pub open spec fn ops_dict(r: Resp) -> Option<Seq<(Seq<u8>, Wire)>> {
    match r.field(ops_key()) {
        Some(Wire::Dict(ps)) => Some(ps),
        _ => None,
    }
}

pub open spec fn dict_keys(ps: Seq<(Seq<u8>, Wire)>) -> Seq<Seq<u8>> {
    ps.map_values(|p: (Seq<u8>, Wire)| p.0)
}

/// Response `i` is the first one with an `ops` map.
pub open spec fn first_ops_at(rs: Seq<Resp>, i: int) -> bool {
    0 <= i < rs.len() && ops_dict(rs[i]) is Some && forall|k: int|
        0 <= k < i ==> ops_dict(#[trigger] rs[k]) is None
}

/// Response `i` is the only one with an `ops` map.
pub open spec fn only_ops_at(rs: Seq<Resp>, i: int) -> bool {
    0 <= i < rs.len() && ops_dict(rs[i]) is Some && forall|j: int|
        0 <= j < rs.len() && j != i ==> ops_dict(#[trigger] rs[j]) is None
}

/// Each name once, where it first comes.
pub open spec fn dedup(s: Seq<Seq<u8>>) -> Seq<Seq<u8>>
    decreases s.len(),
{
    if s.len() == 0 {
        s
    } else {
        let d = dedup(s.drop_last());
        if d.contains(s.last()) {
            d
        } else {
            d.push(s.last())
        }
    }
}

fn contains_text(v: &Vec<String>, b: &Vec<u8>) -> (r: bool)
    ensures
        r <==> texts_view(v@).contains(b@),
{
    let mut i: usize = 0;
    while i < v.len()
        invariant
            i <= v.len(),
            forall|j: int| 0 <= j < i ==> #[trigger] texts_view(v@)[j] != b@,
        decreases v.len() - i,
    {
        let vb = v[i].as_str().as_bytes_vec();
        assert(texts_view(v@)[i as int] == vb@);
        if crate::order::compare_bytes(&vb, b) == 0 {
            return true;
        }
        i = i + 1;
    }
    false
}

/// The keys of a map, as texts, each once.
fn dict_key_texts(ps: &Vec<(Vec<u8>, WireValue)>) -> (r: Option<Vec<String>>)
    ensures
        r is Some <==> tokens_utf8(dict_keys(crate::wire::view_pairs(ps@))),
        r is Some ==> texts_view(r->0@) == dedup(dict_keys(crate::wire::view_pairs(ps@))),
{
    let ghost keys = dict_keys(crate::wire::view_pairs(ps@));
    proof {
        crate::wire::lemma_view_pairs_len(ps@);
    }
    let mut out: Vec<String> = Vec::new();
    let mut i: usize = 0;
    while i < ps.len()
        invariant
            i <= ps.len(),
            keys == dict_keys(crate::wire::view_pairs(ps@)),
            keys.len() == ps.len(),
            texts_view(out@) == dedup(keys.take(i as int)),
            tokens_utf8(keys.take(i as int)),
        decreases ps.len() - i,
    {
        proof {
            crate::wire::lemma_view_pairs_index(ps@, i as int);
            assert(keys.take(i + 1).drop_last() =~= keys.take(i as int));
        }
        let k = ps[i].0.clone();
        let seen = contains_text(&out, &k);
        match text_of(k) {
            None => {
                assert(!valid_utf8(keys[i as int]));
                return None;
            },
            Some(t) => {
                if !seen {
                    out.push(t);
                    assert(texts_view(out@) =~= dedup(keys.take(i + 1)));
                }
            },
        }
        i = i + 1;
    }
    assert(keys.take(i as int) =~= keys);
    Some(out)
}

/// Asks the server what it supports.
pub struct Describe {
    pub verbose: bool,
}

/// The names of the operations that a server supports, each once.
pub struct DescribeResp {
    pub ops: Vec<String>,
}

impl DescribeResp {
    pub fn ops(&self) -> (r: &Vec<String>)
        ensures
            r == &self.ops,
    {
        &self.ops
    }

    pub fn into_ops(self) -> (r: Vec<String>)
        ensures
            r == self.ops,
    {
        self.ops
    }
}

impl Describe {
    pub fn new(verbose: bool) -> (r: Self)
        ensures
            r.verbose == verbose,
    {
        Self { verbose }
    }

    /// The `describe` operation, with `verbose?` set to `true` when verbose.
    pub fn to_op(&self) -> (r: Op)
        ensures
            r.name@ == "describe"@,
            !self.verbose ==> r.args@.len() == 0,
            self.verbose ==> r.args@.len() == 1 && r.args@[0].0@ == "verbose?"@ && r.args@[0].1@
                == "true"@,
    {
        let mut args: Vec<(String, String)> = Vec::new();
        if self.verbose {
            args.push(("verbose?".to_owned(), "true".to_owned()));
        }
        Op::new("describe".to_owned(), args)
    }

    /// The supported operations: the keys of the one `ops` map among the
    /// responses of an exchange that ended `done`.
    pub fn read_response(status: Status) -> (r: Result<DescribeResp, OpError>)
        ensures
            status.kind() != StatusKind::Done ==> r is Err && is_bad_status(r->Err_0, status),
            status.kind() == StatusKind::Done ==> {
                let rs = status.responses();
                &&& (forall|i: int| 0 <= i < rs.len() ==> ops_dict(#[trigger] rs[i]) is None) ==> r
                    == Err::<DescribeResp, OpError>(OpError::FieldNotFound)
                &&& r is Ok ==> exists|i: int|
                    #[trigger] only_ops_at(rs, i) && texts_view(r->Ok_0.ops@) == dedup(
                        dict_keys(ops_dict(rs[i])->0),
                    )
                &&& (exists|i: int|
                    #[trigger] only_ops_at(rs, i) && tokens_utf8(dict_keys(ops_dict(rs[i])->0)))
                    ==> r is Ok
                &&& forall|i: int, j: int|
                    #[trigger] first_ops_at(rs, i) && i < j < rs.len() && ops_dict(#[trigger] rs[j])
                        is Some && tokens_utf8(dict_keys(ops_dict(rs[i])->0)) ==> r == Err::<
                        DescribeResp,
                        OpError,
                    >(OpError::DuplicatedOpsInResponse)
                &&& forall|i: int|
                    #[trigger] first_ops_at(rs, i) && !tokens_utf8(dict_keys(ops_dict(rs[i])->0))
                        ==> r == Err::<DescribeResp, OpError>(OpError::Field(RespError::BadUtf8))
                &&& r is Err ==> r->Err_0 == OpError::FieldNotFound || r->Err_0
                    == OpError::DuplicatedOpsInResponse || r->Err_0 == OpError::Field(
                    RespError::BadUtf8,
                )
            },
    {
        let key: Vec<u8> = vec![111u8, 112u8, 115u8];
        assert(key@ =~= ops_key());
        match status {
            Status::Done(resps) => {
                let mut found: Option<Vec<String>> = None;
                let ghost mut at: int = -1;
                let mut i: usize = 0;
                while i < resps.len()
                    invariant
                        status.kind() == StatusKind::Done,
                        status.responses() == resps@,
                        i <= resps.len(),
                        key@ == ops_key(),
                        found is None ==> forall|j: int| 0 <= j < i ==> ops_dict(#[trigger] resps@[j]) is None,
                        found is Some ==> 0 <= at < i && ops_dict(resps@[at]) is Some && texts_view(
                            found->0@,
                        ) == dedup(dict_keys(ops_dict(resps@[at])->0)) && tokens_utf8(
                            dict_keys(ops_dict(resps@[at])->0),
                        ) && forall|j: int|
                            0 <= j < i && j != at ==> ops_dict(#[trigger] resps@[j]) is None,
                    decreases resps.len() - i,
                {
                    match resps[i].find_key(&key) {
                        Some(j) => {
                            match &resps[i].fields[j].1 {
                                WireValue::Dict(ps) => {
                                    assert(ops_dict(resps@[i as int]) == Some(
                                        crate::wire::view_pairs(ps@),
                                    ));
                                    if found.is_some() {
                                        proof {
                                            assert forall|x: int| #[trigger] first_ops_at(resps@, x)
                                                implies x == at by {
                                                if x < at {
                                                    assert(ops_dict(resps@[x]) is None);
                                                } else if x > at {
                                                    assert(ops_dict(resps@[at]) is None);
                                                }
                                            }
                                            assert forall|x: int| !only_ops_at(resps@, x) by {
                                                if 0 <= x < resps@.len() && ops_dict(resps@[x]) is Some {
                                                    if x != at {
                                                        assert(ops_dict(resps@[at]) is Some);
                                                    } else {
                                                        assert(ops_dict(resps@[i as int]) is Some);
                                                    }
                                                }
                                            }
                                        }
                                        return Err(OpError::DuplicatedOpsInResponse);
                                    }
                                    match dict_key_texts(ps) {
                                        None => {
                                            proof {
                                                assert forall|x: int| #[trigger] first_ops_at(resps@, x)
                                                    implies x == i by {
                                                    if x < i {
                                                        assert(ops_dict(resps@[x]) is None);
                                                    } else if x > i {
                                                        assert(ops_dict(resps@[i as int]) is None);
                                                    }
                                                }
                                                assert forall|x: int| #[trigger] only_ops_at(resps@, x)
                                                    implies !tokens_utf8(dict_keys(ops_dict(resps@[x])->0)) by {
                                                    if x != i {
                                                        assert(ops_dict(resps@[i as int]) is Some);
                                                    }
                                                }
                                            }
                                            return Err(OpError::Field(RespError::BadUtf8));
                                        },
                                        Some(t) => {
                                            found = Some(t);
                                            proof {
                                                at = i as int;
                                            }
                                        },
                                    }
                                },
                                _ => {
                                    assert(ops_dict(resps@[i as int]) is None);
                                },
                            }
                        },
                        None => {
                            assert(ops_dict(resps@[i as int]) is None);
                        },
                    }
                    i = i + 1;
                }
                match found {
                    None => Err(OpError::FieldNotFound),
                    Some(t) => {
                        assert(only_ops_at(resps@, at));
                        proof {
                            assert forall|x: int| #[trigger] first_ops_at(resps@, x) implies x == at by {
                                if x < at {
                                    assert(ops_dict(resps@[x]) is None);
                                } else if x > at {
                                    assert(ops_dict(resps@[at]) is None);
                                }
                            }
                            assert forall|x: int| #[trigger] only_ops_at(resps@, x) implies x == at by {
                                if x != at {
                                    assert(ops_dict(resps@[x]) is None);
                                }
                            }
                        }
                        Ok(DescribeResp { ops: t })
                    },
                }
            },
            other => Err(bad_status(other)),
        }
    }
}

/// `value`
pub open spec fn value_key() -> Seq<u8> {
    seq![118u8, 97u8, 108u8, 117u8, 101u8]
}

/// Response `i` is the last one with a field named `k`.
pub open spec fn last_resp_at(rs: Seq<Resp>, k: Seq<u8>, i: int) -> bool {
    0 <= i < rs.len() && rs[i].field(k) is Some && forall|j: int|
        i < j < rs.len() ==> (#[trigger] rs[j]).field(k) is None
}

/// A field that is absent, or holds text.
pub open spec fn good_text(w: Option<Wire>) -> bool {
    match w {
        None => true,
        Some(Wire::Bytes(b)) => valid_utf8(b),
        Some(_) => false,
    }
}

/// The text that reads the namespace declaration of a source file.
pub open spec fn ns_code(path: Seq<char>) -> Seq<char> {
    "\n             (do\n                (require 'clojure.tools.namespace.file)\n                (nth (clojure.tools.namespace.file/read-file-ns-decl \""@ + path
        + "\") 1)\n             )"@
}

/// Reads the namespace name of a source file, by evaluating a form in a session.
pub struct GetNsName {
    pub source_path: String,
    pub session: Session,
}

impl GetNsName {
    pub fn new(source_path: String, session: Session) -> (r: Self)
        ensures
            r.source_path == source_path,
            r.session == session,
    {
        Self { source_path, session }
    }

    /// The `eval` operation, with the form as `code` and the session identifier.
    pub fn to_op(&self) -> (r: Op)
        ensures
            r.name@ == "eval"@,
            r.args@.len() == 2,
            r.args@[0].0@ == "code"@,
            r.args@[0].1@ == ns_code(self.source_path@),
            r.args@[1].0@ == "session"@,
            r.args@[1].1@ == self.session.session@,
    {
        let mut code = "\n             (do\n                (require 'clojure.tools.namespace.file)\n                (nth (clojure.tools.namespace.file/read-file-ns-decl \"".to_owned();
        code.append(self.source_path.as_str());
        code.append("\") 1)\n             )");
        let mut args: Vec<(String, String)> = Vec::new();
        args.push(("code".to_owned(), code));
        args.push(("session".to_owned(), self.session.id()));
        Op::new("eval".to_owned(), args)
    }

    /// The namespace name: the `value` field of the last response that has one,
    /// in an exchange that ended `done`; every `value` field must be text.
    pub fn read_response(status: Status) -> (r: Result<Option<String>, OpError>)
        ensures
            status.kind() != StatusKind::Done ==> r is Err && is_bad_status(r->Err_0, status),
            status.kind() == StatusKind::Done ==> {
                let rs = status.responses();
                &&& (forall|i: int| 0 <= i < rs.len() ==> (#[trigger] rs[i]).field(value_key()) is None)
                    ==> r == Ok::<Option<String>, OpError>(None)
                &&& (r is Ok && r->Ok_0 is Some) ==> exists|i: int|
                    #[trigger] last_resp_at(rs, value_key(), i) && string_spec(
                        rs[i].field(value_key())->0,
                        Ok(r->Ok_0->0),
                    )
                &&& (r is Ok && r->Ok_0 is None) ==> forall|i: int|
                    0 <= i < rs.len() ==> (#[trigger] rs[i]).field(value_key()) is None
                &&& (exists|i: int|
                    0 <= i < rs.len() && !good_text((#[trigger] rs[i]).field(value_key()))) ==> r is Err
                &&& r is Err ==> r->Err_0 is Field && exists|i: int|
                    0 <= i < rs.len() && (#[trigger] rs[i]).field(value_key()) is Some && string_spec(
                        rs[i].field(value_key())->0,
                        Err(r->Err_0->Field_0),
                    ) && forall|j: int| 0 <= j < i ==> good_text(#[trigger] rs[j].field(value_key()))
            },
    {
        let key: Vec<u8> = vec![118u8, 97u8, 108u8, 117u8, 101u8];
        assert(key@ =~= value_key());
        match status {
            Status::Done(resps) => {
                let mut value: Option<String> = None;
                let ghost mut at: int = -1;
                let mut i: usize = 0;
                while i < resps.len()
                    invariant
                        status.kind() == StatusKind::Done,
                        status.responses() == resps@,
                        i <= resps.len(),
                        key@ == value_key(),
                        forall|j: int| 0 <= j < i ==> good_text(#[trigger] resps@[j].field(value_key())),
                        value is None ==> forall|j: int|
                            0 <= j < i ==> (#[trigger] resps@[j]).field(value_key()) is None,
                        value is Some ==> 0 <= at < i && resps@[at].field(value_key()) is Some
                            && string_spec(resps@[at].field(value_key())->0, Ok(value->0))
                            && forall|j: int|
                            at < j < i ==> (#[trigger] resps@[j]).field(value_key()) is None,
                    decreases resps.len() - i,
                {
                    match resps[i].find_key(&key) {
                        Some(j) => {
                            match try_into_string(&resps[i].fields[j].1) {
                                Ok(s) => {
                                    value = Some(s);
                                    proof {
                                        at = i as int;
                                    }
                                },
                                Err(e) => {
                                    return Err(OpError::Field(e));
                                },
                            }
                        },
                        None => {},
                    }
                    i = i + 1;
                }
                proof {
                    if value is Some {
                        assert(last_resp_at(resps@, value_key(), at));
                    }
                }
                Ok(value)
            },
            other => Err(bad_status(other)),
        }
    }
}

/// Asks for what the server knows of a symbol in a namespace.
pub struct Info {
    pub ns: String,
    pub symbol: String,
    pub session: Session,
}

impl Info {
    pub fn new(session: Session, ns: String, symbol: String) -> (r: Self)
        ensures
            r.session == session,
            r.ns == ns,
            r.symbol == symbol,
    {
        Self { session, ns, symbol }
    }

    /// The server advertised `info` for the session.
    pub fn check_available(&self) -> (r: Result<(), OpError>)
        ensures
            r is Ok <==> exists|i: int|
                0 <= i < self.session.ops@.len() && #[trigger] self.session.ops@[i]@ == "info"@,
            r is Err ==> r->Err_0 == OpError::InfoOpUnavailable,
    {
        if self.session.is_op_available("info") {
            Ok(())
        } else {
            Err(OpError::InfoOpUnavailable)
        }
    }

    /// The `info` operation, with the symbol, the namespace and the session.
    pub fn to_op(&self) -> (r: Op)
        ensures
            r.name@ == "info"@,
            r.args@.len() == 3,
            r.args@[0].0@ == "symbol"@,
            r.args@[0].1@ == self.symbol@,
            r.args@[1].0@ == "ns"@,
            r.args@[1].1@ == self.ns@,
            r.args@[2].0@ == "session"@,
            r.args@[2].1@ == self.session.session@,
    {
        let mut args: Vec<(String, String)> = Vec::new();
        args.push(("symbol".to_owned(), self.symbol.clone()));
        args.push(("ns".to_owned(), self.ns.clone()));
        args.push(("session".to_owned(), self.session.id()));
        Op::new("info".to_owned(), args)
    }
}

/// Where a symbol or a namespace is defined, and its documentation.
#[derive(Debug)]
pub struct InfoResponse {
    pub line: i64,
    pub col: Option<i64>,
    pub file: String,
    pub resource: String,
    pub doc: String,
}

impl InfoResponse {
    pub fn new(line: i64, col: Option<i64>, file: String, resource: String, doc: String) -> (r: Self)
        ensures
            r == (InfoResponse { line, col, file, resource, doc }),
    {
        Self { line, col, file, resource, doc }
    }
}

/// What an `info` response describes: a namespace or a symbol.
#[derive(Debug)]
pub enum InfoResponseType {
    Ns(InfoResponse),
    Symbol(InfoResponse),
}

impl InfoResponseType {
    pub fn into_resp(self) -> (r: InfoResponse)
        ensures
            match self {
                InfoResponseType::Ns(x) => r == x,
                InfoResponseType::Symbol(x) => r == x,
            },
    {
        match self {
            InfoResponseType::Ns(r) => r,
            InfoResponseType::Symbol(r) => r,
        }
    }
}

} // verus!
