//! One exchange: the responses to a request, up to and including the terminal
//! one, and the classification of its status.
use vstd::prelude::*;
use vstd::utf8::valid_utf8;
use vstd::string::StringExecFns;
use crate::wire::{Wire, WireValue, view_items};
use crate::order::compare_bytes;
use crate::nrepl::utf8;
use crate::resp::{Resp, RespError, status_key, done_token, eval_error_token, no_info_token, text_of};

verus! {

/// The outcome that a terminal status stands for.
#[derive(Debug, Clone, Copy, PartialEq, Eq, Structural)]
pub enum StatusKind {
    Done,
    NoInfo,
    EvalError,
    Unknown,
}

/// Classifies the tokens of a terminal status: exactly `done`, exactly
/// `eval-error`, exactly `done` then `no-info`, or anything else.
pub open spec fn classify(t: Seq<Seq<u8>>) -> StatusKind {
    if t == seq![done_token()] {
        StatusKind::Done
    } else if t == seq![eval_error_token()] {
        StatusKind::EvalError
    } else if t == seq![done_token(), no_info_token()] {
        StatusKind::NoInfo
    } else {
        StatusKind::Unknown
    }
}

/// The tokens of a status field: the field must hold a list of byte strings.
pub open spec fn tokens_of(w: Wire) -> Option<Seq<Seq<u8>>> {
    match w {
        Wire::List(items) => if forall|i: int| 0 <= i < items.len() ==> #[trigger] items[i] is Bytes {
            Some(items.map_values(|x: Wire| x->Bytes_0))
        } else {
            None
        },
        _ => None,
    }
}

/// Every token is valid UTF-8.
pub open spec fn tokens_utf8(t: Seq<Seq<u8>>) -> bool {
    forall|i: int| 0 <= i < t.len() ==> valid_utf8(#[trigger] t[i])
}

pub open spec fn texts_view(t: Seq<String>) -> Seq<Seq<u8>> {
    t.map_values(|s: String| utf8(s@))
}

pub open spec fn bytes_view(t: Seq<Vec<u8>>) -> Seq<Seq<u8>> {
    t.map_values(|b: Vec<u8>| b@)
}

/// Texts joined with commas.
pub open spec fn joined_texts(t: Seq<String>) -> Seq<char>
    decreases t.len(),
{
    if t.len() == 0 {
        Seq::empty()
    } else if t.len() == 1 {
        t[0]@
    } else {
        joined_texts(t.drop_last()) + ","@ + t.last()@
    }
}

/// A classified exchange: its terminal status and all of its responses in the
/// order in which they arrived, the terminal one last.
#[derive(Debug)]
pub enum Status {
    Done(Vec<Resp>),
    NoInfo(Vec<Resp>),
    EvalError(Vec<Resp>),
    UnknownStatus(Vec<String>, Vec<Resp>),
}

impl Status {
    pub open spec fn kind(&self) -> StatusKind {
        match self {
            Status::Done(_) => StatusKind::Done,
            Status::NoInfo(_) => StatusKind::NoInfo,
            Status::EvalError(_) => StatusKind::EvalError,
            Status::UnknownStatus(_, _) => StatusKind::Unknown,
        }
    }

    pub open spec fn responses(&self) -> Seq<Resp> {
        match self {
            Status::Done(r) => r@,
            Status::NoInfo(r) => r@,
            Status::EvalError(r) => r@,
            Status::UnknownStatus(_, r) => r@,
        }
    }

    /// The name of the status: `done`, `no-info`, `eval-error`, or the tokens of
    /// an unknown status joined with commas.
    pub fn name(&self) -> (r: String)
        ensures
            r@ == match self {
                Status::Done(_) => "done"@,
                Status::NoInfo(_) => "no-info"@,
                Status::EvalError(_) => "eval-error"@,
                Status::UnknownStatus(t, _) => joined_texts(t@),
            },
    {
        match self {
            Status::Done(_) => "done".to_owned(),
            Status::NoInfo(_) => "no-info".to_owned(),
            Status::EvalError(_) => "eval-error".to_owned(),
            Status::UnknownStatus(t, _) => {
                let mut out = String::new();
                let mut i: usize = 0;
                while i < t.len()
                    invariant
                        i <= t.len(),
                        out@ == joined_texts(t@.take(i as int)),
                    decreases t.len() - i,
                {
                    if i > 0 {
                        out.append(",");
                    }
                    out.append(t[i].as_str());
                    proof {
                        assert(t@.take(i + 1).drop_last() =~= t@.take(i as int));
                    }
                    i = i + 1;
                }
                assert(t@.take(i as int) =~= t@);
                out
            },
        }
    }

    /// The responses of the exchange, the terminal one last.
    pub fn into_resps(self) -> (r: Vec<Resp>)
        ensures
            r@ == self.responses(),
    {
        match self {
            Status::Done(r) => r,
            Status::NoInfo(r) => r,
            Status::EvalError(r) => r,
            Status::UnknownStatus(_, r) => r,
        }
    }
}

/// Whether a response ends its exchange: it has a `status` field.
pub fn is_final_resp(resp: &Resp) -> (r: bool)
    ensures
        r <==> resp.field(status_key()) is Some,
{
    let key: Vec<u8> = vec![115u8, 116u8, 97u8, 116u8, 117u8, 115u8];
    proof {
        assert(key@ =~= status_key());
    }
    resp.find_key(&key).is_some()
}

/// The tokens of a list of byte strings.
pub fn str_tokens(w: &WireValue) -> (r: Option<Vec<Vec<u8>>>)
    ensures
        match r {
            Some(t) => tokens_of(w@) == Some(bytes_view(t@)),
            None => tokens_of(w@) is None,
        },
{
    match w {
        WireValue::List(items) => {
            let ghost iv = view_items(items@);
            proof {
                crate::wire::lemma_view_items_len(items@);
            }
            let mut out: Vec<Vec<u8>> = Vec::new();
            let mut i: usize = 0;
            assert(w@ == Wire::List(iv));
            while i < items.len()
                invariant
                    w@ == Wire::List(iv),
                    i <= items.len(),
                    iv == view_items(items@),
                    iv.len() == items.len(),
                    out@.len() == i,
                    forall|j: int| 0 <= j < i ==> #[trigger] iv[j] is Bytes,
                    bytes_view(out@) =~= iv.take(i as int).map_values(|x: Wire| x->Bytes_0),
                decreases items.len() - i,
            {
                proof {
                    crate::wire::lemma_view_items_index(items@, i as int);
                }
                match &items[i] {
                    WireValue::Bytes(b) => {
                        let c = b.clone();
                        let ghost before = out@;
                        out.push(c);
                        proof {
                            assert(iv[i as int] == Wire::Bytes(b@));
                            assert forall|k: int| 0 <= k < i + 1 implies #[trigger] bytes_view(out@)[k]
                                == iv.take(i + 1).map_values(|x: Wire| x->Bytes_0)[k] by {
                                if k < i {
                                    assert(bytes_view(out@)[k] == bytes_view(before)[k]);
                                }
                            }
                        }
                        assert(bytes_view(out@) =~= iv.take(i + 1).map_values(|x: Wire| x->Bytes_0));
                    },
                    _ => {
                        return None;
                    },
                }
                i = i + 1;
            }
            assert(iv.take(i as int) =~= iv);
            Some(out)
        },
        _ => None,
    }
}

fn is_token(t: &Vec<u8>, lit: &Vec<u8>) -> (r: bool)
    ensures
        r <==> t@ == lit@,
{
    compare_bytes(t, lit) == 0
}

/// Classifies the tokens of a terminal status.
pub fn classify_tokens(t: &Vec<Vec<u8>>) -> (r: StatusKind)
    ensures
        r == classify(bytes_view(t@)),
{
    let done: Vec<u8> = vec![100u8, 111u8, 110u8, 101u8];
    let eval_error: Vec<u8> = vec![101u8, 118u8, 97u8, 108u8, 45u8, 101u8, 114u8, 114u8, 111u8, 114u8];
    let no_info: Vec<u8> = vec![110u8, 111u8, 45u8, 105u8, 110u8, 102u8, 111u8];
    proof {
        assert(done@ =~= done_token());
        assert(eval_error@ =~= eval_error_token());
        assert(no_info@ =~= no_info_token());
    }
    let ghost v = bytes_view(t@);
    if t.len() == 1 && is_token(&t[0], &done) {
        assert(v =~= seq![done_token()]);
        StatusKind::Done
    } else if t.len() == 1 && is_token(&t[0], &eval_error) {
        assert(v =~= seq![eval_error_token()]);
        proof {
            if v == seq![done_token()] {
                assert(v[0] == done_token());
            }
        }
        StatusKind::EvalError
    } else if t.len() == 2 && is_token(&t[0], &done) && is_token(&t[1], &no_info) {
        assert(v =~= seq![done_token(), no_info_token()]);
        StatusKind::NoInfo
    } else {
        proof {
            if v == seq![done_token()] {
                assert(v[0] == done_token());
            }
            if v == seq![eval_error_token()] {
                assert(v[0] == eval_error_token());
            }
            if v == seq![done_token(), no_info_token()] {
                assert(v[0] == done_token());
                assert(v[1] == no_info_token());
            }
        }
        StatusKind::Unknown
    }
}

/// The texts of status tokens, or `None` when one is not valid UTF-8.
pub fn texts_of(t: Vec<Vec<u8>>) -> (r: Option<Vec<String>>)
    ensures
        r is Some <==> tokens_utf8(bytes_view(t@)),
        r is Some ==> texts_view(r->0@) == bytes_view(t@),
{
    let ghost all = bytes_view(t@);
    let mut rest = t;
    let mut out: Vec<String> = Vec::new();
    assert(all.skip(0) =~= all);
    while rest.len() > 0
        invariant
            all == bytes_view(t@),
            all.len() == out.len() + rest.len(),
            texts_view(out@) == all.take(out.len() as int),
            bytes_view(rest@) == all.skip(out.len() as int),
            tokens_utf8(all.take(out.len() as int)),
        decreases rest.len(),
    {
        let ghost n = out.len() as int;
        assert(all[n] == bytes_view(rest@)[0]);
        let ghost old_rest = rest@;
        let b = rest.remove(0);
        proof {
            assert forall|k: int| 0 <= k < rest@.len() implies #[trigger] bytes_view(rest@)[k]
                == all.skip(n + 1)[k] by {
                assert(rest@[k] == old_rest[k + 1]);
                assert(bytes_view(old_rest)[k + 1] == all.skip(n)[k + 1]);
            }
        }
        assert(bytes_view(rest@) =~= all.skip(n + 1));
        match text_of(b) {
            None => {
                assert(!valid_utf8(all[n]));
                return None;
            },
            Some(s) => {
                out.push(s);
                assert(all.take(n + 1) =~= all.take(n).push(all[n]));
                assert(texts_view(out@) =~= all.take(n + 1));
            },
        }
    }
    assert(all.take(out.len() as int) =~= all);
    Some(out)
}

/// What the next response does to an exchange that has received `prior`.
pub open spec fn receive_spec(prior: Seq<Resp>, resp: Resp, r: Result<Progress, RespError>) -> bool {
    match resp.field(status_key()) {
        None => r is Ok && r->Ok_0 is Pending && r->Ok_0->Pending_0.received@ == prior.push(resp),
        Some(w) => match tokens_of(w) {
            None => r == Err::<Progress, RespError>(RespError::ExpectedStrList),
            Some(t) => if classify(t) == StatusKind::Unknown && !tokens_utf8(t) {
                r == Err::<Progress, RespError>(RespError::BadUtf8)
            } else {
                r is Ok && r->Ok_0 is Complete && r->Ok_0->Complete_0.responses() == prior.push(
                    resp,
                ) && r->Ok_0->Complete_0.kind() == classify(t) && (r->Ok_0->Complete_0 is UnknownStatus
                    ==> texts_view(r->Ok_0->Complete_0->UnknownStatus_0@) == t)
            },
        },
    }
}

/// The responses of an exchange received so far; none of them is terminal.
pub struct Exchange {
    pub received: Vec<Resp>,
}

/// An exchange that waits for more responses, or one that has ended.
pub enum Progress {
    Pending(Exchange),
    Complete(Status),
}

/// No response of `rs` has a `status` field.
pub open spec fn none_terminal(rs: Seq<Resp>) -> bool {
    forall|i: int| 0 <= i < rs.len() ==> (#[trigger] rs[i]).field(status_key()) is None
}

impl Exchange {
    /// None of the responses received so far ends the exchange.
    pub open spec fn wf(&self) -> bool {
        none_terminal(self.received@)
    }

    pub fn new() -> (r: Exchange)
        ensures
            r.received@ == Seq::<Resp>::empty(),
            r.wf(),
    {
        Exchange { received: Vec::new() }
    }

    /// Takes the next response. A response without a `status` field is kept and
    /// the exchange goes on; one with it ends the exchange, which is classified by
    /// its status tokens.
    pub fn receive(self, resp: Resp) -> (r: Result<Progress, RespError>)
        ensures
            receive_spec(self.received@, resp, r),
            self.wf() && r is Ok && r->Ok_0 is Pending ==> r->Ok_0->Pending_0.wf(),
            self.wf() && r is Ok && r->Ok_0 is Complete ==> {
                let rs = r->Ok_0->Complete_0.responses();
                &&& rs.len() > 0
                &&& rs.last().field(status_key()) is Some
                &&& none_terminal(rs.drop_last())
            },
    {
        let ghost prior = self.received@;
        let key: Vec<u8> = vec![115u8, 116u8, 97u8, 116u8, 117u8, 115u8];
        assert(key@ =~= status_key());
        let mut received = self.received;
        match resp.find_key(&key) {
            None => {
                received.push(resp);
                proof {
                    if none_terminal(prior) {
                        assert forall|j: int| 0 <= j < received@.len() implies (
                        #[trigger] received@[j]).field(status_key()) is None by {
                            if j < prior.len() {
                                assert(received@[j] == prior[j]);
                            }
                        }
                    }
                }
                Ok(Progress::Pending(Exchange { received }))
            },
            Some(i) => {
                let toks = str_tokens(&resp.fields[i].1);
                assert(resp.field(status_key()) == Some(resp@[i as int].1));
                match toks {
                    None => Err(RespError::ExpectedStrList),
                    Some(t) => {
                        let kind = classify_tokens(&t);
                        received.push(resp);
                        assert(received@.drop_last() =~= prior);
                        match kind {
                            StatusKind::Done => Ok(Progress::Complete(Status::Done(received))),
                            StatusKind::NoInfo => Ok(Progress::Complete(Status::NoInfo(received))),
                            StatusKind::EvalError => Ok(
                                Progress::Complete(Status::EvalError(received)),
                            ),
                            StatusKind::Unknown => {
                                match texts_of(t) {
                                    None => Err(RespError::BadUtf8),
                                    Some(texts) => Ok(
                                        Progress::Complete(Status::UnknownStatus(texts, received)),
                                    ),
                                }
                            },
                        }
                    },
                }
            },
        }
    }
}

} // verus!
