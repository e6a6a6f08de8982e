use unrepl::exchange::{classify_tokens, is_final_resp, Exchange, Progress, Status, StatusKind};
use unrepl::nrepl::{EncodeError, Op};
use unrepl::ops::{
    get_int_bencode, get_str_bencode, get_str_list_bencode, try_into_int, try_into_str_vec,
    try_into_string, CloneSession, Describe, GetNsName, Info, InfoResponse, InfoResponseType,
    LsSessions, OpError,
};
use unrepl::resp::{Resp, RespError};
use unrepl::session::Session;
use unrepl::wire::WireValue;

fn bytes(s: &str) -> WireValue {
    WireValue::Bytes(s.as_bytes().to_vec())
}

fn list(items: &[&str]) -> WireValue {
    WireValue::List(items.iter().map(|s| bytes(s)).collect())
}

fn resp(fields: Vec<(&str, WireValue)>) -> Resp {
    Resp::from_fields(fields.into_iter().map(|(k, v)| (k.to_string(), v)).collect()).unwrap()
}

fn args(pairs: &[(&str, &str)]) -> Vec<(String, String)> {
    pairs.iter().map(|(k, v)| (k.to_string(), v.to_string())).collect()
}

fn run(resps: Vec<Resp>) -> Status {
    let mut ex = Exchange::new();
    for r in resps {
        match ex.receive(r).unwrap() {
            Progress::Pending(next) => ex = next,
            Progress::Complete(st) => return st,
        }
    }
    panic!("exchange did not end");
}

fn session() -> Session {
    Session::new(
        "127.0.0.1:7888".to_string(),
        "abc".to_string(),
        vec!["info".to_string(), "eval".to_string()],
    )
}

#[test]
fn final_resp_test() {
    let final_resp = resp(vec![("status", WireValue::Bytes(vec![]))]);
    let not_final_resp = resp(vec![("foo", WireValue::Bytes(vec![]))]);
    assert!(is_final_resp(&final_resp));
    assert!(!is_final_resp(&not_final_resp));
}

#[test]
fn clone_without_arguments_encodes_as_single_pair_map() {
    let op = Op::new("clone".to_string(), vec![]);
    assert_eq!(op.encode().unwrap(), b"d2:op5:clonee".to_vec());
}

#[test]
fn arguments_are_sorted_by_key() {
    let op = Op::new("eval".to_string(), args(&[("session", "s1"), ("code", "(+ 1 2)")]));
    assert_eq!(
        op.encode().unwrap(),
        b"d4:code7:(+ 1 2)2:op4:eval7:session2:s1e".to_vec()
    );
}

#[test]
fn encoding_ignores_argument_order() {
    let a = Op::new("info".to_string(), args(&[("symbol", "map"), ("ns", "user"), ("session", "x")]));
    let b = Op::new("info".to_string(), args(&[("session", "x"), ("symbol", "map"), ("ns", "user")]));
    assert_eq!(a.encode().unwrap(), b.encode().unwrap());
    assert_eq!(a.encode().unwrap(), a.encode().unwrap());
}

#[test]
fn duplicate_argument_names_are_refused() {
    let op = Op::new("eval".to_string(), args(&[("code", "1"), ("code", "2")]));
    assert_eq!(op.encode(), Err(EncodeError::DuplicateKey));
    let op = Op::new("eval".to_string(), args(&[("op", "other")]));
    assert_eq!(op.encode(), Err(EncodeError::DuplicateKey));
}

#[test]
fn response_from_wire_map() {
    let v = WireValue::Dict(vec![(b"id".to_vec(), bytes("1")), (b"value".to_vec(), bytes("3"))]);
    let r = Resp::from_wire(v).unwrap();
    assert_eq!(r.fields.len(), 2);
    assert_eq!(r.fields[1].0, "value");
    assert!(r.contains_key("id"));
    assert!(!r.contains_key("status"));
}

#[test]
fn repeated_field_on_the_wire_is_a_duplicate_key() {
    let (v, _) = unrepl::decode::decode(&b"d1:a1:x1:a1:ye".to_vec()).unwrap();
    assert_eq!(Resp::from_wire(v).unwrap_err(), RespError::DuplicateKey);
}

#[test]
fn response_errors() {
    assert_eq!(Resp::from_wire(WireValue::Int(1)).unwrap_err(), RespError::ExpectedMap);
    let dup = WireValue::Dict(vec![(b"a".to_vec(), bytes("1")), (b"a".to_vec(), bytes("2"))]);
    assert_eq!(Resp::from_wire(dup).unwrap_err(), RespError::DuplicateKey);
    let bad = WireValue::Dict(vec![(vec![0xff, 0xfe], bytes("1"))]);
    assert_eq!(Resp::from_wire(bad).unwrap_err(), RespError::BadUtf8);
    let both = WireValue::Dict(vec![
        (b"a".to_vec(), bytes("1")),
        (b"a".to_vec(), bytes("2")),
        (vec![0xc3], bytes("3")),
    ]);
    assert_eq!(Resp::from_wire(both).unwrap_err(), RespError::BadUtf8);
    let fields = vec![("a".to_string(), bytes("1")), ("a".to_string(), bytes("2"))];
    assert_eq!(Resp::from_fields(fields).unwrap_err(), RespError::DuplicateKey);
}

#[test]
fn exchange_keeps_three_responses_in_order() {
    let st = run(vec![
        resp(vec![("out", bytes("a"))]),
        resp(vec![("out", bytes("b"))]),
        resp(vec![("status", list(&["done"]))]),
    ]);
    assert!(matches!(st, Status::Done(_)));
    let rs = st.into_resps();
    assert_eq!(rs.len(), 3);
    assert_eq!(rs[0].fields[0].1, bytes("a"));
    assert_eq!(rs[1].fields[0].1, bytes("b"));
    assert!(is_final_resp(&rs[2]));
}

#[test]
fn status_classification_table() {
    let kind = |t: &[&str]| classify_tokens(&t.iter().map(|s| s.as_bytes().to_vec()).collect());
    assert_eq!(kind(&["done"]), StatusKind::Done);
    assert_eq!(kind(&["eval-error"]), StatusKind::EvalError);
    assert_eq!(kind(&["done", "no-info"]), StatusKind::NoInfo);
    assert_eq!(kind(&["no-info", "done"]), StatusKind::Unknown);
    assert_eq!(kind(&["done", "eval-error"]), StatusKind::Unknown);
    assert_eq!(kind(&[]), StatusKind::Unknown);
    assert_eq!(kind(&["need-input"]), StatusKind::Unknown);
}

#[test]
fn unknown_status_keeps_tokens_verbatim() {
    let st = run(vec![resp(vec![("status", list(&["done", "session-idle"]))])]);
    match st {
        Status::UnknownStatus(toks, rs) => {
            assert_eq!(toks, vec!["done".to_string(), "session-idle".to_string()]);
            assert_eq!(rs.len(), 1);
        }
        other => panic!("unexpected {:?}", other),
    }
    assert!(matches!(run(vec![resp(vec![("status", list(&["eval-error"]))])]), Status::EvalError(_)));
    assert!(matches!(
        run(vec![resp(vec![("status", list(&["done", "no-info"]))])]),
        Status::NoInfo(_)
    ));
}

#[test]
fn status_names() {
    assert_eq!(run(vec![resp(vec![("status", list(&["done"]))])]).name(), "done");
    assert_eq!(run(vec![resp(vec![("status", list(&["done", "no-info"]))])]).name(), "no-info");
    assert_eq!(run(vec![resp(vec![("status", list(&["a", "b"]))])]).name(), "a,b");
}

#[test]
fn malformed_status_field_is_an_error() {
    let ex = Exchange::new();
    assert!(matches!(
        ex.receive(resp(vec![("status", bytes("done"))])),
        Err(RespError::ExpectedStrList)
    ));
}

#[test]
fn field_conversions() {
    assert_eq!(try_into_string(&bytes("ok")).unwrap(), "ok");
    assert_eq!(try_into_string(&WireValue::Int(1)), Err(RespError::ExpectedString));
    assert_eq!(try_into_string(&WireValue::Bytes(vec![0xc3])), Err(RespError::BadUtf8));
    assert_eq!(try_into_str_vec(&list(&["a", "b"])).unwrap(), vec!["a", "b"]);
    assert_eq!(try_into_str_vec(&bytes("a")), Err(RespError::ExpectedStrList));
    assert_eq!(try_into_int(&WireValue::Int(9)), Ok(9));
    assert_eq!(try_into_int(&bytes("9")), Err(RespError::ExpectedInt));
}

#[test]
fn field_getters_take_the_field_out() {
    let mut r = resp(vec![("line", WireValue::Int(12)), ("file", bytes("a.clj")), ("spec", list(&["x"]))]);
    assert_eq!(get_int_bencode(&mut r, "line"), Ok(Some(12)));
    assert_eq!(get_int_bencode(&mut r, "line"), Ok(None));
    assert_eq!(get_str_bencode(&mut r, "file"), Ok(Some("a.clj".to_string())));
    assert_eq!(get_str_list_bencode(&mut r, "spec"), Ok(Some(vec!["x".to_string()])));
    assert!(r.fields.is_empty());
}

#[test]
fn clone_session_reads_new_session() {
    let op = CloneSession::new(None).to_op();
    assert_eq!(op.name, "clone");
    assert!(op.args.is_empty());
    let op = CloneSession::new(Some("old".to_string())).to_op();
    assert_eq!(op.args, args(&[("session", "old")]));
    let st = run(vec![
        resp(vec![("new-session", bytes("s-1"))]),
        resp(vec![("status", list(&["done"]))]),
    ]);
    assert_eq!(CloneSession::read_response(st), Ok("s-1".to_string()));
    let st = run(vec![resp(vec![("status", list(&["done"]))])]);
    assert_eq!(CloneSession::read_response(st), Err(OpError::NoSessionIdInResponse));
    let st = run(vec![resp(vec![("status", list(&["eval-error"]))])]);
    assert_eq!(
        CloneSession::read_response(st),
        Err(OpError::BadStatus(StatusKind::EvalError, vec!["eval-error".to_string()]))
    );
    let st = run(vec![resp(vec![("status", list(&["interrupted", "done"]))])]);
    assert_eq!(
        CloneSession::read_response(st),
        Err(OpError::BadStatus(
            StatusKind::Unknown,
            vec!["interrupted".to_string(), "done".to_string()]
        ))
    );
}

#[test]
fn ls_sessions_reads_the_listing() {
    let op = LsSessions::new().to_op();
    assert_eq!(op.name, "ls-sessions");
    let st = run(vec![resp(vec![("sessions", list(&["a", "b"])), ("status", list(&["done"]))])]);
    assert_eq!(LsSessions::read_response(st), Ok(vec!["a".to_string(), "b".to_string()]));
    let st = run(vec![resp(vec![("status", list(&["done"]))])]);
    assert_eq!(LsSessions::read_response(st), Err(OpError::NoSessionsInResponse));
}

#[test]
fn describe_reads_the_ops_map() {
    assert_eq!(Describe::new(true).to_op().args, args(&[("verbose?", "true")]));
    assert!(Describe::new(false).to_op().args.is_empty());
    let ops = WireValue::Dict(vec![
        (b"eval".to_vec(), WireValue::Dict(vec![])),
        (b"info".to_vec(), WireValue::Dict(vec![])),
    ]);
    let st = run(vec![resp(vec![("ops", ops), ("status", list(&["done"]))])]);
    let d = Describe::read_response(st).unwrap();
    assert_eq!(d.ops(), &vec!["eval".to_string(), "info".to_string()]);
    let st = run(vec![resp(vec![("status", list(&["done"]))])]);
    assert!(matches!(Describe::read_response(st), Err(OpError::FieldNotFound)));
    let twice = WireValue::Dict(vec![
        (b"eval".to_vec(), WireValue::Int(1)),
        (b"eval".to_vec(), WireValue::Int(2)),
    ]);
    let st = run(vec![resp(vec![("ops", twice), ("status", list(&["done"]))])]);
    assert_eq!(Describe::read_response(st).unwrap().into_ops(), vec!["eval".to_string()]);
    let st = run(vec![
        resp(vec![("ops", WireValue::Dict(vec![]))]),
        resp(vec![("ops", WireValue::Dict(vec![])), ("status", list(&["done"]))]),
    ]);
    assert!(matches!(Describe::read_response(st), Err(OpError::DuplicatedOpsInResponse)));
    let bad = WireValue::Dict(vec![(vec![0xff], WireValue::Int(1))]);
    let st = run(vec![resp(vec![("ops", bad), ("status", list(&["done"]))])]);
    assert_eq!(Describe::read_response(st).err(), Some(OpError::Field(RespError::BadUtf8)));
}

#[test]
fn get_ns_name_builds_the_form_and_reads_the_last_value() {
    let op = GetNsName::new("src/a.clj".to_string(), session()).to_op();
    assert_eq!(op.name, "eval");
    assert!(op.args[0].1.contains("(clojure.tools.namespace.file/read-file-ns-decl \"src/a.clj\")"));
    assert_eq!(op.args[1], ("session".to_string(), "abc".to_string()));
    let st = run(vec![
        resp(vec![("value", bytes("x"))]),
        resp(vec![("value", bytes("my.ns"))]),
        resp(vec![("status", list(&["done"]))]),
    ]);
    assert_eq!(GetNsName::read_response(st), Ok(Some("my.ns".to_string())));
    let st = run(vec![resp(vec![("status", list(&["done"]))])]);
    assert_eq!(GetNsName::read_response(st), Ok(None));
    let st = run(vec![resp(vec![("value", WireValue::Int(1)), ("status", list(&["done"]))])]);
    assert_eq!(GetNsName::read_response(st), Err(OpError::Field(RespError::ExpectedString)));
    let st = run(vec![
        resp(vec![("value", WireValue::Bytes(vec![0xff]))]),
        resp(vec![("value", bytes("my.ns"))]),
        resp(vec![("status", list(&["done"]))]),
    ]);
    assert_eq!(GetNsName::read_response(st), Err(OpError::Field(RespError::BadUtf8)));
}

#[test]
fn info_op_and_availability() {
    let info = Info::new(session(), "user".to_string(), "map".to_string());
    assert_eq!(info.check_available(), Ok(()));
    let op = info.to_op();
    assert_eq!(op.args, args(&[("symbol", "map"), ("ns", "user"), ("session", "abc")]));
    let bare = Session::new("a".to_string(), "b".to_string(), vec![]);
    let info = Info::new(bare, "user".to_string(), "map".to_string());
    assert_eq!(info.check_available(), Err(OpError::InfoOpUnavailable));
    let r = InfoResponseType::Ns(InfoResponse::new(3, None, "f".to_string(), "r".to_string(), "d".to_string()));
    assert_eq!(r.into_resp().line, 3);
}
