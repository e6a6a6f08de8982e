use unrepl::cli::{parse_file, parse_op_arg, File, FileError};
use unrepl::exchange::{Exchange, Progress, Status};
use unrepl::ops::{Info, InfoResponseType, OpError};
use unrepl::resp::Resp;
use unrepl::wire::WireValue;

fn bytes(s: &str) -> WireValue {
    WireValue::Bytes(s.as_bytes().to_vec())
}

fn done_with(fields: Vec<(&str, WireValue)>) -> Status {
    let mut fields: Vec<(String, WireValue)> =
        fields.into_iter().map(|(k, v)| (k.to_string(), v)).collect();
    fields.push(("status".to_string(), WireValue::List(vec![bytes("done")])));
    let r = Resp::from_fields(fields).unwrap();
    match Exchange::new().receive(r).unwrap() {
        Progress::Complete(st) => st,
        Progress::Pending(_) => panic!("not terminal"),
    }
}

#[test]
fn info_on_a_namespace() {
    let st = done_with(vec![
        ("line", WireValue::Int(1)),
        ("file", bytes("file:/src/a/b.clj")),
        ("resource", bytes("a/b.clj")),
        ("ns", bytes("a.b")),
        ("doc", bytes("Docs")),
    ]);
    match Info::read_response(st).unwrap() {
        Some(InfoResponseType::Ns(r)) => {
            assert_eq!(r.line, 1);
            assert_eq!(r.col, None);
            assert_eq!(r.file, "file:/src/a/b.clj");
            assert_eq!(r.resource, "a/b.clj");
            assert_eq!(r.doc, "a.b\nDocs");
        }
        other => panic!("unexpected {:?}", other),
    }
}

#[test]
fn info_on_a_symbol() {
    let st = done_with(vec![
        ("line", WireValue::Int(10)),
        ("column", WireValue::Int(1)),
        ("file", bytes("jar:file:/m2/clojure.jar!/clojure/core.clj")),
        ("resource", bytes("clojure/core.clj")),
        ("ns", bytes("clojure.core")),
        ("name", bytes("map")),
        ("arglists-str", bytes("[f]\n[f coll]")),
        ("doc", bytes("Returns a lazy sequence.")),
    ]);
    match Info::read_response(st).unwrap() {
        Some(InfoResponseType::Symbol(r)) => {
            assert_eq!(r.line, 10);
            assert_eq!(r.col, Some(1));
            assert_eq!(r.doc, "clojure.core/map\n([f])\n([f coll])\nReturns a lazy sequence.");
        }
        other => panic!("unexpected {:?}", other),
    }
}

#[test]
fn info_on_a_macro_with_spec() {
    let st = done_with(vec![
        ("line", WireValue::Int(3)),
        ("file", bytes("file:/x.clj")),
        ("resource", bytes("x.clj")),
        ("name", bytes("when")),
        ("macro", bytes("true")),
        ("spec", WireValue::List(vec![bytes("(fspec"), bytes(":args)")])),
    ]);
    match Info::read_response(st).unwrap() {
        Some(InfoResponseType::Symbol(r)) => {
            assert_eq!(r.doc, "macro\nwhen\n()\n(fspec :args)");
        }
        other => panic!("unexpected {:?}", other),
    }
}

#[test]
fn info_on_a_java_class_is_nothing() {
    let st = done_with(vec![("file", WireValue::List(vec![])), ("line", WireValue::Int(1))]);
    assert!(matches!(Info::read_response(st), Ok(None)));
}

#[test]
fn info_errors() {
    let st = done_with(vec![("line", WireValue::Int(1)), ("resource", bytes("r"))]);
    assert!(matches!(Info::read_response(st), Err(OpError::FieldNotFound)));
    let st = done_with(vec![
        ("column", WireValue::Int(2)),
        ("file", bytes("f")),
        ("resource", bytes("r")),
    ]);
    assert!(matches!(Info::read_response(st), Err(OpError::FieldNotFound)));
    let st = done_with(vec![("line", bytes("1"))]);
    assert!(matches!(Info::read_response(st), Err(OpError::Field(_))));
}

#[test]
fn info_no_info_is_nothing() {
    let r = Resp::from_fields(vec![(
        "status".to_string(),
        WireValue::List(vec![bytes("done"), bytes("no-info")]),
    )])
    .unwrap();
    let st = match Exchange::new().receive(r).unwrap() {
        Progress::Complete(st) => st,
        Progress::Pending(_) => panic!("not terminal"),
    };
    assert!(matches!(Info::read_response(st), Ok(None)));
}

#[test]
fn op_arguments() {
    assert_eq!(parse_op_arg("ns=user"), Some(("ns".to_string(), "user".to_string())));
    assert_eq!(parse_op_arg("code="), Some(("code".to_string(), "".to_string())));
    assert_eq!(parse_op_arg("plain"), None);
    assert_eq!(parse_op_arg("a=b=c"), None);
}

#[test]
fn file_locations() {
    assert_eq!(
        parse_file("jar:file:/m2/clojure.jar!/clojure/core.clj".to_string()),
        Ok(File::Jar {
            jar: "/m2/clojure.jar".to_string(),
            file: "/clojure/core.clj".to_string()
        })
    );
    assert_eq!(
        parse_file("file:/src/a/b.clj".to_string()),
        Ok(File::File("/src/a/b.clj".to_string()))
    );
    assert_eq!(
        parse_file("http://x".to_string()),
        Err(FileError::IncorrectPathFormat("http://x".to_string()))
    );
    assert!(parse_file("jar:file".to_string()).is_err());
}
