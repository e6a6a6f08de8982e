//! Reading an `info` response: where a namespace or a symbol is defined, and the
//! documentation text shown for it.
use vstd::prelude::*;
use vstd::utf8::valid_utf8;
use vstd::string::StrSliceExecFns;
use crate::wire::{Wire, WireValue};
use crate::nrepl::utf8;
use crate::resp::{Resp, RespError, field_index, text_of};
use crate::exchange::{Status, StatusKind, tokens_of, tokens_utf8, bytes_view, str_tokens};
use crate::ops::{Info, InfoResponse, InfoResponseType, OpError, bad_status, is_bad_status};
use crate::cli::{find_sep, copy_range};

verus! {

/// `\n`
pub const NEWLINE: u8 = 10;

/// The value of the first field named `k`.
pub open spec fn field_value(ps: Seq<(Seq<u8>, Wire)>, k: Seq<u8>) -> Option<Wire> {
    match field_index(ps, k) {
        Some(i) => Some(ps[i].1),
        None => None,
    }
}

/// An optional integer field.
pub open spec fn int_spec(w: Option<Wire>) -> Result<Option<i64>, RespError> {
    match w {
        None => Ok(None),
        Some(Wire::Int(n)) => Ok(Some(n)),
        Some(_) => Err(RespError::ExpectedInt),
    }
}

/// An optional text field, as its bytes.
pub open spec fn str_spec(w: Option<Wire>) -> Result<Option<Seq<u8>>, RespError> {
    match w {
        None => Ok(None),
        Some(Wire::Bytes(b)) => if valid_utf8(b) {
            Ok(Some(b))
        } else {
            Err(RespError::BadUtf8)
        },
        Some(_) => Err(RespError::ExpectedString),
    }
}

/// Parts joined with `sep` between each two.
pub open spec fn join(parts: Seq<Seq<u8>>, sep: Seq<u8>) -> Seq<u8>
    decreases parts.len(),
{
    if parts.len() == 0 {
        Seq::empty()
    } else if parts.len() == 1 {
        parts[0]
    } else {
        join(parts.drop_last(), sep) + sep + parts.last()
    }
}

/// The non-empty parts joined with `sep` between each two.
pub open spec fn join_nonempty(parts: Seq<Seq<u8>>, sep: Seq<u8>) -> Seq<u8>
    decreases parts.len(),
{
    if parts.len() == 0 {
        Seq::empty()
    } else {
        let init = join_nonempty(parts.drop_last(), sep);
        if parts.last().len() == 0 {
            init
        } else if init.len() == 0 {
            parts.last()
        } else {
            init + sep + parts.last()
        }
    }
}

/// An optional list-of-texts field, joined with spaces.
pub open spec fn list_spec(w: Option<Wire>) -> Result<Option<Seq<u8>>, RespError> {
    match w {
        None => Ok(None),
        Some(v) => match tokens_of(v) {
            None => Err(RespError::ExpectedStrList),
            Some(t) => if tokens_utf8(t) {
                Ok(Some(join(t, seq![32u8])))
            } else {
                Err(RespError::BadUtf8)
            },
        },
    }
}

/// The two texts that are there, joined with `sep`.
pub open spec fn join_opt2(a: Option<Seq<u8>>, b: Option<Seq<u8>>, sep: Seq<u8>) -> Seq<u8> {
    match (a, b) {
        (Some(x), Some(y)) => x + sep + y,
        (Some(x), None) => x,
        (None, Some(y)) => y,
        (None, None) => Seq::empty(),
    }
}

/// The end of the line that starts at `i`: the next newline, or the end of `a`.
pub open spec fn line_end(a: Seq<u8>, i: int) -> int
    decreases a.len() - i,
{
    if i < 0 || i >= a.len() || a[i] == NEWLINE {
        i
    } else {
        line_end(a, i + 1)
    }
}

/// The lines of `a` from `i` on, each in parentheses, joined with newlines.
pub open spec fn wrap_from(a: Seq<u8>, i: int) -> Seq<u8>
    decreases a.len() - i,
{
    let k = line_end(a, i);
    if 0 <= i <= k < a.len() {
        seq![40u8] + a.subrange(i, k) + seq![41u8, NEWLINE] + wrap_from(a, k + 1)
    } else if 0 <= i <= k {
        seq![40u8] + a.subrange(i, k) + seq![41u8]
    } else {
        Seq::empty()
    }
}

/// Each line of `a` in parentheses, the lines joined with newlines.
pub open spec fn wrap_lines(a: Seq<u8>) -> Seq<u8> {
    wrap_from(a, 0)
}

proof fn lemma_line_end(a: Seq<u8>, i: int, k: int)
    requires
        0 <= i <= k <= a.len(),
        k < a.len() ==> a[k] == NEWLINE,
        forall|j: int| i <= j < k ==> a[j] != NEWLINE,
    ensures
        line_end(a, i) == k,
    decreases k - i,
{
    if i < k {
        lemma_line_end(a, i + 1, k);
    }
}

/// `macro`
pub open spec fn macro_word() -> Seq<u8> {
    seq![109u8, 97u8, 99u8, 114u8, 111u8]
}

/// The documentation of a symbol: `macro` when it is one, its qualified name,
/// its argument lists, its doc string and its spec, the non-empty ones on lines
/// of their own.
pub open spec fn symbol_doc(
    is_macro: bool,
    ns: Option<Seq<u8>>,
    name: Option<Seq<u8>>,
    arglists: Option<Seq<u8>>,
    doc: Option<Seq<u8>>,
    spec: Option<Seq<u8>>,
) -> Seq<u8> {
    join_nonempty(
        seq![
            if is_macro { macro_word() } else { Seq::empty() },
            join_opt2(ns, name, seq![47u8]),
            wrap_lines(match arglists { Some(a) => a, None => Seq::empty() }),
            match doc { Some(d) => d, None => Seq::empty() },
            match spec { Some(s) => s, None => Seq::empty() },
        ],
        seq![NEWLINE],
    )
}

/// What an `info` response describes, as plain values: whether it is a
/// namespace, the line, the column, the file, the resource and the documentation.
pub type InfoView = (bool, i64, Option<i64>, Seq<u8>, Seq<u8>, Seq<u8>);

/// The text fields of an `info` response, read in order; the first that is
/// malformed is the error.
pub open spec fn text_fields(ps: Seq<(Seq<u8>, Wire)>) -> Result<
    (Option<Seq<u8>>, Option<Seq<u8>>, Option<Seq<u8>>, Option<Seq<u8>>, bool, Option<Seq<u8>>),
    RespError,
> {
    match str_spec(field_value(ps, utf8("doc"@))) {
        Err(e) => Err(e),
        Ok(doc) => match str_spec(field_value(ps, utf8("name"@))) {
            Err(e) => Err(e),
            Ok(name) => match str_spec(field_value(ps, utf8("arglists-str"@))) {
                Err(e) => Err(e),
                Ok(arglists) => match str_spec(field_value(ps, utf8("ns"@))) {
                    Err(e) => Err(e),
                    Ok(ns) => match str_spec(field_value(ps, utf8("macro"@))) {
                        Err(e) => Err(e),
                        Ok(m) => match list_spec(field_value(ps, utf8("spec"@))) {
                            Err(e) => Err(e),
                            Ok(spec) => Ok((doc, name, arglists, ns, m is Some, spec)),
                        },
                    },
                },
            },
        },
    }
}

/// The location fields of an `info` response: its line and column, and its file
/// and resource, which must be there. A `file` field that holds a list marks a
/// Java class, which has no definition to show.
pub open spec fn header_spec(ps: Seq<(Seq<u8>, Wire)>) -> Result<
    Option<(Option<i64>, Option<i64>, Seq<u8>, Seq<u8>)>,
    OpError,
> {
    match int_spec(field_value(ps, utf8("line"@))) {
        Err(e) => Err(OpError::Field(e)),
        Ok(line) => match int_spec(field_value(ps, utf8("column"@))) {
            Err(e) => Err(OpError::Field(e)),
            Ok(col) => if field_value(ps, utf8("file"@)) is Some && field_value(
                ps,
                utf8("file"@),
            )->0 is List {
                Ok(None)
            } else {
                match str_spec(field_value(ps, utf8("file"@))) {
                    Err(e) => Err(OpError::Field(e)),
                    Ok(None) => Err(OpError::FieldNotFound),
                    Ok(Some(file)) => match str_spec(field_value(ps, utf8("resource"@))) {
                        Err(e) => Err(OpError::Field(e)),
                        Ok(None) => Err(OpError::FieldNotFound),
                        Ok(Some(resource)) => Ok(Some((line, col, file, resource))),
                    },
                }
            },
        },
    }
}

/// The documentation shown: for a namespace, its name and doc string; for a
/// symbol, see `symbol_doc`.
pub open spec fn doc_spec(
    ns_kind: bool,
    f: (Option<Seq<u8>>, Option<Seq<u8>>, Option<Seq<u8>>, Option<Seq<u8>>, bool, Option<Seq<u8>>),
) -> Seq<u8> {
    let (doc, name, arglists, ns, is_macro, spec) = f;
    if ns_kind {
        join_opt2(ns, doc, seq![NEWLINE])
    } else {
        symbol_doc(is_macro, ns, name, arglists, doc, spec)
    }
}

/// A response with a line but no column, name or argument lists describes a
/// namespace; any other describes a symbol, which must have a line.
pub open spec fn compose_spec(
    line: Option<i64>,
    col: Option<i64>,
    file: Seq<u8>,
    resource: Seq<u8>,
    f: (Option<Seq<u8>>, Option<Seq<u8>>, Option<Seq<u8>>, Option<Seq<u8>>, bool, Option<Seq<u8>>),
) -> Result<Option<InfoView>, OpError> {
    let ns_kind = line is Some && col is None && f.1 is None && f.2 is None;
    let d = doc_spec(ns_kind, f);
    if !ns_kind && line is None {
        Err(OpError::FieldNotFound)
    } else if !valid_utf8(d) {
        Err(OpError::Field(RespError::BadUtf8))
    } else {
        Ok(Some((ns_kind, line->0, col, file, resource, d)))
    }
}

/// What an `info` response stands for.
pub open spec fn info_spec(ps: Seq<(Seq<u8>, Wire)>) -> Result<Option<InfoView>, OpError> {
    match header_spec(ps) {
        Err(e) => Err(e),
        Ok(None) => Ok(None),
        Ok(Some((line, col, file, resource))) => match text_fields(ps) {
            Err(e) => Err(OpError::Field(e)),
            Ok(f) => compose_spec(line, col, file, resource, f),
        },
    }
}

/// The plain values of a described namespace or symbol.
pub open spec fn info_view(t: InfoResponseType) -> InfoView {
    match t {
        InfoResponseType::Ns(r) => (true, r.line, r.col, utf8(r.file@), utf8(r.resource@), utf8(r.doc@)),
        InfoResponseType::Symbol(r) => (false, r.line, r.col, utf8(r.file@), utf8(r.resource@), utf8(
            r.doc@,
        )),
    }
}

fn push_all(out: &mut Vec<u8>, b: &Vec<u8>)
    ensures
        final(out)@ == old(out)@ + b@,
{
    let mut i: usize = 0;
    while i < b.len()
        invariant
            i <= b.len(),
            out@ == old(out)@ + b@.take(i as int),
        decreases b.len() - i,
    {
        out.push(b[i]);
        assert(b@.take(i + 1) =~= b@.take(i as int).push(b@[i as int]));
        i = i + 1;
    }
    assert(b@.take(i as int) =~= b@);
}

fn int_field(r: &Resp, key: &str) -> (res: Result<Option<i64>, RespError>)
    ensures
        res == int_spec(field_value(r@, utf8(key@))),
{
    let kb = key.as_bytes_vec();
    match r.find_key(&kb) {
        None => Ok(None),
        Some(i) => match &r.fields[i].1 {
            WireValue::Int(n) => Ok(Some(*n)),
            _ => Err(RespError::ExpectedInt),
        },
    }
}

fn str_field(r: &Resp, key: &str) -> (res: Result<Option<Vec<u8>>, RespError>)
    ensures
        match res {
            Ok(Some(b)) => str_spec(field_value(r@, utf8(key@))) == Ok::<Option<Seq<u8>>, RespError>(Some(b@)),
            Ok(None) => str_spec(field_value(r@, utf8(key@))) == Ok::<Option<Seq<u8>>, RespError>(None),
            Err(e) => str_spec(field_value(r@, utf8(key@))) == Err::<Option<Seq<u8>>, RespError>(e),
        },
{
    let kb = key.as_bytes_vec();
    match r.find_key(&kb) {
        None => Ok(None),
        Some(i) => match &r.fields[i].1 {
            WireValue::Bytes(b) => {
                let c = b.clone();
                match text_of(b.clone()) {
                    Some(_) => Ok(Some(c)),
                    None => Err(RespError::BadUtf8),
                }
            },
            _ => Err(RespError::ExpectedString),
        },
    }
}

fn join_bytes(parts: &Vec<Vec<u8>>, sep: &Vec<u8>) -> (r: Vec<u8>)
    ensures
        r@ == join(bytes_view(parts@), sep@),
{
    let mut out: Vec<u8> = Vec::new();
    let mut i: usize = 0;
    while i < parts.len()
        invariant
            i <= parts.len(),
            out@ == join(bytes_view(parts@).take(i as int), sep@),
        decreases parts.len() - i,
    {
        let ghost before = bytes_view(parts@).take(i as int);
        if i > 0 {
            push_all(&mut out, sep);
        }
        push_all(&mut out, &parts[i]);
        proof {
            let now = bytes_view(parts@).take(i + 1);
            assert(now.drop_last() =~= before);
            if i == 0 {
                assert(out@ =~= now[0]);
            }
        }
        i = i + 1;
    }
    assert(bytes_view(parts@).take(i as int) =~= bytes_view(parts@));
    out
}

fn join_nonempty_bytes(parts: &Vec<Vec<u8>>, sep: &Vec<u8>) -> (r: Vec<u8>)
    ensures
        r@ == join_nonempty(bytes_view(parts@), sep@),
{
    let mut out: Vec<u8> = Vec::new();
    let mut i: usize = 0;
    while i < parts.len()
        invariant
            i <= parts.len(),
            out@ == join_nonempty(bytes_view(parts@).take(i as int), sep@),
        decreases parts.len() - i,
    {
        let ghost before = bytes_view(parts@).take(i as int);
        proof {
            assert(bytes_view(parts@).take(i + 1).drop_last() =~= before);
        }
        if parts[i].len() > 0 {
            if out.len() > 0 {
                push_all(&mut out, sep);
            }
            push_all(&mut out, &parts[i]);
        }
        i = i + 1;
    }
    assert(bytes_view(parts@).take(i as int) =~= bytes_view(parts@));
    out
}

fn wrap_lines_bytes(a: &Vec<u8>) -> (r: Vec<u8>)
    ensures
        r@ == wrap_lines(a@),
{
    let mut out: Vec<u8> = Vec::new();
    let mut start: usize = 0;
    loop
        invariant
            start <= a.len(),
            out@ + wrap_from(a@, start as int) == wrap_lines(a@),
        decreases a.len() - start,
    {
        let k = find_sep(a, start, NEWLINE);
        proof {
            lemma_line_end(a@, start as int, k as int);
        }
        let line = copy_range(a, start, k);
        let ghost before = out@;
        out.push(40u8);
        push_all(&mut out, &line);
        out.push(41u8);
        if k == a.len() {
            proof {
                assert(out@ =~= before + wrap_from(a@, start as int));
                assert(out@ =~= out@ + Seq::<u8>::empty());
            }
            return out;
        }
        out.push(NEWLINE);
        proof {
            assert(out@ + wrap_from(a@, k + 1) =~= before + wrap_from(a@, start as int));
        }
        start = k + 1;
    }
}

fn all_utf8(t: &Vec<Vec<u8>>) -> (r: bool)
    ensures
        r == tokens_utf8(bytes_view(t@)),
{
    let mut i: usize = 0;
    while i < t.len()
        invariant
            i <= t.len(),
            forall|j: int| 0 <= j < i ==> valid_utf8(#[trigger] bytes_view(t@)[j]),
        decreases t.len() - i,
    {
        if text_of(t[i].clone()).is_none() {
            assert(!valid_utf8(bytes_view(t@)[i as int]));
            return false;
        }
        i = i + 1;
    }
    true
}

fn list_field(r: &Resp, key: &str) -> (res: Result<Option<Vec<u8>>, RespError>)
    ensures
        match res {
            Ok(Some(b)) => list_spec(field_value(r@, utf8(key@))) == Ok::<Option<Seq<u8>>, RespError>(Some(b@)),
            Ok(None) => list_spec(field_value(r@, utf8(key@))) == Ok::<Option<Seq<u8>>, RespError>(None),
            Err(e) => list_spec(field_value(r@, utf8(key@))) == Err::<Option<Seq<u8>>, RespError>(e),
        },
{
    let kb = key.as_bytes_vec();
    match r.find_key(&kb) {
        None => Ok(None),
        Some(i) => match str_tokens(&r.fields[i].1) {
            None => Err(RespError::ExpectedStrList),
            Some(t) => {
                if all_utf8(&t) {
                    let sep: Vec<u8> = vec![32u8];
                    assert(sep@ =~= seq![32u8]);
                    Ok(Some(join_bytes(&t, &sep)))
                } else {
                    Err(RespError::BadUtf8)
                }
            },
        },
    }
}

fn join_opt2_bytes(a: &Option<Vec<u8>>, b: &Option<Vec<u8>>, sep: u8) -> (r: Vec<u8>)
    ensures
        r@ == join_opt2(
            match a { Some(x) => Some(x@), None => None },
            match b { Some(x) => Some(x@), None => None },
            seq![sep],
        ),
{
    let mut out: Vec<u8> = Vec::new();
    match a {
        Some(x) => {
            push_all(&mut out, x);
            match b {
                Some(y) => {
                    out.push(sep);
                    push_all(&mut out, y);
                    assert(out@ =~= x@ + seq![sep] + y@);
                },
                None => {},
            }
        },
        None => match b {
            Some(y) => {
                push_all(&mut out, y);
            },
            None => {},
        },
    }
    out
}

pub open spec fn opt_view(o: Option<Vec<u8>>) -> Option<Seq<u8>> {
    match o {
        Some(x) => Some(x@),
        None => None,
    }
}

/// Whether a result agrees with what an `info` response stands for.
pub open spec fn info_matches(r: Result<Option<InfoResponseType>, OpError>, s: Result<Option<InfoView>, OpError>) -> bool {
    match s {
        Ok(None) => r is Ok && r->Ok_0 is None,
        Ok(Some(v)) => r is Ok && r->Ok_0 is Some && info_view(r->Ok_0->0) == v,
        Err(e) => r == Err::<Option<InfoResponseType>, OpError>(e),
    }
}

fn read_header(resp: &Resp) -> (r: Result<Option<(Option<i64>, Option<i64>, Vec<u8>, Vec<u8>)>, OpError>)
    ensures
        match r {
            Ok(Some((line, col, file, resource))) => header_spec(resp@) == Ok::<
                Option<(Option<i64>, Option<i64>, Seq<u8>, Seq<u8>)>,
                OpError,
            >(Some((line, col, file@, resource@))),
            Ok(None) => header_spec(resp@) == Ok::<
                Option<(Option<i64>, Option<i64>, Seq<u8>, Seq<u8>)>,
                OpError,
            >(None),
            Err(e) => header_spec(resp@) == Err::<
                Option<(Option<i64>, Option<i64>, Seq<u8>, Seq<u8>)>,
                OpError,
            >(e),
        },
{
    let line = match int_field(resp, "line") {
        Err(e) => {
            return Err(OpError::Field(e));
        },
        Ok(v) => v,
    };
    let col = match int_field(resp, "column") {
        Err(e) => {
            return Err(OpError::Field(e));
        },
        Ok(v) => v,
    };
    let fkey = "file".as_bytes_vec();
    match resp.find_key(&fkey) {
        Some(i) => match &resp.fields[i].1 {
            WireValue::List(_) => {
                return Ok(None);
            },
            _ => {},
        },
        None => {},
    }
    let file = match str_field(resp, "file") {
        Err(e) => {
            return Err(OpError::Field(e));
        },
        Ok(None) => {
            return Err(OpError::FieldNotFound);
        },
        Ok(Some(b)) => b,
    };
    let resource = match str_field(resp, "resource") {
        Err(e) => {
            return Err(OpError::Field(e));
        },
        Ok(None) => {
            return Err(OpError::FieldNotFound);
        },
        Ok(Some(b)) => b,
    };
    Ok(Some((line, col, file, resource)))
}

/// The text fields of a response, as bytes.
pub struct TextFields {
    pub doc: Option<Vec<u8>>,
    pub name: Option<Vec<u8>>,
    pub arglists: Option<Vec<u8>>,
    pub ns: Option<Vec<u8>>,
    pub is_macro: bool,
    pub spec: Option<Vec<u8>>,
}

impl TextFields {
    pub open spec fn view_tuple(&self) -> (
        Option<Seq<u8>>,
        Option<Seq<u8>>,
        Option<Seq<u8>>,
        Option<Seq<u8>>,
        bool,
        Option<Seq<u8>>,
    ) {
        (
            opt_view(self.doc),
            opt_view(self.name),
            opt_view(self.arglists),
            opt_view(self.ns),
            self.is_macro,
            opt_view(self.spec),
        )
    }
}

fn read_text_fields(resp: &Resp) -> (r: Result<TextFields, RespError>)
    ensures
        match r {
            Ok(f) => text_fields(resp@) == Ok::<
                (Option<Seq<u8>>, Option<Seq<u8>>, Option<Seq<u8>>, Option<Seq<u8>>, bool, Option<Seq<u8>>),
                RespError,
            >(f.view_tuple()),
            Err(e) => text_fields(resp@) == Err::<
                (Option<Seq<u8>>, Option<Seq<u8>>, Option<Seq<u8>>, Option<Seq<u8>>, bool, Option<Seq<u8>>),
                RespError,
            >(e),
        },
{
    let doc = match str_field(resp, "doc") {
        Err(e) => {
            return Err(e);
        },
        Ok(v) => v,
    };
    let name = match str_field(resp, "name") {
        Err(e) => {
            return Err(e);
        },
        Ok(v) => v,
    };
    let arglists = match str_field(resp, "arglists-str") {
        Err(e) => {
            return Err(e);
        },
        Ok(v) => v,
    };
    let ns = match str_field(resp, "ns") {
        Err(e) => {
            return Err(e);
        },
        Ok(v) => v,
    };
    let is_macro = match str_field(resp, "macro") {
        Err(e) => {
            return Err(e);
        },
        Ok(v) => v.is_some(),
    };
    let spec = match list_field(resp, "spec") {
        Err(e) => {
            return Err(e);
        },
        Ok(v) => v,
    };
    Ok(TextFields { doc, name, arglists, ns, is_macro, spec })
}

fn compose_doc(ns_kind: bool, f: &TextFields) -> (r: Vec<u8>)
    ensures
        r@ == doc_spec(ns_kind, f.view_tuple()),
{
    if ns_kind {
        join_opt2_bytes(&f.ns, &f.doc, NEWLINE)
    } else {
        let mut parts: Vec<Vec<u8>> = Vec::new();
        let m: Vec<u8> = if f.is_macro {
            vec![109u8, 97u8, 99u8, 114u8, 111u8]
        } else {
            Vec::new()
        };
        parts.push(m);
        parts.push(join_opt2_bytes(&f.ns, &f.name, 47u8));
        let a = match &f.arglists {
            Some(x) => wrap_lines_bytes(x),
            None => wrap_lines_bytes(&Vec::new()),
        };
        parts.push(a);
        let d = match &f.doc {
            Some(x) => x.clone(),
            None => Vec::new(),
        };
        parts.push(d);
        let sp = match &f.spec {
            Some(x) => x.clone(),
            None => Vec::new(),
        };
        parts.push(sp);
        let sep: Vec<u8> = vec![NEWLINE];
        proof {
            assert(sep@ =~= seq![NEWLINE]);
            assert(macro_word() =~= seq![109u8, 97u8, 99u8, 114u8, 111u8]);
            let tup = f.view_tuple();
            assert(bytes_view(parts@) =~= seq![
                if tup.4 { macro_word() } else { Seq::empty() },
                join_opt2(tup.3, tup.1, seq![47u8]),
                wrap_lines(match tup.2 { Some(a) => a, None => Seq::empty() }),
                match tup.0 { Some(d) => d, None => Seq::empty() },
                match tup.5 { Some(s) => s, None => Seq::empty() },
            ]);
        }
        join_nonempty_bytes(&parts, &sep)
    }
}

fn compose(line: Option<i64>, col: Option<i64>, file: Vec<u8>, resource: Vec<u8>, f: TextFields) -> (r: Result<Option<InfoResponseType>, OpError>)
    requires
        valid_utf8(file@),
        valid_utf8(resource@),
    ensures
        info_matches(r, compose_spec(line, col, file@, resource@, f.view_tuple())),
{
    let ns_kind = line.is_some() && col.is_none() && f.name.is_none() && f.arglists.is_none();
    if !ns_kind && line.is_none() {
        return Err(OpError::FieldNotFound);
    }
    let d = compose_doc(ns_kind, &f);
    let doc_text = match text_of(d) {
        Some(t) => t,
        None => {
            return Err(OpError::Field(RespError::BadUtf8));
        },
    };
    let file_text = match text_of(file) {
        Some(t) => t,
        None => {
            return Err(OpError::Field(RespError::BadUtf8));
        },
    };
    let resource_text = match text_of(resource) {
        Some(t) => t,
        None => {
            return Err(OpError::Field(RespError::BadUtf8));
        },
    };
    let line_no = match line {
        Some(n) => n,
        None => 0,
    };
    let r = InfoResponse::new(line_no, col, file_text, resource_text, doc_text);
    if ns_kind {
        Ok(Some(InfoResponseType::Ns(r)))
    } else {
        Ok(Some(InfoResponseType::Symbol(r)))
    }
}

/// Reads an `info` response.
pub fn read_info(resp: &Resp) -> (r: Result<Option<InfoResponseType>, OpError>)
    ensures
        info_matches(r, info_spec(resp@)),
{
    match read_header(resp) {
        Err(e) => Err(e),
        Ok(None) => Ok(None),
        Ok(Some((line, col, file, resource))) => match read_text_fields(resp) {
            Err(e) => Err(OpError::Field(e)),
            Ok(f) => compose(line, col, file, resource, f),
        },
    }
}

impl Info {
    /// What the server knows: nothing for `no-info`; for `done`, what the last
    /// response describes.
    pub fn read_response(status: Status) -> (r: Result<Option<InfoResponseType>, OpError>)
        ensures
            status.kind() == StatusKind::NoInfo ==> r is Ok && r->Ok_0 is None,
            status.kind() == StatusKind::EvalError || status.kind() == StatusKind::Unknown ==> r is Err
                && is_bad_status(r->Err_0, status),
            status.kind() == StatusKind::Done && status.responses().len() == 0 ==> r == Err::<
                Option<InfoResponseType>,
                OpError,
            >(OpError::FieldNotFound),
            status.kind() == StatusKind::Done && status.responses().len() > 0 ==> info_matches(
                r,
                info_spec(status.responses().last()@),
            ),
    {
        match status {
            Status::Done(resps) => {
                if resps.len() == 0 {
                    return Err(OpError::FieldNotFound);
                }
                read_info(&resps[resps.len() - 1])
            },
            Status::NoInfo(_) => Ok(None),
            other => Err(bad_status(other)),
        }
    }
}

} // verus!
