//! Reading of the small text formats that the command line and the server use:
//! `name=value` operation arguments and the locations of source files.
use vstd::prelude::*;
use vstd::string::StrSliceExecFns;
use vstd::utf8::valid_utf8;
use crate::nrepl::utf8;
use crate::resp::text_of;

verus! {

/// `=`
pub const EQUALS: u8 = 61;
/// `:`
pub const PATH_SEP: u8 = 58;
/// `!`
pub const BANG: u8 = 33;

/// Where `sep` first stands in `b`, if it does.
pub open spec fn first_sep(b: Seq<u8>, sep: u8) -> Option<int> {
    if exists|k: int| 0 <= k < b.len() && #[trigger] b[k] == sep {
        Some(choose|k: int| 0 <= k < b.len() && b[k] == sep && forall|j: int| 0 <= j < k ==> #[trigger] b[j] != sep)
    } else {
        None
    }
}

/// Part `n` of `b` split at every `sep`, counting from zero.
#[verifier::opaque]
pub open spec fn nth_part(b: Seq<u8>, sep: u8, n: nat) -> Option<Seq<u8>>
    decreases n,
{
    match first_sep(b, sep) {
        None => if n == 0 {
            Some(b)
        } else {
            None
        },
        Some(k) => if n == 0 {
            Some(b.take(k))
        } else {
            nth_part(b.skip(k + 1), sep, (n - 1) as nat)
        },
    }
}

proof fn lemma_nth_part_step(b: Seq<u8>, sep: u8, n: nat)
    ensures
        first_sep(b, sep) is None ==> nth_part(b, sep, n) == (if n == 0 {
            Some(b)
        } else {
            None
        }),
        first_sep(b, sep) is Some && n == 0 ==> nth_part(b, sep, n) == Some(
            b.take(first_sep(b, sep)->0),
        ),
        first_sep(b, sep) is Some && n > 0 ==> nth_part(b, sep, n) == nth_part(
            b.skip(first_sep(b, sep)->0 + 1),
            sep,
            (n - 1) as nat,
        ),
{
    reveal(nth_part);
}

pub(crate) proof fn lemma_first_sep(b: Seq<u8>, sep: u8, k: int)
    requires
        0 <= k <= b.len(),
        k < b.len() ==> b[k] == sep,
        forall|j: int| 0 <= j < k ==> b[j] != sep,
    ensures
        k < b.len() ==> first_sep(b, sep) == Some(k),
        k == b.len() ==> first_sep(b, sep) is None,
{
    if k < b.len() {
        let c = choose|c: int| 0 <= c < b.len() && b[c] == sep && forall|j: int| 0 <= j < c ==> #[trigger] b[j] != sep;
        assert(b[k] == sep);
        if c < k {
            assert(b[c] != sep);
        } else if c > k {
            assert(b[k] != sep);
        }
    }
}

pub(crate) fn find_sep(b: &Vec<u8>, from: usize, sep: u8) -> (r: usize)
    requires
        from <= b.len(),
    ensures
        from <= r <= b.len(),
        r < b.len() ==> b@[r as int] == sep,
        forall|j: int| from <= j < r ==> b@[j] != sep,
{
    let mut k: usize = from;
    while k < b.len()
        invariant
            from <= k <= b.len(),
            forall|j: int| from <= j < k ==> b@[j] != sep,
        decreases b.len() - k,
    {
        if b[k] == sep {
            return k;
        }
        k = k + 1;
    }
    k
}

pub(crate) fn copy_range(b: &Vec<u8>, from: usize, to: usize) -> (r: Vec<u8>)
    requires
        from <= to <= b.len(),
    ensures
        r@ == b@.subrange(from as int, to as int),
{
    let mut out: Vec<u8> = Vec::new();
    let mut i: usize = from;
    while i < to
        invariant
            from <= i <= to <= b.len(),
            out@ == b@.subrange(from as int, i as int),
        decreases to - i,
    {
        out.push(b[i]);
        assert(b@.subrange(from as int, i + 1) =~= b@.subrange(from as int, i as int).push(b@[i as int]));
        i = i + 1;
    }
    out
}

/// Part `n` of `b` split at every `sep`.
pub fn split_part(b: &Vec<u8>, sep: u8, n: usize) -> (r: Option<Vec<u8>>)
    ensures
        match r {
            Some(p) => nth_part(b@, sep, n as nat) == Some(p@),
            None => nth_part(b@, sep, n as nat) is None,
        },
{
    let mut start: usize = 0;
    let mut left: usize = n;
    assert(b@.skip(0) =~= b@);
    loop
        invariant
            start <= b.len(),
            nth_part(b@, sep, n as nat) == nth_part(b@.skip(start as int), sep, left as nat),
        decreases left,
    {
        let k = find_sep(b, start, sep);
        let ghost rest = b@.skip(start as int);
        proof {
            lemma_first_sep(rest, sep, k - start);
            lemma_nth_part_step(rest, sep, left as nat);
        }
        if left == 0 {
            assert(rest.take(k - start) =~= b@.subrange(start as int, k as int));
            if k == b.len() {
                assert(rest =~= b@.subrange(start as int, k as int));
            }
            return Some(copy_range(b, start, k));
        }
        if k == b.len() {
            return None;
        }
        assert(rest.skip(k - start + 1) =~= b@.skip(k + 1));
        start = k + 1;
        left = left - 1;
    }
}

/// Reads an operation argument `name=value`: there must be exactly one `=`.
pub fn parse_op_arg(s: &str) -> (r: Option<(String, String)>)
    ensures
        r is Some <==> (nth_part(utf8(s@), EQUALS, 1) is Some && nth_part(utf8(s@), EQUALS, 2) is None
            && valid_utf8(nth_part(utf8(s@), EQUALS, 0)->0) && valid_utf8(
            nth_part(utf8(s@), EQUALS, 1)->0,
        )),
        match r {
            Some((k, v)) => utf8(k@) == nth_part(utf8(s@), EQUALS, 0)->0 && utf8(v@) == nth_part(
                utf8(s@),
                EQUALS,
                1,
            )->0,
            None => true,
        },
{
    let b = s.as_bytes_vec();
    if split_part(&b, EQUALS, 2).is_some() {
        return None;
    }
    match (split_part(&b, EQUALS, 0), split_part(&b, EQUALS, 1)) {
        (Some(k), Some(v)) => match (text_of(k), text_of(v)) {
            (Some(k), Some(v)) => Some((k, v)),
            _ => None,
        },
        _ => {
            assert(nth_part(b@, EQUALS, 0) is Some) by {
                lemma_part_zero(b@, EQUALS);
            }
            None
        },
    }
}

proof fn lemma_part_zero(b: Seq<u8>, sep: u8)
    ensures
        nth_part(b, sep, 0) is Some,
{
    lemma_nth_part_step(b, sep, 0);
}

/// Where a source file is: inside a jar, or on disk.
#[derive(Debug, PartialEq, Eq)]
pub enum File {
    Jar { jar: String, file: String },
    File(String),
}

#[derive(Debug, PartialEq, Eq)]
pub enum FileError {
    /// The location is neither `jar:...:<jar>!<file>` nor `file:<path>`.
    IncorrectPathFormat(String),
}

/// `jar`
pub open spec fn jar_word() -> Seq<u8> {
    seq![106u8, 97u8, 114u8]
}

/// `file`
pub open spec fn file_word() -> Seq<u8> {
    seq![102u8, 105u8, 108u8, 101u8]
}

/// The text of a part, when it is there and in UTF-8.
pub open spec fn part_text(p: Option<Seq<u8>>) -> Option<Seq<u8>> {
    match p {
        Some(b) => if valid_utf8(b) {
            Some(b)
        } else {
            None
        },
        None => None,
    }
}

/// What a location stands for: with `jar` as its first `:` part, the jar and the
/// file around the first `!` of its third part; with `file`, its second part.
pub open spec fn file_spec(b: Seq<u8>) -> Option<(bool, Seq<u8>, Seq<u8>)> {
    let head = nth_part(b, PATH_SEP, 0)->0;
    if head == jar_word() {
        match nth_part(b, PATH_SEP, 2) {
            Some(third) => match (part_text(nth_part(third, BANG, 0)), part_text(
                nth_part(third, BANG, 1),
            )) {
                (Some(j), Some(f)) => Some((true, j, f)),
                _ => None,
            },
            None => None,
        }
    } else if head == file_word() {
        match part_text(nth_part(b, PATH_SEP, 1)) {
            Some(f) => Some((false, Seq::empty(), f)),
            None => None,
        }
    } else {
        None
    }
}

fn is_word(b: &Vec<u8>, w: &Vec<u8>) -> (r: bool)
    ensures
        r <==> b@ == w@,
{
    crate::order::compare_bytes(b, w) == 0
}

fn text_part(p: Option<Vec<u8>>) -> (r: Option<String>)
    ensures
        match p {
            Some(b) => match part_text(Some(b@)) {
                Some(t) => r is Some && utf8(r->0@) == t,
                None => r is None,
            },
            None => r is None,
        },
{
    match p {
        Some(b) => text_of(b),
        None => None,
    }
}

/// Reads the location of a source file as the server reports it.
pub fn parse_file(path: String) -> (r: Result<File, FileError>)
    ensures
        match file_spec(utf8(path@)) {
            Some((true, j, f)) => r is Ok && r->Ok_0 is Jar && utf8(r->Ok_0->jar@) == j && utf8(
                r->Ok_0->Jar_file@,
            ) == f,
            Some((false, _, f)) => r is Ok && r->Ok_0 is File && utf8(r->Ok_0->File_0@) == f,
            None => r == Err::<File, FileError>(FileError::IncorrectPathFormat(path)),
        },
{
    let b = path.as_str().as_bytes_vec();
    let head = match split_part(&b, PATH_SEP, 0) {
        Some(h) => h,
        None => {
            proof {
                lemma_part_zero(b@, PATH_SEP);
            }
            return Err(FileError::IncorrectPathFormat(path));
        },
    };
    let jar: Vec<u8> = vec![106u8, 97u8, 114u8];
    let file: Vec<u8> = vec![102u8, 105u8, 108u8, 101u8];
    assert(jar@ =~= jar_word());
    assert(file@ =~= file_word());
    if is_word(&head, &jar) {
        match split_part(&b, PATH_SEP, 2) {
            Some(third) => {
                let j = text_part(split_part(&third, BANG, 0));
                let f = text_part(split_part(&third, BANG, 1));
                match (j, f) {
                    (Some(j), Some(f)) => Ok(File::Jar { jar: j, file: f }),
                    _ => Err(FileError::IncorrectPathFormat(path)),
                }
            },
            None => Err(FileError::IncorrectPathFormat(path)),
        }
    } else if is_word(&head, &file) {
        match text_part(split_part(&b, PATH_SEP, 1)) {
            Some(f) => Ok(File::File(f)),
            None => Err(FileError::IncorrectPathFormat(path)),
        }
    } else {
        Err(FileError::IncorrectPathFormat(path))
    }
}

} // verus!
