//! The file handlers: normalising request paths, keeping them inside the
//! mount point, and the decisions that the handlers take.
pub mod list;
pub mod read;
pub mod stat;
pub mod write;

use percent_encoding::percent_decode_str;
use vstd::prelude::*;
use vstd::utf8::*;

use crate::http_lib::{chars_start_with, parse_search_options, search_pairs, starts_with};
use crate::strings::{
    holds, lemma_ascii_text, lemma_split_append_piece, lemma_split_concat,
    lemma_split_pieces_lack_sep, lemma_split_seq_nonempty, lemma_split_without_sep, push_all, push_char, same_text,
    split_char_positions, split_seq, str_slice, utf8,
};
use crate::utils_lib::{
    first_occurrence, index_of, index_of_defined, index_of_is_defined, is_first_occurrence,
    no_occurrence_before, occurs_at,
};

verus! {

broadcast use {encode_utf8_valid_utf8, is_char_boundary_start_end_of_seq};

/// The segment `.`.
pub open spec fn dot() -> Seq<char> {
    seq!['.']
}

/// The segment `..`.
pub open spec fn dot_dot() -> Seq<char> {
    seq!['.', '.']
}

/// The segments that remain after walking `segs` from the root: empty and `.`
/// segments are skipped, `..` drops the last remaining segment (none at the
/// root), and any other segment is kept.
pub open spec fn canonical_segments(segs: Seq<Seq<char>>) -> Seq<Seq<char>>
    decreases segs.len(),
{
    if segs.len() == 0 {
        Seq::empty()
    } else {
        let st = canonical_segments(segs.drop_last());
        let x = segs.last();
        if x.len() == 0 || x == dot() {
            st
        } else if x == dot_dot() {
            if st.len() > 0 {
                st.drop_last()
            } else {
                st
            }
        } else {
            st.push(x)
        }
    }
}

/// The segments of the normalised form of a path.
pub open spec fn canonical_stack(p: Seq<char>) -> Seq<Seq<char>> {
    canonical_segments(split_seq(p, '/'))
}

/// The absolute path of some segments: `/` and the segments joined by `/`.
pub open spec fn absolute_path(st: Seq<Seq<char>>) -> Seq<char>
    decreases st.len(),
{
    if st.len() == 0 {
        seq!['/']
    } else if st.len() == 1 {
        seq!['/'] + st[0]
    } else {
        absolute_path(st.drop_last()) + seq!['/'] + st.last()
    }
}

/// The normal form of a path: the absolute path of its canonical segments.
pub open spec fn canonical_form(p: Seq<char>) -> Seq<char> {
    absolute_path(canonical_stack(p))
}

/// Whether a text is `.`.
fn is_dot(s: &str) -> (r: bool)
    ensures
        r == (s@ == dot()),
{
    proof {
        reveal_strlit(".");
        assert("."@ =~= dot());
    }
    same_text(s, ".")
}

/// Whether a text is `..`.
fn is_dot_dot(s: &str) -> (r: bool)
    ensures
        r == (s@ == dot_dot()),
{
    proof {
        reveal_strlit("..");
        assert(".."@ =~= dot_dot());
    }
    same_text(s, "..")
}

/// The segments of `path` between `/`, each as its own text.
fn path_segments(path: &str) -> (r: Vec<String>)
    ensures
        r@.len() == split_seq(path@, '/').len(),
        forall|i: int| 0 <= i < r@.len() ==> (#[trigger] r@[i])@ == split_seq(path@, '/')[i],
{
    let pos = split_char_positions(path, '/');
    let mut out: Vec<String> = Vec::new();
    let mut i: usize = 0;
    while i < pos.len()
        invariant
            pos@.len() == split_seq(path@, '/').len(),
            forall|p: int|
                0 <= p < pos@.len() ==> {
                    let (st, en) = #[trigger] pos@[p];
                    &&& st <= en <= path@.len()
                    &&& path@.subrange(st as int, en as int) == split_seq(path@, '/')[p]
                },
            i <= pos@.len(),
            out@.len() == i,
            forall|j: int| 0 <= j < i ==> (#[trigger] out@[j])@ == split_seq(path@, '/')[j],
        decreases pos@.len() - i,
    {
        let (st, en) = pos[i];
        let seg = path.substring_char(st, en).to_owned();
        out.push(seg);
        i = i + 1;
    }
    out
}

/// The segments that remain of `path` after normalising it.
fn canonical_stack_of(path: &str) -> (r: Vec<String>)
    ensures
        r@.map_values(|s: String| s@) == canonical_stack(path@),
{
    let segs = path_segments(path);
    let ghost all = split_seq(path@, '/');
    let mut stack: Vec<String> = Vec::new();
    let mut i: usize = 0;
    proof {
        assert(all.take(0) =~= Seq::<Seq<char>>::empty());
        assert(stack@.map_values(|s: String| s@) =~= Seq::<Seq<char>>::empty());
    }
    while i < segs.len()
        invariant
            all == split_seq(path@, '/'),
            segs@.len() == all.len(),
            forall|j: int| 0 <= j < segs@.len() ==> (#[trigger] segs@[j])@ == all[j],
            i <= segs@.len(),
            stack@.map_values(|s: String| s@) == canonical_segments(all.take(i as int)),
        decreases segs@.len() - i,
    {
        let ghost before = stack@.map_values(|s: String| s@);
        proof {
            assert(all.take(i + 1).drop_last() =~= all.take(i as int));
            assert(all.take(i + 1).last() == all[i as int]);
        }
        let seg = &segs[i];
        if seg.as_str().unicode_len() == 0 || is_dot(seg.as_str()) {
        } else if is_dot_dot(seg.as_str()) {
            if stack.len() > 0 {
                stack.pop();
                proof {
                    assert(stack@.map_values(|s: String| s@) =~= before.drop_last());
                }
            }
        } else {
            stack.push(seg.clone());
            proof {
                assert(stack@.map_values(|s: String| s@) =~= before.push(seg@));
            }
        }
        i = i + 1;
    }
    proof {
        assert(all.take(segs@.len() as int) =~= all);
    }
    stack
}

/// The absolute path of some segments.
fn absolute_path_of(st: &Vec<String>) -> (r: String)
    ensures
        r@ == absolute_path(st@.map_values(|s: String| s@)),
{
    let ghost segs = st@.map_values(|s: String| s@);
    let mut out = String::new();
    push_char(&mut out, '/');
    let mut i: usize = 0;
    while i < st.len()
        invariant
            segs == st@.map_values(|s: String| s@),
            i <= st@.len(),
            i == 0 ==> out@ == seq!['/'],
            i > 0 ==> out@ == absolute_path(segs.take(i as int)),
        decreases st@.len() - i,
    {
        proof {
            assert(segs.take(i + 1).drop_last() =~= segs.take(i as int));
            assert(segs.take(i + 1).last() == segs[i as int]);
            assert(segs[i as int] == st@[i as int]@);
        }
        if i > 0 {
            push_char(&mut out, '/');
        }
        push_all(&mut out, st[i].as_str());
        proof {
            if i == 0 {
                assert(out@ =~= seq!['/'] + segs.take(1)[0]);
            } else {
                assert(out@ =~= absolute_path(segs.take(i + 1)));
            }
        }
        i = i + 1;
    }
    proof {
        assert(segs.take(st@.len() as int) =~= segs);
        if st@.len() == 0 {
            assert(segs =~= Seq::<Seq<char>>::empty());
        }
    }
    out
}

/// The normal form of a path: rooted at `/`, without empty, `.` or `..`
/// segments, each `..` having removed the segment before it.
pub fn custom_canonicalize(path: &str) -> (r: String)
    ensures
        r@ == canonical_form(path@),
{
    let st = canonical_stack_of(path);
    absolute_path_of(&st)
}


/// The root component of a path, written `/`.
pub open spec fn root() -> Seq<char> {
    seq!['/']
}

/// The segments that name something: neither empty nor `.`.
pub open spec fn named_segments(segs: Seq<Seq<char>>) -> Seq<Seq<char>>
    decreases segs.len(),
{
    if segs.len() == 0 {
        Seq::empty()
    } else {
        let r = named_segments(segs.drop_last());
        if segs.last().len() > 0 && segs.last() != dot() {
            r.push(segs.last())
        } else {
            r
        }
    }
}

/// The components of a path as `std::path::Path::components` gives them on
/// Unix: the root (written `/`) for an absolute path, `.` for a relative
/// path that begins with a `.` segment, then each segment that is neither
/// empty nor `.`, `..` included.
pub open spec fn path_components(s: Seq<char>) -> Seq<Seq<char>> {
    let segs = split_seq(s, '/');
    if s.len() > 0 && s[0] == '/' {
        seq![root()] + named_segments(segs.drop_first())
    } else if segs[0] == dot() {
        seq![dot()] + named_segments(segs.drop_first())
    } else {
        named_segments(segs)
    }
}

/// The components of `path`, each as its own text.
fn path_components_of(path: &str) -> (r: Vec<String>)
    ensures
        r@.map_values(|s: String| s@) == path_components(path@),
{
    let segs = path_segments(path);
    let ghost all = split_seq(path@, '/');
    proof {
        lemma_split_seq_nonempty(path@, '/');
    }
    let mut out: Vec<String> = Vec::new();
    let mut from: usize = 0;
    proof {
        reveal_strlit("/");
        reveal_strlit(".");
    }
    if path.unicode_len() > 0 && path.get_char(0) == '/' {
        out.push("/".to_owned());
        from = 1;
        proof {
            assert("/"@ =~= root());
            assert(out@.map_values(|s: String| s@) =~= seq![root()]);
        }
    } else if is_dot(segs[0].as_str()) {
        out.push(".".to_owned());
        from = 1;
        proof {
            assert("."@ =~= dot());
            assert(out@.map_values(|s: String| s@) =~= seq![dot()]);
        }
    } else {
        proof {
            assert(out@.map_values(|s: String| s@) =~= Seq::<Seq<char>>::empty());
        }
    }
    let ghost lead = out@.map_values(|s: String| s@);
    proof {
        assert(all.subrange(from as int, from as int) =~= Seq::<Seq<char>>::empty());
        assert(out@.map_values(|s: String| s@) =~= lead + named_segments(
            all.subrange(from as int, from as int),
        ));
    }
    let mut i = from;
    while i < segs.len()
        invariant
            all == split_seq(path@, '/'),
            segs@.len() == all.len(),
            forall|j: int| 0 <= j < segs@.len() ==> (#[trigger] segs@[j])@ == all[j],
            from <= i <= segs@.len(),
            out@.map_values(|s: String| s@) == lead + named_segments(
                all.subrange(from as int, i as int),
            ),
        decreases segs@.len() - i,
    {
        let ghost before = out@.map_values(|s: String| s@);
        proof {
            assert(all.subrange(from as int, i + 1).drop_last() =~= all.subrange(
                from as int,
                i as int,
            ));
            assert(all.subrange(from as int, i + 1).last() == all[i as int]);
        }
        let seg = &segs[i];
        if seg.as_str().unicode_len() > 0 && !is_dot(seg.as_str()) {
            out.push(seg.clone());
            proof {
                assert(out@.map_values(|s: String| s@) =~= before.push(seg@));
            }
        }
        i = i + 1;
    }
    proof {
        if from == 1 {
            assert(all.subrange(1, all.len() as int) =~= all.drop_first());
        } else {
            assert(all.subrange(0, all.len() as int) =~= all);
            assert(lead =~= Seq::<Seq<char>>::empty());
        }
        assert(out@.map_values(|s: String| s@) =~= path_components(path@));
    }
    out
}

/// Whether the normal form of `path` lies at or below the mount point, whose
/// canonical form (as `std::fs::canonicalize` gives it) is
/// `canonical_mount_point`: its components begin with all of the mount
/// point's components.
pub fn is_path_within_mount_point(path: &str, canonical_mount_point: &str) -> (r: bool)
    ensures
        r == starts_with(
            seq![root()] + canonical_stack(path@),
            path_components(canonical_mount_point@),
        ),
{
    let stack = canonical_stack_of(path);
    let comps = path_components_of(canonical_mount_point);
    let ghost full = seq![root()] + stack@.map_values(|s: String| s@);
    let ghost want = comps@.map_values(|s: String| s@);
    if comps.len() > stack.len() && comps.len() - stack.len() > 1 {
        return false;
    }
    proof {
        reveal_strlit("/");
    }
    let mut i: usize = 0;
    while i < comps.len()
        invariant
            full == seq![root()] + stack@.map_values(|s: String| s@),
            want == comps@.map_values(|s: String| s@),
            stack@.map_values(|s: String| s@) == canonical_stack(path@),
            want == path_components(canonical_mount_point@),
            comps@.len() <= stack@.len() + 1,
            i <= comps@.len(),
            forall|j: int| 0 <= j < i ==> want[j] == full[j],
        decreases comps@.len() - i,
    {
        proof {
            reveal_strlit("/");
        }
        let same = if i == 0 {
            same_text(comps[i].as_str(), "/")
        } else {
            same_text(comps[i].as_str(), stack[i - 1].as_str())
        };
        proof {
            assert(want[i as int] == comps@[i as int]@);
            if i > 0 {
                assert(full[i as int] == stack@[i - 1]@);
            } else {
                assert(full[0] == root());
                assert("/"@ =~= root());
            }
        }
        if !same {
            proof {
                assert(want[i as int] != full[i as int]);
                assert(full.take(want.len() as int)[i as int] == full[i as int]);
            }
            return false;
        }
        i = i + 1;
    }
    proof {
        assert(full.take(want.len() as int) =~= want);
    }
    true
}


/// Why a handler turned a request down, or `Fine` when it did not.
#[derive(Clone, Copy, Debug, PartialEq, Eq, Structural)]
pub enum ErrorReason {
    Fine,
    NoInput,
    IsDir,
    IsFile,
    OutOfFs,
    GeneralFailure,
    OpenError,
    CreationError,
    WriteError,
    TruncateError,
}

/// The text by which a reason is reported.
pub open spec fn reason_text(r: ErrorReason) -> Seq<char> {
    match r {
        ErrorReason::Fine => "OK"@,
        ErrorReason::NoInput => "No input given"@,
        ErrorReason::IsDir => "Is a directory"@,
        ErrorReason::IsFile => "Is a file"@,
        ErrorReason::OutOfFs => "Outside of the mounted file system"@,
        ErrorReason::GeneralFailure => "General failure"@,
        ErrorReason::OpenError => "Could not open the file"@,
        ErrorReason::CreationError => "Could not create the file"@,
        ErrorReason::WriteError => "Could not write the file"@,
        ErrorReason::TruncateError => "Could not truncate the file"@,
    }
}

impl ErrorReason {
    /// The text by which this reason is reported.
    pub fn message(&self) -> (r: &'static str)
        ensures
            r@ == reason_text(*self),
    {
        match self {
            ErrorReason::Fine => "OK",
            ErrorReason::NoInput => "No input given",
            ErrorReason::IsDir => "Is a directory",
            ErrorReason::IsFile => "Is a file",
            ErrorReason::OutOfFs => "Outside of the mounted file system",
            ErrorReason::GeneralFailure => "General failure",
            ErrorReason::OpenError => "Could not open the file",
            ErrorReason::CreationError => "Could not create the file",
            ErrorReason::WriteError => "Could not write the file",
            ErrorReason::TruncateError => "Could not truncate the file",
        }
    }
}

/// The value of a hexadecimal digit, as `char::to_digit(16)` gives it.
pub open spec fn hex_value(b: u8) -> Option<u8> {
    if 48 <= b <= 57 {
        Some((b - 48) as u8)
    } else if 97 <= b <= 102 {
        Some((b - 87) as u8)
    } else if 65 <= b <= 70 {
        Some((b - 55) as u8)
    } else {
        None
    }
}

/// Percent-decoding: each `%` followed by two hexadecimal digits becomes the
/// byte they spell; every other byte stays as it is.
pub open spec fn percent_decode(s: Seq<u8>) -> Seq<u8>
    decreases s.len(),
{
    if s.len() == 0 {
        Seq::empty()
    } else if s[0] == 37 && s.len() >= 3 && hex_value(s[1]) is Some && hex_value(s[2]) is Some {
        seq![(hex_value(s[1]).unwrap() * 16 + hex_value(s[2]).unwrap()) as u8] + percent_decode(
            s.skip(3),
        )
    } else {
        seq![s[0]] + percent_decode(s.skip(1))
    }
}

/// Percent-decodes `value` and reads the bytes as UTF-8
/// (`percent_encoding::percent_decode_str` and `decode_utf8`): `None` when the
/// decoded bytes are not valid UTF-8.
#[verifier::external_body]
fn percent_decode_utf8(value: &str) -> (r: Option<String>)
    ensures
        r is Some <==> valid_utf8(percent_decode(utf8(value@))),
        r matches Some(t) ==> utf8(t@) == percent_decode(utf8(value@)),
{
    percent_decode_str(value).decode_utf8().ok().map(|c| c.into_owned())
}


/// The handlers that requests are routed to.
#[derive(Clone, Copy, Debug, PartialEq, Eq, Structural)]
pub enum Route {
    Read,
    List,
    Stat,
    Write,
}

/// The handler for a request path and method: reading a file (`GET` under
/// `/api/file`), listing a directory (`GET` under `/api/directory`), a stat
/// report (`GET` under `/api/stat`) or writing a file (`POST` under
/// `/api/file`); tested in that order, by prefix of the path.
pub open spec fn route_of(path: Seq<char>, method: Seq<char>) -> Option<Route> {
    if starts_with(path, read::BASE@) && method == read::METHOD@ {
        Some(Route::Read)
    } else if starts_with(path, list::BASE@) && method == list::METHOD@ {
        Some(Route::List)
    } else if starts_with(path, stat::BASE@) && method == stat::METHOD@ {
        Some(Route::Stat)
    } else if starts_with(path, write::BASE@) && method == write::METHOD@ {
        Some(Route::Write)
    } else {
        None
    }
}

/// The handler that serves a request, if any.
pub fn route(path: &str, method: &str) -> (r: Option<Route>)
    ensures
        r == route_of(path@, method@),
{
    if chars_start_with(path, read::BASE) && same_text(method, read::METHOD) {
        Some(Route::Read)
    } else if chars_start_with(path, list::BASE) && same_text(method, list::METHOD) {
        Some(Route::List)
    } else if chars_start_with(path, stat::BASE) && same_text(method, stat::METHOD) {
        Some(Route::Stat)
    } else if chars_start_with(path, write::BASE) && same_text(method, write::METHOD) {
        Some(Route::Write)
    } else {
        None
    }
}

/// The byte of `?`, which starts the query of a request path.
pub open spec fn query_mark() -> Seq<u8> {
    seq![63u8]
}

/// The bytes of the key `path`.
pub open spec fn path_key() -> Seq<u8> {
    seq![112u8, 97u8, 116u8, 104u8]
}

/// The value of the last pair whose key is `path`.
pub open spec fn path_value(pairs: Seq<(Seq<u8>, Seq<u8>)>) -> Option<Seq<u8>>
    decreases pairs.len(),
{
    if pairs.len() == 0 {
        None
    } else if pairs.last().0 == path_key() {
        Some(pairs.last().1)
    } else {
        path_value(pairs.drop_last())
    }
}

/// The key/value pairs of the query of a request path (after its first `?`).
pub open spec fn query_pairs(p: Seq<u8>) -> Seq<(Seq<u8>, Seq<u8>)> {
    search_pairs(p.skip(first_occurrence(p, query_mark()).unwrap() + 1))
}

/// Every `path` value percent-decodes to valid UTF-8.
pub open spec fn path_values_decodable(pairs: Seq<(Seq<u8>, Seq<u8>)>) -> bool {
    forall|i: int|
        0 <= i < pairs.len() && (#[trigger] pairs[i]).0 == path_key() ==> valid_utf8(
            percent_decode(pairs[i].1),
        )
}

/// The request paths that a handler can read its target from: the search
/// for `?` returns, and each `path` value of the query decodes.
pub open spec fn target_defined(p: Seq<u8>) -> bool {
    &&& index_of_defined(p, query_mark())
    &&& first_occurrence(p, query_mark()) is Some ==> path_values_decodable(query_pairs(p))
}

/// The path that a request asks for: the decoded value of the last `path`
/// pair of its query, or nothing.
pub open spec fn requested_path(p: Seq<u8>) -> Seq<char> {
    match path_value(query_pairs(p)) {
        Some(v) => decode_utf8(percent_decode(v)),
        None => Seq::empty(),
    }
}

/// The relative path that a handler joins to the mount point: one leading
/// `.` of the request dropped, then `.` (or `./` for the writer) put before it.
pub open spec fn relative_request(lit: Seq<char>, separated: bool) -> Seq<char> {
    let rest = if lit.len() > 0 && lit[0] == '.' {
        lit.drop_first()
    } else {
        lit
    };
    if separated {
        seq!['.', '/'] + rest
    } else {
        seq!['.'] + rest
    }
}

/// `rel` joined to `base` as `PathBuf::join` does for a relative `rel`: a `/`
/// between them unless `base` is empty or already ends with one.
pub open spec fn join_path(base: Seq<char>, rel: Seq<char>) -> Seq<char> {
    if base.len() > 0 && base.last() != '/' {
        base + seq!['/'] + rel
    } else {
        base + rel
    }
}

/// `rel` joined to `base`.
pub fn join_path_of(base: &str, rel: &str) -> (r: String)
    ensures
        r@ == join_path(base@, rel@),
{
    let mut out = String::new();
    push_all(&mut out, base);
    let bl = base.unicode_len();
    if bl > 0 && base.get_char(bl - 1) != '/' {
        push_char(&mut out, '/');
    }
    push_all(&mut out, rel);
    proof {
        assert(out@ =~= join_path(base@, rel@));
    }
    out
}

/// What the target of a request is.
#[derive(Debug)]
pub enum Target {
    /// The request path has no query.
    NoQuery,
    /// The query names no path, or an empty one.
    NoInput,
    /// The path of the entry on disk.
    Path(String),
}

/// The literal `?` and its byte.
fn query_mark_text() -> (s: &'static str)
    ensures
        utf8(s@) == query_mark(),
{
    proof {
        reveal_strlit("?");
        lemma_ascii_text("?"@, query_mark());
    }
    "?"
}

/// Whether a text's bytes are those of the key `path`.
fn is_path_key(k: &str) -> (r: bool)
    ensures
        r == (utf8(k@) == path_key()),
{
    proof {
        reveal_strlit("path");
        lemma_ascii_text("path"@, path_key());
    }
    let r = same_text(k, "path");
    proof {
        broadcast use encode_utf8_decode_utf8;
        if utf8(k@) == path_key() {
            assert(decode_utf8(utf8(k@)) == decode_utf8(utf8("path"@)));
        }
    }
    r
}

/// Whether `resolve_target` can read the target of `path`.
pub fn target_is_resolvable(path: &str) -> (r: bool)
    ensures
        r == target_defined(utf8(path@)),
{
    let mark = query_mark_text();
    if !index_of_is_defined(path, mark) {
        return false;
    }
    let ghost pb = utf8(path@);
    match index_of(path, mark) {
        None => true,
        Some(pos) => {
            proof {
                assert(is_first_occurrence(pb, query_mark(), pos as int));
                assert(no_occurrence_before(pb, query_mark(), pos as int));
            }
            let total = path.as_bytes().len();
            proof {
                assert(occurs_at(pb, query_mark(), pos as int));
            }
            let query = str_slice(path, pos + 1, total);
            let pairs = parse_search_options(query);
            let ghost qp = search_pairs(utf8(query@));
            proof {
                assert(utf8(query@) =~= pb.skip(pos + 1));
                assert(qp == query_pairs(pb));
            }
            let mut i: usize = 0;
            while i < pairs.len()
                invariant
                    qp == query_pairs(pb),
                    pb == utf8(path@),
                    first_occurrence(pb, query_mark()) is Some,
                    pairs@.len() == qp.len(),
                    forall|j: int|
                        0 <= j < pairs@.len() ==> (utf8((#[trigger] pairs@[j]).0@), utf8(
                            pairs@[j].1@,
                        )) == qp[j],
                    i <= pairs@.len(),
                    forall|j: int|
                        0 <= j < i && (#[trigger] qp[j]).0 == path_key() ==> valid_utf8(
                            percent_decode(qp[j].1),
                        ),
                decreases pairs@.len() - i,
            {
                let (k, v) = pairs[i];
                proof {
                    assert((utf8(k@), utf8(v@)) == qp[i as int]);
                }
                if is_path_key(k) && percent_decode_utf8(v).is_none() {
                    proof {
                        assert(qp[i as int].0 == path_key());
                        assert(!valid_utf8(percent_decode(qp[i as int].1)));
                        assert(!path_values_decodable(qp));
                    }
                    return false;
                }
                i = i + 1;
            }
            true
        },
    }
}

/// Reads the target of a request from its path: the decoded value of the
/// last `path` pair of the query, one leading `.` dropped, `.` (or `./` when
/// `separated`) put before it, joined to the mount point.
pub fn resolve_target(path: &str, mount_point: &str, separated: bool) -> (r: Target)
    requires
        target_defined(utf8(path@)),
    ensures
        match r {
            Target::NoQuery => first_occurrence(utf8(path@), query_mark()) is None,
            Target::NoInput => first_occurrence(utf8(path@), query_mark()) is Some
                && requested_path(utf8(path@)).len() == 0,
            Target::Path(t) => first_occurrence(utf8(path@), query_mark()) is Some
                && requested_path(utf8(path@)).len() > 0 && t@ == join_path(
                mount_point@,
                relative_request(requested_path(utf8(path@)), separated),
            ),
        },
{
    let mark = query_mark_text();
    let ghost pb = utf8(path@);
    let pos = match index_of(path, mark) {
        None => return Target::NoQuery,
        Some(pos) => pos,
    };
    proof {
        assert(is_first_occurrence(pb, query_mark(), pos as int));
        assert(no_occurrence_before(pb, query_mark(), pos as int));
    }
    let total = path.as_bytes().len();
    proof {
        assert(occurs_at(pb, query_mark(), pos as int));
    }
    let query = str_slice(path, pos + 1, total);
    let pairs = parse_search_options(query);
    let ghost qp = search_pairs(utf8(query@));
    proof {
        assert(utf8(query@) =~= pb.skip(pos + 1));
        assert(qp == query_pairs(pb));
    }
    let mut literal = String::new();
    let mut i: usize = 0;
    while i < pairs.len()
        invariant
            qp == query_pairs(pb),
            pb == utf8(path@),
            target_defined(pb),
            first_occurrence(pb, query_mark()) is Some,
            pairs@.len() == qp.len(),
            forall|j: int|
                0 <= j < pairs@.len() ==> (utf8((#[trigger] pairs@[j]).0@), utf8(pairs@[j].1@))
                    == qp[j],
            i <= pairs@.len(),
            literal@ == (match path_value(qp.take(i as int)) {
                Some(v) => decode_utf8(percent_decode(v)),
                None => Seq::empty(),
            }),
        decreases pairs@.len() - i,
    {
        let (k, v) = pairs[i];
        proof {
            assert((utf8(k@), utf8(v@)) == qp[i as int]);
            assert(qp.take(i + 1).drop_last() =~= qp.take(i as int));
            assert(qp.take(i + 1).last() == qp[i as int]);
        }
        if is_path_key(k) {
            proof {
                assert(valid_utf8(percent_decode(qp[i as int].1)));
            }
            let decoded = percent_decode_utf8(v).unwrap();
            proof {
                broadcast use encode_utf8_decode_utf8;
                assert(decode_utf8(utf8(decoded@)) == decoded@);
            }
            literal = decoded;
        }
        i = i + 1;
    }
    proof {
        assert(qp.take(pairs@.len() as int) =~= qp);
    }
    let len = literal.as_str().unicode_len();
    if len == 0 {
        return Target::NoInput;
    }
    let rest = if literal.as_str().get_char(0) == '.' {
        literal.as_str().substring_char(1, len)
    } else {
        literal.as_str()
    };
    let mut rel = String::new();
    push_char(&mut rel, '.');
    if separated {
        push_char(&mut rel, '/');
    }
    push_all(&mut rel, rest);
    proof {
        if literal@[0] == '.' {
            assert(rest@ =~= literal@.drop_first());
        }
        assert(rel@ =~= relative_request(literal@, separated));
    }
    Target::Path(join_path_of(mount_point, rel.as_str()))
}


/// What `std::fs::metadata` says of the entry at a path.
#[derive(Clone, Copy, Debug, PartialEq, Eq, Structural)]
pub enum Entry {
    /// The metadata could not be read.
    Missing,
    File,
    Directory,
    /// Something that is neither a file nor a directory.
    Other,
}

/// What a handler does next.
#[derive(Clone, Copy, Debug, PartialEq, Eq, Structural)]
pub enum Verdict {
    /// Answer 400 with the reason.
    Reject(ErrorReason),
    /// Check that the path stays within the mount point.
    CheckContainment,
    /// Serve the request.
    Proceed,
}

/// The verdict once containment is known: a path outside the mount point is
/// turned down.
pub open spec fn containment_decision(within: bool) -> Verdict {
    if within {
        Verdict::Proceed
    } else {
        Verdict::Reject(ErrorReason::OutOfFs)
    }
}

/// The verdict once containment is known, as `containment_decision` gives it.
pub fn containment_verdict(within: bool) -> (r: Verdict)
    ensures
        r == containment_decision(within),
{
    if within {
        Verdict::Proceed
    } else {
        Verdict::Reject(ErrorReason::OutOfFs)
    }
}


/// A segment that names an entry: not empty, not `.` or `..`, without `/`.
pub open spec fn is_named(x: Seq<char>) -> bool {
    x.len() > 0 && x != dot() && x != dot_dot() && !holds(x, '/')
}

/// A lone empty piece leaves nothing, walked or filtered.
proof fn lemma_empty_piece()
    ensures
        canonical_segments(seq![Seq::<char>::empty()]) == Seq::<Seq<char>>::empty(),
        named_segments(seq![Seq::<char>::empty()]) == Seq::<Seq<char>>::empty(),
        canonical_segments(seq![Seq::<char>::empty(), Seq::<char>::empty()]) == Seq::<
            Seq<char>,
        >::empty(),
{
    let one = seq![Seq::<char>::empty()];
    let two = seq![Seq::<char>::empty(), Seq::<char>::empty()];
    assert(one.drop_last() =~= Seq::<Seq<char>>::empty());
    assert(one.last().len() == 0);
    assert(canonical_segments(Seq::<Seq<char>>::empty()) =~= Seq::<Seq<char>>::empty());
    assert(named_segments(Seq::<Seq<char>>::empty()) =~= Seq::<Seq<char>>::empty());
    assert(canonical_segments(one) =~= Seq::<Seq<char>>::empty());
    assert(named_segments(one) =~= Seq::<Seq<char>>::empty());
    assert(two.drop_last() =~= one);
    assert(two.last().len() == 0);
}

/// Walking segments without `/` leaves only named segments.
proof fn lemma_canonical_named(segs: Seq<Seq<char>>)
    requires
        forall|i: int| 0 <= i < segs.len() ==> !holds(#[trigger] segs[i], '/'),
    ensures
        forall|i: int|
            0 <= i < canonical_segments(segs).len() ==> is_named(
                #[trigger] canonical_segments(segs)[i],
            ),
    decreases segs.len(),
{
    if segs.len() > 0 {
        let prev = segs.drop_last();
        assert forall|i: int| 0 <= i < prev.len() implies !holds(#[trigger] prev[i], '/') by {
            assert(prev[i] == segs[i]);
        }
        lemma_canonical_named(prev);
        let st = canonical_segments(prev);
        let x = segs.last();
        assert(!holds(segs[segs.len() - 1], '/'));
        let now = canonical_segments(segs);
        assert forall|i: int| 0 <= i < now.len() implies is_named(#[trigger] now[i]) by {
            if x.len() == 0 || x == dot() {
                assert(now == st);
            } else if x == dot_dot() {
                if st.len() > 0 {
                    assert(now[i] == st[i]);
                }
            } else {
                if i < st.len() {
                    assert(now[i] == st[i]);
                } else {
                    assert(now[i] == x);
                }
            }
        }
    }
}

/// The segments of a path's canonical form are named.
proof fn lemma_canonical_stack_named(p: Seq<char>)
    ensures
        forall|i: int|
            0 <= i < canonical_stack(p).len() ==> is_named(#[trigger] canonical_stack(p)[i]),
{
    lemma_split_pieces_lack_sep(p, '/');
    lemma_canonical_named(split_seq(p, '/'));
}

/// The pieces of an absolute path of named segments are an empty piece
/// before the root `/`, then the segments.
proof fn lemma_split_absolute(st: Seq<Seq<char>>)
    requires
        st.len() >= 1,
        forall|i: int| 0 <= i < st.len() ==> is_named(#[trigger] st[i]),
    ensures
        split_seq(absolute_path(st), '/') == seq![Seq::<char>::empty()] + st,
    decreases st.len(),
{
    if st.len() == 1 {
        assert(is_named(st[0]));
        lemma_split_append_piece(Seq::<char>::empty(), '/', st[0]);
        assert(Seq::<char>::empty() + seq!['/'] + st[0] =~= seq!['/'] + st[0]);
        assert(split_seq(Seq::<char>::empty(), '/') =~= seq![Seq::<char>::empty()]);
        assert(seq![Seq::<char>::empty()].push(st[0]) =~= seq![Seq::<char>::empty()] + st);
    } else {
        let prev = st.drop_last();
        assert forall|i: int| 0 <= i < prev.len() implies is_named(#[trigger] prev[i]) by {
            assert(prev[i] == st[i]);
        }
        lemma_split_absolute(prev);
        assert(is_named(st[st.len() - 1]));
        lemma_split_append_piece(absolute_path(prev), '/', st.last());
        assert((seq![Seq::<char>::empty()] + prev).push(st.last()) =~= seq![Seq::<char>::empty()]
            + st);
    }
}

/// Walking an empty piece and then named segments keeps the segments.
proof fn lemma_walk_rooted(st: Seq<Seq<char>>)
    requires
        forall|i: int| 0 <= i < st.len() ==> is_named(#[trigger] st[i]),
    ensures
        canonical_segments(seq![Seq::<char>::empty()] + st) == st,
    decreases st.len(),
{
    let segs = seq![Seq::<char>::empty()] + st;
    if st.len() == 0 {
        lemma_empty_piece();
        assert(segs =~= seq![Seq::<char>::empty()]);
    } else {
        let prev = st.drop_last();
        assert forall|i: int| 0 <= i < prev.len() implies is_named(#[trigger] prev[i]) by {
            assert(prev[i] == st[i]);
        }
        lemma_walk_rooted(prev);
        assert(segs.drop_last() =~= seq![Seq::<char>::empty()] + prev);
        assert(is_named(st[st.len() - 1]));
        assert(segs.last() == st.last());
        assert(prev.push(st.last()) =~= st);
    }
}

/// The canonical segments of an absolute path of named segments are those
/// segments.
proof fn lemma_stack_of_absolute(st: Seq<Seq<char>>)
    requires
        forall|i: int| 0 <= i < st.len() ==> is_named(#[trigger] st[i]),
    ensures
        canonical_stack(absolute_path(st)) == st,
{
    if st.len() == 0 {
        lemma_split_append_piece(Seq::<char>::empty(), '/', Seq::<char>::empty());
        assert(Seq::<char>::empty() + seq!['/'] + Seq::<char>::empty() =~= seq!['/']);
        assert(split_seq(Seq::<char>::empty(), '/') =~= seq![Seq::<char>::empty()]);
        let segs = seq![Seq::<char>::empty(), Seq::<char>::empty()];
        assert(split_seq(seq!['/'], '/') =~= segs);
        lemma_empty_piece();
        assert(st =~= Seq::<Seq<char>>::empty());
    } else {
        lemma_split_absolute(st);
        lemma_walk_rooted(st);
    }
}

/// Normalising a path that is already normal leaves it as it is: the
/// canonical form is rooted at `/`, its segments are named, and the
/// canonical form of the canonical form is the canonical form.
pub proof fn canonicalize_is_idempotent(p: Seq<char>)
    ensures
        canonical_form(p).len() > 0 && canonical_form(p)[0] == '/',
        forall|i: int|
            0 <= i < canonical_stack(p).len() ==> is_named(#[trigger] canonical_stack(p)[i]),
        canonical_stack(canonical_form(p)) == canonical_stack(p),
        canonical_form(canonical_form(p)) == canonical_form(p),
{
    lemma_canonical_stack_named(p);
    lemma_stack_of_absolute(canonical_stack(p));
    lemma_absolute_starts_at_root(canonical_stack(p));
}

/// An absolute path begins with `/`.
proof fn lemma_absolute_starts_at_root(st: Seq<Seq<char>>)
    ensures
        absolute_path(st).len() > 0 && absolute_path(st)[0] == '/',
    decreases st.len(),
{
    if st.len() > 1 {
        lemma_absolute_starts_at_root(st.drop_last());
    }
}

/// Walking more segments, none of them `..`, after some segments keeps what
/// the first ones left and adds the named ones among the rest.
proof fn lemma_walk_without_parent(x: Seq<Seq<char>>, y: Seq<Seq<char>>)
    requires
        forall|i: int| 0 <= i < y.len() ==> #[trigger] y[i] != dot_dot(),
    ensures
        canonical_segments(x + y) == canonical_segments(x) + named_segments(y),
    decreases y.len(),
{
    if y.len() == 0 {
        assert(x + y =~= x);
    } else {
        let y0 = y.drop_last();
        assert forall|i: int| 0 <= i < y0.len() implies #[trigger] y0[i] != dot_dot() by {
            assert(y0[i] == y[i]);
        }
        lemma_walk_without_parent(x, y0);
        assert((x + y).drop_last() =~= x + y0);
        assert((x + y).last() == y.last());
        assert(y[y.len() - 1] != dot_dot());
        let a = canonical_segments(x);
        let b = named_segments(y0);
        assert((a + b).push(y.last()) =~= a + b.push(y.last()));
    }
}

/// Whether `path`, normalised, lies at or below `mount`: what
/// `is_path_within_mount_point` answers.
pub open spec fn is_within(path: Seq<char>, mount: Seq<char>) -> bool {
    starts_with(seq![root()] + canonical_stack(path), path_components(mount))
}

/// A target cannot leave the mount point unless its relative part walks up:
/// for a mount point in canonical form (as `std::fs::canonicalize` gives it)
/// and a relative path without a `..` segment, the joined path lies within
/// the mount point.
pub proof fn target_without_parent_stays_within(mount: Seq<char>, rel: Seq<char>)
    requires
        mount == canonical_form(mount),
        forall|i: int|
            0 <= i < split_seq(rel, '/').len() ==> #[trigger] split_seq(rel, '/')[i] != dot_dot(),
    ensures
        is_within(join_path(mount, rel), mount),
{
    let ms = canonical_stack(mount);
    lemma_canonical_stack_named(mount);
    lemma_absolute_starts_at_root(ms);
    let base: Seq<char> = if ms.len() == 0 {
        Seq::empty()
    } else {
        mount
    };
    assert(canonical_segments(split_seq(base, '/')) == ms) by {
        if ms.len() == 0 {
            assert(split_seq(base, '/') =~= seq![Seq::<char>::empty()]);
            lemma_empty_piece();
            assert(ms =~= Seq::<Seq<char>>::empty());
        }
    }
    assert(join_path(mount, rel) == base + seq!['/'] + rel) by {
        if ms.len() == 0 {
            assert(mount =~= seq!['/']);
            assert(join_path(mount, rel) =~= base + seq!['/'] + rel);
        } else {
            lemma_absolute_ends_named(ms);
        }
    }
    lemma_split_concat(base, '/', rel);
    lemma_walk_without_parent(split_seq(base, '/'), split_seq(rel, '/'));
    let full = seq![root()] + canonical_stack(join_path(mount, rel));
    let comps = path_components(mount);
    assert(comps =~= seq![root()] + ms) by {
        lemma_components_of_absolute(ms);
    }
    assert(full.take(comps.len() as int) =~= comps);
}

/// An absolute path of at least one named segment does not end with `/`.
proof fn lemma_absolute_ends_named(st: Seq<Seq<char>>)
    requires
        st.len() >= 1,
        forall|i: int| 0 <= i < st.len() ==> is_named(#[trigger] st[i]),
    ensures
        absolute_path(st).last() != '/',
{
    let w = st.last();
    assert(is_named(st[st.len() - 1]));
    assert(w.len() > 0);
    if w.last() == '/' {
        assert(holds(w, '/')) by {
            assert(w[w.len() - 1] == '/');
        }
    }
    if st.len() == 1 {
        assert(absolute_path(st).last() == w.last());
    } else {
        assert(absolute_path(st).last() == w.last());
    }
}

/// The components of an absolute path of named segments are the root and
/// the segments.
proof fn lemma_components_of_absolute(st: Seq<Seq<char>>)
    requires
        forall|i: int| 0 <= i < st.len() ==> is_named(#[trigger] st[i]),
    ensures
        path_components(absolute_path(st)) == seq![root()] + st,
{
    lemma_absolute_starts_at_root(st);
    let segs = split_seq(absolute_path(st), '/');
    if st.len() == 0 {
        lemma_split_append_piece(Seq::<char>::empty(), '/', Seq::<char>::empty());
        assert(Seq::<char>::empty() + seq!['/'] + Seq::<char>::empty() =~= seq!['/']);
        assert(split_seq(Seq::<char>::empty(), '/') =~= seq![Seq::<char>::empty()]);
        assert(segs =~= seq![Seq::<char>::empty(), Seq::<char>::empty()]);
        assert(segs.drop_first() =~= seq![Seq::<char>::empty()]);
        lemma_empty_piece();
        assert(st =~= Seq::<Seq<char>>::empty());
    } else {
        lemma_split_absolute(st);
        assert(segs.drop_first() =~= st);
        lemma_named_keeps_named(st);
    }
}

/// Named segments are kept as they are.
proof fn lemma_named_keeps_named(st: Seq<Seq<char>>)
    requires
        forall|i: int| 0 <= i < st.len() ==> is_named(#[trigger] st[i]),
    ensures
        named_segments(st) == st,
    decreases st.len(),
{
    if st.len() > 0 {
        let prev = st.drop_last();
        assert forall|i: int| 0 <= i < prev.len() implies is_named(#[trigger] prev[i]) by {
            assert(prev[i] == st[i]);
        }
        lemma_named_keeps_named(prev);
        assert(is_named(st[st.len() - 1]));
        assert(prev.push(st.last()) =~= st);
    }
}


/// Where a verdict ends once the containment check it may ask for is done.
pub open spec fn settled(v: Verdict, within: bool) -> Verdict {
    match v {
        Verdict::CheckContainment => containment_decision(within),
        other => other,
    }
}

/// The verdict once the containment check it may ask for is done, as
/// `settled` gives it; `within` says whether the path lies within the mount
/// point, and matters only to a verdict that asks for the check.
pub fn settle_verdict(v: Verdict, within: bool) -> (r: Verdict)
    ensures
        r == settled(v, within),
{
    match v {
        Verdict::CheckContainment => containment_verdict(within),
        other => other,
    }
}

/// The status code and reason phrase a handler answers for its target
/// instead of serving: 500 `Server error` for a request path without a
/// query, 400 and the reason for a query that names no path, and nothing for
/// a path, which it goes on to look at.
pub open spec fn target_reply(t: Target) -> Option<(usize, Seq<char>)> {
    match t {
        Target::NoQuery => Some((500, "Server error"@)),
        Target::NoInput => Some((400, reason_text(ErrorReason::NoInput))),
        Target::Path(_) => None,
    }
}

/// The status code and reason phrase that go out for `v`, 400 with its
/// reason when the request is turned down, or none when it is served.
pub open spec fn verdict_reply(v: Verdict) -> Option<(usize, Seq<char>)> {
    match v {
        Verdict::Reject(reason) => Some((400, reason_text(reason))),
        _ => None,
    }
}

/// The answer for a target, as `target_reply` gives it.
pub fn target_answer(t: &Target) -> (r: Option<(usize, &'static str)>)
    ensures
        r is None <==> target_reply(*t) is None,
        r matches Some(a) ==> target_reply(*t) == Some((a.0, a.1@)),
{
    match t {
        Target::NoQuery => {
            proof {
                reveal_strlit("Server error");
            }
            Some((500, "Server error"))
        },
        Target::NoInput => Some((400, ErrorReason::NoInput.message())),
        Target::Path(_) => None,
    }
}

/// The answer for a verdict, as `verdict_reply` gives it.
pub fn verdict_answer(v: Verdict) -> (r: Option<(usize, &'static str)>)
    ensures
        r is None <==> verdict_reply(v) is None,
        r matches Some(a) ==> verdict_reply(v) == Some((a.0, a.1@)),
{
    match v {
        Verdict::Reject(reason) => Some((400, reason.message())),
        _ => None,
    }
}

/// The handlers serve nothing outside the mount point: reading goes ahead
/// exactly for a file within it, listing for a directory within it, the
/// stat report for any entry within it, and an upload for anything within it
/// but a directory.
pub proof fn handlers_serve_only_within(entry: Entry, within: bool)
    ensures
        settled(read::read_decision(entry), within) == Verdict::Proceed <==> within && entry
            == Entry::File,
        settled(list::list_decision(entry), within) == Verdict::Proceed <==> within && entry
            == Entry::Directory,
        settled(stat::stat_decision(entry), within) == Verdict::Proceed <==> within && entry
            != Entry::Missing,
        write::write_decision(within, entry) == Verdict::Proceed <==> within && entry
            != Entry::Directory,
{
}

/// The path a query asks for is the value of its last `path` pair, wherever
/// that pair stands: there is none exactly when no pair has the key `path`;
/// otherwise it is the value of a `path` pair after which no pair has that
/// key. A pair with another key, added at the end, changes nothing; a `path`
/// pair added at the end decides.
pub proof fn requested_path_is_last_path_pair(
    pairs: Seq<(Seq<u8>, Seq<u8>)>,
    key: Seq<u8>,
    value: Seq<u8>,
)
    ensures
        path_value(pairs) is None <==> forall|i: int|
            0 <= i < pairs.len() ==> (#[trigger] pairs[i]).0 != path_key(),
        path_value(pairs) matches Some(v) ==> exists|i: int|
            0 <= i < pairs.len() && #[trigger] pairs[i] == (path_key(), v) && forall|j: int|
                i < j < pairs.len() ==> (#[trigger] pairs[j]).0 != path_key(),
        key != path_key() ==> path_value(pairs.push((key, value))) == path_value(pairs),
        path_value(pairs.push((path_key(), value))) == Some(value),
    decreases pairs.len(),
{
    assert(pairs.push((key, value)).drop_last() =~= pairs);
    assert(pairs.push((path_key(), value)).drop_last() =~= pairs);
    if pairs.len() > 0 {
        let rest = pairs.drop_last();
        requested_path_is_last_path_pair(rest, key, value);
        if pairs.last().0 == path_key() {
            assert(pairs[pairs.len() - 1] == (path_key(), pairs.last().1));
        } else {
            assert forall|i: int| 0 <= i < rest.len() implies rest[i] == pairs[i] by {}
            if path_value(rest) is None {
                assert forall|i: int| 0 <= i < pairs.len() implies (#[trigger] pairs[i]).0
                    != path_key() by {
                    if i < rest.len() {
                        assert(rest[i] == pairs[i]);
                    }
                }
            } else {
                let v = path_value(rest).unwrap();
                let i = choose|i: int|
                    0 <= i < rest.len() && #[trigger] rest[i] == (path_key(), v) && forall|j: int|
                        i < j < rest.len() ==> (#[trigger] rest[j]).0 != path_key();
                assert(pairs[i] == (path_key(), v));
                assert forall|j: int| i < j < pairs.len() implies (#[trigger] pairs[j]).0
                    != path_key() by {
                    if j < rest.len() {
                        assert(rest[j] == pairs[j]);
                    }
                }
            }
            if forall|i: int| 0 <= i < pairs.len() ==> (#[trigger] pairs[i]).0 != path_key() {
                assert forall|i: int| 0 <= i < rest.len() implies (#[trigger] rest[i]).0
                    != path_key() by {
                    assert(rest[i] == pairs[i]);
                }
            }
        }
    }
}

/// A `..` segment removes exactly one segment: the normal form of a path
/// followed by `/..` has the segments of the path's normal form but the last
/// (none at the root), and following a path by a named segment and `..`
/// leads back to the path's normal form.
pub proof fn parent_segment_removes_one(p: Seq<char>, x: Seq<char>)
    requires
        is_named(x),
    ensures
        canonical_stack(p + seq!['/', '.', '.']) == (if canonical_stack(p).len() > 0 {
            canonical_stack(p).drop_last()
        } else {
            canonical_stack(p)
        }),
        canonical_stack(p + seq!['/'] + x) == canonical_stack(p).push(x),
        canonical_form(p + seq!['/'] + x + seq!['/', '.', '.']) == canonical_form(p),
{
    let dd = dot_dot();
    assert(!holds(dd, '/')) by {
        if holds(dd, '/') {
            let j = choose|j: int| 0 <= j < dd.len() && dd[j] == '/';
            assert(dd[j] == '.');
        }
    }
    lemma_split_without_sep(dd, '/');
    lemma_split_concat(p, '/', dd);
    assert(p + seq!['/', '.', '.'] =~= p + seq!['/'] + dd);
    let segs = split_seq(p, '/');
    assert((segs + seq![dd]).drop_last() =~= segs);
    assert((segs + seq![dd]).last() == dd);
    lemma_split_without_sep(x, '/');
    lemma_split_concat(p, '/', x);
    assert((segs + seq![x]).drop_last() =~= segs);
    assert((segs + seq![x]).last() == x);
    assert(x != dot() && x != dot_dot() && x.len() > 0);
    let q = p + seq!['/'] + x;
    lemma_split_concat(q, '/', dd);
    assert(q + seq!['/', '.', '.'] =~= q + seq!['/'] + dd);
    let qs = split_seq(q, '/');
    assert((qs + seq![dd]).drop_last() =~= qs);
    assert((qs + seq![dd]).last() == dd);
    assert(canonical_stack(q) == canonical_stack(p).push(x));
    assert(canonical_stack(p).push(x).drop_last() =~= canonical_stack(p));
}

} // verus!
