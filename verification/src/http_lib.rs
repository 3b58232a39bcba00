//! Reading HTTP requests and writing HTTP responses.
use case_insensitive_hashmap::CaseInsensitiveHashMap;
use chrono::Utc;
use std::hash::BuildHasher;
use vstd::prelude::*;
use vstd::slice::{slice_subrange, slice_to_vec};
use vstd::utf8::*;

use crate::strings::{
    decimal, holds, i64_to_decimal, join_seq, lemma_ascii_boundaries, lemma_ascii_text,
    lemma_split_first_piece, lemma_split_seq_nonempty, lemma_utf8_concat, push_all, push_char, signed_decimal, split_seq,
    split_then_join, str_slice, trim_start, trim_start_owned, u64_to_decimal, utf8,
};
use crate::utils_lib::{
    first_occurrence, index_of, index_of_defined, index_of_is_defined, is_first_occurrence,
    lemma_first_occurrence_unique, no_occurrence_before, occurs_at,
};

verus! {

broadcast use {encode_utf8_valid_utf8, is_char_boundary_start_end_of_seq, encode_utf8_decode_utf8};

/// The pieces of `b` between `sep` bytes, by their start and end offsets.
fn split_positions(b: &[u8], sep: u8) -> (out: Vec<(usize, usize)>)
    ensures
        out@.len() == split_seq(b@, sep).len(),
        forall|p: int|
            0 <= p < out@.len() ==> {
                let (st, en) = #[trigger] out@[p];
                &&& st <= en <= b@.len()
                &&& b@.subrange(st as int, en as int) == split_seq(b@, sep)[p]
                &&& (st == 0 || b@[st - 1] == sep)
                &&& (en == b@.len() || b@[en as int] == sep)
            },
{
    let len = b.len();
    let mut out: Vec<(usize, usize)> = Vec::new();
    let mut start: usize = 0;
    let mut i: usize = 0;
    proof {
        assert(b@.take(0) =~= Seq::<u8>::empty());
        assert(b@.subrange(0, 0) =~= Seq::<u8>::empty());
        assert(split_seq(b@.take(0), sep) =~= seq![Seq::<u8>::empty()]);
    }
    while i < len
        invariant
            len == b@.len(),
            start <= i <= len,
            start == 0 || b@[start - 1] == sep,
            split_seq(b@.take(i as int), sep).len() == out@.len() + 1,
            split_seq(b@.take(i as int), sep).last() == b@.subrange(start as int, i as int),
            forall|p: int|
                0 <= p < out@.len() ==> {
                    let (st, en) = #[trigger] out@[p];
                    &&& st <= en < i
                    &&& b@.subrange(st as int, en as int) == split_seq(b@.take(i as int), sep)[p]
                    &&& (st == 0 || b@[st - 1] == sep)
                    &&& b@[en as int] == sep
                },
        decreases len - i,
    {
        let ghost prev = split_seq(b@.take(i as int), sep);
        proof {
            assert(b@.take(i + 1).drop_last() =~= b@.take(i as int));
            assert(b@.take(i + 1).last() == b@[i as int]);
        }
        if b[i] == sep {
            out.push((start, i));
            start = i + 1;
            proof {
                assert(split_seq(b@.take(i + 1), sep) == prev.push(Seq::empty()));
                assert(b@.subrange(start as int, i + 1) =~= Seq::<u8>::empty());
            }
        } else {
            proof {
                let next = split_seq(b@.take(i + 1), sep);
                assert(next == prev.update(prev.len() - 1, prev.last().push(b@[i as int])));
                assert(b@.subrange(start as int, i + 1) =~= b@.subrange(start as int, i as int).push(b@[i as int]));
            }
        }
        i = i + 1;
    }
    out.push((start, len));
    proof {
        assert(b@.take(len as int) =~= b@);
    }
    out
}

/// The lines of `s` that a newline ends; text after the last newline is no line.
pub open spec fn complete_lines(s: Seq<u8>) -> Seq<Seq<u8>> {
    split_seq(s, 10u8).drop_last()
}

/// Line number `line_number` (from 0) of `vec_bytes`, without its newline,
/// if that many lines end in a newline.
pub fn extract_line(vec_bytes: &[u8], line_number: usize) -> (r: Option<&[u8]>)
    ensures
        match r {
            Some(line) => line_number < complete_lines(vec_bytes@).len() && line@
                == complete_lines(vec_bytes@)[line_number as int],
            None => line_number >= complete_lines(vec_bytes@).len(),
        },
{
    let pieces = split_positions(vec_bytes, 10u8);
    proof {
        lemma_split_seq_nonempty(vec_bytes@, 10u8);
    }
    if line_number < pieces.len() - 1 {
        let (st, en) = pieces[line_number];
        Some(&vec_bytes[st..en])
    } else {
        None
    }
}

/// The bytes of a carriage return and line feed, twice.
pub open spec fn double_crlf() -> Seq<u8> {
    seq![13u8, 10u8, 13u8, 10u8]
}

/// The offset of the first blank line marker `\r\n\r\n` in `input`.
pub fn find_double_crlf(input: &[u8]) -> (r: Option<usize>)
    ensures
        match r {
            Some(i) => first_occurrence(input@, double_crlf()) == Some(i as int),
            None => first_occurrence(input@, double_crlf()) is None,
        },
{
    let len = input.len();
    let mut i: usize = 0;
    while i < len
        invariant
            len == input@.len(),
            i <= len,
            no_occurrence_before(input@, double_crlf(), i as int),
        decreases len - i,
    {
        if len - i >= 4 && input[i] == 13 && input[i + 1] == 10 && input[i + 2] == 13 && input[i
            + 3] == 10 {
            proof {
                assert(input@.subrange(i as int, i + 4) =~= double_crlf());
                lemma_first_occurrence_unique(input@, double_crlf(), i as int);
            }
            return Some(i);
        }
        proof {
            if occurs_at(input@, double_crlf(), i as int) {
                assert(input@.subrange(i as int, i + 4)[0] == input@[i as int]);
                assert(input@.subrange(i as int, i + 4)[1] == input@[i + 1]);
                assert(input@.subrange(i as int, i + 4)[2] == input@[i + 2]);
                assert(input@.subrange(i as int, i + 4)[3] == input@[i + 3]);
            }
        }
        i = i + 1;
    }
    proof {
        if exists|x: int| is_first_occurrence(input@, double_crlf(), x) {
            let x = choose|x: int| is_first_occurrence(input@, double_crlf(), x);
            assert(!occurs_at(input@, double_crlf(), x));
        }
    }
    None
}


/// The offset of the first byte `c` in `b` between `st` and `en`, or `en`.
fn find_byte_between(b: &[u8], st: usize, en: usize, c: u8) -> (k: usize)
    requires
        st <= en <= b@.len(),
    ensures
        st <= k <= en,
        k < en ==> b@[k as int] == c && first_occurrence(b@.subrange(st as int, en as int), seq![c]) == Some(k - st),
        k == en ==> first_occurrence(b@.subrange(st as int, en as int), seq![c]) is None,
{
    let ghost seg = b@.subrange(st as int, en as int);
    let mut k = st;
    while k < en && b[k] != c
        invariant
            st <= k <= en <= b@.len(),
            seg == b@.subrange(st as int, en as int),
            forall|j: int| st <= j < k ==> b@[j] != c,
        decreases en - k,
    {
        k = k + 1;
    }
    proof {
        assert forall|j: int| 0 <= j < k - st implies !occurs_at(seg, seq![c], j) by {
            assert(seg.subrange(j, j + 1)[0] == seg[j]);
            assert(seg[j] == b@[st + j]);
        }
        if k < en {
            assert(seg.subrange(k - st, k - st + 1) =~= seq![c]);
            lemma_first_occurrence_unique(seg, seq![c], k - st);
        } else if exists|x: int| is_first_occurrence(seg, seq![c], x) {
            let x = choose|x: int| is_first_occurrence(seg, seq![c], x);
            assert(seg.subrange(x, x + 1)[0] == seg[x]);
        }
    }
    k
}

/// A `key=value` piece split at its first `=`; without one the value is empty.
pub open spec fn key_value(seg: Seq<u8>) -> (Seq<u8>, Seq<u8>) {
    match first_occurrence(seg, seq![61u8]) {
        Some(k) => (seg.take(k), seg.skip(k + 1)),
        None => (seg, Seq::empty()),
    }
}

/// The key/value pairs of a query string: its `&`-separated pieces, each
/// split at its first `=`.
pub open spec fn search_pairs(q: Seq<u8>) -> Seq<(Seq<u8>, Seq<u8>)> {
    split_seq(q, 38u8).map_values(|seg: Seq<u8>| key_value(seg))
}

/// Every offset just after a separator, and the two ends, are character
/// boundaries of valid text.
proof fn lemma_piece_ends(b: Seq<u8>, st: int, en: int, sep: u8)
    requires
        valid_utf8(b),
        sep < 0x80,
        0 <= st <= en <= b.len(),
        st == 0 || b[st - 1] == sep,
        en == b.len() || b[en] == sep,
    ensures
        is_char_boundary(b, st),
        is_char_boundary(b, en),
{
    if st > 0 {
        lemma_ascii_boundaries(b, st - 1);
    }
    if en < b.len() {
        lemma_ascii_boundaries(b, en);
    }
}

/// The `key=value` pairs of a query string, in order; a piece without `=` is
/// a key with an empty value.
pub fn parse_search_options(query: &str) -> (r: Vec<(&str, &str)>)
    ensures
        r@.len() == search_pairs(utf8(query@)).len(),
        forall|i: int|
            0 <= i < r@.len() ==> (utf8((#[trigger] r@[i]).0@), utf8(r@[i].1@)) == search_pairs(
                utf8(query@),
            )[i],
{
    let qb = query.as_bytes();
    let ghost q = utf8(query@);
    let pieces = split_positions(qb, 38u8);
    let mut out: Vec<(&str, &str)> = Vec::new();
    let mut p: usize = 0;
    while p < pieces.len()
        invariant
            qb@ == q,
            q == utf8(query@),
            pieces@.len() == split_seq(q, 38u8).len(),
            forall|p: int|
                0 <= p < pieces@.len() ==> {
                    let (st, en) = #[trigger] pieces@[p];
                    &&& st <= en <= q.len()
                    &&& q.subrange(st as int, en as int) == split_seq(q, 38u8)[p]
                    &&& (st == 0 || q[st - 1] == 38u8)
                    &&& (en == q.len() || q[en as int] == 38u8)
                },
            p <= pieces@.len(),
            out@.len() == p,
            forall|i: int|
                0 <= i < p ==> (utf8((#[trigger] out@[i]).0@), utf8(out@[i].1@)) == key_value(
                    split_seq(q, 38u8)[i],
                ),
        decreases pieces@.len() - p,
    {
        let (st, en) = pieces[p];
        proof {
            lemma_piece_ends(q, st as int, en as int, 38u8);
        }
        let k = find_byte_between(qb, st, en, 61u8);
        let ghost seg = q.subrange(st as int, en as int);
        if k < en {
            proof {
                lemma_ascii_boundaries(q, k as int);
            }
            let key = str_slice(query, st, k);
            let value = str_slice(query, k + 1, en);
            proof {
                assert(utf8(key@) =~= seg.take(k - st));
                assert(utf8(value@) =~= seg.skip(k - st + 1));
            }
            out.push((key, value));
        } else {
            let key = str_slice(query, st, en);
            let value = str_slice(query, en, en);
            proof {
                assert(utf8(value@) =~= Seq::<u8>::empty());
            }
            out.push((key, value));
        }
        p = p + 1;
    }
    out
}


/// The request methods that a request line is tested for, in this order.
pub open spec fn common_http_methods() -> Seq<Seq<char>> {
    seq![
        seq!['G', 'E', 'T'],
        seq!['P', 'O', 'S', 'T'],
        seq!['P', 'U', 'T'],
        seq!['D', 'E', 'L', 'E', 'T', 'E'],
        seq!['P', 'A', 'T', 'C', 'H'],
    ]
}

/// Method number `i` of `common_http_methods`.
pub fn common_http_method(i: usize) -> (m: &'static str)
    requires
        i < 5,
    ensures
        m@ == common_http_methods()[i as int],
{
    proof {
        reveal_strlit("GET");
        reveal_strlit("POST");
        reveal_strlit("PUT");
        reveal_strlit("DELETE");
        reveal_strlit("PATCH");
    }
    if i == 0 {
        "GET"
    } else if i == 1 {
        "POST"
    } else if i == 2 {
        "PUT"
    } else if i == 3 {
        "DELETE"
    } else {
        "PATCH"
    }
}

/// `s` begins with `p`.
pub open spec fn starts_with<T>(s: Seq<T>, p: Seq<T>) -> bool {
    p.len() <= s.len() && s.take(p.len() as int) == p
}

/// Whether the characters of `s` begin with those of `p`.
pub fn chars_start_with(s: &str, p: &str) -> (r: bool)
    ensures
        r == starts_with(s@, p@),
{
    let sl = s.unicode_len();
    let pl = p.unicode_len();
    if pl > sl {
        return false;
    }
    let mut i: usize = 0;
    while i < pl
        invariant
            sl == s@.len(),
            pl == p@.len(),
            pl <= sl,
            i <= pl,
            forall|j: int| 0 <= j < i ==> s@[j] == p@[j],
        decreases pl - i,
    {
        if s.get_char(i) != p.get_char(i) {
            proof {
                assert(s@.take(pl as int)[i as int] == s@[i as int]);
            }
            return false;
        }
        i = i + 1;
    }
    proof {
        assert(s@.take(pl as int) =~= p@);
    }
    true
}

/// The first of the common methods, from number `i` on, that `s` begins with.
pub open spec fn matched_method_from(s: Seq<char>, i: int) -> Option<int>
    decreases 5 - i,
{
    if i < 0 || i >= 5 {
        None
    } else if starts_with(s, common_http_methods()[i]) {
        Some(i)
    } else {
        matched_method_from(s, i + 1)
    }
}

/// The first of the common methods that `s` begins with.
pub open spec fn matched_method(s: Seq<char>) -> Option<int> {
    matched_method_from(s, 0)
}

/// Splits a request line's method from the rest: for the first common method
/// that `method_and_path` begins with, `method` becomes that method and `path`
/// the rest without leading white space; with none, both stay as they were.
pub fn extract_path_and_method(method_and_path: &str, path: &mut String, method: &mut String)
    ensures
        match matched_method(method_and_path@) {
            Some(i) => {
                &&& final(method)@ == common_http_methods()[i]
                &&& final(path)@ == trim_start(
                    method_and_path@.skip(common_http_methods()[i].len() as int),
                )
            },
            None => *final(method) == *old(method) && *final(path) == *old(path),
        },
{
    let mut i: usize = 0;
    while i < 5
        invariant
            i <= 5,
            matched_method(method_and_path@) == matched_method_from(method_and_path@, i as int),
            *path == *old(path),
            *method == *old(method),
        decreases 5 - i,
    {
        let m = common_http_method(i);
        if chars_start_with(method_and_path, m) {
            let len = method_and_path.unicode_len();
            let ml = m.unicode_len();
            *method = m.to_owned();
            let rest = method_and_path.substring_char(ml, len);
            *path = trim_start_owned(rest);
            proof {
                assert(rest@ =~= method_and_path@.skip(ml as int));
            }
            return;
        }
        i = i + 1;
    }
}


/// A header map of `case_insensitive_hashmap`: keys compare without regard to
/// case.
#[verifier::external_type_specification]
#[verifier::external_body]
#[verifier::reject_recursive_types(V)]
#[verifier::reject_recursive_types(S)]
pub struct ExCaseInsensitiveHashMap<V, S>(CaseInsensitiveHashMap<V, S>) where S: BuildHasher;

/// The Unicode case folding of a key, by which `unicase` compares a key that
/// is not ASCII.
pub uninterp spec fn unicase_key(k: Seq<char>) -> Seq<char>;

/// A text with each ASCII capital letter made small.
pub open spec fn ascii_lower(k: Seq<char>) -> Seq<char> {
    k.map_values(|c: char| if 'A' <= c <= 'Z' { ((c as u32) + 32) as char } else { c })
}

/// The form in which `CaseInsensitiveHashMap` compares a key (its keys are
/// `UniCase` values): an ASCII key by its ASCII lowercase, any other key by
/// its Unicode case folding; two keys are the same key exactly when their
/// forms are equal.
pub open spec fn key_form(k: Seq<char>) -> Seq<char> {
    if is_ascii_chars(k) {
        ascii_lower(k)
    } else {
        unicase_key(k)
    }
}

/// Every entry is filed under the form of its stored key.
pub open spec fn well_keyed(e: Map<Seq<char>, (Seq<char>, Seq<char>)>) -> bool {
    forall|c: Seq<char>| #![trigger e.dom().contains(c)] e.dom().contains(c) ==> key_form(e[c].0) == c
}

/// What a header map holds: for the form of each key, the key as it was
/// first stored and the value stored last.
pub uninterp spec fn header_entries(m: CaseInsensitiveHashMap<String>) -> Map<
    Seq<char>,
    (Seq<char>, Seq<char>),
>;

/// The entries after storing `value` under `key`, whose form is `c`: a key
/// already present keeps its stored spelling and takes the new value.
pub open spec fn store_header(
    e: Map<Seq<char>, (Seq<char>, Seq<char>)>,
    c: Seq<char>,
    key: Seq<char>,
    value: Seq<char>,
) -> Map<Seq<char>, (Seq<char>, Seq<char>)> {
    e.insert(
        c,
        (
            if e.dom().contains(c) {
                e[c].0
            } else {
                key
            },
            value,
        ),
    )
}

/// The entries after storing `value` under `key`.
pub open spec fn insert_header(
    e: Map<Seq<char>, (Seq<char>, Seq<char>)>,
    key: Seq<char>,
    value: Seq<char>,
) -> Map<Seq<char>, (Seq<char>, Seq<char>)> {
    store_header(e, key_form(key), key, value)
}

/// The entries after storing every entry of `b` into `a`.
pub open spec fn extend_headers(
    a: Map<Seq<char>, (Seq<char>, Seq<char>)>,
    b: Map<Seq<char>, (Seq<char>, Seq<char>)>,
) -> Map<Seq<char>, (Seq<char>, Seq<char>)> {
    Map::new(
        |c: Seq<char>| a.dom().contains(c) || b.dom().contains(c),
        |c: Seq<char>|
            if b.dom().contains(c) {
                (
                    if a.dom().contains(c) {
                        a[c].0
                    } else {
                        b[c].0
                    },
                    b[c].1,
                )
            } else {
                a[c]
            },
    )
}

/// `l` lists the entries of `e`, each once, in some order.
pub open spec fn lists_entries(
    e: Map<Seq<char>, (Seq<char>, Seq<char>)>,
    l: Seq<(Seq<char>, Seq<char>)>,
) -> bool {
    &&& e.dom().finite()
    &&& l.len() == e.dom().len()
    &&& exists|forms: Seq<Seq<char>>|
        {
            &&& forms.len() == l.len()
            &&& forms.no_duplicates()
            &&& forall|i: int|
                0 <= i < forms.len() ==> e.dom().contains(#[trigger] forms[i]) && l[i] == e[forms[i]]
                    && key_form(l[i].0) == forms[i]
            &&& forall|c: Seq<char>| e.dom().contains(c) ==> forms.contains(c)
        }
}

/// The entries of an empty map.
pub open spec fn no_headers() -> Map<Seq<char>, (Seq<char>, Seq<char>)> {
    Map::empty()
}

/// An empty header map (`CaseInsensitiveHashMap::new`).
#[verifier::external_body]
fn header_map_new() -> (r: CaseInsensitiveHashMap<String>)
    ensures
        header_entries(r) == no_headers(),
{
    CaseInsensitiveHashMap::new()
}

/// Stores `value` under `key` (`CaseInsensitiveHashMap::insert`); a key that is
/// already present keeps its spelling and gets the new value. The key's form
/// is its ASCII lowercase when it is ASCII (`UniCase` then compares with
/// `eq_ignore_ascii_case`) and its Unicode case folding otherwise; each entry
/// stays filed under the form of its stored key.
#[verifier::external_body]
fn header_map_insert(m: &mut CaseInsensitiveHashMap<String>, key: String, value: String)
    ensures
        header_entries(*final(m)) == store_header(
            header_entries(*old(m)),
            if is_ascii_chars(key@) {
                ascii_lower(key@)
            } else {
                unicase_key(key@)
            },
            key@,
            value@,
        ),
        well_keyed(header_entries(*final(m))),
{
    m.insert(key, value);
}

/// Whether the map holds nothing (`CaseInsensitiveHashMap::is_empty`).
#[verifier::external_body]
fn header_map_is_empty(m: &CaseInsensitiveHashMap<String>) -> (r: bool)
    ensures
        r == (header_entries(*m).dom() == Set::<Seq<char>>::empty()),
{
    m.is_empty()
}

/// Stores every entry of `other` into `m` (`Extend::extend`); each entry
/// stays filed under the form of its stored key.
#[verifier::external_body]
fn header_map_extend(m: &mut CaseInsensitiveHashMap<String>, other: CaseInsensitiveHashMap<String>)
    ensures
        header_entries(*final(m)) == extend_headers(header_entries(*old(m)), header_entries(other)),
        well_keyed(header_entries(*final(m))),
{
    m.extend(other);
}

/// The entries of the map as stored key and value, in the map's own order
/// (`IntoIterator::into_iter`, each key taken out of its `UniCase`); each
/// listed key has the form its entry is filed under.
#[verifier::external_body]
fn header_map_into_entries(m: CaseInsensitiveHashMap<String>) -> (r: Vec<(String, String)>)
    ensures
        lists_entries(header_entries(m), r@.map_values(|e: (String, String)| (e.0@, e.1@))),
{
    m.into_iter().map(|(k, v)| (k.into_inner(), v)).collect()
}


/// What a request and a response share: headers and body bytes.
pub struct BasicHTTPDataToSet {
    pub headers: CaseInsensitiveHashMap<String>,
    pub data: Vec<u8>,
}

/// A response to send: status code, reason phrase, headers and body.
pub struct ResponseDataToSet {
    pub base: BasicHTTPDataToSet,
    pub code: i32,
    pub msg: String,
}

/// A request as received: the request line up to the protocol version,
/// headers and body.
pub struct RequestDataToSet {
    pub base: BasicHTTPDataToSet,
    pub method_and_path: String,
}

/// The characters that `String::from_utf8_lossy` makes of some bytes.
pub uninterp spec fn utf8_lossy(b: Seq<u8>) -> Seq<char>;

/// Text from bytes, each invalid sequence replaced by U+FFFD
/// (`String::from_utf8_lossy`); valid UTF-8 is decoded as it is.
#[verifier::external_body]
fn from_utf8_lossy(b: &[u8]) -> (r: String)
    ensures
        r@ == utf8_lossy(b@),
        valid_utf8(b@) ==> r@ == decode_utf8(b@),
{
    String::from_utf8_lossy(b).into_owned()
}

/// The bytes of a carriage return and a line feed.
pub open spec fn crlf() -> Seq<u8> {
    seq![13u8, 10u8]
}

/// The pieces of `s` between occurrences of `\r\n`, as `str::split("\r\n")`
/// gives them.
pub open spec fn split_crlf(s: Seq<u8>) -> Seq<Seq<u8>>
    decreases s.len(),
{
    match first_occurrence(s, crlf()) {
        Some(k) => if 0 <= k && k + 2 <= s.len() {
            seq![s.take(k)] + split_crlf(s.skip(k + 2))
        } else {
            seq![s]
        },
        None => seq![s],
    }
}

/// The pieces of `b` between occurrences of `\r\n`, by start and end offset.
fn split_crlf_positions(b: &[u8]) -> (out: Vec<(usize, usize)>)
    ensures
        out@.len() == split_crlf(b@).len(),
        forall|p: int|
            0 <= p < out@.len() ==> {
                let (st, en) = #[trigger] out@[p];
                &&& st <= en <= b@.len()
                &&& b@.subrange(st as int, en as int) == split_crlf(b@)[p]
                &&& (st == 0 || (st >= 2 && b@[st - 2] == 13u8 && b@[st - 1] == 10u8))
                &&& (en == b@.len() || (en + 1 < b@.len() && b@[en as int] == 13u8 && b@[en + 1] == 10u8))
            },
{
    let len = b.len();
    let mut out: Vec<(usize, usize)> = Vec::new();
    let ghost mut done: Seq<Seq<u8>> = Seq::empty();
    let mut start: usize = 0;
    let mut i: usize = 0;
    proof {
        assert(b@.skip(0) =~= b@);
        assert(done + split_crlf(b@.skip(0)) =~= split_crlf(b@));
    }
    while len - i >= 2
        invariant
            len == b@.len(),
            start <= i <= len,
            start == 0 || (start >= 2 && b@[start - 2] == 13u8 && b@[start - 1] == 10u8),
            done + split_crlf(b@.skip(start as int)) == split_crlf(b@),
            no_occurrence_before(b@.skip(start as int), crlf(), i - start),
            out@.len() == done.len(),
            forall|p: int|
                0 <= p < out@.len() ==> {
                    let (st, en) = #[trigger] out@[p];
                    &&& st <= en <= b@.len()
                    &&& b@.subrange(st as int, en as int) == done[p]
                    &&& (st == 0 || (st >= 2 && b@[st - 2] == 13u8 && b@[st - 1] == 10u8))
                    &&& (en + 1 < b@.len() && b@[en as int] == 13u8 && b@[en + 1] == 10u8)
                },
        decreases len - i,
    {
        let ghost suffix = b@.skip(start as int);
        if b[i] == 13u8 && b[i + 1] == 10u8 {
            proof {
                let k = i - start;
                assert(suffix.subrange(k, k + 2) =~= crlf());
                lemma_first_occurrence_unique(suffix, crlf(), k);
                assert(suffix.take(k) =~= b@.subrange(start as int, i as int));
                assert(suffix.skip(k + 2) =~= b@.skip(i + 2));
                assert(split_crlf(suffix) == seq![suffix.take(k)] + split_crlf(suffix.skip(k + 2)));
                assert(done.push(b@.subrange(start as int, i as int)) + split_crlf(b@.skip(i + 2))
                    =~= done + split_crlf(suffix));
                assert(b@.skip(i + 2) =~= b@.skip(i + 2).skip(0));
            }
            out.push((start, i));
            proof {
                done = done.push(b@.subrange(start as int, i as int));
            }
            start = i + 2;
            i = i + 2;
        } else {
            proof {
                let k = i - start;
                if occurs_at(suffix, crlf(), k) {
                    assert(suffix.subrange(k, k + 2)[0] == b@[i as int]);
                    assert(suffix.subrange(k, k + 2)[1] == b@[i + 1]);
                }
            }
            i = i + 1;
        }
    }
    proof {
        let suffix = b@.skip(start as int);
        assert forall|j: int| 0 <= j implies !occurs_at(suffix, crlf(), j) by {
            if j < i - start {
            } else {
                assert(j + 2 > suffix.len());
            }
        }
        if exists|x: int| is_first_occurrence(suffix, crlf(), x) {
            let x = choose|x: int| is_first_occurrence(suffix, crlf(), x);
            assert(!occurs_at(suffix, crlf(), x));
        }
        assert(split_crlf(suffix) == seq![suffix]);
        assert(suffix =~= b@.subrange(start as int, len as int));
        assert(done.push(suffix) =~= done + split_crlf(suffix));
    }
    out.push((start, len));
    out
}


/// The byte of a colon.
pub open spec fn colon() -> Seq<u8> {
    seq![58u8]
}

/// The bytes of ` HTTP`, which end the method and path in a request line.
pub open spec fn http_marker() -> Seq<u8> {
    seq![32u8, 72u8, 84u8, 84u8, 80u8]
}

/// The header that a line of the head gives: the text before its first colon
/// as the name, and the text after it, without leading white space, as the
/// value; a line without a colon gives none.
pub open spec fn header_pair(l: Seq<u8>) -> Option<(Seq<char>, Seq<char>)> {
    match first_occurrence(l, colon()) {
        Some(k) => Some((decode_utf8(l.take(k)), trim_start(decode_utf8(l.skip(k + 1))))),
        None => None,
    }
}

/// The header entries after storing the header of each line in turn.
pub open spec fn headers_from_lines(lines: Seq<Seq<u8>>) -> Map<Seq<char>, (Seq<char>, Seq<char>)>
    decreases lines.len(),
{
    if lines.len() == 0 {
        no_headers()
    } else {
        let e = headers_from_lines(lines.drop_last());
        match header_pair(lines.last()) {
            Some(p) => insert_header(e, p.0, p.1),
            None => e,
        }
    }
}

/// The bytes of a request before its first blank line.
pub open spec fn request_head(req: Seq<u8>) -> Seq<u8> {
    req.take(first_occurrence(req, double_crlf()).unwrap())
}

/// The bytes of a request after its first blank line.
pub open spec fn request_body(req: Seq<u8>) -> Seq<u8> {
    req.skip(first_occurrence(req, double_crlf()).unwrap() + 4)
}

/// The lines of the head, as text, split at `\r\n`.
pub open spec fn head_lines(req: Seq<u8>) -> Seq<Seq<u8>> {
    split_crlf(utf8(utf8_lossy(request_head(req))))
}

/// The first line of the head, as text.
pub open spec fn request_line(req: Seq<u8>) -> Seq<u8> {
    utf8(utf8_lossy(complete_lines(request_head(req))[0]))
}

/// The requests that `parse_request` takes apart: there is a blank line, the
/// head has a line that a newline ends, that first line holds ` HTTP`, and
/// the searches for ` HTTP` and for the colon of each header line return.
pub open spec fn request_parse_defined(req: Seq<u8>) -> bool {
    &&& first_occurrence(req, double_crlf()) is Some
    &&& complete_lines(request_head(req)).len() > 0
    &&& index_of_defined(request_line(req), http_marker())
    &&& first_occurrence(request_line(req), http_marker()) is Some
    &&& forall|i: int|
        0 <= i < head_lines(req).len() ==> index_of_defined(
            #[trigger] head_lines(req)[i],
            colon(),
        )
}

/// `r` is what `req` says: the request line up to ` HTTP`, the headers of
/// the head's lines, and the bytes after the blank line.
pub open spec fn parsed_request(req: Seq<u8>, r: RequestDataToSet) -> bool {
    &&& utf8(r.method_and_path@) == request_line(req).take(
        first_occurrence(request_line(req), http_marker()).unwrap(),
    )
    &&& header_entries(r.base.headers) == headers_from_lines(head_lines(req))
    &&& r.base.data@ == request_body(req)
    &&& valid_utf8(request_head(req)) ==> head_lines(req) == split_crlf(request_head(req))
        && request_line(req) == complete_lines(request_head(req))[0]
}

/// The first complete line of valid UTF-8 text is valid UTF-8 too.
proof fn lemma_first_line_valid(s: Seq<u8>)
    requires
        valid_utf8(s),
        complete_lines(s).len() > 0,
    ensures
        valid_utf8(complete_lines(s)[0]),
{
    lemma_split_seq_nonempty(s, 10u8);
    assert(split_seq(s, 10u8).len() >= 2);
    assert(complete_lines(s)[0] == split_seq(s, 10u8)[0]);
    let k = lemma_split_first_piece(s, 10u8);
    lemma_ascii_boundaries(s, k);
    valid_utf8_split(s, k);
    assert(s.subrange(0, k) =~= s.take(k));
}

/// The literal ` HTTP` and its bytes.
fn http_marker_text() -> (s: &'static str)
    ensures
        utf8(s@) == http_marker(),
{
    proof {
        reveal_strlit(" HTTP");
        lemma_ascii_text(" HTTP"@, http_marker());
    }
    " HTTP"
}

/// The literal `:` and its byte.
fn colon_text() -> (s: &'static str)
    ensures
        utf8(s@) == colon(),
{
    proof {
        reveal_strlit(":");
        lemma_ascii_text(":"@, colon());
    }
    ":"
}

/// Takes a raw request apart: the request line up to ` HTTP`, the headers
/// of the lines before the first blank line, and the bytes after it.
pub fn parse_request(req_data: Vec<u8>) -> (r: RequestDataToSet)
    requires
        request_parse_defined(req_data@),
    ensures
        parsed_request(req_data@, r),
{
    let ghost req = req_data@;
    let d = find_double_crlf(req_data.as_slice()).unwrap();
    let len = req_data.len();
    proof {
        assert(occurs_at(req, double_crlf(), d as int));
    }
    let head = slice_subrange(req_data.as_slice(), 0, d);
    proof {
        assert(head@ =~= request_head(req));
    }
    let first = extract_line(head, 0).unwrap();
    let first_line = from_utf8_lossy(first);
    let binding = from_utf8_lossy(head);
    let bs = binding.as_str();
    let hb = bs.as_bytes();
    let ghost text = utf8(binding@);
    let pieces = split_crlf_positions(hb);
    let colon_str = colon_text();
    let mut headers = header_map_new();
    let mut p: usize = 0;
    while p < pieces.len()
        invariant
            hb@ == text,
            text == utf8(bs@),
            bs@ == binding@,
            binding@ == utf8_lossy(request_head(req)),
            req == req_data@,
            request_parse_defined(req),
            utf8(colon_str@) == colon(),
            pieces@.len() == split_crlf(text).len(),
            forall|p: int|
                0 <= p < pieces@.len() ==> {
                    let (st, en) = #[trigger] pieces@[p];
                    &&& st <= en <= text.len()
                    &&& text.subrange(st as int, en as int) == split_crlf(text)[p]
                    &&& (st == 0 || (st >= 2 && text[st - 2] == 13u8 && text[st - 1] == 10u8))
                    &&& (en == text.len() || (en + 1 < text.len() && text[en as int] == 13u8
                        && text[en + 1] == 10u8))
                },
            p <= pieces@.len(),
            header_entries(headers) == headers_from_lines(split_crlf(text).take(p as int)),
        decreases pieces@.len() - p,
    {
        let (st, en) = pieces[p];
        proof {
            if st > 0 {
                lemma_ascii_boundaries(text, st - 1);
            }
            if en < text.len() {
                lemma_ascii_boundaries(text, en as int);
            }
        }
        let line = str_slice(bs, st, en);
        let ghost l = utf8(line@);
        proof {
            assert(head_lines(req)[p as int] == l);
            assert(split_crlf(text).take(p + 1).drop_last() =~= split_crlf(text).take(p as int));
            assert(split_crlf(text).take(p + 1).last() == l);
        }
        match index_of(line, colon_str) {
            Some(k) => {
                proof {
                    assert(is_first_occurrence(l, colon(), k as int));
                    assert(no_occurrence_before(l, colon(), k as int));
                }
                let key = str_slice(line, 0, k).to_owned();
                let value_text = str_slice(line, k + 1, line.as_bytes().len());
                let value = trim_start_owned(value_text);
                proof {
                    assert(utf8(key@) =~= l.take(k as int));
                    assert(utf8(value_text@) =~= l.skip(k + 1));
                    assert(decode_utf8(utf8(key@)) == key@);
                    assert(decode_utf8(utf8(value_text@)) == value_text@);
                    assert(header_pair(l) == Some((key@, value@)));
                }
                header_map_insert(&mut headers, key, value);
            },
            None => {},
        }
        p = p + 1;
    }
    proof {
        assert(split_crlf(text).take(pieces@.len() as int) =~= split_crlf(text));
        if valid_utf8(head@) {
            lemma_first_line_valid(head@);
            decode_utf8_encode_utf8(head@);
            decode_utf8_encode_utf8(first@);
        }
    }
    let line_text = first_line.as_str();
    let m = index_of(line_text, http_marker_text()).unwrap();
    proof {
        assert(is_first_occurrence(request_line(req), http_marker(), m as int));
        assert(no_occurrence_before(request_line(req), http_marker(), m as int));
    }
    let method_and_path = str_slice(line_text, 0, m).to_owned();
    let rest = slice_subrange(req_data.as_slice(), d + 4, len);
    let data = slice_to_vec(rest);
    proof {
        assert(data@ =~= request_body(req));
        assert(utf8(method_and_path@) =~= request_line(req).take(m as int));
    }
    RequestDataToSet { base: BasicHTTPDataToSet { headers, data }, method_and_path }
}


/// Takes a raw request apart where `parse_request` can, and says `None` for
/// the requests on which it cannot: no blank line, no complete first line,
/// no ` HTTP` in it, or a search that would not return.
pub fn try_parse_request(req_data: Vec<u8>) -> (r: Option<RequestDataToSet>)
    ensures
        r is Some <==> request_parse_defined(req_data@),
        r matches Some(x) ==> parsed_request(req_data@, x),
{
    let ghost req = req_data@;
    let d = match find_double_crlf(req_data.as_slice()) {
        Some(d) => d,
        None => return None,
    };
    let head = slice_subrange(req_data.as_slice(), 0, d);
    proof {
        assert(head@ =~= request_head(req));
    }
    let first = match extract_line(head, 0) {
        Some(first) => first,
        None => return None,
    };
    let first_line = from_utf8_lossy(first);
    let marker = http_marker_text();
    if !index_of_is_defined(first_line.as_str(), marker) {
        return None;
    }
    if index_of(first_line.as_str(), marker).is_none() {
        return None;
    }
    let binding = from_utf8_lossy(head);
    let bs = binding.as_str();
    let hb = bs.as_bytes();
    let ghost text = utf8(binding@);
    let pieces = split_crlf_positions(hb);
    let colon_str = colon_text();
    let mut p: usize = 0;
    while p < pieces.len()
        invariant
            hb@ == text,
            text == utf8(bs@),
            bs@ == binding@,
            binding@ == utf8_lossy(request_head(req)),
            req == req_data@,
            utf8(colon_str@) == colon(),
            pieces@.len() == split_crlf(text).len(),
            forall|p: int|
                0 <= p < pieces@.len() ==> {
                    let (st, en) = #[trigger] pieces@[p];
                    &&& st <= en <= text.len()
                    &&& text.subrange(st as int, en as int) == split_crlf(text)[p]
                    &&& (st == 0 || (st >= 2 && text[st - 2] == 13u8 && text[st - 1] == 10u8))
                    &&& (en == text.len() || (en + 1 < text.len() && text[en as int] == 13u8
                        && text[en + 1] == 10u8))
                },
            p <= pieces@.len(),
            forall|i: int| 0 <= i < p ==> index_of_defined(#[trigger] split_crlf(text)[i], colon()),
        decreases pieces@.len() - p,
    {
        let (st, en) = pieces[p];
        proof {
            if st > 0 {
                lemma_ascii_boundaries(text, st - 1);
            }
            if en < text.len() {
                lemma_ascii_boundaries(text, en as int);
            }
        }
        let line = str_slice(bs, st, en);
        if !index_of_is_defined(line, colon_str) {
            proof {
                assert(head_lines(req)[p as int] == utf8(line@));
            }
            return None;
        }
        p = p + 1;
    }
    proof {
        assert(head_lines(req) == split_crlf(text));
    }
    Some(parse_request(req_data))
}


/// An ASCII decimal digit.
pub open spec fn is_digit(c: char) -> bool {
    '0' <= c <= '9'
}

/// The abbreviated day names, from Sunday.
pub open spec fn weekday_names() -> Seq<Seq<char>> {
    seq![
        seq!['S', 'u', 'n'],
        seq!['M', 'o', 'n'],
        seq!['T', 'u', 'e'],
        seq!['W', 'e', 'd'],
        seq!['T', 'h', 'u'],
        seq!['F', 'r', 'i'],
        seq!['S', 'a', 't'],
    ]
}

/// The abbreviated month names, from January.
pub open spec fn month_names() -> Seq<Seq<char>> {
    seq![
        seq!['J', 'a', 'n'],
        seq!['F', 'e', 'b'],
        seq!['M', 'a', 'r'],
        seq!['A', 'p', 'r'],
        seq!['M', 'a', 'y'],
        seq!['J', 'u', 'n'],
        seq!['J', 'u', 'l'],
        seq!['A', 'u', 'g'],
        seq!['S', 'e', 'p'],
        seq!['O', 'c', 't'],
        seq!['N', 'o', 'v'],
        seq!['D', 'e', 'c'],
    ]
}

/// A year as `%Y` writes it: four digits, or, past 9999, a `+` and five
/// digits or more.
pub open spec fn year_text(y: Seq<char>) -> bool {
    ||| y.len() == 4 && forall|i: int| 0 <= i < 4 ==> is_digit(#[trigger] y[i])
    ||| y.len() >= 6 && y[0] == '+' && forall|i: int| 1 <= i < y.len() ==> is_digit(#[trigger] y[i])
}

/// Text in the shape `%a, %d %b %Y %H:%M:%S GMT`, such as
/// `Tue, 19 Nov 2024 18:31:00 GMT`: day name, comma, two-digit day, month
/// name, year, and two-digit hour, minute and second, then `GMT`.
pub open spec fn http_date(s: Seq<char>) -> bool {
    let n = s.len() as int;
    &&& n >= 29
    &&& weekday_names().contains(s.take(3))
    &&& s[3] == ',' && s[4] == ' '
    &&& is_digit(s[5]) && is_digit(s[6]) && s[7] == ' '
    &&& month_names().contains(s.subrange(8, 11))
    &&& s[11] == ' '
    &&& year_text(s.subrange(12, n - 13))
    &&& s[n - 13] == ' ' && is_digit(s[n - 12]) && is_digit(s[n - 11]) && s[n - 10] == ':'
    &&& is_digit(s[n - 9]) && is_digit(s[n - 8]) && s[n - 7] == ':'
    &&& is_digit(s[n - 6]) && is_digit(s[n - 5])
    &&& s.skip(n - 4) == seq![' ', 'G', 'M', 'T']
}

/// The current time as an HTTP date (`chrono::Utc::now`, then `format` with
/// `%a, %d %b %Y %H:%M:%S GMT`). Which date comes back depends on the clock;
/// every outcome has the shape of that format, in chrono's English names.
#[verifier::external_body]
fn format_current_date() -> (r: String)
    ensures
        http_date(r@),
{
    Utc::now().format("%a, %d %b %Y %H:%M:%S GMT").to_string()
}

/// `HTTP/1.1`, a space, the code, a space and the reason phrase.
pub open spec fn status_line(code: i32, msg: Seq<char>) -> Seq<char> {
    seq!['H', 'T', 'T', 'P', '/', '1', '.', '1', ' '] + signed_decimal(code as int) + seq![' ']
        + msg
}

/// A header line: the name, a colon, a space and the value.
pub open spec fn header_line(e: (Seq<char>, Seq<char>)) -> Seq<char> {
    e.0 + seq![':', ' '] + e.1
}

/// The header lines of a listing, joined by `\r\n`.
pub open spec fn header_block(l: Seq<(Seq<char>, Seq<char>)>) -> Seq<char>
    decreases l.len(),
{
    if l.len() == 0 {
        Seq::empty()
    } else if l.len() == 1 {
        header_line(l[0])
    } else {
        header_block(l.drop_last()) + seq!['\r', '\n'] + header_line(l.last())
    }
}

/// The bytes of a response: the status line, the header lines, a blank line
/// marker `\r\n\n`, then the body.
pub open spec fn response_bytes(
    code: i32,
    msg: Seq<char>,
    listing: Seq<(Seq<char>, Seq<char>)>,
    body: Seq<u8>,
) -> Seq<u8> {
    utf8(status_line(code, msg) + seq!['\r', '\n'] + header_block(listing) + seq!['\r', '\n', '\n'])
        + body
}

/// The name `Date`.
pub open spec fn date_name() -> Seq<char> {
    seq!['D', 'a', 't', 'e']
}

/// The name `Content-Length`.
pub open spec fn content_length_name() -> Seq<char> {
    seq!['C', 'o', 'n', 't', 'e', 'n', 't', '-', 'L', 'e', 'n', 'g', 't', 'h']
}

/// The headers a response goes out with: those given, then `Date`, then
/// `Content-Length` with the length of the body.
pub open spec fn response_headers(
    given: Map<Seq<char>, (Seq<char>, Seq<char>)>,
    date: Seq<char>,
    body_len: nat,
) -> Map<Seq<char>, (Seq<char>, Seq<char>)> {
    insert_header(
        insert_header(extend_headers(no_headers(), given), date_name(), date),
        content_length_name(),
        decimal(body_len),
    )
}

/// The response that `construct_http_response` makes of `d` with `date` as
/// the date and the headers listed in the order `listing`.
pub open spec fn response_for(
    d: ResponseDataToSet,
    date: Seq<char>,
    listing: Seq<(Seq<char>, Seq<char>)>,
    r: Seq<u8>,
) -> bool {
    &&& well_keyed(response_headers(header_entries(d.base.headers), date, d.base.data@.len()))
    &&& lists_entries(
        response_headers(header_entries(d.base.headers), date, d.base.data@.len()),
        listing,
    )
    &&& r == response_bytes(d.code, d.msg@, listing, d.base.data@)
}

/// The bytes of a response stamped with the current date: status line, the
/// given headers with `Date` and `Content-Length` added (in the header map's
/// own order), `\r\n\n`, body.
pub fn construct_http_response(additional_data: ResponseDataToSet) -> (r: Vec<u8>)
    ensures
        exists|date: Seq<char>, listing: Seq<(Seq<char>, Seq<char>)>|
            http_date(date) && response_for(additional_data, date, listing, r@),
{
    let date = format_current_date();
    build_http_response(additional_data, date)
}

/// The bytes of a response dated `date`: status line, the given headers with
/// `Date` and `Content-Length` added (in the header map's own order),
/// `\r\n\n`, body.
pub fn build_http_response(additional_data: ResponseDataToSet, date: String) -> (r: Vec<u8>)
    ensures
        exists|listing: Seq<(Seq<char>, Seq<char>)>| response_for(additional_data, date@, listing, r@),
{
    let ghost d = additional_data;
    let ResponseDataToSet { base, code, msg } = additional_data;
    let BasicHTTPDataToSet { headers: given, data } = base;
    let mut head = String::new();
    proof {
        reveal_strlit("HTTP/1.1 ");
        reveal_strlit(": ");
    }
    push_all(&mut head, "HTTP/1.1 ");
    let code_text = i64_to_decimal(code as i64);
    push_all(&mut head, code_text.as_str());
    push_char(&mut head, ' ');
    push_all(&mut head, msg.as_str());
    push_char(&mut head, '\r');
    push_char(&mut head, '\n');
    proof {
        assert(head@ =~= status_line(code, msg@) + seq!['\r', '\n']);
    }
    let mut headers = header_map_new();
    let ghost given_entries = header_entries(given);
    if !header_map_is_empty(&given) {
        header_map_extend(&mut headers, given);
    } else {
        proof {
            assert(extend_headers(no_headers(), given_entries) =~= no_headers());
        }
    }
    let ghost date_text = date@;
    proof {
        reveal_strlit("Date");
        reveal_strlit("Content-Length");
        assert("Date"@ =~= date_name());
        assert("Content-Length"@ =~= content_length_name());
    }
    header_map_insert(&mut headers, "Date".to_owned(), date);
    let length_text = u64_to_decimal(data.len() as u64);
    header_map_insert(&mut headers, "Content-Length".to_owned(), length_text);
    let ghost all = header_entries(headers);
    proof {
        assert(all == response_headers(given_entries, date_text, data@.len()));
    }
    let entries = header_map_into_entries(headers);
    let ghost listing = entries@.map_values(|e: (String, String)| (e.0@, e.1@));
    let ghost start = head@;
    let mut i: usize = 0;
    while i < entries.len()
        invariant
            i <= entries@.len(),
            listing == entries@.map_values(|e: (String, String)| (e.0@, e.1@)),
            head@ == start + header_block(listing.take(i as int)),
        decreases entries@.len() - i,
    {
        proof {
            reveal_strlit(": ");
            assert(listing[i as int] == (entries@[i as int].0@, entries@[i as int].1@));
        }
        if i > 0 {
            push_char(&mut head, '\r');
            push_char(&mut head, '\n');
        }
        push_all(&mut head, entries[i].0.as_str());
        push_all(&mut head, ": ");
        push_all(&mut head, entries[i].1.as_str());
        proof {
            let l = listing.take(i + 1);
            assert(l.drop_last() =~= listing.take(i as int));
            assert(l.last() == listing[i as int]);
            if i == 0 {
                assert(listing.take(0) =~= Seq::<(Seq<char>, Seq<char>)>::empty());
            }
            assert(head@ =~= start + header_block(l));
        }
        i = i + 1;
    }
    proof {
        assert(listing.take(entries@.len() as int) =~= listing);
    }
    push_char(&mut head, '\r');
    push_char(&mut head, '\n');
    push_char(&mut head, '\n');
    proof {
        assert(head@ =~= status_line(code, msg@) + seq!['\r', '\n'] + header_block(listing) + seq![
            '\r',
            '\n',
            '\n',
        ]);
    }
    let mut out = slice_to_vec(head.as_str().as_bytes());
    let mut body = data;
    let ghost body_bytes = body@;
    out.append(&mut body);
    proof {
        assert(out@ =~= response_bytes(code, msg@, listing, body_bytes));
        assert(response_for(d, date_text, listing, out@));
    }
    out
}


/// What the first occurrence of a single byte says.
proof fn lemma_first_byte(s: Seq<u8>, c: u8)
    ensures
        first_occurrence(s, seq![c]) matches Some(k) ==> 0 <= k < s.len() && s[k] == c && forall|j: int|
            0 <= j < k ==> s[j] != c,
        first_occurrence(s, seq![c]) is None ==> !holds(s, c),
{
    if first_occurrence(s, seq![c]) is Some {
        let k = choose|k: int| is_first_occurrence(s, seq![c], k);
        assert(s.subrange(k, k + 1)[0] == s[k]);
        assert forall|j: int| 0 <= j < k implies s[j] != c by {
            assert(!occurs_at(s, seq![c], j));
            if s[j] == c {
                assert(s.subrange(j, j + 1) =~= seq![c]);
            }
        }
    } else if holds(s, c) {
        let j = choose|j: int| 0 <= j < s.len() && s[j] == c;
        lemma_byte_has_first(s, c, j);
    }
}

/// A byte that occurs has a first occurrence.
proof fn lemma_byte_has_first(s: Seq<u8>, c: u8, j: int)
    requires
        0 <= j < s.len(),
        s[j] == c,
    ensures
        first_occurrence(s, seq![c]) is Some,
    decreases j,
{
    if exists|x: int| 0 <= x < j && s[x] == c {
        let x = choose|x: int| 0 <= x < j && s[x] == c;
        lemma_byte_has_first(s, c, x);
    } else {
        assert forall|y: int| 0 <= y < j implies !occurs_at(s, seq![c], y) by {
            if occurs_at(s, seq![c], y) {
                assert(s.subrange(y, y + 1)[0] == s[y]);
            }
        }
        assert(s.subrange(j, j + 1) =~= seq![c]);
        assert(is_first_occurrence(s, seq![c], j));
    }
}

/// Parsing a query loses nothing: its `&`-separated pieces, joined again
/// with `&`, are the query, and each piece is its key followed, when the
/// piece holds a `=`, by `=` and its value (the key then holding no `=`);
/// without a `=` the piece is its key and the value is empty.
pub proof fn search_pairs_restore_query(q: Seq<u8>)
    ensures
        join_seq(split_seq(q, 38u8), 38u8) == q,
        search_pairs(q).len() == split_seq(q, 38u8).len(),
        forall|i: int|
            0 <= i < search_pairs(q).len() ==> {
                let seg = split_seq(q, 38u8)[i];
                let kv = #[trigger] search_pairs(q)[i];
                if holds(seg, 61u8) {
                    kv.0 + seq![61u8] + kv.1 == seg && !holds(kv.0, 61u8)
                } else {
                    kv.0 == seg && kv.1.len() == 0
                }
            },
{
    split_then_join(q, 38u8);
    assert forall|i: int| 0 <= i < search_pairs(q).len() implies {
        let seg = split_seq(q, 38u8)[i];
        let kv = #[trigger] search_pairs(q)[i];
        if holds(seg, 61u8) {
            kv.0 + seq![61u8] + kv.1 == seg && !holds(kv.0, 61u8)
        } else {
            kv.0 == seg && kv.1.len() == 0
        }
    } by {
        let seg = split_seq(q, 38u8)[i];
        lemma_first_byte(seg, 61u8);
        assert(search_pairs(q)[i] == key_value(seg));
        match first_occurrence(seg, seq![61u8]) {
            Some(k) => {
                assert(seg.take(k) + seq![61u8] + seg.skip(k + 1) =~= seg);
                if holds(seg.take(k), 61u8) {
                    let j = choose|j: int| 0 <= j < seg.take(k).len() && seg.take(k)[j] == 61u8;
                    assert(seg[j] == 61u8);
                }
                assert(holds(seg, 61u8)) by {
                    assert(seg[k] == 61u8);
                }
            },
            None => {},
        }
    }
}


/// `Date` and `Content-Length` are told apart by the header map: their
/// forms are `date` and `content-length`.
pub proof fn date_and_length_names_differ()
    ensures
        key_form(date_name()) == seq!['d', 'a', 't', 'e'],
        key_form(content_length_name()) == seq![
            'c', 'o', 'n', 't', 'e', 'n', 't', '-', 'l', 'e', 'n', 'g', 't', 'h'
        ],
        key_form(date_name()) != key_form(content_length_name()),
{
    assert(is_ascii_chars(date_name()));
    assert(is_ascii_chars(content_length_name()));
    assert(ascii_lower(date_name()) =~= seq!['d', 'a', 't', 'e']);
    assert(ascii_lower(content_length_name()) =~= seq![
        'c', 'o', 'n', 't', 'e', 'n', 't', '-', 'l', 'e', 'n', 'g', 't', 'h'
    ]);
}

/// Every response announces the length of its body, begins with its status
/// line and ends with its body. Among its header lines, no two names are the
/// same ignoring case; one is `Content-Length` (ignoring case) with the
/// decimal length of the body and one is `Date` (ignoring case) with the
/// date; every given header of another name appears with its name and value;
/// no other line appears; and each given header is filed under the form of
/// its name.
pub proof fn response_announces_body_length(
    d: ResponseDataToSet,
    date: Seq<char>,
    listing: Seq<(Seq<char>, Seq<char>)>,
    r: Seq<u8>,
)
    requires
        response_for(d, date, listing, r),
    ensures
        exists|i: int|
            0 <= i < listing.len() && key_form(#[trigger] listing[i].0) == key_form(
                content_length_name(),
            ) && listing[i].1 == decimal(d.base.data@.len()),
        exists|i: int|
            0 <= i < listing.len() && key_form(#[trigger] listing[i].0) == key_form(date_name())
                && listing[i].1 == date,
        forall|i: int, j: int|
            0 <= i < listing.len() && 0 <= j < listing.len() && key_form(#[trigger] listing[i].0)
                == key_form(#[trigger] listing[j].0) ==> i == j,
        forall|c: Seq<char>|
            #![trigger header_entries(d.base.headers)[c]]
            header_entries(d.base.headers).dom().contains(c) && c != key_form(date_name()) && c
                != key_form(content_length_name()) ==> exists|i: int|
                0 <= i < listing.len() && #[trigger] listing[i] == header_entries(d.base.headers)[c],
        forall|i: int|
            0 <= i < listing.len() ==> {
                let c = key_form(#[trigger] listing[i].0);
                ||| c == key_form(date_name()) && listing[i].1 == date
                ||| c == key_form(content_length_name()) && listing[i].1 == decimal(
                    d.base.data@.len(),
                )
                ||| header_entries(d.base.headers).dom().contains(c) && listing[i]
                    == header_entries(d.base.headers)[c]
            },
        well_keyed(header_entries(d.base.headers)),
        r.len() >= d.base.data@.len(),
        r.skip(r.len() - d.base.data@.len()) == d.base.data@,
        starts_with(r, utf8(status_line(d.code, d.msg@))),
{
    date_and_length_names_differ();
    let g = header_entries(d.base.headers);
    let n = d.base.data@.len();
    let e = response_headers(g, date, n);
    let cd = key_form(date_name());
    let cl = key_form(content_length_name());
    let forms = choose|forms: Seq<Seq<char>>|
        {
            &&& forms.len() == listing.len()
            &&& forms.no_duplicates()
            &&& forall|i: int|
                0 <= i < forms.len() ==> e.dom().contains(#[trigger] forms[i]) && listing[i]
                    == e[forms[i]] && key_form(listing[i].0) == forms[i]
            &&& forall|c: Seq<char>| e.dom().contains(c) ==> forms.contains(c)
        };
    assert(e.dom().contains(cl));
    assert(e.dom().contains(cd));
    assert(forms.contains(cl));
    let k = choose|k: int| 0 <= k < forms.len() && forms[k] == cl;
    assert(listing[k] == e[cl]);
    assert(key_form(listing[k].0) == cl && listing[k].1 == decimal(n));
    assert(forms.contains(cd));
    let m = choose|m: int| 0 <= m < forms.len() && forms[m] == cd;
    assert(listing[m] == e[cd]);
    assert(key_form(listing[m].0) == cd && listing[m].1 == date);
    assert forall|i: int, j: int|
        0 <= i < listing.len() && 0 <= j < listing.len() && key_form(#[trigger] listing[i].0)
            == key_form(#[trigger] listing[j].0) implies i == j by {
        assert(forms[i] == forms[j]);
    }
    assert forall|c: Seq<char>|
        #![trigger g[c]]
        g.dom().contains(c) && c != cd && c != cl implies exists|i: int|
            0 <= i < listing.len() && #[trigger] listing[i] == g[c] by {
        assert(e.dom().contains(c));
        assert(e[c] == g[c]);
        assert(forms.contains(c));
        let i = choose|i: int| 0 <= i < forms.len() && forms[i] == c;
        assert(listing[i] == g[c]);
    }
    assert forall|i: int| 0 <= i < listing.len() implies {
        let c = key_form(#[trigger] listing[i].0);
        ||| c == cd && listing[i].1 == date
        ||| c == cl && listing[i].1 == decimal(n)
        ||| g.dom().contains(c) && listing[i] == g[c]
    } by {
        let c = forms[i];
        assert(e.dom().contains(c));
        if c != cd && c != cl {
            assert(g.dom().contains(c));
            assert(e[c] == g[c]);
        }
    }
    assert forall|c: Seq<char>| #[trigger] g.dom().contains(c) implies key_form(g[c].0) == c by {
        assert(e.dom().contains(c));
        assert(e[c].0 == g[c].0);
    }
    let body = d.base.data@;
    let status = status_line(d.code, d.msg@);
    let text = status + seq!['\r', '\n'] + header_block(listing) + seq!['\r', '\n', '\n'];
    assert(r.skip(r.len() - body.len()) =~= body);
    lemma_utf8_concat(status, seq!['\r', '\n'] + header_block(listing) + seq!['\r', '\n', '\n']);
    assert(text =~= status + (seq!['\r', '\n'] + header_block(listing) + seq!['\r', '\n', '\n']));
    assert(r.take(utf8(status).len() as int) =~= utf8(status));
}

/// A header's name is the text before the first colon of its line and its
/// value the text after that colon, leading white space removed: a line
/// gives a header exactly when it holds a colon, and then there is a colon
/// with none before it such that the name decodes the bytes before it and
/// the value the bytes after it. Where the line is valid UTF-8, the name's
/// bytes are exactly those before that colon, so the name holds no colon.
pub proof fn header_name_ends_at_first_colon(l: Seq<u8>)
    ensures
        header_pair(l) is Some <==> holds(l, 58u8),
        header_pair(l) matches Some(p) ==> exists|k: int|
            0 <= k < l.len() && #[trigger] l[k] == 58u8 && !holds(l.take(k), 58u8) && p.0
                == decode_utf8(l.take(k)) && p.1 == trim_start(decode_utf8(l.skip(k + 1))) && (
            valid_utf8(l) ==> utf8(p.0) == l.take(k) && !holds(utf8(p.0), 58u8)),
{
    lemma_first_byte(l, 58u8);
    assert(colon() == seq![58u8]);
    if let Some(k) = first_occurrence(l, colon()) {
        assert(!holds(l.take(k), 58u8)) by {
            if holds(l.take(k), 58u8) {
                let j = choose|j: int| 0 <= j < l.take(k).len() && l.take(k)[j] == 58u8;
                assert(l[j] == 58u8);
            }
        }
        assert(holds(l, 58u8)) by {
            assert(l[k] == 58u8);
        }
        if valid_utf8(l) {
            lemma_ascii_boundaries(l, k);
            valid_utf8_split(l, k);
            assert(l.subrange(0, k) =~= l.take(k));
            decode_utf8_encode_utf8(l.take(k));
        }
    }
}

} // verus!
