//! Small utilities: substring search, buffer truncation, option text and
//! file kinds.
use vstd::prelude::*;
use vstd::utf8::*;
use crate::strings::{utf8, push_char, push_all};

verus! {

/// `n` occurs in `h` at byte offset `i`.
pub open spec fn occurs_at(h: Seq<u8>, n: Seq<u8>, i: int) -> bool {
    0 <= i && i + n.len() <= h.len() && h.subrange(i, i + n.len()) == n
}

/// No occurrence of `n` in `h` starts before `i`.
pub open spec fn no_occurrence_before(h: Seq<u8>, n: Seq<u8>, i: int) -> bool {
    forall|j: int| 0 <= j < i ==> !occurs_at(h, n, j)
}

/// `i` is where the first occurrence of `n` in `h` starts.
pub open spec fn is_first_occurrence(h: Seq<u8>, n: Seq<u8>, i: int) -> bool {
    occurs_at(h, n, i) && no_occurrence_before(h, n, i)
}

/// The byte offset of the first occurrence of `n` in `h`, if there is one.
pub open spec fn first_occurrence(h: Seq<u8>, n: Seq<u8>) -> Option<int> {
    if exists|i: int| is_first_occurrence(h, n, i) {
        Some(choose|i: int| is_first_occurrence(h, n, i))
    } else {
        None
    }
}

/// The inputs on which `index_of` returns: a non-empty needle must not be
/// longer than the haystack, and each window that the search compares, up to
/// and including the first match, must start and end on character boundaries
/// (the search slices the haystack there).
pub open spec fn index_of_defined(h: Seq<u8>, n: Seq<u8>) -> bool {
    n.len() == 0 || (n.len() <= h.len() && forall|i: int|
        0 <= i <= h.len() - n.len() && #[trigger] no_occurrence_before(h, n, i)
            ==> is_char_boundary(h, i) && is_char_boundary(h, i + n.len()))
}

/// There is at most one first occurrence.
pub proof fn lemma_first_occurrence_unique(h: Seq<u8>, n: Seq<u8>, i: int)
    requires
        is_first_occurrence(h, n, i),
    ensures
        first_occurrence(h, n) == Some(i),
{
    let k = choose|k: int| is_first_occurrence(h, n, k);
    assert(is_first_occurrence(h, n, k));
    if k < i {
        assert(!occurs_at(h, n, k));
    } else if i < k {
        assert(!occurs_at(h, n, i));
    }
}

/// The byte offset of the first occurrence of `needle` in `haystack`; an
/// empty needle is found at 0.
pub fn index_of(haystack: &str, needle: &str) -> (r: Option<usize>)
    requires
        index_of_defined(utf8(haystack@), utf8(needle@)),
    ensures
        match r {
            Some(i) => first_occurrence(utf8(haystack@), utf8(needle@)) == Some(i as int),
            None => first_occurrence(utf8(haystack@), utf8(needle@)) is None,
        },
{
    let h = haystack.as_bytes();
    let n = needle.as_bytes();
    let ghost hs = utf8(haystack@);
    let ghost ns = utf8(needle@);
    let haystack_len = h.len();
    let needle_len = n.len();
    if needle_len == 0 {
        proof {
            assert(hs.subrange(0, 0) =~= ns);
            lemma_first_occurrence_unique(hs, ns, 0);
        }
        return Some(0);
    }
    let last = haystack_len - needle_len;
    let mut i: usize = 0;
    while i <= last
        invariant
            h@ == hs,
            n@ == ns,
            hs == utf8(haystack@),
            ns == utf8(needle@),
            haystack_len == hs.len(),
            needle_len == ns.len(),
            0 < needle_len <= haystack_len,
            last == haystack_len - needle_len,
            i <= last + 1,
            no_occurrence_before(hs, ns, i as int),
        decreases last + 1 - i,
    {
        let mut k: usize = 0;
        let mut same = true;
        while k < needle_len
            invariant
                h@ == hs,
                n@ == ns,
                hs == utf8(haystack@),
                ns == utf8(needle@),
                haystack_len == hs.len(),
                needle_len == ns.len(),
                i <= last,
                last == haystack_len - needle_len,
                k <= needle_len,
                no_occurrence_before(hs, ns, i as int),
                same == (forall|j: int| 0 <= j < k ==> hs[i + j] == ns[j]),
            decreases needle_len - k,
        {
            if h[i + k] != n[k] {
                same = false;
            }
            k = k + 1;
        }
        if same {
            proof {
                assert(hs.subrange(i as int, i + needle_len) =~= ns);
                lemma_first_occurrence_unique(hs, ns, i as int);
            }
            return Some(i);
        }
        proof {
            if occurs_at(hs, ns, i as int) {
                let j = choose|j: int| 0 <= j < needle_len && hs[i + j] != ns[j];
                assert(hs.subrange(i as int, i + needle_len)[j] == hs[i + j]);
            }
        }
        i = i + 1;
    }
    proof {
        if exists|x: int| is_first_occurrence(hs, ns, x) {
            let x = choose|x: int| is_first_occurrence(hs, ns, x);
            assert(!occurs_at(hs, ns, x));
        }
    }
    None
}


/// Shortens `buffer` to `size` bytes when it is longer; otherwise leaves it.
pub fn truncate_buffer(buffer: &mut Vec<u8>, size: usize)
    ensures
        old(buffer)@.len() > size ==> final(buffer)@ == old(buffer)@.take(size as int),
        old(buffer)@.len() <= size ==> final(buffer)@ == old(buffer)@,
{
    if buffer.len() > size {
        buffer.truncate(size);
    }
}

/// The line `key="value"` and a newline.
pub open spec fn option_line(key: Seq<char>, value: Seq<char>) -> Seq<char> {
    key + seq!['=', '"'] + value + seq!['"', '\n']
}

/// The option lines of all entries, in order.
pub open spec fn options_text(entries: Seq<(Seq<char>, Seq<char>)>) -> Seq<char>
    decreases entries.len(),
{
    if entries.len() == 0 {
        Seq::empty()
    } else {
        options_text(entries.drop_last()) + option_line(entries.last().0, entries.last().1)
    }
}

/// The character views of a list of key/value pairs.
pub open spec fn entry_views(input: Seq<(&str, String)>) -> Seq<(Seq<char>, Seq<char>)> {
    input.map_values(|e: (&str, String)| (e.0@, e.1@))
}

/// One `key="value"` line per entry, in the order given. The entries come
/// as a list, whose order the caller fixes: a map with text keys would hand
/// them out in an order that changes from one process to the next.
pub fn create_options(input: Vec<(&str, String)>) -> (full: String)
    ensures
        full@ == options_text(entry_views(input@)),
{
    let mut full = String::new();
    let mut i: usize = 0;
    while i < input.len()
        invariant
            i <= input@.len(),
            full@ == options_text(entry_views(input@.take(i as int))),
        decreases input@.len() - i,
    {
        let key = input[i].0;
        let val = input[i].1.as_str();
        push_all(&mut full, key);
        push_char(&mut full, '=');
        push_char(&mut full, '"');
        push_all(&mut full, val);
        push_char(&mut full, '"');
        push_char(&mut full, '\n');
        proof {
            let before = entry_views(input@.take(i as int));
            let after = entry_views(input@.take(i + 1));
            assert(after.drop_last() =~= before);
            assert(after.last() == (key@, val@));
            assert(full@ =~= options_text(before) + option_line(key@, val@));
        }
        i = i + 1;
    }
    proof {
        assert(input@.take(input@.len() as int) =~= input@);
    }
    full
}

/// The kinds of file system entries that the stat report names.
#[derive(Clone, Copy, Debug, PartialEq, Eq, Structural)]
pub enum FileType {
    File,
    Directory,
    Symlink,
}

/// The mode bits by which a kind is reported.
pub open spec fn file_type_bits(t: FileType) -> u32 {
    match t {
        FileType::File => 0x8000,
        FileType::Directory => 0x4000,
        FileType::Symlink => 0xA000,
    }
}

impl FileType {
    /// The mode bits of this kind.
    pub fn bits(&self) -> (r: u32)
        ensures
            r == file_type_bits(*self),
    {
        match self {
            FileType::File => 0x8000,
            FileType::Directory => 0x4000,
            FileType::Symlink => 0xA000,
        }
    }
}

/// The kind of an entry from what its metadata says: a file first, then a
/// directory, then a symbolic link; `None` for anything else.
pub fn file_type_convert(is_file: bool, is_dir: bool, is_symlink: bool) -> (r: Option<FileType>)
    ensures
        r == (if is_file {
            Some(FileType::File)
        } else if is_dir {
            Some(FileType::Directory)
        } else if is_symlink {
            Some(FileType::Symlink)
        } else {
            None
        }),
{
    if is_file {
        Some(FileType::File)
    } else if is_dir {
        Some(FileType::Directory)
    } else if is_symlink {
        Some(FileType::Symlink)
    } else {
        None
    }
}

/// The mode reported where the platform has no permission bits: 0o755.
pub fn fake_mode() -> (r: u32)
    ensures
        r == 0o755,
{
    0o755
}

/// The mode reported for an entry on a platform without permission bits.
pub fn get_mode() -> (r: u32)
    ensures
        r == 0o755,
{
    fake_mode()
}


/// Whether `index_of(haystack, needle)` returns, that is whether
/// `index_of_defined` holds of their bytes.
pub fn index_of_is_defined(haystack: &str, needle: &str) -> (r: bool)
    ensures
        r == index_of_defined(utf8(haystack@), utf8(needle@)),
{
    let h = haystack.as_bytes();
    let n = needle.as_bytes();
    let ghost hs = utf8(haystack@);
    let ghost ns = utf8(needle@);
    let hl = h.len();
    let nl = n.len();
    if nl == 0 {
        return true;
    }
    if nl > hl {
        return false;
    }
    let last = hl - nl;
    let mut i: usize = 0;
    while i <= last
        invariant
            h@ == hs,
            n@ == ns,
            hs == utf8(haystack@),
            ns == utf8(needle@),
            hl == hs.len(),
            nl == ns.len(),
            0 < nl <= hl,
            last == hl - nl,
            i <= last + 1,
            no_occurrence_before(hs, ns, i as int),
            forall|j: int|
                0 <= j < i ==> #[trigger] is_char_boundary(hs, j) && is_char_boundary(hs, j + nl),
        decreases last + 1 - i,
    {
        if !(haystack.is_char_boundary(i) && haystack.is_char_boundary(i + nl)) {
            return false;
        }
        assert(is_char_boundary(hs, i as int));
        assert(is_char_boundary(hs, i + nl));
        let mut k: usize = 0;
        let mut same = true;
        while k < nl
            invariant
                h@ == hs,
                n@ == ns,
                hl == hs.len(),
                nl == ns.len(),
                i <= last,
                last == hl - nl,
                k <= nl,
                same == (forall|j: int| 0 <= j < k ==> hs[i + j] == ns[j]),
                forall|j: int|
                    0 <= j < i ==> #[trigger] is_char_boundary(hs, j) && is_char_boundary(hs, j + nl),
                is_char_boundary(hs, i as int),
                is_char_boundary(hs, i + nl),
                no_occurrence_before(hs, ns, i as int),
            decreases nl - k,
        {
            if h[i + k] != n[k] {
                same = false;
            }
            k = k + 1;
        }
        if same {
            proof {
                assert(hs.subrange(i as int, i + nl) =~= ns);
                assert forall|x: int|
                    0 <= x <= hs.len() - ns.len() && #[trigger] no_occurrence_before(hs, ns, x)
                    implies is_char_boundary(hs, x) && is_char_boundary(hs, x + ns.len()) by {
                    if x > i {
                        assert(!occurs_at(hs, ns, i as int));
                    } else if x < i {
                        assert(is_char_boundary(hs, x));
                    }
                }
            }
            return true;
        }
        proof {
            if occurs_at(hs, ns, i as int) {
                let j = choose|j: int| 0 <= j < nl && hs[i + j] != ns[j];
                assert(hs.subrange(i as int, i + nl)[j] == hs[i + j]);
            }
            assert forall|j: int| 0 <= j < i + 1 implies #[trigger] is_char_boundary(hs, j)
                && is_char_boundary(hs, j + nl) by {
                if j < i {
                    assert(is_char_boundary(hs, j));
                }
            }
        }
        i = i + 1;
    }
    true
}

} // verus!
