//! Facts about UTF-8 text and a few verified helpers on `str` and `String`
//! that the rest of the library builds on.
use vstd::prelude::*;
use vstd::string::*;
use vstd::utf8::*;

verus! {

broadcast use {encode_utf8_valid_utf8, is_char_boundary_start_end_of_seq};

/// The UTF-8 bytes of a character sequence: the byte view of a `str` or `String`.
pub open spec fn utf8(s: Seq<char>) -> Seq<u8> {
    encode_utf8(s)
}

/// A byte below 0x80 is the whole encoding of an ASCII character.
pub open spec fn is_ascii_byte(b: u8) -> bool {
    b < 0x80
}

/// In valid UTF-8 a continuation byte never follows an ASCII byte.
pub proof fn lemma_continuation_follows_non_ascii(b: Seq<u8>, j: int)
    requires
        valid_utf8(b),
        0 < j < b.len(),
        is_continuation_byte(b[j]),
    ensures
        b[j - 1] >= 0x80,
    decreases b.len(),
{
    let k = length_of_first_scalar(b);
    let rest = pop_first_scalar(b);
    assert(valid_first_scalar(b));
    assert(valid_utf8(rest));
    if j < k {
    } else if j == k {
        if rest.len() > 0 {
            assert(valid_first_scalar(rest));
            assert(rest[0] == b[j]);
        }
    } else {
        assert(rest[j - k] == b[j]);
        lemma_continuation_follows_non_ascii(rest, j - k);
        assert(rest[j - k - 1] == b[j - 1]);
    }
}

/// Both sides of an ASCII byte are character boundaries.
pub proof fn lemma_ascii_boundaries(b: Seq<u8>, i: int)
    requires
        valid_utf8(b),
        0 <= i < b.len(),
        is_ascii_byte(b[i]),
    ensures
        is_char_boundary(b, i),
        is_char_boundary(b, i + 1),
{
    is_char_boundary_iff_not_is_continuation_byte(b, i);
    if i + 1 < b.len() {
        if is_continuation_byte(b[i + 1]) {
            lemma_continuation_follows_non_ascii(b, i + 1);
        }
        is_char_boundary_iff_not_is_continuation_byte(b, i + 1);
    }
}

/// A boundary of a text stays a boundary of every suffix that starts at an
/// earlier boundary.
pub proof fn lemma_suffix_boundary(b: Seq<u8>, f: int, t: int)
    requires
        valid_utf8(b),
        0 <= f <= t <= b.len(),
        is_char_boundary(b, f),
        is_char_boundary(b, t),
    ensures
        valid_utf8(b.subrange(f, b.len() as int)),
        is_char_boundary(b.subrange(f, b.len() as int), t - f),
{
    valid_utf8_split(b, f);
    let suffix = b.subrange(f, b.len() as int);
    if t < b.len() {
        is_char_boundary_iff_not_is_continuation_byte(b, t);
        assert(suffix[t - f] == b[t]);
        is_char_boundary_iff_not_is_continuation_byte(suffix, t - f);
    } else {
        assert(suffix.len() == t - f);
    }
}

/// The part of `s` between the byte offsets `from` and `to`, which must be
/// character boundaries.
pub fn str_slice<'a>(s: &'a str, from: usize, to: usize) -> (r: &'a str)
    requires
        from <= to <= utf8(s@).len(),
        is_char_boundary(utf8(s@), from as int),
        is_char_boundary(utf8(s@), to as int),
    ensures
        utf8(r@) == utf8(s@).subrange(from as int, to as int),
{
    proof {
        lemma_suffix_boundary(utf8(s@), from as int, to as int);
    }
    let (_, tail) = s.split_at(from);
    let (mid, _) = tail.split_at(to - from);
    proof {
        assert(utf8(s@).subrange(from as int, utf8(s@).len() as int).subrange(0, (to - from) as int)
            =~= utf8(s@).subrange(from as int, to as int));
    }
    mid
}


/// Appends one character to a string (std `String::push`).
#[verifier::external_body]
pub(crate) fn push_char(s: &mut String, c: char)
    ensures
        final(s)@ == old(s)@.push(c),
{
    s.push(c);
}

/// The character of a decimal digit.
pub open spec fn digit_char(d: nat) -> char {
    (d + 48) as char
}

/// The decimal text of a natural number, without leading zeros.
pub open spec fn decimal(n: nat) -> Seq<char>
    decreases n,
{
    if n < 10 {
        seq![digit_char(n)]
    } else {
        decimal(n / 10).push(digit_char(n % 10))
    }
}

/// The decimal text of an integer, with a leading `-` when it is negative.
pub open spec fn signed_decimal(n: int) -> Seq<char> {
    if n < 0 {
        seq!['-'] + decimal((-n) as nat)
    } else {
        decimal(n as nat)
    }
}

/// Appends the decimal text of `n` to `s`.
pub fn push_decimal(s: &mut String, n: u64)
    ensures
        final(s)@ == old(s)@ + decimal(n as nat),
    decreases n,
{
    if n >= 10 {
        push_decimal(s, n / 10);
    }
    let d: u8 = (n % 10) as u8;
    let c: char = (d + 48) as char;
    push_char(s, c);
    proof {
        if n < 10 {
            assert(old(s)@.push(c) =~= old(s)@ + decimal(n as nat));
        } else {
            assert(decimal(n as nat) == decimal((n / 10) as nat).push(digit_char((n % 10) as nat)));
        }
    }
}

/// The decimal text of an unsigned number (what `to_string` gives).
pub fn u64_to_decimal(n: u64) -> (r: String)
    ensures
        r@ == decimal(n as nat),
{
    let mut s = String::new();
    push_decimal(&mut s, n);
    proof {
        assert(Seq::<char>::empty() + decimal(n as nat) =~= decimal(n as nat));
    }
    s
}

/// The decimal text of a signed number (what `to_string` gives).
pub fn i64_to_decimal(n: i64) -> (r: String)
    ensures
        r@ == signed_decimal(n as int),
{
    let mut s = String::new();
    if n < 0 {
        push_char(&mut s, '-');
        let magnitude: u64 = if n == i64::MIN {
            9223372036854775808u64
        } else {
            (-n) as u64
        };
        push_decimal(&mut s, magnitude);
        proof {
            assert(s@ =~= seq!['-'] + decimal((-n) as nat));
        }
    } else {
        push_decimal(&mut s, n as u64);
        proof {
            assert(s@ =~= decimal(n as nat));
        }
    }
    s
}

/// The characters that Unicode gives the White_Space property, which is
/// what `char::is_whitespace` tests.
pub open spec fn is_white_space(c: char) -> bool {
    let u = c as u32;
    ||| 0x09 <= u <= 0x0d
    ||| u == 0x20
    ||| u == 0x85
    ||| u == 0xa0
    ||| u == 0x1680
    ||| 0x2000 <= u <= 0x200a
    ||| u == 0x2028
    ||| u == 0x2029
    ||| u == 0x202f
    ||| u == 0x205f
    ||| u == 0x3000
}

/// Tests a character for the White_Space property.
pub fn is_white_space_char(c: char) -> (r: bool)
    ensures
        r == is_white_space(c),
{
    let u = c as u32;
    (0x09 <= u && u <= 0x0d) || u == 0x20 || u == 0x85 || u == 0xa0 || u == 0x1680 || (0x2000
        <= u && u <= 0x200a) || u == 0x2028 || u == 0x2029 || u == 0x202f || u == 0x205f || u
        == 0x3000
}

/// The text without its leading white space (what `str::trim_start` gives).
pub open spec fn trim_start(s: Seq<char>) -> Seq<char>
    decreases s.len(),
{
    if s.len() > 0 && is_white_space(s[0]) {
        trim_start(s.drop_first())
    } else {
        s
    }
}

/// A copy of `s` without its leading white space.
pub fn trim_start_owned(s: &str) -> (r: String)
    ensures
        r@ == trim_start(s@),
{
    let len = s.unicode_len();
    let mut i: usize = 0;
    proof {
        assert(s@.skip(0) =~= s@);
    }
    while i < len && is_white_space_char(s.get_char(i))
        invariant
            len == s@.len(),
            i <= len,
            trim_start(s@.skip(i as int)) == trim_start(s@),
        decreases len - i,
    {
        proof {
            assert(s@.skip(i as int).drop_first() =~= s@.skip(i + 1));
        }
        i = i + 1;
    }
    let rest = s.substring_char(i, len);
    proof {
        assert(rest@ =~= s@.skip(i as int));
    }
    rest.to_owned()
}


/// The UTF-8 bytes of ASCII text are its characters, one byte each.
pub proof fn lemma_ascii_text(cs: Seq<char>, bs: Seq<u8>)
    requires
        is_ascii_chars(cs),
        cs.len() == bs.len(),
        forall|i: int| 0 <= i < cs.len() ==> cs[i] as u8 == bs[i],
    ensures
        utf8(cs) == bs,
{
    is_ascii_chars_encode_utf8(cs);
    assert(utf8(cs) =~= bs);
}

/// Appends the characters of `t` to `s`.
pub(crate) fn push_all(s: &mut String, t: &str)
    ensures
        final(s)@ == old(s)@ + t@,
{
    let len = t.unicode_len();
    let mut i: usize = 0;
    while i < len
        invariant
            len == t@.len(),
            i <= len,
            s@ == old(s)@ + t@.take(i as int),
        decreases len - i,
    {
        let c = t.get_char(i);
        push_char(s, c);
        proof {
            assert(t@.take(i + 1) =~= t@.take(i as int).push(c));
        }
        i = i + 1;
    }
    proof {
        assert(t@.take(len as int) =~= t@);
    }
}


/// The pieces of `s` between occurrences of `sep`, as `str::split` gives
/// them: one more piece than there are separators.
pub open spec fn split_seq<T>(s: Seq<T>, sep: T) -> Seq<Seq<T>>
    decreases s.len(),
{
    if s.len() == 0 {
        seq![Seq::empty()]
    } else {
        let prev = split_seq(s.drop_last(), sep);
        if s.last() == sep {
            prev.push(Seq::empty())
        } else {
            prev.update(prev.len() - 1, prev.last().push(s.last()))
        }
    }
}

/// `split_seq` always yields at least one piece.
pub proof fn lemma_split_seq_nonempty<T>(s: Seq<T>, sep: T)
    ensures
        split_seq(s, sep).len() >= 1,
    decreases s.len(),
{
    if s.len() > 0 {
        lemma_split_seq_nonempty(s.drop_last(), sep);
    }
}

/// The pieces of `s` between the characters `sep`, by character offsets.
pub fn split_char_positions(s: &str, sep: char) -> (out: Vec<(usize, usize)>)
    ensures
        out@.len() == split_seq(s@, sep).len(),
        forall|p: int|
            0 <= p < out@.len() ==> {
                let (st, en) = #[trigger] out@[p];
                &&& st <= en <= s@.len()
                &&& s@.subrange(st as int, en as int) == split_seq(s@, sep)[p]
            },
{
    let len = s.unicode_len();
    let mut out: Vec<(usize, usize)> = Vec::new();
    let mut start: usize = 0;
    let mut i: usize = 0;
    proof {
        assert(s@.take(0) =~= Seq::<char>::empty());
        assert(s@.subrange(0, 0) =~= Seq::<char>::empty());
        assert(split_seq(s@.take(0), sep) =~= seq![Seq::<char>::empty()]);
    }
    while i < len
        invariant
            len == s@.len(),
            start <= i <= len,
            split_seq(s@.take(i as int), sep).len() == out@.len() + 1,
            split_seq(s@.take(i as int), sep).last() == s@.subrange(start as int, i as int),
            forall|p: int|
                0 <= p < out@.len() ==> {
                    let (st, en) = #[trigger] out@[p];
                    &&& st <= en < i
                    &&& s@.subrange(st as int, en as int) == split_seq(s@.take(i as int), sep)[p]
                },
        decreases len - i,
    {
        let ghost prev = split_seq(s@.take(i as int), sep);
        proof {
            assert(s@.take(i + 1).drop_last() =~= s@.take(i as int));
            assert(s@.take(i + 1).last() == s@[i as int]);
        }
        let c = s.get_char(i);
        if c == sep {
            out.push((start, i));
            start = i + 1;
            proof {
                assert(split_seq(s@.take(i + 1), sep) == prev.push(Seq::empty()));
                assert(s@.subrange(start as int, i + 1) =~= Seq::<char>::empty());
            }
        } else {
            proof {
                let next = split_seq(s@.take(i + 1), sep);
                assert(next == prev.update(prev.len() - 1, prev.last().push(s@[i as int])));
                assert(s@.subrange(start as int, i + 1) =~= s@.subrange(start as int, i as int).push(
                    s@[i as int],
                ));
            }
        }
        i = i + 1;
    }
    out.push((start, len));
    proof {
        assert(s@.take(len as int) =~= s@);
    }
    out
}

/// Whether two texts are the same characters.
pub fn same_text(a: &str, b: &str) -> (r: bool)
    ensures
        r == (a@ == b@),
{
    let al = a.unicode_len();
    let bl = b.unicode_len();
    if al != bl {
        return false;
    }
    let mut i: usize = 0;
    while i < al
        invariant
            al == a@.len(),
            bl == b@.len(),
            al == bl,
            i <= al,
            forall|j: int| 0 <= j < i ==> a@[j] == b@[j],
        decreases al - i,
    {
        if a.get_char(i) != b.get_char(i) {
            return false;
        }
        i = i + 1;
    }
    proof {
        assert(a@ =~= b@);
    }
    true
}


/// The pieces of a split, put back together with the separator between them.
pub open spec fn join_seq<T>(pieces: Seq<Seq<T>>, sep: T) -> Seq<T>
    decreases pieces.len(),
{
    if pieces.len() == 0 {
        Seq::empty()
    } else if pieces.len() == 1 {
        pieces[0]
    } else {
        join_seq(pieces.drop_last(), sep) + seq![sep] + pieces.last()
    }
}

/// Joining after growing the last piece grows the joined text the same way.
proof fn lemma_join_grow_last<T>(pieces: Seq<Seq<T>>, sep: T, c: T)
    requires
        pieces.len() >= 1,
    ensures
        join_seq(pieces.update(pieces.len() - 1, pieces.last().push(c)), sep) == join_seq(pieces, sep).push(c),
{
    let grown = pieces.update(pieces.len() - 1, pieces.last().push(c));
    if pieces.len() == 1 {
        assert(grown[0] == pieces[0].push(c));
    } else {
        assert(grown.drop_last() =~= pieces.drop_last());
        assert(join_seq(grown, sep) =~= join_seq(pieces, sep).push(c));
    }
}

/// Splitting at a separator and joining the pieces with it gives back the
/// text.
pub proof fn split_then_join<T>(s: Seq<T>, sep: T)
    ensures
        join_seq(split_seq(s, sep), sep) == s,
    decreases s.len(),
{
    if s.len() == 0 {
        assert(join_seq(split_seq(s, sep), sep) =~= s);
    } else {
        let prev = split_seq(s.drop_last(), sep);
        split_then_join(s.drop_last(), sep);
        lemma_split_seq_nonempty(s.drop_last(), sep);
        if s.last() == sep {
            assert(prev.push(Seq::empty()).drop_last() =~= prev);
            assert(join_seq(split_seq(s, sep), sep) =~= s);
        } else {
            lemma_join_grow_last(prev, sep, s.last());
            assert(s.drop_last().push(s.last()) =~= s);
        }
    }
}

/// Whether `s` holds `x`.
pub open spec fn holds<T>(s: Seq<T>, x: T) -> bool {
    exists|i: int| 0 <= i < s.len() && s[i] == x
}

/// Where a split yields two pieces or more, the first piece is the text
/// before an occurrence of the separator.
pub proof fn lemma_split_first_piece<T>(s: Seq<T>, sep: T) -> (k: int)
    requires
        split_seq(s, sep).len() >= 2,
    ensures
        0 <= k < s.len(),
        s[k] == sep,
        split_seq(s, sep)[0] == s.take(k),
    decreases s.len(),
{
    let prev = split_seq(s.drop_last(), sep);
    lemma_split_seq_nonempty(s.drop_last(), sep);
    if prev.len() >= 2 {
        let k = lemma_split_first_piece(s.drop_last(), sep);
        assert(s.drop_last().take(k) =~= s.take(k));
        k
    } else {
        split_then_join(s.drop_last(), sep);
        assert(s.last() == sep);
        assert(s.drop_last() =~= s.take(s.len() - 1));
        s.len() - 1
    }
}

/// Text without the separator splits into itself alone.
pub proof fn lemma_split_without_sep<T>(w: Seq<T>, sep: T)
    requires
        !holds(w, sep),
    ensures
        split_seq(w, sep) == seq![w],
    decreases w.len(),
{
    if w.len() > 0 {
        let w0 = w.drop_last();
        assert(!holds(w0, sep)) by {
            if holds(w0, sep) {
                let j = choose|j: int| 0 <= j < w0.len() && w0[j] == sep;
                assert(w[j] == sep);
            }
        }
        lemma_split_without_sep(w0, sep);
        assert(w[w.len() - 1] != sep);
        assert(w0.push(w.last()) =~= w);
        assert(split_seq(w, sep) =~= seq![w]);
    } else {
        assert(w =~= Seq::<T>::empty());
    }
}

/// No piece of a split holds the separator.
pub proof fn lemma_split_pieces_lack_sep<T>(s: Seq<T>, sep: T)
    ensures
        forall|i: int| 0 <= i < split_seq(s, sep).len() ==> !holds(#[trigger] split_seq(s, sep)[i], sep),
    decreases s.len(),
{
    if s.len() > 0 {
        lemma_split_pieces_lack_sep(s.drop_last(), sep);
        lemma_split_seq_nonempty(s.drop_last(), sep);
        let prev = split_seq(s.drop_last(), sep);
        if s.last() != sep {
            let last = prev.last().push(s.last());
            assert(!holds(prev[prev.len() - 1], sep));
            assert forall|j: int| 0 <= j < last.len() implies last[j] != sep by {
                if j < prev.last().len() {
                    assert(last[j] == prev.last()[j]);
                }
            }
        }
        assert forall|i: int| 0 <= i < split_seq(s, sep).len() implies !holds(
            #[trigger] split_seq(s, sep)[i],
            sep,
        ) by {
            if s.last() == sep {
                if i < prev.len() {
                    assert(split_seq(s, sep)[i] == prev[i]);
                } else {
                    assert(split_seq(s, sep)[i] =~= Seq::<T>::empty());
                }
            } else {
                if i < prev.len() - 1 {
                    assert(split_seq(s, sep)[i] == prev[i]);
                }
            }
        }
    }
}

/// Splitting text that ends in a separator and a piece without one adds
/// that piece to the split of the text before them.
pub proof fn lemma_split_append_piece<T>(a: Seq<T>, sep: T, w: Seq<T>)
    requires
        !holds(w, sep),
    ensures
        split_seq(a + seq![sep] + w, sep) == split_seq(a, sep).push(w),
    decreases w.len(),
{
    let t = a + seq![sep] + w;
    if w.len() == 0 {
        assert(t.drop_last() =~= a);
        assert(w =~= Seq::<T>::empty());
    } else {
        let w0 = w.drop_last();
        assert(!holds(w0, sep)) by {
            if holds(w0, sep) {
                let j = choose|j: int| 0 <= j < w0.len() && w0[j] == sep;
                assert(w[j] == sep);
            }
        }
        lemma_split_append_piece(a, sep, w0);
        assert(t.drop_last() =~= a + seq![sep] + w0);
        assert(t.last() == w.last());
        assert(w[w.len() - 1] != sep);
        assert(w0.push(w.last()) =~= w);
        assert(split_seq(t, sep) =~= split_seq(a, sep).push(w));
    }
}

/// Splitting two texts joined by a separator gives the pieces of both.
pub proof fn lemma_split_concat<T>(a: Seq<T>, sep: T, b: Seq<T>)
    ensures
        split_seq(a + seq![sep] + b, sep) == split_seq(a, sep) + split_seq(b, sep),
    decreases b.len(),
{
    let t = a + seq![sep] + b;
    if b.len() == 0 {
        assert(t.drop_last() =~= a);
        assert(split_seq(b, sep) =~= seq![Seq::<T>::empty()]);
        assert(split_seq(t, sep) =~= split_seq(a, sep) + split_seq(b, sep));
    } else {
        let b0 = b.drop_last();
        lemma_split_concat(a, sep, b0);
        lemma_split_seq_nonempty(b0, sep);
        lemma_split_seq_nonempty(a, sep);
        assert(t.drop_last() =~= a + seq![sep] + b0);
        assert(t.last() == b.last());
        let pa = split_seq(a, sep);
        let pb = split_seq(b0, sep);
        if b.last() == sep {
            assert((pa + pb).push(Seq::empty()) =~= pa + pb.push(Seq::empty()));
        } else {
            let both = pa + pb;
            assert(both.last() == pb.last());
            assert(both.update(both.len() - 1, both.last().push(b.last())) =~= pa + pb.update(
                pb.len() - 1,
                pb.last().push(b.last()),
            ));
        }
    }
}


/// The bytes of joined texts are the bytes of each, joined.
pub proof fn lemma_utf8_concat(a: Seq<char>, b: Seq<char>)
    ensures
        utf8(a + b) == utf8(a) + utf8(b),
    decreases a.len(),
{
    if a.len() == 0 {
        assert(a + b =~= b);
        assert(utf8(a) =~= Seq::<u8>::empty());
        assert(utf8(a) + utf8(b) =~= utf8(b));
    } else {
        lemma_utf8_concat(a.drop_first(), b);
        assert((a + b).drop_first() =~= a.drop_first() + b);
        assert((a + b)[0] == a[0]);
        assert(utf8(a + b) =~= utf8(a) + utf8(b));
    }
}


/// The number that a text of decimal digits spells.
pub open spec fn decimal_value(s: Seq<char>) -> int
    decreases s.len(),
{
    if s.len() == 0 {
        0
    } else {
        decimal_value(s.drop_last()) * 10 + (s.last() as int - 48)
    }
}

/// The decimal text of a number is made of digits only and spells that
/// number.
pub proof fn decimal_reads_back(n: nat)
    ensures
        forall|i: int| 0 <= i < decimal(n).len() ==> '0' <= #[trigger] decimal(n)[i] <= '9',
        decimal_value(decimal(n)) == n,
    decreases n,
{
    let d = n % 10;
    assert((d + 48) as char as int == d + 48);
    assert(decimal(n).last() == digit_char(d));
    if n < 10 {
        assert(decimal(n).drop_last() =~= Seq::<char>::empty());
        assert(decimal_value(Seq::<char>::empty()) == 0);
    } else {
        decimal_reads_back(n / 10);
        assert(decimal(n).drop_last() =~= decimal(n / 10));
        assert(n == (n / 10) * 10 + d);
        assert forall|i: int| 0 <= i < decimal(n).len() implies '0' <= #[trigger] decimal(n)[i]
            <= '9' by {
            if i < decimal(n / 10).len() {
                assert(decimal(n)[i] == decimal(n / 10)[i]);
            }
        }
    }
}

} // verus!
