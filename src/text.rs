//! Byte classes, runs of bytes of one class, and slicing of `&str` at the
//! positions the grammar stops at.
use vstd::prelude::*;
use vstd::string::StringSliceAdditionalSpecFns;
use vstd::utf8::*;

verus! {

pub const LF: u8 = 0x0a;

pub const CR: u8 = 0x0d;

pub const HASH: u8 = 0x23;

pub const EQUALS: u8 = 0x3d;

/// The classes of bytes that the grammar takes runs of.
#[derive(Clone, Copy, PartialEq, Eq, Debug)]
pub enum ByteClass {
    /// A space or a tab: whitespace inside a line.
    Blank,
    /// A blank, a carriage return or a line feed.
    Space,
    /// Anything but a whitespace character and `#`: a bare token.
    Token,
    /// Anything but a whitespace character, `#` and `=`: a property key.
    Key,
    /// Anything but a line end and `#`: the bytes of a property value.
    Value,
    /// Anything but a line end: the body of a comment.
    LineBody,
}

/// A space or a tab.
pub open spec fn is_blank(x: u8) -> bool {
    x == 0x20 || x == 0x09
}

/// A blank or a line end byte.
pub open spec fn is_space(x: u8) -> bool {
    is_blank(x) || x == CR || x == LF
}

/// An ASCII byte that is a whitespace character: tab, line feed, vertical
/// tab, form feed, carriage return, or space.
pub open spec fn is_ascii_ws(x: u8) -> bool {
    (0x09 <= x <= 0x0d) || x == 0x20
}

/// The number of bytes of the whitespace character that `s` starts with, or
/// 0 where it starts with none. The whitespace characters are those of
/// `char::is_whitespace`: U+0009 to U+000D, U+0020, U+0085, U+00A0, U+1680,
/// U+2000 to U+200A, U+2028, U+2029, U+202F, U+205F and U+3000, each
/// recognised by its UTF-8 encoding.
#[verifier::opaque]
pub open spec fn ws_len(s: Seq<u8>) -> int {
    if s.len() >= 1 && is_ascii_ws(s[0]) {
        1
    } else if s.len() >= 2 && s[0] == 0xc2 && (s[1] == 0x85 || s[1] == 0xa0) {
        2
    } else if s.len() >= 3 && s[0] == 0xe1 && s[1] == 0x9a && s[2] == 0x80 {
        3
    } else if s.len() >= 3 && s[0] == 0xe2 && s[1] == 0x80 && ((0x80 <= s[2] <= 0x8a) || s[2]
        == 0xa8 || s[2] == 0xa9 || s[2] == 0xaf) {
        3
    } else if s.len() >= 3 && s[0] == 0xe2 && s[1] == 0x81 && s[2] == 0x9f {
        3
    } else if s.len() >= 3 && s[0] == 0xe3 && s[1] == 0x80 && s[2] == 0x80 {
        3
    } else {
        0
    }
}

/// The number of bytes of the whitespace character that `s` ends with, or 0.
pub open spec fn ws_len_end(s: Seq<u8>) -> int {
    if s.len() >= 1 && is_ascii_ws(s.last()) {
        1
    } else if s.len() >= 2 && ws_len(s.skip(s.len() - 2)) == 2 {
        2
    } else if s.len() >= 3 && ws_len(s.skip(s.len() - 3)) == 3 {
        3
    } else {
        0
    }
}

/// Bare tokens and keys stop at a whitespace character, which may be several
/// bytes long; the other classes are decided byte by byte.
pub open spec fn is_word_class(c: ByteClass) -> bool {
    c == ByteClass::Token || c == ByteClass::Key
}

/// `x` may stand in a run of class `c`. For a word class this is only the
/// part that one byte decides: no ASCII whitespace, no `#` (nor `=` for a key).
pub open spec fn in_class(c: ByteClass, x: u8) -> bool {
    match c {
        ByteClass::Blank => is_blank(x),
        ByteClass::Space => is_space(x),
        ByteClass::Token => !is_ascii_ws(x) && x != HASH,
        ByteClass::Key => !is_ascii_ws(x) && x != HASH && x != EQUALS,
        ByteClass::Value => x != CR && x != LF && x != HASH,
        ByteClass::LineBody => x != CR && x != LF,
    }
}

/// A run of class `c` goes on over the first byte of `s`.
pub open spec fn continues(c: ByteClass, s: Seq<u8>) -> bool {
    &&& s.len() > 0
    &&& in_class(c, s[0])
    &&& (is_word_class(c) ==> ws_len(s) == 0)
}

/// What is left of `s` once the longest run of class `c` at its front is taken.
pub open spec fn span_rest(s: Seq<u8>, c: ByteClass) -> Seq<u8>
    decreases s.len(),
{
    if continues(c, s) {
        span_rest(s.drop_first(), c)
    } else {
        s
    }
}

/// The number of bytes that `span_rest` takes off `s`.
pub open spec fn span_len(s: Seq<u8>, c: ByteClass) -> int {
    s.len() - span_rest(s, c).len()
}

/// What is left of `s` is a suffix of it, and the run goes on over every byte
/// taken and stops at the first one left.
pub proof fn lemma_span_rest(s: Seq<u8>, c: ByteClass)
    ensures
        0 <= span_len(s, c) <= s.len(),
        span_rest(s, c) == s.skip(span_len(s, c)),
        forall|k: int| 0 <= k < span_len(s, c) ==> continues(c, #[trigger] s.skip(k)),
        forall|k: int| 0 <= k < span_len(s, c) ==> in_class(c, #[trigger] s[k]),
        !continues(c, s.skip(span_len(s, c))),
        span_len(s, c) < s.len() && !is_word_class(c) ==> !in_class(c, s[span_len(s, c)]),
    decreases s.len(),
{
    if continues(c, s) {
        let t = s.drop_first();
        lemma_span_rest(t, c);
        let n = span_len(t, c);
        assert(t.skip(n) =~= s.skip(n + 1));
        assert forall|k: int| 0 <= k < n + 1 implies continues(c, #[trigger] s.skip(k)) by {
            if k > 0 {
                assert(s.skip(k) =~= t.skip(k - 1));
            } else {
                assert(s.skip(0) =~= s);
            }
        }
        assert forall|k: int| 0 <= k < n + 1 implies in_class(c, #[trigger] s[k]) by {
            assert(continues(c, s.skip(k)));
            assert(s.skip(k)[0] == s[k]);
        }
        if n + 1 < s.len() {
            assert(s.skip(n + 1)[0] == s[n + 1]);
        }
    } else {
        assert(s.skip(0) =~= s);
    }
}

/// A run that stops where the bytes say it stops is the longest one.
pub proof fn lemma_span_at(s: Seq<u8>, c: ByteClass, n: int)
    requires
        0 <= n <= s.len(),
        forall|k: int| 0 <= k < n ==> continues(c, #[trigger] s.skip(k)),
        !continues(c, s.skip(n)),
    ensures
        span_rest(s, c) == s.skip(n),
        span_len(s, c) == n,
    decreases n,
{
    if n == 0 {
        assert(s.skip(0) =~= s);
    } else {
        let t = s.drop_first();
        assert(s.skip(0) =~= s);
        assert(continues(c, s.skip(0)));
        assert forall|k: int| 0 <= k < n - 1 implies continues(c, #[trigger] t.skip(k)) by {
            assert(t.skip(k) =~= s.skip(k + 1));
        }
        assert(t.skip(n - 1) =~= s.skip(n));
        lemma_span_at(t, c, n - 1);
    }
}

/// Where the first byte is ASCII, or the class is decided byte by byte, that
/// byte alone decides whether a run goes on.
pub proof fn lemma_continues_first(c: ByteClass, s: Seq<u8>)
    requires
        s.len() > 0,
        s[0] < 0x80 || !is_word_class(c),
    ensures
        continues(c, s) == in_class(c, s[0]),
{
    reveal(ws_len);
}

/// Whether a run goes on at a position inside `a` does not depend on what
/// follows `a`, where `a` ends with an ASCII byte or what follows starts with
/// one.
pub proof fn lemma_continues_extend(a: Seq<u8>, y: Seq<u8>, k: int, c: ByteClass)
    requires
        0 <= k < a.len(),
        y.len() == 0 || y[0] < 0x80 || a.last() < 0x80,
    ensures
        continues(c, (a + y).skip(k)) == continues(c, a.skip(k)),
{
    reveal(ws_len);
    let u = (a + y).skip(k);
    let v = a.skip(k);
    assert forall|j: int| 0 <= j < v.len() implies u[j] == #[trigger] v[j] by {
        assert(u[j] == a[k + j]);
    }
    if v.len() == 1 {
        assert(v[0] == a.last());
        if y.len() > 0 {
            assert(u[1] == y[0]);
        }
    } else if v.len() == 2 {
        assert(v[1] == a.last());
        if y.len() > 0 {
            assert(u[2] == y[0]);
        }
    }
}

/// Every suffix of `x` starts a run of class `c`: `x` is one run of it.
pub open spec fn is_run(x: Seq<u8>, c: ByteClass) -> bool {
    forall|k: int| 0 <= k < x.len() ==> continues(c, #[trigger] x.skip(k))
}

/// A run of class `c` followed by an ASCII byte that stops it.
pub proof fn lemma_run_concat(a: Seq<u8>, b: Seq<u8>, c: ByteClass)
    requires
        is_run(a, c),
        b.len() == 0 || (b[0] < 0x80 && !in_class(c, b[0])),
    ensures
        span_rest(a + b, c) == b,
        span_len(a + b, c) == a.len(),
        (a + b).take(a.len() as int) == a,
{
    let x = a + b;
    assert forall|k: int| 0 <= k < a.len() implies continues(c, #[trigger] x.skip(k)) by {
        lemma_continues_extend(a, b, k, c);
        assert(continues(c, a.skip(k)));
    }
    assert(x.skip(a.len() as int) =~= b);
    if b.len() > 0 {
        lemma_continues_first(c, b);
    }
    lemma_span_at(x, c, a.len() as int);
    assert(x.take(a.len() as int) =~= a);
}

/// Every byte of `x` is of class `c`.
pub open spec fn all_in(x: Seq<u8>, c: ByteClass) -> bool {
    forall|i: int| 0 <= i < x.len() ==> in_class(c, #[trigger] x[i])
}

/// A run of bytes of a class decided byte by byte, followed by a byte outside it.
pub proof fn lemma_span_concat(a: Seq<u8>, b: Seq<u8>, c: ByteClass)
    requires
        !is_word_class(c),
        all_in(a, c),
        b.len() == 0 || !in_class(c, b[0]),
    ensures
        span_rest(a + b, c) == b,
        span_len(a + b, c) == a.len(),
        (a + b).take(a.len() as int) == a,
{
    let x = a + b;
    assert forall|k: int| 0 <= k < a.len() implies continues(c, #[trigger] x.skip(k)) by {
        assert(x.skip(k)[0] == a[k]);
    }
    assert(x.skip(a.len() as int) =~= b);
    lemma_span_at(x, c, a.len() as int);
    assert(x.take(a.len() as int) =~= a);
}

fn in_class_exec(c: ByteClass, x: u8) -> (r: bool)
    ensures
        r == in_class(c, x),
{
    let ascii_ws = (0x09 <= x && x <= 0x0d) || x == 0x20;
    match c {
        ByteClass::Blank => x == 0x20 || x == 0x09,
        ByteClass::Space => x == 0x20 || x == 0x09 || x == CR || x == LF,
        ByteClass::Token => !ascii_ws && x != HASH,
        ByteClass::Key => !ascii_ws && x != HASH && x != EQUALS,
        ByteClass::Value => x != CR && x != LF && x != HASH,
        ByteClass::LineBody => x != CR && x != LF,
    }
}

/// The number of bytes of the whitespace character at position `j` of `b`.
pub fn ws_len_at(b: &[u8], j: usize) -> (r: usize)
    requires
        j <= b@.len(),
    ensures
        r == ws_len(b@.skip(j as int)),
{
    let ghost s = b@.skip(j as int);
    let n = b.len() - j;
    proof {
        reveal(ws_len);
        assert(s.len() == n);
        if n >= 1 {
            assert(s[0] == b@[j as int]);
        }
        if n >= 2 {
            assert(s[1] == b@[j + 1]);
        }
        if n >= 3 {
            assert(s[2] == b@[j + 2]);
        }
    }
    if n >= 1 && ((0x09 <= b[j] && b[j] <= 0x0d) || b[j] == 0x20) {
        1
    } else if n >= 2 && b[j] == 0xc2 && (b[j + 1] == 0x85 || b[j + 1] == 0xa0) {
        2
    } else if n >= 3 && b[j] == 0xe1 && b[j + 1] == 0x9a && b[j + 2] == 0x80 {
        3
    } else if n >= 3 && b[j] == 0xe2 && b[j + 1] == 0x80 && ((0x80 <= b[j + 2] && b[j + 2]
        <= 0x8a) || b[j + 2] == 0xa8 || b[j + 2] == 0xa9 || b[j + 2] == 0xaf) {
        3
    } else if n >= 3 && b[j] == 0xe2 && b[j + 1] == 0x81 && b[j + 2] == 0x9f {
        3
    } else if n >= 3 && b[j] == 0xe3 && b[j + 1] == 0x80 && b[j + 2] == 0x80 {
        3
    } else {
        0
    }
}

fn continues_at(b: &[u8], j: usize, c: ByteClass) -> (r: bool)
    requires
        j <= b@.len(),
    ensures
        r == continues(c, b@.skip(j as int)),
{
    if j >= b.len() {
        return false;
    }
    proof {
        assert(b@.skip(j as int)[0] == b@[j as int]);
    }
    let word = match c {
        ByteClass::Token => true,
        ByteClass::Key => true,
        _ => false,
    };
    in_class_exec(c, b[j]) && (!word || ws_len_at(b, j) == 0)
}

/// The end of the longest run of class `c` that starts at `start`.
pub fn span(b: &[u8], start: usize, c: ByteClass) -> (end: usize)
    requires
        start <= b@.len(),
    ensures
        start <= end <= b@.len(),
        span_rest(b@.skip(start as int), c) == b@.skip(end as int),
        span_len(b@.skip(start as int), c) == end - start,
{
    let mut j: usize = start;
    while j < b.len() && continues_at(b, j, c)
        invariant
            start <= j <= b@.len(),
            forall|k: int| start <= k < j ==> continues(c, #[trigger] b@.skip(k)),
        decreases b@.len() - j,
    {
        j = j + 1;
    }
    let ghost s = b@.skip(start as int);
    proof {
        if j == b@.len() {
            assert(b@.skip(j as int).len() == 0);
        }
        assert forall|k: int| 0 <= k < j - start implies continues(c, #[trigger] s.skip(k)) by {
            assert(s.skip(k) =~= b@.skip(start + k));
        }
        assert(s.skip(j - start) =~= b@.skip(j as int));
        lemma_span_at(s, c, j - start);
    }
    j
}

/// A position of a string's bytes that a slice may start or end at: its ends,
/// a byte that starts a character (ASCII or a leading byte), and the byte
/// after an ASCII byte.
pub open spec fn cut_point(s: Seq<u8>, p: int) -> bool {
    &&& 0 <= p <= s.len()
    &&& (p == 0 || p == s.len() || s[p] < 0x80 || s[p] >= 0xc0 || s[p - 1] < 0x80)
}

proof fn lemma_boundary_after_ascii(bytes: Seq<u8>, i: int)
    requires
        valid_utf8(bytes),
        0 <= i < bytes.len(),
        bytes[i] < 0x80,
        is_char_boundary(bytes, i),
    ensures
        is_char_boundary(bytes, i + 1),
    decreases bytes.len(),
{
    let n = length_of_first_scalar(bytes);
    let tail = pop_first_scalar(bytes);
    reveal_with_fuel(is_char_boundary, 2);
    if i == 0 {
        assert(n == 1);
        assert(tail.len() == bytes.len() - 1);
    } else {
        assert(tail.len() == bytes.len() - n);
        assert(tail[i - n] == bytes[i]);
        lemma_boundary_after_ascii(tail, i - n);
    }
}

/// In UTF-8 text, the end of the character that starts at a boundary is a
/// boundary too.
pub proof fn lemma_boundary_after_char(bytes: Seq<u8>, i: int)
    requires
        valid_utf8(bytes),
        0 <= i < bytes.len(),
        is_char_boundary(bytes, i),
    ensures
        i + length_of_first_scalar(bytes.skip(i)) <= bytes.len(),
        is_char_boundary(bytes, i + length_of_first_scalar(bytes.skip(i))),
    decreases bytes.len(),
{
    let n = length_of_first_scalar(bytes);
    let tail = pop_first_scalar(bytes);
    reveal_with_fuel(is_char_boundary, 2);
    assert(valid_first_scalar(bytes) && valid_utf8(tail));
    if i == 0 {
        assert(bytes.skip(0) =~= bytes);
        assert(tail.len() == bytes.len() - n);
    } else {
        assert(tail.len() == bytes.len() - n);
        assert(bytes.skip(i) =~= tail.skip(i - n));
        lemma_boundary_after_char(tail, i - n);
    }
}

pub proof fn lemma_cut_point(s: &str, p: int)
    requires
        cut_point(s.spec_bytes(), p),
    ensures
        is_char_boundary(s.spec_bytes(), p),
{
    let b = s.spec_bytes();
    encode_utf8_valid_utf8(s@);
    is_char_boundary_start_end_of_seq(b);
    if p == 0 || p == b.len() {
    } else if b[p] < 0x80 || b[p] >= 0xc0 {
        is_char_boundary_iff_not_is_continuation_byte(b, p);
    } else {
        is_char_boundary_iff_not_is_continuation_byte(b, p - 1);
        lemma_boundary_after_ascii(b, p - 1);
    }
}

/// Splits `s` at a character boundary `n`.
pub fn split_at_boundary<'a>(s: &'a str, n: usize) -> (r: (&'a str, &'a str))
    requires
        is_char_boundary(s.spec_bytes(), n as int),
    ensures
        r.0.spec_bytes() == s.spec_bytes().take(n as int),
        r.1.spec_bytes() == s.spec_bytes().skip(n as int),
{
    let r = s.split_at(n);
    proof {
        assert(r.0.spec_bytes() =~= s.spec_bytes().take(n as int));
        assert(r.1.spec_bytes() =~= s.spec_bytes().skip(n as int));
    }
    r
}

/// Splits `s` after its first `n` bytes.
pub fn split_bytes<'a>(s: &'a str, n: usize) -> (r: (&'a str, &'a str))
    requires
        cut_point(s.spec_bytes(), n as int),
    ensures
        r.0.spec_bytes() == s.spec_bytes().take(n as int),
        r.1.spec_bytes() == s.spec_bytes().skip(n as int),
{
    proof {
        lemma_cut_point(s, n as int);
    }
    split_at_boundary(s, n)
}

/// The number of bytes of the whitespace character that the first `n` bytes
/// of `b` end with.
pub fn ws_len_end_at(b: &[u8], n: usize) -> (r: usize)
    requires
        n <= b@.len(),
    ensures
        r == ws_len_end(b@.take(n as int)),
        r <= n,
        r == 1 ==> b@[n - 1] < 0x80,
        r == 2 ==> b@[n - 2] >= 0xc0,
        r == 3 ==> b@[n - 3] >= 0xc0,
{
    let ghost t = b@.take(n as int);
    proof {
        reveal(ws_len);
        if n >= 1 {
            assert(t.last() == b@[n - 1]);
        }
        if n >= 2 {
            let u = t.skip(n - 2);
            assert(u[0] == b@[n - 2] && u[1] == b@[n - 1]);
        }
        if n >= 3 {
            let u = t.skip(n - 3);
            assert(u[0] == b@[n - 3] && u[1] == b@[n - 2] && u[2] == b@[n - 1]);
        }
    }
    if n >= 1 && ((0x09 <= b[n - 1] && b[n - 1] <= 0x0d) || b[n - 1] == 0x20) {
        1
    } else if n >= 2 && b[n - 2] == 0xc2 && (b[n - 1] == 0x85 || b[n - 1] == 0xa0) {
        2
    } else if n >= 3 && ((b[n - 3] == 0xe1 && b[n - 2] == 0x9a && b[n - 1] == 0x80) || (b[n
        - 3] == 0xe2 && b[n - 2] == 0x80 && ((0x80 <= b[n - 1] && b[n - 1] <= 0x8a) || b[n - 1]
        == 0xa8 || b[n - 1] == 0xa9 || b[n - 1] == 0xaf)) || (b[n - 3] == 0xe2 && b[n - 2]
        == 0x81 && b[n - 1] == 0x9f) || (b[n - 3] == 0xe3 && b[n - 2] == 0x80 && b[n - 1]
        == 0x80)) {
        3
    } else {
        0
    }
}

/// Splits `s` after the longest run of bytes of class `c` at its front.
pub fn run<'a>(s: &'a str, c: ByteClass) -> (r: (&'a str, &'a str))
    ensures
        r.0.spec_bytes() == s.spec_bytes().take(span_len(s.spec_bytes(), c)),
        r.0.spec_bytes().len() == span_len(s.spec_bytes(), c),
        r.1.spec_bytes() == span_rest(s.spec_bytes(), c),
{
    let b = s.as_bytes();
    let n = span(b, 0, c);
    proof {
        assert(b@.skip(0) =~= b@);
        lemma_span_rest(b@, c);
        reveal(ws_len);
        if 0 < n < b@.len() {
            assert(in_class(c, b@[n - 1]));
            assert(b@.skip(n as int)[0] == b@[n as int]);
            assert(!continues(c, b@.skip(n as int)));
        }
    }
    split_bytes(s, n)
}

/// Whether the first byte of `s` is `x`.
pub fn starts_with_byte(s: &str, x: u8) -> (r: bool)
    ensures
        r == (s.spec_bytes().len() > 0 && s.spec_bytes()[0] == x),
{
    let b = s.as_bytes();
    b.len() > 0 && b[0] == x
}

/// The number of bytes of `s`.
pub fn byte_len(s: &str) -> (r: usize)
    ensures
        r == s.spec_bytes().len(),
{
    s.as_bytes().len()
}

} // verus!
