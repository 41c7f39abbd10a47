//! The grammar, stated over the bytes of the input.
//!
//! Each step is a spec function from the remaining input to either the input
//! left after it and what it read, or the reason it did not match. The
//! executable parsers in `parser` are proved to compute exactly these.
use vstd::prelude::*;

use crate::text::{
    continues, in_class, lemma_continues_first, lemma_span_at, lemma_span_rest, span_len, span_rest,
    ws_len, ws_len_end, ByteClass, CR, EQUALS, HASH, LF,
};

verus! {

/// Why a step of the grammar did not match.
#[derive(Clone, Copy, PartialEq, Eq, Debug)]
pub enum ParseError {
    /// A bare token was expected and the input holds none there.
    EmptyToken,
    /// A host header was expected and the line does not start with `Host`.
    KeywordMismatch,
    /// Neither whitespace nor `=` follows a key or the `Host` keyword.
    MissingSeparator,
    /// A host header has no name after its separator.
    MissingName,
    /// A comment was expected and the input does not start with `#`.
    MissingComment,
    /// Whitespace or a comment was expected and neither is there.
    MissingSpace,
    /// A property was expected and the line's key is the keyword `Host`.
    HostHeader,
    /// Text other than a comment follows the end of a line's content.
    MissingLineEnd,
}

/// The outcome of a step: the input left after it and what it read.
pub type Outcome<V> = Result<(Seq<u8>, V), ParseError>;

/// A property as bytes: its key and its value.
pub type PropertyView = (Seq<u8>, Seq<u8>);

/// A host as bytes: its name and its properties in file order.
pub type HostView = (Seq<u8>, Seq<PropertyView>);

/// A bare token: the longest run of bytes that are neither whitespace nor `#`.
pub open spec fn spec_token(s: Seq<u8>) -> Outcome<Seq<u8>> {
    let n = span_len(s, ByteClass::Token);
    if n == 0 {
        Err(ParseError::EmptyToken)
    } else {
        Ok((span_rest(s, ByteClass::Token), s.take(n)))
    }
}

/// A comment: `#` and the rest of the line, without its line end.
pub open spec fn spec_comment(s: Seq<u8>) -> Outcome<()> {
    if s.len() > 0 && s[0] == HASH {
        Ok((span_rest(s.drop_first(), ByteClass::LineBody), ()))
    } else {
        Err(ParseError::MissingComment)
    }
}

/// One comment, or one run of whitespace that may cross line ends.
pub open spec fn spec_space_or_comment(s: Seq<u8>) -> Outcome<()> {
    if s.len() > 0 && s[0] == HASH {
        spec_comment(s)
    } else if span_len(s, ByteClass::Space) > 0 {
        Ok((span_rest(s, ByteClass::Space), ()))
    } else {
        Err(ParseError::MissingSpace)
    }
}

/// What is left once every run of whitespace and every comment at the front
/// of `s` is taken; `in_comment` says that a comment's body is being read.
pub open spec fn skip_rest(s: Seq<u8>, in_comment: bool) -> Seq<u8>
    decreases s.len(),
{
    if s.len() == 0 {
        s
    } else if in_comment && s[0] != CR && s[0] != LF {
        skip_rest(s.drop_first(), true)
    } else if s[0] == 0x20 || s[0] == 0x09 || s[0] == CR || s[0] == LF {
        skip_rest(s.drop_first(), false)
    } else if s[0] == HASH {
        skip_rest(s.drop_first(), true)
    } else {
        s
    }
}

/// Blank lines, whitespace and comment lines, skipped as one: what is left.
pub open spec fn spec_skip(s: Seq<u8>) -> Seq<u8> {
    skip_rest(s, false)
}

/// A separator: `=` with blanks on either side, or else one or more blanks.
pub open spec fn spec_separator(s: Seq<u8>) -> Outcome<()> {
    let r = span_rest(s, ByteClass::Blank);
    if r.len() > 0 && r[0] == EQUALS {
        Ok((span_rest(r.drop_first(), ByteClass::Blank), ()))
    } else if r.len() < s.len() {
        Ok((r, ()))
    } else {
        Err(ParseError::MissingSeparator)
    }
}

/// A line terminator: `\n`, `\r\n`, or the end of the input.
pub open spec fn spec_line_end(s: Seq<u8>) -> Outcome<()> {
    if s.len() == 0 {
        Ok((s, ()))
    } else if s[0] == LF {
        Ok((s.drop_first(), ()))
    } else if s.len() >= 2 && s[0] == CR && s[1] == LF {
        Ok((s.skip(2), ()))
    } else {
        Err(ParseError::MissingLineEnd)
    }
}

/// The end of a line: blanks, an optional comment, then a line terminator.
pub open spec fn spec_line_rest(s: Seq<u8>) -> Outcome<()> {
    let r = span_rest(s, ByteClass::Blank);
    if r.len() > 0 && r[0] == HASH {
        spec_line_end(span_rest(r.drop_first(), ByteClass::LineBody))
    } else {
        spec_line_end(r)
    }
}

/// The bytes of the keyword `Host`.
pub open spec fn host_keyword() -> Seq<u8> {
    seq![0x48u8, 0x6fu8, 0x73u8, 0x74u8]
}

/// `s` starts with the keyword `Host`, case included.
pub open spec fn starts_with_host(s: Seq<u8>) -> bool {
    s.len() >= 4 && s[0] == 0x48 && s[1] == 0x6f && s[2] == 0x73 && s[3] == 0x74
}

/// A host header: blanks, `Host`, a separator, the name, then the end of
/// the line. Gives the name.
pub open spec fn spec_host_line(s: Seq<u8>) -> Outcome<Seq<u8>> {
    let r0 = span_rest(s, ByteClass::Blank);
    if !starts_with_host(r0) {
        Err(ParseError::KeywordMismatch)
    } else {
        match spec_separator(r0.skip(4)) {
            Err(e) => Err(e),
            Ok((r1, _)) => match spec_token(r1) {
                Err(_) => Err(ParseError::MissingName),
                Ok((r2, name)) => match spec_line_rest(r2) {
                    Err(e) => Err(e),
                    Ok((r3, _)) => Ok((r3, name)),
                },
            },
        }
    }
}

/// `x` without the whitespace characters at its start.
pub open spec fn trim_start(x: Seq<u8>) -> Seq<u8>
    decreases x.len(),
    via trim_start_decreases
{
    if ws_len(x) > 0 {
        trim_start(x.skip(ws_len(x)))
    } else {
        x
    }
}

#[via_fn]
proof fn trim_start_decreases(x: Seq<u8>) {
    reveal(ws_len);
}

/// `x` without the whitespace characters at its end.
pub open spec fn trim_end(x: Seq<u8>) -> Seq<u8>
    decreases x.len(),
{
    if ws_len_end(x) > 0 {
        trim_end(x.take(x.len() - ws_len_end(x)))
    } else {
        x
    }
}

/// `x` without the whitespace characters at either end.
pub open spec fn trim(x: Seq<u8>) -> Seq<u8> {
    trim_end(trim_start(x))
}

/// A property line: blanks, a key, a separator, the value up to a comment
/// or the line's end with its whitespace trimmed, then the end of the line. A
/// line whose key is the keyword `Host` belongs to a host header and is never
/// a property.
pub open spec fn spec_property_line(s: Seq<u8>) -> Outcome<PropertyView> {
    let r0 = span_rest(s, ByteClass::Blank);
    let n = span_len(r0, ByteClass::Key);
    if n == 0 {
        Err(ParseError::EmptyToken)
    } else if n == 4 && starts_with_host(r0) {
        Err(ParseError::HostHeader)
    } else {
        match spec_separator(span_rest(r0, ByteClass::Key)) {
            Err(e) => Err(e),
            Ok((r1, _)) => {
                let m = span_len(r1, ByteClass::Value);
                match spec_line_rest(span_rest(r1, ByteClass::Value)) {
                    Err(e) => Err(e),
                    Ok((r2, _)) => Ok((r2, (r0.take(n), trim(r1.take(m))))),
                }
            },
        }
    }
}

/// `r` is what is left of `s` after some prefix of it was read.
pub open spec fn is_suffix(r: Seq<u8>, s: Seq<u8>) -> bool {
    r.len() <= s.len() && r == s.skip(s.len() - r.len())
}

pub proof fn lemma_suffix_trans(a: Seq<u8>, b: Seq<u8>, c: Seq<u8>)
    requires
        is_suffix(a, b),
        is_suffix(b, c),
    ensures
        is_suffix(a, c),
{
    assert(c.skip(c.len() - b.len()).skip(b.len() - a.len()) =~= c.skip(c.len() - a.len()));
}

pub proof fn lemma_span_suffix(s: Seq<u8>, c: ByteClass)
    ensures
        is_suffix(span_rest(s, c), s),
{
    lemma_span_rest(s, c);
}

pub proof fn lemma_skip_suffix(s: Seq<u8>, in_comment: bool)
    ensures
        is_suffix(skip_rest(s, in_comment), s),
    decreases s.len(),
{
    if s.len() == 0 {
        assert(s.skip(0) =~= s);
    } else if (in_comment && s[0] != CR && s[0] != LF) || s[0] == 0x20 || s[0] == 0x09 || s[0]
        == CR || s[0] == LF || s[0] == HASH {
        let t = s.drop_first();
        lemma_skip_suffix(t, in_comment && s[0] != CR && s[0] != LF || s[0] == HASH);
        assert(is_suffix(t, s)) by {
            assert(s.skip(1) =~= t);
        }
        lemma_suffix_trans(skip_rest(s, in_comment), t, s);
    } else {
        assert(s.skip(0) =~= s);
    }
}

pub proof fn lemma_separator_suffix(s: Seq<u8>)
    ensures
        spec_separator(s) is Ok ==> is_suffix(spec_separator(s)->Ok_0.0, s)
            && spec_separator(s)->Ok_0.0.len() < s.len(),
{
    let r = span_rest(s, ByteClass::Blank);
    lemma_span_suffix(s, ByteClass::Blank);
    if r.len() > 0 && r[0] == EQUALS {
        let t = r.drop_first();
        assert(is_suffix(t, r)) by {
            assert(r.skip(1) =~= t);
        }
        lemma_span_suffix(t, ByteClass::Blank);
        lemma_suffix_trans(t, r, s);
        lemma_suffix_trans(span_rest(t, ByteClass::Blank), t, s);
    }
}

pub proof fn lemma_line_rest_suffix(s: Seq<u8>)
    ensures
        spec_line_rest(s) is Ok ==> is_suffix(spec_line_rest(s)->Ok_0.0, s),
{
    let r = span_rest(s, ByteClass::Blank);
    lemma_span_suffix(s, ByteClass::Blank);
    let q = if r.len() > 0 && r[0] == HASH {
        let t = r.drop_first();
        assert(is_suffix(t, r)) by {
            assert(r.skip(1) =~= t);
        }
        lemma_span_suffix(t, ByteClass::LineBody);
        lemma_suffix_trans(t, r, s);
        lemma_suffix_trans(span_rest(t, ByteClass::LineBody), t, s);
        span_rest(t, ByteClass::LineBody)
    } else {
        r
    };
    if spec_line_end(q) is Ok {
        let e = spec_line_end(q)->Ok_0.0;
        if q.len() == 0 {
            assert(q.skip(0) =~= e);
        } else if q[0] == LF {
            assert(q.skip(1) =~= e);
        } else {
            assert(q.skip(2) =~= e);
        }
        assert(is_suffix(e, q));
        lemma_suffix_trans(e, q, s);
    }
}

/// A property line reads at least one byte and leaves a suffix of its input.
pub proof fn lemma_property_line_suffix(s: Seq<u8>)
    ensures
        spec_property_line(s) is Ok ==> is_suffix(spec_property_line(s)->Ok_0.0, s)
            && spec_property_line(s)->Ok_0.0.len() < s.len(),
{
    if spec_property_line(s) is Ok {
        let r0 = span_rest(s, ByteClass::Blank);
        let k = span_rest(r0, ByteClass::Key);
        let r1 = spec_separator(k)->Ok_0.0;
        let v = span_rest(r1, ByteClass::Value);
        lemma_span_suffix(s, ByteClass::Blank);
        lemma_span_suffix(r0, ByteClass::Key);
        lemma_separator_suffix(k);
        lemma_span_suffix(r1, ByteClass::Value);
        lemma_line_rest_suffix(v);
        lemma_suffix_trans(k, r0, s);
        lemma_suffix_trans(r1, k, s);
        lemma_suffix_trans(v, r1, s);
        lemma_suffix_trans(spec_property_line(s)->Ok_0.0, v, s);
    }
}

/// The property lines of a block, each with the blank and comment lines
/// before and after it. Stops before the first line that is not a property:
/// the blank and comment lines that follow the last property are read, those
/// in front of a line that is not a property are left. Gives what is left
/// and the properties in file order.
pub open spec fn spec_properties(s: Seq<u8>) -> (Seq<u8>, Seq<PropertyView>)
    decreases s.len(),
    via properties_decreases
{
    match spec_property_line(spec_skip(s)) {
        Ok((r, p)) => {
            let (rest, ps) = spec_properties(spec_skip(r));
            (rest, seq![p] + ps)
        },
        Err(_) => (s, seq![]),
    }
}

#[via_fn]
proof fn properties_decreases(s: Seq<u8>) {
    lemma_skip_suffix(s, false);
    lemma_property_line_suffix(spec_skip(s));
    if spec_property_line(spec_skip(s)) is Ok {
        lemma_skip_suffix(spec_property_line(spec_skip(s))->Ok_0.0, false);
    }
}

/// A host block: blank and comment lines, the host header, its properties,
/// then blank and comment lines. Fails where the header does.
#[verifier::opaque]
pub open spec fn spec_host_block(s: Seq<u8>) -> Outcome<HostView> {
    match spec_host_line(spec_skip(s)) {
        Err(e) => Err(e),
        Ok((r, name)) => {
            let (r2, props) = spec_properties(r);
            Ok((spec_skip(r2), (name, props)))
        },
    }
}

pub proof fn lemma_host_line_suffix(s: Seq<u8>)
    ensures
        spec_host_line(s) is Ok ==> is_suffix(spec_host_line(s)->Ok_0.0, s)
            && spec_host_line(s)->Ok_0.0.len() < s.len(),
{
    if spec_host_line(s) is Ok {
        let r0 = span_rest(s, ByteClass::Blank);
        let k = r0.skip(4);
        let r1 = spec_separator(k)->Ok_0.0;
        let r2 = span_rest(r1, ByteClass::Token);
        lemma_span_suffix(s, ByteClass::Blank);
        assert(is_suffix(k, r0));
        lemma_separator_suffix(k);
        lemma_span_suffix(r1, ByteClass::Token);
        lemma_line_rest_suffix(r2);
        lemma_suffix_trans(k, r0, s);
        lemma_suffix_trans(r1, k, s);
        lemma_suffix_trans(r2, r1, s);
        lemma_suffix_trans(spec_host_line(s)->Ok_0.0, r2, s);
    }
}

pub proof fn lemma_properties_suffix(s: Seq<u8>)
    ensures
        is_suffix(spec_properties(s).0, s),
    decreases s.len(),
{
    let t = spec_skip(s);
    lemma_skip_suffix(s, false);
    lemma_property_line_suffix(t);
    if spec_property_line(t) is Ok {
        let r = spec_property_line(t)->Ok_0.0;
        lemma_skip_suffix(r, false);
        lemma_suffix_trans(r, t, s);
        lemma_suffix_trans(spec_skip(r), r, s);
        lemma_properties_suffix(spec_skip(r));
        lemma_suffix_trans(spec_properties(spec_skip(r)).0, spec_skip(r), s);
    } else {
        assert(s.skip(0) =~= s);
    }
}

/// A host block reads at least one byte and leaves a suffix of its input.
pub proof fn lemma_host_block_suffix(s: Seq<u8>)
    ensures
        spec_host_block(s) is Ok ==> is_suffix(spec_host_block(s)->Ok_0.0, s)
            && spec_host_block(s)->Ok_0.0.len() < s.len(),
{
    reveal(spec_host_block);
    let t = spec_skip(s);
    lemma_skip_suffix(s, false);
    lemma_host_line_suffix(t);
    if spec_host_line(t) is Ok {
        let r = spec_host_line(t)->Ok_0.0;
        let r2 = spec_properties(r).0;
        lemma_properties_suffix(r);
        lemma_skip_suffix(r2, false);
        lemma_suffix_trans(r, t, s);
        lemma_suffix_trans(r2, r, s);
        lemma_suffix_trans(spec_skip(r2), r2, s);
    }
}

/// The document: host blocks one after another, as many as match. Gives
/// what is left unread and the hosts in file order.
pub open spec fn spec_hosts(s: Seq<u8>) -> (Seq<u8>, Seq<HostView>)
    decreases s.len(),
    via hosts_decreases
{
    match spec_host_block(s) {
        Ok((r, h)) => {
            let (rest, hs) = spec_hosts(r);
            (rest, seq![h] + hs)
        },
        Err(_) => (s, seq![]),
    }
}

#[via_fn]
proof fn hosts_decreases(s: Seq<u8>) {
    lemma_host_block_suffix(s);
}

/// A line that reads as a host header has the keyword `Host` for its key,
/// so it is never read as a property.
pub proof fn lemma_header_is_not_property(s: Seq<u8>)
    requires
        spec_host_line(s) is Ok,
    ensures
        spec_property_line(s) == Outcome::<PropertyView>::Err(ParseError::HostHeader),
{
    let r0 = span_rest(s, ByteClass::Blank);
    let k = r0.skip(4);
    let b = span_rest(k, ByteClass::Blank);
    assert(spec_separator(k) is Ok);
    lemma_span_rest(k, ByteClass::Blank);
    assert(k.len() > 0);
    assert(r0[4] == k[0]);
    assert(!in_class(ByteClass::Key, r0[4])) by {
        if b.len() == k.len() {
            assert(b == k);
            assert(b[0] == EQUALS);
        }
    }
    assert forall|j: int| 0 <= j < 4 implies continues(ByteClass::Key, #[trigger] r0.skip(j)) by {
        assert(r0.skip(j)[0] == r0[j]);
        lemma_continues_first(ByteClass::Key, r0.skip(j));
    }
    assert(r0.skip(4)[0] == r0[4]);
    lemma_continues_first(ByteClass::Key, r0.skip(4));
    lemma_span_at(r0, ByteClass::Key, 4);
}

} // verus!
