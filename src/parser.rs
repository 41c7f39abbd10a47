//! The parsers: each takes the remaining input and gives back what is left
//! of it and what it read, as slices of the input.
use vstd::prelude::*;
use vstd::string::StringSliceAdditionalSpecFns;

use crate::document::{outcome, Host, Model, Property};
use crate::grammar::{
    lemma_host_block_suffix, lemma_property_line_suffix, lemma_skip_suffix, skip_rest, spec_comment,
    spec_host_block, spec_host_line, spec_hosts, spec_line_rest, spec_properties,
    spec_property_line, spec_separator, spec_skip, spec_space_or_comment, spec_token,
    starts_with_host, trim, trim_end, trim_start, HostView, Outcome, ParseError, PropertyView,
};
use vstd::utf8::{
    encode_utf8_valid_utf8, is_char_boundary, is_char_boundary_start_end_of_seq,
    length_of_first_scalar, valid_utf8,
};

use crate::text::{
    byte_len, lemma_boundary_after_char, run, split_at_boundary, split_bytes, starts_with_byte,
    ws_len, ws_len_at, ws_len_end_at, ByteClass, CR, EQUALS, HASH, LF,
};

verus! {

/// A bare token: the longest run of bytes that are neither whitespace nor `#`.
pub fn string<'a>(i: &'a str) -> (r: Result<(&'a str, &'a str), ParseError>)
    ensures
        outcome(r) == spec_token(i.spec_bytes()),
{
    let (token, rest) = run(i, ByteClass::Token);
    if byte_len(token) == 0 {
        Err(ParseError::EmptyToken)
    } else {
        Ok((rest, token))
    }
}

/// A comment: `#` and everything after it up to the line's end, which is left.
pub fn comment<'a>(i: &'a str) -> (r: Result<(&'a str, ()), ParseError>)
    ensures
        outcome(r) == spec_comment(i.spec_bytes()),
{
    if starts_with_byte(i, HASH) {
        let (_, body) = split_bytes(i, 1);
        proof {
            assert(i.spec_bytes().skip(1) =~= i.spec_bytes().drop_first());
        }
        let (_, rest) = run(body, ByteClass::LineBody);
        Ok((rest, ()))
    } else {
        Err(ParseError::MissingComment)
    }
}

/// A separator: `=` with optional blanks around it, or one or more blanks.
pub fn space_or_equals<'a>(i: &'a str) -> (r: Result<(&'a str, ()), ParseError>)
    ensures
        outcome(r) == spec_separator(i.spec_bytes()),
{
    let (_, r0) = run(i, ByteClass::Blank);
    if starts_with_byte(r0, EQUALS) {
        let (_, r1) = split_bytes(r0, 1);
        proof {
            assert(r0.spec_bytes().skip(1) =~= r0.spec_bytes().drop_first());
        }
        let (_, r2) = run(r1, ByteClass::Blank);
        Ok((r2, ()))
    } else if byte_len(r0) < byte_len(i) {
        Ok((r0, ()))
    } else {
        Err(ParseError::MissingSeparator)
    }
}

/// One comment, or one run of whitespace, line ends included.
pub fn space_or_comment<'a>(i: &'a str) -> (r: Result<(&'a str, ()), ParseError>)
    ensures
        outcome(r) == spec_space_or_comment(i.spec_bytes()),
{
    if starts_with_byte(i, HASH) {
        comment(i)
    } else {
        let (spaces, rest) = run(i, ByteClass::Space);
        if byte_len(spaces) > 0 {
            Ok((rest, ()))
        } else {
            Err(ParseError::MissingSpace)
        }
    }
}

/// What is left of `i` once its leading whitespace, blank lines and comments
/// are skipped.
pub fn skip<'a>(i: &'a str) -> (r: &'a str)
    ensures
        r.spec_bytes() == spec_skip(i.spec_bytes()),
{
    let b = i.as_bytes();
    let mut j: usize = 0;
    let mut in_comment = false;
    proof {
        assert(b@.skip(0) =~= b@);
    }
    while j < b.len()
        invariant_except_break
            j <= b@.len(),
            b@ == i.spec_bytes(),
            skip_rest(b@.skip(j as int), in_comment) == spec_skip(b@),
            !in_comment ==> j == 0 || b@[j - 1] < 0x80,
        ensures
            j <= b@.len(),
            skip_rest(b@.skip(j as int), in_comment) == spec_skip(b@),
            skip_rest(b@.skip(j as int), in_comment) == b@.skip(j as int),
            j == b@.len() || !in_comment,
            !in_comment ==> j == 0 || b@[j - 1] < 0x80,
        decreases b@.len() - j,
    {
        let x = b[j];
        proof {
            assert(b@.skip(j as int).drop_first() =~= b@.skip(j + 1));
            assert(b@.skip(j as int)[0] == x);
        }
        if in_comment && x != CR && x != LF {
            j = j + 1;
        } else if x == 0x20 || x == 0x09 || x == CR || x == LF {
            in_comment = false;
            j = j + 1;
        } else if x == HASH {
            in_comment = true;
            j = j + 1;
        } else {
            break;
        }
    }
    let (_, rest) = split_bytes(i, j);
    rest
}

/// Blank lines, whitespace and comment lines, skipped as one. Never fails.
pub fn spaces_or_comments<'a>(i: &'a str) -> (r: Result<(&'a str, ()), ParseError>)
    ensures
        outcome(r) == Outcome::<()>::Ok((spec_skip(i.spec_bytes()), ())),
{
    Ok((skip(i), ()))
}

/// The end of a line: blanks, an optional comment, then `\n`, `\r\n`, or the
/// end of the input.
pub fn line_rest<'a>(i: &'a str) -> (r: Result<(&'a str, ()), ParseError>)
    ensures
        outcome(r) == spec_line_rest(i.spec_bytes()),
{
    let (_, r0) = run(i, ByteClass::Blank);
    let r1 = if starts_with_byte(r0, HASH) {
        let (_, body) = split_bytes(r0, 1);
        proof {
            assert(r0.spec_bytes().skip(1) =~= r0.spec_bytes().drop_first());
        }
        let (_, after) = run(body, ByteClass::LineBody);
        after
    } else {
        r0
    };
    let b = r1.as_bytes();
    if b.len() == 0 {
        Ok((r1, ()))
    } else if b[0] == LF {
        let (_, rest) = split_bytes(r1, 1);
        proof {
            assert(b@.skip(1) =~= b@.drop_first());
        }
        Ok((rest, ()))
    } else if b.len() >= 2 && b[0] == CR && b[1] == LF {
        let (_, rest) = split_bytes(r1, 2);
        Ok((rest, ()))
    } else {
        Err(ParseError::MissingLineEnd)
    }
}

fn starts_with_host_keyword(s: &str) -> (r: bool)
    ensures
        r == starts_with_host(s.spec_bytes()),
{
    let b = s.as_bytes();
    b.len() >= 4 && b[0] == 0x48 && b[1] == 0x6f && b[2] == 0x73 && b[3] == 0x74
}

/// A host header: optional blanks, the keyword `Host`, a separator, the
/// host's name, then the end of the line. Gives the name.
pub fn host_line<'a>(i: &'a str) -> (r: Result<(&'a str, &'a str), ParseError>)
    ensures
        outcome(r) == spec_host_line(i.spec_bytes()),
{
    let (_, r0) = run(i, ByteClass::Blank);
    if !starts_with_host_keyword(r0) {
        return Err(ParseError::KeywordMismatch);
    }
    let (_, r1) = split_bytes(r0, 4);
    match space_or_equals(r1) {
        Err(e) => Err(e),
        Ok((r2, _)) => match string(r2) {
            Err(_) => Err(ParseError::MissingName),
            Ok((r3, name)) => match line_rest(r3) {
                Err(e) => Err(e),
                Ok((r4, _)) => Ok((r4, name)),
            },
        },
    }
}

/// `s` without the whitespace characters at its start.
fn trim_start_str<'a>(s: &'a str) -> (r: &'a str)
    ensures
        r.spec_bytes() == trim_start(s.spec_bytes()),
{
    let b = s.as_bytes();
    let len = b.len();
    let mut j: usize = 0;
    proof {
        encode_utf8_valid_utf8(s@);
        is_char_boundary_start_end_of_seq(b@);
        assert(b@.skip(0) =~= b@);
    }
    loop
        invariant
            j <= b@.len(),
            len == b@.len(),
            b@ == s.spec_bytes(),
            valid_utf8(b@),
            is_char_boundary(b@, j as int),
            trim_start(b@.skip(j as int)) == trim_start(b@),
        ensures
            is_char_boundary(b@, j as int),
            trim_start(b@) == b@.skip(j as int),
        decreases b@.len() - j,
    {
        let k = ws_len_at(b, j);
        if k == 0 {
            break;
        }
        proof {
            let t = b@.skip(j as int);
            reveal(ws_len);
            assert(t[0] == b@[j as int]);
            lemma_boundary_after_char(b@, j as int);
            assert(length_of_first_scalar(t) == k);
            assert(t.skip(k as int) =~= b@.skip(j + k));
        }
        assert(j + k <= len);
        j = j + k;
    }
    let (_, rest) = split_at_boundary(s, j);
    rest
}

/// `s` without the whitespace characters at its end.
fn trim_end_str<'a>(s: &'a str) -> (r: &'a str)
    ensures
        r.spec_bytes() == trim_end(s.spec_bytes()),
{
    let b = s.as_bytes();
    let mut n: usize = b.len();
    proof {
        assert(b@.take(n as int) =~= b@);
    }
    loop
        invariant
            n <= b@.len(),
            b@ == s.spec_bytes(),
            trim_end(b@.take(n as int)) == trim_end(b@),
            n < b@.len() ==> b@[n as int] < 0x80 || b@[n as int] >= 0xc0,
        ensures
            trim_end(b@) == b@.take(n as int),
            n < b@.len() ==> b@[n as int] < 0x80 || b@[n as int] >= 0xc0,
        decreases n,
    {
        let k = ws_len_end_at(b, n);
        if k == 0 {
            break;
        }
        proof {
            assert(b@.take(n as int).take(n - k) =~= b@.take(n - k));
        }
        n = n - k;
    }
    let (head, _) = split_bytes(s, n);
    head
}

/// `s` without the whitespace characters at either end.
fn trim_str<'a>(s: &'a str) -> (r: &'a str)
    ensures
        r.spec_bytes() == trim(s.spec_bytes()),
{
    trim_end_str(trim_start_str(s))
}

/// A property line: optional blanks, a key, a separator, and the value: the
/// rest of the line up to a comment, trimmed. The line's comment and its end
/// are read too. A line whose key is the keyword `Host` is never read as a
/// property.
pub fn property_line<'a>(i: &'a str) -> (r: Result<(&'a str, Property<'a>), ParseError>)
    ensures
        outcome(r) == spec_property_line(i.spec_bytes()),
{
    let (_, r0) = run(i, ByteClass::Blank);
    let (key, k) = run(r0, ByteClass::Key);
    if byte_len(key) == 0 {
        return Err(ParseError::EmptyToken);
    }
    if byte_len(key) == 4 && starts_with_host_keyword(r0) {
        return Err(ParseError::HostHeader);
    }
    match space_or_equals(k) {
        Err(e) => Err(e),
        Ok((r1, _)) => {
            let (raw, v) = run(r1, ByteClass::Value);
            match line_rest(v) {
                Err(e) => Err(e),
                Ok((r2, _)) => Ok((r2, Property { key, value: trim_str(raw) })),
            }
        },
    }
}

proof fn lemma_push_model<T: Model>(v: Seq<T>, x: T)
    ensures
        v.push(x).map_values(|y: T| y.model()) == v.map_values(|y: T| y.model()).push(x.model()),
{
    assert(v.push(x).map_values(|y: T| y.model()) =~= v.map_values(|y: T| y.model()).push(
        x.model(),
    ));
}

/// The properties of a block; see `spec_properties`.
fn property_run<'a>(i: &'a str) -> (r: (&'a str, Vec<Property<'a>>))
    ensures
        (r.0.spec_bytes(), r.1.model()) == spec_properties(i.spec_bytes()),
{
    let mut rest = i;
    let mut props: Vec<Property<'a>> = Vec::new();
    proof {
        assert(props.model() + spec_properties(rest.spec_bytes()).1 =~= spec_properties(
            rest.spec_bytes(),
        ).1);
    }
    loop
        invariant
            spec_properties(i.spec_bytes()) == (
                spec_properties(rest.spec_bytes()).0,
                props.model() + spec_properties(rest.spec_bytes()).1,
            ),
        ensures
            spec_properties(i.spec_bytes()) == (rest.spec_bytes(), props.model()),
        decreases rest.spec_bytes().len(),
    {
        let r1 = skip(rest);
        match property_line(r1) {
            Ok((r2, p)) => {
                let r3 = skip(r2);
                proof {
                    lemma_skip_suffix(rest.spec_bytes(), false);
                    lemma_property_line_suffix(r1.spec_bytes());
                    lemma_skip_suffix(r2.spec_bytes(), false);
                    lemma_push_model(props@, p);
                    let tail = spec_properties(r3.spec_bytes()).1;
                    assert(props.model().push(p.model()) + tail =~= props.model() + (seq![
                        p.model(),
                    ] + tail));
                }
                props.push(p);
                rest = r3;
            },
            Err(_) => {
                proof {
                    assert(props.model() + seq![] =~= props.model());
                }
                break;
            },
        }
    }
    (rest, props)
}

/// The properties of a block; see `property_run`. Never fails.
pub fn properties<'a>(i: &'a str) -> (r: Result<(&'a str, Vec<Property<'a>>), ParseError>)
    ensures
        outcome(r) == Outcome::<Seq<PropertyView>>::Ok(spec_properties(i.spec_bytes())),
{
    Ok(property_run(i))
}

/// A host block: blank and comment lines, a host header, its properties, and
/// the blank and comment lines after them.
pub fn host_block<'a>(i: &'a str) -> (r: Result<(&'a str, Host<'a>), ParseError>)
    ensures
        outcome(r) == spec_host_block(i.spec_bytes()),
{
    reveal(spec_host_block);
    let r0 = skip(i);
    match host_line(r0) {
        Err(e) => Err(e),
        Ok((r1, name)) => {
            let (r2, properties) = property_run(r1);
            Ok((skip(r2), Host { name, properties }))
        },
    }
}

/// Host blocks, as many as follow one another from the start of `i`.
fn host_run<'a>(i: &'a str) -> (r: (&'a str, Vec<Host<'a>>))
    ensures
        (r.0.spec_bytes(), r.1.model()) == spec_hosts(i.spec_bytes()),
{
    let mut rest = i;
    let mut found: Vec<Host<'a>> = Vec::new();
    proof {
        assert(found.model() + spec_hosts(rest.spec_bytes()).1 =~= spec_hosts(
            rest.spec_bytes(),
        ).1);
    }
    loop
        invariant
            spec_hosts(i.spec_bytes()) == (
                spec_hosts(rest.spec_bytes()).0,
                found.model() + spec_hosts(rest.spec_bytes()).1,
            ),
        ensures
            spec_hosts(i.spec_bytes()) == (rest.spec_bytes(), found.model()),
        decreases rest.spec_bytes().len(),
    {
        match host_block(rest) {
            Ok((r, h)) => {
                proof {
                    lemma_host_block_suffix(rest.spec_bytes());
                    lemma_push_model(found@, h);
                    let tail = spec_hosts(r.spec_bytes()).1;
                    assert(found.model().push(h.model()) + tail =~= found.model() + (seq![
                        h.model(),
                    ] + tail));
                }
                found.push(h);
                rest = r;
            },
            Err(_) => {
                proof {
                    assert(found.model() + seq![] =~= found.model());
                }
                break;
            },
        }
    }
    (rest, found)
}

/// The document: every host block that can be read from the start of `i`,
/// in file order, and what is left unread. Never fails: text that is not a
/// host block ends the document and is handed back.
pub fn hosts<'a>(i: &'a str) -> (r: Result<(&'a str, Vec<Host<'a>>), ParseError>)
    ensures
        outcome(r) == Outcome::<Seq<HostView>>::Ok(spec_hosts(i.spec_bytes())),
{
    Ok(host_run(i))
}

/// The whole configuration: its hosts, where nothing but blank and comment
/// lines follows the last host block; `Err(())` where other text is left.
pub fn parse<'a>(data: &'a str) -> (r: Result<Vec<Host<'a>>, ()>)
    ensures
        r is Ok <==> spec_skip(spec_hosts(data.spec_bytes()).0).len() == 0,
        r is Ok ==> r->Ok_0.model() == spec_hosts(data.spec_bytes()).1,
{
    let (rest, found) = host_run(data);
    if byte_len(skip(rest)) == 0 {
        Ok(found)
    } else {
        Err(())
    }
}

} // verus!
