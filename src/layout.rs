//! Documents seen as lists of lines: each line is read on its own, whatever
//! follows it.
use vstd::prelude::*;

use crate::grammar::{
    is_suffix, lemma_header_is_not_property, skip_rest, spec_host_block, spec_host_line, spec_hosts,
    spec_line_end, spec_line_rest, spec_properties, spec_property_line, spec_separator, spec_skip,
    spec_token, starts_with_host, HostView, Outcome, PropertyView,
};
use crate::prefix::{lemma_host_line_no_lf, lemma_no_lf_suffix, lemma_property_line_no_lf, no_lf};
use crate::text::{
    all_in, continues, in_class, lemma_continues_extend, lemma_span_at, lemma_span_rest, span_len,
    span_rest, ByteClass, CR, EQUALS, HASH, LF,
};

verus! {

/// `l` is one whole line: it ends with a line feed, its only one.
pub open spec fn one_line(l: Seq<u8>) -> bool {
    &&& l.len() > 0
    &&& l.last() == LF
    &&& forall|i: int| 0 <= i < l.len() - 1 ==> #[trigger] l[i] != LF
}

/// An outcome on a line, moved in front of the text `x` that follows it.
pub open spec fn shift<V>(o: Outcome<V>, x: Seq<u8>) -> Outcome<V> {
    match o {
        Ok((r, v)) => Ok((r + x, v)),
        Err(e) => Err(e),
    }
}

/// An outcome that, when it matched, read its whole line.
pub open spec fn reads_line<V>(o: Outcome<V>) -> bool {
    o is Ok ==> o->Ok_0.0.len() == 0
}

pub proof fn lemma_one_line_skip(l: Seq<u8>, k: int)
    requires
        one_line(l),
        0 <= k < l.len(),
    ensures
        one_line(l.skip(k)),
{
    let t = l.skip(k);
    assert(t.last() == l.last());
    assert forall|i: int| 0 <= i < t.len() - 1 implies #[trigger] t[i] != LF by {
        assert(t[i] == l[i + k]);
    }
}

/// A run of a class without line feeds stops inside the line.
pub proof fn lemma_span_line(q: Seq<u8>, x: Seq<u8>, c: ByteClass)
    requires
        one_line(q),
        !in_class(c, LF),
    ensures
        span_rest(q + x, c) == span_rest(q, c) + x,
        span_len(q + x, c) == span_len(q, c),
        (q + x).take(span_len(q, c)) == q.take(span_len(q, c)),
        one_line(span_rest(q, c)),
        is_suffix(span_rest(q, c), q),
{
    lemma_span_rest(q, c);
    let n = span_len(q, c);
    if n == q.len() {
        let l = q.len() - 1;
        assert(q.skip(l)[0] == LF);
        assert(continues(c, q.skip(l)));
    }
    let w = q + x;
    assert forall|k: int| 0 <= k < n implies continues(c, #[trigger] w.skip(k)) by {
        lemma_continues_extend(q, x, k, c);
    }
    lemma_continues_extend(q, x, n, c);
    assert(w.skip(n) =~= q.skip(n) + x);
    lemma_span_at(w, c, n);
    assert(w.take(n) =~= q.take(n));
    lemma_one_line_skip(q, n);
}

pub proof fn lemma_line_end_line(q: Seq<u8>, x: Seq<u8>)
    requires
        one_line(q),
    ensures
        spec_line_end(q + x) == shift(spec_line_end(q), x),
        reads_line(spec_line_end(q)),
{
    let s = q + x;
    assert(s[0] == q[0]);
    if q[0] == LF {
        assert(q.len() == 1);
        assert(s.drop_first() =~= q.drop_first() + x);
    } else if q[0] == CR {
        assert(q.len() >= 2);
        assert(s[1] == q[1]);
        if q[1] == LF {
            assert(q.len() == 2);
            assert(s.skip(2) =~= q.skip(2) + x);
        }
    }
}

pub proof fn lemma_line_rest_line(q: Seq<u8>, x: Seq<u8>)
    requires
        one_line(q),
    ensures
        spec_line_rest(q + x) == shift(spec_line_rest(q), x),
        reads_line(spec_line_rest(q)),
{
    lemma_span_line(q, x, ByteClass::Blank);
    let r = span_rest(q, ByteClass::Blank);
    assert((r + x)[0] == r[0]);
    if r[0] == HASH {
        assert(r.len() >= 2);
        lemma_one_line_skip(r, 1);
        assert(r.skip(1) =~= r.drop_first());
        assert((r + x).drop_first() =~= r.drop_first() + x);
        lemma_span_line(r.drop_first(), x, ByteClass::LineBody);
        lemma_line_end_line(span_rest(r.drop_first(), ByteClass::LineBody), x);
    } else {
        lemma_line_end_line(r, x);
    }
}

pub proof fn lemma_separator_line(q: Seq<u8>, x: Seq<u8>)
    requires
        one_line(q),
    ensures
        spec_separator(q + x) == shift(spec_separator(q), x),
        spec_separator(q) is Ok ==> one_line(spec_separator(q)->Ok_0.0),
{
    lemma_span_line(q, x, ByteClass::Blank);
    let r = span_rest(q, ByteClass::Blank);
    assert((r + x)[0] == r[0]);
    if r[0] == EQUALS {
        assert(r.len() >= 2);
        lemma_one_line_skip(r, 1);
        assert(r.skip(1) =~= r.drop_first());
        assert((r + x).drop_first() =~= r.drop_first() + x);
        lemma_span_line(r.drop_first(), x, ByteClass::Blank);
    }
}

pub proof fn lemma_token_line(q: Seq<u8>, x: Seq<u8>)
    requires
        one_line(q),
    ensures
        spec_token(q + x) == shift(spec_token(q), x),
        spec_token(q) is Ok ==> one_line(spec_token(q)->Ok_0.0),
{
    lemma_span_line(q, x, ByteClass::Token);
}

pub proof fn lemma_keyword_line(q: Seq<u8>, x: Seq<u8>)
    requires
        one_line(q),
    ensures
        starts_with_host(q + x) == starts_with_host(q),
        starts_with_host(q) ==> (q + x).skip(4) == q.skip(4) + x && one_line(q.skip(4)),
{
    let s = q + x;
    if q.len() >= 4 {
        assert(s[0] == q[0] && s[1] == q[1] && s[2] == q[2] && s[3] == q[3]);
        if starts_with_host(q) {
            assert(q[3] != LF);
            assert(q.len() >= 5);
            assert(s.skip(4) =~= q.skip(4) + x);
            lemma_one_line_skip(q, 4);
        }
    } else {
        let k = q.len() - 1;
        assert(s[k] == LF);
    }
}

/// A host header is read from its own line alone.
pub proof fn lemma_host_line_line(q: Seq<u8>, x: Seq<u8>)
    requires
        one_line(q),
    ensures
        spec_host_line(q + x) == shift(spec_host_line(q), x),
        reads_line(spec_host_line(q)),
{
    lemma_span_line(q, x, ByteClass::Blank);
    let r0 = span_rest(q, ByteClass::Blank);
    lemma_keyword_line(r0, x);
    if starts_with_host(r0) {
        let k = r0.skip(4);
        lemma_separator_line(k, x);
        if spec_separator(k) is Ok {
            let r1 = spec_separator(k)->Ok_0.0;
            lemma_token_line(r1, x);
            if spec_token(r1) is Ok {
                lemma_line_rest_line(spec_token(r1)->Ok_0.0, x);
            }
        }
    }
}

/// A property line is read from its own line alone.
pub proof fn lemma_property_line_line(q: Seq<u8>, x: Seq<u8>)
    requires
        one_line(q),
    ensures
        spec_property_line(q + x) == shift(spec_property_line(q), x),
        reads_line(spec_property_line(q)),
{
    lemma_host_line_line(q, x);
    lemma_span_line(q, x, ByteClass::Blank);
    let r0 = span_rest(q, ByteClass::Blank);
    lemma_span_line(r0, x, ByteClass::Key);
    let k = span_rest(r0, ByteClass::Key);
    lemma_separator_line(k, x);
    if spec_separator(k) is Ok {
        let r1 = spec_separator(k)->Ok_0.0;
        lemma_span_line(r1, x, ByteClass::Value);
        lemma_line_rest_line(span_rest(r1, ByteClass::Value), x);
    }
}

/// `l` is a whole line: it ends with its only line feed, or it is a last
/// line that the end of the input ends, with no line feed at all.
pub open spec fn line_shape(l: Seq<u8>) -> bool {
    one_line(l) || (l.len() > 0 && no_lf(l))
}

/// Every line of `ls` but the last ends with a line feed.
pub open spec fn lines_shaped(ls: Seq<Seq<u8>>) -> bool {
    forall|i: int| 0 <= i < ls.len() - 1 ==> one_line(#[trigger] ls[i])
}

/// A line that a host header reads whole.
pub open spec fn is_header_line(l: Seq<u8>) -> bool {
    line_shape(l) && spec_host_line(l) is Ok
}

/// A line that a property reads whole.
pub open spec fn is_property_line(l: Seq<u8>) -> bool {
    line_shape(l) && spec_property_line(l) is Ok
}

/// A blank line or a comment line: one with nothing but whitespace and a
/// comment on it.
pub open spec fn is_filler_line(l: Seq<u8>) -> bool {
    line_shape(l) && spec_skip(l).len() == 0
}

/// The two line parsers read a whole line whatever follows it; a last line
/// with no line feed is followed by nothing.
pub proof fn lemma_line_read(l: Seq<u8>, y: Seq<u8>)
    requires
        line_shape(l),
        y.len() > 0 ==> one_line(l),
    ensures
        spec_host_line(l + y) == shift(spec_host_line(l), y),
        reads_line(spec_host_line(l)),
        spec_property_line(l + y) == shift(spec_property_line(l), y),
        reads_line(spec_property_line(l)),
{
    if one_line(l) {
        lemma_host_line_line(l, y);
        lemma_property_line_line(l, y);
    } else {
        assert(l + y =~= l);
        if spec_host_line(l) is Ok {
            lemma_host_line_no_lf(l);
            assert(spec_host_line(l)->Ok_0.0 + y =~= spec_host_line(l)->Ok_0.0);
        }
        if spec_property_line(l) is Ok {
            lemma_property_line_no_lf(l);
            assert(spec_property_line(l)->Ok_0.0 + y =~= spec_property_line(l)->Ok_0.0);
        }
    }
}

/// A line of a well-formed file: a host header, a property, or a blank or
/// comment line.
pub open spec fn is_config_line(l: Seq<u8>) -> bool {
    is_header_line(l) || is_property_line(l) || is_filler_line(l)
}

/// The text of a list of lines.
pub open spec fn join_lines(ls: Seq<Seq<u8>>) -> Seq<u8>
    decreases ls.len(),
{
    if ls.len() == 0 {
        Seq::empty()
    } else {
        ls[0] + join_lines(ls.drop_first())
    }
}

/// The number of host headers among `ls`.
pub open spec fn count_headers(ls: Seq<Seq<u8>>) -> nat
    decreases ls.len(),
{
    if ls.len() == 0 {
        0
    } else {
        (if is_header_line(ls[0]) {
            1nat
        } else {
            0nat
        }) + count_headers(ls.drop_first())
    }
}

/// The properties that the property lines of `ls` give, in file order, up
/// to its first host header.
pub open spec fn line_properties(ls: Seq<Seq<u8>>) -> Seq<PropertyView>
    decreases ls.len(),
{
    if ls.len() == 0 || is_header_line(ls[0]) {
        Seq::empty()
    } else if is_property_line(ls[0]) {
        seq![spec_property_line(ls[0])->Ok_0.1] + line_properties(ls.drop_first())
    } else {
        line_properties(ls.drop_first())
    }
}

/// The hosts that the lines describe: one per header line, in file order,
/// each with the properties of the lines up to the next header.
pub open spec fn line_hosts(ls: Seq<Seq<u8>>) -> Seq<HostView>
    decreases ls.len(),
{
    if ls.len() == 0 {
        Seq::empty()
    } else if is_header_line(ls[0]) {
        seq![(spec_host_line(ls[0])->Ok_0.1, line_properties(ls.drop_first()))] + line_hosts(
            ls.drop_first(),
        )
    } else {
        line_hosts(ls.drop_first())
    }
}

pub proof fn lemma_line_hosts_len(ls: Seq<Seq<u8>>)
    ensures
        line_hosts(ls).len() == count_headers(ls),
    decreases ls.len(),
{
    if ls.len() > 0 {
        lemma_line_hosts_len(ls.drop_first());
    }
}

/// Lines in front of the first header describe no host.
pub proof fn lemma_line_hosts_skip(ls: Seq<Seq<u8>>, j: int)
    requires
        0 <= j <= ls.len(),
        forall|i: int| 0 <= i < j ==> !is_header_line(#[trigger] ls[i]),
    ensures
        line_hosts(ls) == line_hosts(ls.skip(j)),
    decreases j,
{
    if j == 0 {
        assert(ls.skip(0) =~= ls);
    } else {
        let t = ls.drop_first();
        assert(!is_header_line(ls[0]));
        assert forall|i: int| 0 <= i < j - 1 implies !is_header_line(#[trigger] t[i]) by {
            assert(t[i] == ls[i + 1]);
        }
        lemma_line_hosts_skip(t, j - 1);
        assert(t.skip(j - 1) =~= ls.skip(j));
    }
}

/// The index of the first host header of `ls`, or its length if it has none.
pub open spec fn first_header(ls: Seq<Seq<u8>>) -> nat
    decreases ls.len(),
{
    if ls.len() == 0 || is_header_line(ls[0]) {
        0
    } else {
        1 + first_header(ls.drop_first())
    }
}

/// Leading whitespace is left alone by the two line parsers, which skip it.
pub proof fn lemma_line_unindented(l: Seq<u8>)
    requires
        line_shape(l),
        spec_host_line(l) is Ok || spec_property_line(l) is Ok,
    ensures
        spec_host_line(span_rest(l, ByteClass::Blank)) == spec_host_line(l),
        spec_property_line(span_rest(l, ByteClass::Blank)) == spec_property_line(l),
        span_rest(l, ByteClass::Blank).len() > 0,
        line_shape(span_rest(l, ByteClass::Blank)),
        one_line(l) ==> one_line(span_rest(l, ByteClass::Blank)),
{
    let r = span_rest(l, ByteClass::Blank);
    lemma_span_rest(l, ByteClass::Blank);
    assert(span_rest(r, ByteClass::Blank) == r);
    if spec_host_line(l) is Ok {
        assert(starts_with_host(r));
    } else if span_len(r, ByteClass::Key) == 0 {
        assert(spec_property_line(l) is Err);
    }
    if one_line(l) {
        lemma_span_line(l, Seq::empty(), ByteClass::Blank);
    } else {
        assert(is_suffix(r, l));
        lemma_no_lf_suffix(r, l);
    }
}

/// What the skipper leaves is empty or starts with text to read.
pub proof fn lemma_skip_stops(s: Seq<u8>, in_comment: bool)
    ensures
        skip_rest(s, in_comment).len() > 0 ==> !in_class(ByteClass::Space, skip_rest(s, in_comment)[0])
            && skip_rest(s, in_comment)[0] != HASH,
    decreases s.len(),
{
    if s.len() > 0 {
        lemma_skip_stops(s.drop_first(), true);
        lemma_skip_stops(s.drop_first(), false);
    }
}

pub proof fn lemma_skip_twice(s: Seq<u8>)
    ensures
        spec_skip(spec_skip(s)) == spec_skip(s),
{
    lemma_skip_stops(s, false);
}

/// Text that the skipper reads whole up to a final line feed is skipped
/// whatever follows it.
pub proof fn lemma_skip_lines(f: Seq<u8>, x: Seq<u8>, in_comment: bool)
    requires
        f.len() > 0,
        f.last() == LF,
        skip_rest(f, in_comment).len() == 0,
    ensures
        skip_rest(f + x, in_comment) == skip_rest(x, false),
    decreases f.len(),
{
    let s = f + x;
    assert(s[0] == f[0]);
    assert(s.drop_first() =~= f.drop_first() + x);
    let next = if in_comment && f[0] != CR && f[0] != LF {
        true
    } else if f[0] == 0x20 || f[0] == 0x09 || f[0] == CR || f[0] == LF {
        false
    } else {
        true
    };
    if !(in_comment && f[0] != CR && f[0] != LF) && !(f[0] == 0x20 || f[0] == 0x09 || f[0] == CR
        || f[0] == LF) && f[0] != HASH {
        assert(skip_rest(f, in_comment) == f);
    }
    assert(skip_rest(f, in_comment) == skip_rest(f.drop_first(), next));
    if f.len() == 1 {
        assert(f.drop_first() + x =~= x);
        assert(f[0] == LF);
    } else {
        assert(f.drop_first().last() == f.last());
        lemma_skip_lines(f.drop_first(), x, next);
    }
}

pub proof fn lemma_skip_blanks(b: Seq<u8>, y: Seq<u8>)
    requires
        all_in(b, ByteClass::Blank),
        y.len() > 0,
        !in_class(ByteClass::Space, y[0]),
        y[0] != HASH,
    ensures
        skip_rest(b + y, false) == y,
    decreases b.len(),
{
    let s = b + y;
    if b.len() == 0 {
        assert(s =~= y);
    } else {
        assert(s[0] == b[0]);
        assert(in_class(ByteClass::Blank, b[0]));
        assert(s.drop_first() =~= b.drop_first() + y);
        assert(all_in(b.drop_first(), ByteClass::Blank)) by {
            assert forall|i: int| 0 <= i < b.drop_first().len() implies in_class(
                ByteClass::Blank,
                #[trigger] b.drop_first()[i],
            ) by {
                assert(b.drop_first()[i] == b[i + 1]);
            }
        }
        lemma_skip_blanks(b.drop_first(), y);
    }
}

/// The skipper stops on a header or property line after its indentation.
pub proof fn lemma_skip_to_line(l: Seq<u8>, x: Seq<u8>)
    requires
        is_header_line(l) || is_property_line(l),
    ensures
        spec_skip(l + x) == span_rest(l, ByteClass::Blank) + x,
{
    lemma_span_rest(l, ByteClass::Blank);
    let n = span_len(l, ByteClass::Blank);
    let r = span_rest(l, ByteClass::Blank);
    lemma_line_unindented(l);
    if is_header_line(l) {
        assert(starts_with_host(r));
    } else {
        if span_len(r, ByteClass::Key) == 0 {
            assert(spec_property_line(l) is Err);
        }
        lemma_span_rest(r, ByteClass::Key);
        assert(in_class(ByteClass::Key, r[0]));
    }
    let b = l.take(n);
    assert(all_in(b, ByteClass::Blank)) by {
        assert forall|i: int| 0 <= i < b.len() implies in_class(ByteClass::Blank, #[trigger] b[i]) by {
            assert(b[i] == l[i]);
        }
    }
    assert(l + x =~= b + (r + x));
    assert((r + x)[0] == r[0]);
    lemma_skip_blanks(b, r + x);
}

pub proof fn lemma_join_split(ls: Seq<Seq<u8>>, i: int)
    requires
        0 <= i <= ls.len(),
    ensures
        join_lines(ls) == join_lines(ls.take(i)) + join_lines(ls.skip(i)),
        count_headers(ls) == count_headers(ls.take(i)) + count_headers(ls.skip(i)),
    decreases i,
{
    if i == 0 {
        assert(ls.skip(0) =~= ls);
        assert(join_lines(ls.take(0)) + join_lines(ls) =~= join_lines(ls));
    } else {
        let t = ls.drop_first();
        lemma_join_split(t, i - 1);
        assert(ls.take(i).drop_first() =~= t.take(i - 1));
        assert(ls.take(i)[0] == ls[0]);
        assert(t.skip(i - 1) =~= ls.skip(i));
        assert(join_lines(ls) =~= join_lines(ls.take(i)) + join_lines(ls.skip(i)));
    }
}

pub proof fn lemma_first_header(ls: Seq<Seq<u8>>)
    ensures
        first_header(ls) <= ls.len(),
        forall|i: int| 0 <= i < first_header(ls) ==> !is_header_line(#[trigger] ls[i]),
        first_header(ls) < ls.len() ==> is_header_line(ls[first_header(ls) as int]),
        count_headers(ls.take(first_header(ls) as int)) == 0,
    decreases ls.len(),
{
    if ls.len() > 0 && !is_header_line(ls[0]) {
        let t = ls.drop_first();
        lemma_first_header(t);
        assert forall|i: int| 0 <= i < first_header(ls) implies !is_header_line(#[trigger] ls[i]) by {
            if i > 0 {
                assert(ls[i] == t[i - 1]);
            }
        }
        assert(ls.take(first_header(ls) as int).drop_first() =~= t.take(first_header(t) as int));
    } else {
        assert(ls.take(0).len() == 0);
    }
}

/// Blank and comment lines are skipped whatever follows them.
pub proof fn lemma_skip_filler_lines(ls: Seq<Seq<u8>>, y: Seq<u8>)
    requires
        forall|i: int| 0 <= i < ls.len() ==> is_filler_line(#[trigger] ls[i]),
        lines_shaped(ls),
        y.len() > 0 && ls.len() > 0 ==> one_line(ls.last()),
    ensures
        spec_skip(join_lines(ls) + y) == spec_skip(y),
    decreases ls.len(),
{
    if ls.len() == 0 {
        assert(join_lines(ls) + y =~= y);
    } else {
        let t = ls.drop_first();
        assert(is_filler_line(ls[0]));
        assert forall|i: int| 0 <= i < t.len() implies is_filler_line(#[trigger] t[i]) by {
            assert(t[i] == ls[i + 1]);
        }
        assert forall|i: int| 0 <= i < t.len() - 1 implies one_line(#[trigger] t[i]) by {
            assert(t[i] == ls[i + 1]);
        }
        if t.len() > 0 {
            assert(t.last() == ls.last());
        }
        lemma_skip_filler_lines(t, y);
        assert(join_lines(ls) + y =~= ls[0] + (join_lines(t) + y));
        if one_line(ls[0]) {
            lemma_skip_lines(ls[0], join_lines(t) + y, false);
        } else {
            assert(t.len() == 0 && y.len() == 0);
            assert(join_lines(t) + y =~= Seq::<u8>::empty());
            assert(ls[0] + (join_lines(t) + y) =~= ls[0]);
        }
    }
}

proof fn lemma_properties_after_skip(y: Seq<u8>)
    ensures
        spec_skip(spec_properties(spec_skip(y)).0) == spec_skip(spec_properties(y).0),
        spec_properties(spec_skip(y)).1 == spec_properties(y).1,
{
    lemma_skip_twice(y);
}

proof fn lemma_no_property_at_header(l: Seq<u8>, y: Seq<u8>)
    requires
        is_header_line(l),
        y.len() > 0 ==> one_line(l),
    ensures
        spec_properties(l + y) == (l + y, Seq::<(Seq<u8>, Seq<u8>)>::empty()),
{
    lemma_skip_to_line(l, y);
    lemma_line_unindented(l);
    lemma_header_is_not_property(l);
    lemma_line_read(span_rest(l, ByteClass::Blank), y);
}

/// The properties of a block, read line by line: what they leave is, past
/// blank and comment lines, the next host header or the end of the file.
proof fn lemma_properties_lines(ls: Seq<Seq<u8>>)
    requires
        forall|i: int| 0 <= i < ls.len() ==> is_config_line(#[trigger] ls[i]),
        lines_shaped(ls),
    ensures
        spec_skip(spec_properties(join_lines(ls)).0) == spec_skip(
            join_lines(ls.skip(first_header(ls) as int)),
        ),
        spec_properties(join_lines(ls)).1 == line_properties(ls),
    decreases ls.len(),
{
    let x = join_lines(ls);
    if ls.len() == 0 {
        assert(ls.skip(0) =~= ls);
        assert(spec_host_line(x) is Err);
        assert(spec_property_line(x) is Err);
    } else if is_header_line(ls[0]) {
        assert(ls.skip(0) =~= ls);
        if ls.len() > 1 {
            assert(one_line(ls[0]));
        } else {
            assert(join_lines(ls.drop_first()).len() == 0);
        }
        lemma_no_property_at_header(ls[0], join_lines(ls.drop_first()));
    } else {
        let t = ls.drop_first();
        let y = join_lines(t);
        assert forall|i: int| 0 <= i < t.len() implies is_config_line(#[trigger] t[i]) by {
            assert(t[i] == ls[i + 1]);
        }
        assert forall|i: int| 0 <= i < t.len() - 1 implies one_line(#[trigger] t[i]) by {
            assert(t[i] == ls[i + 1]);
        }
        if t.len() > 0 {
            assert(one_line(ls[0]));
        } else {
            assert(y.len() == 0);
        }
        lemma_properties_lines(t);
        lemma_first_header(t);
        assert(first_header(ls) == 1 + first_header(t));
        assert(ls.skip(first_header(ls) as int) =~= t.skip(first_header(t) as int));
        let l = ls[0];
        if is_property_line(l) {
            lemma_skip_to_line(l, y);
            lemma_line_unindented(l);
            lemma_line_read(span_rest(l, ByteClass::Blank), y);
            assert(Seq::<u8>::empty() + y =~= y);
            lemma_properties_after_skip(y);
            assert(spec_property_line(spec_skip(x)) == Outcome::<PropertyView>::Ok(
                (y, spec_property_line(l)->Ok_0.1),
            ));
        } else {
            assert(is_filler_line(l));
            if one_line(l) {
                lemma_skip_lines(l, y, false);
            } else {
                assert(x =~= l);
            }
        }
    }
}

/// A file of host blocks, line by line, with blank and comment lines only in
/// front of its first header.
proof fn lemma_hosts_lines(ls: Seq<Seq<u8>>)
    requires
        forall|i: int| 0 <= i < ls.len() ==> is_config_line(#[trigger] ls[i]),
        forall|i: int| 0 <= i < first_header(ls) ==> is_filler_line(#[trigger] ls[i]),
        lines_shaped(ls),
    ensures
        spec_skip(spec_hosts(join_lines(ls)).0).len() == 0,
        spec_hosts(join_lines(ls)).1 == line_hosts(ls),
        count_headers(ls) > 0 ==> spec_hosts(join_lines(ls)).0.len() == 0,
    decreases ls.len(),
{
    reveal(spec_host_block);
    let x = join_lines(ls);
    let j = first_header(ls) as int;
    lemma_first_header(ls);
    lemma_join_split(ls, j);
    let fillers = ls.take(j);
    assert forall|i: int| 0 <= i < fillers.len() implies is_filler_line(#[trigger] fillers[i]) by {
        assert(fillers[i] == ls[i]);
    }
    let rest = ls.skip(j);
    lemma_line_hosts_skip(ls, j);
    assert forall|i: int| 0 <= i < fillers.len() - 1 implies one_line(#[trigger] fillers[i]) by {
        assert(fillers[i] == ls[i]);
    }
    if j == ls.len() {
        assert(rest.len() == 0);
        assert(x =~= join_lines(fillers) + Seq::<u8>::empty());
        lemma_skip_filler_lines(fillers, Seq::<u8>::empty());
        assert(spec_host_line(spec_skip(x)) is Err);
    } else {
        let h = ls[j];
        let t = ls.skip(j + 1);
        let y = join_lines(t);
        assert(rest[0] == h);
        assert(rest.drop_first() =~= t);
        assert(x == join_lines(fillers) + (h + y));
        if fillers.len() > 0 {
            assert(fillers.last() == ls[j - 1]);
        }
        assert((h + y).len() > 0);
        lemma_skip_filler_lines(fillers, h + y);
        lemma_skip_to_line(h, y);
        lemma_line_unindented(h);
        if t.len() > 0 {
            assert(one_line(h));
        } else {
            assert(y.len() == 0);
        }
        lemma_line_read(span_rest(h, ByteClass::Blank), y);
        assert(Seq::<u8>::empty() + y =~= y);
        assert forall|i: int| 0 <= i < t.len() implies is_config_line(#[trigger] t[i]) by {
            assert(t[i] == ls[i + j + 1]);
        }
        assert forall|i: int| 0 <= i < t.len() - 1 implies one_line(#[trigger] t[i]) by {
            assert(t[i] == ls[i + j + 1]);
        }
        lemma_properties_lines(t);
        let k = first_header(t) as int;
        lemma_first_header(t);
        lemma_join_split(t, k);
        let u = t.skip(k);
        assert(count_headers(rest) == 1 + count_headers(t));
        lemma_line_hosts_skip(t, k);
        assert(line_hosts(rest) == seq![(spec_host_line(h)->Ok_0.1, line_properties(t))]
            + line_hosts(t));
        if u.len() == 0 {
            assert(join_lines(u) == Seq::<u8>::empty());
            assert(spec_host_line(Seq::<u8>::empty()) is Err);
            assert(spec_hosts(Seq::<u8>::empty()).1.len() == 0);
        } else {
            let h2 = u[0];
            assert(h2 == t[k]);
            let v = u.drop_first();
            assert(join_lines(u) == h2 + join_lines(v));
            lemma_skip_to_line(h2, join_lines(v));
            lemma_line_unindented(h2);
            let h2u = span_rest(h2, ByteClass::Blank);
            let ls4 = seq![h2u] + v;
            assert(ls4[0] == h2u);
            assert(ls4.drop_first() =~= v);
            assert(join_lines(ls4) == h2u + join_lines(v));
            assert(is_header_line(h2u));
            assert forall|i: int| 0 <= i < ls4.len() implies is_config_line(#[trigger] ls4[i]) by {
                if i > 0 {
                    assert(ls4[i] == v[i - 1]);
                    assert(v[i - 1] == t[i + k]);
                }
            }
            assert forall|i: int| 0 <= i < ls4.len() - 1 implies one_line(#[trigger] ls4[i]) by {
                if i > 0 {
                    assert(ls4[i] == v[i - 1]);
                    assert(v[i - 1] == t[i + k]);
                } else {
                    assert(one_line(t[k]));
                }
            }
            assert(first_header(ls4) == 0);
            assert(count_headers(ls4) == 1 + count_headers(v));
            assert(count_headers(u) == 1 + count_headers(v));
            assert(line_hosts(ls4) == line_hosts(u));
            lemma_hosts_lines(ls4);
        }
    }
}

/// A file made only of host blocks is read whole, in file order. Its lines
/// are host headers, properties, and blank or comment lines, each as the line
/// grammar reads it (with any indentation, `=` separators, comments and
/// `\r\n` or `\n` ends); every line but the last ends with a line feed, and
/// the last may end at the end of the input; no property comes before the
/// first header.
/// Then the whole-file parse succeeds; one host comes back per header line,
/// in the order of the headers, each with the properties of the lines that
/// follow its header, in the order of those lines; and where there is any
/// header, nothing is left unread.
pub proof fn lemma_blocks_read_whole(ls: Seq<Seq<u8>>)
    requires
        forall|i: int| 0 <= i < ls.len() ==> is_config_line(#[trigger] ls[i]),
        forall|i: int| 0 <= i < first_header(ls) ==> !is_property_line(#[trigger] ls[i]),
        lines_shaped(ls),
    ensures
        spec_skip(spec_hosts(join_lines(ls)).0).len() == 0,
        spec_hosts(join_lines(ls)).1 == line_hosts(ls),
        spec_hosts(join_lines(ls)).1.len() == count_headers(ls),
        count_headers(ls) > 0 ==> spec_hosts(join_lines(ls)).0.len() == 0,
{
    lemma_line_hosts_len(ls);
    lemma_first_header(ls);
    assert forall|i: int| 0 <= i < first_header(ls) implies is_filler_line(#[trigger] ls[i]) by {
        assert(is_config_line(ls[i]));
        assert(!is_property_line(ls[i]));
    }
    lemma_hosts_lines(ls);
}

/// No property line comes before the first host header of `ls`.
pub open spec fn no_orphan(ls: Seq<Seq<u8>>) -> bool
    decreases ls.len(),
{
    if ls.len() == 0 || is_header_line(ls[0]) {
        true
    } else if is_property_line(ls[0]) {
        false
    } else {
        no_orphan(ls.drop_first())
    }
}

proof fn lemma_no_orphan(ls: Seq<Seq<u8>>)
    requires
        no_orphan(ls),
    ensures
        forall|i: int| 0 <= i < first_header(ls) ==> !is_property_line(#[trigger] ls[i]),
    decreases ls.len(),
{
    if ls.len() > 0 && !is_header_line(ls[0]) {
        let t = ls.drop_first();
        lemma_no_orphan(t);
        lemma_first_header(ls);
        lemma_first_header(t);
        assert forall|i: int| 0 <= i < first_header(ls) implies !is_property_line(#[trigger] ls[i]) by {
            if i > 0 {
                assert(ls[i] == t[i - 1]);
            }
        }
    }
}

/// `ls` with the line `f` put in at index `i`.
pub open spec fn insert_line(ls: Seq<Seq<u8>>, i: int, f: Seq<u8>) -> Seq<Seq<u8>> {
    ls.take(i) + seq![f] + ls.skip(i)
}

proof fn lemma_filler_is_not_read(f: Seq<u8>)
    requires
        is_filler_line(f),
    ensures
        !is_header_line(f),
        !is_property_line(f),
{
    if is_header_line(f) || is_property_line(f) {
        lemma_skip_to_line(f, Seq::<u8>::empty());
        lemma_line_unindented(f);
        assert(f + Seq::<u8>::empty() =~= f);
    }
}

proof fn lemma_insert_filler(ls: Seq<Seq<u8>>, i: int, f: Seq<u8>)
    requires
        0 <= i <= ls.len(),
        is_filler_line(f),
    ensures
        line_hosts(insert_line(ls, i, f)) == line_hosts(ls),
        line_properties(insert_line(ls, i, f)) == line_properties(ls),
        no_orphan(insert_line(ls, i, f)) == no_orphan(ls),
        count_headers(insert_line(ls, i, f)) == count_headers(ls),
    decreases i,
{
    lemma_filler_is_not_read(f);
    let ls2 = insert_line(ls, i, f);
    if i == 0 {
        assert(ls2[0] == f);
        assert(ls2.drop_first() =~= ls);
    } else {
        let t = ls.drop_first();
        lemma_insert_filler(t, i - 1, f);
        assert(ls2[0] == ls[0]);
        assert(ls2.drop_first() =~= insert_line(t, i - 1, f));
    }
}

/// Blank and comment lines change nothing: a blank or comment line put in
/// anywhere in a file of host blocks leaves the hosts read from it, their
/// order and their properties as they were, and the file still reads whole.
pub proof fn lemma_filler_changes_nothing(ls: Seq<Seq<u8>>, i: int, f: Seq<u8>)
    requires
        forall|k: int| 0 <= k < ls.len() ==> is_config_line(#[trigger] ls[k]),
        no_orphan(ls),
        lines_shaped(ls),
        0 <= i <= ls.len(),
        is_filler_line(f),
        one_line(f),
        i == ls.len() && ls.len() > 0 ==> one_line(ls.last()),
    ensures
        spec_hosts(join_lines(insert_line(ls, i, f))).1 == spec_hosts(join_lines(ls)).1,
        spec_skip(spec_hosts(join_lines(insert_line(ls, i, f))).0).len() == 0,
        spec_skip(spec_hosts(join_lines(ls)).0).len() == 0,
{
    let ls2 = insert_line(ls, i, f);
    lemma_insert_filler(ls, i, f);
    assert(ls2.len() == ls.len() + 1);
    assert forall|k: int| 0 <= k < ls2.len() implies is_config_line(#[trigger] ls2[k]) by {
        if k < i {
            assert(ls2[k] == ls[k]);
        } else if k > i {
            assert(ls2[k] == ls[k - 1]);
        }
    }
    assert forall|k: int| 0 <= k < ls2.len() - 1 implies one_line(#[trigger] ls2[k]) by {
        if k < i {
            assert(ls2[k] == ls[k]);
        } else if k > i {
            assert(ls2[k] == ls[k - 1]);
        }
    }
    lemma_no_orphan(ls);
    lemma_no_orphan(ls2);
    lemma_blocks_read_whole(ls);
    lemma_blocks_read_whole(ls2);
}

} // verus!
