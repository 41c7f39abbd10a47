//! Each step of the grammar looks at most one byte past what it reads: the
//! text after it can be replaced by any text that starts the same way.
use vstd::prelude::*;

use crate::grammar::{
    is_suffix, lemma_header_is_not_property, lemma_host_block_suffix, lemma_host_line_suffix,
    lemma_line_rest_suffix, lemma_properties_suffix, lemma_property_line_suffix,
    lemma_separator_suffix, lemma_skip_suffix, lemma_span_suffix, lemma_suffix_trans, skip_rest,
    spec_host_block, spec_host_line, spec_hosts, spec_line_end, spec_line_rest, spec_properties,
    spec_property_line, spec_separator, spec_skip, spec_token, starts_with_host, HostView, Outcome,
    PropertyView,
};
use crate::laws::lemma_remainder_reads_nothing;
use crate::layout::{lemma_property_line_line, lemma_skip_twice, one_line};
use crate::text::{
    continues, is_blank, is_word_class, lemma_continues_extend, lemma_continues_first,
    lemma_span_at, lemma_span_rest, span_len, span_rest, ByteClass, CR, EQUALS, HASH, LF,
};

verus! {

/// `r2` is empty or starts with the byte `r` starts with.
pub open spec fn same_start(r: Seq<u8>, r2: Seq<u8>) -> bool {
    r2.len() == 0 || (r.len() > 0 && r2[0] == r[0])
}

proof fn lemma_same_start_concat(b: Seq<u8>, r: Seq<u8>, r2: Seq<u8>)
    requires
        same_start(r, r2),
    ensures
        same_start(b + r, b + r2),
{
    if b.len() > 0 {
        assert((b + r)[0] == b[0]);
        assert((b + r2)[0] == b[0]);
    } else {
        assert(b + r =~= r);
        assert(b + r2 =~= r2);
    }
}

/// `m` is `b + r` for the `b` in front of its suffix `r`.
proof fn lemma_split_suffix(m: Seq<u8>, r: Seq<u8>)
    requires
        is_suffix(r, m),
    ensures
        m == m.take(m.len() - r.len()) + r,
{
    assert(m =~= m.take(m.len() - r.len()) + r);
}

pub proof fn lemma_span_tail(p: Seq<u8>, r: Seq<u8>, r2: Seq<u8>, c: ByteClass)
    requires
        span_rest(p + r, c) == r,
        same_start(r, r2),
        is_word_class(c) ==> r.len() == 0 || r[0] < 0x80,
    ensures
        span_rest(p + r2, c) == r2,
        span_len(p + r2, c) == p.len(),
        (p + r2).take(p.len() as int) == p,
        span_len(p + r, c) == p.len(),
{
    let w = p + r;
    let w2 = p + r2;
    lemma_span_rest(w, c);
    assert(w.skip(p.len() as int) =~= r);
    assert(w2.skip(p.len() as int) =~= r2);
    assert forall|k: int| 0 <= k < p.len() implies continues(c, #[trigger] w2.skip(k)) by {
        assert(continues(c, w.skip(k)));
        if is_word_class(c) {
            lemma_continues_extend(p, r, k, c);
            lemma_continues_extend(p, r2, k, c);
        } else {
            assert(w.skip(k)[0] == w2.skip(k)[0]);
        }
    }
    if r2.len() > 0 {
        lemma_continues_first(c, r);
        lemma_continues_first(c, r2);
    }
    lemma_span_at(w2, c, p.len() as int);
    assert(w2.take(p.len() as int) =~= p);
}

pub proof fn lemma_skip_tail(p: Seq<u8>, r: Seq<u8>, r2: Seq<u8>, in_comment: bool)
    requires
        skip_rest(p + r, in_comment) == r,
        same_start(r, r2),
    ensures
        skip_rest(p + r2, in_comment) == r2,
    decreases p.len(),
{
    let w = p + r;
    if p.len() == 0 {
        assert(w =~= r);
        assert(p + r2 =~= r2);
        if r.len() > 0 {
            lemma_skip_suffix(r.drop_first(), true);
            lemma_skip_suffix(r.drop_first(), false);
        }
        if r2.len() > 0 {
            assert(r2[0] == r[0]);
        }
    } else {
        let w2 = p + r2;
        assert(w[0] == p[0]);
        assert(w2[0] == p[0]);
        assert(w.drop_first() =~= p.drop_first() + r);
        assert(w2.drop_first() =~= p.drop_first() + r2);
        let consumed = (in_comment && p[0] != CR && p[0] != LF) || p[0] == 0x20 || p[0] == 0x09
            || p[0] == CR || p[0] == LF || p[0] == HASH;
        if !consumed {
            assert(skip_rest(w, in_comment) == w);
            assert(w.len() > r.len());
        } else {
            let next = if in_comment && p[0] != CR && p[0] != LF {
                true
            } else if p[0] == 0x20 || p[0] == 0x09 || p[0] == CR || p[0] == LF {
                false
            } else {
                true
            };
            assert(skip_rest(w, in_comment) == skip_rest(w.drop_first(), next));
            assert(skip_rest(w2, in_comment) == skip_rest(w2.drop_first(), next));
            lemma_skip_tail(p.drop_first(), r, r2, next);
        }
    }
}

pub proof fn lemma_line_end_tail(p: Seq<u8>, r: Seq<u8>, r2: Seq<u8>)
    requires
        spec_line_end(p + r) == Outcome::<()>::Ok((r, ())),
        same_start(r, r2),
    ensures
        spec_line_end(p + r2) == Outcome::<()>::Ok((r2, ())),
{
    let w = p + r;
    let w2 = p + r2;
    if w.len() == 0 {
        assert(p.len() == 0);
        assert(r2.len() == 0);
        assert(w2.len() == 0);
    } else if w[0] == LF {
        assert(w.drop_first().len() == r.len());
        assert(p.len() == 1);
        assert(w2[0] == p[0]);
        assert(w2.drop_first() =~= r2);
    } else {
        assert(p.len() == 2);
        assert(w2[0] == p[0] && w2[1] == p[1]);
        assert(w2.skip(2) =~= r2);
    }
}

#[verifier::spinoff_prover]
#[verifier::rlimit(100)]
pub proof fn lemma_separator_tail(p: Seq<u8>, r: Seq<u8>, r2: Seq<u8>)
    requires
        spec_separator(p + r) == Outcome::<()>::Ok((r, ())),
        same_start(r, r2),
    ensures
        spec_separator(p + r2) == Outcome::<()>::Ok((r2, ())),
{
    let w = p + r;
    let m = span_rest(w, ByteClass::Blank);
    lemma_span_suffix(w, ByteClass::Blank);
    lemma_separator_suffix(w);
    if m.len() > 0 && m[0] == EQUALS {
        let t = m.drop_first();
        assert(is_suffix(t, m)) by {
            assert(m.skip(1) =~= t);
        }
        lemma_span_suffix(t, ByteClass::Blank);
        assert(is_suffix(r, t));
        lemma_split_suffix(t, r);
        let b = t.take(t.len() - r.len());
        let bm = seq![EQUALS] + b;
        assert(m =~= bm + r);
        lemma_split_suffix(w, m);
        let a = w.take(w.len() - m.len());
        assert(p =~= a + bm);
        assert(w =~= a + (bm + r));
        lemma_same_start_concat(bm, r, r2);
        lemma_span_tail(a, bm + r, bm + r2, ByteClass::Blank);
        assert(p + r2 =~= a + (bm + r2));
        assert((bm + r2)[0] == EQUALS);
        assert((bm + r2).drop_first() =~= b + r2);
        assert(t =~= b + r);
        lemma_span_tail(b, r, r2, ByteClass::Blank);
    } else {
        assert(m == r);
        lemma_span_tail(p, r, r2, ByteClass::Blank);
        if r2.len() > 0 {
            assert(r2[0] == r[0]);
        }
        assert(p.len() > 0);
    }
}

/// Text that ends a line starts with an ASCII byte.
proof fn lemma_line_rest_ascii(t: Seq<u8>)
    requires
        spec_line_rest(t) is Ok,
        t.len() > 0,
    ensures
        t[0] < 0x80,
{
    lemma_span_rest(t, ByteClass::Blank);
    if !is_blank(t[0]) {
        assert(t.skip(0) =~= t);
        assert(span_rest(t, ByteClass::Blank) == t);
    }
}

pub proof fn lemma_token_tail(p: Seq<u8>, r: Seq<u8>, r2: Seq<u8>)
    requires
        spec_token(p + r) is Ok,
        spec_token(p + r)->Ok_0.0 == r,
        same_start(r, r2),
        r.len() == 0 || r[0] < 0x80,
    ensures
        spec_token(p + r)->Ok_0.1 == p,
        spec_token(p + r2) == Outcome::<Seq<u8>>::Ok((r2, p)),
{
    lemma_span_tail(p, r, r2, ByteClass::Token);
}

#[verifier::rlimit(50)]
pub proof fn lemma_line_rest_tail(p: Seq<u8>, r: Seq<u8>, r2: Seq<u8>)
    requires
        spec_line_rest(p + r) == Outcome::<()>::Ok((r, ())),
        same_start(r, r2),
    ensures
        spec_line_rest(p + r2) == Outcome::<()>::Ok((r2, ())),
{
    let w = p + r;
    let m = span_rest(w, ByteClass::Blank);
    lemma_span_suffix(w, ByteClass::Blank);
    lemma_line_rest_suffix(w);
    let q = if m.len() > 0 && m[0] == HASH {
        span_rest(m.drop_first(), ByteClass::LineBody)
    } else {
        m
    };
    assert(spec_line_end(q) == Outcome::<()>::Ok((r, ())));
    if m.len() > 0 && m[0] == HASH {
        let t = m.drop_first();
        assert(is_suffix(t, m)) by {
            assert(m.skip(1) =~= t);
        }
        lemma_span_suffix(t, ByteClass::LineBody);
        lemma_suffix_trans(q, t, m);
    } else {
        assert(m.skip(0) =~= m);
    }
    assert(is_suffix(q, m));
    assert(is_suffix(r, q)) by {
        if q.len() == 0 {
            assert(q.skip(0) =~= r);
        } else if q[0] == LF {
            assert(q.skip(1) =~= r);
        } else {
            assert(q.skip(2) =~= r);
        }
    }
    lemma_split_suffix(q, r);
    let e = q.take(q.len() - r.len());
    lemma_line_end_tail(e, r, r2);
    lemma_split_suffix(w, m);
    let a = w.take(w.len() - m.len());
    if m.len() > 0 && m[0] == HASH {
        let t = m.drop_first();
        lemma_suffix_trans(q, t, m);
        lemma_split_suffix(t, q);
        let body = t.take(t.len() - q.len());
        let bm = seq![HASH] + body + e;
        assert(m =~= bm + r);
        assert(p =~= a + bm);
        lemma_same_start_concat(bm, r, r2);
        lemma_span_tail(a, bm + r, bm + r2, ByteClass::Blank);
        assert(p + r2 =~= a + (bm + r2));
        assert((bm + r2)[0] == HASH);
        assert((bm + r2).drop_first() =~= body + (e + r2));
        assert(t =~= body + (e + r));
        lemma_same_start_concat(e, r, r2);
        lemma_span_tail(body, e + r, e + r2, ByteClass::LineBody);
    } else {
        assert(m =~= e + r);
        assert(p =~= a + e);
        lemma_same_start_concat(e, r, r2);
        lemma_span_tail(a, e + r, e + r2, ByteClass::Blank);
        assert(p + r2 =~= a + (e + r2));
    }
}

/// What a host header reads after its keyword: the separator, the name and
/// the end of the line.
pub open spec fn after_keyword(k: Seq<u8>) -> Outcome<Seq<u8>> {
    match spec_separator(k) {
        Err(e) => Err(e),
        Ok((r1, _)) => match spec_token(r1) {
            Err(_) => Err(crate::grammar::ParseError::MissingName),
            Ok((r2, name)) => match spec_line_rest(r2) {
                Err(e) => Err(e),
                Ok((r3, _)) => Ok((r3, name)),
            },
        },
    }
}

proof fn lemma_host_line_parts(s: Seq<u8>)
    ensures
        spec_host_line(s) == (if starts_with_host(span_rest(s, ByteClass::Blank)) {
            after_keyword(span_rest(s, ByteClass::Blank).skip(4))
        } else {
            Outcome::<Seq<u8>>::Err(crate::grammar::ParseError::KeywordMismatch)
        }),
{
}

proof fn lemma_after_keyword_tail(p: Seq<u8>, r: Seq<u8>, r2: Seq<u8>)
    requires
        after_keyword(p + r) is Ok,
        after_keyword(p + r)->Ok_0.0 == r,
        same_start(r, r2),
    ensures
        after_keyword(p + r2) == Outcome::<Seq<u8>>::Ok((r2, after_keyword(p + r)->Ok_0.1)),
{
    let k = p + r;
    let r1 = spec_separator(k)->Ok_0.0;
    lemma_separator_suffix(k);
    lemma_split_suffix(k, r1);
    let a1 = k.take(k.len() - r1.len());
    let t = span_rest(r1, ByteClass::Token);
    lemma_span_suffix(r1, ByteClass::Token);
    lemma_split_suffix(r1, t);
    let name = r1.take(r1.len() - t.len());
    lemma_line_rest_suffix(t);
    lemma_split_suffix(t, r);
    let a3 = t.take(t.len() - r.len());
    let t2 = a3 + r2;
    let r1b = name + t2;
    assert(p + r2 == a1 + r1b) by {
        assert(p =~= a1 + (name + a3));
        assert(p + r2 =~= a1 + r1b);
    }
    lemma_same_start_concat(a3, r, r2);
    lemma_same_start_concat(name, t, t2);
    lemma_line_rest_tail(a3, r, r2);
    if t.len() > 0 {
        lemma_line_rest_ascii(t);
    }
    lemma_token_tail(name, t, t2);
    lemma_separator_tail(a1, r1, r1b);
}

#[verifier::spinoff_prover]
#[verifier::rlimit(60)]
pub proof fn lemma_host_line_tail(p: Seq<u8>, r: Seq<u8>, r2: Seq<u8>)
    requires
        spec_host_line(p + r) is Ok,
        spec_host_line(p + r)->Ok_0.0 == r,
        same_start(r, r2),
    ensures
        spec_host_line(p + r2) == Outcome::<Seq<u8>>::Ok((r2, spec_host_line(p + r)->Ok_0.1)),
{
    let w = p + r;
    lemma_host_line_parts(w);
    lemma_host_line_parts(p + r2);
    let r0 = span_rest(w, ByteClass::Blank);
    lemma_span_suffix(w, ByteClass::Blank);
    lemma_split_suffix(w, r0);
    let a0 = w.take(w.len() - r0.len());
    let kw = r0.take(4);
    let k = r0.skip(4);
    assert(r0 =~= kw + k);
    assert(is_suffix(r, k)) by {
        lemma_host_line_suffix(w);
        assert(after_keyword(k) is Ok);
        lemma_separator_suffix(k);
        let r1 = spec_separator(k)->Ok_0.0;
        lemma_span_suffix(r1, ByteClass::Token);
        lemma_line_rest_suffix(span_rest(r1, ByteClass::Token));
        lemma_suffix_trans(span_rest(r1, ByteClass::Token), r1, k);
        lemma_suffix_trans(r, span_rest(r1, ByteClass::Token), k);
    }
    lemma_split_suffix(k, r);
    let b = k.take(k.len() - r.len());
    let k2 = b + r2;
    let r0b = kw + k2;
    assert(p + r2 == a0 + r0b) by {
        assert(p =~= a0 + (kw + b));
        assert(p + r2 =~= a0 + r0b);
    }
    lemma_same_start_concat(b, r, r2);
    lemma_same_start_concat(kw, k, k2);
    lemma_after_keyword_tail(b, r, r2);
    assert(r0b.skip(4) =~= k2);
    assert(r0b[0] == kw[0] && r0b[1] == kw[1] && r0b[2] == kw[2] && r0b[3] == kw[3]);
    lemma_span_tail(a0, r0, r0b, ByteClass::Blank);
}

/// The index of the first line feed of `w`, or -1 where it has none.
pub open spec fn first_lf(w: Seq<u8>) -> int
    decreases w.len(),
{
    if w.len() == 0 {
        -1
    } else if w[0] == LF {
        0
    } else if first_lf(w.drop_first()) < 0 {
        -1
    } else {
        first_lf(w.drop_first()) + 1
    }
}

proof fn lemma_first_lf(w: Seq<u8>)
    ensures
        first_lf(w) < w.len(),
        first_lf(w) >= 0 ==> w[first_lf(w)] == LF,
        forall|i: int| 0 <= i < w.len() && (first_lf(w) < 0 || i < first_lf(w)) ==> #[trigger] w[i]
            != LF,
    decreases w.len(),
{
    if w.len() > 0 && w[0] != LF {
        let t = w.drop_first();
        lemma_first_lf(t);
        assert forall|i: int| 0 <= i < w.len() && (first_lf(w) < 0 || i < first_lf(w)) implies #[trigger] w[i]
            != LF by {
            if i > 0 {
                assert(w[i] == t[i - 1]);
            }
        }
    }
}

/// `s` holds no line feed.
pub open spec fn no_lf(s: Seq<u8>) -> bool {
    forall|i: int| 0 <= i < s.len() ==> #[trigger] s[i] != LF
}

pub proof fn lemma_no_lf_suffix(t: Seq<u8>, s: Seq<u8>)
    requires
        is_suffix(t, s),
        no_lf(s),
    ensures
        no_lf(t),
{
    assert forall|i: int| 0 <= i < t.len() implies #[trigger] t[i] != LF by {
        assert(t[i] == s[i + s.len() - t.len()]);
    }
}

/// Without a line feed, a line end can only be the end of the input.
pub proof fn lemma_line_rest_no_lf(s: Seq<u8>)
    requires
        no_lf(s),
        spec_line_rest(s) is Ok,
    ensures
        spec_line_rest(s)->Ok_0.0.len() == 0,
{
    let m = span_rest(s, ByteClass::Blank);
    lemma_span_suffix(s, ByteClass::Blank);
    lemma_no_lf_suffix(m, s);
    if m.len() > 0 && m[0] == HASH {
        let t = m.drop_first();
        assert(is_suffix(t, m)) by {
            assert(m.skip(1) =~= t);
        }
        lemma_no_lf_suffix(t, m);
        lemma_span_suffix(t, ByteClass::LineBody);
        lemma_no_lf_suffix(span_rest(t, ByteClass::LineBody), t);
    }
}

pub proof fn lemma_host_line_no_lf(w: Seq<u8>)
    requires
        no_lf(w),
        spec_host_line(w) is Ok,
    ensures
        spec_host_line(w)->Ok_0.0.len() == 0,
{
    let r0 = span_rest(w, ByteClass::Blank);
    let k = r0.skip(4);
    let r1 = spec_separator(k)->Ok_0.0;
    let t = span_rest(r1, ByteClass::Token);
    lemma_span_suffix(w, ByteClass::Blank);
    assert(is_suffix(k, r0));
    lemma_separator_suffix(k);
    lemma_span_suffix(r1, ByteClass::Token);
    lemma_no_lf_suffix(r0, w);
    lemma_no_lf_suffix(k, r0);
    lemma_no_lf_suffix(r1, k);
    lemma_no_lf_suffix(t, r1);
    lemma_line_rest_no_lf(t);
}

pub proof fn lemma_property_line_no_lf(w: Seq<u8>)
    requires
        no_lf(w),
        spec_property_line(w) is Ok,
    ensures
        spec_property_line(w)->Ok_0.0.len() == 0,
{
    let r0 = span_rest(w, ByteClass::Blank);
    let k = span_rest(r0, ByteClass::Key);
    let r1 = spec_separator(k)->Ok_0.0;
    let v = span_rest(r1, ByteClass::Value);
    lemma_span_suffix(w, ByteClass::Blank);
    lemma_span_suffix(r0, ByteClass::Key);
    lemma_separator_suffix(k);
    lemma_span_suffix(r1, ByteClass::Value);
    lemma_no_lf_suffix(r0, w);
    lemma_no_lf_suffix(k, r0);
    lemma_no_lf_suffix(r1, k);
    lemma_no_lf_suffix(v, r1);
    lemma_line_rest_no_lf(v);
}

pub proof fn lemma_property_line_tail(p: Seq<u8>, r: Seq<u8>, r2: Seq<u8>)
    requires
        spec_property_line(p + r) is Ok,
        spec_property_line(p + r)->Ok_0.0 == r,
        same_start(r, r2),
    ensures
        spec_property_line(p + r2) == Outcome::<PropertyView>::Ok(
            (r2, spec_property_line(p + r)->Ok_0.1),
        ),
{
    let w = p + r;
    lemma_first_lf(w);
    let i = first_lf(w);
    if i >= 0 {
        let l = w.take(i + 1);
        let x = w.skip(i + 1);
        assert(w =~= l + x);
        assert(l.last() == LF);
        assert forall|j: int| 0 <= j < l.len() - 1 implies #[trigger] l[j] != LF by {
            assert(l[j] == w[j]);
        }
        assert(one_line(l));
        lemma_property_line_line(l, x);
        assert(spec_property_line(l) is Ok);
        assert(spec_property_line(l)->Ok_0.0.len() == 0);
        assert(Seq::<u8>::empty() + x =~= x);
        assert(spec_property_line(l)->Ok_0.0 + x =~= x);
        assert(r == x);
        assert(p =~= l);
        lemma_property_line_line(l, r2);
        assert(spec_property_line(l)->Ok_0.0 + r2 =~= r2);
    } else {
        assert(no_lf(w));
        lemma_property_line_no_lf(w);
        assert(r2.len() == 0);
        assert(r =~= r2);
        assert(p + r2 =~= w);
    }
}

proof fn lemma_properties_core(
    a: Seq<u8>,
    b: Seq<u8>,
    c: Seq<u8>,
    d: Seq<u8>,
    r: Seq<u8>,
    r2: Seq<u8>,
    prop: PropertyView,
    ps: Seq<PropertyView>,
)
    requires
        spec_skip(a + (b + (c + (d + r)))) == b + (c + (d + r)),
        spec_property_line(b + (c + (d + r))) == Outcome::<PropertyView>::Ok((c + (d + r), prop)),
        spec_skip(c + (d + r)) == d + r,
        spec_properties(d + r2) == (r2, ps),
        same_start(r, r2),
    ensures
        spec_properties(a + (b + (c + (d + r2)))) == (r2, seq![prop] + ps),
{
    let u2 = d + r2;
    let m2 = c + u2;
    let t2 = b + m2;
    lemma_same_start_concat(d, r, r2);
    lemma_same_start_concat(c, d + r, u2);
    lemma_same_start_concat(b, c + (d + r), m2);
    lemma_skip_tail(a, b + (c + (d + r)), t2, false);
    lemma_property_line_tail(b, c + (d + r), m2);
    lemma_skip_tail(c, d + r, u2, false);
}

#[verifier::spinoff_prover]
#[verifier::rlimit(50)]
pub proof fn lemma_properties_tail(p: Seq<u8>, r: Seq<u8>, r2: Seq<u8>)
    requires
        spec_properties(p + r).0 == r,
        same_start(r, r2),
        spec_property_line(spec_skip(r2)) is Err,
    ensures
        spec_properties(p + r2) == (r2, spec_properties(p + r).1),
    decreases p.len(),
{
    let w = p + r;
    let t = spec_skip(w);
    if spec_property_line(t) is Ok {
        let m = spec_property_line(t)->Ok_0.0;
        let u = spec_skip(m);
        lemma_skip_suffix(w, false);
        lemma_property_line_suffix(t);
        lemma_skip_suffix(m, false);
        lemma_properties_suffix(u);
        lemma_split_suffix(w, t);
        lemma_split_suffix(t, m);
        lemma_split_suffix(m, u);
        lemma_split_suffix(u, r);
        let a = w.take(w.len() - t.len());
        let b = t.take(t.len() - m.len());
        let c = m.take(m.len() - u.len());
        let d = u.take(u.len() - r.len());
        assert(p + r2 == a + (b + (c + (d + r2)))) by {
            assert(p =~= a + (b + (c + d)));
            assert(p + r2 =~= a + (b + (c + (d + r2))));
        }
        assert(w == a + (b + (c + (d + r))));
        lemma_properties_tail(d, r, r2);
        lemma_properties_core(
            a,
            b,
            c,
            d,
            r,
            r2,
            spec_property_line(t)->Ok_0.1,
            spec_properties(u).1,
        );
    } else {
        assert(p.len() == 0);
        assert(p + r2 =~= r2);
    }
}

/// Text cut at four nested suffixes, with its last one replaced.
proof fn lemma_four_parts(
    w: Seq<u8>,
    t: Seq<u8>,
    y: Seq<u8>,
    x: Seq<u8>,
    r: Seq<u8>,
    r2: Seq<u8>,
)
    requires
        is_suffix(t, w),
        is_suffix(y, t),
        is_suffix(x, y),
        is_suffix(r, x),
    ensures
        ({
            let a = w.take(w.len() - t.len());
            let b = t.take(t.len() - y.len());
            let c = y.take(y.len() - x.len());
            let e = x.take(x.len() - r.len());
            &&& w == a + (b + (c + (e + r)))
            &&& t == b + (c + (e + r))
            &&& y == c + (e + r)
            &&& x == e + r
            &&& w.take(w.len() - r.len()) + r2 == a + (b + (c + (e + r2)))
        }),
{
    lemma_split_suffix(w, t);
    lemma_split_suffix(t, y);
    lemma_split_suffix(y, x);
    lemma_split_suffix(x, r);
    let a = w.take(w.len() - t.len());
    let b = t.take(t.len() - y.len());
    let c = y.take(y.len() - x.len());
    let e = x.take(x.len() - r.len());
    assert(w.take(w.len() - r.len()) =~= a + (b + (c + e)));
    assert(w.take(w.len() - r.len()) + r2 =~= a + (b + (c + (e + r2))));
}

proof fn lemma_host_block_core(
    a: Seq<u8>,
    b: Seq<u8>,
    c: Seq<u8>,
    e: Seq<u8>,
    r: Seq<u8>,
    r2: Seq<u8>,
    name: Seq<u8>,
    ps: Seq<PropertyView>,
)
    requires
        spec_skip(a + (b + (c + (e + r)))) == b + (c + (e + r)),
        spec_host_line(b + (c + (e + r))) == Outcome::<Seq<u8>>::Ok((c + (e + r), name)),
        spec_properties(c + (e + r)) == (e + r, ps),
        spec_skip(e + r) == r,
        same_start(r, r2),
        spec_property_line(r2) is Err,
    ensures
        spec_host_block(a + (b + (c + (e + r2)))) == Outcome::<HostView>::Ok((r2, (name, ps))),
{
    reveal(spec_host_block);
    let x2 = e + r2;
    let y2 = c + x2;
    let t2 = b + y2;
    lemma_same_start_concat(e, r, r2);
    lemma_same_start_concat(c, e + r, x2);
    lemma_same_start_concat(b, c + (e + r), y2);
    lemma_skip_tail(a, b + (c + (e + r)), t2, false);
    lemma_host_line_tail(b, c + (e + r), y2);
    lemma_skip_tail(e, r, r2, false);
    lemma_properties_tail(c, e + r, x2);
}

#[verifier::spinoff_prover]
#[verifier::rlimit(100)]
pub proof fn lemma_host_block_tail(p: Seq<u8>, r: Seq<u8>, r2: Seq<u8>)
    requires
        spec_host_block(p + r) is Ok,
        spec_host_block(p + r)->Ok_0.0 == r,
        same_start(r, r2),
        spec_property_line(r2) is Err,
    ensures
        spec_host_block(p + r2) == Outcome::<HostView>::Ok((r2, spec_host_block(p + r)->Ok_0.1)),
{
    let w = p + r;
    let t = spec_skip(w);
    let y = spec_host_line(t)->Ok_0.0;
    let x = spec_properties(y).0;
    assert(spec_host_line(t) is Ok && spec_host_block(w) == Outcome::<HostView>::Ok(
        (spec_skip(x), (spec_host_line(t)->Ok_0.1, spec_properties(y).1)),
    )) by {
        reveal(spec_host_block);
    }
    lemma_skip_suffix(w, false);
    lemma_host_line_suffix(t);
    lemma_properties_suffix(y);
    lemma_skip_suffix(x, false);
    let a = w.take(w.len() - t.len());
    let b = t.take(t.len() - y.len());
    let c = y.take(y.len() - x.len());
    let e = x.take(x.len() - r.len());
    lemma_four_parts(w, t, y, x, r, r2);
    assert(p =~= w.take(w.len() - r.len()));
    lemma_host_block_core(
        a,
        b,
        c,
        e,
        r,
        r2,
        spec_host_line(t)->Ok_0.1,
        spec_properties(y).1,
    );
}

#[verifier::spinoff_prover]
#[verifier::rlimit(100)]
proof fn lemma_hosts_prefix(p: Seq<u8>, q: Seq<u8>)
    requires
        spec_hosts(p + q).0 == q,
    ensures
        spec_hosts(p) == (Seq::<u8>::empty(), spec_hosts(p + q).1),
    decreases p.len(),
{
    reveal(spec_host_block);
    let w = p + q;
    if spec_host_block(w) is Ok {
        let m = spec_host_block(w)->Ok_0.0;
        lemma_host_block_suffix(w);
        lemma_remainder_reads_nothing(m);
        lemma_split_suffix(w, m);
        lemma_split_suffix(m, q);
        let a = w.take(w.len() - m.len());
        let b = m.take(m.len() - q.len());
        assert(p =~= a + b);
        if b.len() > 0 {
            assert(m[0] == b[0]);
            assert(spec_host_block(m) is Ok);
            let m2 = spec_host_block(m)->Ok_0.0;
            lemma_remainder_reads_nothing(m2);
            lemma_skip_twice(spec_properties(spec_host_line(spec_skip(w))->Ok_0.0).0);
            assert(spec_skip(m) == m);
            let y = spec_host_line(m)->Ok_0.0;
            let x = spec_properties(y).0;
            lemma_host_line_suffix(m);
            lemma_properties_suffix(y);
            lemma_skip_suffix(x, false);
            lemma_suffix_trans(q, m2, x);
            lemma_suffix_trans(q, x, y);
            lemma_split_suffix(m, y);
            lemma_split_suffix(y, q);
            let b1 = m.take(m.len() - y.len());
            let c = y.take(y.len() - q.len());
            assert(b =~= b1 + c);
            if c.len() > 0 {
                assert(y[0] == c[0]);
            }
            lemma_host_line_tail(b1, y, c);
            lemma_header_is_not_property(b);
        } else {
            assert(spec_host_line(b) is Err);
            assert(spec_property_line(b) is Err);
        }
        assert(a + b + q =~= a + m);
        lemma_host_block_tail(a, m, b);
        assert(b + q =~= m);
        lemma_hosts_prefix(b, q);
    } else {
        assert(p.len() == 0);
        assert(spec_host_line(spec_skip(p)) is Err);
    }
}

/// Reading a document twice loses and repeats nothing. What a first reading
/// consumed, read again on its own, gives the same hosts and is consumed
/// whole; what it left, read again, gives no host and is left whole; and the
/// two put back together are the input.
pub proof fn lemma_reparse(s: Seq<u8>)
    ensures
        spec_hosts(s.take(s.len() - spec_hosts(s).0.len())) == (Seq::<u8>::empty(), spec_hosts(s).1),
        spec_hosts(spec_hosts(s).0) == (spec_hosts(s).0, Seq::<HostView>::empty()),
        s.take(s.len() - spec_hosts(s).0.len()) + spec_hosts(s).0 == s,
{
    lemma_remainder_reads_nothing(s);
    let q = spec_hosts(s).0;
    let p = s.take(s.len() - q.len());
    lemma_hosts_prefix(p, q);
}

} // verus!
