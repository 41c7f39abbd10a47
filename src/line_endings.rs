//! Line endings: `\r\n` and `\n` read alike.
use vstd::prelude::*;

use crate::grammar::{
    is_suffix, lemma_host_block_suffix, lemma_host_line_suffix, lemma_properties_suffix,
    lemma_property_line_suffix, lemma_separator_suffix, lemma_skip_suffix, lemma_suffix_trans,
    skip_rest, spec_host_block, spec_host_line, spec_hosts, spec_line_end, spec_line_rest,
    spec_properties, spec_property_line, spec_separator, spec_skip, spec_token, starts_with_host,
    trim, trim_end, trim_start, HostView, Outcome,
};
use crate::text::{
    continues, in_class, lemma_span_rest, span_len, span_rest, ws_len, ws_len_end, ByteClass, CR,
    EQUALS, HASH, LF,
};

verus! {

/// `s` with each carriage return that stands right before a line feed taken out.
pub open spec fn normalize(s: Seq<u8>) -> Seq<u8>
    decreases s.len(),
{
    if s.len() == 0 {
        s
    } else if s.len() >= 2 && s[0] == CR && s[1] == LF {
        normalize(s.drop_first())
    } else {
        seq![s[0]] + normalize(s.drop_first())
    }
}

/// Every carriage return of `s` ends a line: a line feed follows it.
pub open spec fn crs_end_lines(s: Seq<u8>) -> bool {
    forall|i: int| 0 <= i < s.len() && #[trigger] s[i] == CR ==> i + 1 < s.len() && s[i + 1] == LF
}

/// An outcome with the input it leaves normalized.
pub open spec fn norm_outcome<V>(o: Outcome<V>) -> Outcome<V> {
    match o {
        Ok((r, v)) => Ok((normalize(r), v)),
        Err(e) => Err(e),
    }
}

/// The first byte of `normalize(s)`.
pub open spec fn head_byte(s: Seq<u8>) -> u8 {
    if s[0] == CR {
        LF
    } else {
        s[0]
    }
}

/// What `normalize(s)` normalizes after its first byte.
pub open spec fn after_head(s: Seq<u8>) -> Seq<u8> {
    if s[0] == CR {
        s.skip(2)
    } else {
        s.drop_first()
    }
}

pub proof fn lemma_crs_suffix(r: Seq<u8>, s: Seq<u8>)
    requires
        is_suffix(r, s),
        crs_end_lines(s),
    ensures
        crs_end_lines(r),
{
    let d = s.len() - r.len();
    assert forall|i: int| 0 <= i < r.len() && #[trigger] r[i] == CR implies i + 1 < r.len() && r[i
        + 1] == LF by {
        assert(r[i] == s[i + d]);
        assert(s[i + d] == CR);
        assert(r[i + 1] == s[i + d + 1]);
    }
}

pub proof fn lemma_normalize_front(s: Seq<u8>)
    requires
        crs_end_lines(s),
        s.len() > 0,
    ensures
        normalize(s) == seq![head_byte(s)] + normalize(after_head(s)),
        normalize(s)[0] == head_byte(s),
        normalize(s).drop_first() == normalize(after_head(s)),
        is_suffix(after_head(s), s),
        after_head(s).len() < s.len(),
        crs_end_lines(after_head(s)),
{
    if s[0] == CR {
        assert(s[0] == CR);
        let t = s.drop_first();
        assert(t[0] == LF);
        assert(t.drop_first() =~= s.skip(2));
        assert(normalize(s) == normalize(t));
        assert(normalize(t) == seq![LF] + normalize(t.drop_first()));
    } else {
        assert(s.drop_first() =~= s.skip(1));
    }
    lemma_crs_suffix(after_head(s), s);
    let n = seq![head_byte(s)] + normalize(after_head(s));
    assert(normalize(s) == n);
    assert(n[0] == head_byte(s));
    assert(n.drop_first() =~= normalize(after_head(s)));
}

pub proof fn lemma_normalize_concat(a: Seq<u8>, b: Seq<u8>)
    requires
        forall|i: int| 0 <= i < a.len() ==> #[trigger] a[i] != CR,
    ensures
        normalize(a + b) == a + normalize(b),
    decreases a.len(),
{
    if a.len() == 0 {
        assert(a + b =~= b);
        assert(a + normalize(b) =~= normalize(b));
    } else {
        let x = a + b;
        assert(x[0] == a[0]);
        assert(x.drop_first() =~= a.drop_first() + b);
        assert forall|i: int| 0 <= i < a.drop_first().len() implies #[trigger] a.drop_first()[i]
            != CR by {
            assert(a.drop_first()[i] == a[i + 1]);
        }
        lemma_normalize_concat(a.drop_first(), b);
        assert(a + normalize(b) =~= seq![a[0]] + (a.drop_first() + normalize(b)));
    }
}

proof fn lemma_normalize_empty(s: Seq<u8>)
    requires
        crs_end_lines(s),
    ensures
        normalize(s).len() == 0 <==> s.len() == 0,
{
    if s.len() > 0 {
        lemma_normalize_front(s);
    }
}

/// Whether a run goes on is the same on normalized input.
proof fn lemma_continues_normalize(s: Seq<u8>, c: ByteClass)
    requires
        crs_end_lines(s),
        !in_class(c, CR),
        !in_class(c, LF),
    ensures
        continues(c, normalize(s)) == continues(c, s),
{
    reveal(ws_len);
    if s.len() > 0 {
        lemma_normalize_front(s);
        let n = normalize(s);
        if s[0] != CR {
            let t = s.drop_first();
            assert(after_head(s) == t);
            lemma_normalize_empty(t);
            if t.len() > 0 {
                lemma_normalize_front(t);
                assert(n[1] == normalize(t)[0]);
                assert(t[0] == s[1]);
                if s[1] != CR {
                    let u = t.drop_first();
                    assert(after_head(t) == u);
                    lemma_normalize_empty(u);
                    if u.len() > 0 {
                        lemma_normalize_front(u);
                        assert(n[2] == normalize(t)[1]);
                        assert(normalize(t)[1] == normalize(u)[0]);
                        assert(u[0] == s[2]);
                    }
                }
            }
        }
    }
}

/// Runs of a class without line ends read the same bytes on normalized input.
pub proof fn lemma_span_normalize(s: Seq<u8>, c: ByteClass)
    requires
        crs_end_lines(s),
        !in_class(c, CR),
        !in_class(c, LF),
    ensures
        span_rest(normalize(s), c) == normalize(span_rest(s, c)),
        span_len(normalize(s), c) == span_len(s, c),
        normalize(s).take(span_len(s, c)) == s.take(span_len(s, c)),
        is_suffix(span_rest(s, c), s),
        crs_end_lines(span_rest(s, c)),
    decreases s.len(),
{
    lemma_span_rest(s, c);
    lemma_continues_normalize(s, c);
    let n = normalize(s);
    if continues(c, s) {
        lemma_normalize_front(s);
        let t = s.drop_first();
        assert(after_head(s) == t);
        lemma_span_normalize(t, c);
        lemma_continues_normalize(s, c);
        assert(n.drop_first() == normalize(t));
        let m = span_len(s, c);
        assert(m == 1 + span_len(t, c));
        assert(n.take(m) =~= seq![s[0]] + normalize(t).take(m - 1));
        assert(s.take(m) =~= seq![s[0]] + t.take(m - 1));
    } else {
        assert(n.take(0) =~= s.take(0));
    }
    lemma_crs_suffix(span_rest(s, c), s);
}

pub proof fn lemma_skip_normalize(s: Seq<u8>, in_comment: bool)
    requires
        crs_end_lines(s),
    ensures
        skip_rest(normalize(s), in_comment) == normalize(skip_rest(s, in_comment)),
    decreases s.len(),
{
    if s.len() > 0 {
        lemma_normalize_front(s);
        let t = after_head(s);
        let n = normalize(s);
        if s[0] == CR {
            let d = s.drop_first();
            assert(d[0] == LF);
            assert(d.drop_first() =~= s.skip(2));
            assert(skip_rest(s, in_comment) == skip_rest(d, false));
            assert(skip_rest(d, false) == skip_rest(t, false));
            assert(n[0] == LF);
            assert(skip_rest(n, in_comment) == skip_rest(normalize(t), false));
            lemma_skip_normalize(t, false);
        } else {
            assert(n[0] == s[0]);
            assert(t == s.drop_first());
            lemma_skip_normalize(t, true);
            lemma_skip_normalize(t, false);
        }
    }
}

pub proof fn lemma_line_end_normalize(s: Seq<u8>)
    requires
        crs_end_lines(s),
    ensures
        spec_line_end(normalize(s)) == norm_outcome(spec_line_end(s)),
{
    if s.len() > 0 {
        lemma_normalize_front(s);
        if s[0] == CR {
            assert(s[0] == CR);
        }
    }
}

pub proof fn lemma_line_rest_normalize(s: Seq<u8>)
    requires
        crs_end_lines(s),
    ensures
        spec_line_rest(normalize(s)) == norm_outcome(spec_line_rest(s)),
{
    lemma_span_normalize(s, ByteClass::Blank);
    let r = span_rest(s, ByteClass::Blank);
    if r.len() > 0 {
        lemma_normalize_front(r);
        if r[0] == HASH {
            let t = r.drop_first();
            lemma_span_normalize(t, ByteClass::LineBody);
            lemma_line_end_normalize(span_rest(t, ByteClass::LineBody));
        } else {
            lemma_line_end_normalize(r);
        }
    } else {
        lemma_line_end_normalize(r);
    }
}

pub proof fn lemma_separator_normalize(s: Seq<u8>)
    requires
        crs_end_lines(s),
    ensures
        spec_separator(normalize(s)) == norm_outcome(spec_separator(s)),
{
    lemma_span_normalize(s, ByteClass::Blank);
    let r = span_rest(s, ByteClass::Blank);
    if r.len() > 0 {
        lemma_normalize_front(r);
        if r[0] == EQUALS {
            lemma_span_normalize(r.drop_first(), ByteClass::Blank);
        }
    }
}

pub proof fn lemma_token_normalize(s: Seq<u8>)
    requires
        crs_end_lines(s),
    ensures
        spec_token(normalize(s)) == norm_outcome(spec_token(s)),
{
    lemma_span_normalize(s, ByteClass::Token);
}

pub proof fn lemma_keyword_normalize(s: Seq<u8>)
    requires
        crs_end_lines(s),
    ensures
        starts_with_host(normalize(s)) == starts_with_host(s),
        starts_with_host(s) ==> normalize(s).skip(4) == normalize(s.skip(4)),
{
    let k: int = if s.len() > 0 && s[0] == 0x48 {
        if s.len() > 1 && s[1] == 0x6f {
            if s.len() > 2 && s[2] == 0x73 {
                if s.len() > 3 && s[3] == 0x74 {
                    4
                } else {
                    3
                }
            } else {
                2
            }
        } else {
            1
        }
    } else {
        0
    };
    let a = s.take(k);
    let b = s.skip(k);
    assert(s =~= a + b);
    assert forall|i: int| 0 <= i < a.len() implies #[trigger] a[i] != CR by {
        assert(a[i] == s[i]);
    }
    lemma_normalize_concat(a, b);
    let n = normalize(s);
    assert forall|i: int| 0 <= i < k implies #[trigger] n[i] == s[i] by {
        assert(n[i] == a[i]);
    }
    if k == 4 {
        assert(n.skip(4) =~= normalize(b));
    } else if b.len() > 0 {
        assert(is_suffix(b, s));
        lemma_crs_suffix(b, s);
        lemma_normalize_front(b);
        assert(n[k] == normalize(b)[0]);
        assert(b[0] == s[k]);
    } else {
        assert(normalize(b).len() == 0);
        assert(n.len() == k);
    }
}

pub proof fn lemma_host_line_normalize(s: Seq<u8>)
    requires
        crs_end_lines(s),
    ensures
        spec_host_line(normalize(s)) == norm_outcome(spec_host_line(s)),
{
    lemma_span_normalize(s, ByteClass::Blank);
    let r0 = span_rest(s, ByteClass::Blank);
    lemma_keyword_normalize(r0);
    if starts_with_host(r0) {
        let k = r0.skip(4);
        assert(is_suffix(k, r0));
        lemma_crs_suffix(k, r0);
        lemma_separator_normalize(k);
        if spec_separator(k) is Ok {
            let r1 = spec_separator(k)->Ok_0.0;
            lemma_separator_suffix(k);
            lemma_crs_suffix(r1, k);
            lemma_token_normalize(r1);
            if spec_token(r1) is Ok {
                lemma_span_normalize(r1, ByteClass::Token);
                lemma_line_rest_normalize(span_rest(r1, ByteClass::Token));
            }
        }
    }
}

pub proof fn lemma_property_line_normalize(s: Seq<u8>)
    requires
        crs_end_lines(s),
    ensures
        spec_property_line(normalize(s)) == norm_outcome(spec_property_line(s)),
{
    lemma_span_normalize(s, ByteClass::Blank);
    let r0 = span_rest(s, ByteClass::Blank);
    lemma_span_normalize(r0, ByteClass::Key);
    lemma_keyword_normalize(r0);
    if span_len(r0, ByteClass::Key) > 0 {
        let k = span_rest(r0, ByteClass::Key);
        lemma_separator_normalize(k);
        if spec_separator(k) is Ok {
            let r1 = spec_separator(k)->Ok_0.0;
            lemma_separator_suffix(k);
            lemma_crs_suffix(r1, k);
            lemma_span_normalize(r1, ByteClass::Value);
            lemma_line_rest_normalize(span_rest(r1, ByteClass::Value));
        }
    }
}

pub proof fn lemma_properties_normalize(s: Seq<u8>)
    requires
        crs_end_lines(s),
    ensures
        spec_properties(normalize(s)) == (normalize(spec_properties(s).0), spec_properties(s).1),
    decreases s.len(),
{
    let t = spec_skip(s);
    lemma_skip_normalize(s, false);
    lemma_skip_suffix(s, false);
    lemma_crs_suffix(t, s);
    lemma_property_line_normalize(t);
    lemma_property_line_suffix(t);
    if spec_property_line(t) is Ok {
        let r = spec_property_line(t)->Ok_0.0;
        lemma_suffix_trans(r, t, s);
        lemma_crs_suffix(r, s);
        let u = spec_skip(r);
        lemma_skip_normalize(r, false);
        lemma_skip_suffix(r, false);
        lemma_crs_suffix(u, r);
        lemma_properties_normalize(u);
    }
}

pub proof fn lemma_host_block_normalize(s: Seq<u8>)
    requires
        crs_end_lines(s),
    ensures
        spec_host_block(normalize(s)) == norm_outcome(spec_host_block(s)),
{
    reveal(spec_host_block);
    let t = spec_skip(s);
    lemma_skip_normalize(s, false);
    lemma_skip_suffix(s, false);
    lemma_crs_suffix(t, s);
    lemma_host_line_normalize(t);
    if spec_host_line(t) is Ok {
        let r = spec_host_line(t)->Ok_0.0;
        lemma_host_line_suffix(t);
        lemma_crs_suffix(r, t);
        lemma_properties_normalize(r);
        let r2 = spec_properties(r).0;
        lemma_properties_suffix(r);
        lemma_crs_suffix(r2, r);
        lemma_skip_normalize(r2, false);
    }
}

pub proof fn lemma_hosts_normalize(s: Seq<u8>)
    requires
        crs_end_lines(s),
    ensures
        spec_hosts(normalize(s)) == (normalize(spec_hosts(s).0), spec_hosts(s).1),
    decreases s.len(),
{
    lemma_host_block_normalize(s);
    lemma_host_block_suffix(s);
    if spec_host_block(s) is Ok {
        let r = spec_host_block(s)->Ok_0.0;
        lemma_crs_suffix(r, s);
        lemma_hosts_normalize(r);
    }
}

/// Line endings do not change what is read: where every carriage return of
/// the input ends a line, reading it gives the same hosts, with the same
/// properties, as reading it with each `\r\n` turned into `\n`; the text
/// left unread is the same, normalized; and the whole-file parse succeeds on
/// one exactly when it succeeds on the other.
pub proof fn lemma_line_endings(s: Seq<u8>)
    requires
        crs_end_lines(s),
    ensures
        spec_hosts(normalize(s)).1 == spec_hosts(s).1,
        spec_hosts(normalize(s)).0 == normalize(spec_hosts(s).0),
        spec_skip(spec_hosts(normalize(s)).0).len() == 0 <==> spec_skip(spec_hosts(s).0).len() == 0,
{
    lemma_hosts_normalize(s);
    let r = spec_hosts(s).0;
    crate::laws::lemma_remainder_reads_nothing(s);
    lemma_crs_suffix(r, s);
    lemma_skip_normalize(r, false);
    let k = spec_skip(r);
    lemma_skip_suffix(r, false);
    lemma_crs_suffix(k, r);
    if k.len() > 0 {
        lemma_normalize_front(k);
    }
}

/// `x` holds no carriage return and no line feed.
pub open spec fn no_line_end(x: Seq<u8>) -> bool {
    forall|i: int| 0 <= i < x.len() ==> #[trigger] x[i] != CR && x[i] != LF
}

/// A host whose name, keys and values hold no line end byte.
pub open spec fn host_clean(h: HostView) -> bool {
    &&& no_line_end(h.0)
    &&& forall|j: int| 0 <= j < h.1.len() ==> no_line_end(#[trigger] h.1[j].0) && no_line_end(
        h.1[j].1,
    )
}

proof fn lemma_run_clean(s: Seq<u8>, c: ByteClass)
    requires
        !in_class(c, CR),
        !in_class(c, LF),
    ensures
        no_line_end(s.take(span_len(s, c))),
{
    lemma_span_rest(s, c);
    let t = s.take(span_len(s, c));
    assert forall|i: int| 0 <= i < t.len() implies #[trigger] t[i] != CR && t[i] != LF by {
        assert(t[i] == s[i]);
        assert(in_class(c, s[i]));
    }
}

proof fn lemma_trim_start_clean(x: Seq<u8>)
    requires
        no_line_end(x),
    ensures
        no_line_end(trim_start(x)),
    decreases x.len(),
{
    reveal(ws_len);
    if ws_len(x) > 0 {
        let y = x.skip(ws_len(x));
        assert forall|i: int| 0 <= i < y.len() implies #[trigger] y[i] != CR && y[i] != LF by {
            assert(y[i] == x[i + ws_len(x)]);
        }
        lemma_trim_start_clean(y);
    }
}

proof fn lemma_trim_end_clean(x: Seq<u8>)
    requires
        no_line_end(x),
    ensures
        no_line_end(trim_end(x)),
    decreases x.len(),
{
    if ws_len_end(x) > 0 {
        let y = x.take(x.len() - ws_len_end(x));
        assert forall|i: int| 0 <= i < y.len() implies #[trigger] y[i] != CR && y[i] != LF by {
            assert(y[i] == x[i]);
        }
        lemma_trim_end_clean(y);
    }
}

proof fn lemma_trim_clean(x: Seq<u8>)
    requires
        no_line_end(x),
    ensures
        no_line_end(trim(x)),
{
    lemma_trim_start_clean(x);
    lemma_trim_end_clean(trim_start(x));
}

proof fn lemma_property_line_clean(s: Seq<u8>)
    requires
        spec_property_line(s) is Ok,
    ensures
        no_line_end(spec_property_line(s)->Ok_0.1.0),
        no_line_end(spec_property_line(s)->Ok_0.1.1),
{
    let r0 = span_rest(s, ByteClass::Blank);
    lemma_run_clean(r0, ByteClass::Key);
    let k = span_rest(r0, ByteClass::Key);
    let r1 = spec_separator(k)->Ok_0.0;
    lemma_run_clean(r1, ByteClass::Value);
    lemma_trim_clean(r1.take(span_len(r1, ByteClass::Value)));
}

proof fn lemma_host_line_clean(s: Seq<u8>)
    requires
        spec_host_line(s) is Ok,
    ensures
        no_line_end(spec_host_line(s)->Ok_0.1),
{
    let r0 = span_rest(s, ByteClass::Blank);
    let r1 = spec_separator(r0.skip(4))->Ok_0.0;
    lemma_run_clean(r1, ByteClass::Token);
}

proof fn lemma_properties_clean(s: Seq<u8>)
    ensures
        forall|j: int| 0 <= j < spec_properties(s).1.len() ==> no_line_end(
            #[trigger] spec_properties(s).1[j].0,
        ) && no_line_end(spec_properties(s).1[j].1),
    decreases s.len(),
{
    let t = spec_skip(s);
    if spec_property_line(t) is Ok {
        let r = spec_property_line(t)->Ok_0.0;
        lemma_skip_suffix(s, false);
        lemma_property_line_suffix(t);
        lemma_skip_suffix(r, false);
        lemma_property_line_clean(t);
        lemma_properties_clean(spec_skip(r));
        let ps = spec_properties(s).1;
        let qs = spec_properties(spec_skip(r)).1;
        assert(ps == seq![spec_property_line(t)->Ok_0.1] + qs);
        assert forall|j: int| 0 <= j < ps.len() implies no_line_end(#[trigger] ps[j].0)
            && no_line_end(ps[j].1) by {
            if j > 0 {
                assert(ps[j] == qs[j - 1]);
            }
        }
    }
}

proof fn lemma_hosts_clean(s: Seq<u8>)
    ensures
        forall|j: int| 0 <= j < spec_hosts(s).1.len() ==> host_clean(#[trigger] spec_hosts(s).1[j]),
    decreases s.len(),
{
    lemma_host_block_suffix(s);
    if spec_host_block(s) is Ok {
        let r = spec_host_block(s)->Ok_0.0;
        lemma_hosts_clean(r);
        let t = spec_skip(s);
        assert(spec_host_line(t) is Ok && spec_host_block(s)->Ok_0.1 == (
            spec_host_line(t)->Ok_0.1,
            spec_properties(spec_host_line(t)->Ok_0.0).1,
        )) by {
            reveal(spec_host_block);
        }
        lemma_host_line_clean(t);
        lemma_properties_clean(spec_host_line(t)->Ok_0.0);
        let hs = spec_hosts(s).1;
        let gs = spec_hosts(r).1;
        assert(hs == seq![spec_host_block(s)->Ok_0.1] + gs);
        assert forall|j: int| 0 <= j < hs.len() implies host_clean(#[trigger] hs[j]) by {
            if j > 0 {
                assert(hs[j] == gs[j - 1]);
            }
        }
    }
}

/// No carriage return is ever part of what is read: every host name,
/// property key and property value holds neither a carriage return nor a
/// line feed, whatever the line endings of the input.
pub proof fn lemma_no_line_end_read(s: Seq<u8>)
    ensures
        forall|j: int| 0 <= j < spec_hosts(s).1.len() ==> host_clean(#[trigger] spec_hosts(s).1[j]),
{
    lemma_hosts_clean(s);
}

} // verus!
