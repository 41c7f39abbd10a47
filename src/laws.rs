//! Laws of the grammar that relate several parses.
use vstd::prelude::*;

use crate::grammar::{
    host_keyword, is_suffix, lemma_header_is_not_property, lemma_host_block_suffix, spec_host_block,
    spec_host_line, spec_hosts, spec_properties, spec_property_line, spec_skip, spec_token,
    starts_with_host, trim, trim_end, trim_start, HostView, Outcome, PropertyView,
};
use crate::text::{
    all_in, continues, in_class, is_run, lemma_run_concat, lemma_span_at, lemma_span_concat,
    lemma_span_rest, span_len, span_rest, ws_len, ws_len_end, ByteClass, CR, EQUALS, HASH, LF,
};

verus! {

/// Reading stops for good: the document read again from what a first reading
/// left finds no further host and leaves that text as it is, and what was
/// read followed by what was left is the whole input.
pub proof fn lemma_remainder_reads_nothing(s: Seq<u8>)
    ensures
        spec_hosts(spec_hosts(s).0) == (spec_hosts(s).0, Seq::<HostView>::empty()),
        is_suffix(spec_hosts(s).0, s),
        s.take(s.len() - spec_hosts(s).0.len()) + spec_hosts(s).0 == s,
    decreases s.len(),
{
    lemma_host_block_suffix(s);
    match spec_host_block(s) {
        Ok((r, _)) => {
            lemma_remainder_reads_nothing(r);
            assert(s.skip(s.len() - r.len()).skip(r.len() - spec_hosts(r).0.len()) =~= s.skip(
                s.len() - spec_hosts(r).0.len(),
            ));
        },
        Err(_) => {
            assert(s.skip(0) =~= s);
        },
    }
    let rest = spec_hosts(s).0;
    assert(s.take(s.len() - rest.len()) + rest =~= s);
}

/// A property that its line gives back as it is: a key other than `Host`
/// with no whitespace character, `#` or `=`, and a value with no line end, no
/// `#`, no whitespace character at either end and no `=` in front.
pub open spec fn well_formed_property(p: PropertyView) -> bool {
    &&& p.0.len() > 0
    &&& is_run(p.0, ByteClass::Key)
    &&& p.0 != host_keyword()
    &&& all_in(p.1, ByteClass::Value)
    &&& p.1.len() > 0 ==> ws_len(p.1) == 0 && p.1[0] != EQUALS && ws_len_end(p.1) == 0
}

/// A host whose name is a bare token (no whitespace character, no `#`) that
/// does not start with `=`, and whose properties are well formed.
pub open spec fn well_formed_host(h: HostView) -> bool {
    &&& h.0.len() > 0
    &&& is_run(h.0, ByteClass::Token)
    &&& h.0[0] != EQUALS
    &&& forall|i: int| 0 <= i < h.1.len() ==> well_formed_property(#[trigger] h.1[i])
}

/// Every host of `doc` is well formed.
pub open spec fn well_formed_document(doc: Seq<HostView>) -> bool {
    forall|i: int| 0 <= i < doc.len() ==> well_formed_host(#[trigger] doc[i])
}

/// `Key value` and a line feed.
pub open spec fn render_property(p: PropertyView) -> Seq<u8> {
    p.0 + seq![0x20u8] + p.1 + seq![LF]
}

pub open spec fn render_properties(ps: Seq<PropertyView>) -> Seq<u8>
    decreases ps.len(),
{
    if ps.len() == 0 {
        Seq::empty()
    } else {
        render_property(ps[0]) + render_properties(ps.drop_first())
    }
}

/// `Host name`, a line feed, and the host's property lines.
pub open spec fn render_host(h: HostView) -> Seq<u8> {
    host_keyword() + seq![0x20u8] + h.0 + seq![LF] + render_properties(h.1)
}

/// The text of a document: its host blocks one after another.
pub open spec fn render_document(doc: Seq<HostView>) -> Seq<u8>
    decreases doc.len(),
{
    if doc.len() == 0 {
        Seq::empty()
    } else {
        render_host(doc[0]) + render_document(doc.drop_first())
    }
}

proof fn lemma_skip_nothing(t: Seq<u8>)
    requires
        t.len() > 0 ==> !in_class(ByteClass::Space, t[0]) && t[0] != HASH,
    ensures
        spec_skip(t) == t,
{
}

/// The line of a well-formed property reads back as that property.
proof fn lemma_property_line_rendered(p: PropertyView, t: Seq<u8>)
    requires
        well_formed_property(p),
    ensures
        spec_property_line(render_property(p) + t) == Outcome::<PropertyView>::Ok((t, p)),
{
    let k = p.0;
    let v = p.1;
    let after_key = seq![0x20u8] + v + seq![LF] + t;
    let x = render_property(p) + t;
    assert(x =~= k + after_key);
    assert(k[0] == x[0]);
    assert(k.skip(0) =~= k);
    assert(continues(ByteClass::Key, k.skip(0)));
    assert(in_class(ByteClass::Key, k[0]));
    assert(span_rest(x, ByteClass::Blank) == x);
    lemma_run_concat(k, after_key, ByteClass::Key);
    if k.len() == 4 && starts_with_host(x) {
        assert(k =~= host_keyword());
    }
    // the separator
    let r = v + seq![LF] + t;
    assert(after_key =~= seq![0x20u8] + r);
    reveal(ws_len);
    if v.len() > 0 {
        assert(r[0] == v[0]);
    } else {
        assert(r[0] == LF);
    }
    lemma_span_concat(seq![0x20u8], r, ByteClass::Blank);
    // the value
    let e = seq![LF] + t;
    assert(r =~= v + e);
    lemma_span_concat(v, e, ByteClass::Value);
    assert(span_rest(e, ByteClass::Blank) == e);
    assert(e.drop_first() =~= t);
    assert(trim_start(v) == v);
    assert(trim_end(v) == v);
    assert(trim(v) == v);
}

/// The header of a host with a well-formed name reads back as that name.
proof fn lemma_host_line_rendered(name: Seq<u8>, t: Seq<u8>)
    requires
        name.len() > 0,
        is_run(name, ByteClass::Token),
        name[0] != EQUALS,
    ensures
        spec_host_line(host_keyword() + seq![0x20u8] + name + seq![LF] + t) == Outcome::<Seq<u8>>::Ok(
            (t, name),
        ),
{
    let x = host_keyword() + seq![0x20u8] + name + seq![LF] + t;
    assert(span_rest(x, ByteClass::Blank) == x);
    let r = name + seq![LF] + t;
    assert(x.skip(4) =~= seq![0x20u8] + r);
    assert(r[0] == name[0]);
    assert(name.skip(0) =~= name);
    assert(continues(ByteClass::Token, name.skip(0)));
    assert(in_class(ByteClass::Token, name[0]));
    lemma_span_concat(seq![0x20u8], r, ByteClass::Blank);
    let e = seq![LF] + t;
    assert(r =~= name + e);
    lemma_run_concat(name, e, ByteClass::Token);
    assert(span_rest(e, ByteClass::Blank) == e);
    assert(e.drop_first() =~= t);
}

/// Where a block's properties end: the end of the input, or a host header.
pub open spec fn ends_properties(t: Seq<u8>) -> bool {
    t.len() == 0 || (t[0] == 0x48u8 && spec_host_line(t) is Ok)
}

proof fn lemma_properties_rendered(ps: Seq<PropertyView>, t: Seq<u8>)
    requires
        forall|i: int| 0 <= i < ps.len() ==> well_formed_property(#[trigger] ps[i]),
        ends_properties(t),
    ensures
        spec_properties(render_properties(ps) + t) == (t, ps),
    decreases ps.len(),
{
    let x = render_properties(ps) + t;
    if ps.len() == 0 {
        assert(x =~= t);
        lemma_skip_nothing(t);
        if t.len() > 0 {
            lemma_header_is_not_property(t);
        }
        if t.len() == 0 {
            assert(span_rest(t, ByteClass::Blank) == t);
            assert(span_rest(t, ByteClass::Key) == t);
        }
    } else {
        let p = ps[0];
        let rest = ps.drop_first();
        let y = render_properties(rest) + t;
        assert(x =~= render_property(p) + y);
        assert(well_formed_property(p));
        assert(x[0] == p.0[0]);
        assert(p.0.skip(0) =~= p.0);
        assert(continues(ByteClass::Key, p.0.skip(0)));
        assert(in_class(ByteClass::Key, p.0[0]));
        lemma_skip_nothing(x);
        lemma_property_line_rendered(p, y);
        if rest.len() > 0 {
            assert(well_formed_property(rest[0]));
            assert(render_properties(rest) =~= render_property(rest[0]) + render_properties(rest.drop_first()));
            assert(y[0] == rest[0].0[0]);
            assert(rest[0].0.skip(0) =~= rest[0].0);
            assert(continues(ByteClass::Key, rest[0].0.skip(0)));
            assert(in_class(ByteClass::Key, rest[0].0[0]));
        } else {
            assert(y =~= t);
        }
        lemma_skip_nothing(y);
        assert forall|i: int| 0 <= i < rest.len() implies well_formed_property(#[trigger] rest[i]) by {
            assert(rest[i] == ps[i + 1]);
        }
        lemma_properties_rendered(rest, t);
        assert(seq![p] + rest =~= ps);
    }
}

proof fn lemma_document_ends_properties(doc: Seq<HostView>)
    requires
        well_formed_document(doc),
    ensures
        ends_properties(render_document(doc)),
{
    if doc.len() > 0 {
        let h = doc[0];
        assert(well_formed_host(h));
        let x = render_document(doc);
        assert(x =~= host_keyword() + seq![0x20u8] + h.0 + seq![LF] + (render_properties(h.1)
            + render_document(doc.drop_first())));
        lemma_host_line_rendered(h.0, render_properties(h.1) + render_document(doc.drop_first()));
    }
}

/// A document made only of well-formed host blocks is read whole: nothing is
/// left, and there is one host per `Host` header, in the order the headers
/// are written, each with its properties in the order they are written.
pub proof fn lemma_well_formed_document(doc: Seq<HostView>)
    requires
        well_formed_document(doc),
    ensures
        spec_hosts(render_document(doc)) == (Seq::<u8>::empty(), doc),
        spec_skip(spec_hosts(render_document(doc)).0).len() == 0,
        spec_hosts(render_document(doc)).1.len() == doc.len(),
    decreases doc.len(),
{
    reveal(spec_host_block);
    let x = render_document(doc);
    if doc.len() == 0 {
        assert(spec_host_line(x) is Err);
    } else {
        let h = doc[0];
        let rest = doc.drop_first();
        let t = render_document(rest);
        assert(well_formed_host(h));
        assert(well_formed_document(rest)) by {
            assert forall|i: int| 0 <= i < rest.len() implies well_formed_host(#[trigger] rest[i]) by {
                assert(rest[i] == doc[i + 1]);
            }
        }
        assert(x =~= host_keyword() + seq![0x20u8] + h.0 + seq![LF] + (render_properties(h.1)
            + t));
        lemma_skip_nothing(x);
        lemma_host_line_rendered(h.0, render_properties(h.1) + t);
        lemma_document_ends_properties(rest);
        lemma_properties_rendered(h.1, t);
        if t.len() > 0 {
            lemma_skip_nothing(t);
        }
        lemma_well_formed_document(rest);
        assert(seq![h] + rest =~= doc);
    }
}

proof fn lemma_render_document_concat(d1: Seq<HostView>, d2: Seq<HostView>)
    ensures
        render_document(d1 + d2) == render_document(d1) + render_document(d2),
    decreases d1.len(),
{
    if d1.len() == 0 {
        assert(d1 + d2 =~= d2);
        assert(render_document(d1) + render_document(d2) =~= render_document(d2));
    } else {
        assert((d1 + d2).drop_first() =~= d1.drop_first() + d2);
        lemma_render_document_concat(d1.drop_first(), d2);
        assert(render_document(d1 + d2) =~= render_document(d1) + render_document(d2));
    }
}

/// Blocks are read in file order: the text of one document followed by the
/// text of another reads as the hosts of the first, then those of the second.
pub proof fn lemma_blocks_in_file_order(d1: Seq<HostView>, d2: Seq<HostView>)
    requires
        well_formed_document(d1),
        well_formed_document(d2),
    ensures
        spec_hosts(render_document(d1) + render_document(d2)) == (Seq::<u8>::empty(), d1 + d2),
{
    assert(well_formed_document(d1 + d2)) by {
        assert forall|i: int| 0 <= i < (d1 + d2).len() implies well_formed_host(#[trigger] (d1 + d2)[i]) by {
            if i < d1.len() {
                assert((d1 + d2)[i] == d1[i]);
            } else {
                assert((d1 + d2)[i] == d2[i - d1.len()]);
            }
        }
    }
    lemma_render_document_concat(d1, d2);
    lemma_well_formed_document(d1 + d2);
}

/// A line whose first token is the keyword `Host`, like any line that reads
/// as a host header, is never read as a property.
pub proof fn lemma_host_is_never_property(s: Seq<u8>)
    ensures
        spec_token(span_rest(s, ByteClass::Blank)) is Ok && spec_token(
            span_rest(s, ByteClass::Blank),
        )->Ok_0.1 == host_keyword() ==> spec_property_line(s) is Err,
        spec_host_line(s) is Ok ==> spec_property_line(s) is Err,
{
    let r0 = span_rest(s, ByteClass::Blank);
    if spec_token(r0) is Ok && spec_token(r0)->Ok_0.1 == host_keyword() {
        let n = span_len(r0, ByteClass::Token);
        lemma_span_rest(r0, ByteClass::Token);
        assert(r0.take(n) == host_keyword());
        assert(n == 4);
        assert(r0[0] == 0x48u8 && r0[1] == 0x6fu8 && r0[2] == 0x73u8 && r0[3] == 0x74u8) by {
            assert(r0.take(n)[0] == r0[0] && r0.take(n)[1] == r0[1]);
            assert(r0.take(n)[2] == r0[2] && r0.take(n)[3] == r0[3]);
        }
        lemma_span_at(r0, ByteClass::Key, 4);
    }
    if spec_host_line(s) is Ok {
        lemma_header_is_not_property(s);
    }
}

proof fn lemma_header_read(name: Seq<u8>, e: Seq<u8>)
    requires
        name.len() > 0,
        is_run(name, ByteClass::Token),
        name[0] != EQUALS,
        e == Seq::<u8>::empty() || e == seq![LF] || e == seq![CR, LF],
    ensures
        spec_host_line(host_keyword() + seq![0x20u8] + name + e) == Outcome::<Seq<u8>>::Ok(
            (Seq::<u8>::empty(), name),
        ),
{
    let x = host_keyword() + seq![0x20u8] + name + e;
    assert(span_rest(x, ByteClass::Blank) == x);
    let r = name + e;
    assert(x.skip(4) =~= seq![0x20u8] + r);
    assert(r[0] == name[0]);
    assert(name.skip(0) =~= name);
    assert(continues(ByteClass::Token, name.skip(0)));
    lemma_span_concat(seq![0x20u8], r, ByteClass::Blank);
    lemma_run_concat(name, e, ByteClass::Token);
    if e.len() > 0 {
        assert(span_rest(e, ByteClass::Blank) == e);
    }
    if e.len() == 1 {
        assert(e.drop_first() =~= Seq::<u8>::empty());
    }
    if e.len() == 2 {
        assert(e.skip(2) =~= Seq::<u8>::empty());
    }
}

/// A host header reads the same whether the end of the input, `\n` or
/// `\r\n` ends it: for a name that is a bare token not starting with `=`,
/// each gives the name and leaves nothing.
pub proof fn lemma_header_with_or_without_line_end(name: Seq<u8>)
    requires
        name.len() > 0,
        is_run(name, ByteClass::Token),
        name[0] != EQUALS,
    ensures
        spec_host_line(host_keyword() + seq![0x20u8] + name) == Outcome::<Seq<u8>>::Ok(
            (Seq::<u8>::empty(), name),
        ),
        spec_host_line(host_keyword() + seq![0x20u8] + name + seq![LF]) == Outcome::<
            Seq<u8>,
        >::Ok((Seq::<u8>::empty(), name)),
        spec_host_line(host_keyword() + seq![0x20u8] + name + seq![CR, LF]) == Outcome::<
            Seq<u8>,
        >::Ok((Seq::<u8>::empty(), name)),
{
    lemma_header_read(name, Seq::<u8>::empty());
    assert(host_keyword() + seq![0x20u8] + name + Seq::<u8>::empty() =~= host_keyword()
        + seq![0x20u8] + name);
    lemma_header_read(name, seq![LF]);
    lemma_header_read(name, seq![CR, LF]);
}

} // verus!
