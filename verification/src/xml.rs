//! XML tokenization through `quick_xml`: the reader's event stream, taken as
//! plain values that the document walkers of this crate consume.

use vstd::prelude::*;

use quick_xml::events::Event;
use quick_xml::Reader;

use crate::strs::{str_eq, utf8_lossy, utf8_lossy_spec};

verus! {

#[verifier::external_type_specification]
#[verifier::external_body]
#[verifier::reject_recursive_types(R)]
pub struct ExReader<R>(Reader<R>);

/// One reader event, reduced to what the walkers read: the raw (qualified)
/// name of a start or end tag, the unescaped text of a text node, the end of
/// the input, a reader error, or any other event.
pub enum XmlEvent {
    Start(Vec<u8>),
    End(Vec<u8>),
    Text(String),
    Other,
    Eof,
    Failed,
}

/// The mathematical value of an [`XmlEvent`].
pub enum XmlEventView {
    Start(Seq<u8>),
    End(Seq<u8>),
    Text(Seq<char>),
    Other,
    Eof,
    Failed,
}

impl View for XmlEvent {
    type V = XmlEventView;

    open spec fn view(&self) -> XmlEventView {
        match self {
            XmlEvent::Start(n) => XmlEventView::Start(n@),
            XmlEvent::End(n) => XmlEventView::End(n@),
            XmlEvent::Text(t) => XmlEventView::Text(t@),
            XmlEvent::Other => XmlEventView::Other,
            XmlEvent::Eof => XmlEventView::Eof,
            XmlEvent::Failed => XmlEventView::Failed,
        }
    }
}

/// Whether the event ends a walk: the end of input or a reader error.
pub open spec fn is_final(e: XmlEventView) -> bool {
    e is Eof || e is Failed
}

/// The events that a fresh `quick_xml` reader over `src` yields, up to and
/// including the first end of input or error.
pub uninterp spec fn xml_events_spec(src: Seq<char>) -> Seq<XmlEventView>;

/// The events that the reader has yet to yield, up to and including the
/// first end of input or error.
pub uninterp spec fn reader_pending(r: Reader<&[u8]>) -> Seq<XmlEventView>;

/// A well-formed event stream: it is not empty, it ends in its one final
/// event.
pub open spec fn stream_ends_once(s: Seq<XmlEventView>) -> bool {
    &&& s.len() > 0
    &&& is_final(s.last())
    &&& forall|i: int| 0 <= i < s.len() - 1 ==> !is_final(#[trigger] s[i])
}

/// `Reader::from_str`: a reader whose pending events are the event stream of
/// `xml`. That stream is cut at its first end of input or error, so it ends
/// there and nowhere before.
#[verifier::external_body]
fn xml_reader<'a>(xml: &'a str) -> (r: Reader<&'a [u8]>)
    ensures
        reader_pending(r) == xml_events_spec(xml@),
        stream_ends_once(reader_pending(r)),
{
    Reader::from_str(xml)
}

/// `Reader::read_event`: yields the next pending event and drops it from the
/// pending ones. Start and end tags are given by their raw names, text by its
/// unescaped content (empty where unescaping fails); other events are not
/// told apart. Nothing is stated of a read past the end of the stream.
#[verifier::external_body]
fn next_event<'a>(r: &mut Reader<&'a [u8]>) -> (e: XmlEvent)
    ensures
        reader_pending(*old(r)).len() > 0 ==> e@ == reader_pending(*old(r))[0],
        reader_pending(*old(r)).len() > 0 ==> reader_pending(*final(r)) == reader_pending(*old(r)).drop_first(),
{
    match r.read_event() {
        Ok(Event::Start(t)) => XmlEvent::Start(t.name().as_ref().to_vec()),
        Ok(Event::End(t)) => XmlEvent::End(t.name().as_ref().to_vec()),
        Ok(Event::Text(t)) => XmlEvent::Text(t.unescape().unwrap_or_default().into_owned()),
        Ok(Event::Eof) => XmlEvent::Eof,
        Ok(_) => XmlEvent::Other,
        Err(_) => XmlEvent::Failed,
    }
}

/// The views of a sequence of events.
pub open spec fn events_view(v: Seq<XmlEvent>) -> Seq<XmlEventView> {
    v.map_values(|e: XmlEvent| e@)
}

/// All events of `xml`, read one by one until the end of input or the first
/// reader error.
pub fn xml_events(xml: &str) -> (v: Vec<XmlEvent>)
    ensures
        events_view(v@) == xml_events_spec(xml@),
        stream_ends_once(events_view(v@)),
{
    let mut reader = xml_reader(xml);
    let ghost all = xml_events_spec(xml@);
    let mut v: Vec<XmlEvent> = Vec::new();
    loop
        invariant
            all == xml_events_spec(xml@),
            stream_ends_once(all),
            v@.len() < all.len(),
            events_view(v@) == all.take(v@.len() as int),
            reader_pending(reader) == all.skip(v@.len() as int),
        decreases all.len() - v@.len(),
    {
        let ghost before = v@;
        let e = next_event(&mut reader);
        let stop = match e {
            XmlEvent::Eof => true,
            XmlEvent::Failed => true,
            _ => false,
        };
        v.push(e);
        assert(events_view(v@) =~= all.take(v@.len() as int));
        assert(reader_pending(reader) =~= all.skip(v@.len() as int));
        if stop {
            assert(v@.len() == all.len()) by {
                if v@.len() < all.len() {
                    assert(!is_final(all[v@.len() - 1]));
                }
            }
            assert(all.take(v@.len() as int) =~= all);
            return v;
        }
    }
}

/// The local part of a possibly prefixed name: what follows its last `:`.
pub open spec fn local_part(raw: Seq<u8>) -> Seq<u8>
    decreases raw.len(),
{
    if raw.len() == 0 {
        raw
    } else if raw.last() == 58 {
        Seq::empty()
    } else {
        local_part(raw.drop_last()).push(raw.last())
    }
}

/// The index of the first byte of the local part.
fn local_start(raw: &[u8]) -> (k: usize)
    ensures
        k <= raw@.len(),
        raw@.skip(k as int) == local_part(raw@),
{
    let mut k: usize = raw.len();
    assert(raw@.take(k as int) =~= raw@);
    assert(raw@.skip(k as int) =~= Seq::<u8>::empty());
    assert(local_part(raw@) =~= local_part(raw@) + Seq::<u8>::empty());
    while k > 0 && raw[k - 1] != 58
        invariant
            k <= raw@.len(),
            local_part(raw@) == local_part(raw@.take(k as int)) + raw@.skip(k as int),
        decreases k,
    {
        assert(raw@.take(k as int).drop_last() =~= raw@.take(k - 1));
        assert(raw@.skip(k - 1) =~= seq![raw@[k - 1]] + raw@.skip(k as int));
        assert(local_part(raw@.take(k - 1)) + raw@.skip(k - 1) =~= local_part(raw@.take(k - 1)).push(raw@[k - 1]) + raw@.skip(k as int));
        k -= 1;
    }
    if k == 0 {
        assert(raw@.take(0) =~= Seq::<u8>::empty());
    } else {
        assert(local_part(raw@.take(k as int)) =~= Seq::<u8>::empty());
    }
    assert(local_part(raw@.take(k as int)) + raw@.skip(k as int) =~= raw@.skip(k as int));
    k
}

/// The local name of a tag, decoded as `String::from_utf8_lossy` decodes it.
pub open spec fn local_name_spec(raw: Seq<u8>) -> Seq<char> {
    utf8_lossy_spec(local_part(raw))
}

/// Extract the local name from a potentially namespace-prefixed XML tag name.
/// `"w:p"` → `"p"`, `"p"` → `"p"`.
pub fn xml_local_name(raw: &[u8]) -> (s: String)
    ensures
        s@ == local_name_spec(raw@),
{
    let k = local_start(raw);
    let tail = slice_skip(raw, k);
    utf8_lossy(tail.as_slice())
}

fn slice_skip(s: &[u8], k: usize) -> (r: Vec<u8>)
    requires
        k <= s@.len(),
    ensures
        r@ == s@.skip(k as int),
{
    let mut r: Vec<u8> = Vec::new();
    let mut i = k;
    while i < s.len()
        invariant
            k <= i <= s@.len(),
            r@ == s@.subrange(k as int, i as int),
        decreases s@.len() - i,
    {
        r.push(s[i]);
        i += 1;
        assert(r@ =~= s@.subrange(k as int, i as int));
    }
    r
}

/// Whether the tag name's local part is `want`.
pub fn has_local_name(raw: &[u8], want: &str) -> (b: bool)
    ensures
        b == (local_name_spec(raw@) == want@),
{
    let n = xml_local_name(raw);
    str_eq(n.as_str(), want)
}

} // verus!

verus! {

/// Two events that differ at most in the namespace prefixes of their tag
/// names: the same kind, tags with the same local name, the same text.
pub open spec fn same_up_to_prefix(e1: XmlEventView, e2: XmlEventView) -> bool {
    match (e1, e2) {
        (XmlEventView::Start(n1), XmlEventView::Start(n2)) => local_name_spec(n1) == local_name_spec(n2),
        (XmlEventView::End(n1), XmlEventView::End(n2)) => local_name_spec(n1) == local_name_spec(n2),
        _ => e1 == e2,
    }
}

/// Two event streams that differ at most in the namespace prefixes of their
/// tag names, event by event.
pub open spec fn streams_same_up_to_prefix(s1: Seq<XmlEventView>, s2: Seq<XmlEventView>) -> bool {
    &&& s1.len() == s2.len()
    &&& forall|i: int| 0 <= i < s1.len() ==> same_up_to_prefix(#[trigger] s1[i], s2[i])
}

/// The local part of a name does not depend on its prefix: `p:local`, for
/// any prefix `p`, and the bare `local` have the same local part, `local`
/// itself, where `local` holds no `:`.
pub proof fn lemma_local_part_prefix(prefix: Seq<u8>, local: Seq<u8>)
    requires
        !local.contains(58u8),
    ensures
        local_part(local) == local,
        local_part(prefix.push(58u8) + local) == local,
    decreases local.len(),
{
    if local.len() == 0 {
        assert(prefix.push(58u8) + local =~= prefix.push(58u8));
    } else {
        let t = local.drop_last();
        assert(!t.contains(58u8)) by {
            if t.contains(58u8) {
                let k = choose|k: int| 0 <= k < t.len() && t[k] == 58u8;
                assert(local[k] == 58u8);
            }
        }
        lemma_local_part_prefix(prefix, t);
        assert(local[local.len() - 1] != 58u8);
        assert(local =~= t.push(local.last()));
        assert((prefix.push(58u8) + local).drop_last() =~= prefix.push(58u8) + t);
    }
}

} // verus!
