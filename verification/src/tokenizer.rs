//! From text to events, by way of `quick_xml`'s reader.

use crate::attrs::{put, Attrs, Pairs};
use crate::events::{
    event_views, EventModel, EventStream, ParseError, RawEvent, RawKind, RawModel, XmlEvent,
};
use quick_xml::events::attributes::Attributes;
use quick_xml::events::Event;
use quick_xml::Reader;
use vstd::prelude::*;

verus! {

/// `quick_xml::Reader`, the tokenizer. What one has yet to deliver is told
/// by `upcoming`.
#[verifier::external_type_specification]
#[verifier::external_body]
#[verifier::reject_recursive_types(R)]
pub struct ExReader<R>(Reader<R>);

/// `quick_xml::events::Event`, one piece of markup as the tokenizer hands
/// it out. What one holds is told by `parts`.
#[verifier::external_type_specification]
#[verifier::external_body]
pub struct ExEvent<'a>(Event<'a>);

/// What a reader has yet to deliver: the raw events up to the place where
/// reading ends, and how it ends there, with the end of the input (`None`) or
/// with malformed markup at a byte offset.
pub struct Scan {
    pub raws: Seq<RawModel>,
    pub failure: Option<u64>,
}

/// `s` without its first raw event.
pub open spec fn after_first(s: Scan) -> Scan {
    Scan { raws: s.raws.skip(1), failure: s.failure }
}

/// What a text-trimming reader delivers of the document `xml`.
pub uninterp spec fn scan(xml: Seq<char>) -> Scan;

/// What `reader` has yet to deliver.
pub uninterp spec fn upcoming(reader: Reader<&[u8]>) -> Scan;

/// What `event` is, the name of its tag, and its content: the text of a
/// tag's attribute list, or character data with its escapes in place.
pub uninterp spec fn parts(event: Event) -> (RawKind, Seq<char>, Seq<char>);

/// The `(key, value)` pairs that the attribute list `raw` spells out, values
/// with their escapes in place, or `None` where it is malformed or repeats a
/// key.
pub uninterp spec fn attribute_pairs(raw: Seq<char>) -> Option<Pairs>;

/// `raw` with its character and entity references resolved, or `None` where
/// one of them is malformed or unknown.
pub uninterp spec fn unescaped(raw: Seq<char>) -> Option<Seq<char>>;

/// The views of a list of string pairs, in order.
pub open spec fn pair_views(pairs: Seq<(String, String)>) -> Pairs {
    Seq::new(pairs.len(), |i: int| (pairs[i].0@, pairs[i].1@))
}

/// The raw event that `event`, read up to `offset`, is.
pub open spec fn raw_of(event: Event, offset: u64) -> RawModel {
    RawModel {
        kind: parts(event).0,
        name: parts(event).1,
        body: parts(event).2,
        offset,
    }
}

/// `Reader::from_str` with `Config::trim_text(true)`: a reader at the start of
/// `xml` that drops the whitespace around character data.
#[verifier::external_body]
fn open_reader<'a>(xml: &'a str) -> (reader: Reader<&'a [u8]>)
    ensures
        upcoming(reader) == scan(xml@),
{
    let mut reader = Reader::from_str(xml);
    reader.config_mut().trim_text(true);
    reader
}

/// `Reader::read_event`, then `Reader::buffer_position`: the reader's next
/// event comes back with the position after it and leaves the reader; at
/// the end of the input nothing comes back and the reader stays as it is;
/// at malformed markup the position comes back.
#[verifier::external_body]
fn read_event<'a>(reader: &mut Reader<&'a [u8]>) -> (r: Result<
    Option<(Event<'a>, u64)>,
    ParseError,
>)
    ensures
        match r {
            Ok(Some(found)) => upcoming(*old(reader)).raws.len() > 0 && raw_of(found.0, found.1)
                == upcoming(*old(reader)).raws[0] && upcoming(*final(reader)) == after_first(
                upcoming(*old(reader)),
            ),
            Ok(None) => upcoming(*old(reader)).raws.len() == 0 && upcoming(*old(reader)).failure
                is None && upcoming(*final(reader)) == upcoming(*old(reader)),
            Err(e) => upcoming(*old(reader)).raws.len() == 0 && upcoming(*old(reader)).failure
                == Some(e.offset),
        },
{
    let found = reader.read_event();
    let offset = reader.buffer_position();
    match found {
        Ok(Event::Eof) => Ok(None),
        Ok(event) => Ok(Some((event, offset))),
        Err(_) => Err(ParseError { offset }),
    }
}

/// The variants of `Event` told apart, with `BytesStart::name` and
/// `BytesStart::attributes_raw` for a tag, `BytesEnd::name` for a closing tag
/// and the bytes of a `BytesText` for character data, each as a string.
#[verifier::external_body]
fn take_apart(event: &Event) -> (r: (RawKind, String, String))
    ensures
        (r.0, r.1@, r.2@) == parts(*event),
{
    let text = |b: &[u8]| String::from_utf8_lossy(b).into_owned();
    match event {
        Event::Start(e) => (RawKind::Start, text(e.name().0), text(e.attributes_raw())),
        Event::Empty(e) => (RawKind::Empty, text(e.name().0), text(e.attributes_raw())),
        Event::End(e) => (RawKind::End, text(e.name().0), String::new()),
        Event::Text(e) => (RawKind::Text, String::new(), text(e)),
        _ => (RawKind::Other, String::new(), String::new()),
    }
}

/// The `Attributes` iterator over `raw`, each `Attribute` handed out as its
/// key and its raw value.
#[verifier::external_body]
fn split_attributes(raw: &str) -> (r: Option<Vec<(String, String)>>)
    ensures
        match r {
            Some(pairs) => attribute_pairs(raw@) == Some(pair_views(pairs@)),
            None => attribute_pairs(raw@) is None,
        },
{
    let text = |b: &[u8]| String::from_utf8_lossy(b).into_owned();
    Attributes::new(raw, 0).map(|a| a.map(|a| (text(a.key.0), text(&a.value))).ok()).collect()
}

/// `quick_xml::escape::unescape`.
#[verifier::external_body]
fn unescape(raw: &str) -> (r: Option<String>)
    ensures
        match r {
            Some(text) => unescaped(raw@) == Some(text@),
            None => unescaped(raw@) is None,
        },
{
    quick_xml::escape::unescape(raw).ok().map(|text| text.into_owned())
}

/// The attributes that the raw pairs `pairs` give when they are set one
/// after the other on `so_far`, each value with its escapes resolved; `None`
/// where a value cannot be resolved.
pub open spec fn gathered(pairs: Pairs, so_far: Pairs) -> Option<Pairs>
    decreases pairs.len(),
{
    if pairs.len() == 0 {
        Some(so_far)
    } else {
        match unescaped(pairs[0].1) {
            Some(value) => gathered(pairs.skip(1), put(so_far, pairs[0].0, value)),
            None => None,
        }
    }
}

/// The attributes that the attribute list `raw` spells out.
pub open spec fn attributes(raw: Seq<char>) -> Option<Pairs> {
    match attribute_pairs(raw) {
        Some(pairs) => gathered(pairs, Pairs::empty()),
        None => None,
    }
}

/// The structural event that the raw event `raw` decodes to: `Ok(None)` for
/// what the tree has no place for, an error at the raw event's offset where
/// its attributes or its text cannot be decoded.
pub open spec fn decoded(raw: RawModel) -> Result<Option<EventModel>, ParseError> {
    match raw.kind {
        RawKind::Start => match attributes(raw.body) {
            Some(attrs) => Ok(Some(EventModel::Start { name: raw.name, attrs })),
            None => Err(ParseError { offset: raw.offset }),
        },
        RawKind::Empty => match attributes(raw.body) {
            Some(attrs) => Ok(Some(EventModel::Empty { name: raw.name, attrs })),
            None => Err(ParseError { offset: raw.offset }),
        },
        RawKind::End => Ok(Some(EventModel::End { name: raw.name })),
        RawKind::Text => match unescaped(raw.body) {
            Some(content) => Ok(Some(EventModel::Text { content })),
            None => Err(ParseError { offset: raw.offset }),
        },
        RawKind::Other => Ok(None),
    }
}

/// How reading ends once the raw events are used up.
pub open spec fn ending(failure: Option<u64>) -> Option<ParseError> {
    match failure {
        Some(offset) => Some(ParseError { offset }),
        None => None,
    }
}

/// The structural events that the raw events `raws` decode to, up to the
/// first that cannot be decoded, and the error that ends them: that raw
/// event's, or else the tokenizer's own, `failure`.
pub open spec fn stream(raws: Seq<RawModel>, failure: Option<u64>) -> (
    Seq<EventModel>,
    Option<ParseError>,
)
    decreases raws.len(),
{
    if raws.len() == 0 {
        (Seq::empty(), ending(failure))
    } else {
        match decoded(raws[0]) {
            Err(e) => (Seq::empty(), Some(e)),
            Ok(None) => stream(raws.skip(1), failure),
            Ok(Some(event)) => {
                let rest = stream(raws.skip(1), failure);
                (seq![event] + rest.0, rest.1)
            },
        }
    }
}

/// The event stream of the document `xml`, as specifications see it.
pub open spec fn document(xml: Seq<char>) -> (Seq<EventModel>, Option<ParseError>) {
    stream(scan(xml).raws, scan(xml).failure)
}

/// Reads the attribute list `raw` of a tag into attributes: each key with
/// its value decoded, a later value for a key replacing an earlier one.
pub fn get_attrs(raw: &str) -> (r: Option<Attrs>)
    ensures
        match r {
            Some(attrs) => attributes(raw@) == Some(attrs@),
            None => attributes(raw@) is None,
        },
{
    let pairs = match split_attributes(raw) {
        Some(pairs) => pairs,
        None => {
            return None;
        },
    };
    let mut attrs = Attrs::new();
    let mut i: usize = 0;
    assert(pair_views(pairs@).skip(0) =~= pair_views(pairs@));
    while i < pairs.len()
        invariant
            i <= pairs.len(),
            attribute_pairs(raw@) == Some(pair_views(pairs@)),
            gathered(pair_views(pairs@).skip(i as int), attrs@) == gathered(
                pair_views(pairs@),
                Pairs::empty(),
            ),
        decreases pairs.len() - i,
    {
        let ghost rest = pair_views(pairs@).skip(i as int);
        assert(rest[0] == pair_views(pairs@)[i as int]);
        assert(rest.skip(1) =~= pair_views(pairs@).skip(i + 1));
        match unescape(pairs[i].1.as_str()) {
            Some(value) => {
                attrs.insert(pairs[i].0.clone(), value);
            },
            None => {
                return None;
            },
        }
        i += 1;
    }
    Some(attrs)
}

/// Decodes one raw event.
pub fn decode(raw: RawEvent) -> (r: Result<Option<XmlEvent>, ParseError>)
    ensures
        match r {
            Ok(Some(event)) => decoded(raw@) == Ok::<Option<EventModel>, ParseError>(
                Some(event@),
            ),
            Ok(None) => decoded(raw@) == Ok::<Option<EventModel>, ParseError>(None),
            Err(e) => decoded(raw@) == Err::<Option<EventModel>, ParseError>(e),
        },
{
    let failure = ParseError { offset: raw.offset };
    match raw.kind {
        RawKind::Start => match get_attrs(raw.body.as_str()) {
            Some(attrs) => Ok(Some(XmlEvent::Start { name: raw.name, attrs })),
            None => Err(failure),
        },
        RawKind::Empty => match get_attrs(raw.body.as_str()) {
            Some(attrs) => Ok(Some(XmlEvent::Empty { name: raw.name, attrs })),
            None => Err(failure),
        },
        RawKind::End => Ok(Some(XmlEvent::End { name: raw.name })),
        RawKind::Text => match unescape(raw.body.as_str()) {
            Some(content) => Ok(Some(XmlEvent::Text { content })),
            None => Err(failure),
        },
        RawKind::Other => Ok(None),
    }
}

/// Reads the document `xml` into its structural events. Reading stops at
/// the end of the input or at the first thing that is malformed.
pub fn tokenize(xml: &str) -> (s: EventStream)
    ensures
        (event_views(s.events@), s.failure) == document(xml@),
{
    let mut reader = open_reader(xml);
    let mut events: Vec<XmlEvent> = Vec::new();
    loop
        invariant
            document(xml@) == (
                event_views(events@) + stream(
                    upcoming(reader).raws,
                    upcoming(reader).failure,
                ).0,
                stream(upcoming(reader).raws, upcoming(reader).failure).1,
            ),
        decreases upcoming(reader).raws.len(),
    {
        let ghost before = event_views(events@);
        let decoded = match read_event(&mut reader) {
            Ok(Some(found)) => {
                let (kind, name, body) = take_apart(&found.0);
                decode(RawEvent { kind, name, body, offset: found.1 })
            },
            Ok(None) => {
                assert(before + Seq::<EventModel>::empty() =~= before);
                return EventStream { events, failure: None };
            },
            Err(e) => Err(e),
        };
        match decoded {
            Ok(Some(event)) => {
                events.push(event);
                assert(event_views(events@) =~= before + seq![event@]);
                assert forall|rest: Seq<EventModel>|
                    before + (seq![event@] + rest) == #[trigger] (before + seq![event@] + rest) by {
                    assert(before + (seq![event@] + rest) =~= before + seq![event@] + rest);
                }
            },
            Ok(None) => {},
            Err(e) => {
                assert(before + Seq::<EventModel>::empty() =~= before);
                return EventStream { events, failure: Some(e) };
            },
        }
    }
}

} // verus!
