//! From events to a tree, and from text to a tree.

use crate::attrs::{Attrs, Pairs};
use crate::entities::{Node, Tree};
use crate::events::{event_views, EventModel, ParseError, XmlEvent};
use crate::tokenizer::{document, tokenize};
use vstd::prelude::*;

verus! {

/// An element with a name and attributes and nothing else yet.
pub open spec fn sprout(name: Seq<char>, attrs: Pairs) -> Tree {
    Tree { name, attrs, children: Seq::empty(), text: None }
}

/// What reading an element gives: the element, the events that follow it,
/// and whether it ended with its closing tag (`closed`) or with the events.
pub struct Parsed {
    pub tree: Tree,
    pub rest: Seq<EventModel>,
    pub closed: bool,
}

/// Reads the element `node` on from `events`. `opened` says whether its
/// opening tag has been seen.
///
/// The first opening tag with the element's own name, if none has been seen,
/// gives the element its attributes. Any other opening tag starts a child,
/// which is read up to its closing tag and appended. A self-closing tag is a
/// child without content. Character data becomes the element's text, and
/// replaces what it had. The closing tag with the element's name ends it;
/// other closing tags are passed over. Where the events end, the element ends
/// as it stands.
///
/// A child uses up at least its opening tag, so what follows it is shorter
/// than `events`; the test for that is there for termination and never
/// fails.
pub open spec fn content(events: Seq<EventModel>, node: Tree, opened: bool) -> Parsed
    decreases events.len(),
{
    if events.len() == 0 {
        Parsed { tree: node, rest: events, closed: false }
    } else {
        let rest = events.skip(1);
        match events[0] {
            EventModel::Start { name, attrs } => {
                if !opened && name == node.name {
                    content(rest, Tree { attrs, ..node }, true)
                } else {
                    let child = content(rest, sprout(name, attrs), true);
                    if child.rest.len() < events.len() {
                        content(
                            child.rest,
                            Tree { children: node.children.push(child.tree), ..node },
                            opened,
                        )
                    } else {
                        Parsed { tree: node, rest: child.rest, closed: false }
                    }
                }
            },
            EventModel::Empty { name, attrs } => content(
                rest,
                Tree { children: node.children.push(sprout(name, attrs)), ..node },
                opened,
            ),
            EventModel::Text { content: text } => content(
                rest,
                Tree { text: Some(text), ..node },
                opened,
            ),
            EventModel::End { name } => {
                if name == node.name {
                    Parsed { tree: node, rest, closed: true }
                } else {
                    content(rest, node, opened)
                }
            },
        }
    }
}

/// The tree that the events `events` hold under the root name `root_tag`.
pub open spec fn tree_of_events(events: Seq<EventModel>, root_tag: Seq<char>) -> Tree {
    content(events, sprout(root_tag, Pairs::empty()), false).tree
}

/// What reading a document under the root name `root_tag` gives, where
/// `doc` holds the document's events and the error that ended them, if one
/// did: the tree of the events, unless the root was still open when the
/// error was met.
pub open spec fn outcome(doc: (Seq<EventModel>, Option<ParseError>), root_tag: Seq<char>) -> Result<
    Tree,
    ParseError,
> {
    let parsed = content(doc.0, sprout(root_tag, Pairs::empty()), false);
    match doc.1 {
        Some(e) => if parsed.closed {
            Ok(parsed.tree)
        } else {
            Err(e)
        },
        None => Ok(parsed.tree),
    }
}

/// Reads one element from `events`, from position `start` on. The element
/// has the name `root_tag` and the attributes `attrs`, and `opened` says
/// whether its opening tag lies before `start`. Returns the element, the
/// position after it, and whether its closing tag was found.
pub fn read_node(
    root_tag: String,
    attrs: Attrs,
    opened: bool,
    events: &Vec<XmlEvent>,
    start: usize,
) -> (r: (Node, usize, bool))
    requires
        start <= events.len(),
    ensures
        start <= r.1 <= events.len(),
        content(event_views(events@).skip(start as int), sprout(root_tag@, attrs@), opened)
            == (Parsed { tree: r.0@, rest: event_views(events@).skip(r.1 as int), closed: r.2 }),
    decreases events.len() - start,
{
    let ghost all = event_views(events@);
    let ghost first = sprout(root_tag@, attrs@);
    let mut root = Node { name: root_tag, attrs, children: Vec::new(), text: None };
    let mut opened_now = opened;
    let mut pos: usize = start;
    assert(root@.children =~= Seq::empty());
    while pos < events.len()
        invariant
            start <= pos <= events.len(),
            all == event_views(events@),
            first == sprout(root_tag@, attrs@),
            content(all.skip(pos as int), root@, opened_now) == content(
                all.skip(start as int),
                first,
                opened,
            ),
        decreases events.len() - pos,
    {
        let ghost here = all.skip(pos as int);
        let ghost before = root@;
        assert(here.len() > 0 && here[0] == events[pos as int]@);
        assert(here.skip(1) =~= all.skip(pos + 1));
        match &events[pos] {
            XmlEvent::Start { name, attrs } => {
                if !opened_now && *name == root.name {
                    root.attrs = attrs.clone();
                    opened_now = true;
                    pos += 1;
                    assert(root@ == (Tree { attrs: attrs@, ..before }));
                } else {
                    let (child, next, _) = read_node(
                        name.clone(),
                        attrs.clone(),
                        true,
                        events,
                        pos + 1,
                    );
                    root.children.push(child);
                    pos = next;
                    assert(root@.children =~= before.children.push(child@));
                    assert(root@ == (Tree { children: before.children.push(child@), ..before }));
                }
            },
            XmlEvent::Empty { name, attrs } => {
                let child = Node {
                    name: name.clone(),
                    attrs: attrs.clone(),
                    children: Vec::new(),
                    text: None,
                };
                assert(child@.children =~= Seq::empty());
                root.children.push(child);
                pos += 1;
                assert(root@.children =~= before.children.push(sprout(name@, attrs@)));
                assert(root@ == (Tree {
                    children: before.children.push(sprout(name@, attrs@)),
                    ..before
                }));
            },
            XmlEvent::Text { content } => {
                root.text = Some(content.clone());
                pos += 1;
                assert(root@ == (Tree { text: Some(content@), ..before }));
            },
            XmlEvent::End { name } => {
                if *name == root.name {
                    assert(content(here, before, opened_now) == (Parsed {
                        tree: before,
                        rest: here.skip(1),
                        closed: true,
                    }));
                    return (root, pos + 1, true);
                }
                pos += 1;
            },
        }
    }
    assert(all.skip(pos as int).len() == 0);
    (root, pos, false)
}

/// The tree that `events` hold under the root name `root_tag`.
pub fn read_events(events: &Vec<XmlEvent>, root_tag: String) -> (root: Node)
    ensures
        root@ == tree_of_events(event_views(events@), root_tag@),
{
    assert(event_views(events@).skip(0) =~= event_views(events@));
    read_node(root_tag, Attrs::new(), false, events, 0).0
}

/// Reads the document `xml_string` into a tree whose root has the name
/// `root_tag`. A document that ends before the root is closed gives the tree
/// read so far; one that is malformed before the root is closed gives the
/// error with the position of the malformed part.
pub fn read_string(xml_string: String, root_tag: String) -> (r: Result<Node, ParseError>)
    ensures
        match r {
            Ok(root) => outcome(document(xml_string@), root_tag@) == Ok::<Tree, ParseError>(
                root@,
            ),
            Err(e) => outcome(document(xml_string@), root_tag@) == Err::<Tree, ParseError>(e),
        },
{
    let stream = tokenize(xml_string.as_str());
    assert(event_views(stream.events@).skip(0) =~= event_views(stream.events@));
    let (root, _, closed) = read_node(root_tag, Attrs::new(), false, &stream.events, 0);
    match stream.failure {
        Some(e) => if closed {
            Ok(root)
        } else {
            Err(e)
        },
        None => Ok(root),
    }
}

} // verus!
