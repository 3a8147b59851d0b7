//! From a tree to text, by way of `quick_xml`'s writer.

use crate::attrs::Pairs;
use crate::common::{f_utf, spaces};
use crate::entities::{lemma_deepest, levels, Node, Tree};
use crate::events::EventModel;
use quick_xml::events::{BytesEnd, BytesStart, BytesText, Event};
use quick_xml::Writer;
use vstd::prelude::*;
use vstd::string::StringExecFns;
use vstd::utf8::encode_utf8;

verus! {

/// `quick_xml::Writer`, the pretty-printer. What one holds is told by
/// `page`.
#[verifier::external_type_specification]
#[verifier::external_body]
#[verifier::reject_recursive_types(W)]
pub struct ExWriter<W>(Writer<W>);

/// A pretty-printer's state: the text written so far, the width of the
/// current indentation, the width that one nesting level adds, and whether
/// the next tag starts on a line of its own.
pub struct Page {
    pub text: Seq<char>,
    pub margin: nat,
    pub step: nat,
    pub fresh: bool,
}

/// The state of `writer`.
pub uninterp spec fn page(writer: Writer<Vec<u8>>) -> Page;

/// The state in which a pretty-printer starts.
pub open spec fn blank(step: nat) -> Page {
    Page { text: Seq::empty(), margin: 0, step, fresh: false }
}

/// What goes before a tag: a line break and the indentation, if the tag
/// starts on a line of its own.
pub open spec fn lead(fresh: bool, margin: nat) -> Seq<char> {
    if fresh {
        seq!['\n'] + spaces(margin)
    } else {
        Seq::empty()
    }
}

/// How one character is written inside text and attribute values.
pub open spec fn escaped_char(c: char) -> Seq<char> {
    if c == '<' {
        seq!['&', 'l', 't', ';']
    } else if c == '>' {
        seq!['&', 'g', 't', ';']
    } else if c == '&' {
        seq!['&', 'a', 'm', 'p', ';']
    } else if c == '\'' {
        seq!['&', 'a', 'p', 'o', 's', ';']
    } else if c == '"' {
        seq!['&', 'q', 'u', 'o', 't', ';']
    } else {
        seq![c]
    }
}

/// `text` with the five characters of markup written as entity references.
pub open spec fn escaped(text: Seq<char>) -> Seq<char>
    decreases text.len(),
{
    if text.len() == 0 {
        Seq::empty()
    } else {
        escaped(text.drop_last()) + escaped_char(text.last())
    }
}

/// One attribute inside an opening tag.
pub open spec fn attribute_text(key: Seq<char>, value: Seq<char>) -> Seq<char> {
    seq![' '] + key + seq!['=', '"'] + escaped(value) + seq!['"']
}

/// The attributes inside an opening tag, in order.
pub open spec fn attributes_text(attrs: Pairs) -> Seq<char>
    decreases attrs.len(),
{
    if attrs.len() == 0 {
        Seq::empty()
    } else {
        attributes_text(attrs.drop_last()) + attribute_text(attrs.last().0, attrs.last().1)
    }
}

/// The state after an opening tag is written: the tag follows the lead, and
/// what comes next is indented by one level more.
pub open spec fn after_start(p: Page, name: Seq<char>, attrs: Pairs) -> Page {
    Page {
        text: p.text + lead(p.fresh, p.margin) + seq!['<'] + name + attributes_text(attrs) + seq![
            '>',
        ],
        margin: p.margin + p.step,
        step: p.step,
        fresh: true,
    }
}

/// The state after character data is written: the escaped text follows
/// directly, and so does the next tag.
pub open spec fn after_text(p: Page, text: Seq<char>) -> Page {
    Page { text: p.text + escaped(text), margin: p.margin, step: p.step, fresh: false }
}

/// The indentation one level up from `margin`.
pub open spec fn outdent(margin: nat, step: nat) -> nat {
    if margin >= step {
        (margin - step) as nat
    } else {
        0
    }
}

/// The state after a closing tag is written: the indentation goes one level
/// up, and the tag follows the lead at that level.
pub open spec fn after_end(p: Page, name: Seq<char>) -> Page {
    Page {
        text: p.text + lead(p.fresh, outdent(p.margin, p.step)) + seq!['<', '/'] + name + seq![
            '>',
        ],
        margin: outdent(p.margin, p.step),
        step: p.step,
        fresh: true,
    }
}

/// `Writer::new_with_indent` over an empty buffer, indenting with spaces,
/// `indent` of them for each level.
#[verifier::external_body]
fn new_writer(indent: usize) -> (writer: Writer<Vec<u8>>)
    ensures
        page(writer) == blank(indent as nat),
{
    Writer::new_with_indent(Vec::new(), b' ', indent)
}

/// `Writer::write_event` with `Event::Start` of a `BytesStart` made of `name`
/// and, through `BytesStart::with_attributes`, of `attrs`.
#[verifier::external_body]
fn write_start(writer: &mut Writer<Vec<u8>>, name: &str, attrs: &Vec<(String, String)>)
    requires
        page(*old(writer)).margin + page(*old(writer)).step <= isize::MAX,
    ensures
        page(*final(writer)) == after_start(
            page(*old(writer)),
            name@,
            Seq::new(attrs@.len(), |i: int| (attrs@[i].0@, attrs@[i].1@)),
        ),
{
    let pairs = attrs.iter().map(|pair| (pair.0.as_str(), pair.1.as_str()));
    let _ = writer.write_event(Event::Start(BytesStart::new(name).with_attributes(pairs)));
}

/// `Writer::write_event` with `Event::Text` of `BytesText::new(text)`.
#[verifier::external_body]
fn write_text(writer: &mut Writer<Vec<u8>>, text: &str)
    ensures
        page(*final(writer)) == after_text(page(*old(writer)), text@),
{
    let _ = writer.write_event(Event::Text(BytesText::new(text)));
}

/// `Writer::write_event` with `Event::End` of `BytesEnd::new(name)`.
#[verifier::external_body]
fn write_end(writer: &mut Writer<Vec<u8>>, name: &str)
    ensures
        page(*final(writer)) == after_end(page(*old(writer)), name@),
{
    let _ = writer.write_event(Event::End(BytesEnd::new(name)));
}

/// `Writer::into_inner`: the buffer, which holds the text in UTF-8.
#[verifier::external_body]
fn into_bytes(writer: Writer<Vec<u8>>) -> (bytes: Vec<u8>)
    ensures
        bytes@ == encode_utf8(page(writer).text),
{
    writer.into_inner()
}

/// The events of the first `n` children of `node`, child after child.
pub open spec fn events_among(node: Tree, n: nat) -> Seq<EventModel>
    decreases node, n,
{
    if n == 0 || n > node.children.len() {
        Seq::empty()
    } else {
        events_among(node, (n - 1) as nat) + events_of(node.children[n - 1])
    }
}

/// The events that `node` is written as: its opening tag with its
/// attributes, its text if it has one, the events of its children in order,
/// and its closing tag.
pub open spec fn events_of(node: Tree) -> Seq<EventModel>
    decreases node, node.children.len() + 1,
{
    let text = match node.text {
        Some(content) => seq![EventModel::Text { content }],
        None => Seq::empty(),
    };
    seq![EventModel::Start { name: node.name, attrs: node.attrs }] + text + events_among(
        node,
        node.children.len(),
    ) + seq![EventModel::End { name: node.name }]
}

/// The state after `event` is written in state `p`. A tree is written
/// without self-closing tags; one counts as an opening tag and its closing
/// tag.
pub open spec fn event_written(p: Page, event: EventModel) -> Page {
    match event {
        EventModel::Start { name, attrs } => after_start(p, name, attrs),
        EventModel::Text { content } => after_text(p, content),
        EventModel::End { name } => after_end(p, name),
        EventModel::Empty { name, attrs } => after_end(after_start(p, name, attrs), name),
    }
}

/// The state after `events` are written in state `p`, one after the other.
pub open spec fn events_written(p: Page, events: Seq<EventModel>) -> Page
    decreases events.len(),
{
    if events.len() == 0 {
        p
    } else {
        event_written(events_written(p, events.drop_last()), events.last())
    }
}

/// Writing two runs of events one after the other is writing them as one.
pub proof fn lemma_written_in_parts(p: Page, first: Seq<EventModel>, second: Seq<EventModel>)
    ensures
        events_written(p, first + second) == events_written(events_written(p, first), second),
    decreases second.len(),
{
    if second.len() == 0 {
        assert(first + second =~= first);
    } else {
        assert((first + second).drop_last() =~= first + second.drop_last());
        assert((first + second).last() == second.last());
        lemma_written_in_parts(p, first, second.drop_last());
    }
}

/// Writing one event.
pub proof fn lemma_written_one(p: Page, event: EventModel)
    ensures
        events_written(p, seq![event]) == event_written(p, event),
{
    assert(seq![event].drop_last() =~= Seq::<EventModel>::empty());
    assert(events_written(p, Seq::<EventModel>::empty()) == p);
}

/// The XML declaration that may stand before the root, with its line break.
pub open spec fn declaration() -> Seq<char> {
    "<?xml version=\"1.0\" encoding=\"utf-8\"?>\n"@
}

/// The text of the document whose root is `node`, indented by `indent`
/// spaces for each level, behind the XML declaration if
/// `default_xml_def` is set.
pub open spec fn xml_text(node: Tree, indent: nat, default_xml_def: bool) -> Seq<char> {
    let body = events_written(blank(indent), events_of(node)).text;
    if default_xml_def {
        declaration() + body
    } else {
        body
    }
}

/// Writing a node, or some of its children, changes neither the
/// indentation nor its step, and writing a node leaves the next tag on a
/// line of its own.
pub proof fn lemma_written_frame(node: Tree, p: Page)
    ensures
        events_written(p, events_of(node)).margin == p.margin,
        events_written(p, events_of(node)).step == p.step,
        events_written(p, events_of(node)).fresh,
    decreases node, node.children.len() + 1,
{
    let opening = seq![EventModel::Start { name: node.name, attrs: node.attrs }];
    let text = match node.text {
        Some(content) => seq![EventModel::Text { content }],
        None => Seq::empty(),
    };
    let inner = events_among(node, node.children.len());
    let closing = seq![EventModel::End { name: node.name }];
    let opened = events_written(p, opening);
    let texted = events_written(opened, text);
    let filled = events_written(texted, inner);
    lemma_written_one(p, opening[0]);
    if node.text is Some {
        lemma_written_one(opened, text[0]);
    }
    lemma_children_frame(node, node.children.len(), texted);
    lemma_written_one(filled, closing[0]);
    lemma_written_in_parts(p, opening, text);
    lemma_written_in_parts(p, opening + text, inner);
    lemma_written_in_parts(p, opening + text + inner, closing);
}

/// Writing the first `n` children of a node changes neither the
/// indentation nor its step.
pub proof fn lemma_children_frame(node: Tree, n: nat, q: Page)
    requires
        n <= node.children.len(),
    ensures
        events_written(q, events_among(node, n)).margin == q.margin,
        events_written(q, events_among(node, n)).step == q.step,
    decreases node, n,
{
    if n > 0 {
        let before = events_among(node, (n - 1) as nat);
        lemma_children_frame(node, (n - 1) as nat, q);
        lemma_written_frame(node.children[n - 1], events_written(q, before));
        lemma_written_in_parts(q, before, events_of(node.children[n - 1]));
    }
}

/// Writes `node` and all below it to `writer`.
fn write_node(writer: &mut Writer<Vec<u8>>, node: &Node)
    requires
        page(*old(writer)).margin + levels(node@) * page(*old(writer)).step <= isize::MAX,
    ensures
        page(*final(writer)) == events_written(page(*old(writer)), events_of(node@)),
    decreases node,
{
    let ghost start = page(*writer);
    let ghost tree = node@;
    let ghost opening = seq![EventModel::Start { name: tree.name, attrs: tree.attrs }];
    let ghost text = match tree.text {
        Some(content) => seq![EventModel::Text { content }],
        None => Seq::empty(),
    };
    proof {
        assert(levels(tree) >= 1);
        assert(start.step <= levels(tree) * start.step) by (nonlinear_arith)
            requires
                levels(tree) >= 1,
        ;
    }
    let entries = node.attrs.entries();
    assert(Seq::new(entries@.len(), |i: int| (entries@[i].0@, entries@[i].1@)) =~= tree.attrs);
    write_start(writer, node.name.as_str(), entries);
    proof {
        lemma_written_one(start, opening[0]);
    }
    if let Some(content) = &node.text {
        write_text(writer, content.as_str());
        proof {
            lemma_written_one(events_written(start, opening), text[0]);
        }
    }
    proof {
        lemma_written_in_parts(start, opening, text);
    }
    let ghost texted = page(*writer);
    let mut i: usize = 0;
    while i < node.children.len()
        invariant
            i <= node.children.len(),
            tree == node@,
            texted.margin == start.margin + start.step,
            texted.step == start.step,
            start.margin + levels(tree) * start.step <= isize::MAX,
            page(*writer) == events_written(texted, events_among(tree, i as nat)),
        decreases node.children.len() - i,
    {
        proof {
            lemma_children_frame(tree, i as nat, texted);
            lemma_deepest(tree, node.children.len() as nat, i as int);
            let below = levels(tree.children[i as int]);
            assert(start.step + below * start.step <= levels(tree) * start.step)
                by (nonlinear_arith)
                requires
                    below + 1 <= levels(tree),
            ;
            lemma_written_in_parts(
                texted,
                events_among(tree, i as nat),
                events_of(tree.children[i as int]),
            );
        }
        write_node(writer, &node.children[i]);
        i += 1;
    }
    let ghost inner = events_among(tree, tree.children.len());
    let ghost closing = seq![EventModel::End { name: tree.name }];
    write_end(writer, node.name.as_str());
    proof {
        lemma_written_one(events_written(texted, inner), closing[0]);
        lemma_written_in_parts(start, opening + text, inner);
        lemma_written_in_parts(start, opening + text + inner, closing);
    }
}

/// Whether the tree under `node` can be written with `indent` spaces for
/// each level: whether its deepest indentation is a width that a buffer
/// can have.
pub fn can_write(node: &Node, indent: usize) -> (b: bool)
    ensures
        b == (levels(node@) * indent <= isize::MAX),
{
    if indent == 0 {
        assert(levels(node@) * 0 == 0);
        return true;
    }
    let most: usize = (isize::MAX as usize) / indent;
    let b = node.levels_within(most);
    proof {
        let l = levels(node@) as int;
        let i = indent as int;
        let m = isize::MAX as int;
        assert(most as int == m / i);
        assert(l <= m / i <==> l * i <= m) by (nonlinear_arith)
            requires
                i > 0,
                l >= 0,
                m >= 0,
        ;
    }
    b
}

/// Renders the tree under `node` as XML text, each nesting level indented
/// by `indent` spaces more, with the XML declaration in front if
/// `default_xml_def` is set.
pub fn write_node_to_string(node: Node, indent: usize, default_xml_def: bool) -> (text: String)
    requires
        levels(node@) * indent <= isize::MAX,
    ensures
        text@ == xml_text(node@, indent as nat, default_xml_def),
{
    let mut writer = new_writer(indent);
    write_node(&mut writer, &node);
    let result = into_bytes(writer);
    let mut return_string = String::new();
    if default_xml_def {
        return_string.append("<?xml version=\"1.0\" encoding=\"utf-8\"?>\n");
    }
    proof {
        let body = events_written(blank(indent as nat), events_of(node@)).text;
        vstd::utf8::encode_utf8_valid_utf8(body);
        vstd::utf8::encode_utf8_decode_utf8(body);
    }
    return_string.append(f_utf(result.as_slice()).as_str());
    assert(return_string@ =~= xml_text(node@, indent as nat, default_xml_def));
    return_string
}

/// Renders the tree under `node` as XML text; without an `indent` each
/// level is indented by four spaces, and without a `default_xml_def` the XML
/// declaration is written.
pub fn write_string(node: Node, indent: Option<usize>, default_xml_def: Option<bool>) -> (text:
    String)
    requires
        levels(node@) * indent.unwrap_or(4) <= isize::MAX,
    ensures
        text@ == xml_text(node@, indent.unwrap_or(4) as nat, default_xml_def.unwrap_or(true)),
{
    let _indent = indent.unwrap_or(4);
    let _default_xml_def = default_xml_def.unwrap_or(true);
    write_node_to_string(node, _indent, _default_xml_def)
}

} // verus!
