//! What holds of reading, writing, searching and converting, whatever the
//! tree.

use crate::attrs::{distinct_keys, has_key, lemma_index_of_unique, lookup, put, Pairs};
use crate::dict::{
    dict_of, dicts_of, lemma_dicts_of, lemma_keys_differ, tree_from, trees_from, Fields,
    ValidationError, Value,
};
use crate::entities::{found, found_among, meets, same_tree, well_formed, SearchType, Tree};
use crate::events::{EventModel, ParseError};
use crate::read::{content, outcome, sprout, tree_of_events, Parsed};
use crate::tokenizer::document;
use crate::write::{events_among, events_of, xml_text};
use vstd::prelude::*;

verus! {

/// Reading an element leaves a tail of the events it was given: `rest` is
/// `events` without its first `events.len() - rest.len()` events, and at
/// least one event is used where the element is closed. The element keeps
/// the name it was read under.
pub proof fn law_rest_is_tail(events: Seq<EventModel>, node: Tree, opened: bool)
    ensures
        content(events, node, opened).rest.len() <= events.len(),
        content(events, node, opened).rest == events.skip(
            events.len() - content(events, node, opened).rest.len(),
        ),
        content(events, node, opened).closed ==> content(events, node, opened).rest.len()
            < events.len(),
        content(events, node, opened).tree.name == node.name,
    decreases events.len(),
{
    if events.len() == 0 {
        assert(events.skip(0) =~= events);
    } else {
        let rest = events.skip(1);
        let parsed = content(events, node, opened);
        match events[0] {
            EventModel::Start { name, attrs } => {
                if !opened && name == node.name {
                    law_rest_is_tail(rest, Tree { attrs, ..node }, true);
                } else {
                    let child = content(rest, sprout(name, attrs), true);
                    law_rest_is_tail(rest, sprout(name, attrs), true);
                    let grown = Tree { children: node.children.push(child.tree), ..node };
                    law_rest_is_tail(child.rest, grown, opened);
                    let after = content(child.rest, grown, opened);
                    assert(after.rest =~= events.skip(events.len() - after.rest.len()));
                }
            },
            EventModel::Empty { name, attrs } => {
                law_rest_is_tail(
                    rest,
                    Tree { children: node.children.push(sprout(name, attrs)), ..node },
                    opened,
                );
            },
            EventModel::Text { content: text } => {
                law_rest_is_tail(rest, Tree { text: Some(text), ..node }, opened);
            },
            EventModel::End { name } => {
                if name == node.name {
                } else {
                    law_rest_is_tail(rest, node, opened);
                }
            },
        }
        assert(parsed.rest =~= events.skip(events.len() - parsed.rest.len()));
    }
}

/// The events of the children of `node` from position `k` on.
spec fn events_from(node: Tree, k: nat) -> Seq<EventModel>
    decreases node.children.len() - k,
{
    if k >= node.children.len() {
        Seq::empty()
    } else {
        events_of(node.children[k as int]) + events_from(node, k + 1)
    }
}

/// The events of the first `k` children and those of the rest are the
/// events of all children.
proof fn lemma_events_split(node: Tree, k: nat)
    requires
        k <= node.children.len(),
    ensures
        events_among(node, k) + events_from(node, k) == events_among(node, node.children.len()),
    decreases node.children.len() - k,
{
    if k < node.children.len() {
        lemma_events_split(node, k + 1);
        assert(events_among(node, k) + (events_of(node.children[k as int]) + events_from(
            node,
            k + 1,
        )) =~= events_among(node, k + 1) + events_from(node, k + 1));
    } else {
        assert(events_among(node, k) + Seq::<EventModel>::empty() =~= events_among(node, k));
    }
}

/// `node` with only its first `k` children.
spec fn upto(node: Tree, k: nat) -> Tree {
    Tree { children: node.children.take(k as int), ..node }
}

/// Read as a child, the events of a tree give the tree: where a node's
/// opening tag has been seen, or does not bear the name of `tree`,
/// reading the events of `tree` appends `tree` to the node's children and
/// goes on with what follows.
pub proof fn law_child_read_back(tree: Tree, rest: Seq<EventModel>, node: Tree, opened: bool)
    requires
        opened || tree.name != node.name,
    ensures
        content(events_of(tree) + rest, node, opened) == content(
            rest,
            Tree { children: node.children.push(tree), ..node },
            opened,
        ),
    decreases tree, tree.children.len() + 2,
{
    let events = events_of(tree) + rest;
    let inside = inner_events(tree) + rest;
    assert(events[0] == EventModel::Start { name: tree.name, attrs: tree.attrs });
    assert(events.skip(1) =~= inside);
    lemma_inner_read_back(tree, rest);
}

/// What follows the opening tag of `tree` among its events.
spec fn inner_events(tree: Tree) -> Seq<EventModel> {
    let text = match tree.text {
        Some(content) => seq![EventModel::Text { content }],
        None => Seq::empty(),
    };
    text + events_among(tree, tree.children.len()) + seq![EventModel::End { name: tree.name }]
}

/// Behind its opening tag, the events of a tree give the tree and leave
/// what follows them.
proof fn lemma_inner_read_back(tree: Tree, rest: Seq<EventModel>)
    ensures
        content(inner_events(tree) + rest, sprout(tree.name, tree.attrs), true) == (Parsed {
            tree,
            rest,
            closed: true,
        }),
    decreases tree, tree.children.len() + 1,
{
    let start = sprout(tree.name, tree.attrs);
    let texted = Tree { text: tree.text, ..start };
    let closing = seq![EventModel::End { name: tree.name }];
    let after_text = events_among(tree, tree.children.len()) + closing + rest;
    match tree.text {
        Some(text) => {
            let events = inner_events(tree) + rest;
            assert(events[0] == EventModel::Text { content: text });
            assert(events.skip(1) =~= after_text);
        },
        None => {
            assert(inner_events(tree) + rest =~= after_text);
        },
    }
    assert(content(inner_events(tree) + rest, start, true) == content(after_text, texted, true));
    lemma_events_split(tree, 0);
    assert(events_among(tree, 0) + events_from(tree, 0) =~= events_from(tree, 0));
    assert(upto(tree, 0).children =~= Seq::<Tree>::empty());
    assert(upto(tree, 0) == texted);
    assert(after_text =~= events_from(tree, 0) + closing + rest);
    lemma_children_read_back(tree, 0, rest);
}

/// With the first `k` children of `tree` read, their events from the
/// `k`th on and the closing tag give the whole tree.
proof fn lemma_children_read_back(tree: Tree, k: nat, rest: Seq<EventModel>)
    requires
        k <= tree.children.len(),
    ensures
        content(
            events_from(tree, k) + seq![EventModel::End { name: tree.name }] + rest,
            upto(tree, k),
            true,
        ) == (Parsed { tree, rest, closed: true }),
    decreases tree, tree.children.len() - k,
{
    let closing = seq![EventModel::End { name: tree.name }];
    let events = events_from(tree, k) + closing + rest;
    if k == tree.children.len() {
        assert(events =~= closing + rest);
        assert(events[0] == closing[0]);
        assert(events.skip(1) =~= rest);
        assert(upto(tree, k).children =~= tree.children);
        assert(upto(tree, k) == tree);
    } else {
        let child = tree.children[k as int];
        let tail = events_from(tree, k + 1) + closing + rest;
        assert(events =~= events_of(child) + tail);
        law_child_read_back(child, tail, upto(tree, k), true);
        assert(upto(tree, k).children.push(child) =~= upto(tree, k + 1).children);
        assert((Tree { children: upto(tree, k).children.push(child), ..upto(tree, k) }) == upto(
            tree,
            k + 1,
        ));
        lemma_children_read_back(tree, k + 1, rest);
    }
}

/// Reading back what is written: the events that a tree is written as,
/// read under the tree's name, give the tree again, whatever the tree.
pub proof fn law_events_read_back(tree: Tree)
    ensures
        tree_of_events(events_of(tree), tree.name) == tree,
        content(events_of(tree), sprout(tree.name, Pairs::empty()), false).closed,
{
    let events = events_of(tree);
    let root = sprout(tree.name, Pairs::empty());
    let none = Seq::<EventModel>::empty();
    assert(events[0] == EventModel::Start { name: tree.name, attrs: tree.attrs });
    assert(events.skip(1) =~= inner_events(tree) + none);
    assert((Tree { attrs: tree.attrs, ..root }) == sprout(tree.name, tree.attrs));
    lemma_inner_read_back(tree, none);
}

/// Reading back the written text: where the tokenizer reads the text of
/// a tree as the events that the tree was written as, reading that text
/// under the tree's name gives the tree again.
pub proof fn law_text_read_back(tree: Tree, indent: nat, default_xml_def: bool)
    requires
        document(xml_text(tree, indent, default_xml_def)).0 == events_of(tree),
    ensures
        outcome(document(xml_text(tree, indent, default_xml_def)), tree.name) == Ok::<
            Tree,
            ParseError,
        >(tree),
{
    law_events_read_back(tree);
}

/// A self-closing tag reads as the opening tag followed at once by its
/// closing tag: wherever the tag does not open the node that is being
/// read, the two give the same node, an element with the tag's name and
/// attributes, no children and no text, and reading goes on alike.
pub proof fn law_self_closing(
    name: Seq<char>,
    attrs: Pairs,
    rest: Seq<EventModel>,
    node: Tree,
    opened: bool,
)
    requires
        opened || name != node.name,
    ensures
        content(seq![EventModel::Empty { name, attrs }] + rest, node, opened) == content(
            seq![EventModel::Start { name, attrs }, EventModel::End { name }] + rest,
            node,
            opened,
        ),
        content(seq![EventModel::Empty { name, attrs }] + rest, node, opened) == content(
            rest,
            Tree { children: node.children.push(sprout(name, attrs)), ..node },
            opened,
        ),
{
    let short = seq![EventModel::Empty { name, attrs }] + rest;
    let long = seq![EventModel::Start { name, attrs }, EventModel::End { name }] + rest;
    assert(short.skip(1) =~= rest);
    let inside = long.skip(1);
    assert(inside[0] == EventModel::End { name });
    assert(inside.skip(1) =~= rest);
    assert(content(inside, sprout(name, attrs), true) == (Parsed {
        tree: sprout(name, attrs),
        rest,
        closed: true,
    }));
}

/// Under a root of another name, a document that is one self-closing tag
/// and one that is the same tag opened and closed are the same tree.
pub proof fn law_self_closing_document(name: Seq<char>, attrs: Pairs, root_tag: Seq<char>)
    requires
        name != root_tag,
    ensures
        tree_of_events(seq![EventModel::Empty { name, attrs }], root_tag) == tree_of_events(
            seq![EventModel::Start { name, attrs }, EventModel::End { name }],
            root_tag,
        ),
        tree_of_events(seq![EventModel::Empty { name, attrs }], root_tag).children == seq![
            sprout(name, attrs),
        ],
{
    let none = Seq::<EventModel>::empty();
    let root = sprout(root_tag, Pairs::empty());
    law_self_closing(name, attrs, none, root, false);
    assert(seq![EventModel::Empty { name, attrs }] + none =~= seq![
        EventModel::Empty { name, attrs },
    ]);
    assert(seq![EventModel::Start { name, attrs }, EventModel::End { name }] + none =~= seq![
        EventModel::Start { name, attrs },
        EventModel::End { name },
    ]);
    assert(root.children.push(sprout(name, attrs)) =~= seq![sprout(name, attrs)]);
}

/// A search includes the node it starts from: where that node matches, it
/// is the first that is found, whatever the depth limit.
pub proof fn law_search_includes_start(
    node: Tree,
    by: SearchType,
    value: Seq<char>,
    depth: Option<int>,
)
    requires
        meets(node, by, value),
    ensures
        found(node, by, value, depth).len() >= 1,
        found(node, by, value, depth)[0] == node,
{
}

/// With the depth limit zero a search tests the node it starts from and
/// nothing else.
pub proof fn law_depth_zero(node: Tree, by: SearchType, value: Seq<char>)
    ensures
        found(node, by, value, Some(0int)) == if meets(node, by, value) {
            seq![node]
        } else {
            Seq::empty()
        },
{
}

/// The depth limit counts levels below the start: a grandchild is found
/// with the limit two, and with neither zero nor one. Here `r` has the
/// one child `c`, `c` has the one child `g`, and `g` alone bears its name.
pub proof fn law_depth_bound(r: Tree, c: Tree, g: Tree)
    requires
        r.children == seq![c],
        c.children == seq![g],
        r.name != g.name,
        c.name != g.name,
    ensures
        found(r, SearchType::Tag, g.name, Some(0int)) == Seq::<Tree>::empty(),
        found(r, SearchType::Tag, g.name, Some(1int)) == Seq::<Tree>::empty(),
        found(r, SearchType::Tag, g.name, Some(2int)) == seq![g],
{
    let by = SearchType::Tag;
    let none = Seq::<Tree>::empty();
    assert(found_among(r, 0, by, g.name, Some(0int)) == none);
    assert(found_among(r, 0, by, g.name, Some(1int)) == none);
    assert(found_among(c, 0, by, g.name, Some(0int)) == none);
    assert(found(g, by, g.name, Some(0int)) == seq![g]);
    assert(found(c, by, g.name, Some(0int)) == none);
    assert(found_among(c, 1, by, g.name, Some(0int)) =~= seq![g]);
    assert(found(c, by, g.name, Some(1int)) =~= seq![g]);
    assert(found_among(r, 1, by, g.name, Some(0int)) =~= none);
    assert(found(r, by, g.name, Some(1int)) =~= none);
    assert(found_among(r, 1, by, g.name, Some(1int)) =~= seq![g]);
    assert(found(r, by, g.name, Some(2int)) =~= seq![g]);
}

/// A search by attribute asks whether the key is there, not what it
/// holds: a node on which `key` is set matches, whatever the value.
pub proof fn law_attribute_presence(node: Tree, key: Seq<char>, value: Seq<char>)
    ensures
        meets(Tree { attrs: put(node.attrs, key, value), ..node }, SearchType::Attr, key),
        found(Tree { attrs: put(node.attrs, key, value), ..node }, SearchType::Attr, key, None)[0]
            == (Tree { attrs: put(node.attrs, key, value), ..node }),
{
    let after = put(node.attrs, key, value);
    if has_key(node.attrs, key) {
        assert(after[crate::attrs::index_of(node.attrs, key)].0 == key);
    } else {
        assert(after[node.attrs.len() as int].0 == key);
    }
}

/// A tree in which no node has an attribute twice is the same as itself.
pub proof fn law_same_tree_reflexive(tree: Tree)
    requires
        well_formed(tree),
    ensures
        same_tree(tree, tree),
    decreases tree,
{
    assert forall|i: int| 0 <= i < tree.attrs.len() implies lookup(
        tree.attrs,
        (#[trigger] tree.attrs[i]).0,
    ) == Some(tree.attrs[i].1) by {
        lemma_index_of_unique(tree.attrs, tree.attrs[i].0, i);
    }
    assert forall|i: int| 0 <= i < tree.children.len() implies same_tree(
        #[trigger] tree.children[i],
        tree.children[i],
    ) by {
        law_same_tree_reflexive(tree.children[i]);
    }
}

/// The four fields of a node's mapping are found under their keys.
proof fn lemma_dict_lookups(tree: Tree)
    ensures
        lookup(dict_of(tree), "name"@) == Some(Value::Str(tree.name)),
        lookup(dict_of(tree), "attrs"@) == Some(Value::Mapping(tree.attrs)),
        lookup(dict_of(tree), "children"@) == Some(
            Value::List(dicts_of(tree, tree.children.len())),
        ),
        lookup(dict_of(tree), "text"@) == Some(Value::Nullable(tree.text)),
{
    lemma_keys_differ();
    let fields = dict_of(tree);
    assert(distinct_keys(fields));
    lemma_index_of_unique(fields, "name"@, 0);
    lemma_index_of_unique(fields, "attrs"@, 1);
    lemma_index_of_unique(fields, "children"@, 2);
    lemma_index_of_unique(fields, "text"@, 3);
}

/// The mappings of the first `n` children of a tree stand for those
/// children.
proof fn lemma_children_round_trip(tree: Tree, n: nat)
    requires
        n <= tree.children.len(),
    ensures
        trees_from(dicts_of(tree, tree.children.len()), n) == Ok::<Seq<Tree>, ValidationError>(
            tree.children.take(n as int),
        ),
    decreases tree, n,
{
    let dicts = dicts_of(tree, tree.children.len());
    lemma_dicts_of(tree, tree.children.len());
    if n == 0 {
        assert(tree.children.take(0) =~= Seq::<Tree>::empty());
    } else {
        lemma_children_round_trip(tree, (n - 1) as nat);
        law_dict_round_trip(tree.children[n - 1]);
        assert(dicts[n - 1] == dict_of(tree.children[n - 1]));
        assert(tree.children.take(n - 1).push(tree.children[n - 1]) =~= tree.children.take(
            n as int,
        ));
    }
}

/// Through a generic mapping and back: the mapping that stands for a tree
/// stands for that tree and no other.
pub proof fn law_dict_round_trip(tree: Tree)
    ensures
        tree_from(dict_of(tree)) == Ok::<Tree, ValidationError>(tree),
    decreases tree, tree.children.len() + 1,
{
    lemma_dict_lookups(tree);
    lemma_dicts_of(tree, tree.children.len());
    lemma_children_round_trip(tree, tree.children.len());
    assert(tree.children.take(tree.children.len() as int) =~= tree.children);
}

/// A mapping without a `name` stands for no node: it is refused for its
/// name.
pub proof fn law_missing_name(fields: Fields)
    requires
        !has_key(fields, "name"@),
    ensures
        tree_from(fields) == Err::<Tree, ValidationError>(ValidationError::Name),
{
}

} // verus!
