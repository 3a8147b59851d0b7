//! The tree: nodes, their descriptions, and the searches over them.

use crate::attrs::{distinct_keys, has_key, same_pairs, Attrs, Pairs};
use crate::common::{padding, spaces};
pub use crate::dict::{Dict, HashmapTypes, ValidationError};
use vstd::prelude::*;
use vstd::string::StringExecFns;

verus! {

/// What a search compares a node with.
#[derive(Clone, Copy, PartialEq, Eq, Debug, Structural)]
pub enum SearchType {
    /// The node's name.
    Tag,
    /// The names of the node's attributes.
    Attr,
    /// The node's text.
    Text,
}

/// An element as specifications see it.
pub struct Tree {
    pub name: Seq<char>,
    pub attrs: Pairs,
    pub children: Seq<Tree>,
    pub text: Option<Seq<char>>,
}

/// One XML element: its name, its attributes, its child elements in document
/// order and its own text, if it has any.
#[derive(Debug)]
pub struct Node {
    pub name: String,
    pub attrs: Attrs,
    pub children: Vec<Node>,
    pub text: Option<String>,
}

/// The view of an optional string.
pub open spec fn text_view(text: Option<String>) -> Option<Seq<char>> {
    match text {
        Some(t) => Some(t@),
        None => None,
    }
}

/// The element that `node` stands for.
pub open spec fn tree_of(node: Node) -> Tree
    decreases node,
{
    Tree {
        name: node.name@,
        attrs: node.attrs@,
        children: Seq::new(
            node.children.len() as nat,
            |i: int|
                if 0 <= i < node.children.len() {
                    tree_of(node.children[i])
                } else {
                    arbitrary()
                },
        ),
        text: text_view(node.text),
    }
}

impl View for Node {
    type V = Tree;

    open spec fn view(&self) -> Tree {
        tree_of(*self)
    }
}

/// The number of nesting levels of `node`: one for a node without children.
pub open spec fn levels(node: Tree) -> nat
    decreases node, node.children.len() + 1,
{
    1 + deepest(node, node.children.len())
}

/// The largest number of nesting levels among the first `n` children of
/// `node`.
pub open spec fn deepest(node: Tree, n: nat) -> nat
    decreases node, n,
{
    if n == 0 || n > node.children.len() {
        0
    } else {
        let before = deepest(node, (n - 1) as nat);
        let last = levels(node.children[n - 1]);
        if last > before {
            last
        } else {
            before
        }
    }
}

/// Each of the first `n` children of a node has at most `deepest(node, n)`
/// levels.
pub proof fn lemma_deepest(node: Tree, n: nat, i: int)
    requires
        0 <= i < n <= node.children.len(),
    ensures
        levels(node.children[i]) <= deepest(node, n),
    decreases n,
{
    if i < n - 1 {
        lemma_deepest(node, (n - 1) as nat, i);
    }
}

/// The views of a list of nodes, in order.
pub open spec fn views(nodes: Seq<Node>) -> Seq<Tree> {
    Seq::new(nodes.len(), |i: int| nodes[i]@)
}

/// The lines that describe the attributes `attrs`, each behind `pad`.
pub open spec fn described_attrs(attrs: Pairs, pad: Seq<char>) -> Seq<char>
    decreases attrs.len(),
{
    if attrs.len() == 0 {
        Seq::empty()
    } else {
        described_attrs(attrs.drop_last(), pad) + "\n"@ + pad + attrs.last().0 + ": "@
            + attrs.last().1
    }
}

/// The description of `node`, each of its lines behind `spacing` spaces:
/// the name, the attributes if there are any, the text if there is one, and
/// the children if there are any, each described with two spaces more.
pub open spec fn described(node: Tree, spacing: nat) -> Seq<char>
    decreases node, node.children.len() + 1,
{
    let pad = spaces(spacing);
    let attrs = if node.attrs.len() > 0 {
        "\n"@ + pad + "Attributes:"@ + described_attrs(node.attrs, pad)
    } else {
        Seq::empty()
    };
    let text = match node.text {
        Some(t) => "\n"@ + pad + "Text: "@ + t,
        None => Seq::empty(),
    };
    let children = if node.children.len() > 0 {
        "\n"@ + pad + "Children:"@ + described_children(node, node.children.len(), spacing)
    } else {
        Seq::empty()
    };
    pad + "Name: "@ + node.name + attrs + text + children
}

/// The descriptions of the first `n` children of `node`, where `node` is
/// described behind `spacing` spaces.
pub open spec fn described_children(node: Tree, n: nat, spacing: nat) -> Seq<char>
    decreases node, n,
{
    if n == 0 || n > node.children.len() {
        Seq::empty()
    } else {
        described_children(node, (n - 1) as nat, spacing) + "\n"@ + spaces(spacing) + described(
            node.children[n - 1],
            spacing + 2,
        ) + "\n"@
    }
}

/// The child at position `i` is the first child of `node` that has the
/// name `name`.
pub open spec fn first_named(node: Tree, name: Seq<char>, i: int) -> bool {
    &&& 0 <= i < node.children.len()
    &&& node.children[i].name == name
    &&& forall|j: int| 0 <= j < i ==> (#[trigger] node.children[j]).name != name
}

/// Whether `node` meets the criterion `by` with `value`: its name is
/// `value`, or it has an attribute named `value`, or its text is `value`.
pub open spec fn meets(node: Tree, by: SearchType, value: Seq<char>) -> bool {
    match by {
        SearchType::Tag => node.name == value,
        SearchType::Attr => has_key(node.attrs, value),
        SearchType::Text => node.text == Some(value),
    }
}

/// A depth limit as specifications see it.
pub open spec fn depth_view(depth: Option<i32>) -> Option<int> {
    match depth {
        Some(d) => Some(d as int),
        None => None,
    }
}

/// The depth limit one level further down.
pub open spec fn below(depth: Option<int>) -> Option<int> {
    match depth {
        Some(d) => Some(d - 1),
        None => None,
    }
}

/// What searches from the first `n` children of `node` find, child after
/// child, each with the depth limit `depth`.
pub open spec fn found_among(
    node: Tree,
    n: nat,
    by: SearchType,
    value: Seq<char>,
    depth: Option<int>,
) -> Seq<Tree>
    decreases node, n,
{
    if n == 0 || n > node.children.len() {
        Seq::empty()
    } else {
        found_among(node, (n - 1) as nat, by, value, depth) + found(
            node.children[n - 1],
            by,
            value,
            depth,
        )
    }
}

/// The nodes that a search from `node` finds, in pre-order: `node` itself
/// if it matches, then, unless the depth limit is zero, what a search from
/// each child finds with a limit one less, child after child. A limit
/// below zero never comes to zero and so limits nothing.
pub open spec fn found(node: Tree, by: SearchType, value: Seq<char>, depth: Option<int>) -> Seq<
    Tree,
>
    decreases node, node.children.len() + 1,
{
    let own = if meets(node, by, value) {
        seq![node]
    } else {
        Seq::empty()
    };
    if depth == Some(0int) {
        own
    } else {
        own + found_among(node, node.children.len(), by, value, below(depth))
    }
}

/// A limit below zero never runs out: it finds what no limit finds.
pub proof fn lemma_negative_depth(node: Tree, by: SearchType, value: Seq<char>, d: int)
    requires
        d < 0,
    ensures
        found(node, by, value, Some(d)) == found(node, by, value, None),
    decreases node, node.children.len() + 1,
{
    lemma_negative_depth_among(node, node.children.len(), by, value, d - 1);
}

proof fn lemma_negative_depth_among(node: Tree, n: nat, by: SearchType, value: Seq<char>, d: int)
    requires
        d < 0,
        n <= node.children.len(),
    ensures
        found_among(node, n, by, value, Some(d)) == found_among(node, n, by, value, None),
    decreases node, n,
{
    if n > 0 {
        lemma_negative_depth_among(node, (n - 1) as nat, by, value, d);
        lemma_negative_depth(node.children[n - 1], by, value, d);
    }
}

impl Node {
    /// A node with the name `name`; attributes, children and text are as
    /// given, and empty where they are not.
    pub fn new(
        name: String,
        attrs: Option<Attrs>,
        children: Option<Vec<Node>>,
        text: Option<String>,
    ) -> (node: Node)
        ensures
            node.name == name,
            node.text == text,
            match attrs {
                Some(a) => node.attrs == a,
                None => node.attrs@ == Pairs::empty(),
            },
            match children {
                Some(c) => node.children == c,
                None => node.children@ == Seq::<Node>::empty(),
            },
    {
        let _attrs = match attrs {
            Some(a) => a,
            None => Attrs::new(),
        };
        let _children = match children {
            Some(c) => c,
            None => Vec::new(),
        };
        Node { name, attrs: _attrs, children: _children, text }
    }

    /// The first direct child whose name is `name`, if there is one.
    /// Children of children are not looked at.
    pub fn child_by_name(&self, name: &str) -> (child: Option<&Node>)
        ensures
            match child {
                Some(c) => exists|i: int|
                    first_named(self@, name@, i) && *c == #[trigger] self.children[i],
                None => forall|i: int|
                    0 <= i < self@.children.len() ==> (#[trigger] self@.children[i]).name != name@,
            },
    {
        let owned = name.to_owned();
        let mut i: usize = 0;
        while i < self.children.len()
            invariant
                i <= self.children.len(),
                owned@ == name@,
                forall|j: int| 0 <= j < i ==> (#[trigger] self@.children[j]).name != name@,
            decreases self.children.len() - i,
        {
            assert(self@.children[i as int] == self.children[i as int]@);
            assert(self.children[i as int]@.name == self.children[i as int].name@);
            if self.children[i].name == owned {
                assert(first_named(self@, name@, i as int));
                return Some(&self.children[i]);
            }
            i += 1;
        }
        None
    }

    /// The direct child at position `index`, if there are that many.
    pub fn child_at(&self, index: usize) -> (child: Option<&Node>)
        ensures
            match child {
                Some(c) => index < self.children.len() && *c == self.children[index as int],
                None => index >= self.children.len(),
            },
    {
        if index < self.children.len() {
            Some(&self.children[index])
        } else {
            None
        }
    }

    /// Whether the node has at most `limit` nesting levels.
    pub fn levels_within(&self, limit: usize) -> (b: bool)
        ensures
            b == (levels(self@) <= limit),
        decreases self,
    {
        if limit == 0 {
            return false;
        }
        let ghost tree = self@;
        let mut i: usize = 0;
        while i < self.children.len()
            invariant
                i <= self.children.len(),
                tree == self@,
                limit >= 1,
                deepest(tree, i as nat) <= limit - 1,
            decreases self.children.len() - i,
        {
            if !self.children[i].levels_within(limit - 1) {
                proof {
                    lemma_deepest(tree, self.children.len() as nat, i as int);
                }
                return false;
            }
            i += 1;
        }
        true
    }

    /// Appends the lines that describe the node's attributes, each behind
    /// `pad`.
    fn describe_attrs(&self, pad: &String, s: &mut String)
        ensures
            final(s)@ == old(s)@ + described_attrs(self@.attrs, pad@),
    {
        let ghost start = s@;
        let mut i: usize = 0;
        assert(s@ =~= start + described_attrs(self.attrs@.take(0), pad@));
        while i < self.attrs.len()
            invariant
                i <= self.attrs@.len(),
                s@ == start + described_attrs(self.attrs@.take(i as int), pad@),
            decreases self.attrs@.len() - i,
        {
            let ghost done = self.attrs@.take(i as int);
            let ghost next = self.attrs@.take(i + 1);
            assert(next.drop_last() =~= done);
            assert(next.last() == self.attrs@[i as int]);
            s.append("\n");
            s.append(pad.as_str());
            s.append(self.attrs.key_at(i).as_str());
            s.append(": ");
            s.append(self.attrs.value_at(i).as_str());
            assert(s@ =~= start + described_attrs(next, pad@));
            i += 1;
        }
        assert(self.attrs@.take(i as int) =~= self.attrs@);
    }

    /// Appends the descriptions of the node's children, where the node is
    /// described behind `spacing` spaces, which `pad` holds.
    fn describe_children(&self, spacing: u8, pad: &String, s: &mut String)
        requires
            pad@ == spaces(spacing as nat),
            spacing + 2 * (levels(self@) - 1) <= u8::MAX,
        ensures
            final(s)@ == old(s)@ + described_children(
                self@,
                self@.children.len(),
                spacing as nat,
            ),
        decreases self, 0nat,
    {
        let ghost start = s@;
        let ghost tree = self@;
        let mut i: usize = 0;
        assert(s@ =~= start + described_children(tree, 0, spacing as nat));
        while i < self.children.len()
            invariant
                i <= self.children.len(),
                tree == self@,
                pad@ == spaces(spacing as nat),
                spacing + 2 * (levels(tree) - 1) <= u8::MAX,
                s@ == start + described_children(tree, i as nat, spacing as nat),
            decreases self.children.len() - i,
        {
            proof {
                lemma_deepest(tree, self.children.len() as nat, i as int);
            }
            let child = self.children[i].describe(Some(spacing + 2));
            s.append("\n");
            s.append(pad.as_str());
            s.append(child.as_str());
            s.append("\n");
            assert(s@ =~= start + described_children(tree, (i + 1) as nat, spacing as nat));
            i += 1;
        }
    }

    /// A description of the node and all below it for a reader, behind
    /// `spacing` spaces, or none where no `spacing` is given.
    pub fn describe(&self, spacing: Option<u8>) -> (text: String)
        requires
            spacing.unwrap_or(0) + 2 * (levels(self@) - 1) <= u8::MAX,
        ensures
            text@ == described(self@, spacing.unwrap_or(0) as nat),
        decreases self, 1nat,
    {
        let _spacing = spacing.unwrap_or(0);
        let ghost tree = self@;
        let pad = padding(_spacing);
        let mut s = String::new();
        s.append(pad.as_str());
        s.append("Name: ");
        s.append(self.name.as_str());
        let ghost head = s@;
        assert(head =~= pad@ + "Name: "@ + tree.name);
        if !self.attrs.is_empty() {
            s.append("\n");
            s.append(pad.as_str());
            s.append("Attributes:");
            self.describe_attrs(&pad, &mut s);
            assert(s@ =~= head + ("\n"@ + pad@ + "Attributes:"@ + described_attrs(
                tree.attrs,
                pad@,
            )));
        } else {
            assert(s@ =~= head + Seq::<char>::empty());
        }
        let ghost with_attrs = s@;
        if let Some(text) = &self.text {
            s.append("\n");
            s.append(pad.as_str());
            s.append("Text: ");
            s.append(text.as_str());
            assert(s@ =~= with_attrs + ("\n"@ + pad@ + "Text: "@ + text@));
        } else {
            assert(s@ =~= with_attrs + Seq::<char>::empty());
        }
        let ghost with_text = s@;
        if self.children.len() > 0 {
            s.append("\n");
            s.append(pad.as_str());
            s.append("Children:");
            self.describe_children(_spacing, &pad, &mut s);
            assert(s@ =~= with_text + ("\n"@ + pad@ + "Children:"@ + described_children(
                tree,
                tree.children.len(),
                _spacing as nat,
            )));
        } else {
            assert(s@ =~= with_text + Seq::<char>::empty());
        }
        s
    }

    /// The description of the node and all below it.
    pub fn display(&self) -> (text: String)
        requires
            2 * (levels(self@) - 1) <= u8::MAX,
        ensures
            text@ == described(self@, 0),
    {
        self.describe(None)
    }

    /// The node's name inside `Node(` and `)`.
    pub fn repr(&self) -> (text: String)
        ensures
            text@ == "Node("@ + self@.name + ")"@,
    {
        let mut s = String::new();
        s.append("Node(");
        s.append(self.name.as_str());
        s.append(")");
        assert(s@ =~= "Node("@ + self@.name + ")"@);
        s
    }

    /// Whether the node meets the criterion `by` with `value`.
    fn is_match(&self, by: SearchType, value: &String) -> (b: bool)
        ensures
            b == meets(self@, by, value@),
    {
        match by {
            SearchType::Tag => self.name == *value,
            SearchType::Attr => self.attrs.contains_key(value.as_str()),
            SearchType::Text => match &self.text {
                Some(t) => *t == *value,
                None => false,
            },
        }
    }

    /// Appends to `nodes` copies of what a search from this node finds.
    fn collect(&self, by: SearchType, value: &String, depth: Option<i32>, nodes: &mut Vec<Node>)
        ensures
            views(final(nodes)@) == views(old(nodes)@) + found(
                self@,
                by,
                value@,
                depth_view(depth),
            ),
        decreases self,
    {
        let ghost tree = self@;
        let ghost start = views(nodes@);
        if self.is_match(by, value) {
            nodes.push(self.clone());
            assert(views(nodes@) =~= start + seq![tree]);
        } else {
            assert(views(nodes@) =~= start + Seq::<Tree>::empty());
        }
        let ghost own = if meets(tree, by, value@) {
            seq![tree]
        } else {
            Seq::empty()
        };
        let next = match depth {
            Some(d) => {
                if d == 0 {
                    return ;
                }
                if d < 0 {
                    None
                } else {
                    Some(d - 1)
                }
            },
            None => None,
        };
        let ghost lower = below(depth_view(depth));
        let mut i: usize = 0;
        while i < self.children.len()
            invariant
                i <= self.children.len(),
                tree == self@,
                lower == below(depth_view(depth)),
                depth_view(next) == lower || (lower matches Some(d) && d < 0 && next is None),
                views(nodes@) == start + own + found_among(tree, i as nat, by, value@, lower),
            decreases self.children.len() - i,
        {
            proof {
                if depth_view(next) != lower {
                    lemma_negative_depth(tree.children[i as int], by, value@, lower->0);
                }
            }
            self.children[i].collect(by, value, next, nodes);
            assert(views(nodes@) =~= start + own + found_among(
                tree,
                (i + 1) as nat,
                by,
                value@,
                lower,
            ));
            i += 1;
        }
        assert(views(nodes@) =~= start + found(tree, by, value@, depth_view(depth)));
    }

    /// Copies of the nodes at and below this node whose name is `name`, in
    /// pre-order. With a `depth`, only that many levels below this node are
    /// looked at.
    pub fn search_by_name(&self, name: &str, depth: Option<i32>) -> (nodes: Vec<Node>)
        ensures
            views(nodes@) == found(self@, SearchType::Tag, name@, depth_view(depth)),
    {
        let mut nodes = Vec::new();
        assert(views(nodes@) =~= Seq::<Tree>::empty());
        self.collect(SearchType::Tag, &name.to_owned(), depth, &mut nodes);
        assert(views(nodes@) =~= found(self@, SearchType::Tag, name@, depth_view(depth)));
        nodes
    }

    /// Copies of the nodes at and below this node that have an attribute
    /// named `key`, whatever its value, in pre-order. With a `depth`, only
    /// that many levels below this node are looked at.
    pub fn search_by_attr(&self, key: &str, depth: Option<i32>) -> (nodes: Vec<Node>)
        ensures
            views(nodes@) == found(self@, SearchType::Attr, key@, depth_view(depth)),
    {
        let mut nodes = Vec::new();
        assert(views(nodes@) =~= Seq::<Tree>::empty());
        self.collect(SearchType::Attr, &key.to_owned(), depth, &mut nodes);
        assert(views(nodes@) =~= found(self@, SearchType::Attr, key@, depth_view(depth)));
        nodes
    }

    /// Copies of the nodes at and below this node whose text is exactly
    /// `text`, in pre-order. With a `depth`, only that many levels below this
    /// node are looked at.
    pub fn search_by_text(&self, text: &str, depth: Option<i32>) -> (nodes: Vec<Node>)
        ensures
            views(nodes@) == found(self@, SearchType::Text, text@, depth_view(depth)),
    {
        let mut nodes = Vec::new();
        assert(views(nodes@) =~= Seq::<Tree>::empty());
        self.collect(SearchType::Text, &text.to_owned(), depth, &mut nodes);
        assert(views(nodes@) =~= found(self@, SearchType::Text, text@, depth_view(depth)));
        nodes
    }

    /// Copies of the nodes at and below this node that meet the criterion
    /// `by` with `value`, in pre-order. With a `depth`, only that many
    /// levels below this node are looked at; depth zero is this node alone,
    /// and a depth below zero is no limit.
    pub fn search(&self, by: SearchType, value: &str, depth: Option<i32>) -> (nodes: Vec<Node>)
        ensures
            views(nodes@) == found(self@, by, value@, depth_view(depth)),
    {
        match by {
            SearchType::Tag => self.search_by_name(value, depth),
            SearchType::Attr => self.search_by_attr(value, depth),
            SearchType::Text => self.search_by_text(value, depth),
        }
    }
}

/// Two trees are the same: the same name, the same attributes in whatever
/// order, the same text, and children that are the same one by one.
pub open spec fn same_tree(a: Tree, b: Tree) -> bool
    decreases a,
{
    &&& a.name == b.name
    &&& same_pairs(a.attrs, b.attrs)
    &&& a.text == b.text
    &&& a.children.len() == b.children.len()
    &&& forall|i: int|
        0 <= i < a.children.len() ==> same_tree(#[trigger] a.children[i], b.children[i])
}

/// No node of the tree has an attribute twice.
pub open spec fn well_formed(tree: Tree) -> bool
    decreases tree,
{
    &&& distinct_keys(tree.attrs)
    &&& forall|i: int| 0 <= i < tree.children.len() ==> well_formed(#[trigger] tree.children[i])
}

impl PartialEq for Node {
    /// Whether the two are the same tree.
    fn eq(&self, other: &Node) -> (equal: bool)
        decreases self,
    {
        if !(self.name == other.name) || !(self.attrs == other.attrs) {
            return false;
        }
        let same_text = match (&self.text, &other.text) {
            (Some(s), Some(t)) => *s == *t,
            (None, None) => true,
            _ => false,
        };
        if !same_text || self.children.len() != other.children.len() {
            return false;
        }
        let mut i: usize = 0;
        while i < self.children.len()
            invariant
                i <= self.children.len(),
                self.children.len() == other.children.len(),
                forall|j: int|
                    0 <= j < i ==> same_tree((#[trigger] self.children[j])@, other.children[j]@),
            decreases self.children.len() - i,
        {
            if !(self.children[i] == other.children[i]) {
                assert(!same_tree(self@.children[i as int], other@.children[i as int]));
                return false;
            }
            i += 1;
        }
        assert forall|j: int| 0 <= j < self@.children.len() implies same_tree(
            #[trigger] self@.children[j],
            other@.children[j],
        ) by {
            assert(same_tree(self.children[j]@, other.children[j]@));
        }
        true
    }
}

impl vstd::std_specs::cmp::PartialEqSpecImpl for Node {
    open spec fn obeys_eq_spec() -> bool {
        true
    }

    open spec fn eq_spec(&self, other: &Node) -> bool {
        same_tree(self@, other@)
    }
}

impl Eq for Node {

}

impl Clone for Node {
    fn clone(&self) -> (copy: Node)
        ensures
            copy@ == self@,
        decreases self,
    {
        let mut children: Vec<Node> = Vec::new();
        let mut i: usize = 0;
        while i < self.children.len()
            invariant
                i <= self.children.len(),
                children.len() == i,
                forall|j: int| 0 <= j < i ==> (#[trigger] children[j])@ == self.children[j]@,
            decreases self.children.len() - i,
        {
            children.push(self.children[i].clone());
            i += 1;
        }
        let text = match &self.text {
            Some(t) => Some(t.clone()),
            None => None,
        };
        let copy = Node { name: self.name.clone(), attrs: self.attrs.clone(), children, text };
        assert(copy@.children =~= self@.children) by {
            assert(copy@.children.len() == self@.children.len());
            assert forall|j: int| 0 <= j < copy@.children.len() implies copy@.children[j]
                == self@.children[j] by {
                assert(copy.children[j]@ == self.children[j]@);
            }
        }
        copy
    }
}

} // verus!
