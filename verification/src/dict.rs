//! Trees as generic mappings, and back.

use crate::attrs::{
    distinct_keys, has_key, lemma_index_of_unique, lemma_put_distinct, lookup, put, same_pairs,
    Attrs, Pairs,
};
use crate::common::f_str;
use crate::entities::{Node, Tree};
use vstd::prelude::*;

verus! {

/// A value of a generic mapping as specifications see it.
pub enum Value {
    Str(Seq<char>),
    List(Seq<Seq<(Seq<char>, Value)>>),
    Nullable(Option<Seq<char>>),
    Mapping(Pairs),
}

/// A generic mapping as specifications see it: `(key, value)` pairs in the
/// order in which the keys were first set.
pub type Fields = Seq<(Seq<char>, Value)>;

/// Why a generic mapping is not a node.
#[derive(Clone, Copy, PartialEq, Eq, Debug, Structural)]
pub enum ValidationError {
    /// There is no `name`, or it is not a string.
    Name,
    /// There is no `attrs`, or it is not a mapping of strings.
    Attrs,
    /// There is no `children`, or it is not a list of mappings.
    Children,
}

impl ValidationError {
    /// The error in words.
    pub fn message(&self) -> (text: &'static str)
        ensures
            text@ == match *self {
                ValidationError::Name => "Invalid name"@,
                ValidationError::Attrs => "Invalid attrs"@,
                ValidationError::Children => "Invalid children"@,
            },
    {
        match self {
            ValidationError::Name => "Invalid name",
            ValidationError::Attrs => "Invalid attrs",
            ValidationError::Children => "Invalid children",
        }
    }
}

/// The mappings that stand for the first `n` children of `node`.
pub open spec fn dicts_of(node: Tree, n: nat) -> Seq<Fields>
    decreases node, n,
{
    if n == 0 || n > node.children.len() {
        Seq::empty()
    } else {
        dicts_of(node, (n - 1) as nat).push(dict_of(node.children[n - 1]))
    }
}

/// The mapping that stands for `node`: its name under `name`, its
/// attributes under `attrs`, the mappings of its children under `children`
/// and its text under `text`.
pub open spec fn dict_of(node: Tree) -> Fields
    decreases node, node.children.len() + 1,
{
    seq![
        ("name"@, Value::Str(node.name)),
        ("attrs"@, Value::Mapping(node.attrs)),
        ("children"@, Value::List(dicts_of(node, node.children.len()))),
        ("text"@, Value::Nullable(node.text)),
    ]
}

/// The text that a mapping gives a node: what stands under `text`, where
/// that is a string or a string that may be absent.
pub open spec fn text_from(value: Option<Value>) -> Option<Seq<char>> {
    match value {
        Some(Value::Nullable(text)) => text,
        Some(Value::Str(text)) => Some(text),
        _ => None,
    }
}

/// The nodes that the first `n` of the mappings `dicts` stand for, or the
/// error of the first that stands for none.
pub open spec fn trees_from(dicts: Seq<Fields>, n: nat) -> Result<Seq<Tree>, ValidationError>
    decreases dicts, n,
{
    if n == 0 || n > dicts.len() {
        Ok(Seq::empty())
    } else {
        match trees_from(dicts, (n - 1) as nat) {
            Ok(before) => match tree_from(dicts[n - 1]) {
                Ok(tree) => Ok(before.push(tree)),
                Err(e) => Err(e),
            },
            Err(e) => Err(e),
        }
    }
}

/// The node that the mapping `fields` stands for, or the error that says
/// which of `name`, `attrs` and `children`, asked for in this order, is
/// missing or of another kind; an error in a child is the error of the
/// whole.
pub open spec fn tree_from(fields: Fields) -> Result<Tree, ValidationError>
    decreases fields, fields.len() + 1,
{
    match lookup(fields, "name"@) {
        Some(Value::Str(name)) => match lookup(fields, "attrs"@) {
            Some(Value::Mapping(attrs)) => match lookup(fields, "children"@) {
                Some(Value::List(dicts)) => match trees_from(dicts, dicts.len()) {
                    Ok(children) => Ok(
                        Tree { name, attrs, children, text: text_from(lookup(fields, "text"@)) },
                    ),
                    Err(e) => Err(e),
                },
                _ => Err(ValidationError::Children),
            },
            _ => Err(ValidationError::Attrs),
        },
        _ => Err(ValidationError::Name),
    }
}

/// Two values are of one kind and hold the same: strings the same
/// characters, lists the same mappings in the same order, mappings the
/// same pairs in whatever order.
pub open spec fn same_value(a: Value, b: Value) -> bool
    decreases a,
{
    match a {
        Value::Str(x) => b == Value::Str(x),
        Value::List(xs) => b matches Value::List(ys) && xs.len() == ys.len() && forall|i: int|
            0 <= i < xs.len() ==> same_fields(#[trigger] xs[i], ys[i]),
        Value::Nullable(x) => b == Value::Nullable(x),
        Value::Mapping(x) => b matches Value::Mapping(y) && same_pairs(x, y),
    }
}

/// `a` and `b` hold equally many keys, and each key of `a` has in `b` a
/// value that is the same as the one it has in `a`.
pub open spec fn same_fields(a: Fields, b: Fields) -> bool
    decreases a,
{
    a.len() == b.len() && forall|i: int|
        0 <= i < a.len() ==> match lookup(b, (#[trigger] a[i]).0) {
            Some(v) => same_value(a[i].1, v),
            None => false,
        }
}

/// A value of a generic mapping: a string, a list of mappings, a string that
/// may be absent, or a mapping from strings to strings.
#[derive(Debug)]
pub enum HashmapTypes {
    String(String),
    Vec(Vec<Dict>),
    NullableString(Option<String>),
    StringMap(Attrs),
}

/// A generic mapping from strings to values, in which no key occurs twice.
#[derive(Debug)]
pub struct Dict {
    entries: Vec<(String, HashmapTypes)>,
}

/// What `value` stands for.
pub closed spec fn value_of(value: HashmapTypes) -> Value
    decreases value,
{
    match value {
        HashmapTypes::String(s) => Value::Str(s@),
        HashmapTypes::Vec(dicts) => Value::List(
            Seq::new(
                dicts.len() as nat,
                |i: int|
                    if 0 <= i < dicts.len() {
                        fields_of(dicts[i])
                    } else {
                        arbitrary()
                    },
            ),
        ),
        HashmapTypes::NullableString(s) => Value::Nullable(
            match s {
                Some(t) => Some(t@),
                None => None,
            },
        ),
        HashmapTypes::StringMap(attrs) => Value::Mapping(attrs@),
    }
}

/// What `dict` stands for.
pub closed spec fn fields_of(dict: Dict) -> Fields
    decreases dict,
{
    Seq::new(
        dict.entries.len() as nat,
        |i: int|
            if 0 <= i < dict.entries.len() {
                (dict.entries[i].0@, value_of(dict.entries[i].1))
            } else {
                arbitrary()
            },
    )
}

impl View for HashmapTypes {
    type V = Value;

    open spec fn view(&self) -> Value {
        value_of(*self)
    }
}

impl View for Dict {
    type V = Fields;

    open spec fn view(&self) -> Fields {
        fields_of(*self)
    }
}

impl Dict {
    /// What holds of every mapping: no key occurs twice.
    #[verifier::type_invariant]
    pub open spec fn keys_are_distinct(&self) -> bool {
        distinct_keys(self@)
    }

    /// An empty mapping.
    pub fn new() -> (dict: Dict)
        ensures
            dict@ == Fields::empty(),
    {
        let dict = Dict { entries: Vec::new() };
        assert(dict@ =~= Fields::empty());
        dict
    }

    /// The number of keys.
    pub fn len(&self) -> (n: usize)
        ensures
            n == self@.len(),
    {
        self.entries.len()
    }

    /// The key at position `i`.
    pub fn key_at(&self, i: usize) -> (key: &String)
        requires
            i < self@.len(),
        ensures
            key@ == self@[i as int].0,
    {
        &self.entries[i].0
    }

    /// The value at position `i`.
    pub fn value_at(&self, i: usize) -> (value: &HashmapTypes)
        requires
            i < self@.len(),
        ensures
            value@ == self@[i as int].1,
    {
        &self.entries[i].1
    }

    /// The position of `key` among the entries, if it is there.
    fn position(&self, key: &String) -> (at: Option<usize>)
        ensures
            match at {
                Some(i) => i < self@.len() && self@[i as int].0 == key@,
                None => !has_key(self@, key@),
            },
    {
        let mut i: usize = 0;
        while i < self.entries.len()
            invariant
                i <= self.entries.len(),
                forall|j: int| 0 <= j < i ==> (#[trigger] self@[j]).0 != key@,
            decreases self.entries.len() - i,
        {
            if self.entries[i].0 == *key {
                return Some(i);
            }
            i += 1;
        }
        None
    }

    /// The value under `key`, if there is one.
    pub fn get(&self, key: &str) -> (value: Option<&HashmapTypes>)
        ensures
            match value {
                Some(v) => lookup(self@, key@) == Some(v@),
                None => lookup(self@, key@) is None,
            },
    {
        self.find(key)
    }

    /// The value under `key`, if there is one; it is a part of the
    /// mapping.
    fn find(&self, key: &str) -> (value: Option<&HashmapTypes>)
        ensures
            match value {
                Some(v) => lookup(self@, key@) == Some(v@) && decreases_to!(self => v),
                None => lookup(self@, key@) is None,
            },
    {
        let owned = key.to_owned();
        match self.position(&owned) {
            Some(i) => {
                proof {
                    use_type_invariant(self);
                    lemma_index_of_unique(self@, key@, i as int);
                }
                Some(&self.entries[i].1)
            },
            None => None,
        }
    }

    /// Puts `value` under `key` and returns the value that was there
    /// before, if there was one.
    pub fn insert(&mut self, key: String, value: HashmapTypes) -> (before: Option<HashmapTypes>)
        ensures
            final(self)@ == put(old(self)@, key@, value@),
            lookup(final(self)@, key@) == Some(value@),
            match before {
                Some(v) => lookup(old(self)@, key@) == Some(v@),
                None => lookup(old(self)@, key@) is None,
            },
    {
        proof {
            use_type_invariant(&*self);
            lemma_put_distinct(self@, key@, value@);
        }
        let found = self.position(&key);
        let mut taken = Dict::new();
        std::mem::swap(self, &mut taken);
        let mut entries = taken.entries;
        let before = match found {
            Some(i) => {
                proof {
                    lemma_index_of_unique(old(self)@, key@, i as int);
                }
                let mut entry = (key, value);
                std::mem::swap(&mut entries[i], &mut entry);
                Some(entry.1)
            },
            None => {
                entries.push((key, value));
                None
            },
        };
        proof {
            let after = Dict { entries };
            assert(after@ =~= put(old(self)@, key@, value@));
        }
        *self = Dict { entries };
        before
    }
}

impl PartialEq for HashmapTypes {
    /// Whether the two are of one kind and hold the same.
    fn eq(&self, other: &HashmapTypes) -> (equal: bool)
        decreases self,
    {
        match (self, other) {
            (HashmapTypes::String(x), HashmapTypes::String(y)) => *x == *y,
            (HashmapTypes::Vec(xs), HashmapTypes::Vec(ys)) => {
                if xs.len() != ys.len() {
                    return false;
                }
                let mut i: usize = 0;
                while i < xs.len()
                    invariant
                        i <= xs.len(),
                        xs.len() == ys.len(),
                        *self == HashmapTypes::Vec(*xs),
                        *other == HashmapTypes::Vec(*ys),
                        decreases_to!(self => xs),
                        forall|j: int| 0 <= j < i ==> same_fields((#[trigger] xs[j])@, ys[j]@),
                    decreases xs.len() - i,
                {
                    if !(xs[i] == ys[i]) {
                        assert(!same_fields(self@->List_0[i as int], other@->List_0[i as int]));
                        return false;
                    }
                    i += 1;
                }
                true
            },
            (HashmapTypes::NullableString(x), HashmapTypes::NullableString(y)) => match (x, y) {
                (Some(s), Some(t)) => *s == *t,
                (None, None) => true,
                _ => false,
            },
            (HashmapTypes::StringMap(x), HashmapTypes::StringMap(y)) => *x == *y,
            _ => false,
        }
    }
}

impl vstd::std_specs::cmp::PartialEqSpecImpl for HashmapTypes {
    open spec fn obeys_eq_spec() -> bool {
        true
    }

    open spec fn eq_spec(&self, other: &HashmapTypes) -> bool {
        same_value(self@, other@)
    }
}

impl Eq for HashmapTypes {

}

impl PartialEq for Dict {
    /// Whether the two hold the same values under the same keys, in
    /// whatever order.
    fn eq(&self, other: &Dict) -> (equal: bool)
        decreases self,
    {
        if self.entries.len() != other.entries.len() {
            return false;
        }
        let mut i: usize = 0;
        while i < self.entries.len()
            invariant
                i <= self.entries.len(),
                self@.len() == other@.len(),
                forall|j: int|
                    0 <= j < i ==> match lookup(other@, (#[trigger] self@[j]).0) {
                        Some(v) => same_value(self@[j].1, v),
                        None => false,
                    },
            decreases self.entries.len() - i,
        {
            match other.get(self.entries[i].0.as_str()) {
                Some(value) => {
                    if !(self.entries[i].1 == *value) {
                        assert(lookup(other@, self@[i as int].0) == Some(value@));
                        assert(!same_value(self@[i as int].1, value@));
                        return false;
                    }
                },
                None => {
                    assert(lookup(other@, self@[i as int].0) is None);
                    return false;
                },
            }
            i += 1;
        }
        true
    }
}

impl vstd::std_specs::cmp::PartialEqSpecImpl for Dict {
    open spec fn obeys_eq_spec() -> bool {
        true
    }

    open spec fn eq_spec(&self, other: &Dict) -> bool {
        same_fields(self@, other@)
    }
}

impl Eq for Dict {

}

impl Clone for HashmapTypes {
    fn clone(&self) -> (copy: HashmapTypes)
        ensures
            copy@ == self@,
        decreases self,
    {
        match self {
            HashmapTypes::String(s) => HashmapTypes::String(s.clone()),
            HashmapTypes::Vec(dicts) => {
                let mut copies: Vec<Dict> = Vec::new();
                let mut i: usize = 0;
                assert(decreases_to!(self => dicts));
                while i < dicts.len()
                    invariant
                        i <= dicts.len(),
                        copies.len() == i,
                        *self == HashmapTypes::Vec(*dicts),
                        decreases_to!(self => dicts),
                        forall|j: int| 0 <= j < i ==> (#[trigger] copies[j])@ == dicts[j]@,
                    decreases dicts.len() - i,
                {
                    copies.push(dicts[i].clone());
                    i += 1;
                }
                let copy = HashmapTypes::Vec(copies);
                assert(copy@->List_0 =~= self@->List_0);
                copy
            },
            HashmapTypes::NullableString(s) => HashmapTypes::NullableString(
                match s {
                    Some(t) => Some(t.clone()),
                    None => None,
                },
            ),
            HashmapTypes::StringMap(attrs) => HashmapTypes::StringMap(attrs.clone()),
        }
    }
}

impl Clone for Dict {
    fn clone(&self) -> (copy: Dict)
        ensures
            copy@ == self@,
        decreases self,
    {
        proof {
            use_type_invariant(self);
        }
        let mut entries: Vec<(String, HashmapTypes)> = Vec::new();
        let mut i: usize = 0;
        while i < self.entries.len()
            invariant
                i <= self.entries.len(),
                entries.len() == i,
                forall|j: int|
                    0 <= j < i ==> (#[trigger] entries[j]).0@ == self.entries[j].0@ && entries[j].1@
                        == self.entries[j].1@,
            decreases self.entries.len() - i,
        {
            entries.push((self.entries[i].0.clone(), self.entries[i].1.clone()));
            i += 1;
        }
        proof {
            let copy = Dict { entries };
            assert(copy@ =~= self@);
        }
        Dict { entries }
    }
}

/// The mappings of the first `n` children of a node are `n`, one for each
/// child, in order.
pub proof fn lemma_dicts_of(node: Tree, n: nat)
    requires
        n <= node.children.len(),
    ensures
        dicts_of(node, n).len() == n,
        forall|j: int| 0 <= j < n ==> #[trigger] dicts_of(node, n)[j] == dict_of(node.children[j]),
    decreases n,
{
    if n > 0 {
        lemma_dicts_of(node, (n - 1) as nat);
    }
}

/// The four keys of a node's mapping differ from one another.
pub proof fn lemma_keys_differ()
    ensures
        "name"@ != "attrs"@,
        "name"@ != "children"@,
        "name"@ != "text"@,
        "attrs"@ != "children"@,
        "attrs"@ != "text"@,
        "children"@ != "text"@,
{
    reveal_strlit("name");
    reveal_strlit("attrs");
    reveal_strlit("children");
    reveal_strlit("text");
    assert("name"@[0] == 'n');
    assert("attrs"@[0] == 'a');
    assert("children"@[0] == 'c');
    assert("text"@[0] == 't');
}

impl Node {
    /// The generic mapping that stands for this node and all below it.
    pub fn to_dict(&self) -> (dict: Dict)
        ensures
            dict@ == dict_of(self@),
        decreases self,
    {
        let ghost tree = self@;
        let mut children: Vec<Dict> = Vec::new();
        let mut i: usize = 0;
        while i < self.children.len()
            invariant
                i <= self.children.len(),
                tree == self@,
                children.len() == i,
                forall|j: int|
                    0 <= j < i ==> (#[trigger] children[j])@ == dict_of(tree.children[j]),
            decreases self.children.len() - i,
        {
            children.push(self.children[i].to_dict());
            i += 1;
        }
        let text = match &self.text {
            Some(t) => Some(t.clone()),
            None => None,
        };
        let list = HashmapTypes::Vec(children);
        proof {
            lemma_dicts_of(tree, tree.children.len());
            assert(list@->List_0 =~= dicts_of(tree, tree.children.len()));
            lemma_keys_differ();
        }
        let mut dict = Dict::new();
        dict.insert(f_str("name"), HashmapTypes::String(self.name.clone()));
        assert(dict@ =~= seq![("name"@, Value::Str(tree.name))]);
        dict.insert(f_str("attrs"), HashmapTypes::StringMap(self.attrs.clone()));
        assert(!has_key(seq![("name"@, Value::Str(tree.name))], "attrs"@));
        assert(dict@ =~= seq![
            ("name"@, Value::Str(tree.name)),
            ("attrs"@, Value::Mapping(tree.attrs)),
        ]);
        let ghost two = dict@;
        dict.insert(f_str("children"), list);
        assert(!has_key(two, "children"@));
        let ghost three = dict@;
        dict.insert(f_str("text"), HashmapTypes::NullableString(text));
        assert(!has_key(three, "text"@));
        assert(dict@ =~= dict_of(tree));
        dict
    }

    /// The node that the generic mapping `dict_` stands for. The mapping
    /// must hold a string under `name`, a mapping of strings under `attrs`
    /// and a list of such mappings under `children`; what it holds under
    /// `text`, a string or none, is the node's text.
    #[verifier::loop_isolation(false)]
    pub fn from_dict(dict_: &Dict) -> (r: Result<Node, ValidationError>)
        ensures
            match r {
                Ok(node) => tree_from(dict_@) == Ok::<Tree, ValidationError>(node@),
                Err(e) => tree_from(dict_@) == Err::<Tree, ValidationError>(e),
            },
        decreases dict_,
    {
        let name = match dict_.find("name") {
            Some(HashmapTypes::String(n)) => n.clone(),
            _ => {
                return Err(ValidationError::Name);
            },
        };
        let attrs = match dict_.find("attrs") {
            Some(HashmapTypes::StringMap(a)) => a.clone(),
            _ => {
                return Err(ValidationError::Attrs);
            },
        };
        let dicts = match dict_.find("children") {
            Some(HashmapTypes::Vec(c)) => c,
            _ => {
                return Err(ValidationError::Children);
            },
        };
        let ghost lists = lookup(dict_@, "children"@)->0->List_0;
        assert(lists.len() == dicts.len());
        let mut children: Vec<Node> = Vec::new();
        let mut i: usize = 0;
        assert(Seq::new(0, |j: int| children[j]@) =~= Seq::<Tree>::empty());
        while i < dicts.len()
            invariant
                i <= dicts.len(),
                lists.len() == dicts.len(),
                forall|j: int| 0 <= j < dicts.len() ==> (#[trigger] dicts[j])@ == lists[j],
                decreases_to!(dict_ => dicts),
                children.len() == i,
                trees_from(lists, i as nat) == Ok::<Seq<Tree>, ValidationError>(
                    Seq::new(i as nat, |j: int| children[j]@),
                ),
            decreases dicts.len() - i,
        {
            let ghost before = Seq::new(i as nat, |j: int| children[j]@);
            match Node::from_dict(&dicts[i]) {
                Ok(child) => {
                    children.push(child);
                    assert(Seq::new((i + 1) as nat, |j: int| children[j]@) =~= before.push(
                        child@,
                    ));
                },
                Err(e) => {
                    proof {
                        lemma_trees_from_fails(lists, (i + 1) as nat, lists.len());
                    }
                    return Err(e);
                },
            }
            i += 1;
        }
        let text = match dict_.find("text") {
            Some(HashmapTypes::NullableString(t)) => match t {
                Some(t) => Some(t.clone()),
                None => None,
            },
            Some(HashmapTypes::String(t)) => Some(t.clone()),
            _ => None,
        };
        let node = Node { name, attrs, children, text };
        assert(node@.children =~= Seq::new(i as nat, |j: int| children[j]@));
        Ok(node)
    }
}

/// An error among the first `n` mappings is the error of every longer
/// run of them.
pub proof fn lemma_trees_from_fails(dicts: Seq<Fields>, n: nat, m: nat)
    requires
        n <= m <= dicts.len(),
        trees_from(dicts, n) is Err,
    ensures
        trees_from(dicts, m) == trees_from(dicts, n),
    decreases m,
{
    if n < m {
        lemma_trees_from_fails(dicts, n, (m - 1) as nat);
    }
}

} // verus!
