//! The document tree: its node types, the mathematical values they stand
//! for, and the functions that build nodes.

use vstd::prelude::*;

verus! {

/// A node as a mathematical value: a text, a comment, or an element with its
/// name, its attributes and its children in document order.
pub enum Tree {
    Text(Seq<char>),
    Element { name: Seq<char>, attributes: Map<Seq<char>, Seq<char>>, children: Seq<Tree> },
    Comment(Seq<char>),
}

/// The mapping that a list of name/value pairs stands for. A later pair
/// overrides an earlier one of the same name.
pub open spec fn pairs_to_map(pairs: Seq<(String, String)>) -> Map<Seq<char>, Seq<char>>
    decreases pairs.len(),
{
    if pairs.len() == 0 {
        Map::empty()
    } else {
        pairs_to_map(pairs.drop_last()).insert(pairs.last().0@, pairs.last().1@)
    }
}

/// Whether no name stands twice in a list of name/value pairs.
pub open spec fn distinct_names(pairs: Seq<(String, String)>) -> bool {
    forall|i: int, j: int| 0 <= i < j < pairs.len() ==> pairs[i].0@ != pairs[j].0@
}

/// The mapping of a list of pairs holds the names of the list and no others.
/// Where no name stands twice, it holds each name with the value that stands
/// beside it, and as many names as the list has pairs.
pub proof fn lemma_pairs_to_map(pairs: Seq<(String, String)>)
    ensures
        pairs_to_map(pairs).dom().finite(),
        pairs_to_map(pairs).dom().len() <= pairs.len(),
        forall|k: Seq<char>| #[trigger]
            pairs_to_map(pairs).contains_key(k) <==> exists|i: int|
                0 <= i < pairs.len() && #[trigger] pairs[i].0@ == k,
        distinct_names(pairs) ==> pairs_to_map(pairs).dom().len() == pairs.len(),
        distinct_names(pairs) ==> forall|i: int|
            0 <= i < pairs.len() ==> pairs_to_map(pairs)[#[trigger] pairs[i].0@] == pairs[i].1@,
    decreases pairs.len(),
{
    if pairs.len() > 0 {
        let front = pairs.drop_last();
        let last = pairs.last();
        lemma_pairs_to_map(front);
        let m = pairs_to_map(pairs);
        assert forall|k: Seq<char>| #[trigger] m.contains_key(k) implies exists|i: int|
            0 <= i < pairs.len() && #[trigger] pairs[i].0@ == k by {
            if k == last.0@ {
                assert(pairs[pairs.len() - 1].0@ == k);
            } else {
                assert(pairs_to_map(front).contains_key(k));
                let i = choose|i: int| 0 <= i < front.len() && #[trigger] front[i].0@ == k;
                assert(pairs[i].0@ == k);
            }
        }
        assert forall|k: Seq<char>|
            (exists|i: int| 0 <= i < pairs.len() && #[trigger] pairs[i].0@ == k) implies #[trigger]
            m.contains_key(k) by {
            let i = choose|i: int| 0 <= i < pairs.len() && #[trigger] pairs[i].0@ == k;
            if i < pairs.len() - 1 {
                assert(front[i].0@ == k);
            }
        }
        if distinct_names(pairs) {
            assert(distinct_names(front)) by {
                assert forall|i: int, j: int| 0 <= i < j < front.len() implies front[i].0@
                    != front[j].0@ by {
                    assert(pairs[i].0@ != pairs[j].0@);
                }
            }
            assert(!pairs_to_map(front).contains_key(last.0@)) by {
                if pairs_to_map(front).contains_key(last.0@) {
                    let i = choose|i: int| 0 <= i < front.len() && #[trigger] front[i].0@ == last.0@;
                    assert(pairs[i].0@ == pairs[pairs.len() - 1].0@);
                }
            }
            assert forall|i: int| 0 <= i < pairs.len() implies m[#[trigger] pairs[i].0@]
                == pairs[i].1@ by {
                if i < pairs.len() - 1 {
                    assert(front[i].0@ == pairs[i].0@);
                    assert(pairs[i].0@ != pairs[pairs.len() - 1].0@);
                }
            }
        }
    }
}

/// Where in `entries` a pair with the name `name` stands, if there is one.
fn position(entries: &Vec<(String, String)>, name: &String) -> (found: Option<usize>)
    ensures
        match found {
            Some(i) => i < entries.len() && entries[i as int].0@ == name@,
            None => forall|i: int| 0 <= i < entries.len() ==> entries[i].0@ != name@,
        },
{
    let mut i: usize = 0;
    while i < entries.len()
        invariant
            i <= entries.len(),
            forall|j: int| 0 <= j < i ==> entries[j].0@ != name@,
        decreases entries.len() - i,
    {
        if entries[i].0 == *name {
            return Some(i);
        }
        i = i + 1;
    }
    None
}

/// The attributes of an element: a mapping from names to values with at
/// most one value for each name.
#[derive(Debug)]
pub struct AttrMap {
    entries: Vec<(String, String)>,
}

impl View for AttrMap {
    type V = Map<Seq<char>, Seq<char>>;

    closed spec fn view(&self) -> Map<Seq<char>, Seq<char>> {
        pairs_to_map(self.entries@)
    }
}

impl AttrMap {
    #[verifier::type_invariant]
    spec fn names_are_distinct(self) -> bool {
        distinct_names(self.entries@)
    }

    /// The mapping without any attribute.
    pub fn new() -> (attrs: AttrMap)
        ensures
            attrs@ == Map::<Seq<char>, Seq<char>>::empty(),
    {
        AttrMap { entries: Vec::new() }
    }

    /// The number of attributes.
    pub fn len(&self) -> (n: usize)
        ensures
            self@.dom().finite(),
            n == self@.len(),
    {
        proof {
            use_type_invariant(self);
            lemma_pairs_to_map(self.entries@);
        }
        self.entries.len()
    }

    /// The attributes as a list of name/value pairs in which each name
    /// stands once.
    pub fn entries(&self) -> (entries: &Vec<(String, String)>)
        ensures
            distinct_names(entries@),
            pairs_to_map(entries@) == self@,
    {
        proof {
            use_type_invariant(self);
        }
        &self.entries
    }

    /// The value of the attribute `name`, or `None` where the element has no
    /// such attribute.
    pub fn get(&self, name: &str) -> (value: Option<&String>)
        ensures
            match value {
                Some(v) => self@.contains_key(name@) && self@[name@] == v@,
                None => !self@.contains_key(name@),
            },
    {
        proof {
            use_type_invariant(self);
            lemma_pairs_to_map(self.entries@);
        }
        let key = name.to_owned();
        match position(&self.entries, &key) {
            Some(i) => {
                assert(self.entries@[i as int].0@ == name@);
                Some(&self.entries[i].1)
            },
            None => None,
        }
    }

    /// Gives the attribute `name` the value `value`. A value that the name
    /// had before is overwritten.
    pub fn insert(&mut self, name: String, value: String)
        ensures
            final(self)@ == old(self)@.insert(name@, value@),
    {
        proof {
            use_type_invariant(&*self);
        }
        let ghost before = self.entries@;
        let mut entries: Vec<(String, String)> = Vec::new();
        core::mem::swap(&mut self.entries, &mut entries);
        match position(&entries, &name) {
            Some(i) => {
                entries.set(i, (name, value));
                proof {
                    lemma_replace_value(before, i as int, entries@[i as int]);
                }
            },
            None => {
                entries.push((name, value));
                proof {
                    assert(entries@.drop_last() =~= before);
                }
            },
        }
        core::mem::swap(&mut self.entries, &mut entries);
    }
}

/// Replacing the value of a name that is in the list gives the mapping with
/// that name set to the new value, and keeps the names distinct.
proof fn lemma_replace_value(before: Seq<(String, String)>, i: int, pair: (String, String))
    requires
        distinct_names(before),
        0 <= i < before.len(),
        pair.0@ == before[i].0@,
    ensures
        distinct_names(before.update(i, pair)),
        pairs_to_map(before.update(i, pair)) == pairs_to_map(before).insert(pair.0@, pair.1@),
{
    let after = before.update(i, pair);
    assert(distinct_names(after)) by {
        assert forall|a: int, b: int| 0 <= a < b < after.len() implies after[a].0@ != after[b].0@ by {
            assert(before[a].0@ != before[b].0@);
        }
    }
    lemma_pairs_to_map(before);
    lemma_pairs_to_map(after);
    let target = pairs_to_map(before).insert(pair.0@, pair.1@);
    assert forall|k: Seq<char>| pairs_to_map(after).contains_key(k) <==> target.contains_key(
        k,
    ) by {
        if pairs_to_map(after).contains_key(k) {
            let j = choose|j: int| 0 <= j < after.len() && #[trigger] after[j].0@ == k;
            assert(before[j].0@ == k);
        }
        if pairs_to_map(before).contains_key(k) {
            let j = choose|j: int| 0 <= j < before.len() && #[trigger] before[j].0@ == k;
            assert(after[j].0@ == k);
        }
        if k == pair.0@ {
            assert(after[i].0@ == k);
        }
    }
    assert forall|k: Seq<char>| pairs_to_map(after).contains_key(k) implies pairs_to_map(after)[k]
        == target[k] by {
        let j = choose|j: int| 0 <= j < after.len() && #[trigger] after[j].0@ == k;
        assert(pairs_to_map(after)[after[j].0@] == after[j].1@);
        if j != i {
            assert(before[j].0@ == k);
            assert(before[j].0@ != before[i].0@);
            assert(pairs_to_map(before)[before[j].0@] == before[j].1@);
        }
    }
    assert(pairs_to_map(after) =~= target);
}

/// The name and the attributes of an element.
#[derive(Debug)]
pub struct ElementData {
    pub tag_name: String,
    pub attributes: AttrMap,
}

/// What kind of node a node is, with what only that kind holds.
#[derive(Debug)]
pub enum NodeType {
    Text(String),
    Element(ElementData),
    Comment(String),
}

/// A node of the document tree. Only an element has children.
#[derive(Debug)]
pub struct Node {
    children: Vec<Node>,
    node_type: NodeType,
}

/// The values that the nodes of a sequence stand for, in the same order.
pub open spec fn views(nodes: Seq<Node>) -> Seq<Tree> {
    nodes.map_values(|node: Node| node@)
}

impl View for Node {
    type V = Tree;

    closed spec fn view(&self) -> Tree
        decreases self,
    {
        match self.node_type {
            NodeType::Text(data) => Tree::Text(data@),
            NodeType::Comment(data) => Tree::Comment(data@),
            NodeType::Element(data) => Tree::Element {
                name: data.tag_name@,
                attributes: data.attributes@,
                children: Seq::new(
                    self.children@.len(),
                    |i: int|
                        if 0 <= i < self.children@.len() {
                            self.children@[i].view()
                        } else {
                            Tree::Text(Seq::empty())
                        },
                ),
            },
        }
    }
}

impl Tree {
    /// The children of an element; a text or a comment has none.
    pub open spec fn children(self) -> Seq<Tree> {
        match self {
            Tree::Element { children, .. } => children,
            _ => Seq::empty(),
        }
    }
}

impl Node {
    #[verifier::type_invariant]
    spec fn only_elements_have_children(self) -> bool {
        self.node_type is Element || self.children@.len() == 0
    }

    /// The children of this node, in document order.
    pub fn children(&self) -> (children: &Vec<Node>)
        ensures
            children@.len() == self@.children().len(),
            views(children@) == self@.children(),
    {
        proof {
            use_type_invariant(self);
            assert(views(self.children@) =~= self@.children());
        }
        &self.children
    }

    /// The kind of this node, with its text, or its name and attributes.
    pub fn node_type(&self) -> (kind: &NodeType)
        ensures
            match *kind {
                NodeType::Text(data) => self@ == Tree::Text(data@),
                NodeType::Comment(data) => self@ == Tree::Comment(data@),
                NodeType::Element(data) => self@ == (Tree::Element {
                    name: data.tag_name@,
                    attributes: data.attributes@,
                    children: self@.children(),
                }),
            },
    {
        &self.node_type
    }
}

/// A text node that holds `data`.
pub fn text(data: String) -> (node: Node)
    ensures
        node@ == Tree::Text(data@),
{
    Node { children: Vec::new(), node_type: NodeType::Text(data) }
}

/// An element with the name `name`, the attributes `attrs` and the children
/// `children`, in that order.
pub fn element(name: String, attrs: AttrMap, children: Vec<Node>) -> (node: Node)
    ensures
        node@ == (Tree::Element { name: name@, attributes: attrs@, children: views(children@) }),
{
    let ghost kids = views(children@);
    let node = Node {
        children,
        node_type: NodeType::Element(ElementData { tag_name: name, attributes: attrs }),
    };
    proof {
        assert(node@.children() =~= kids);
    }
    node
}

/// A comment node that holds `data`.
pub fn comment(data: String) -> (node: Node)
    ensures
        node@ == Tree::Comment(data@),
{
    Node { children: Vec::new(), node_type: NodeType::Comment(data) }
}

} // verus!
