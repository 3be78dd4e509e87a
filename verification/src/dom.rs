//! Basic content-tree data structures: a tree of tagged nodes with
//! attribute maps, supplied by an external markup-parsing collaborator and
//! consumed read-only by the style engine.

use crate::text::str_eq;
use vstd::map::*;
use vstd::prelude::*;

verus! {

/// A content-tree node: data specific to the node kind, plus children.
pub struct Node {
    pub node_type: NodeType,
    pub children: Vec<Node>,
}

/// A node is either an element or a text node.
pub enum NodeType {
    Element(Element),
    Text(String),
}

/// An element: a tag name and its attributes.
pub struct Element {
    pub tag_name: String,
    pub attributes: AttributeMap,
}

/// A map from attribute names to attribute values, with unique keys.
#[derive(Clone, Debug, PartialEq)]
pub struct AttributeMap {
    entries: Vec<(String, String)>,
}

/// The map an association list denotes: later entries win, though the
/// entries of a well-formed list have unique keys.
pub open spec fn attrs_map(s: Seq<(String, String)>) -> Map<Seq<char>, Seq<char>>
    decreases s.len(),
{
    if s.len() == 0 {
        Map::empty()
    } else {
        attrs_map(s.drop_last()).insert(s.last().0@, s.last().1@)
    }
}

/// No two entries share a key.
pub open spec fn attrs_unique(s: Seq<(String, String)>) -> bool {
    forall|i: int, j: int| 0 <= i < j < s.len() ==> s[i].0@ != s[j].0@
}

/// What an association list holds: a key is present iff some entry bears it,
/// and it maps to that entry's value.
proof fn lemma_attrs_map_get(s: Seq<(String, String)>, k: Seq<char>)
    requires
        attrs_unique(s),
    ensures
        attrs_map(s).contains_key(k) <==> (exists|i: int| 0 <= i < s.len() && s[i].0@ == k),
        forall|i: int|
            0 <= i < s.len() && s[i].0@ == k ==> attrs_map(s).contains_key(k) && attrs_map(s)[k]
                == s[i].1@,
    decreases s.len(),
{
    if s.len() > 0 {
        let t = s.drop_last();
        assert(attrs_unique(t)) by {
            assert(forall|i: int, j: int|
                0 <= i < j < t.len() ==> t[i].0@ == s[i].0@ && t[j].0@ == s[j].0@);
        }
        lemma_attrs_map_get(t, k);
        if k == s.last().0@ {
            assert(forall|i: int|
                0 <= i < s.len() - 1 ==> #[trigger] s[i].0@ != s[s.len() - 1].0@);
        } else {
            assert(forall|i: int| 0 <= i < t.len() ==> t[i] == s[i]);
        }
    }
}

impl AttributeMap {
    /// Well-formed: no two entries share a key. Constructors establish this
    /// and methods preserve it.
    pub closed spec fn wf(self) -> bool {
        attrs_unique(self.entries@)
    }

    /// An empty attribute map.
    pub fn new() -> (r: AttributeMap)
        ensures
            r.wf(),
            r@ == Map::<Seq<char>, Seq<char>>::empty(),
    {
        AttributeMap { entries: Vec::new() }
    }

    /// Bind `name` to `value`, replacing any earlier binding of `name`.
    pub fn insert(&mut self, name: String, value: String)
        requires
            old(self).wf(),
        ensures
            final(self).wf(),
            final(self)@ == old(self)@.insert(name@, value@),
    {
        let ghost s0 = self.entries@;
        let mut i: usize = 0;
        while i < self.entries.len()
            invariant
                attrs_unique(s0),
                old(self).entries@ == s0,
                self.entries@ == s0,
                i <= s0.len(),
                forall|j: int| 0 <= j < i ==> s0[j].0@ != name@,
            decreases s0.len() - i,
        {
            if str_eq(self.entries[i].0.as_str(), name.as_str()) {
                self.entries[i] = (name, value);
                proof {
                    let s1 = self.entries@;
                    assert(forall|j: int| 0 <= j < s0.len() && j != i ==> s0[j] == s1[j]);
                    assert(s1[i as int].0@ == s0[i as int].0@);
                    assert(attrs_unique(s1));
                    let m1 = attrs_map(s1);
                    let m2 = attrs_map(s0).insert(name@, value@);
                    assert_maps_equal!(m1, m2, k => {
                        lemma_attrs_map_get(s0, k);
                        lemma_attrs_map_get(s1, k);
                        if k == name@ {
                            assert(s1[i as int].0@ == name@);
                        } else {
                            if attrs_map(s0).contains_key(k) {
                                let j = choose|j: int| 0 <= j < s0.len() && s0[j].0@ == k;
                                assert(s1[j].0@ == k);
                                assert(s1[j].1@ == s0[j].1@);
                            }
                            if attrs_map(s1).contains_key(k) {
                                let j = choose|j: int| 0 <= j < s1.len() && s1[j].0@ == k;
                                assert(j != i);
                                assert(s0[j].0@ == k);
                            }
                        }
                    });
                }
                return ;
            }
            i = i + 1;
        }
        self.entries.push((name, value));
        proof {
            let s1 = self.entries@;
            assert(s1.drop_last() =~= s0);
            assert(s1.last().0@ == name@);
            assert(forall|j: int| 0 <= j < s0.len() ==> s1[j] == s0[j]);
            assert(attrs_unique(s1));
        }
    }

    /// The value bound to `name`, if any.
    pub fn get(&self, name: &str) -> (r: Option<&String>)
        requires
            self.wf(),
        ensures
            match r {
                Some(v) => self@.contains_key(name@) && v@ == self@[name@],
                None => !self@.contains_key(name@),
            },
    {
        let mut i: usize = 0;
        while i < self.entries.len()
            invariant
                attrs_unique(self.entries@),
                i <= self.entries@.len(),
                forall|j: int| 0 <= j < i ==> self.entries@[j].0@ != name@,
            decreases self.entries@.len() - i,
        {
            if str_eq(self.entries[i].0.as_str(), name) {
                proof {
                    lemma_attrs_map_get(self.entries@, name@);
                }
                return Some(&self.entries[i].1);
            }
            i = i + 1;
        }
        proof {
            lemma_attrs_map_get(self.entries@, name@);
        }
        None
    }
}

impl View for AttributeMap {
    type V = Map<Seq<char>, Seq<char>>;

    closed spec fn view(&self) -> Map<Seq<char>, Seq<char>> {
        attrs_map(self.entries@)
    }
}

/// Construct a text node.
pub fn text(data: String) -> (r: Node)
    ensures
        r.children@ =~= Seq::<Node>::empty(),
        r.node_type matches NodeType::Text(d) && d@ == data@,
{
    Node { children: Vec::new(), node_type: NodeType::Text(data) }
}

/// Construct an element node.
pub fn element(tag_name: String, attributes: AttributeMap, children: Vec<Node>) -> (r: Node)
    ensures
        r.children == children,
        r.node_type matches NodeType::Element(e) && e.tag_name@ == tag_name@ && e.attributes
            == attributes,
{
    Node { children, node_type: NodeType::Element(Element { tag_name, attributes }) }
}

} // verus!
