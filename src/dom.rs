//! The document tree that the markup parser builds.
use crate::source::views;
use vstd::prelude::*;

verus! {

broadcast use vstd::std_specs::vec::group_vec_axioms;

/// The map that inserting `p`'s pairs in order into an empty map gives: where
/// a name comes twice, the later value wins.
pub open spec fn pairs_map(p: Seq<(Seq<char>, Seq<char>)>) -> Map<Seq<char>, Seq<char>>
    decreases p.len(),
{
    if p.len() == 0 {
        Map::empty()
    } else {
        pairs_map(p.drop_last()).insert(p.last().0, p.last().1)
    }
}

/// Attribute names and their values. Each name occurs once.
#[derive(Debug)]
pub struct AttrMap {
    entries: Vec<(String, String)>,
}

pub open spec fn unique_names(p: Seq<(Seq<char>, Seq<char>)>) -> bool {
    forall|a: int, b: int| 0 <= a < b < p.len() ==> p[a].0 != p[b].0
}

pub proof fn lemma_pairs_map_update(p: Seq<(Seq<char>, Seq<char>)>, idx: int, v: Seq<char>)
    requires
        unique_names(p),
        0 <= idx < p.len(),
    ensures
        pairs_map(p.update(idx, (p[idx].0, v))) == pairs_map(p).insert(p[idx].0, v),
    decreases p.len(),
{
    let q = p.update(idx, (p[idx].0, v));
    if idx == p.len() - 1 {
        assert(q.drop_last() =~= p.drop_last());
        assert(pairs_map(q) =~= pairs_map(p).insert(p[idx].0, v));
    } else {
        assert(q.drop_last() =~= p.drop_last().update(idx, (p[idx].0, v)));
        lemma_pairs_map_update(p.drop_last(), idx, v);
        assert(p.last().0 != p[idx].0);
        assert(pairs_map(q) =~= pairs_map(p).insert(p[idx].0, v));
    }
}

impl View for AttrMap {
    type V = Map<Seq<char>, Seq<char>>;

    closed spec fn view(&self) -> Map<Seq<char>, Seq<char>> {
        pairs_map(views(self.entries@))
    }
}

impl AttrMap {
    #[verifier::type_invariant]
    spec fn names_unique(self) -> bool {
        unique_names(views(self.entries@))
    }

    pub fn new() -> (r: AttrMap)
        ensures
            r@ == Map::<Seq<char>, Seq<char>>::empty(),
    {
        let r = AttrMap { entries: Vec::new() };
        proof {
            assert(views(r.entries@) =~= Seq::<(Seq<char>, Seq<char>)>::empty());
        }
        r
    }

    /// Sets `name` to `value`, replacing an earlier value of `name`.
    pub fn insert(&mut self, name: String, value: String)
        ensures
            final(self)@ == old(self)@.insert(name@, value@),
    {
        let mut taken = AttrMap { entries: Vec::new() };
        proof {
            assert(views(taken.entries@) =~= Seq::<(Seq<char>, Seq<char>)>::empty());
        }
        std::mem::swap(self, &mut taken);
        proof {
            use_type_invariant(&taken);
        }
        let AttrMap { entries: mut entries } = taken;
        let ghost p = views(entries@);
        let mut idx: usize = 0;
        while idx < entries.len()
            invariant
                p == views(entries@),
                p == views(old(self).entries@),
                unique_names(p),
                idx <= entries@.len(),
                forall|k: int| 0 <= k < idx ==> p[k].0 != name@,
            decreases entries@.len() - idx,
        {
            assert(p[idx as int] == entries@[idx as int]@);
            if entries[idx].0 == name {
                let ghost v = value@;
                entries.set(idx, (name, value));
                proof {
                    assert(views(entries@) =~= p.update(idx as int, (p[idx as int].0, v)));
                    lemma_pairs_map_update(p, idx as int, v);
                    assert(unique_names(views(entries@)));
                }
                *self = AttrMap { entries };
                return;
            }
            idx = idx + 1;
        }
        let ghost item = (name@, value@);
        entries.push((name, value));
        proof {
            assert(views(entries@) =~= p.push(item));
            assert(views(entries@).drop_last() =~= p);
        }
        *self = AttrMap { entries };
    }

    /// The names and values, each name once.
    pub fn pairs(&self) -> (r: Vec<(String, String)>)
        ensures
            pairs_map(views(r@)) == self@,
            unique_names(views(r@)),
    {
        proof {
            use_type_invariant(self);
        }
        let mut r: Vec<(String, String)> = Vec::new();
        let mut idx: usize = 0;
        while idx < self.entries.len()
            invariant
                unique_names(views(self.entries@)),
                idx <= self.entries@.len(),
                views(r@) == views(self.entries@).take(idx as int),
            decreases self.entries@.len() - idx,
        {
            let name = self.entries[idx].0.clone();
            let value = self.entries[idx].1.clone();
            let ghost before = r@;
            r.push((name, value));
            proof {
                assert(views(r@) =~= views(before).push(self.entries@[idx as int]@));
                assert(views(self.entries@).take(idx + 1) =~= views(self.entries@).take(
                    idx as int,
                ).push(self.entries@[idx as int]@));
            }
            idx = idx + 1;
        }
        proof {
            assert(views(self.entries@).take(idx as int) =~= views(self.entries@));
        }
        r
    }

    /// The value of `name`, if it has one.
    pub fn get(&self, name: &str) -> (r: Option<&String>)
        ensures
            r matches Some(v) ==> self@.contains_key(name@) && self@[name@] == v@,
            r is None ==> !self@.contains_key(name@),
    {
        proof {
            use_type_invariant(self);
        }
        let ghost p = views(self.entries@);
        let key = String::from_str(name);
        let mut idx: usize = 0;
        while idx < self.entries.len()
            invariant
                p == views(self.entries@),
                key@ == name@,
                unique_names(p),
                idx <= self.entries@.len(),
                forall|k: int| 0 <= k < idx ==> p[k].0 != name@,
            decreases self.entries@.len() - idx,
        {
            assert(p[idx as int] == self.entries@[idx as int]@);
            if self.entries[idx].0 == key {
                proof {
                    lemma_pairs_map_lookup(p, idx as int);
                }
                return Some(&self.entries[idx].1);
            }
            idx = idx + 1;
        }
        proof {
            lemma_pairs_map_absent(p, name@);
        }
        None
    }
}

impl AttrMap {
    /// Whether every name of `self` has the same value in `other`.
    pub fn is_submap_of(&self, other: &AttrMap) -> (r: bool)
        ensures
            r == self@.submap_of(other@),
    {
        proof {
            use_type_invariant(self);
        }
        let ghost p = views(self.entries@);
        let mut idx: usize = 0;
        while idx < self.entries.len()
            invariant
                p == views(self.entries@),
                unique_names(p),
                idx <= self.entries@.len(),
                forall|k: int|
                    0 <= k < idx ==> other@.contains_key(#[trigger] p[k].0) && other@[p[k].0]
                        == p[k].1,
            decreases self.entries@.len() - idx,
        {
            assert(p[idx as int] == self.entries@[idx as int]@);
            let same = match other.get(self.entries[idx].0.as_str()) {
                Some(v) => *v == self.entries[idx].1,
                None => false,
            };
            if !same {
                proof {
                    lemma_pairs_map_lookup(p, idx as int);
                }
                return false;
            }
            idx = idx + 1;
        }
        proof {
            assert forall|key: Seq<char>| #[trigger] self@.contains_key(key) implies other@.contains_key(
                key,
            ) && other@[key] == self@[key] by {
                if forall|k: int| 0 <= k < p.len() ==> p[k].0 != key {
                    lemma_pairs_map_absent(p, key);
                }
                let k = choose|k: int| 0 <= k < p.len() && p[k].0 == key;
                lemma_pairs_map_lookup(p, k);
            }
        }
        true
    }
}

impl PartialEq for AttrMap {
    fn eq(&self, other: &AttrMap) -> bool {
        let r = self.is_submap_of(other) && other.is_submap_of(self);
        proof {
            if r {
                assert(self@.dom() =~= other@.dom());
                assert(self@ =~= other@);
            }
        }
        r
    }
}

impl vstd::std_specs::cmp::PartialEqSpecImpl for AttrMap {
    open spec fn obeys_eq_spec() -> bool {
        true
    }

    open spec fn eq_spec(&self, other: &AttrMap) -> bool {
        self@ == other@
    }
}

/// A node of the document tree, with the nodes it owns.
#[derive(Debug, PartialEq)]
pub struct Node {
    pub node_type: NodeType,
    pub children: Vec<Box<Node>>,
}

#[derive(Debug, PartialEq)]
pub enum NodeType {
    Element(Element),
    Text(Text),
}

#[derive(Debug, PartialEq)]
pub struct Element {
    pub tag_name: String,
    pub attributes: AttrMap,
}

#[derive(Debug, PartialEq)]
pub struct Text {
    pub data: String,
}

/// What a node stands for: an element with its tag name, attributes and
/// children, or a run of text.
pub enum NodeModel {
    Element {
        tag_name: Seq<char>,
        attributes: Map<Seq<char>, Seq<char>>,
        children: Seq<NodeModel>,
    },
    Text { data: Seq<char> },
}

pub open spec fn node_model(n: Node) -> NodeModel
    decreases n,
{
    match n.node_type {
        NodeType::Element(e) => NodeModel::Element {
            tag_name: e.tag_name@,
            attributes: e.attributes@,
            children: Seq::new(
                n.children@.len(),
                |k: int|
                    if 0 <= k < n.children@.len() {
                        node_model(*n.children@[k])
                    } else {
                        NodeModel::Text { data: seq![] }
                    },
            ),
        },
        NodeType::Text(t) => NodeModel::Text { data: t.data@ },
    }
}

impl View for Node {
    type V = NodeModel;

    open spec fn view(&self) -> NodeModel {
        node_model(*self)
    }
}

impl Element {
    /// An element node with the given children.
    pub fn new(tag_name: String, attributes: AttrMap, children: Vec<Box<Node>>) -> (r: Box<Node>)
        ensures
            r@ == (NodeModel::Element {
                tag_name: tag_name@,
                attributes: attributes@,
                children: views(children@),
            }),
    {
        let ghost t = tag_name@;
        let ghost a = attributes@;
        let ghost c = children@;
        let r = Box::new(
            Node { node_type: NodeType::Element(Element { tag_name, attributes }), children },
        );
        proof {
            assert(r@->children =~= views(c));
        }
        r
    }
}

impl Text {
    /// A text node.
    pub fn new(data: String) -> (r: Box<Node>)
        ensures
            r@ == (NodeModel::Text { data: data@ }),
    {
        Box::new(Node { node_type: NodeType::Text(Text { data }), children: Vec::new() })
    }
}

pub proof fn lemma_pairs_map_lookup(p: Seq<(Seq<char>, Seq<char>)>, idx: int)
    requires
        unique_names(p),
        0 <= idx < p.len(),
    ensures
        pairs_map(p).contains_key(p[idx].0),
        pairs_map(p)[p[idx].0] == p[idx].1,
    decreases p.len(),
{
    if idx < p.len() - 1 {
        lemma_pairs_map_lookup(p.drop_last(), idx);
    }
}

pub proof fn lemma_pairs_map_absent(p: Seq<(Seq<char>, Seq<char>)>, name: Seq<char>)
    requires
        forall|k: int| 0 <= k < p.len() ==> p[k].0 != name,
    ensures
        !pairs_map(p).contains_key(name),
    decreases p.len(),
{
    if p.len() > 0 {
        lemma_pairs_map_absent(p.drop_last(), name);
    }
}

} // verus!
