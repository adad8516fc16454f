//! The routing tree: a flat, append-only table of path-segment nodes.
//!
//! A node's identity is its integer index into the table, so the tree
//! holds no parent/child object cycles and growing it never invalidates
//! an index. Each node keeps literal-segment edges (unique keys), at
//! most one wildcard edge whose segment begins with `:` or `*`, and an
//! optional handler.

use vstd::prelude::*;

verus! {

/// The mathematical model of one node: literal edges as a map from
/// segment to child index, at most one wildcard edge, an optional
/// handler.
#[verifier::ext_equal]
pub ghost struct NodeModel<H> {
    pub children: Map<Seq<char>, int>,
    pub wildcard: Option<(Seq<char>, int)>,
    pub handler: Option<H>,
}

/// The model of a freshly created node: no edges, no handler.
pub open spec fn empty_node<H>() -> NodeModel<H> {
    NodeModel { children: Map::empty(), wildcard: None, handler: None }
}

/// Whether a segment is a wildcard: it begins with `:` (named
/// parameter) or `*` (catch-all).
pub open spec fn is_wildcard_seg(s: Seq<char>) -> bool {
    s.len() > 0 && (s[0] == ':' || s[0] == '*')
}

/// A node of the tree, as stored: literal edges as an association list
/// with unique keys.
#[derive(Clone)]
pub struct Node<H> {
    children: Vec<(String, usize)>,
    wildcard: Option<(String, usize)>,
    handler: Option<H>,
}

/// The literal-edge map described by an association list; a later pair
/// with the same key would win, but the tree keeps keys unique.
pub open spec fn assoc_map(pairs: Seq<(String, usize)>) -> Map<Seq<char>, int>
    decreases pairs.len(),
{
    if pairs.len() == 0 {
        Map::empty()
    } else {
        assoc_map(pairs.drop_last()).insert(pairs.last().0@, pairs.last().1 as int)
    }
}

/// No two pairs share a key.
pub open spec fn keys_unique(pairs: Seq<(String, usize)>) -> bool {
    forall|i: int, j: int| 0 <= i < j < pairs.len() ==> pairs[i].0@ != pairs[j].0@
}

/// A key is in the map exactly when some pair holds it.
proof fn lemma_assoc_contains(pairs: Seq<(String, usize)>, k: Seq<char>)
    ensures
        assoc_map(pairs).contains_key(k) <==> exists|i: int|
            0 <= i < pairs.len() && pairs[i].0@ == k,
    decreases pairs.len(),
{
    if pairs.len() > 0 {
        lemma_assoc_contains(pairs.drop_last(), k);
        if pairs.last().0@ == k {
            assert(pairs[pairs.len() - 1].0@ == k);
        } else if assoc_map(pairs).contains_key(k) {
            let i = choose|i: int| 0 <= i < pairs.drop_last().len() && pairs.drop_last()[i].0@
                == k;
            assert(pairs[i].0@ == k);
        } else {
            assert(forall|i: int| 0 <= i < pairs.len() - 1 ==> pairs.drop_last()[i] == pairs[i]);
        }
    }
}

/// With unique keys, the map sends each pair's key to that pair's
/// index value.
proof fn lemma_assoc_value(pairs: Seq<(String, usize)>, i: int)
    requires
        keys_unique(pairs),
        0 <= i < pairs.len(),
    ensures
        assoc_map(pairs).contains_key(pairs[i].0@),
        assoc_map(pairs)[pairs[i].0@] == pairs[i].1 as int,
    decreases pairs.len(),
{
    if i == pairs.len() - 1 {
    } else {
        assert(pairs.drop_last()[i] == pairs[i]);
        lemma_assoc_value(pairs.drop_last(), i);
        assert(pairs.last().0@ != pairs[i].0@);
    }
}

impl<H> View for Node<H> {
    type V = NodeModel<H>;

    closed spec fn view(&self) -> NodeModel<H> {
        NodeModel {
            children: assoc_map(self.children@),
            wildcard: match self.wildcard {
                Some(p) => Some((p.0@, p.1 as int)),
                None => None,
            },
            handler: self.handler,
        }
    }
}

impl<H> Node<H> {
    /// Whether the stored association list is sound: unique keys, and
    /// every edge target below `len`.
    closed spec fn inv(&self, len: int) -> bool {
        &&& keys_unique(self.children@)
        &&& forall|i: int|
            0 <= i < self.children@.len() ==> (#[trigger] self.children@[i]).1 < len
        &&& match self.wildcard {
            Some(p) => p.1 < len && is_wildcard_seg(p.0@),
            None => true,
        }
    }

    fn empty() -> (n: Node<H>)
        ensures
            n@ == empty_node::<H>(),
            forall|len: int| n.inv(len),
    {
        let n = Node { children: Vec::new(), wildcard: None, handler: None };
        proof {
            assert(n@ =~~= empty_node::<H>());
        }
        n
    }
}

/// A node model is well formed for a table of `len` nodes when all its
/// edges point below `len` and its wildcard segment is a wildcard.
pub open spec fn model_node_wf<H>(m: NodeModel<H>, len: int) -> bool {
    &&& forall|s: Seq<char>| m.children.contains_key(s) ==> 0 <= #[trigger] m.children[s] < len
    &&& match m.wildcard {
        Some(p) => 0 <= p.1 < len && is_wildcard_seg(p.0),
        None => true,
    }
}

/// A tree model is well formed: the root exists and every node is well
/// formed for the table's length.
pub open spec fn tree_wf<H>(t: Seq<NodeModel<H>>) -> bool {
    &&& t.len() >= 1
    &&& forall|n: int| 0 <= n < t.len() ==> model_node_wf(#[trigger] t[n], t.len() as int)
}

/// The model after linking a fresh literal child of `n` under `seg`:
/// the new node's index is the old length.
pub open spec fn model_with_child<H>(t: Seq<NodeModel<H>>, n: int, seg: Seq<char>) -> Seq<
    NodeModel<H>,
> {
    t.update(
        n,
        NodeModel { children: t[n].children.insert(seg, t.len() as int), ..t[n] },
    ).push(empty_node())
}

/// The model after linking a fresh wildcard child of `n` under `seg`.
pub open spec fn model_with_wildcard<H>(t: Seq<NodeModel<H>>, n: int, seg: Seq<char>) -> Seq<
    NodeModel<H>,
> {
    t.update(n, NodeModel { wildcard: Some((seg, t.len() as int)), ..t[n] }).push(empty_node())
}

/// The model after recording `h` as the handler at node `n`.
pub open spec fn model_with_handler<H>(t: Seq<NodeModel<H>>, n: int, h: H) -> Seq<NodeModel<H>> {
    t.update(n, NodeModel { handler: Some(h), ..t[n] })
}

/// The routing tree: a flat node table whose root is always index 0.
#[derive(Clone)]
pub struct Tree<H> {
    nodes: Vec<Node<H>>,
}

impl<H> View for Tree<H> {
    type V = Seq<NodeModel<H>>;

    closed spec fn view(&self) -> Seq<NodeModel<H>> {
        self.nodes@.map_values(|n: Node<H>| n@)
    }
}

impl<H> Tree<H> {
    /// The stored tree is sound and its model is well formed.
    pub closed spec fn wf(&self) -> bool {
        &&& self.nodes@.len() >= 1
        &&& forall|n: int|
            0 <= n < self.nodes@.len() ==> (#[trigger] self.nodes@[n]).inv(
                self.nodes@.len() as int,
            )
    }

    proof fn lemma_wf_model(&self)
        requires
            self.wf(),
        ensures
            tree_wf(self@),
    {
        assert forall|n: int| 0 <= n < self@.len() implies model_node_wf(
            #[trigger] self@[n],
            self@.len() as int,
        ) by {
            let node = self.nodes@[n];
            assert forall|s: Seq<char>| self@[n].children.contains_key(s) implies 0 <= #[trigger] self@[n].children[s]
                < self@.len() by {
                lemma_assoc_contains(node.children@, s);
                let i = choose|i: int| 0 <= i < node.children@.len() && node.children@[i].0@ == s;
                lemma_assoc_value(node.children@, i);
            }
        }
    }

    /// A tree with a single root node: index 0, no edges, no handler.
    pub fn new() -> (t: Tree<H>)
        ensures
            t.wf(),
            t@ == seq![empty_node::<H>()],
    {
        let mut nodes: Vec<Node<H>> = Vec::new();
        nodes.push(Node::empty());
        let t = Tree { nodes };
        proof {
            assert(t@ =~~= seq![empty_node::<H>()]);
        }
        t
    }

    /// The index of the literal child of `node` under `seg`, if that
    /// edge exists; never consults the wildcard edge.
    pub fn get_child(&self, node: usize, seg: &String) -> (r: Option<usize>)
        requires
            self.wf(),
            node < self@.len(),
        ensures
            match r {
                Some(c) => self@[node as int].children.contains_key(seg@) && c as int
                    == self@[node as int].children[seg@] && c < self@.len(),
                None => !self@[node as int].children.contains_key(seg@),
            },
    {
        let pairs = &self.nodes[node].children;
        let n = pairs.len();
        let mut i: usize = 0;
        while i < n
            invariant
                n == pairs@.len(),
                i <= n,
                node < self.nodes@.len(),
                pairs@ == self.nodes@[node as int].children@,
                self.wf(),
                forall|j: int| 0 <= j < i ==> (#[trigger] pairs@[j]).0@ != seg@,
            decreases n - i,
        {
            if pairs[i].0 == *seg {
                proof {
                    lemma_assoc_value(pairs@, i as int);
                }
                return Some(pairs[i].1);
            }
            i = i + 1;
        }
        proof {
            lemma_assoc_contains(pairs@, seg@);
        }
        None
    }

    /// The wildcard edge of `node`: the stored wildcard segment
    /// (including its `:` or `*`) and the child index.
    pub fn get_wildcard(&self, node: usize) -> (r: Option<&(String, usize)>)
        requires
            self.wf(),
            node < self@.len(),
        ensures
            match r {
                Some(p) => self@[node as int].wildcard == Some((p.0@, p.1 as int)) && p.1
                    < self@.len() && is_wildcard_seg(p.0@),
                None => self@[node as int].wildcard is None,
            },
    {
        self.nodes[node].wildcard.as_ref()
    }

    /// The handler recorded at `node`, if any.
    pub fn get_handler(&self, node: usize) -> (r: Option<&H>)
        requires
            self.wf(),
            node < self@.len(),
        ensures
            match r {
                Some(h) => self@[node as int].handler == Some(*h),
                None => self@[node as int].handler is None,
            },
    {
        self.nodes[node].handler.as_ref()
    }

    /// Returns the existing literal child of `node` under `seg`, or
    /// creates one: idempotent for a repeated identical segment.
    pub fn add_child(&mut self, node: usize, seg: &String) -> (c: usize)
        requires
            old(self).wf(),
            node < old(self)@.len(),
        ensures
            final(self).wf(),
            c < final(self)@.len(),
            node < final(self)@.len(),
            old(self)@[node as int].children.contains_key(seg@) ==> final(self)@ == old(self)@
                && c as int == old(self)@[node as int].children[seg@],
            !old(self)@[node as int].children.contains_key(seg@) ==> c as int == old(self)@.len()
                && final(self)@ == model_with_child(old(self)@, node as int, seg@),
    {
        match self.get_child(node, seg) {
            Some(c) => c,
            None => {
                let c = self.nodes.len();
                let ghost oldnodes = self.nodes@;
                self.nodes.push(Node::empty());
                let pair = (seg.clone(), c);
                self.nodes[node].children.push(pair);
                proof {
                    let newnodes = self.nodes@;
                    assert(newnodes[node as int].children@ =~= oldnodes[node as int].children@.push(
                        (pair.0, pair.1),
                    ));
                    lemma_assoc_contains(oldnodes[node as int].children@, seg@);
                    assert(newnodes[node as int].children@.drop_last() =~= oldnodes[node as int].children@);
                    assert(newnodes[node as int].children@.last() == pair);
                    assert(newnodes[node as int]@.children =~= oldnodes[node as int]@.children.insert(
                        seg@,
                        c as int,
                    ));
                    assert(self@ =~~= model_with_child(old(self)@, node as int, seg@));
                    assert forall|n: int| 0 <= n < newnodes.len() implies (
                    #[trigger] newnodes[n]).inv(newnodes.len() as int) by {
                        if n != node && n < oldnodes.len() {
                            assert(oldnodes[n].inv(oldnodes.len() as int));
                        }
                    }
                }
                c
            },
        }
    }

    /// Returns the existing wildcard child when the same wildcard
    /// segment is already recorded at `node`; creates the edge when the
    /// node has none; rejects a differently-named wildcard, leaving the
    /// tree unchanged.
    pub fn set_wildcard(&mut self, node: usize, seg: &String) -> (r: Result<usize, crate::http::Failure>)
        requires
            old(self).wf(),
            node < old(self)@.len(),
            is_wildcard_seg(seg@),
        ensures
            final(self).wf(),
            node < final(self)@.len(),
            match old(self)@[node as int].wildcard {
                None => {
                    &&& r matches Ok(c) && c as int == old(self)@.len()
                    &&& final(self)@ == model_with_wildcard(old(self)@, node as int, seg@)
                },
                Some(p) => {
                    if p.0 == seg@ {
                        &&& r matches Ok(c) && c as int == p.1
                        &&& final(self)@ == old(self)@
                    } else {
                        &&& r matches Err(f) && f matches crate::http::Failure::Config(m) && m@
                            == seg@
                        &&& final(self)@ == old(self)@
                    }
                },
            },
            r matches Ok(c) ==> c < final(self)@.len(),
    {
        let existing = match &self.nodes[node].wildcard {
            Some(p) => Some((p.0.clone(), p.1)),
            None => None,
        };
        match existing {
            Some((w, c)) => {
                if w == *seg {
                    Ok(c)
                } else {
                    Err(crate::http::Failure::Config(seg.clone()))
                }
            },
            None => {
                let c = self.nodes.len();
                let ghost oldnodes = self.nodes@;
                self.nodes.push(Node::empty());
                self.nodes[node].wildcard = Some((seg.clone(), c));
                proof {
                    assert(self@ =~~= model_with_wildcard(old(self)@, node as int, seg@));
                    let newnodes = self.nodes@;
                    assert forall|n: int| 0 <= n < newnodes.len() implies (
                    #[trigger] newnodes[n]).inv(newnodes.len() as int) by {
                        if n != node && n < oldnodes.len() {
                            assert(oldnodes[n].inv(oldnodes.len() as int));
                        }
                        assert(newnodes[node as int].children@ == oldnodes[node as int].children@);
                    }
                }
                Ok(c)
            },
        }
    }

    /// Records `h` as the handler at `node`; a repeated registration
    /// overwrites, last write wins.
    pub fn set_handler(&mut self, node: usize, h: H)
        requires
            old(self).wf(),
            node < old(self)@.len(),
        ensures
            final(self).wf(),
            final(self)@ == model_with_handler(old(self)@, node as int, h),
    {
        let ghost oldnodes = self.nodes@;
        self.nodes[node].handler = Some(h);
        proof {
            assert(self@ =~~= model_with_handler(old(self)@, node as int, h));
            let newnodes = self.nodes@;
            assert forall|n: int| 0 <= n < newnodes.len() implies (#[trigger] newnodes[n]).inv(
                newnodes.len() as int,
            ) by {
                if n != node {
                    assert(oldnodes[n].inv(oldnodes.len() as int));
                }
                assert(newnodes[node as int].children@ == oldnodes[node as int].children@);
            }
        }
    }

    /// The number of nodes in the table.
    pub fn len(&self) -> (r: usize)
        ensures
            r == self@.len(),
    {
        self.nodes.len()
    }

    /// `tree_wf` holds of the model of any well-formed tree; exposed so
    /// that callers reasoning over the model can use it.
    pub proof fn model_wf(&self)
        requires
            self.wf(),
        ensures
            tree_wf(self@),
    {
        self.lemma_wf_model();
    }
}

} // verus!
