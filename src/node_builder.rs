use vstd::prelude::*;
use vstd::cell::invcell::InvCell;
use std::rc::Rc;
use crate::node::{live_count, ancestry, kids, live, parent_of, style_of, valid, NodeId, Slot, TaffyError};
use crate::style_builder::{AnyNode, StyleBuilder};
use crate::tree::{
    children_error, extends, lemma_extends_parent, lemma_extends_trans, lemma_extends_valid, lemma_root_ancestry,
    TaffyTree,
};

verus! {

/// A shared slot that receives the id of the node made for a `StyleNode`.
#[derive(Clone)]
pub struct NodeIdHandle(Rc<InvCell<Option<NodeId>, AnyNode>>);

impl NodeIdHandle {
    /// An empty handle.
    pub fn new() -> Self {
        NodeIdHandle(Rc::new(InvCell::new(None, Ghost(AnyNode))))
    }

    fn set(&self, node_id: NodeId) {
        self.0.set(Some(node_id))
    }

    /// The id last stored through any clone of the handle, if any. The slot is
    /// shared, so nothing is known of it here.
    pub fn get(&self) -> Option<NodeId> {
        self.0.get()
    }
}

/// Why a tree of `StyleNode`s could not be made.
#[derive(Debug)]
pub enum StyleNodeError {
    TaffyComputeError(TaffyError),
}

impl From<TaffyError> for StyleNodeError {
    fn from(value: TaffyError) -> (r: Self)
        ensures
            r == StyleNodeError::TaffyComputeError(value),
    {
        StyleNodeError::TaffyComputeError(value)
    }
}

impl vstd::std_specs::convert::FromSpecImpl<TaffyError> for StyleNodeError {
    open spec fn obeys_from_spec() -> bool {
        true
    }

    open spec fn from_spec(v: TaffyError) -> StyleNodeError {
        StyleNodeError::TaffyComputeError(v)
    }
}

/// A tree of styles, each node owning its children, made into nodes of a
/// `TaffyTree` all at once.
pub struct StyleNode {
    pub style_builder: StyleBuilder<'static>,
    pub children: Vec<Box<StyleNode>>,
    pub node_id_handle: Option<NodeIdHandle>,
}

impl StyleNode {
    /// A node with the default style and no children.
    pub fn new() -> (r: Self)
        ensures
            r.style_builder.is_empty(),
            r.children@.len() == 0,
            r.node_id_handle.is_none(),
    {
        StyleNode { style_builder: StyleBuilder::new(), children: Vec::new(), node_id_handle: None }
    }

    /// Lets `f` set the style.
    pub fn style<F>(&mut self, f: F) -> (r: &mut StyleNode)
        where
            F: FnOnce(&mut StyleBuilder<'static>),
        requires
            forall|b: &mut StyleBuilder<'static>| f.requires((b,)),
        ensures
            r.children == old(self).children,
            r.node_id_handle == old(self).node_id_handle,
            exists|b: &mut StyleBuilder<'static>|
                *b == old(self).style_builder && *final(b) == r.style_builder && f.ensures((b,), ()),
            *final(self) == *final(r),
    {
        f(&mut self.style_builder);
        self
    }

    /// Adds a child, after those added before, which `f` sets up.
    pub fn child<F>(&mut self, f: F) -> (r: &mut StyleNode)
        where
            F: FnOnce(&mut StyleNode),
        requires
            forall|n: &mut StyleNode| f.requires((n,)),
        ensures
            r.style_builder == old(self).style_builder,
            r.node_id_handle == old(self).node_id_handle,
            r.children@.len() == old(self).children@.len() + 1,
            r.children@.take(old(self).children@.len() as int) == old(self).children@,
            exists|n: &mut StyleNode|
                (*n).style_builder.is_empty() && (*n).children@.len() == 0 && (*n).node_id_handle.is_none()
                    && *final(n) == *r.children@.last() && f.ensures((n,), ()),
            *final(self) == *final(r),
    {
        let mut child_node = StyleNode::new();
        f(&mut child_node);
        self.children.push(Box::new(child_node));
        self
    }

    /// Sets the handle that receives the id of the node made for this one.
    pub fn handle(&mut self, node_id_handle: Option<NodeIdHandle>) -> (r: &mut StyleNode)
        ensures
            *r == (StyleNode { node_id_handle, ..*old(self) }),
            *final(self) == *final(r),
    {
        self.node_id_handle = node_id_handle;
        self
    }

    /// Makes one node for this one and for each below it, each with its style
    /// and its children in order, as a new tree in `tree`, and returns its
    /// root. Each handle receives its node's id. The nodes the tree held are
    /// left as they were.
    pub fn build(&self, tree: &mut TaffyTree) -> (r: Result<NodeId, StyleNodeError>)
        requires
            old(tree).wf(),
        ensures
            final(tree).wf(),
            final(tree).max_depth() == old(tree).max_depth(),
            extends(old(tree).nodes(), final(tree).nodes()),
            r.is_ok(),
            !valid(old(tree).nodes(), r.unwrap()),
            valid(final(tree).nodes(), r.unwrap()),
            parent_of(final(tree).nodes(), r.unwrap()).is_none(),
            node_built_from(final(tree).nodes(), r.unwrap(), *self, old(tree).nodes()),
            live_count(final(tree).nodes()) == live_count(old(tree).nodes()) + node_count(*self),
        decreases self,
    {
        let style = self.style_builder.build_style();
        let ghost s0 = tree.nodes();
        let node_id = match tree.new_leaf(style) {
            Ok(id) => id,
            Err(e) => {
                return Err(StyleNodeError::from(e));
            },
        };
        let ghost s1 = tree.nodes();
        if let Some(h) = &self.node_id_handle {
            h.set(node_id);
        }
        let mut ids: Vec<NodeId> = Vec::new();
        let mut i: usize = 0;
        while i < self.children.len()
            invariant
                tree.wf(),
                tree.max_depth() == old(tree).max_depth(),
                s0 == old(tree).nodes(),
                extends(s0, s1),
                extends(s1, tree.nodes()),
                !valid(s0, node_id),
                valid(s1, node_id),
                valid(tree.nodes(), node_id),
                tree.nodes()[node_id.index as int] == s1[node_id.index as int],
                self.style_builder.describes(style_of(s1, node_id)),
                kids(s1, node_id).len() == 0,
                parent_of(tree.nodes(), node_id).is_none(),
                i <= self.children@.len(),
                ids@.len() == i,
                forall|m: int| 0 <= m < i ==> valid(tree.nodes(), #[trigger] ids@[m]),
                forall|m: int| 0 <= m < i ==> !valid(s1, #[trigger] ids@[m]),
                forall|m: int| 0 <= m < i ==> (#[trigger] parent_of(tree.nodes(), ids@[m])).is_none(),
                forall|a: int, b: int| 0 <= a < b < i ==> #[trigger] ids@[a] != #[trigger] ids@[b],
                forall|m: int| 0 <= m < i ==> self.children@[m].style_builder.describes(style_of(tree.nodes(), #[trigger] ids@[m])),
                forall|m: int| 0 <= m < i ==> node_built_from(tree.nodes(), #[trigger] ids@[m], *self.children@[m], s1),
                live_count(s1) == live_count(s0) + 1,
                live_count(tree.nodes()) == live_count(s1) + nodes_count(self.children@.subrange(0, i as int)),
            decreases self.children@.len() - i,
        {
            let ghost prev = tree.nodes();
            proof {
                tree.lemma_wf_arena();
            }
            let c = match self.children[i].build(tree) {
                Ok(c) => c,
                Err(e) => {
                    return Err(e);
                },
            };
            proof {
                let cur = tree.nodes();
                tree.lemma_wf_arena();
                lemma_extends_trans(s1, prev, cur);
                lemma_extends_valid(prev, cur, node_id);
                lemma_extends_parent(prev, cur, node_id);
                assert(cur[node_id.index as int] == prev[node_id.index as int]);
                assert forall|m: int| 0 <= m < i implies valid(cur, #[trigger] ids@[m]) && (#[trigger] parent_of(
                    cur,
                    ids@[m],
                )).is_none() && ids@[m] != c by {
                    lemma_extends_valid(prev, cur, ids@[m]);
                    lemma_extends_parent(prev, cur, ids@[m]);
                }
                assert forall|m: int| 0 <= m < i implies style_of(cur, #[trigger] ids@[m]) == style_of(prev, ids@[m]) by {
                    assert(live(prev, ids@[m].index as int));
                }
                if valid(s1, c) {
                    lemma_extends_valid(s1, prev, c);
                }
                assert forall|x: NodeId| valid(s1, x) implies valid(prev, x) by {
                    lemma_extends_valid(s1, prev, x);
                }
                lemma_node_built_earlier(cur, c, *self.children@[i as int], s1, prev);
                assert forall|m: int| 0 <= m < i implies node_built_from(cur, #[trigger] ids@[m], *self.children@[m], s1) by {
                    lemma_node_built_extends(prev, cur, ids@[m], *self.children@[m], s1);
                }
            }
            proof {
                let sub = self.children@.subrange(0, i + 1);
                assert(sub.subrange(0, sub.len() - 1) =~= self.children@.subrange(0, i as int));
                assert(sub[sub.len() - 1] == self.children@[i as int]);
            }
            ids.push(c);
            i += 1;
            proof {
                assert forall|a: int, b: int| 0 <= a < b < i implies #[trigger] ids@[a] != #[trigger] ids@[b] by {
                    if b == i - 1 {
                        assert(ids@[b] == c);
                    }
                }
            }
        }
        let ghost pre = tree.nodes();
        proof {
            assert(self.children@.subrange(0, i as int) =~= self.children@);
            assert(pre.len() > 0);
            lemma_root_ancestry(pre, node_id);
            assert(children_error(pre, node_id, ids@).is_none()) by {
                assert forall|m: int| 0 <= m < ids@.len() implies !ancestry(pre, node_id, pre.len()).contains(
                    #[trigger] ids@[m],
                ) by {
                    if ancestry(pre, node_id, pre.len()).contains(ids@[m]) {
                        assert(seq![node_id][0] == node_id);
                        assert(ids@[m] == node_id);
                    }
                }
            }
        }
        match tree.set_children(node_id, ids.as_slice()) {
            Ok(()) => {},
            Err(e) => {
                return Err(StyleNodeError::from(e));
            },
        }
        proof {
            let fin = tree.nodes();
            let ni = node_id.index as int;
            lemma_extends_trans(s0, s1, pre);
            assert forall|j: int| live(s0, j) implies #[trigger] fin[j] == s0[j] by {
                assert(j != ni);
                assert(pre[j] == s0[j]);
            }
            assert forall|j: int, k: int|
                live(fin, j) && !live(s0, j) && 0 <= k < fin[j].data.unwrap().children@.len() implies !valid(
                s0,
                #[trigger] fin[j].data.unwrap().children@[k],
            ) by {
                if j == ni {
                    let x = ids@[k];
                    if valid(s0, x) {
                        lemma_extends_valid(s0, s1, x);
                    }
                } else {
                    assert(fin[j] == pre[j]);
                }
            }
            assert forall|m: int| 0 <= m < ids@.len() implies style_of(fin, #[trigger] ids@[m]) == style_of(pre, ids@[m]) by {
                assert(valid(pre, ids@[m]));
                assert(ids@[m] != node_id);
                assert(ids@[m].index != node_id.index);
            }
            assert(kids(fin, node_id) == ids@);
            assert forall|x: NodeId| valid(s0, x) implies valid(s1, x) by {
                lemma_extends_valid(s0, s1, x);
            }
            assert forall|m: int| 0 <= m < ids@.len() implies #[trigger] node_built_from(
                fin,
                kids(fin, node_id)[m],
                *self.children@[m],
                s0,
            ) by {
                lemma_node_built_frame(pre, fin, node_id, ids@[m], *self.children@[m], s1);
                lemma_node_built_earlier(fin, ids@[m], *self.children@[m], s0, s1);
            }
            assert(style_of(fin, node_id) == style_of(s1, node_id));
            lemma_all_nodes_built(fin, kids(fin, node_id), self.children@, s0);
            assert forall|q: int| !crate::node::is_parent(fin, q, node_id) by {
                if crate::node::is_parent(fin, q, node_id) {
                    if q == ni {
                        let k = choose|k: int| 0 <= k < ids@.len() && ids@[k] == node_id;
                        assert(!valid(s1, ids@[k]));
                    } else {
                        assert(fin[q] == pre[q]);
                        assert(crate::node::is_parent(pre, q, node_id));
                    }
                }
            }
        }
        Ok(node_id)
    }
}


/// How many nodes building `b` makes: one for it and one for each builder
/// below it, counted once for each place it is referred from.
pub open spec fn node_count(b: StyleNode) -> nat
    decreases b,
{
    1 + nodes_count(b.children@)
}

/// How many nodes building each of `bs` makes.
pub open spec fn nodes_count(bs: Seq<Box<StyleNode>>) -> nat
    decreases bs,
{
    if bs.len() == 0 {
        0
    } else {
        nodes_count(bs.subrange(0, bs.len() - 1)) + node_count(*bs[bs.len() - 1])
    }
}

/// `id` is a node of `nodes` made from `b` since `before`: it and
/// every node below it are new since `before`, each has its style and as many
/// children as it has, each made the same way from the
/// matching child builder.
pub open spec fn node_built_from(nodes: Seq<Slot>, id: NodeId, b: StyleNode, before: Seq<Slot>) -> bool
    decreases b,
{
    &&& valid(nodes, id)
    &&& !valid(before, id)
    &&& b.style_builder.describes(style_of(nodes, id))
    &&& kids(nodes, id).len() == b.children@.len()
    &&& all_nodes_built(nodes, kids(nodes, id), b.children@, before)
}

/// Each node of `ids` is made from the `StyleNode` at the same place in `bs`.
pub open spec fn all_nodes_built(
    nodes: Seq<Slot>,
    ids: Seq<NodeId>,
    bs: Seq<Box<StyleNode>>,
    before: Seq<Slot>,
) -> bool
    decreases bs,
{
    if bs.len() == 0 || ids.len() != bs.len() {
        bs.len() == 0 && ids.len() == 0
    } else {
        all_nodes_built(nodes, ids.subrange(0, ids.len() - 1), bs.subrange(0, bs.len() - 1), before)
            && node_built_from(nodes, ids[ids.len() - 1], *bs[bs.len() - 1], before)
    }
}

/// `all_nodes_built` holds exactly when each pair is built.
proof fn lemma_all_nodes_built(nodes: Seq<Slot>, ids: Seq<NodeId>, bs: Seq<Box<StyleNode>>, before: Seq<Slot>)
    requires
        ids.len() == bs.len(),
    ensures
        all_nodes_built(nodes, ids, bs, before) <==> forall|k: int|
            0 <= k < bs.len() ==> #[trigger] node_built_from(nodes, ids[k], *bs[k], before),
    decreases bs.len(),
{
    if bs.len() > 0 {
        let n = bs.len() - 1;
        lemma_all_nodes_built(nodes, ids.subrange(0, n as int), bs.subrange(0, n as int), before);
        let si = ids.subrange(0, n as int);
        let sb = bs.subrange(0, n as int);
        assert forall|k: int| 0 <= k < n implies si[k] == ids[k] && sb[k] == bs[k] by {}
        if all_nodes_built(nodes, ids, bs, before) {
            assert forall|k: int| 0 <= k < bs.len() implies #[trigger] node_built_from(nodes, ids[k], *bs[k], before) by {
                if k < n {
                    assert(node_built_from(nodes, si[k], *sb[k], before));
                }
            }
        }
        if forall|k: int| 0 <= k < bs.len() ==> #[trigger] node_built_from(nodes, ids[k], *bs[k], before) {
            assert forall|k: int| 0 <= k < sb.len() implies #[trigger] node_built_from(nodes, si[k], *sb[k], before) by {
                assert(node_built_from(nodes, ids[k], *bs[k], before));
            }
            assert(node_built_from(nodes, ids[n as int], *bs[n as int], before));
        }
    }
}

/// A built tree stays as it is while the arena only grows.
proof fn lemma_node_built_extends(a: Seq<Slot>, c: Seq<Slot>, id: NodeId, b: StyleNode, before: Seq<Slot>)
    requires
        extends(a, c),
        node_built_from(a, id, b, before),
    ensures
        node_built_from(c, id, b, before),
    decreases b,
{
    lemma_all_nodes_built(a, kids(a, id), b.children@, before);
    lemma_all_nodes_built(c, kids(a, id), b.children@, before);
    lemma_extends_valid(a, c, id);
    assert(live(a, id.index as int));
    assert(c[id.index as int] == a[id.index as int]);
    assert forall|k: int| 0 <= k < b.children@.len() implies #[trigger] node_built_from(
        c,
        kids(c, id)[k],
        *b.children@[k],
        before,
    ) by {
        assert(node_built_from(a, kids(a, id)[k], *b.children@[k], before));
        lemma_node_built_extends(a, c, kids(a, id)[k], *b.children@[k], before);
    }
}

/// A built tree stays as it is when only the slot of an older node `p` changes.
proof fn lemma_node_built_frame(
    a: Seq<Slot>,
    c: Seq<Slot>,
    p: NodeId,
    id: NodeId,
    b: StyleNode,
    before: Seq<Slot>,
)
    requires
        node_built_from(a, id, b, before),
        valid(a, p),
        valid(before, p),
        c.len() == a.len(),
        forall|j: int| 0 <= j < a.len() && j != p.index ==> c[j] == a[j],
    ensures
        node_built_from(c, id, b, before),
    decreases b,
{
    lemma_all_nodes_built(a, kids(a, id), b.children@, before);
    lemma_all_nodes_built(c, kids(a, id), b.children@, before);
    assert(id.index != p.index);
    assert(c[id.index as int] == a[id.index as int]);
    assert forall|k: int| 0 <= k < b.children@.len() implies #[trigger] node_built_from(
        c,
        kids(c, id)[k],
        *b.children@[k],
        before,
    ) by {
        assert(node_built_from(a, kids(a, id)[k], *b.children@[k], before));
        lemma_node_built_frame(a, c, p, kids(a, id)[k], *b.children@[k], before);
    }
}

/// What is new since a later state is new since an earlier one.
proof fn lemma_node_built_earlier(nodes: Seq<Slot>, id: NodeId, b: StyleNode, s0: Seq<Slot>, s1: Seq<Slot>)
    requires
        node_built_from(nodes, id, b, s1),
        forall|x: NodeId| valid(s0, x) ==> valid(s1, x),
    ensures
        node_built_from(nodes, id, b, s0),
    decreases b,
{
    lemma_all_nodes_built(nodes, kids(nodes, id), b.children@, s1);
    lemma_all_nodes_built(nodes, kids(nodes, id), b.children@, s0);
    assert forall|k: int| 0 <= k < b.children@.len() implies #[trigger] node_built_from(
        nodes,
        kids(nodes, id)[k],
        *b.children@[k],
        s0,
    ) by {
        assert(node_built_from(nodes, kids(nodes, id)[k], *b.children@[k], s1));
        lemma_node_built_earlier(nodes, kids(nodes, id)[k], *b.children@[k], s0, s1);
    }
}

} // verus!
