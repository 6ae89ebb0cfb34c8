use vstd::prelude::*;

verus! {

/// Index of a node inside its arena: the position at which it was created.
pub type NodeId = usize;

/// A tree node: ordered children, an optional parent and a payload.
pub struct Node<T> {
    pub children: Vec<NodeId>,
    pub parent: Option<NodeId>,
    pub data: T,
}

impl<T> Node<T> {
    /// A node with the given payload, no parent and no children.
    pub fn new(data: T) -> (r: Node<T>)
        ensures
            r.data == data,
            r.parent == None::<NodeId>,
            r.children@ == Seq::<NodeId>::empty(),
    {
        Node { data: data, parent: None, children: Vec::new() }
    }

    /// Records `parent` as this node's parent.
    pub fn set_parent(&mut self, parent: NodeId)
        ensures
            final(self).parent == Some(parent),
            final(self).children@ == old(self).children@,
            final(self).data == old(self).data,
    {
        self.parent = Some(parent);
    }

    /// Appends `child` after the existing children.
    pub fn add_child(&mut self, child: NodeId)
        ensures
            final(self).children@ == old(self).children@.push(child),
            final(self).parent == old(self).parent,
            final(self).data == old(self).data,
    {
        self.children.push(child);
    }
}

/// Every parent and child id held by a node names a node of `nodes`.
pub open spec fn links_valid<T>(nodes: Seq<Node<T>>) -> bool {
    &&& forall|i: int, j: int|
        0 <= i < nodes.len() && 0 <= j < nodes[i].children@.len() ==> (#[trigger] nodes[i].children@[j])
            < nodes.len()
    &&& forall|i: int|
        0 <= i < nodes.len() ==> (#[trigger] nodes[i].parent matches Some(p) ==> p < nodes.len())
}

/// An append-only store of nodes; a node's id is its position.
pub struct Arena<T> {
    nodes: Vec<Node<T>>,
}

impl<T> View for Arena<T> {
    type V = Seq<Node<T>>;

    closed spec fn view(&self) -> Seq<Node<T>> {
        self.nodes@
    }
}

impl<T> Arena<T> {
    /// No id of the arena refers outside it.
    pub open spec fn wf(&self) -> bool {
        links_valid(self@)
    }

    /// An empty arena.
    pub fn new() -> (r: Arena<T>)
        ensures
            r@ == Seq::<Node<T>>::empty(),
            r.wf(),
    {
        Arena { nodes: Vec::new() }
    }

    /// Appends a fresh node holding `data` and returns its id, which is the
    /// number of nodes created before it. Earlier nodes are left as they were.
    pub fn create_node(&mut self, data: T) -> (r: NodeId)
        requires
            old(self)@.len() < usize::MAX,
        ensures
            r == old(self)@.len(),
            final(self)@.len() == old(self)@.len() + 1,
            final(self)@.take(r as int) == old(self)@,
            final(self)@[r as int].data == data,
            final(self)@[r as int].parent == None::<NodeId>,
            final(self)@[r as int].children@ == Seq::<NodeId>::empty(),
            old(self).wf() ==> final(self).wf(),
    {
        let index: NodeId = self.nodes.len();
        let node = Node::new(data);
        self.nodes.push(node);
        proof {
            assert(self.nodes@.take(index as int) =~= old(self).nodes@);
        }
        index
    }

    /// Mutable access to node `idx`; the arena afterwards holds whatever the
    /// caller left in it, every other node unchanged.
    pub fn get_node_mut(&mut self, idx: NodeId) -> (r: &mut Node<T>)
        requires
            idx < old(self)@.len(),
        ensures
            *r == old(self)@[idx as int],
            final(self)@ == old(self)@.update(idx as int, *final(r)),
    {
        &mut self.nodes[idx]
    }

    /// Shared access to node `idx`.
    pub fn get_node(&self, idx: NodeId) -> (r: &Node<T>)
        requires
            idx < self@.len(),
        ensures
            *r == self@[idx as int],
    {
        &self.nodes[idx]
    }

    /// A lazy pre-order walk of the subtree under `node`. Nothing is visited
    /// until the first call of `Traversal::next`.
    pub fn generator(&self, node: NodeId) -> (r: Traversal)
        requires
            node < self@.len(),
        ensures
            r.pending() == Some(node),
            r.frames() == Seq::<(NodeId, usize)>::empty(),
    {
        Traversal { pending: Some(node), stack: Vec::new() }
    }
}

/// One step of a walk with no pending root: the deepest frame that still has
/// an untried child hands it out and a frame for that child goes on top;
/// exhausted frames are dropped first. Frames are (node, next child index).
pub open spec fn advance<T>(nodes: Seq<Node<T>>, frames: Seq<(NodeId, usize)>) -> (Seq<(NodeId, usize)>, Option<NodeId>)
    decreases frames.len(),
{
    if frames.len() == 0 {
        (frames, None)
    } else {
        let (n, i) = frames.last();
        let kids = nodes[n as int].children@;
        if (i as int) < kids.len() {
            let c = kids[i as int];
            (frames.drop_last().push((n, (i + 1) as usize)).push((c, 0usize)), Some(c))
        } else {
            advance(nodes, frames.drop_last())
        }
    }
}

/// One step of a walk: a pending root is handed out first and becomes the
/// only frame; otherwise the walk advances.
pub open spec fn step<T>(nodes: Seq<Node<T>>, pending: Option<NodeId>, frames: Seq<(NodeId, usize)>) -> (Seq<(NodeId, usize)>, Option<NodeId>) {
    match pending {
        Some(root) => (seq![(root, 0usize)], Some(root)),
        None => advance(nodes, frames),
    }
}

/// A walk is lazy: its first draw hands out the root and leaves one frame,
/// the root's, with no child tried; the second draw goes to the root's first
/// child only, so no later sibling subtree has been reached.
pub proof fn lemma_walk_is_lazy<T>(nodes: Seq<Node<T>>, root: NodeId)
    ensures
        step(nodes, Some(root), Seq::<(NodeId, usize)>::empty()) == (seq![(root, 0usize)], Some(root)),
        nodes[root as int].children@.len() > 0 ==> advance(nodes, seq![(root, 0usize)]) == (
        seq![(root, 1usize), (nodes[root as int].children@[0], 0usize)],
        Some(nodes[root as int].children@[0]),
        ),
{
    let s = seq![(root, 0usize)];
    if nodes[root as int].children@.len() > 0 {
        assert(s.drop_last().push((root, 1usize)).push((nodes[root as int].children@[0], 0usize))
            =~= seq![(root, 1usize), (nodes[root as int].children@[0], 0usize)]);
    }
}

/// The frames lie on one downward path: each frame below the top has handed
/// out the child that the frame above it stands for.
pub open spec fn is_path<T>(nodes: Seq<Node<T>>, frames: Seq<(NodeId, usize)>) -> bool {
    forall|k: int|
        0 <= k < frames.len() - 1 ==> {
            &&& 1 <= (#[trigger] frames[k]).1 <= nodes[frames[k].0 as int].children@.len()
            &&& frames[k + 1].0 == nodes[frames[k].0 as int].children@[frames[k].1 - 1]
        }
}

/// Each frame names a node of `nodes` and an index within its children.
pub open spec fn frames_in<T>(nodes: Seq<Node<T>>, frames: Seq<(NodeId, usize)>) -> bool {
    forall|k: int|
        0 <= k < frames.len() ==> (#[trigger] frames[k]).0 < nodes.len() && frames[k].1
            <= nodes[frames[k].0 as int].children@.len()
}

/// The state of a suspended pre-order walk: a root not yet handed out, and a
/// stack of frames, one per level of the current root-to-node path.
pub struct Traversal {
    pending: Option<NodeId>,
    stack: Vec<(NodeId, usize)>,
}

impl Traversal {
    /// The root that the walk has yet to hand out, before anything else.
    pub closed spec fn pending(&self) -> Option<NodeId> {
        self.pending
    }

    /// The stack of (node, next child index) frames, bottom first.
    pub closed spec fn frames(&self) -> Seq<(NodeId, usize)> {
        self.stack@
    }

    /// The walk may go on over `nodes`.
    pub open spec fn fits<T>(&self, nodes: Seq<Node<T>>) -> bool {
        &&& links_valid(nodes)
        &&& (self.pending() matches Some(r) ==> r < nodes.len() && self.frames().len() == 0)
        &&& frames_in(nodes, self.frames())
        &&& is_path(nodes, self.frames())
    }

    /// Hands out the payload of the next node in pre-order, or `None` once the
    /// subtree is exhausted.
    pub fn next<'a, T>(&mut self, arena: &'a Arena<T>) -> (r: Option<&'a T>)
        requires
            old(self).fits(arena@),
        ensures
            final(self).pending() == None::<NodeId>,
            final(self).frames() == step(arena@, old(self).pending(), old(self).frames()).0,
            r is Some <==> step(arena@, old(self).pending(), old(self).frames()).1 is Some,
            r matches Some(d) ==> *d == arena@[step(arena@, old(self).pending(), old(self).frames()).1->0 as int].data,
            final(self).fits(arena@),
    {
        if let Some(root) = self.pending {
            self.pending = None;
            self.stack.push((root, 0));
            let n = arena.get_node(root);
            return Some(&n.data);
        }
        loop
            invariant
                self.pending == None::<NodeId>,
                old(self).pending == None::<NodeId>,
                links_valid(arena@),
                frames_in(arena@, self.stack@),
                is_path(arena@, self.stack@),
                advance(arena@, self.stack@) == advance(arena@, old(self).stack@),
            decreases self.stack@.len(),
        {
            let ghost before = self.stack@;
            let len = self.stack.len();
            if len == 0 {
                return None;
            }
            let (n, i) = self.stack[len - 1];
            let node = arena.get_node(n);
            if i < node.children.len() {
                let c = node.children[i];
                self.stack.set(len - 1, (n, i + 1));
                self.stack.push((c, 0));
                proof {
                    assert(self.stack@ =~= before.drop_last().push((n, (i + 1) as usize)).push((c, 0usize)));
                    assert(c < arena@.len());
                }
                let child = arena.get_node(c);
                return Some(&child.data);
            }
            self.stack.pop();
            proof {
                assert(self.stack@ =~= before.drop_last());
            }
        }
    }
}

/// The ids of the subtree under `id` in pre-order, cut off `fuel` levels down.
pub open spec fn subtree<T>(nodes: Seq<Node<T>>, id: NodeId, fuel: nat) -> Seq<NodeId>
    decreases fuel, 0nat,
{
    if fuel == 0 {
        Seq::empty()
    } else {
        seq![id] + forest(nodes, nodes[id as int].children@, (fuel - 1) as nat)
    }
}

/// The pre-order of the subtrees under `ids`, one after the other.
pub open spec fn forest<T>(nodes: Seq<Node<T>>, ids: Seq<NodeId>, fuel: nat) -> Seq<NodeId>
    decreases fuel, ids.len() + 1,
{
    if ids.len() == 0 {
        Seq::empty()
    } else {
        subtree(nodes, ids[0], fuel) + forest(nodes, ids.drop_first(), fuel)
    }
}

/// The subtree under `id` ends within `fuel` levels.
pub open spec fn ends_within<T>(nodes: Seq<Node<T>>, id: NodeId, fuel: nat) -> bool
    decreases fuel,
{
    fuel > 0 && forall|j: int|
        0 <= j < nodes[id as int].children@.len() ==> ends_within(
            nodes,
            #[trigger] nodes[id as int].children@[j],
            (fuel - 1) as nat,
        )
}

/// The children that the frame `(n, i)` has not tried yet.
pub open spec fn untried<T>(nodes: Seq<Node<T>>, frame: (NodeId, usize)) -> Seq<NodeId> {
    let kids = nodes[frame.0 as int].children@;
    if (frame.1 as int) < kids.len() {
        kids.subrange(frame.1 as int, kids.len() as int)
    } else {
        Seq::empty()
    }
}

/// What a walk still has to hand out: the untried subtrees of the top frame,
/// then those of the frames beneath. The bottom frame's children get `fuel`
/// levels, each frame above one level fewer.
pub open spec fn remaining<T>(nodes: Seq<Node<T>>, frames: Seq<(NodeId, usize)>, fuel: nat) -> Seq<NodeId>
    decreases frames.len(),
{
    if frames.len() == 0 {
        Seq::empty()
    } else {
        forest(nodes, untried(nodes, frames.last()), (fuel - (frames.len() - 1)) as nat) + remaining(
            nodes,
            frames.drop_last(),
            fuel,
        )
    }
}

/// Frame `k` stands for a node whose subtree ends within `fuel + 1 - k` levels.
pub open spec fn frames_within<T>(nodes: Seq<Node<T>>, frames: Seq<(NodeId, usize)>, fuel: nat) -> bool {
    forall|k: int|
        0 <= k < frames.len() ==> k <= fuel && ends_within(nodes, (#[trigger] frames[k]).0, (fuel + 1 - k) as nat)
}

/// A walk starts in pre-order: over a subtree that ends within `fuel + 1`
/// levels, the first draw hands out the root and what remains is the rest of
/// the subtree's pre-order.
pub proof fn lemma_walk_starts_at_root<T>(nodes: Seq<Node<T>>, root: NodeId, fuel: nat)
    requires
        root < nodes.len(),
        ends_within(nodes, root, fuel + 1),
    ensures
        step(nodes, Some(root), Seq::<(NodeId, usize)>::empty()).1 == Some(root),
        subtree(nodes, root, fuel + 1) == seq![root] + remaining(
            nodes,
            step(nodes, Some(root), Seq::<(NodeId, usize)>::empty()).0,
            fuel,
        ),
        frames_within(nodes, step(nodes, Some(root), Seq::<(NodeId, usize)>::empty()).0, fuel),
{
    let frames = seq![(root, 0usize)];
    let kids = nodes[root as int].children@;
    assert(frames.drop_last() =~= Seq::<(NodeId, usize)>::empty());
    if kids.len() > 0 {
        assert(kids.subrange(0, kids.len() as int) =~= kids);
    } else {
        assert(forest(nodes, kids, fuel) =~= Seq::<NodeId>::empty());
    }
    assert(frames.last() == (root, 0usize));
    assert(untried(nodes, frames.last()) =~= kids);
    assert(remaining(nodes, frames.drop_last(), fuel) == Seq::<NodeId>::empty());
    assert(remaining(nodes, frames, fuel) == forest(nodes, kids, fuel) + Seq::<NodeId>::empty());
    assert(remaining(nodes, frames, fuel) =~= forest(nodes, kids, fuel));
}

/// A walk goes on in pre-order: at every state over subtrees that end in
/// time, a step hands out the first id of what remains and leaves exactly the
/// rest, and the walk is over exactly when nothing remains.
pub proof fn lemma_walk_steps_in_preorder<T>(nodes: Seq<Node<T>>, frames: Seq<(NodeId, usize)>, fuel: nat)
    requires
        frames_within(nodes, frames, fuel),
    ensures
        advance(nodes, frames).1 is None <==> remaining(nodes, frames, fuel).len() == 0,
        advance(nodes, frames).1 matches Some(c) ==> remaining(nodes, frames, fuel) == seq![c]
            + remaining(nodes, advance(nodes, frames).0, fuel),
        frames_within(nodes, advance(nodes, frames).0, fuel),
    decreases frames.len(),
{
    if frames.len() == 0 {
        return;
    }
    let k = frames.len() - 1;
    let (n, i) = frames.last();
    let kids = nodes[n as int].children@;
    let f = (fuel - k) as nat;
    let below = frames.drop_last();
    assert(frames[k] == frames.last());
    assert forall|m: int| 0 <= m < below.len() implies m <= fuel && ends_within(nodes, (#[trigger] below[m]).0, (fuel + 1 - m) as nat) by {
        assert(below[m] == frames[m]);
    }
    if (i as int) < kids.len() {
        let c = kids[i as int];
        assert(nodes[n as int].children.len() == kids.len());
        let top = kids.subrange(i as int, kids.len() as int);
        let next_top = untried(nodes, (n, (i + 1) as usize));
        assert(top[0] == c);
        assert(top.drop_first() =~= next_top);
        assert(forest(nodes, top, f) == subtree(nodes, c, f) + forest(nodes, next_top, f));
        assert(ends_within(nodes, n, (f + 1) as nat));
        assert(ends_within(nodes, c, f));
        let grand = nodes[c as int].children@;
        assert(subtree(nodes, c, f) == seq![c] + forest(nodes, grand, (f - 1) as nat));
        let mid = below.push((n, (i + 1) as usize));
        let after = mid.push((c, 0usize));
        assert(mid.drop_last() =~= below);
        assert(after.drop_last() =~= mid);
        assert(remaining(nodes, mid, fuel) == forest(nodes, next_top, f) + remaining(nodes, below, fuel));
        if grand.len() > 0 {
            assert(grand.subrange(0, grand.len() as int) =~= grand);
        }
        assert(untried(nodes, (c, 0usize)) =~= grand);
        assert(remaining(nodes, after, fuel) == forest(nodes, grand, (f - 1) as nat) + remaining(nodes, mid, fuel));
        assert(remaining(nodes, frames, fuel) =~= seq![c] + remaining(nodes, after, fuel));
        assert(advance(nodes, frames).0 == after);
        assert forall|m: int| 0 <= m < after.len() implies m <= fuel && ends_within(nodes, (#[trigger] after[m]).0, (fuel + 1 - m) as nat) by {
            if m < k {
                assert(after[m] == frames[m]);
            } else if m == k {
                assert(after[m].0 == n);
            } else {
                assert(after[m].0 == c);
            }
        }
    } else {
        assert(untried(nodes, frames.last()) =~= Seq::<NodeId>::empty());
        assert(remaining(nodes, frames, fuel) =~= remaining(nodes, below, fuel));
        lemma_walk_steps_in_preorder(nodes, below, fuel);
    }
}

} // verus!
