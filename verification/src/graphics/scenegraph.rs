//! The scene graph: a tree of nodes, each with an identity, an optional
//! payload to draw and an ordered list of children it owns. One frame is one
//! depth-first walk that threads a single render context through the tree.

use super::render::{appended, draws_exactly, may_start, DrawCall, Dummy, Render, RenderManager};
use vstd::prelude::*;

verus! {

/// Hands out node identities: 1, 2, 3, ... Each is given once.
pub struct NodeIds {
    last: u32,
}

impl NodeIds {
    /// How many identities were handed out; also the latest one.
    pub closed spec fn issued(&self) -> nat {
        self.last as nat
    }

    /// A source that has handed out nothing yet.
    pub fn new() -> (ids: NodeIds)
        ensures
            ids.issued() == 0,
    {
        NodeIds { last: 0 }
    }

    /// Whether every identity has been handed out.
    pub fn exhausted(&self) -> (full: bool)
        ensures
            full == (self.issued() >= u32::MAX),
    {
        self.last == u32::MAX
    }

    /// Moves on to the next identity.
    pub fn incr_node_id(&mut self)
        requires
            old(self).issued() < u32::MAX,
        ensures
            final(self).issued() == old(self).issued() + 1,
    {
        self.last = self.last + 1;
    }

    /// The identity handed out last, 0 before the first.
    pub fn get_node_id(&self) -> (id: u32)
        ensures
            id == self.issued(),
    {
        self.last
    }
}

/// Why a change to the tree was turned down. The tree is then as it was.
#[derive(Clone, Copy, Debug, PartialEq, Eq, Structural)]
pub enum GraphError {
    /// The node to insert already holds the identity of its parent-to-be.
    Cycle,
    /// There is no child at that index.
    IndexOutOfRange,
}

/// One element of the tree. It owns its payload and its children, and so
/// all that is below it: no node has two parents, and none is below itself.
pub struct Node {
    id: u32,
    children: Vec<Node>,
    object: Option<Box<dyn Render>>,
}

impl Node {
    /// The identity, given at construction and kept for good.
    pub closed spec fn spec_id(&self) -> u32 {
        self.id
    }

    /// The children, in the order in which they were inserted.
    pub closed spec fn spec_children(&self) -> Seq<Node> {
        self.children@
    }

    /// The payload; a node without one only groups its children.
    pub closed spec fn spec_object(&self) -> Option<Box<dyn Render>> {
        self.object
    }

    /// Whether `id` is the identity of this node or of one below it.
    pub open spec fn has_id(&self, id: u32) -> bool
        decreases self,
    {
        self.spec_id() == id || Node::any_has_id(self.spec_children(), id)
    }

    /// Whether `id` occurs in one of `nodes`.
    pub open spec fn any_has_id(nodes: Seq<Node>, id: u32) -> bool
        decreases nodes,
    {
        exists|i: int| 0 <= i < nodes.len() && (#[trigger] nodes[i]).has_id(id)
    }

    /// No identity occurs twice in this subtree.
    pub open spec fn ids_distinct(&self) -> bool
        decreases self,
    {
        &&& !Node::any_has_id(self.spec_children(), self.spec_id())
        &&& forall|i: int|
            0 <= i < self.spec_children().len() ==> (#[trigger] self.spec_children()[i]).ids_distinct()
        &&& forall|i: int, j: int|
            #![trigger self.spec_children()[i], self.spec_children()[j]]
            0 <= i < j < self.spec_children().len() ==> self.spec_children()[i].apart_from(
                &self.spec_children()[j],
            )
    }

    /// The two subtrees have no identity in common.
    pub open spec fn apart_from(&self, other: &Node) -> bool {
        forall|id: u32| !(#[trigger] self.has_id(id) && other.has_id(id))
    }

    /// No identity in this subtree is greater than `bound`.
    pub open spec fn ids_at_most(&self, bound: nat) -> bool {
        forall|id: u32| #[trigger] self.has_id(id) ==> id <= bound
    }

    /// Whether one render of this subtree may submit exactly `calls`: first
    /// what the node's own payload draws, then what its children draw.
    pub open spec fn may_draw(&self, calls: Seq<DrawCall>) -> bool
        decreases self,
    {
        exists|own: int|
            0 <= own <= calls.len() && self.spec_object().may_draw(#[trigger] calls.take(own))
                && Node::all_may_draw(self.spec_children(), calls.skip(own))
    }

    /// Whether rendering `nodes` one after the other, first to last, may
    /// submit exactly `calls`.
    pub open spec fn all_may_draw(nodes: Seq<Node>, calls: Seq<DrawCall>) -> bool
        decreases nodes,
    {
        if nodes.len() == 0 {
            calls.len() == 0
        } else {
            exists|done: int|
                0 <= done <= calls.len() && Node::all_may_draw(
                    nodes.drop_last(),
                    #[trigger] calls.take(done),
                ) && nodes.last().may_draw(calls.skip(done))
        }
    }

    /// Whether a payload in this subtree may give the frame up.
    pub open spec fn may_fail(&self) -> bool
        decreases self,
    {
        self.spec_object().may_fail() || Node::any_may_fail(self.spec_children())
    }

    /// Whether a payload in or below one of `nodes` may give the frame up.
    pub open spec fn any_may_fail(nodes: Seq<Node>) -> bool
        decreases nodes,
    {
        exists|i: int| 0 <= i < nodes.len() && (#[trigger] nodes[i]).may_fail()
    }

    /// Whether a render of this subtree that fails may have submitted
    /// exactly `calls`. Either the node's own payload, one that may fail,
    /// fails, having started to draw; or it draws, and the failure comes
    /// below.
    pub open spec fn may_stop(&self, calls: Seq<DrawCall>) -> bool
        decreases self,
    {
        ||| self.spec_object() is Some && self.spec_object().may_fail() && may_start(
            &self.spec_object(),
            calls,
        )
        ||| exists|own: int|
            0 <= own <= calls.len() && self.spec_object().may_draw(#[trigger] calls.take(own))
                && Node::any_may_stop(self.spec_children(), calls.skip(own))
    }

    /// Whether rendering `nodes` one after the other may have submitted
    /// exactly `calls` when it fails: the nodes before the one that fails
    /// are drawn, that one as far as it got, and those behind it not at all.
    pub open spec fn any_may_stop(nodes: Seq<Node>, calls: Seq<DrawCall>) -> bool
        decreases nodes,
    {
        nodes.len() > 0 && {
            ||| Node::any_may_stop(nodes.drop_last(), calls)
            ||| exists|done: int|
                0 <= done <= calls.len() && Node::all_may_draw(
                    nodes.drop_last(),
                    #[trigger] calls.take(done),
                ) && nodes.last().may_stop(calls.skip(done))
        }
    }

    /// The two trees cannot be told apart by shape, by identities or by what
    /// their payloads may draw and whether they may fail.
    pub open spec fn alike(&self, other: &Node) -> bool
        decreases self,
    {
        &&& self.spec_id() == other.spec_id()
        &&& self.spec_object() is Some == other.spec_object() is Some
        &&& self.spec_object().may_fail() == other.spec_object().may_fail()
        &&& forall|calls: Seq<DrawCall>| #[trigger]
            self.spec_object().may_draw(calls) == other.spec_object().may_draw(calls)
        &&& self.spec_children().len() == other.spec_children().len()
        &&& forall|i: int|
            0 <= i < self.spec_children().len() ==> (#[trigger] self.spec_children()[i]).alike(
                &other.spec_children()[i],
            )
    }

    /// Whether `after` and `then` are what one render leaves of this tree and
    /// of the context `before`.
    ///
    /// A frame that had failed is left as it was, and so is the tree.
    /// Otherwise the context has grown by what the tree may draw, or, where
    /// the frame has failed, by what it may have drawn up to the failure;
    /// and a frame fails only where a payload of the tree may fail. The tree
    /// is afterwards alike to what it was.
    pub open spec fn rendered(
        &self,
        before: &RenderManager,
        after: &Node,
        then: &RenderManager,
    ) -> bool {
        &&& before@.is_prefix_of(then@)
        &&& before.spec_failed() ==> *then == *before && *after == *self
        &&& !then.spec_failed() ==> self.may_draw(appended(before@, then@))
        &&& !before.spec_failed() && then.spec_failed() ==> self.may_fail() && self.may_stop(
            appended(before@, then@),
        )
        &&& after.alike(self)
    }

    /// One render of this subtree submits `calls` and nothing else.
    pub open spec fn draws_exactly(&self, calls: Seq<DrawCall>) -> bool {
        forall|other: Seq<DrawCall>| #[trigger] self.may_draw(other) <==> other == calls
    }

    /// `after` is this node with `child` behind its other children.
    pub open spec fn extended_by(&self, child: Node, after: &Node) -> bool {
        &&& after.spec_id() == self.spec_id()
        &&& after.spec_object() == self.spec_object()
        &&& after.spec_children() == self.spec_children().push(child)
    }

    /// `after` is this node without the child at `index`.
    pub open spec fn reduced_by(&self, index: int, after: &Node) -> bool {
        &&& after.spec_id() == self.spec_id()
        &&& after.spec_object() == self.spec_object()
        &&& after.spec_children() == self.spec_children().remove(index)
    }

    /// `after` is what `insert` leaves of this node when it is given `child`.
    pub open spec fn after_insert(&self, child: Node, after: &Node) -> bool {
        if child.has_id(self.spec_id()) {
            *after == *self
        } else {
            self.extended_by(child, after)
        }
    }

    /// `after` is what `remove` leaves of this node when it is given `index`.
    pub open spec fn after_remove(&self, index: usize, after: &Node) -> bool {
        if index >= self.spec_children().len() {
            *after == *self
        } else {
            self.reduced_by(index as int, after)
        }
    }

    /// `found` is the place of the first child with identity `target_id`.
    pub open spec fn locates(&self, target_id: u32, found: Option<usize>) -> bool {
        match found {
            Some(index) => {
                &&& index < self.spec_children().len()
                &&& self.spec_children()[index as int].spec_id() == target_id
                &&& forall|j: int|
                    0 <= j < index ==> (#[trigger] self.spec_children()[j]).spec_id() != target_id
            },
            None => forall|j: int|
                0 <= j < self.spec_children().len() ==> (#[trigger] self.spec_children()[
                    j
                ]).spec_id() != target_id,
        }
    }

    /// A node with the next identity of `ids`, the given payload and no
    /// children.
    pub fn new(ids: &mut NodeIds, object: Option<Box<dyn Render>>) -> (node: Node)
        requires
            old(ids).issued() < u32::MAX,
        ensures
            final(ids).issued() == old(ids).issued() + 1,
            node.spec_id() == final(ids).issued(),
            node.spec_children() == Seq::<Node>::empty(),
            node.spec_object() == object,
    {
        ids.incr_node_id();
        Node { id: ids.get_node_id(), children: Vec::new(), object: object }
    }

    /// A node with the next identity of `ids`, no children, and a payload
    /// that draws nothing and never fails.
    pub fn default(ids: &mut NodeIds) -> (node: Node)
        requires
            old(ids).issued() < u32::MAX,
        ensures
            final(ids).issued() == old(ids).issued() + 1,
            node.spec_id() == final(ids).issued(),
            node.spec_children() == Seq::<Node>::empty(),
            node.spec_object() is Some,
            draws_exactly(&node.spec_object(), Seq::<DrawCall>::empty()),
            !node.spec_object().may_fail(),
            node.draws_exactly(Seq::<DrawCall>::empty()),
            !node.may_fail(),
    {
        let object: Box<dyn Render> = Box::new(Dummy::new());
        let slot = Some(object);
        let node = Node::new(ids, slot);
        proof {
            let nothing = Seq::<DrawCall>::empty();
            assert(nothing.take(0) =~= nothing);
            assert(nothing.skip(0) =~= nothing);
            assert(node.may_draw(nothing));
            assert forall|other: Seq<DrawCall>| node.may_draw(other) implies other == nothing by {
                let own = choose|own: int|
                    0 <= own <= other.len() && node.spec_object().may_draw(
                        #[trigger] other.take(own),
                    ) && Node::all_may_draw(node.spec_children(), other.skip(own));
                assert(other =~= other.take(own) + other.skip(own));
            }
        }
        node
    }

    /// The identity.
    #[verifier::when_used_as_spec(spec_id)]
    pub fn id(&self) -> (id: u32)
        ensures
            id == self.spec_id(),
    {
        self.id
    }

    /// The children, in the order in which they were inserted.
    pub fn children(&self) -> (children: &Vec<Node>)
        ensures
            children@ == self.spec_children(),
    {
        &self.children
    }

    /// The child at `index`, to change what is below it. The node has
    /// afterwards, in that place, whatever the child was turned into.
    pub fn child_mut(&mut self, index: usize) -> (child: Option<&mut Node>)
        ensures
            match child {
                Some(found) => {
                    &&& index < old(self).spec_children().len()
                    &&& *found == old(self).spec_children()[index as int]
                    &&& final(self).spec_id() == old(self).spec_id()
                    &&& final(self).spec_object() == old(self).spec_object()
                    &&& final(self).spec_children() == old(self).spec_children().update(
                        index as int,
                        *final(found),
                    )
                },
                None => index >= old(self).spec_children().len() && *final(self) == *old(self),
            },
    {
        if index < self.children.len() {
            Some(&mut self.children[index])
        } else {
            None
        }
    }

    /// Whether the node has a payload to draw; one without only groups its
    /// children.
    pub fn has_payload(&self) -> (has: bool)
        ensures
            has == self.spec_object() is Some,
    {
        self.object.is_some()
    }

    /// Whether `id` occurs in this subtree.
    pub fn contains_id(&self, id: u32) -> (found: bool)
        ensures
            found == self.has_id(id),
        decreases self,
    {
        if self.id == id {
            return true;
        }
        let mut i: usize = 0;
        while i < self.children.len()
            invariant
                i <= self.children.len(),
                forall|j: int| 0 <= j < i ==> !(#[trigger] self.children@[j]).has_id(id),
            decreases self.children.len() - i,
        {
            if self.children[i].contains_id(id) {
                return true;
            }
            i += 1;
        }
        false
    }

    /// Looks among the direct children, and no deeper, for the first one
    /// whose identity is `target_id`.
    pub fn find(&self, target_id: u32) -> (found: Option<usize>)
        ensures
            self.locates(target_id, found),
    {
        let mut idx: usize = 0;
        while idx < self.children.len()
            invariant
                idx <= self.children.len(),
                forall|j: int| 0 <= j < idx ==> (#[trigger] self.children@[j]).id != target_id,
            decreases self.children.len() - idx,
        {
            if self.children[idx].id == target_id {
                return Some(idx);
            }
            idx += 1;
        }
        None
    }

    /// Makes `child`, with all that is below it, the last child of this
    /// node. A child that holds this node's identity somewhere in its
    /// subtree is turned down, and the node stays as it was.
    pub fn insert(&mut self, child: Node) -> (outcome: Result<(), GraphError>)
        ensures
            outcome == if child.has_id(old(self).spec_id()) {
                Err::<(), GraphError>(GraphError::Cycle)
            } else {
                Ok::<(), GraphError>(())
            },
            old(self).after_insert(child, final(self)),
    {
        if child.contains_id(self.id) {
            Err(GraphError::Cycle)
        } else {
            self.children.push(child);
            Ok(())
        }
    }

    /// Takes the child at `index` out of the tree and hands it over; the
    /// children behind it move up by one. Where there is no such child the
    /// node stays as it was.
    pub fn remove(&mut self, index: usize) -> (outcome: Result<Node, GraphError>)
        ensures
            outcome == if index >= old(self).spec_children().len() {
                Err::<Node, GraphError>(GraphError::IndexOutOfRange)
            } else {
                Ok::<Node, GraphError>(old(self).spec_children()[index as int])
            },
            old(self).after_remove(index, final(self)),
    {
        if index >= self.children.len() {
            Err(GraphError::IndexOutOfRange)
        } else {
            Ok(self.children.remove(index))
        }
    }

    /// Draws the subtree, depth first: the node's own payload, then each
    /// child with all below it, first child to last. Nothing that the
    /// context held is touched, and the tree is afterwards alike to what it
    /// was.
    ///
    /// Where the frame fails, the walk ends: what was drawn before stays
    /// drawn, and no node behind or below is visited. The caller learns of
    /// it from the context. A frame that has failed is not drawn into at
    /// all. The walk itself never gives a frame up: a frame fails only
    /// where a payload that may fail is in the tree.
    pub fn render(&mut self, rm: &mut RenderManager)
        ensures
            old(self).rendered(old(rm), final(self), final(rm)),
        decreases *old(self),
    {
        if rm.failed() {
            proof {
                lemma_alike_to_itself(*self);
            }
            return;
        }
        let ghost start = rm@;
        self.object.render(rm);
        let ghost mid = rm@;
        let n = self.children.len();
        if rm.failed() {
            proof {
                assert forall|j: int| 0 <= j < n implies (#[trigger] self.children@[j]).alike(
                    &old(self).children@[j],
                ) by {
                    lemma_alike_to_itself(self.children@[j]);
                }
            }
            return;
        }
        let mut i: usize = 0;
        proof {
            assert(appended(mid, mid).len() == 0);
            assert(old(self).children@.take(0).len() == 0);
        }
        while i < n
            invariant
                i <= n,
                n == self.children.len(),
                n == old(self).children.len(),
                self.id == old(self).id,
                self.object is Some == old(self).object is Some,
                self.object.may_fail() == old(self).object.may_fail(),
                forall|calls: Seq<DrawCall>| #[trigger]
                    self.object.may_draw(calls) == old(self).object.may_draw(calls),
                forall|j: int| i <= j < n ==> self.children@[j] == old(self).children@[j],
                forall|j: int|
                    0 <= j < i ==> (#[trigger] self.children@[j]).alike(&old(self).children@[j]),
                !old(rm).spec_failed(),
                !rm.spec_failed(),
                start == old(rm)@,
                start.is_prefix_of(mid),
                mid.is_prefix_of(rm@),
                old(self).object.may_draw(appended(start, mid)),
                Node::all_may_draw(old(self).children@.take(i as int), appended(mid, rm@)),
            decreases n - i,
        {
            let ghost before = rm@;
            self.children[i].render(rm);
            proof {
                let seen = old(self).children@.take(i + 1);
                let calls = appended(mid, rm@);
                let done = before.len() - mid.len();
                assert(seen.drop_last() =~= old(self).children@.take(i as int));
                assert(seen.last() == old(self).children@[i as int]);
                assert(calls.take(done) =~= appended(mid, before));
                assert(calls.skip(done) =~= appended(before, rm@));
                if rm.spec_failed() {
                    assert(old(self).children@[i as int].may_fail());
                    assert(Node::any_may_stop(seen, calls));
                    lemma_stop_in_the_row(old(self).children@, i + 1, calls);
                    let all = appended(start, rm@);
                    let own = mid.len() - start.len();
                    assert(all.take(own) =~= appended(start, mid));
                    assert(all.skip(own) =~= calls);
                    assert forall|j: int| 0 <= j < n implies (#[trigger] self.children@[j]).alike(
                        &old(self).children@[j],
                    ) by {
                        if j > i {
                            lemma_alike_to_itself(self.children@[j]);
                        }
                    }
                }
            }
            if rm.failed() {
                return;
            }
            i += 1;
        }
        proof {
            let calls = appended(start, rm@);
            let own = mid.len() - start.len();
            assert(old(self).children@.take(n as int) =~= old(self).children@);
            assert(calls.take(own) =~= appended(start, mid));
            assert(calls.skip(own) =~= appended(mid, rm@));
        }
    }
}

/// The children of a node, and each of them, are smaller than the node:
/// a proof may go down the tree.
pub proof fn lemma_children_are_smaller(node: Node)
    ensures
        decreases_to!(node => node.spec_children()),
        forall|i: int|
            0 <= i < node.spec_children().len() ==> decreases_to!(node => #[trigger] node.spec_children()[i]),
{
}

/// A failure among the first `n` of `nodes` is a failure among all of them:
/// those behind are not visited.
pub proof fn lemma_stop_in_the_row(nodes: Seq<Node>, n: int, calls: Seq<DrawCall>)
    requires
        0 <= n <= nodes.len(),
        Node::any_may_stop(nodes.take(n), calls),
    ensures
        Node::any_may_stop(nodes, calls),
    decreases nodes.len() - n,
{
    if n == nodes.len() {
        assert(nodes.take(n) =~= nodes);
    } else {
        assert(nodes.take(n + 1).drop_last() =~= nodes.take(n));
        lemma_stop_in_the_row(nodes, n + 1, calls);
    }
}

/// Every tree is alike to itself.
pub proof fn lemma_alike_to_itself(a: Node)
    ensures
        a.alike(&a),
    decreases a,
{
    assert forall|i: int| 0 <= i < a.spec_children().len() implies (#[trigger] a.spec_children()[i]).alike(
        &a.spec_children()[i],
    ) by {
        lemma_alike_to_itself(a.spec_children()[i]);
    }
}

/// Two nodes are equal where their identities are.
impl PartialEq for Node {
    fn eq(&self, other: &Node) -> (equal: bool) {
        self.id == other.id
    }
}

impl vstd::std_specs::cmp::PartialEqSpecImpl for Node {
    open spec fn obeys_eq_spec() -> bool {
        true
    }

    open spec fn eq_spec(&self, other: &Node) -> bool {
        self.spec_id() == other.spec_id()
    }
}

/// The handle on a whole tree. Its view is the root node.
pub struct SceneGraph {
    parent: Box<Node>,
}

impl View for SceneGraph {
    type V = Node;

    closed spec fn view(&self) -> Node {
        *self.parent
    }
}

impl SceneGraph {
    /// The graph with `parent` as its root.
    pub fn new(parent: Box<Node>) -> (graph: SceneGraph)
        ensures
            graph@ == *parent,
    {
        SceneGraph { parent: parent }
    }

    /// The root.
    pub fn root(&self) -> (root: &Node)
        ensures
            *root == self@,
    {
        &*self.parent
    }

    /// Takes the child at `index` out from under the root, as `Node::remove`
    /// does. The root itself is never taken out.
    pub fn remove_at_root(&mut self, index: usize) -> (outcome: Result<Node, GraphError>)
        ensures
            outcome == if index >= old(self)@.spec_children().len() {
                Err::<Node, GraphError>(GraphError::IndexOutOfRange)
            } else {
                Ok::<Node, GraphError>(old(self)@.spec_children()[index as int])
            },
            old(self)@.after_remove(index, &final(self)@),
    {
        self.parent.remove(index)
    }

    /// The child of the root at `index`, to change what is below it, as
    /// `Node::child_mut` gives it. The root stays the root.
    pub fn child_mut(&mut self, index: usize) -> (child: Option<&mut Node>)
        ensures
            match child {
                Some(found) => {
                    &&& index < old(self)@.spec_children().len()
                    &&& *found == old(self)@.spec_children()[index as int]
                    &&& final(self)@.spec_id() == old(self)@.spec_id()
                    &&& final(self)@.spec_object() == old(self)@.spec_object()
                    &&& final(self)@.spec_children() == old(self)@.spec_children().update(
                        index as int,
                        *final(found),
                    )
                },
                None => index >= old(self)@.spec_children().len() && final(self)@ == old(self)@,
            },
    {
        self.parent.child_mut(index)
    }

    /// Empties the tree. The graph and its root stay, the root under the
    /// identity it had, without payload and without children.
    pub fn clear(&mut self)
        ensures
            final(self)@.spec_id() == old(self)@.spec_id(),
            final(self)@.spec_object() is None,
            final(self)@.spec_children() == Seq::<Node>::empty(),
    {
        self.parent.object = None;
        self.parent.children = Vec::new();
    }

    /// Inserts `child` as the last child of the root, as `Node::insert` does.
    pub fn insert_at_root(&mut self, child: Node) -> (outcome: Result<(), GraphError>)
        ensures
            outcome == if child.has_id(old(self)@.spec_id()) {
                Err::<(), GraphError>(GraphError::Cycle)
            } else {
                Ok::<(), GraphError>(())
            },
            old(self)@.after_insert(child, &final(self)@),
    {
        self.parent.insert(child)
    }

    /// Draws one frame: the whole tree, as `Node::render` draws the root.
    pub fn render(&mut self, rm: &mut RenderManager)
        ensures
            old(self)@.rendered(old(rm), &final(self)@, final(rm)),
    {
        self.parent.render(rm);
    }
}

} // verus!
