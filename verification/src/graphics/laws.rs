//! What holds of the scene graph whatever is done with it: the order of
//! the children, the uniqueness of identities, and what a frame draws.

use super::render::{appended, draws_exactly, may_start, DrawCall, Render, RenderManager};
use super::scenegraph::{lemma_children_are_smaller, Node};
use vstd::prelude::*;

verus! {

/// Children stay in the order in which they were inserted. `steps` is a node
/// before and after each of a run of inserts, `kids` what the inserts were
/// given: at the end the node has the children it had, and behind them,
/// in the order of the inserts, the kids that were not turned down.
pub proof fn lemma_inserts_keep_order(steps: Seq<Node>, kids: Seq<Node>)
    requires
        steps.len() == kids.len() + 1,
        forall|k: int|
            0 <= k < kids.len() ==> (#[trigger] steps[k]).after_insert(kids[k], &steps[k + 1]),
    ensures
        steps.last().spec_id() == steps[0].spec_id(),
        steps.last().spec_object() == steps[0].spec_object(),
        steps.last().spec_children() == steps[0].spec_children() + kids.filter(
            |kid: Node| !kid.has_id(steps[0].spec_id()),
        ),
    decreases kids.len(),
{
    let taken = |kid: Node| !kid.has_id(steps[0].spec_id());
    reveal(Seq::filter);
    if kids.len() == 0 {
        assert(steps[0].spec_children() + kids.filter(taken) =~= steps[0].spec_children());
    } else {
        let n = kids.len() - 1;
        lemma_inserts_keep_order(steps.drop_last(), kids.drop_last());
        assert(steps.drop_last().last() == steps[n]);
        assert(steps[n].after_insert(kids[n], &steps[n + 1]));
        let earlier = kids.drop_last().filter(taken);
        if taken(kids.last()) {
            assert(steps[0].spec_children() + earlier.push(kids.last()) =~= (
            steps[0].spec_children() + earlier).push(kids.last()));
        }
    }
}

/// An insert brings in the identities of the child and no others.
pub proof fn lemma_insert_adds_ids(before: Node, child: Node, after: Node, id: u32)
    requires
        before.extended_by(child, &after),
    ensures
        after.has_id(id) <==> before.has_id(id) || child.has_id(id),
{
    let old_kids = before.spec_children();
    let new_kids = after.spec_children();
    if Node::any_has_id(old_kids, id) {
        let i = choose|i: int| 0 <= i < old_kids.len() && (#[trigger] old_kids[i]).has_id(id);
        assert(new_kids[i].has_id(id));
    }
    if child.has_id(id) {
        assert(new_kids[old_kids.len() as int].has_id(id));
    }
    if Node::any_has_id(new_kids, id) {
        let i = choose|i: int| 0 <= i < new_kids.len() && (#[trigger] new_kids[i]).has_id(id);
        if i < old_kids.len() {
            assert(old_kids[i].has_id(id));
        }
    }
}

/// Identities stay unique under `insert`: where none occurs twice in the
/// node, none twice in the child, and the two have none in common, none
/// occurs twice in what the insert leaves.
pub proof fn lemma_insert_keeps_ids_distinct(before: Node, child: Node, after: Node)
    requires
        before.ids_distinct(),
        child.ids_distinct(),
        before.apart_from(&child),
        before.after_insert(child, &after),
    ensures
        after.ids_distinct(),
{
    if !child.has_id(before.spec_id()) {
        let old_kids = before.spec_children();
        let new_kids = after.spec_children();
        let last = old_kids.len() as int;
        assert(before.has_id(before.spec_id()));
        if Node::any_has_id(new_kids, after.spec_id()) {
            let i = choose|i: int|
                0 <= i < new_kids.len() && (#[trigger] new_kids[i]).has_id(after.spec_id());
            if i < last {
                assert(old_kids[i].has_id(before.spec_id()));
            }
        }
        assert forall|i: int| 0 <= i < new_kids.len() implies (#[trigger] new_kids[i]).ids_distinct() by {
            if i < last {
                assert(old_kids[i].ids_distinct());
            }
        }
        assert forall|i: int, j: int|
            #![trigger new_kids[i], new_kids[j]]
            0 <= i < j < new_kids.len() implies new_kids[i].apart_from(&new_kids[j]) by {
            if j < last {
                assert(old_kids[i].apart_from(&old_kids[j]));
            } else {
                assert forall|id: u32| !(#[trigger] new_kids[i].has_id(id) && child.has_id(id)) by {
                    if old_kids[i].has_id(id) {
                        assert(before.has_id(id));
                    }
                }
            }
        }
    }
}

/// A node fresh from `Node::new` fits into any tree made before it with the
/// same `NodeIds`: its identity is greater than `bound`, the count of
/// identities handed out before, the tree holds none greater, and so the
/// two have none in common.
pub proof fn lemma_new_node_is_apart(tree: Node, node: Node, bound: nat)
    requires
        tree.ids_at_most(bound),
        node.spec_id() > bound,
        node.spec_children().len() == 0,
    ensures
        tree.apart_from(&node),
        node.ids_distinct(),
        node.ids_at_most(node.spec_id() as nat),
{
    assert forall|id: u32| #[trigger] node.has_id(id) implies id == node.spec_id() by {}
}

/// Identities stay unique under `remove`, in what is left and in what was
/// taken out, and the two have none in common.
pub proof fn lemma_remove_keeps_ids_distinct(before: Node, index: usize, after: Node)
    requires
        before.ids_distinct(),
        index < before.spec_children().len(),
        before.after_remove(index, &after),
    ensures
        after.ids_distinct(),
        before.spec_children()[index as int].ids_distinct(),
        after.apart_from(&before.spec_children()[index as int]),
{
    let old_kids = before.spec_children();
    let new_kids = after.spec_children();
    let taken = old_kids[index as int];
    let back = |i: int| if i < index { i } else { i + 1 };
    assert forall|i: int| 0 <= i < new_kids.len() implies new_kids[i] == old_kids[back(i)] by {}
    if Node::any_has_id(new_kids, after.spec_id()) {
        let i = choose|i: int|
            0 <= i < new_kids.len() && (#[trigger] new_kids[i]).has_id(after.spec_id());
        assert(old_kids[back(i)].has_id(before.spec_id()));
    }
    assert forall|i: int| 0 <= i < new_kids.len() implies (#[trigger] new_kids[i]).ids_distinct() by {
        assert(old_kids[back(i)].ids_distinct());
    }
    assert forall|i: int, j: int|
        #![trigger new_kids[i], new_kids[j]]
        0 <= i < j < new_kids.len() implies new_kids[i].apart_from(&new_kids[j]) by {
        assert(old_kids[back(i)].apart_from(&old_kids[back(j)]));
    }
    assert forall|id: u32| !(#[trigger] after.has_id(id) && taken.has_id(id)) by {
        if taken.has_id(id) {
            assert(old_kids[index as int].has_id(id));
            if Node::any_has_id(new_kids, id) {
                let i = choose|i: int| 0 <= i < new_kids.len() && (#[trigger] new_kids[i]).has_id(id);
                if back(i) < index {
                    assert(old_kids[back(i)].apart_from(&old_kids[index as int]));
                } else {
                    assert(old_kids[index as int].apart_from(&old_kids[back(i)]));
                }
            }
        }
    }
}

/// A child that was removed is not found again, and the others keep their
/// order. This is said of a node in which no other child has the identity
/// of the one removed: `before` is the node, `after` what `remove` at
/// `index` left of it, `found` what `find` on that says of the identity.
pub proof fn lemma_removed_is_not_found(
    before: Node,
    index: usize,
    after: Node,
    found: Option<usize>,
)
    requires
        index < before.spec_children().len(),
        before.after_remove(index, &after),
        after.locates(before.spec_children()[index as int].spec_id(), found),
        forall|j: int|
            0 <= j < before.spec_children().len() && j != index ==> (
            #[trigger] before.spec_children()[j]).spec_id() != before.spec_children()[index as int].spec_id(),
    ensures
        found is None,
        after.spec_children().len() == before.spec_children().len() - 1,
        forall|j: int| 0 <= j < index ==> after.spec_children()[j] == before.spec_children()[j],
        forall|j: int|
            index <= j < after.spec_children().len() ==> after.spec_children()[j]
                == before.spec_children()[j + 1],
{
    if let Some(at) = found {
        if at < index {
            assert(after.spec_children()[at as int] == before.spec_children()[at as int]);
        } else {
            assert(after.spec_children()[at as int] == before.spec_children()[at + 1]);
        }
    }
}

/// Trees that are alike hold the same identities.
pub proof fn lemma_alike_hold_the_same_ids(a: Node, b: Node, id: u32)
    requires
        a.alike(&b),
    ensures
        a.has_id(id) == b.has_id(id),
    decreases a,
{
    lemma_children_are_smaller(a);
    let xs = a.spec_children();
    let ys = b.spec_children();
    assert forall|i: int| 0 <= i < xs.len() implies (#[trigger] xs[i]).has_id(id) == ys[i].has_id(
        id,
    ) by {
        lemma_alike_hold_the_same_ids(xs[i], ys[i], id);
    }
    if Node::any_has_id(xs, id) {
        let i = choose|i: int| 0 <= i < xs.len() && (#[trigger] xs[i]).has_id(id);
        assert(ys[i].has_id(id));
    }
    if Node::any_has_id(ys, id) {
        let i = choose|i: int| 0 <= i < ys.len() && (#[trigger] ys[i]).has_id(id);
        assert(xs[i].has_id(id));
    }
}

/// Identities stay unique under `render`: a tree is then alike to what it
/// was, and where none occurred twice before, none does after.
pub proof fn lemma_alike_keep_ids_distinct(after: Node, before: Node)
    requires
        after.alike(&before),
        before.ids_distinct(),
    ensures
        after.ids_distinct(),
    decreases after,
{
    lemma_children_are_smaller(after);
    let xs = after.spec_children();
    let ys = before.spec_children();
    if Node::any_has_id(xs, after.spec_id()) {
        let i = choose|i: int| 0 <= i < xs.len() && (#[trigger] xs[i]).has_id(after.spec_id());
        lemma_alike_hold_the_same_ids(xs[i], ys[i], after.spec_id());
        assert(ys[i].has_id(before.spec_id()));
    }
    assert forall|i: int| 0 <= i < xs.len() implies (#[trigger] xs[i]).ids_distinct() by {
        assert(ys[i].ids_distinct());
        lemma_alike_keep_ids_distinct(xs[i], ys[i]);
    }
    assert forall|i: int, j: int|
        #![trigger xs[i], xs[j]]
        0 <= i < j < xs.len() implies xs[i].apart_from(&xs[j]) by {
        assert(ys[i].apart_from(&ys[j]));
        assert forall|id: u32| !(#[trigger] xs[i].has_id(id) && xs[j].has_id(id)) by {
            lemma_alike_hold_the_same_ids(xs[i], ys[i], id);
            lemma_alike_hold_the_same_ids(xs[j], ys[j], id);
        }
    }
}

/// Where one tree is alike to another, the other is alike to it.
pub proof fn lemma_alike_is_mutual(a: Node, b: Node)
    requires
        a.alike(&b),
    ensures
        b.alike(&a),
    decreases a,
{
    lemma_children_are_smaller(a);
    assert forall|calls: Seq<DrawCall>| #[trigger]
        b.spec_object().may_draw(calls) == a.spec_object().may_draw(calls) by {
        assert(a.spec_object().may_draw(calls) == b.spec_object().may_draw(calls));
    }
    assert forall|i: int| 0 <= i < b.spec_children().len() implies (#[trigger] b.spec_children()[i]).alike(
        &a.spec_children()[i],
    ) by {
        assert(a.spec_children()[i].alike(&b.spec_children()[i]));
        lemma_alike_is_mutual(a.spec_children()[i], b.spec_children()[i]);
    }
}

/// Frame after frame: a tree that is alike to one that is alike to a third
/// is alike to the third.
pub proof fn lemma_alike_carries_over(a: Node, b: Node, c: Node)
    requires
        a.alike(&b),
        b.alike(&c),
    ensures
        a.alike(&c),
    decreases a,
{
    lemma_children_are_smaller(a);
    assert forall|calls: Seq<DrawCall>| #[trigger]
        a.spec_object().may_draw(calls) == c.spec_object().may_draw(calls) by {
        assert(a.spec_object().may_draw(calls) == b.spec_object().may_draw(calls));
    }
    assert forall|i: int| 0 <= i < a.spec_children().len() implies (#[trigger] a.spec_children()[i]).alike(
        &c.spec_children()[i],
    ) by {
        assert(b.spec_children()[i].alike(&c.spec_children()[i]));
        lemma_alike_carries_over(a.spec_children()[i], b.spec_children()[i], c.spec_children()[i]);
    }
}

/// Trees that are alike may draw the same: whatever one render of `a` may
/// submit, one render of `b` may submit, and the other way round.
pub proof fn lemma_alike_draw_alike(a: Node, b: Node, calls: Seq<DrawCall>)
    requires
        a.alike(&b),
    ensures
        a.may_draw(calls) == b.may_draw(calls),
    decreases a,
{
    lemma_children_are_smaller(a);
    if a.may_draw(calls) {
        let own = choose|own: int|
            0 <= own <= calls.len() && a.spec_object().may_draw(#[trigger] calls.take(own))
                && Node::all_may_draw(a.spec_children(), calls.skip(own));
        lemma_all_alike_draw_alike(a.spec_children(), b.spec_children(), calls.skip(own));
        assert(b.spec_object().may_draw(calls.take(own)));
    }
    if b.may_draw(calls) {
        let own = choose|own: int|
            0 <= own <= calls.len() && b.spec_object().may_draw(#[trigger] calls.take(own))
                && Node::all_may_draw(b.spec_children(), calls.skip(own));
        lemma_all_alike_draw_alike(a.spec_children(), b.spec_children(), calls.skip(own));
        assert(a.spec_object().may_draw(calls.take(own)));
    }
}

/// The same of two rows of trees that are alike place by place.
pub proof fn lemma_all_alike_draw_alike(xs: Seq<Node>, ys: Seq<Node>, calls: Seq<DrawCall>)
    requires
        xs.len() == ys.len(),
        forall|i: int| 0 <= i < xs.len() ==> (#[trigger] xs[i]).alike(&ys[i]),
    ensures
        Node::all_may_draw(xs, calls) == Node::all_may_draw(ys, calls),
    decreases xs,
{
    if xs.len() > 0 {
        if Node::all_may_draw(xs, calls) {
            let done = choose|done: int|
                0 <= done <= calls.len() && Node::all_may_draw(
                    xs.drop_last(),
                    #[trigger] calls.take(done),
                ) && xs.last().may_draw(calls.skip(done));
            lemma_all_alike_draw_alike(xs.drop_last(), ys.drop_last(), calls.take(done));
            lemma_alike_draw_alike(xs.last(), ys.last(), calls.skip(done));
        }
        if Node::all_may_draw(ys, calls) {
            let done = choose|done: int|
                0 <= done <= calls.len() && Node::all_may_draw(
                    ys.drop_last(),
                    #[trigger] calls.take(done),
                ) && ys.last().may_draw(calls.skip(done));
            lemma_all_alike_draw_alike(xs.drop_last(), ys.drop_last(), calls.take(done));
            lemma_alike_draw_alike(xs.last(), ys.last(), calls.skip(done));
        }
    }
}

/// Trees that are alike hold payloads that may fail, or hold none, alike.
pub proof fn lemma_alike_fail_alike(a: Node, b: Node)
    requires
        a.alike(&b),
    ensures
        a.may_fail() == b.may_fail(),
    decreases a,
{
    lemma_children_are_smaller(a);
    let xs = a.spec_children();
    let ys = b.spec_children();
    assert forall|i: int| 0 <= i < xs.len() implies (#[trigger] xs[i]).may_fail()
        == ys[i].may_fail() by {
        lemma_alike_fail_alike(xs[i], ys[i]);
    }
    if Node::any_may_fail(xs) {
        let i = choose|i: int| 0 <= i < xs.len() && (#[trigger] xs[i]).may_fail();
        assert(ys[i].may_fail());
    }
    if Node::any_may_fail(ys) {
        let i = choose|i: int| 0 <= i < ys.len() && (#[trigger] ys[i]).may_fail();
        assert(xs[i].may_fail());
    }
}

/// No frame fails by itself: a render of `node` can only stop where one of
/// the payloads in the tree may fail.
pub proof fn lemma_stop_takes_a_failure(node: Node, calls: Seq<DrawCall>)
    requires
        node.may_stop(calls),
    ensures
        node.may_fail(),
    decreases node, 1nat,
{
    lemma_children_are_smaller(node);
    if !node.spec_object().may_fail() {
        let own = choose|own: int|
            0 <= own <= calls.len() && node.spec_object().may_draw(#[trigger] calls.take(own))
                && Node::any_may_stop(node.spec_children(), calls.skip(own));
        lemma_stop_in_a_row_takes_a_failure(node.spec_children(), calls.skip(own));
    }
}

/// The same of a row of trees: where none of them holds a payload that may
/// fail, rendering them does not stop.
pub proof fn lemma_stop_in_a_row_takes_a_failure(nodes: Seq<Node>, calls: Seq<DrawCall>)
    requires
        Node::any_may_stop(nodes, calls),
    ensures
        Node::any_may_fail(nodes),
    decreases nodes, 0nat,
{
    if Node::any_may_stop(nodes.drop_last(), calls) {
        lemma_stop_in_a_row_takes_a_failure(nodes.drop_last(), calls);
        let i = choose|i: int|
            0 <= i < nodes.drop_last().len() && (#[trigger] nodes.drop_last()[i]).may_fail();
        assert(nodes[i].may_fail());
    } else {
        let done = choose|done: int|
            0 <= done <= calls.len() && Node::all_may_draw(
                nodes.drop_last(),
                #[trigger] calls.take(done),
            ) && nodes.last().may_stop(calls.skip(done));
        lemma_stop_takes_a_failure(nodes.last(), calls.skip(done));
        assert(nodes[nodes.len() - 1].may_fail());
    }
}

/// Trees that are alike may fail alike: where a render of `a` that fails
/// may have submitted `calls`, so may one of `b`, and the other way round.
pub proof fn lemma_alike_stop_alike(a: Node, b: Node, calls: Seq<DrawCall>)
    requires
        a.alike(&b),
    ensures
        a.may_stop(calls) == b.may_stop(calls),
{
    if a.may_stop(calls) {
        lemma_alike_stop_too(a, b, calls);
    }
    if b.may_stop(calls) {
        lemma_alike_is_mutual(a, b);
        lemma_alike_stop_too(b, a, calls);
    }
}

proof fn lemma_alike_stop_too(a: Node, b: Node, calls: Seq<DrawCall>)
    requires
        a.alike(&b),
        a.may_stop(calls),
    ensures
        b.may_stop(calls),
    decreases a, 1nat,
{
    lemma_children_are_smaller(a);
    if a.spec_object() is Some && a.spec_object().may_fail() && may_start(&a.spec_object(), calls) {
        let whole = choose|whole: Seq<DrawCall>| #[trigger]
            a.spec_object().may_draw(whole) && calls.is_prefix_of(whole);
        assert(b.spec_object().may_draw(whole));
    } else {
        let own = choose|own: int|
            0 <= own <= calls.len() && a.spec_object().may_draw(#[trigger] calls.take(own))
                && Node::any_may_stop(a.spec_children(), calls.skip(own));
        lemma_all_alike_stop_too(a.spec_children(), b.spec_children(), calls.skip(own));
        assert(b.spec_object().may_draw(calls.take(own)));
    }
}

proof fn lemma_all_alike_stop_too(xs: Seq<Node>, ys: Seq<Node>, calls: Seq<DrawCall>)
    requires
        xs.len() == ys.len(),
        forall|i: int| 0 <= i < xs.len() ==> (#[trigger] xs[i]).alike(&ys[i]),
        Node::any_may_stop(xs, calls),
    ensures
        Node::any_may_stop(ys, calls),
    decreases xs, 0nat,
{
    if Node::any_may_stop(xs.drop_last(), calls) {
        lemma_all_alike_stop_too(xs.drop_last(), ys.drop_last(), calls);
    } else {
        let done = choose|done: int|
            0 <= done <= calls.len() && Node::all_may_draw(
                xs.drop_last(),
                #[trigger] calls.take(done),
            ) && xs.last().may_stop(calls.skip(done));
        lemma_all_alike_draw_alike(xs.drop_last(), ys.drop_last(), calls.take(done));
        lemma_alike_stop_too(xs.last(), ys.last(), calls.skip(done));
    }
}

/// A frame that failed is the start of a whole one: where a render of
/// `node` that fails may have submitted `calls`, and the tree can be drawn
/// at all, there is something that a whole render may submit and that
/// `calls` opens. What was drawn before the failure is as it would have been
/// drawn, and nothing behind it is.
pub proof fn lemma_stopped_frame_is_a_start(node: Node, calls: Seq<DrawCall>)
    requires
        node.may_stop(calls),
        exists|any: Seq<DrawCall>| node.may_draw(any),
    ensures
        exists|whole: Seq<DrawCall>| #[trigger] node.may_draw(whole) && calls.is_prefix_of(whole),
    decreases node, 1nat,
{
    lemma_children_are_smaller(node);
    let any = choose|any: Seq<DrawCall>| node.may_draw(any);
    let cut = choose|cut: int|
        0 <= cut <= any.len() && node.spec_object().may_draw(#[trigger] any.take(cut))
            && Node::all_may_draw(node.spec_children(), any.skip(cut));
    let rest = any.skip(cut);
    if node.spec_object() is Some && node.spec_object().may_fail() && may_start(
        &node.spec_object(),
        calls,
    ) {
        let begun = choose|begun: Seq<DrawCall>| #[trigger]
            node.spec_object().may_draw(begun) && calls.is_prefix_of(begun);
        let whole = begun + rest;
        assert(whole.take(begun.len() as int) =~= begun);
        assert(whole.skip(begun.len() as int) =~= rest);
        assert(node.may_draw(whole));
        assert(calls.is_prefix_of(whole));
    } else {
        let own = choose|own: int|
            0 <= own <= calls.len() && node.spec_object().may_draw(#[trigger] calls.take(own))
                && Node::any_may_stop(node.spec_children(), calls.skip(own));
        lemma_stopped_row_is_a_start(node.spec_children(), calls.skip(own), rest);
        let below = choose|below: Seq<DrawCall>| #[trigger]
            Node::all_may_draw(node.spec_children(), below) && calls.skip(own).is_prefix_of(below);
        let whole = calls.take(own) + below;
        assert(whole.take(own) =~= calls.take(own));
        assert(whole.skip(own) =~= below);
        assert(node.may_draw(whole));
        lemma_start_behind(calls.take(own), calls.skip(own), below);
        assert(calls =~= calls.take(own) + calls.skip(own));
    }
}

proof fn lemma_start_behind(head: Seq<DrawCall>, part: Seq<DrawCall>, whole: Seq<DrawCall>)
    requires
        part.is_prefix_of(whole),
    ensures
        (head + part).is_prefix_of(head + whole),
{
    let short = head + part;
    let long = head + whole;
    assert forall|k: int| 0 <= k < short.len() implies short[k] == long[k] by {
        if k >= head.len() {
            assert(part[k - head.len()] == whole.subrange(0, part.len() as int)[k - head.len()]);
        }
    }
    assert(short =~= long.subrange(0, short.len() as int));
}

/// The same of a row of trees: `others` is something that rendering all of
/// them may submit.
pub proof fn lemma_stopped_row_is_a_start(
    nodes: Seq<Node>,
    calls: Seq<DrawCall>,
    others: Seq<DrawCall>,
)
    requires
        Node::any_may_stop(nodes, calls),
        Node::all_may_draw(nodes, others),
    ensures
        exists|whole: Seq<DrawCall>| #[trigger]
            Node::all_may_draw(nodes, whole) && calls.is_prefix_of(whole),
    decreases nodes, 0nat,
{
    let cut = choose|cut: int|
        0 <= cut <= others.len() && Node::all_may_draw(
            nodes.drop_last(),
            #[trigger] others.take(cut),
        ) && nodes.last().may_draw(others.skip(cut));
    if Node::any_may_stop(nodes.drop_last(), calls) {
        lemma_stopped_row_is_a_start(nodes.drop_last(), calls, others.take(cut));
        let before = choose|before: Seq<DrawCall>| #[trigger]
            Node::all_may_draw(nodes.drop_last(), before) && calls.is_prefix_of(before);
        let whole = before + others.skip(cut);
        assert(whole.take(before.len() as int) =~= before);
        assert(whole.skip(before.len() as int) =~= others.skip(cut));
        assert(Node::all_may_draw(nodes, whole));
        assert(calls.is_prefix_of(whole));
    } else {
        let done = choose|done: int|
            0 <= done <= calls.len() && Node::all_may_draw(
                nodes.drop_last(),
                #[trigger] calls.take(done),
            ) && nodes.last().may_stop(calls.skip(done));
        assert(nodes.last().may_draw(others.skip(cut)));
        lemma_stopped_frame_is_a_start(nodes.last(), calls.skip(done));
        let last = choose|last: Seq<DrawCall>| #[trigger]
            nodes.last().may_draw(last) && calls.skip(done).is_prefix_of(last);
        let whole = calls.take(done) + last;
        assert(whole.take(done) =~= calls.take(done));
        assert(whole.skip(done) =~= last);
        assert(Node::all_may_draw(nodes, whole));
        lemma_start_behind(calls.take(done), calls.skip(done), last);
        assert(calls =~= calls.take(done) + calls.skip(done));
    }
}

/// A second frame draws what the first drew: a tree is after a render alike
/// to what it was before, and where it submitted exactly `calls` then, it
/// submits exactly `calls` now.
pub proof fn lemma_alike_draw_the_same(after: Node, before: Node, calls: Seq<DrawCall>)
    requires
        after.alike(&before),
        before.draws_exactly(calls),
    ensures
        after.draws_exactly(calls),
{
    assert forall|other: Seq<DrawCall>| #[trigger] after.may_draw(other) <==> other == calls by {
        lemma_alike_draw_alike(after, before, other);
    }
}

/// A frame drawn twice is drawn the same. `tree` is rendered into the
/// context `start`, which has not failed, and what that leaves is rendered
/// again, with nothing done to tree or context in between.
///
/// Where no payload of the tree may fail, neither frame fails. Where neither
/// fails, what each of the two submits is something that one render of `tree`
/// may submit; and where the tree leaves no choice, each submits just that.
/// The tree is alike to what it was all along.
pub proof fn lemma_second_frame_repeats_the_first(
    tree: Node,
    start: RenderManager,
    once: Node,
    mid: RenderManager,
    twice: Node,
    end: RenderManager,
)
    requires
        !start.spec_failed(),
        tree.rendered(&start, &once, &mid),
        once.rendered(&mid, &twice, &end),
    ensures
        twice.alike(&tree),
        !tree.may_fail() ==> !end.spec_failed(),
        !end.spec_failed() ==> !mid.spec_failed() && tree.may_draw(appended(start@, mid@))
            && tree.may_draw(appended(mid@, end@)),
        forall|calls: Seq<DrawCall>|
            !end.spec_failed() && #[trigger] tree.draws_exactly(calls) ==> mid@ == start@ + calls
                && end@ == mid@ + calls,
{
    lemma_alike_carries_over(twice, once, tree);
    lemma_alike_fail_alike(once, tree);
    lemma_alike_draw_alike(once, tree, appended(mid@, end@));
    if !end.spec_failed() {
        assert(mid@ =~= start@ + appended(start@, mid@));
        assert(end@ =~= mid@ + appended(mid@, end@));
    }
}

/// The sequences of `parts` one behind the other, first to last.
pub open spec fn joined(parts: Seq<Seq<DrawCall>>) -> Seq<DrawCall>
    decreases parts.len(),
{
    if parts.len() == 0 {
        Seq::empty()
    } else {
        joined(parts.drop_last()) + parts.last()
    }
}

/// A frame is drawn parent first, then the children from first to last, each
/// with all below it: where the payload of `node` submits exactly `own` and
/// its children submit exactly `parts`, place by place, the node submits
/// exactly `own`, then the first part, then the second, and so on.
pub proof fn lemma_draws_in_preorder(node: Node, own: Seq<DrawCall>, parts: Seq<Seq<DrawCall>>)
    requires
        draws_exactly(&node.spec_object(), own),
        parts.len() == node.spec_children().len(),
        forall|i: int|
            0 <= i < parts.len() ==> (#[trigger] node.spec_children()[i]).draws_exactly(parts[i]),
    ensures
        node.draws_exactly(own + joined(parts)),
{
    let all = own + joined(parts);
    assert forall|other: Seq<DrawCall>| #[trigger] node.may_draw(other) <==> other == all by {
        if node.may_draw(other) {
            let cut = choose|cut: int|
                0 <= cut <= other.len() && node.spec_object().may_draw(#[trigger] other.take(cut))
                    && Node::all_may_draw(node.spec_children(), other.skip(cut));
            lemma_all_draw_in_order(node.spec_children(), parts, other.skip(cut));
            assert(other =~= other.take(cut) + other.skip(cut));
        }
        if other == all {
            lemma_all_draw_in_order(node.spec_children(), parts, joined(parts));
            assert(all.take(own.len() as int) =~= own);
            assert(all.skip(own.len() as int) =~= joined(parts));
        }
    }
}

/// The same of a row of trees: rendered first to last, they submit the
/// parts in that order.
pub proof fn lemma_all_draw_in_order(
    nodes: Seq<Node>,
    parts: Seq<Seq<DrawCall>>,
    calls: Seq<DrawCall>,
)
    requires
        parts.len() == nodes.len(),
        forall|i: int| 0 <= i < parts.len() ==> (#[trigger] nodes[i]).draws_exactly(parts[i]),
    ensures
        Node::all_may_draw(nodes, calls) <==> calls == joined(parts),
    decreases nodes.len(),
{
    if nodes.len() == 0 {
        assert(calls.len() == 0 <==> calls =~= Seq::<DrawCall>::empty());
    } else {
        let head = joined(parts.drop_last());
        assert(nodes.last().draws_exactly(parts.last()));
        if Node::all_may_draw(nodes, calls) {
            let done = choose|done: int|
                0 <= done <= calls.len() && Node::all_may_draw(
                    nodes.drop_last(),
                    #[trigger] calls.take(done),
                ) && nodes.last().may_draw(calls.skip(done));
            lemma_all_draw_in_order(nodes.drop_last(), parts.drop_last(), calls.take(done));
            assert(calls =~= calls.take(done) + calls.skip(done));
        }
        if calls == joined(parts) {
            lemma_all_draw_in_order(nodes.drop_last(), parts.drop_last(), head);
            assert(calls.take(head.len() as int) =~= head);
            assert(calls.skip(head.len() as int) =~= parts.last());
            assert(nodes.last().may_draw(parts.last()));
        }
    }
}

} // verus!
