//! What holds of every run of a traversal that starts at the root: no
//! position is reached twice, every position is reached through its parent,
//! a skipped subtree stays out, and nothing follows a stop.

use crate::walk::{
    advance, at_root, completes, descend, head, is_position, is_run, pending_after, skips, stops,
    ContinueFlow, Node, Order, Visit, Visitor, Walker,
};
use std::ops::ControlFlow;
use vstd::prelude::*;

verus! {

/// One of `visits` was at `path`.
pub open spec fn seen<V, R>(visits: Seq<Visit<V, R>>, path: Seq<int>) -> bool {
    exists|i: int| 0 <= i < visits.len() && (#[trigger] visits[i]).at == path
}

/// One of `visits` was at `path`, and the visitor did not skip there.
pub open spec fn entered<V, R>(visits: Seq<Visit<V, R>>, path: Seq<int>) -> bool {
    exists|i: int|
        0 <= i < visits.len() && (#[trigger] visits[i]).at == path && !skips(visits[i].flow)
}

/// Every visit below the root came after a visit of its parent that did not
/// skip.
pub open spec fn visits_follow_parents<V, R>(visits: Seq<Visit<V, R>>) -> bool {
    forall|j: int|
        0 <= j < visits.len() && (#[trigger] visits[j]).at.len() > 0 ==> entered(
            visits.take(j),
            visits[j].at.drop_last(),
        )
}

/// Every pending position below the root has a parent that was visited and
/// not skipped.
pub open spec fn pending_follow_parents<V, R>(
    visits: Seq<Visit<V, R>>,
    pending: Seq<Seq<int>>,
) -> bool {
    forall|k: int|
        0 <= k < pending.len() && (#[trigger] pending[k]).len() > 0 ==> entered(
            visits,
            pending[k].drop_last(),
        )
}

/// No two of `visits` were at the same position.
pub open spec fn visits_differ<V, R>(visits: Seq<Visit<V, R>>) -> bool {
    forall|i: int, j: int|
        0 <= i < j < visits.len() ==> (#[trigger] visits[i]).at != (#[trigger] visits[j]).at
}

/// No position is pending twice.
pub open spec fn pending_differ(pending: Seq<Seq<int>>) -> bool {
    forall|k: int, m: int|
        0 <= k < m < pending.len() ==> #[trigger] pending[k] != #[trigger] pending[m]
}

/// No pending position was visited.
pub open spec fn pending_unseen<V, R>(visits: Seq<Visit<V, R>>, pending: Seq<Seq<int>>) -> bool {
    forall|k: int| 0 <= k < pending.len() ==> !seen(visits, #[trigger] pending[k])
}

/// The state of a traversal that started at the root is tidy: positions are
/// reached once and through their parents.
pub open spec fn tidy<V, R>(visits: Seq<Visit<V, R>>, pending: Seq<Seq<int>>) -> bool {
    &&& visits_follow_parents(visits)
    &&& pending_follow_parents(visits, pending)
    &&& visits_differ(visits)
    &&& pending_differ(pending)
    &&& pending_unseen(visits, pending)
}

/// The index of the head of a frontier of `len` positions.
pub open spec fn head_index(len: nat, order: Order) -> int {
    match order {
        Order::BreadthFirst => 0,
        Order::DepthFirst => len - 1,
    }
}

/// By how much a step moves the positions that stay pending.
pub open spec fn shift(order: Order) -> int {
    match order {
        Order::BreadthFirst => 1,
        Order::DepthFirst => 0,
    }
}

/// The frontier after a step: the positions that stay, in their order, and
/// behind them the children of the head, unless the visitor skipped.
pub proof fn lemma_advance_shape<T, N: Node<T>>(
    root: N,
    ctx: N::Context,
    pending: Seq<Seq<int>>,
    order: Order,
    skip: bool,
)
    requires
        pending.len() > 0,
    ensures
        ({
            let after = advance(root, ctx, pending, order, skip);
            let kept = pending.len() - 1;
            let born = descend(root, ctx, head(pending, order)).child_nodes(&ctx).len();
            &&& head(pending, order) == pending[head_index(pending.len(), order)]
            &&& after.len() == kept + if skip {
                0
            } else {
                born as int
            }
            &&& forall|m: int| 0 <= m < kept ==> #[trigger] after[m] == pending[m + shift(order)]
            &&& forall|m: int|
                kept <= m < after.len() ==> #[trigger] after[m] == head(pending, order).push(
                    m - kept,
                )
        }),
{
}

proof fn lemma_entered_grows<V, R>(visits: Seq<Visit<V, R>>, next: Visit<V, R>, path: Seq<int>)
    requires
        entered(visits, path),
    ensures
        entered(visits.push(next), path),
{
    let i = choose|i: int|
        0 <= i < visits.len() && (#[trigger] visits[i]).at == path && !skips(visits[i].flow);
    assert(visits.push(next)[i] == visits[i]);
}

proof fn lemma_entered_is_seen<V, R>(visits: Seq<Visit<V, R>>, upto: int, path: Seq<int>)
    requires
        0 <= upto <= visits.len(),
        entered(visits.take(upto), path),
    ensures
        seen(visits, path),
        entered(visits, path),
{
    let part = visits.take(upto);
    let i = choose|i: int|
        0 <= i < part.len() && (#[trigger] part[i]).at == path && !skips(part[i].flow);
    assert(visits[i] == part[i]);
}

/// A step keeps a tidy state tidy.
pub proof fn lemma_tidy_step<T, N: Node<T>, V, R>(
    root: N,
    ctx: N::Context,
    visits: Seq<Visit<V, R>>,
    pending: Seq<Seq<int>>,
    order: Order,
    next: Visit<V, R>,
)
    requires
        tidy(visits, pending),
        pending.len() > 0,
        next.at == head(pending, order),
    ensures
        tidy(visits.push(next), advance(root, ctx, pending, order, skips(next.flow))),
{
    let skip = skips(next.flow);
    let after = advance(root, ctx, pending, order, skip);
    let more = visits.push(next);
    let top = head_index(pending.len(), order);
    let kept = pending.len() - 1;
    let here = next.at;
    lemma_advance_shape(root, ctx, pending, order, skip);
    assert(here == pending[top]);
    assert(!seen(visits, pending[top]));

    assert forall|j: int| 0 <= j < more.len() && (#[trigger] more[j]).at.len() > 0 implies entered(
        more.take(j),
        more[j].at.drop_last(),
    ) by {
        if j < visits.len() {
            assert(more.take(j) =~= visits.take(j));
            assert(more[j] == visits[j]);
        } else {
            assert(more.take(j) =~= visits);
            assert(pending[top].len() > 0);
        }
    }

    assert forall|k: int| 0 <= k < after.len() && (#[trigger] after[k]).len() > 0 implies entered(
        more,
        after[k].drop_last(),
    ) by {
        if k < kept {
            let from = k + shift(order);
            assert(after[k] == pending[from]);
            lemma_entered_grows(visits, next, pending[from].drop_last());
        } else {
            assert(after[k] == here.push(k - kept));
            assert(after[k].drop_last() =~= here);
            assert(more[visits.len() as int] == next);
        }
    }

    assert forall|i: int, j: int| 0 <= i < j < more.len() implies (#[trigger] more[i]).at != (
    #[trigger] more[j]).at by {
        if j < visits.len() {
            assert(more[i] == visits[i] && more[j] == visits[j]);
        } else {
            assert(more[i] == visits[i]);
        }
    }

    assert forall|k: int, m: int| 0 <= k < m < after.len() implies #[trigger] after[k]
        != #[trigger] after[m] by {
        if m < kept {
            assert(after[k] == pending[k + shift(order)]);
            assert(after[m] == pending[m + shift(order)]);
        } else if k < kept {
            let from = k + shift(order);
            assert(after[k] == pending[from]);
            assert(after[m] == here.push(m - kept));
            if after[k] == after[m] {
                assert(pending[from].drop_last() =~= here);
                assert(entered(visits, here));
                lemma_entered_is_seen(visits, visits.len() as int, here);
                assert(visits.take(visits.len() as int) =~= visits);
            }
        } else {
            assert(after[k] == here.push(k - kept));
            assert(after[m] == here.push(m - kept));
            assert(after[k].last() != after[m].last());
        }
    }

    assert forall|k: int| 0 <= k < after.len() implies !seen(more, #[trigger] after[k]) by {
        if seen(more, after[k]) {
            let i = choose|i: int| 0 <= i < more.len() && (#[trigger] more[i]).at == after[k];
            if k < kept {
                let from = k + shift(order);
                assert(after[k] == pending[from]);
                if i < visits.len() {
                    assert(more[i] == visits[i]);
                    assert(seen(visits, pending[from]));
                } else {
                    assert(pending[from] == pending[top]);
                }
            } else {
                assert(after[k] == here.push(k - kept));
                if i < visits.len() {
                    assert(more[i] == visits[i]);
                    assert(visits[i].at.drop_last() =~= here);
                    lemma_entered_is_seen(visits, i, here);
                } else {
                    assert(here.len() == here.push(k - kept).len());
                }
            }
        }
    }
}

/// Every run from the root keeps the state of the traversal tidy.
pub proof fn lemma_runs_are_tidy<'a, T, N: Node<T>, R, V: Visitor<'a, T, N, R>>(
    root: N,
    ctx: N::Context,
    order: Order,
    visitor: V,
    visits: Seq<Visit<V, R>>,
)
    requires
        is_run(root, ctx, at_root(), order, visitor, visits),
    ensures
        tidy(visits, pending_after(root, ctx, at_root(), order, visits)),
    decreases visits.len(),
{
    if visits.len() > 0 {
        let before = visits.drop_last();
        lemma_runs_are_tidy(root, ctx, order, visitor, before);
        lemma_tidy_step(
            root,
            ctx,
            before,
            pending_after(root, ctx, at_root(), order, before),
            order,
            visits.last(),
        );
        assert(before.push(visits.last()) =~= visits);
    }
}

/// What was visited and what is pending are positions of the tree.
pub open spec fn in_tree<T, N: Node<T>, V, R>(
    root: N,
    ctx: N::Context,
    visits: Seq<Visit<V, R>>,
    pending: Seq<Seq<int>>,
) -> bool {
    &&& forall|i: int| 0 <= i < visits.len() ==> is_position(root, ctx, (#[trigger] visits[i]).at)
    &&& forall|k: int| 0 <= k < pending.len() ==> is_position(root, ctx, #[trigger] pending[k])
}

/// A run from the root never leaves the tree: every visit is at a position
/// of the tree, and so is everything that is pending.
pub proof fn lemma_runs_stay_in_tree<'a, T, N: Node<T>, R, V: Visitor<'a, T, N, R>>(
    root: N,
    ctx: N::Context,
    order: Order,
    visitor: V,
    visits: Seq<Visit<V, R>>,
)
    requires
        is_run(root, ctx, at_root(), order, visitor, visits),
    ensures
        in_tree(root, ctx, visits, pending_after(root, ctx, at_root(), order, visits)),
    decreases visits.len(),
{
    if visits.len() > 0 {
        let before = visits.drop_last();
        let pending = pending_after(root, ctx, at_root(), order, before);
        let after = pending_after(root, ctx, at_root(), order, visits);
        let here = visits.last().at;
        let kept = pending.len() - 1;
        lemma_runs_stay_in_tree(root, ctx, order, visitor, before);
        lemma_advance_shape(root, ctx, pending, order, skips(visits.last().flow));
        assert(is_position(root, ctx, pending[head_index(pending.len(), order)]));
        assert forall|i: int| 0 <= i < visits.len() implies is_position(
            root,
            ctx,
            (#[trigger] visits[i]).at,
        ) by {
            if i < before.len() {
                assert(visits[i] == before[i]);
            }
        }
        assert forall|k: int| 0 <= k < after.len() implies is_position(
            root,
            ctx,
            #[trigger] after[k],
        ) by {
            if k < kept {
                assert(after[k] == pending[k + shift(order)]);
            } else {
                assert(after[k] == here.push(k - kept));
                assert(after[k].drop_last() =~= here);
            }
        }
    } else {
        assert(at_root()[0] =~= Seq::<int>::empty());
    }
}

/// `path` lies in the subtree of `top`: at `top` or below it.
pub open spec fn under(path: Seq<int>, top: Seq<int>) -> bool {
    top.len() <= path.len() && path.take(top.len() as int) == top
}

/// `path` lies below `top`: in its subtree, and not at `top` itself.
pub open spec fn below(path: Seq<int>, top: Seq<int>) -> bool {
    top.len() < path.len() && path.take(top.len() as int) == top
}

/// What lies below a position lies at or below one of its children.
pub proof fn lemma_below_parent(path: Seq<int>, top: Seq<int>)
    requires
        below(path, top),
    ensures
        under(path.drop_last(), top),
{
    assert(path.drop_last().take(top.len() as int) =~= path.take(top.len() as int));
}

/// In a tidy state every position above a visited one was visited too, and
/// the visitor did not skip there.
pub proof fn lemma_ancestors_entered<V, R>(visits: Seq<Visit<V, R>>, j: int, top: Seq<int>)
    requires
        visits_follow_parents(visits),
        0 <= j < visits.len(),
        below(visits[j].at, top),
    ensures
        entered(visits, top),
    decreases visits[j].at.len(),
{
    let parent = visits[j].at.drop_last();
    lemma_below_parent(visits[j].at, top);
    let part = visits.take(j);
    assert(entered(part, parent));
    let i = choose|i: int|
        0 <= i < part.len() && (#[trigger] part[i]).at == parent && !skips(part[i].flow);
    assert(visits[i] == part[i]);
    if parent.len() == top.len() {
        assert(parent.take(top.len() as int) =~= parent);
    } else {
        lemma_ancestors_entered(visits, i, top);
    }
}

/// Where the visitor skips, the traversal never comes below: no visit of
/// the run, before or after, is at a position below the skipped one.
pub proof fn lemma_skip_prunes<'a, T, N: Node<T>, R, V: Visitor<'a, T, N, R>>(
    root: N,
    ctx: N::Context,
    order: Order,
    visitor: V,
    visits: Seq<Visit<V, R>>,
    i: int,
    j: int,
)
    requires
        is_run(root, ctx, at_root(), order, visitor, visits),
        0 <= i < visits.len(),
        0 <= j < visits.len(),
        skips(visits[i].flow),
    ensures
        !below(visits[j].at, visits[i].at),
{
    lemma_runs_are_tidy(root, ctx, order, visitor, visits);
    if below(visits[j].at, visits[i].at) {
        lemma_ancestors_entered(visits, j, visits[i].at);
        let k = choose|k: int|
            0 <= k < visits.len() && (#[trigger] visits[k]).at == visits[i].at && !skips(
                visits[k].flow,
            );
        if k < i {
            assert(visits[k].at != visits[i].at);
        } else if i < k {
            assert(visits[i].at != visits[k].at);
        }
    }
}

/// What is pending after a skip holds nothing below the skipped position:
/// the traversal will not come there later either.
pub proof fn lemma_skip_leaves_nothing_pending<'a, T, N: Node<T>, R, V: Visitor<'a, T, N, R>>(
    root: N,
    ctx: N::Context,
    order: Order,
    visitor: V,
    visits: Seq<Visit<V, R>>,
    i: int,
    k: int,
)
    requires
        is_run(root, ctx, at_root(), order, visitor, visits),
        0 <= i < visits.len(),
        skips(visits[i].flow),
        0 <= k < pending_after(root, ctx, at_root(), order, visits).len(),
    ensures
        !below(pending_after(root, ctx, at_root(), order, visits)[k], visits[i].at),
{
    let pending = pending_after(root, ctx, at_root(), order, visits);
    lemma_runs_are_tidy(root, ctx, order, visitor, visits);
    let top = visits[i].at;
    if below(pending[k], top) {
        let parent = pending[k].drop_last();
        lemma_below_parent(pending[k], top);
        assert(entered(visits, parent));
        let at = choose|at: int|
            0 <= at < visits.len() && (#[trigger] visits[at]).at == parent && !skips(
                visits[at].flow,
            );
        if parent.len() == top.len() {
            assert(parent.take(top.len() as int) =~= parent);
        } else {
            lemma_ancestors_entered(visits, at, top);
        }
        assert(entered(visits, top));
        let again = choose|again: int|
            0 <= again < visits.len() && (#[trigger] visits[again]).at == top && !skips(
                visits[again].flow,
            );
        if again < i {
            assert(visits[again].at != visits[i].at);
        } else if i < again {
            assert(visits[i].at != visits[again].at);
        }
    }
}

/// Nothing follows a stop: a visit at which the visitor stops is the last
/// of its run.
pub proof fn lemma_stop_is_last<'a, T, N: Node<T>, R, V: Visitor<'a, T, N, R>>(
    root: N,
    ctx: N::Context,
    start: Seq<Seq<int>>,
    order: Order,
    visitor: V,
    visits: Seq<Visit<V, R>>,
    i: int,
)
    requires
        is_run(root, ctx, start, order, visitor, visits),
        0 <= i < visits.len(),
        stops(visits[i].flow),
    ensures
        i == visits.len() - 1,
    decreases visits.len(),
{
    if i < visits.len() - 1 {
        let before = visits.drop_last();
        assert(before[i] == visits[i]);
        lemma_stop_is_last(root, ctx, start, order, visitor, before, i);
    }
}

/// A traversal hands out a value exactly where its visitor stopped, and the
/// value is the one the visitor stopped with at the last visit.
pub proof fn lemma_out_is_the_stop<'a, T, N: Node<T>, R, V: Visitor<'a, T, N, R>>(
    root: N,
    ctx: N::Context,
    start: Seq<Seq<int>>,
    order: Order,
    visitor: V,
    visits: Seq<Visit<V, R>>,
    out: Option<R>,
    pending: Seq<Seq<int>>,
    visitor_end: V,
)
    requires
        completes(root, ctx, start, order, visitor, visits, out, pending, visitor_end),
    ensures
        out is Some <==> exists|i: int| 0 <= i < visits.len() && stops((#[trigger] visits[i]).flow),
        out is Some ==> visits.len() > 0 && visits.last().flow == ControlFlow::<
            R,
            ContinueFlow,
        >::Break(out->0),
        out is None ==> pending.len() == 0,
{
    if out is None {
        if exists|i: int| 0 <= i < visits.len() && stops((#[trigger] visits[i]).flow) {
            let i = choose|i: int| 0 <= i < visits.len() && stops((#[trigger] visits[i]).flow);
            lemma_stop_is_last(root, ctx, start, order, visitor, visits, i);
        }
    } else {
        assert(stops(visits[visits.len() - 1].flow));
    }
}

/// A walker that was sent to a root does what a new walker at that root
/// does: whatever traversal the one can make, with its result, what it
/// leaves pending and what becomes of the visitor, the other can make too.
pub proof fn lemma_redirected_is_fresh<'a, T, N: Node<T>, R, V: Visitor<'a, T, N, R>>(
    redirected: Walker<'a, T, N>,
    fresh: Walker<'a, T, N>,
    order: Order,
    visitor: V,
    visits: Seq<Visit<V, R>>,
    out: Option<R>,
    pending: Seq<Seq<int>>,
    visitor_end: V,
)
    requires
        redirected.origin() == fresh.origin(),
        redirected.context() == fresh.context(),
        redirected.pending() == at_root(),
        fresh.pending() == at_root(),
    ensures
        completes(
            redirected.origin(),
            redirected.context(),
            redirected.pending(),
            order,
            visitor,
            visits,
            out,
            pending,
            visitor_end,
        ) <==> completes(
            fresh.origin(),
            fresh.context(),
            fresh.pending(),
            order,
            visitor,
            visits,
            out,
            pending,
            visitor_end,
        ),
{
}

} // verus!
