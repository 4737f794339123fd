//! The order in which a traversal reaches the positions of a tree, and what
//! follows from it.

use crate::runs::{lemma_advance_shape, lemma_runs_are_tidy, lemma_tidy_step, seen, tidy, under};
use crate::walk::{
    advance, at_root, descend, head, is_position, is_run, offspring, pending_after, skips, within,
    Node, Order, Visit, Visitor,
};
use vstd::prelude::*;

verus! {

/// The positions that `visits` went through, in the order of the visits.
pub open spec fn positions<V, R>(visits: Seq<Visit<V, R>>) -> Seq<Seq<int>> {
    visits.map_values(|visit: Visit<V, R>| visit.at)
}

/// The positions of the children of all of `paths`: those of the first
/// path, then those of the second, and so on.
pub open spec fn offspring_of_all<T, N: Node<T>>(
    root: N,
    ctx: N::Context,
    paths: Seq<Seq<int>>,
) -> Seq<Seq<int>>
    decreases paths.len(),
{
    if paths.len() == 0 {
        Seq::empty()
    } else {
        offspring_of_all(root, ctx, paths.drop_last()) + offspring(root, ctx, paths.last())
    }
}

/// The positions at `depth` below `root`, from left to right.
pub open spec fn level<T, N: Node<T>>(root: N, ctx: N::Context, depth: nat) -> Seq<Seq<int>>
    decreases depth,
{
    if depth == 0 {
        at_root()
    } else {
        offspring_of_all(root, ctx, level(root, ctx, (depth - 1) as nat))
    }
}

/// The positions above `depth`, level after level.
pub open spec fn levels_above<T, N: Node<T>>(root: N, ctx: N::Context, depth: nat) -> Seq<
    Seq<int>,
>
    decreases depth,
{
    if depth == 0 {
        Seq::empty()
    } else {
        levels_above(root, ctx, (depth - 1) as nat) + level(root, ctx, (depth - 1) as nat)
    }
}

/// All positions of a finite tree in level order: the root, then its
/// children from left to right, then theirs, and so on.
pub open spec fn level_order<T, N: Node<T>>(root: N, ctx: N::Context) -> Seq<Seq<int>> {
    levels_above(root, ctx, choose|depth: nat| (#[trigger] level(root, ctx, depth)).len() == 0)
}

proof fn lemma_offspring_of_all_concat<T, N: Node<T>>(
    root: N,
    ctx: N::Context,
    a: Seq<Seq<int>>,
    b: Seq<Seq<int>>,
)
    ensures
        offspring_of_all(root, ctx, a + b) == offspring_of_all(root, ctx, a) + offspring_of_all(
            root,
            ctx,
            b,
        ),
    decreases b.len(),
{
    if b.len() == 0 {
        assert(a + b =~= a);
    } else {
        assert((a + b).drop_last() =~= a + b.drop_last());
        assert((a + b).last() == b.last());
        lemma_offspring_of_all_concat(root, ctx, a, b.drop_last());
    }
}

/// Below an empty level every level is empty.
proof fn lemma_levels_end<T, N: Node<T>>(root: N, ctx: N::Context, depth: nat, deeper: nat)
    requires
        level(root, ctx, depth).len() == 0,
        depth <= deeper,
    ensures
        level(root, ctx, deeper).len() == 0,
        levels_above(root, ctx, deeper) == levels_above(root, ctx, depth),
    decreases deeper,
{
    if depth < deeper {
        lemma_levels_end(root, ctx, depth, (deeper - 1) as nat);
    }
}

/// The level order of a tree is made of its levels down to any empty one.
pub proof fn lemma_level_order_settles<T, N: Node<T>>(root: N, ctx: N::Context, depth: nat)
    requires
        level(root, ctx, depth).len() == 0,
    ensures
        level_order(root, ctx) == levels_above(root, ctx, depth),
{
    let chosen = choose|depth: nat| (#[trigger] level(root, ctx, depth)).len() == 0;
    if chosen <= depth {
        lemma_levels_end(root, ctx, chosen, depth);
    } else {
        lemma_levels_end(root, ctx, depth, chosen);
    }
}

/// What lies among the children of `paths` is a child of one of them.
proof fn lemma_offspring_of_all_holds<T, N: Node<T>>(
    root: N,
    ctx: N::Context,
    paths: Seq<Seq<int>>,
    path: Seq<int>,
)
    ensures
        offspring_of_all(root, ctx, paths).contains(path) <==> path.len() > 0
            && paths.contains(path.drop_last()) && 0 <= path.last() < descend(
            root,
            ctx,
            path.drop_last(),
        ).child_nodes(&ctx).len(),
    decreases paths.len(),
{
    let all = offspring_of_all(root, ctx, paths);
    if paths.len() > 0 {
        let before = paths.drop_last();
        let born = offspring(root, ctx, paths.last());
        let earlier = offspring_of_all(root, ctx, before);
        lemma_offspring_of_all_holds(root, ctx, before, path);
        if all.contains(path) {
            let i = choose|i: int| 0 <= i < all.len() && all[i] == path;
            if i < earlier.len() {
                assert(earlier[i] == path);
                let k = choose|k: int| 0 <= k < before.len() && before[k] == path.drop_last();
                assert(paths[k] == path.drop_last());
            } else {
                assert(born[i - earlier.len()] == path);
                assert(path.drop_last() =~= paths.last());
                assert(paths[paths.len() - 1] == paths.last());
            }
        }
        if path.len() > 0 && paths.contains(path.drop_last()) && 0 <= path.last() < descend(
            root,
            ctx,
            path.drop_last(),
        ).child_nodes(&ctx).len() {
            let k = choose|k: int| 0 <= k < paths.len() && paths[k] == path.drop_last();
            if k < before.len() {
                assert(before[k] == path.drop_last());
                let i = choose|i: int| 0 <= i < earlier.len() && earlier[i] == path;
                assert(all[i] == path);
            } else {
                assert(born[path.last()] =~= path);
                assert(all[earlier.len() + path.last()] == path);
            }
        }
    }
}

/// A level holds the positions of the tree at its depth, and nothing else.
pub proof fn lemma_level_holds_positions<T, N: Node<T>>(
    root: N,
    ctx: N::Context,
    depth: nat,
    path: Seq<int>,
)
    ensures
        level(root, ctx, depth).contains(path) <==> path.len() == depth && is_position(
            root,
            ctx,
            path,
        ),
    decreases depth,
{
    if depth == 0 {
        assert(at_root()[0] == Seq::<int>::empty());
        if path.len() == 0 {
            assert(path =~= Seq::<int>::empty());
        }
    } else {
        let above = level(root, ctx, (depth - 1) as nat);
        lemma_offspring_of_all_holds(root, ctx, above, path);
        if path.len() > 0 {
            lemma_level_holds_positions(root, ctx, (depth - 1) as nat, path.drop_last());
        }
    }
}

/// In a tree of at most `levels` levels no position is as deep as `levels`.
proof fn lemma_positions_within<T, N: Node<T>>(
    root: N,
    ctx: N::Context,
    levels: nat,
    path: Seq<int>,
)
    requires
        within(root, ctx, levels),
        is_position(root, ctx, path),
    ensures
        path.len() < levels,
        within(descend(root, ctx, path), ctx, (levels - path.len()) as nat),
    decreases path.len(),
{
    if path.len() > 0 {
        let up = path.drop_last();
        let parent = descend(root, ctx, up);
        lemma_positions_within(root, ctx, levels, up);
        assert(within(
            parent.child_nodes(&ctx)[path.last()],
            ctx,
            (levels - up.len() - 1) as nat,
        ));
    }
}

/// The level order of a finite tree holds the positions of the tree, and
/// nothing else: a traversal that visits the level order visits the whole
/// tree.
pub proof fn lemma_level_order_holds_positions<T, N: Node<T>>(
    root: N,
    ctx: N::Context,
    levels: nat,
    path: Seq<int>,
)
    requires
        within(root, ctx, levels),
    ensures
        level_order(root, ctx).contains(path) <==> is_position(root, ctx, path),
{
    assert(level(root, ctx, levels).len() == 0) by {
        let last = level(root, ctx, levels);
        if last.len() > 0 {
            assert(last.contains(last[0]));
            lemma_level_holds_positions(root, ctx, levels, last[0]);
            lemma_positions_within(root, ctx, levels, last[0]);
        }
    }
    lemma_level_order_settles(root, ctx, levels);
    lemma_levels_above_hold(root, ctx, levels, path);
    if is_position(root, ctx, path) {
        lemma_positions_within(root, ctx, levels, path);
    }
}

/// The levels above `depth` hold the positions that are less deep.
proof fn lemma_levels_above_hold<T, N: Node<T>>(
    root: N,
    ctx: N::Context,
    depth: nat,
    path: Seq<int>,
)
    ensures
        levels_above(root, ctx, depth).contains(path) <==> path.len() < depth && is_position(
            root,
            ctx,
            path,
        ),
    decreases depth,
{
    if depth > 0 {
        let above = levels_above(root, ctx, (depth - 1) as nat);
        let here = level(root, ctx, (depth - 1) as nat);
        let all = levels_above(root, ctx, depth);
        lemma_levels_above_hold(root, ctx, (depth - 1) as nat, path);
        lemma_level_holds_positions(root, ctx, (depth - 1) as nat, path);
        if all.contains(path) {
            let i = choose|i: int| 0 <= i < all.len() && all[i] == path;
            if i < above.len() {
                assert(above[i] == path);
            } else {
                assert(here[i - above.len()] == path);
            }
        }
        if above.contains(path) {
            let i = choose|i: int| 0 <= i < above.len() && above[i] == path;
            assert(all[i] == path);
        }
        if here.contains(path) {
            let i = choose|i: int| 0 <= i < here.len() && here[i] == path;
            assert(all[above.len() + i] == path);
        }
    }
}

/// How far a breadth-first traversal that never skips has come: it has
/// visited the levels above `depth` and the first `count` positions at
/// `depth`; the rest of that level is pending, and behind it the children of
/// those `count` positions.
pub open spec fn bfs_has_reached<T, N: Node<T>, V, R>(
    root: N,
    ctx: N::Context,
    visits: Seq<Visit<V, R>>,
    depth: nat,
    count: nat,
) -> bool {
    let here = level(root, ctx, depth);
    &&& count <= here.len()
    &&& positions(visits) == levels_above(root, ctx, depth) + here.take(count as int)
    &&& pending_after(root, ctx, at_root(), Order::BreadthFirst, visits) == here.skip(
        count as int,
    ) + offspring_of_all(root, ctx, here.take(count as int))
}

/// A breadth-first traversal from the root that never skips goes through the
/// tree level by level, each level from left to right.
pub proof fn lemma_bfs_goes_by_levels<'a, T, N: Node<T>, R, V: Visitor<'a, T, N, R>>(
    root: N,
    ctx: N::Context,
    visitor: V,
    visits: Seq<Visit<V, R>>,
) -> (reached: (nat, nat))
    requires
        is_run(root, ctx, at_root(), Order::BreadthFirst, visitor, visits),
        forall|i: int| 0 <= i < visits.len() ==> !skips(#[trigger] visits[i].flow),
    ensures
        bfs_has_reached(root, ctx, visits, reached.0, reached.1),
    decreases visits.len(),
{
    if visits.len() == 0 {
        assert(positions(visits) =~= levels_above(root, ctx, 0) + level(root, ctx, 0).take(0));
        assert(at_root() =~= level(root, ctx, 0).skip(0) + offspring_of_all(
            root,
            ctx,
            level(root, ctx, 0).take(0),
        ));
        (0, 0)
    } else {
        let before = visits.drop_last();
        let last = visits.last();
        assert forall|i: int| 0 <= i < before.len() implies !skips(#[trigger] before[i].flow) by {
            assert(before[i] == visits[i]);
        }
        let (d0, j0) = lemma_bfs_goes_by_levels(root, ctx, visitor, before);
        let pending = pending_after(root, ctx, at_root(), Order::BreadthFirst, before);
        let (depth, count) = if j0 == level(root, ctx, d0).len() {
            ((d0 + 1) as nat, 0nat)
        } else {
            (d0, j0)
        };
        let here = level(root, ctx, depth);
        if j0 == level(root, ctx, d0).len() {
            let above = level(root, ctx, d0);
            assert(above.take(j0 as int) =~= above);
            assert(above.skip(j0 as int) =~= Seq::<Seq<int>>::empty());
            assert(pending =~= here);
            assert(here.skip(0) =~= here);
            assert(here.take(0) =~= Seq::<Seq<int>>::empty());
            assert(positions(before) =~= levels_above(root, ctx, depth) + here.take(0));
            assert(pending =~= here.skip(0) + offspring_of_all(root, ctx, here.take(0)));
        }
        assert(bfs_has_reached(root, ctx, before, depth, count));
        assert(count < here.len());
        assert(pending.first() == here[count as int]);
        let next = (count + 1) as nat;
        assert(here.take(next as int).drop_last() =~= here.take(count as int));
        assert(here.take(next as int).last() == here[count as int]);
        assert(positions(visits) =~= positions(before).push(last.at));
        assert(positions(visits) =~= levels_above(root, ctx, depth) + here.take(next as int));
        assert(pending.drop_first() =~= here.skip(next as int) + offspring_of_all(
            root,
            ctx,
            here.take(count as int),
        ));
        assert(pending_after(root, ctx, at_root(), Order::BreadthFirst, visits) =~= here.skip(
            next as int,
        ) + offspring_of_all(root, ctx, here.take(next as int)));
        (depth, next)
    }
}

/// A breadth-first traversal from the root that never skips and leaves
/// nothing pending has visited the whole tree in level order.
pub proof fn lemma_bfs_visits_level_order<'a, T, N: Node<T>, R, V: Visitor<'a, T, N, R>>(
    root: N,
    ctx: N::Context,
    visitor: V,
    visits: Seq<Visit<V, R>>,
)
    requires
        is_run(root, ctx, at_root(), Order::BreadthFirst, visitor, visits),
        forall|i: int| 0 <= i < visits.len() ==> !skips(#[trigger] visits[i].flow),
        pending_after(root, ctx, at_root(), Order::BreadthFirst, visits).len() == 0,
    ensures
        positions(visits) == level_order(root, ctx),
{
    let (depth, count) = lemma_bfs_goes_by_levels(root, ctx, visitor, visits);
    let here = level(root, ctx, depth);
    assert(here.skip(count as int).len() == 0);
    assert(here.take(count as int) =~= here);
    assert(level(root, ctx, depth + 1).len() == 0);
    lemma_level_order_settles(root, ctx, depth + 1);
}

/// A breadth-first traversal from the root has gone down level by level:
/// the frontier is ordered by depth and spans at most two levels, nothing
/// visited is deeper than anything pending, and no visit was deeper than a
/// later one.
pub open spec fn levelled<V, R>(visits: Seq<Visit<V, R>>, pending: Seq<Seq<int>>) -> bool {
    &&& forall|k: int, m: int|
        0 <= k <= m < pending.len() ==> (#[trigger] pending[k]).len() <= (
        #[trigger] pending[m]).len()
    &&& forall|k: int|
        0 <= k < pending.len() ==> (#[trigger] pending[k]).len() <= pending[0].len() + 1
    &&& forall|i: int, k: int|
        0 <= i < visits.len() && 0 <= k < pending.len() ==> (#[trigger] visits[i]).at.len() <= (
        #[trigger] pending[k]).len()
    &&& forall|i: int, j: int|
        0 <= i <= j < visits.len() ==> (#[trigger] visits[i]).at.len() <= (
        #[trigger] visits[j]).at.len()
}

proof fn lemma_levelled_step<T, N: Node<T>, V, R>(
    root: N,
    ctx: N::Context,
    visits: Seq<Visit<V, R>>,
    pending: Seq<Seq<int>>,
    next: Visit<V, R>,
)
    requires
        levelled(visits, pending),
        pending.len() > 0,
        next.at == head(pending, Order::BreadthFirst),
    ensures
        levelled(
            visits.push(next),
            advance(root, ctx, pending, Order::BreadthFirst, skips(next.flow)),
        ),
{
    let after = advance(root, ctx, pending, Order::BreadthFirst, skips(next.flow));
    let more = visits.push(next);
    let kept = pending.len() - 1;
    let here = next.at;
    lemma_advance_shape(root, ctx, pending, Order::BreadthFirst, skips(next.flow));
    assert(here == pending[0]);
    assert forall|k: int| 0 <= k < after.len() implies here.len() <= (#[trigger] after[k]).len()
        && after[k].len() <= here.len() + 1 by {
        if k < kept {
            assert(after[k] == pending[k + 1]);
        } else {
            assert(after[k] == here.push(k - kept));
        }
    }
    assert forall|k: int, m: int| 0 <= k <= m < after.len() implies (#[trigger] after[k]).len()
        <= (#[trigger] after[m]).len() by {
        if m < kept {
            assert(after[k] == pending[k + 1]);
            assert(after[m] == pending[m + 1]);
        } else {
            assert(after[m] == here.push(m - kept));
        }
    }
    assert forall|k: int| 0 <= k < after.len() implies (#[trigger] after[k]).len() <= after[0].len()
        + 1 by {
        assert(here.len() <= after[0].len());
    }
    assert forall|i: int, k: int| 0 <= i < more.len() && 0 <= k < after.len() implies (
    #[trigger] more[i]).at.len() <= (#[trigger] after[k]).len() by {
        if i < visits.len() {
            assert(more[i] == visits[i]);
            assert(visits[i].at.len() <= pending[0].len());
        }
    }
    assert forall|i: int, j: int| 0 <= i <= j < more.len() implies (#[trigger] more[i]).at.len()
        <= (#[trigger] more[j]).at.len() by {
        if j < visits.len() {
            assert(more[i] == visits[i] && more[j] == visits[j]);
        } else if i < visits.len() {
            assert(more[i] == visits[i]);
            assert(visits[i].at.len() <= pending[0].len());
        }
    }
}

/// A breadth-first traversal from the root reaches a position only when
/// nothing less deep is left: no visit is deeper than a later one, and no
/// pending position is less deep than a visited one. This holds whatever
/// the visitor skips.
pub proof fn lemma_bfs_goes_deeper<'a, T, N: Node<T>, R, V: Visitor<'a, T, N, R>>(
    root: N,
    ctx: N::Context,
    visitor: V,
    visits: Seq<Visit<V, R>>,
)
    requires
        is_run(root, ctx, at_root(), Order::BreadthFirst, visitor, visits),
    ensures
        levelled(visits, pending_after(root, ctx, at_root(), Order::BreadthFirst, visits)),
        forall|i: int, j: int|
            0 <= i <= j < visits.len() ==> (#[trigger] visits[i]).at.len() <= (
            #[trigger] visits[j]).at.len(),
    decreases visits.len(),
{
    if visits.len() > 0 {
        let before = visits.drop_last();
        lemma_bfs_goes_deeper(root, ctx, visitor, before);
        lemma_levelled_step(
            root,
            ctx,
            before,
            pending_after(root, ctx, at_root(), Order::BreadthFirst, before),
            visits.last(),
        );
        assert(before.push(visits.last()) =~= visits);
    }
}

/// A depth-first traversal from the root keeps its subtrees apart: no
/// pending position lies under another; the pending positions under a
/// visited one are the newest of the frontier; while any of them is
/// pending, every later visit was under that position; and so was every
/// visit between that position and a later visit under it.
pub open spec fn nested<V, R>(visits: Seq<Visit<V, R>>, pending: Seq<Seq<int>>) -> bool {
    &&& forall|k: int, m: int|
        0 <= k < pending.len() && 0 <= m < pending.len() && k != m ==> !under(
            #[trigger] pending[m],
            #[trigger] pending[k],
        )
    &&& forall|i: int, k: int, m: int|
        0 <= i < visits.len() && 0 <= k < m < pending.len() && under(
            #[trigger] pending[k],
            (#[trigger] visits[i]).at,
        ) ==> under(#[trigger] pending[m], visits[i].at)
    &&& forall|i: int, j: int, k: int|
        0 <= i < j < visits.len() && 0 <= k < pending.len() && under(
            #[trigger] pending[k],
            (#[trigger] visits[i]).at,
        ) ==> under((#[trigger] visits[j]).at, visits[i].at)
    &&& forall|i: int, j: int, l: int|
        0 <= i < j < l < visits.len() && under(
            (#[trigger] visits[l]).at,
            (#[trigger] visits[i]).at,
        ) ==> under((#[trigger] visits[j]).at, visits[i].at)
}

proof fn lemma_under_child(path: Seq<int>, child: int, top: Seq<int>)
    ensures
        under(path.push(child), top) ==> under(path, top) || top == path.push(child),
        under(path, top) ==> under(path.push(child), top),
        under(top, path.push(child)) ==> under(top, path),
        under(path, path),
{
    let longer = path.push(child);
    if under(longer, top) {
        if top.len() <= path.len() {
            assert(path.take(top.len() as int) =~= longer.take(top.len() as int));
        } else {
            assert(longer.take(top.len() as int) =~= longer);
        }
    }
    if under(path, top) {
        assert(longer.take(top.len() as int) =~= path.take(top.len() as int));
    }
    if under(top, longer) {
        assert(top.take(path.len() as int) =~= top.take(longer.len() as int).take(
            path.len() as int,
        ));
        assert(longer.take(path.len() as int) =~= path);
    }
    assert(path.take(path.len() as int) =~= path);
}

proof fn lemma_nested_step<T, N: Node<T>, V, R>(
    root: N,
    ctx: N::Context,
    visits: Seq<Visit<V, R>>,
    pending: Seq<Seq<int>>,
    next: Visit<V, R>,
)
    requires
        nested(visits, pending),
        tidy(visits, pending),
        pending.len() > 0,
        next.at == head(pending, Order::DepthFirst),
    ensures
        nested(visits.push(next), advance(root, ctx, pending, Order::DepthFirst, skips(next.flow))),
{
    let after = advance(root, ctx, pending, Order::DepthFirst, skips(next.flow));
    let more = visits.push(next);
    let kept = pending.len() - 1;
    let top = pending.len() - 1;
    let here = next.at;
    let old = visits.len() as int;
    lemma_advance_shape(root, ctx, pending, Order::DepthFirst, skips(next.flow));
    lemma_tidy_step(root, ctx, visits, pending, Order::DepthFirst, next);
    assert(here == pending[top]);
    assert(more[old] == next);

    // What a visited position has under it among the new positions, the
    // visited head has under it too.
    assert forall|i: int, k: int|
        0 <= i < old && kept <= k < after.len() && under(
            #[trigger] after[k],
            (#[trigger] visits[i]).at,
        ) implies under(here, visits[i].at) by {
        assert(after[k] == here.push(k - kept));
        lemma_under_child(here, k - kept, visits[i].at);
        if visits[i].at == after[k] {
            assert(more[i] == visits[i]);
            assert(seen(more, after[k]));
        }
    }

    assert forall|k: int, m: int|
        0 <= k < after.len() && 0 <= m < after.len() && k != m implies !under(
        #[trigger] after[m],
        #[trigger] after[k],
    ) by {
        if under(after[m], after[k]) {
            if k < kept && m < kept {
                assert(after[k] == pending[k] && after[m] == pending[m]);
            } else if k < kept {
                assert(after[k] == pending[k]);
                assert(after[m] == here.push(m - kept));
                lemma_under_child(here, m - kept, pending[k]);
                if under(here, pending[k]) {
                    assert(under(pending[top], pending[k]));
                }
            } else if m < kept {
                assert(after[m] == pending[m]);
                assert(after[k] == here.push(k - kept));
                lemma_under_child(here, k - kept, pending[m]);
                assert(under(pending[m], pending[top]));
            } else {
                assert(after[k] == here.push(k - kept));
                assert(after[m] == here.push(m - kept));
                assert(after[m].take(after[k].len() as int) =~= after[m]);
            }
        }
    }

    assert forall|i: int, k: int, m: int|
        0 <= i < more.len() && 0 <= k < m < after.len() && under(
            #[trigger] after[k],
            (#[trigger] more[i]).at,
        ) implies under(#[trigger] after[m], more[i].at) by {
        if i < old {
            assert(more[i] == visits[i]);
            if m < kept {
                assert(after[k] == pending[k] && after[m] == pending[m]);
            } else {
                assert(after[m] == here.push(m - kept));
                if k < kept {
                    assert(after[k] == pending[k]);
                    assert(under(pending[top], visits[i].at));
                } else {
                    assert(under(here, visits[i].at));
                }
                lemma_under_child(here, m - kept, visits[i].at);
            }
        } else {
            if k < kept {
                assert(after[k] == pending[k]);
                assert(under(pending[k], pending[top]));
            } else {
                assert(after[m] == here.push(m - kept));
                lemma_under_child(here, m - kept, here);
            }
        }
    }

    assert forall|i: int, j: int, k: int|
        0 <= i < j < more.len() && 0 <= k < after.len() && under(
            #[trigger] after[k],
            (#[trigger] more[i]).at,
        ) implies under((#[trigger] more[j]).at, more[i].at) by {
        assert(more[i] == visits[i]);
        if k < kept {
            assert(after[k] == pending[k]);
            if k < top {
                assert(under(pending[top], visits[i].at));
            }
        } else {
            assert(under(here, visits[i].at));
        }
        assert(under(pending[top], visits[i].at));
        if j < old {
            assert(more[j] == visits[j]);
        }
    }

    assert forall|i: int, j: int, l: int|
        0 <= i < j < l < more.len() && under(
            (#[trigger] more[l]).at,
            (#[trigger] more[i]).at,
        ) implies under((#[trigger] more[j]).at, more[i].at) by {
        assert(more[i] == visits[i] && more[j] == visits[j]);
        if l < old {
            assert(more[l] == visits[l]);
        } else {
            assert(under(pending[top], visits[i].at));
        }
    }
}

/// A depth-first traversal from the root is done with the subtree of a
/// position before it goes on beside it: every visit between the visit of
/// a position and a later visit in its subtree is a visit in that subtree.
/// So the visits in the subtree of one child come in one piece, and not
/// between the visits in the subtree of another. This holds whatever the
/// visitor skips.
pub proof fn lemma_dfs_keeps_subtrees_whole<'a, T, N: Node<T>, R, V: Visitor<'a, T, N, R>>(
    root: N,
    ctx: N::Context,
    visitor: V,
    visits: Seq<Visit<V, R>>,
)
    requires
        is_run(root, ctx, at_root(), Order::DepthFirst, visitor, visits),
    ensures
        nested(visits, pending_after(root, ctx, at_root(), Order::DepthFirst, visits)),
        forall|i: int, j: int, l: int|
            0 <= i <= j <= l < visits.len() && under(
                (#[trigger] visits[l]).at,
                (#[trigger] visits[i]).at,
            ) ==> under((#[trigger] visits[j]).at, visits[i].at),
    decreases visits.len(),
{
    if visits.len() > 0 {
        let before = visits.drop_last();
        let pending = pending_after(root, ctx, at_root(), Order::DepthFirst, before);
        lemma_dfs_keeps_subtrees_whole(root, ctx, visitor, before);
        lemma_runs_are_tidy(root, ctx, Order::DepthFirst, visitor, before);
        lemma_nested_step(root, ctx, before, pending, visits.last());
        assert(before.push(visits.last()) =~= visits);
    }
    assert forall|i: int, j: int, l: int|
        0 <= i <= j <= l < visits.len() && under(
            (#[trigger] visits[l]).at,
            (#[trigger] visits[i]).at,
        ) implies under((#[trigger] visits[j]).at, visits[i].at) by {
        if i == j {
            lemma_under_child(visits[i].at, 0, visits[i].at);
        }
    }
}

} // verus!
