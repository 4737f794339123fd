//! A traversal engine for any structure whose nodes can list their children.

use std::collections::VecDeque;
use std::marker::PhantomData;
use std::ops::ControlFlow;
use vstd::prelude::*;

verus! {

/// The largest number of levels a walked tree may have: depths are counted in
/// `u64`, so the deepest node must sit at a depth that `u64` can hold.
pub open spec fn max_levels() -> nat {
    0x1_0000_0000_0000_0000
}

/// A node of a parent-indexed structure: it carries a record and can list its
/// children with the help of a context.
pub trait Node<T>: Sized {
    type Context;

    /// The record this node carries.
    spec fn record(&self) -> T;

    /// The children of this node as `ctx` resolves them, in enumeration order.
    spec fn child_nodes(&self, ctx: &Self::Context) -> Seq<Self>;

    /// The record of this node.
    fn data(&self) -> (r: &T)
        ensures
            *r == self.record(),
    ;

    /// The record of this node, to be changed in place: the node keeps its
    /// children.
    fn data_mut(&mut self) -> (r: &mut T)
        ensures
            *r == old(self).record(),
            final(self).record() == *final(r),
            forall|ctx: &Self::Context|
                #[trigger] final(self).child_nodes(ctx) == old(self).child_nodes(ctx),
    ;

    /// The children of this node, in enumeration order.
    fn children<'a>(&'a self, ctx: &'a Self::Context) -> (kids: Vec<&'a Self>)
        ensures
            kids@.len() == self.child_nodes(ctx).len(),
            forall|i: int|
                0 <= i < kids@.len() ==> *#[trigger] kids@[i] == self.child_nodes(ctx)[i],
    ;
}

/// What a visitor asks of the engine when it lets the traversal go on.
#[derive(PartialEq, Eq, Structural, Copy, Clone, Debug)]
pub enum ContinueFlow {
    /// Descend into the children of the visited node.
    Forward,
    /// Leave the subtree below the visited node out.
    Skip,
}

impl Default for ContinueFlow {
    fn default() -> (flow: Self)
        ensures
            flow == ContinueFlow::Forward,
    {
        ContinueFlow::Forward
    }
}

/// A node as the engine hands it to a visitor: the node itself, its distance
/// from the root of the traversal and its index among its siblings.
#[derive(Debug)]
pub struct WalkerNode<'a, T, N> {
    pub inner: &'a N,
    pub depth: u64,
    pub sibling_no: u64,
    pub _data: PhantomData<T>,
}

impl<'a, T, N> Clone for WalkerNode<'a, T, N> {
    fn clone(&self) -> (copy: Self)
        ensures
            copy == *self,
    {
        *self
    }
}

impl<'a, T, N> Copy for WalkerNode<'a, T, N> {}

impl<'a, T, N> WalkerNode<'a, T, N> {
    /// The cursor of the root of a traversal.
    pub fn root(inner: &'a N) -> (node: Self)
        ensures
            node.inner == inner,
            node.depth == 0,
            node.sibling_no == 0,
    {
        Self { inner, depth: 0, sibling_no: 0, _data: PhantomData }
    }
}

/// `node` heads a tree of at most `levels` levels (itself included).
pub open spec fn within<T, N: Node<T>>(node: N, ctx: N::Context, levels: nat) -> bool
    decreases levels,
{
    &&& levels > 0
    &&& forall|i: int|
        0 <= i < node.child_nodes(&ctx).len() ==> within(
            #[trigger] node.child_nodes(&ctx)[i],
            ctx,
            (levels - 1) as nat,
        )
}

/// `root` heads a finite tree whose depths all fit in `u64`: the engine walks
/// such trees only.
pub open spec fn walkable<T, N: Node<T>>(root: N, ctx: N::Context) -> bool {
    exists|levels: nat| levels <= max_levels() && #[trigger] within(root, ctx, levels)
}

/// The node that `path` leads to from `root`: each entry of `path` picks a
/// child by its enumeration index.
pub open spec fn descend<T, N: Node<T>>(root: N, ctx: N::Context, path: Seq<int>) -> N
    decreases path.len(),
{
    if path.len() == 0 {
        root
    } else {
        descend(root, ctx, path.drop_last()).child_nodes(&ctx)[path.last()]
    }
}

/// `path` leads to a node of the tree under `root`.
pub open spec fn is_position<T, N: Node<T>>(root: N, ctx: N::Context, path: Seq<int>) -> bool
    decreases path.len(),
{
    path.len() == 0 || {
        &&& is_position(root, ctx, path.drop_last())
        &&& 0 <= path.last() < descend(root, ctx, path.drop_last()).child_nodes(&ctx).len()
    }
}

/// The positions of the children of the node at `path`, in enumeration order.
pub open spec fn offspring<T, N: Node<T>>(root: N, ctx: N::Context, path: Seq<int>) -> Seq<
    Seq<int>,
> {
    Seq::new(descend(root, ctx, path).child_nodes(&ctx).len(), |i: int| path.push(i))
}

/// What the engine hands to a visitor for the node at `path`.
pub open spec fn cursor_at<'a, T, N: Node<T>>(
    root: N,
    ctx: N::Context,
    path: Seq<int>,
) -> WalkerNode<'a, T, N> {
    WalkerNode {
        inner: &descend(root, ctx, path),
        depth: path.len() as u64,
        sibling_no: if path.len() == 0 {
            0
        } else {
            path.last() as u64
        },
        _data: PhantomData,
    }
}

/// The end of the frontier that the engine takes the next node from.
#[derive(PartialEq, Eq, Structural, Copy, Clone, Debug)]
pub enum Order {
    /// Oldest pending node first: level by level.
    BreadthFirst,
    /// Newest pending node first: a subtree before its siblings.
    DepthFirst,
}

/// The pending position that a step in `order` visits.
pub open spec fn head(pending: Seq<Seq<int>>, order: Order) -> Seq<int> {
    match order {
        Order::BreadthFirst => pending.first(),
        Order::DepthFirst => pending.last(),
    }
}

/// The frontier after a step in `order`: the visited position leaves, and
/// unless the visitor skipped, its children join at the back.
pub open spec fn advance<T, N: Node<T>>(
    root: N,
    ctx: N::Context,
    pending: Seq<Seq<int>>,
    order: Order,
    skip: bool,
) -> Seq<Seq<int>> {
    let rest = match order {
        Order::BreadthFirst => pending.drop_first(),
        Order::DepthFirst => pending.drop_last(),
    };
    if skip {
        rest
    } else {
        rest + offspring(root, ctx, head(pending, order))
    }
}

/// The visitor asked for the subtree below the visited node to be left out.
pub open spec fn skips<R>(flow: ControlFlow<R, ContinueFlow>) -> bool {
    flow == ControlFlow::<R, ContinueFlow>::Continue(ContinueFlow::Skip)
}

/// The visitor asked for the traversal to end.
pub open spec fn stops<R>(flow: ControlFlow<R, ContinueFlow>) -> bool {
    flow is Break
}

/// What is called on every node a traversal reaches. `observes` relates a
/// visitor, the node it is shown, its verdict and the visitor it has become.
pub trait Visitor<'a, T, N: Node<T>, R>: Sized {
    /// The visitor may be called.
    spec fn ready(&self) -> bool;

    /// Shown `node`, this visitor may answer `flow` and become `after`.
    spec fn observes(
        &self,
        node: WalkerNode<'a, T, N>,
        flow: ControlFlow<R, ContinueFlow>,
        after: &Self,
    ) -> bool;

    /// Calls the visitor on `node`. The answer says whether to go on into
    /// the children of `node`, to go on beside them, or to stop with a result.
    fn visit(&mut self, node: WalkerNode<'a, T, N>) -> (flow: ControlFlow<R, ContinueFlow>)
        requires
            old(self).ready(),
        ensures
            final(self).ready(),
            old(self).observes(node, flow, final(self)),
    ;
}

/// A closure as a visitor: what the closure returns for a node is the verdict.
pub struct FnVisitor<F> {
    pub call: F,
}

impl<'a, T, N: Node<T> + 'a, R, F: FnMut(WalkerNode<'a, T, N>) -> ControlFlow<R, ContinueFlow>> Visitor<
    'a,
    T,
    N,
    R,
> for FnVisitor<F> {
    open spec fn ready(&self) -> bool {
        forall|node: WalkerNode<'a, T, N>| call_requires(self.call, (node,))
    }

    open spec fn observes(
        &self,
        node: WalkerNode<'a, T, N>,
        flow: ControlFlow<R, ContinueFlow>,
        after: &Self,
    ) -> bool {
        call_ensures(self.call, (node,), flow) && *after == *self
    }

    fn visit(&mut self, node: WalkerNode<'a, T, N>) -> (flow: ControlFlow<R, ContinueFlow>) {
        (self.call)(node)
    }
}

impl<F> FnVisitor<F> {
    /// A visitor that asks `call` at every node.
    pub fn new<'a, T, N: Node<T> + 'a, R>(call: F) -> (visitor: Self) where
        F: FnMut(WalkerNode<'a, T, N>) -> ControlFlow<R, ContinueFlow>,

        requires
            forall|node: WalkerNode<'a, T, N>| call_requires(call, (node,)),
        ensures
            visitor.call == call,
            Visitor::<'a, T, N, R>::ready(&visitor),
    {
        FnVisitor { call }
    }
}

/// What a closure is as a visitor: it may be called where the closure
/// accepts every node, it answers what the closure returns, and it stays
/// as it is.
pub proof fn lemma_closure_visits<
    'a,
    T,
    N: Node<T> + 'a,
    R,
    F: FnMut(WalkerNode<'a, T, N>) -> ControlFlow<R, ContinueFlow>,
>(
    visitor: FnVisitor<F>,
    node: WalkerNode<'a, T, N>,
    flow: ControlFlow<R, ContinueFlow>,
    after: FnVisitor<F>,
)
    ensures
        Visitor::<'a, T, N, R>::ready(&visitor) <==> forall|node: WalkerNode<'a, T, N>|
            call_requires(visitor.call, (node,)),
        Visitor::<'a, T, N, R>::observes(&visitor, node, flow, &after) <==> call_ensures(
            visitor.call,
            (node,),
            flow,
        ) && after == visitor,
{
}

/// One visit of a traversal: the position visited, the visitor's verdict and
/// the visitor as the visit left it.
pub struct Visit<V, R> {
    pub at: Seq<int>,
    pub flow: ControlFlow<R, ContinueFlow>,
    pub after: V,
}

/// The frontier that `visits` leave behind when they start from `start`.
pub open spec fn pending_after<T, N: Node<T>, V, R>(
    root: N,
    ctx: N::Context,
    start: Seq<Seq<int>>,
    order: Order,
    visits: Seq<Visit<V, R>>,
) -> Seq<Seq<int>>
    decreases visits.len(),
{
    if visits.len() == 0 {
        start
    } else {
        advance(
            root,
            ctx,
            pending_after(root, ctx, start, order, visits.drop_last()),
            order,
            skips(visits.last().flow),
        )
    }
}

/// The visitor as `visits` leave it.
pub open spec fn visitor_after<V, R>(visitor: V, visits: Seq<Visit<V, R>>) -> V {
    if visits.len() == 0 {
        visitor
    } else {
        visits.last().after
    }
}

/// `visits` is what a traversal in `order` may do, one step after the other,
/// when it starts with the frontier `start` and with `visitor`: each step
/// visits the head of the frontier that the earlier steps left, the visitor
/// answers as it may, and nothing follows a stop.
pub open spec fn is_run<'a, T, N: Node<T>, R, V: Visitor<'a, T, N, R>>(
    root: N,
    ctx: N::Context,
    start: Seq<Seq<int>>,
    order: Order,
    visitor: V,
    visits: Seq<Visit<V, R>>,
) -> bool
    decreases visits.len(),
{
    visits.len() == 0 || {
        let before = visits.drop_last();
        let pending = pending_after(root, ctx, start, order, before);
        &&& is_run(root, ctx, start, order, visitor, before)
        &&& before.len() > 0 ==> !stops(before.last().flow)
        &&& pending.len() > 0
        &&& visits.last().at == head(pending, order)
        &&& visitor_after(visitor, before).observes(
            cursor_at(root, ctx, visits.last().at),
            visits.last().flow,
            &visits.last().after,
        )
    }
}

/// What the last visit of a run was: the run before it was a run that had
/// not stopped, it left something pending, and the last visit was at the
/// head of that, with an answer that the visitor could give there.
pub proof fn lemma_run_shrinks<'a, T, N: Node<T>, R, V: Visitor<'a, T, N, R>>(
    root: N,
    ctx: N::Context,
    start: Seq<Seq<int>>,
    order: Order,
    visitor: V,
    visits: Seq<Visit<V, R>>,
)
    requires
        is_run(root, ctx, start, order, visitor, visits),
        visits.len() > 0,
    ensures
        is_run(root, ctx, start, order, visitor, visits.drop_last()),
        visits.len() > 1 ==> !stops(visits[visits.len() - 2].flow),
        pending_after(root, ctx, start, order, visits.drop_last()).len() > 0,
        visits.last().at == head(
            pending_after(root, ctx, start, order, visits.drop_last()),
            order,
        ),
        visitor_after(visitor, visits.drop_last()).observes(
            cursor_at(root, ctx, visits.last().at),
            visits.last().flow,
            &visits.last().after,
        ),
{
    let before = visits.drop_last();
    if before.len() > 0 {
        assert(before.last() == visits[visits.len() - 2]);
    }
}

/// A closure stays as it is through a run: whatever it has answered, the
/// visitor at the end is the visitor at the start.
pub proof fn lemma_closure_is_kept<
    'a,
    T,
    N: Node<T> + 'a,
    R,
    F: FnMut(WalkerNode<'a, T, N>) -> ControlFlow<R, ContinueFlow>,
>(
    root: N,
    ctx: N::Context,
    start: Seq<Seq<int>>,
    order: Order,
    visitor: FnVisitor<F>,
    visits: Seq<Visit<FnVisitor<F>, R>>,
)
    requires
        is_run(root, ctx, start, order, visitor, visits),
    ensures
        visitor_after(visitor, visits) == visitor,
    decreases visits.len(),
{
    if visits.len() > 0 {
        lemma_closure_is_kept(root, ctx, start, order, visitor, visits.drop_last());
    }
}

/// `visits` is a whole traversal: a run that ends with the visitor's stop, or
/// with an empty frontier, and that leaves `out`, `pending` and `visitor_end`.
pub open spec fn completes<'a, T, N: Node<T>, R, V: Visitor<'a, T, N, R>>(
    root: N,
    ctx: N::Context,
    start: Seq<Seq<int>>,
    order: Order,
    visitor: V,
    visits: Seq<Visit<V, R>>,
    out: Option<R>,
    pending: Seq<Seq<int>>,
    visitor_end: V,
) -> bool {
    &&& is_run(root, ctx, start, order, visitor, visits)
    &&& pending == pending_after(root, ctx, start, order, visits)
    &&& visitor_end == visitor_after(visitor, visits)
    &&& match out {
        Some(r) => visits.len() > 0 && visits.last().flow == ControlFlow::<
            R,
            ContinueFlow,
        >::Break(r),
        None => pending.len() == 0 && (visits.len() > 0 ==> !stops(visits.last().flow)),
    }
}

/// The frontier of a traversal that is about to start: the root alone.
pub open spec fn at_root() -> Seq<Seq<int>> {
    seq![Seq::<int>::empty()]
}

/// The number of nodes on the first `levels` levels of the tree under `node`.
spec fn weight<T, N: Node<T>>(node: N, ctx: N::Context, levels: nat) -> nat
    decreases levels, 0nat,
{
    if levels == 0 {
        0
    } else {
        1 + weight_all(node.child_nodes(&ctx), ctx, (levels - 1) as nat)
    }
}

/// The number of nodes on the first `levels` levels of the trees under
/// `nodes`, taken together.
spec fn weight_all<T, N: Node<T>>(nodes: Seq<N>, ctx: N::Context, levels: nat) -> nat
    decreases levels, nodes.len() + 1,
{
    if nodes.len() == 0 {
        0
    } else {
        weight_all(nodes.drop_last(), ctx, levels) + weight(nodes.last(), ctx, levels)
    }
}

/// The number of visits that the pending positions can still lead to, in a
/// tree of `levels` levels.
spec fn load<T, N: Node<T>>(root: N, ctx: N::Context, pending: Seq<Seq<int>>, levels: nat) -> nat
    decreases pending.len(),
{
    if pending.len() == 0 {
        0
    } else {
        load(root, ctx, pending.drop_last(), levels) + weight(
            descend(root, ctx, pending.last()),
            ctx,
            (levels - pending.last().len()) as nat,
        )
    }
}

proof fn lemma_load_concat<T, N: Node<T>>(
    root: N,
    ctx: N::Context,
    a: Seq<Seq<int>>,
    b: Seq<Seq<int>>,
    levels: nat,
)
    ensures
        load(root, ctx, a + b, levels) == load(root, ctx, a, levels) + load(root, ctx, b, levels),
    decreases b.len(),
{
    if b.len() == 0 {
        assert(a + b =~= a);
    } else {
        assert((a + b).drop_last() =~= a + b.drop_last());
        assert((a + b).last() == b.last());
        lemma_load_concat(root, ctx, a, b.drop_last(), levels);
    }
}

proof fn lemma_load_first<T, N: Node<T>>(
    root: N,
    ctx: N::Context,
    pending: Seq<Seq<int>>,
    levels: nat,
)
    requires
        pending.len() > 0,
    ensures
        load(root, ctx, pending, levels) == weight(
            descend(root, ctx, pending.first()),
            ctx,
            (levels - pending.first().len()) as nat,
        ) + load(root, ctx, pending.drop_first(), levels),
{
    let one = seq![pending.first()];
    assert(one + pending.drop_first() =~= pending);
    lemma_load_concat(root, ctx, one, pending.drop_first(), levels);
    assert(one.drop_last() =~= Seq::<Seq<int>>::empty());
    assert(load(root, ctx, one.drop_last(), levels) == 0);
}

proof fn lemma_load_offspring<T, N: Node<T>>(
    root: N,
    ctx: N::Context,
    path: Seq<int>,
    count: nat,
    levels: nat,
)
    requires
        count <= descend(root, ctx, path).child_nodes(&ctx).len(),
        path.len() < levels,
    ensures
        load(root, ctx, offspring(root, ctx, path).take(count as int), levels) == weight_all(
            descend(root, ctx, path).child_nodes(&ctx).take(count as int),
            ctx,
            (levels - path.len() - 1) as nat,
        ),
    decreases count,
{
    let kids = descend(root, ctx, path).child_nodes(&ctx);
    let paths = offspring(root, ctx, path);
    if count == 0 {
    } else {
        let fewer = (count - 1) as nat;
        lemma_load_offspring(root, ctx, path, fewer, levels);
        assert(paths.take(count as int).drop_last() =~= paths.take(fewer as int));
        assert(kids.take(count as int).drop_last() =~= kids.take(fewer as int));
        let last = paths.take(count as int).last();
        assert(last == path.push(fewer as int));
        assert(last.drop_last() =~= path);
        assert(descend(root, ctx, last) == kids[fewer as int]);
        assert(kids.take(count as int).last() == kids[fewer as int]);
    }
}

/// The engine: a frontier of pending nodes and the context that lists their
/// children. The frontier is kept between traversals, so that one walker
/// serves many queries.
pub struct Walker<'a, T, N: Node<T>> {
    ctx: &'a N::Context,
    heap: VecDeque<WalkerNode<'a, T, N>>,
    origin: Ghost<N>,
    paths: Ghost<Seq<Seq<int>>>,
    levels: Ghost<nat>,
    _data: PhantomData<T>,
}

impl<'a, T, N: Node<T>> WalkerNode<'a, T, N> {
    /// The children of this node, each one level deeper and numbered in
    /// enumeration order.
    pub fn children(&self, ctx: &'a N::Context) -> (kids: Vec<WalkerNode<'a, T, N>>)
        requires
            self.inner.child_nodes(ctx).len() > 0 ==> self.depth < u64::MAX,
        ensures
            kids@.len() == self.inner.child_nodes(ctx).len(),
            forall|i: int|
                0 <= i < kids@.len() ==> {
                    &&& *(#[trigger] kids@[i]).inner == self.inner.child_nodes(ctx)[i]
                    &&& kids@[i].depth == self.depth + 1
                    &&& kids@[i].sibling_no == i
                },
    {
        let found = self.inner.children(ctx);
        let mut kids: Vec<WalkerNode<'a, T, N>> = Vec::with_capacity(found.len());
        let mut i: usize = 0;
        while i < found.len()
            invariant
                i <= found@.len(),
                found@.len() == self.inner.child_nodes(ctx).len(),
                found@.len() > 0 ==> self.depth < u64::MAX,
                forall|j: int|
                    0 <= j < found@.len() ==> *#[trigger] found@[j] == self.inner.child_nodes(
                        ctx,
                    )[j],
                kids@.len() == i,
                forall|j: int|
                    0 <= j < i ==> {
                        &&& *(#[trigger] kids@[j]).inner == self.inner.child_nodes(ctx)[j]
                        &&& kids@[j].depth == self.depth + 1
                        &&& kids@[j].sibling_no == j
                    },
            decreases found@.len() - i,
        {
            kids.push(
                WalkerNode {
                    inner: found[i],
                    depth: self.depth + 1,
                    sibling_no: i as u64,
                    _data: PhantomData,
                },
            );
            i += 1;
        }
        kids
    }
}

impl<'a, T, N: Node<T>> Walker<'a, T, N> {
    /// The root that the pending positions are counted from.
    pub closed spec fn origin(&self) -> N {
        self.origin@
    }

    /// The context that lists the children of a node.
    pub closed spec fn context(&self) -> N::Context {
        *self.ctx
    }

    /// The frontier: the positions of the nodes still to be visited, the
    /// oldest first.
    pub closed spec fn pending(&self) -> Seq<Seq<int>> {
        self.paths@
    }

    /// A bound on the number of visits that the frontier can still lead to.
    pub closed spec fn remaining(&self) -> nat {
        load(self.origin@, *self.ctx, self.paths@, self.levels@)
    }

    /// The frontier holds the nodes at the pending positions, and each of
    /// them heads a finite tree whose depths fit in `u64`.
    pub closed spec fn wf(&self) -> bool {
        &&& self.levels@ <= max_levels()
        &&& self.heap@.len() == self.paths@.len()
        &&& forall|i: int|
            0 <= i < self.paths@.len() ==> self.holds(i, #[trigger] self.paths@[i])
    }

    spec fn holds(&self, i: int, path: Seq<int>) -> bool {
        &&& self.fits(path)
        &&& self.heap@[i] == cursor_at::<T, N>(self.origin@, *self.ctx, path)
    }

    spec fn fits(&self, path: Seq<int>) -> bool {
        &&& path.len() < self.levels@
        &&& within(
            descend(self.origin@, *self.ctx, path),
            *self.ctx,
            (self.levels@ - path.len()) as nat,
        )
    }

    /// A walker that is about to visit `root`.
    pub fn new(root: &'a N, ctx: &'a N::Context) -> (walker: Self)
        requires
            walkable(*root, *ctx),
        ensures
            walker.wf(),
            walker.origin() == *root,
            walker.context() == *ctx,
            walker.pending() == at_root(),
    {
        let ghost levels = choose|levels: nat|
            levels <= max_levels() && #[trigger] within(*root, *ctx, levels);
        let mut heap = VecDeque::new();
        heap.push_back(WalkerNode::root(root));
        Walker {
            ctx,
            heap,
            origin: Ghost(*root),
            paths: Ghost(at_root()),
            levels: Ghost(levels),
            _data: PhantomData,
        }
    }

    /// As `new`, with room for `capacity` pending nodes set aside at once.
    pub fn with_capacity(root: &'a N, ctx: &'a N::Context, capacity: usize) -> (walker: Self)
        requires
            walkable(*root, *ctx),
        ensures
            walker.wf(),
            walker.origin() == *root,
            walker.context() == *ctx,
            walker.pending() == at_root(),
    {
        let ghost levels = choose|levels: nat|
            levels <= max_levels() && #[trigger] within(*root, *ctx, levels);
        let mut heap = VecDeque::with_capacity(capacity);
        heap.push_front(WalkerNode::root(root));
        Walker {
            ctx,
            heap,
            origin: Ghost(*root),
            paths: Ghost(at_root()),
            levels: Ghost(levels),
            _data: PhantomData,
        }
    }

    /// Forgets what is pending and makes the walker ready to visit `root`,
    /// in the storage it already has.
    pub fn set(&mut self, root: &'a N)
        requires
            walkable(*root, old(self).context()),
        ensures
            final(self).wf(),
            final(self).origin() == *root,
            final(self).context() == old(self).context(),
            final(self).pending() == at_root(),
    {
        let ghost levels = choose|levels: nat|
            levels <= max_levels() && #[trigger] within(*root, *self.ctx, levels);
        self.heap.clear();
        self.heap.push_front(WalkerNode::root(root));
        proof {
            self.origin@ = *root;
            self.paths@ = at_root();
            self.levels@ = levels;
        }
    }

    /// Puts the children of `node`, which was pending at `path`, at the back
    /// of the frontier.
    fn expand(&mut self, node: WalkerNode<'a, T, N>, Ghost(path): Ghost<Seq<int>>)
        requires
            old(self).wf(),
            old(self).fits(path),
            node == cursor_at::<T, N>(old(self).origin@, *old(self).ctx, path),
        ensures
            final(self).wf(),
            final(self).origin@ == old(self).origin@,
            final(self).ctx == old(self).ctx,
            final(self).levels@ == old(self).levels@,
            final(self).paths@ == old(self).paths@ + offspring(
                old(self).origin@,
                *old(self).ctx,
                path,
            ),
    {
        let ghost root = self.origin@;
        let ghost ctx = *self.ctx;
        let ghost parent = descend(root, ctx, path);
        let ghost born = offspring(root, ctx, path);
        proof {
            if parent.child_nodes(&ctx).len() > 0 {
                assert(within(
                    parent.child_nodes(&ctx)[0],
                    ctx,
                    (self.levels@ - path.len() - 1) as nat,
                ));
            }
        }
        let kids = node.children(self.ctx);
        let mut i: usize = 0;
        while i < kids.len()
            invariant
                i <= kids@.len(),
                self.wf(),
                self.origin@ == root,
                *self.ctx == ctx,
                self.ctx == old(self).ctx,
                self.levels@ == old(self).levels@,
                self.fits(path),
                parent == descend(root, ctx, path),
                born == offspring(root, ctx, path),
                node == cursor_at::<T, N>(root, ctx, path),
                kids@.len() == parent.child_nodes(&ctx).len(),
                forall|j: int|
                    0 <= j < kids@.len() ==> {
                        &&& *(#[trigger] kids@[j]).inner == parent.child_nodes(&ctx)[j]
                        &&& kids@[j].depth == node.depth + 1
                        &&& kids@[j].sibling_no == j
                    },
                self.paths@ == old(self).paths@ + born.take(i as int),
            decreases kids@.len() - i,
        {
            let ghost child = path.push(i as int);
            proof {
                assert(child.drop_last() =~= path);
                assert(descend(root, ctx, child) == parent.child_nodes(&ctx)[i as int]);
                assert(within(parent.child_nodes(&ctx)[i as int], ctx, (self.levels@ - path.len() - 1) as nat));
                assert(born.take(i as int + 1) =~= born.take(i as int).push(child));
            }
            self.heap.push_back(kids[i]);
            proof {
                self.paths@ = self.paths@.push(child);
                assert(self.holds(self.paths@.len() - 1, child));
            }
            i += 1;
        }
        proof {
            assert(born.take(i as int) =~= born);
        }
    }
}

impl<'a, T, N: Node<T>> Clone for Walker<'a, T, N> {
    /// A walker with the same frontier over the same context.
    fn clone(&self) -> (copy: Self)
        ensures
            copy.wf() == self.wf(),
            copy.origin() == self.origin(),
            copy.context() == self.context(),
            copy.pending() == self.pending(),
            copy.remaining() == self.remaining(),
    {
        let heap = self.heap.clone();
        proof {
            assert(heap@ =~= self.heap@);
        }
        let copy = Walker {
            ctx: self.ctx,
            heap,
            origin: self.origin,
            paths: self.paths,
            levels: self.levels,
            _data: PhantomData,
        };
        proof {
            assert forall|i: int, path: Seq<int>| copy.holds(i, path) == self.holds(i, path) by {}
        }
        copy
    }
}

/// What one step in `order` makes of a walker and a visitor: nothing where
/// nothing is pending; else the visitor is shown the head of the frontier, the
/// frontier advances, and fewer visits remain.
pub open spec fn takes_step<'a, T, N: Node<T>, R, V: Visitor<'a, T, N, R>>(
    before: Walker<'a, T, N>,
    after: Walker<'a, T, N>,
    order: Order,
    visitor: V,
    flow: ControlFlow<R, ContinueFlow>,
    visitor_end: V,
) -> bool {
    &&& after.origin() == before.origin()
    &&& after.context() == before.context()
    &&& if before.pending().len() == 0 {
        &&& flow == ControlFlow::<R, ContinueFlow>::Continue(ContinueFlow::Forward)
        &&& after.pending() == before.pending()
        &&& visitor_end == visitor
    } else {
        &&& visitor.observes(
            cursor_at(before.origin(), before.context(), head(before.pending(), order)),
            flow,
            &visitor_end,
        )
        &&& after.pending() == advance(
            before.origin(),
            before.context(),
            before.pending(),
            order,
            skips(flow),
        )
        &&& after.remaining() < before.remaining()
    }
}

/// A run that has not stopped goes on with any step that the frontier and the
/// visitor allow.
pub proof fn lemma_run_grows<'a, T, N: Node<T>, R, V: Visitor<'a, T, N, R>>(
    root: N,
    ctx: N::Context,
    start: Seq<Seq<int>>,
    order: Order,
    visitor: V,
    visits: Seq<Visit<V, R>>,
    next: Visit<V, R>,
)
    requires
        is_run(root, ctx, start, order, visitor, visits),
        visits.len() > 0 ==> !stops(visits.last().flow),
        pending_after(root, ctx, start, order, visits).len() > 0,
        next.at == head(pending_after(root, ctx, start, order, visits), order),
        visitor_after(visitor, visits).observes(
            cursor_at(root, ctx, next.at),
            next.flow,
            &next.after,
        ),
    ensures
        is_run(root, ctx, start, order, visitor, visits.push(next)),
        pending_after(root, ctx, start, order, visits.push(next)) == advance(
            root,
            ctx,
            pending_after(root, ctx, start, order, visits),
            order,
            skips(next.flow),
        ),
        visitor_after(visitor, visits.push(next)) == next.after,
{
    assert(visits.push(next).drop_last() =~= visits);
}

impl<'a, T, N: Node<T>> Walker<'a, T, N> {
    /// One breadth-first step with a visitor of its own.
    pub fn bfs_step<R, V: Visitor<'a, T, N, R>>(&mut self, visitor: V) -> (flow: ControlFlow<
        R,
        ContinueFlow,
    >)
        requires
            old(self).wf(),
            visitor.ready(),
        ensures
            final(self).wf(),
            exists|after: V|
                after.ready() && #[trigger] takes_step(
                    *old(self),
                    *final(self),
                    Order::BreadthFirst,
                    visitor,
                    flow,
                    after,
                ),
    {
        let ghost first = visitor;
        let mut visitor = visitor;
        let flow = self.bfs_step_by_ref(&mut visitor);
        assert(takes_step(*old(self), *self, Order::BreadthFirst, first, flow, visitor));
        flow
    }

    /// One breadth-first step: the oldest pending node is shown to `visitor`,
    /// and unless the visitor skips, its children become pending.
    pub fn bfs_step_by_ref<R, V: Visitor<'a, T, N, R>>(&mut self, visitor: &mut V) -> (flow:
        ControlFlow<R, ContinueFlow>)
        requires
            old(self).wf(),
            old(visitor).ready(),
        ensures
            final(self).wf(),
            final(visitor).ready(),
            takes_step(
                *old(self),
                *final(self),
                Order::BreadthFirst,
                *old(visitor),
                flow,
                *final(visitor),
            ),
    {
        let ghost root = self.origin@;
        let ghost ctx = *self.ctx;
        let ghost levels = self.levels@;
        let ghost before = self.paths@;
        match self.heap.pop_front() {
            None => ControlFlow::Continue(ContinueFlow::Forward),
            Some(current) => {
                let ghost path = before.first();
                proof {
                    assert(old(self).holds(0, before[0]));
                    self.paths@ = before.drop_first();
                    assert forall|i: int| 0 <= i < self.paths@.len() implies self.holds(
                        i,
                        #[trigger] self.paths@[i],
                    ) by {
                        assert(old(self).holds(i + 1, before[i + 1]));
                    }
                    lemma_load_first(root, ctx, before, levels);
                }
                let flow = visitor.visit(current);
                let skip = match &flow {
                    ControlFlow::Continue(ContinueFlow::Skip) => true,
                    _ => false,
                };
                if !skip {
                    self.expand(current, Ghost(path));
                    proof {
                        let born = offspring(root, ctx, path);
                        let kids = descend(root, ctx, path).child_nodes(&ctx);
                        lemma_load_concat(root, ctx, before.drop_first(), born, levels);
                        lemma_load_offspring(root, ctx, path, kids.len(), levels);
                        assert(born.take(kids.len() as int) =~= born);
                        assert(kids.take(kids.len() as int) =~= kids);
                    }
                }
                flow
            },
        }
    }

    /// A breadth-first traversal: steps until nothing is pending or the
    /// visitor stops, and hands out what the visitor stopped with.
    pub fn bfs<R, V: Visitor<'a, T, N, R>>(&mut self, visitor: &mut V) -> (out: Option<R>)
        requires
            old(self).wf(),
            old(visitor).ready(),
        ensures
            final(self).wf(),
            final(visitor).ready(),
            final(self).origin() == old(self).origin(),
            final(self).context() == old(self).context(),
            exists|visits: Seq<Visit<V, R>>|
                #[trigger] completes(
                    old(self).origin(),
                    old(self).context(),
                    old(self).pending(),
                    Order::BreadthFirst,
                    *old(visitor),
                    visits,
                    out,
                    final(self).pending(),
                    *final(visitor),
                ),
    {
        let ghost root = self.origin();
        let ghost ctx = self.context();
        let ghost start = self.pending();
        let ghost first = *visitor;
        let ghost mut visits: Seq<Visit<V, R>> = Seq::empty();
        while self.heap.len() > 0
            invariant
                self.wf(),
                visitor.ready(),
                root == old(self).origin(),
                ctx == old(self).context(),
                start == old(self).pending(),
                first == *old(visitor),
                self.origin() == root,
                self.context() == ctx,
                is_run(root, ctx, start, Order::BreadthFirst, first, visits),
                self.pending() == pending_after(root, ctx, start, Order::BreadthFirst, visits),
                *visitor == visitor_after(first, visits),
                visits.len() > 0 ==> !stops(visits.last().flow),
            decreases self.remaining(),
        {
            let ghost at = head(self.pending(), Order::BreadthFirst);
            let flow = self.bfs_step_by_ref(visitor);
            proof {
                let next = Visit { at, flow, after: *visitor };
                lemma_run_grows(root, ctx, start, Order::BreadthFirst, first, visits, next);
                visits = visits.push(next);
            }
            if let ControlFlow::Break(value) = flow {
                assert(completes(
                    root,
                    ctx,
                    start,
                    Order::BreadthFirst,
                    first,
                    visits,
                    Some(value),
                    self.pending(),
                    *visitor,
                ));
                return Some(value);
            }
        }
        assert(completes(
            root,
            ctx,
            start,
            Order::BreadthFirst,
            first,
            visits,
            None::<R>,
            self.pending(),
            *visitor,
        ));
        None
    }

    /// One depth-first step with a visitor of its own.
    pub fn dfs_step<R, V: Visitor<'a, T, N, R>>(&mut self, visitor: V) -> (flow: ControlFlow<
        R,
        ContinueFlow,
    >)
        requires
            old(self).wf(),
            visitor.ready(),
        ensures
            final(self).wf(),
            exists|after: V|
                after.ready() && #[trigger] takes_step(
                    *old(self),
                    *final(self),
                    Order::DepthFirst,
                    visitor,
                    flow,
                    after,
                ),
    {
        let ghost first = visitor;
        let mut visitor = visitor;
        let flow = self.dfs_step_by_ref(&mut visitor);
        assert(takes_step(*old(self), *self, Order::DepthFirst, first, flow, visitor));
        flow
    }

    /// One depth-first step: the newest pending node is shown to `visitor`,
    /// and unless the visitor skips, its children become pending.
    pub fn dfs_step_by_ref<R, V: Visitor<'a, T, N, R>>(&mut self, visitor: &mut V) -> (flow:
        ControlFlow<R, ContinueFlow>)
        requires
            old(self).wf(),
            old(visitor).ready(),
        ensures
            final(self).wf(),
            final(visitor).ready(),
            takes_step(
                *old(self),
                *final(self),
                Order::DepthFirst,
                *old(visitor),
                flow,
                *final(visitor),
            ),
    {
        let ghost root = self.origin@;
        let ghost ctx = *self.ctx;
        let ghost levels = self.levels@;
        let ghost before = self.paths@;
        match self.heap.pop_back() {
            None => ControlFlow::Continue(ContinueFlow::Forward),
            Some(current) => {
                let ghost path = before.last();
                proof {
                    assert(old(self).holds(before.len() - 1, before[before.len() - 1]));
                    self.paths@ = before.drop_last();
                    assert forall|i: int| 0 <= i < self.paths@.len() implies self.holds(
                        i,
                        #[trigger] self.paths@[i],
                    ) by {
                        assert(old(self).holds(i, before[i]));
                    }
                }
                let flow = visitor.visit(current);
                let skip = match &flow {
                    ControlFlow::Continue(ContinueFlow::Skip) => true,
                    _ => false,
                };
                if !skip {
                    self.expand(current, Ghost(path));
                    proof {
                        let born = offspring(root, ctx, path);
                        let kids = descend(root, ctx, path).child_nodes(&ctx);
                        lemma_load_concat(root, ctx, before.drop_last(), born, levels);
                        lemma_load_offspring(root, ctx, path, kids.len(), levels);
                        assert(born.take(kids.len() as int) =~= born);
                        assert(kids.take(kids.len() as int) =~= kids);
                    }
                }
                flow
            },
        }
    }

    /// A depth-first traversal: steps until nothing is pending or the visitor
    /// stops, and hands out what the visitor stopped with.
    pub fn dfs<R, V: Visitor<'a, T, N, R>>(&mut self, visitor: &mut V) -> (out: Option<R>)
        requires
            old(self).wf(),
            old(visitor).ready(),
        ensures
            final(self).wf(),
            final(visitor).ready(),
            final(self).origin() == old(self).origin(),
            final(self).context() == old(self).context(),
            exists|visits: Seq<Visit<V, R>>|
                #[trigger] completes(
                    old(self).origin(),
                    old(self).context(),
                    old(self).pending(),
                    Order::DepthFirst,
                    *old(visitor),
                    visits,
                    out,
                    final(self).pending(),
                    *final(visitor),
                ),
    {
        let ghost root = self.origin();
        let ghost ctx = self.context();
        let ghost start = self.pending();
        let ghost first = *visitor;
        let ghost mut visits: Seq<Visit<V, R>> = Seq::empty();
        while self.heap.len() > 0
            invariant
                self.wf(),
                visitor.ready(),
                root == old(self).origin(),
                ctx == old(self).context(),
                start == old(self).pending(),
                first == *old(visitor),
                self.origin() == root,
                self.context() == ctx,
                is_run(root, ctx, start, Order::DepthFirst, first, visits),
                self.pending() == pending_after(root, ctx, start, Order::DepthFirst, visits),
                *visitor == visitor_after(first, visits),
                visits.len() > 0 ==> !stops(visits.last().flow),
            decreases self.remaining(),
        {
            let ghost at = head(self.pending(), Order::DepthFirst);
            let flow = self.dfs_step_by_ref(visitor);
            proof {
                let next = Visit { at, flow, after: *visitor };
                lemma_run_grows(root, ctx, start, Order::DepthFirst, first, visits, next);
                visits = visits.push(next);
            }
            if let ControlFlow::Break(value) = flow {
                assert(completes(
                    root,
                    ctx,
                    start,
                    Order::DepthFirst,
                    first,
                    visits,
                    Some(value),
                    self.pending(),
                    *visitor,
                ));
                return Some(value);
            }
        }
        assert(completes(
            root,
            ctx,
            start,
            Order::DepthFirst,
            first,
            visits,
            None::<R>,
            self.pending(),
            *visitor,
        ));
        None
    }
}

/// Tells whether `node` heads a tree of at most `levels` levels. The answer
/// for a structure that leads back into itself is no, whatever `levels` is.
pub fn fits_within<T, N: Node<T>>(node: &N, ctx: &N::Context, levels: u64) -> (fits: bool)
    ensures
        fits == within(*node, *ctx, levels as nat),
        fits ==> walkable(*node, *ctx),
    decreases levels,
{
    if levels == 0 {
        return false;
    }
    let kids = node.children(ctx);
    let mut i: usize = 0;
    while i < kids.len()
        invariant
            i <= kids@.len(),
            levels > 0,
            kids@.len() == node.child_nodes(ctx).len(),
            forall|j: int|
                0 <= j < kids@.len() ==> *#[trigger] kids@[j] == node.child_nodes(ctx)[j],
            forall|j: int|
                0 <= j < i ==> within(
                    #[trigger] node.child_nodes(ctx)[j],
                    *ctx,
                    (levels - 1) as nat,
                ),
        decreases kids@.len() - i,
    {
        if !fits_within(kids[i], ctx, levels - 1) {
            return false;
        }
        i += 1;
    }
    true
}

} // verus!
