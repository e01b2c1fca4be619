//! The way from one step of a lowering to the next.

use crate::finish::{asks_well, end_node, grows, lemma_grows, owed, prepared, sound, steady};
use crate::ir::{clone_exprs, inputs, AExpr, AExprKind, ExprIR, IRNode, Node, IR};
use crate::model::{lower, lower_inputs, tests_group, tests_stack, Input, LowerError, Plan, PrepView,
    Run, World};
use crate::phys::{PhysNodeKey, PhysNodes};
use crate::protocol::Request;
use crate::step::{continues, keyed, starts, unwinds, world, Level, LevelView, Pending,
    PendingView, Prep, Step, StepView};
use crate::store::{get_expr, get_ir, ir_items, CacheNodes};
use crate::support::{agg_supported, aggs_supported, bounded, extends, inputs_outlook,
    lemma_inputs_outlook_extends, named, outlook, starts_well, Outlook};
use polars_utils::arena::Arena;
use vstd::prelude::*;

verus! {

/// The plan that an arena holds.
pub open spec fn plan(ir_arena: Arena<IRNode>, csv_slice_disabled: bool) -> Plan {
    Plan { nodes: ir_items(ir_arena), csv_slice_disabled }
}

/// The nodes that wait for their inputs.
pub open spec fn views(levels: Seq<Level>) -> Seq<LevelView> {
    Seq::new(levels.len(), |i: int| levels[i]@)
}

/// Whether a node that waits for an input is a node of the plan, and its lowering has begun well.
pub open spec fn level_placed(p: Plan, level: LevelView) -> bool {
    &&& bounded(p, level.node, level.depth)
    &&& starts_well(p.nodes[level.node as int], p.csv_slice_disabled)
    &&& prepared(p.nodes[level.node as int].ir, level.prep)
    &&& level.keys.len() < inputs(p.nodes[level.node as int].ir).len()
}

/// Whether a node that waits for an input can be ended some time.
pub open spec fn level_ready(p: Plan, level: LevelView, w: World) -> bool {
    &&& level_placed(p, level)
    &&& forall|j: int|
        0 <= j < level.keys.len() ==> w.phys.contains_key(#[trigger] level.keys[j])
}

/// Whether all nodes that wait for an input can be ended some time.
pub open spec fn levels_ready(p: Plan, levels: Seq<LevelView>, w: World) -> bool {
    forall|i: int| 0 <= i < levels.len() ==> level_ready(p, #[trigger] levels[i], w)
}

/// The outlook for the node that a step belongs to.
pub open spec fn step_outlook(p: Plan, step: StepView, w: World) -> Outlook {
    let cached = w.cache.dom();
    match step {
        StepView::Visit { node, depth } => outlook(p, w.exprs, node, depth, cached),
        StepView::Return(_) => Outlook::Lowers { visits: 0, cached },
        StepView::Fail(_) => Outlook::Fails { visits: 0 },
        StepView::Ask(_, pending) => pending_outlook(p, pending, w),
    }
}

/// The outlook for the node that an answer is wanted for.
pub open spec fn pending_outlook(p: Plan, pending: PendingView, w: World) -> Outlook {
    let cached = w.cache.dom();
    match pending {
        PendingView::StackTest { node, depth, .. } => {
            inputs_outlook(p, w.exprs, node, depth, 0, cached)
        },
        PendingView::GroupTest { node, depth, at, .. } => if aggs_supported(
            p.nodes[node as int].ir->GroupBy_aggs@,
            at + 1,
            w.exprs,
        ) {
            inputs_outlook(p, w.exprs, node, depth, 0, cached)
        } else {
            Outlook::Stuck
        },
        _ => Outlook::Lowers { visits: 0, cached },
    }
}

/// An outlook together with that for the nodes that wait, the last one first.
pub open spec fn rest_outlook(
    p: Plan,
    exprs: Seq<AExpr>,
    levels: Seq<LevelView>,
    first: Outlook,
) -> Outlook
    decreases levels.len(),
{
    if levels.len() == 0 {
        first
    } else {
        match first {
            Outlook::Lowers { visits, cached } => {
                let level = levels.last();
                rest_outlook(
                    p,
                    exprs,
                    levels.drop_last(),
                    inputs_outlook(
                        p,
                        exprs,
                        level.node,
                        level.depth,
                        level.keys.len() + 1,
                        cached,
                    ).after(visits),
                )
            },
            other => other,
        }
    }
}

/// The outlook for all of the plan that is not lowered yet.
pub open spec fn whole_outlook(
    p: Plan,
    levels: Seq<LevelView>,
    step: StepView,
    w: World,
) -> Outlook {
    rest_outlook(p, w.exprs, levels, step_outlook(p, step, w))
}

/// Whether a lowering can go on with a step: all that was lowered is still there, nothing is left
/// that is not supported, and there is room for all nodes that are still to be added.
pub open spec fn ready(p: Plan, levels: Seq<LevelView>, step: StepView, w: World) -> bool {
    let whole = whole_outlook(p, levels, step, w);
    &&& levels_ready(p, levels, w)
    &&& steady(p, step, w)
    &&& !(whole is Stuck)
    &&& sound(w, owed(step) + 4 * (whole.visits() + levels.len()))
}

/// The rest of a run from a step on.
pub open spec fn goes_on(
    p: Plan,
    levels: Seq<LevelView>,
    step: StepView,
    w: World,
    t: Seq<Input>,
    i: nat,
) -> Run {
    unwinds(p, levels, continues(p, step, w, t, i), t)
}

/// Visits before an outlook stay before it.
pub proof fn lemma_rest_after(
    p: Plan,
    exprs: Seq<AExpr>,
    levels: Seq<LevelView>,
    first: Outlook,
    more: nat,
)
    ensures
        rest_outlook(p, exprs, levels, first.after(more)) == rest_outlook(
            p,
            exprs,
            levels,
            first,
        ).after(more),
    decreases levels.len(),
{
    if levels.len() > 0 {
        if let Outlook::Lowers { visits, cached } = first {
            let level = levels.last();
            let next = inputs_outlook(
                p,
                exprs,
                level.node,
                level.depth,
                level.keys.len() + 1,
                cached,
            );
            lemma_rest_after(p, exprs, levels.drop_last(), next.after(visits), more);
            assert(next.after(visits).after(more) == next.after(more + visits));
        }
    }
}

/// New expressions behind the others leave the outlook as it is.
pub proof fn lemma_rest_extends(
    p: Plan,
    exprs: Seq<AExpr>,
    more: Seq<AExpr>,
    levels: Seq<LevelView>,
    first: Outlook,
)
    requires
        extends(more, exprs),
        !(rest_outlook(p, exprs, levels, first) is Stuck),
    ensures
        rest_outlook(p, more, levels, first) == rest_outlook(p, exprs, levels, first),
    decreases levels.len(),
{
    if levels.len() > 0 {
        if let Outlook::Lowers { visits, cached } = first {
            let level = levels.last();
            let next = inputs_outlook(
                p,
                exprs,
                level.node,
                level.depth,
                level.keys.len() + 1,
                cached,
            );
            lemma_rest_stuck(p, exprs, levels.drop_last());
            lemma_inputs_outlook_extends(
                p,
                exprs,
                more,
                level.node,
                level.depth,
                level.keys.len() + 1,
                cached,
            );
            lemma_rest_extends(p, exprs, more, levels.drop_last(), next.after(visits));
        }
    }
}

/// What is stuck stays stuck.
pub proof fn lemma_rest_stuck(p: Plan, exprs: Seq<AExpr>, levels: Seq<LevelView>)
    ensures
        rest_outlook(p, exprs, levels, Outlook::Stuck) is Stuck,
{
}

/// A failure ends it all.
pub proof fn lemma_rest_fails(p: Plan, exprs: Seq<AExpr>, levels: Seq<LevelView>)
    ensures
        forall|visits: nat|
            #[trigger] rest_outlook(p, exprs, levels, Outlook::Fails { visits })
                == (Outlook::Fails { visits }),
{
}

/// Nodes that wait are not disturbed when the world grows.
pub proof fn lemma_levels_grow(p: Plan, levels: Seq<LevelView>, w: World, w1: World)
    requires
        levels_ready(p, levels, w),
        grows(w, w1),
    ensures
        levels_ready(p, levels, w1),
{
    assert forall|i: int| 0 <= i < levels.len() implies level_ready(
        p,
        #[trigger] levels[i],
        w1,
    ) by {
        assert(level_ready(p, levels[i], w));
    }
}

/// Whether a step came out of the lowering of a node, with the nodes that wait and the visits that
/// are left as they should be.
pub open spec fn moved(
    p: Plan,
    before: Seq<LevelView>,
    visits: nat,
    after: Seq<LevelView>,
    step: StepView,
    w: World,
) -> bool {
    &&& ready(p, after, step, w)
    &&& asks_well(step, w)
    &&& whole_outlook(p, after, step, w).visits() <= visits
    &&& if step is Visit {
        after.len() == before.len() + 1
    } else {
        after == before
    }
}

/// Whether the inputs of a node can be lowered from the `at`-th on, and then the node itself.
pub open spec fn inputs_ready(
    p: Plan,
    levels: Seq<LevelView>,
    node: Node,
    depth: nat,
    at: nat,
    w: World,
) -> bool {
    let whole = rest_outlook(
        p,
        w.exprs,
        levels,
        inputs_outlook(p, w.exprs, node, depth, at, w.cache.dom()),
    );
    &&& levels_ready(p, levels, w)
    &&& bounded(p, node, depth)
    &&& starts_well(p.nodes[node as int], p.csv_slice_disabled)
    &&& at <= inputs(p.nodes[node as int].ir).len()
    &&& !(whole is Stuck)
    &&& sound(w, 4 + 4 * (whole.visits() + levels.len()))
}

/// How many visits are left when the inputs of a node are lowered from the `at`-th on.
pub open spec fn inputs_visits(
    p: Plan,
    levels: Seq<LevelView>,
    node: Node,
    depth: nat,
    at: nat,
    w: World,
) -> nat {
    rest_outlook(
        p,
        w.exprs,
        levels,
        inputs_outlook(p, w.exprs, node, depth, at, w.cache.dom()),
    ).visits()
}

/// Lowers the next input of a node, or ends the node when all its inputs are lowered.
fn descend(
    node: Node,
    prep: Prep,
    keys: Vec<PhysNodeKey>,
    depth: Ghost<nat>,
    levels: &mut Vec<Level>,
    ir_arena: &Arena<IRNode>,
    csv_slice_disabled: bool,
    expr_arena: &mut Arena<AExpr>,
    phys_sm: &mut PhysNodes,
    cache_nodes: &mut CacheNodes,
    tape: &mut Ghost<Seq<Input>>,
) -> (step: Step)
    requires
        ({
            let p = plan(*ir_arena, csv_slice_disabled);
            let w = world(*old(expr_arena), *old(phys_sm), *old(cache_nodes));
            &&& inputs_ready(p, views(old(levels)@), node, depth@, keys@.len(), w)
            &&& prepared(p.nodes[node as int].ir, prep@)
            &&& forall|j: int| 0 <= j < keys@.len() ==> w.phys.contains_key(#[trigger] keys@[j])
        }),
    ensures
        keyed(final(tape)@, old(tape)@),
        grows(
            world(*old(expr_arena), *old(phys_sm), *old(cache_nodes)),
            world(*final(expr_arena), *final(phys_sm), *final(cache_nodes)),
        ),
        ({
            let p = plan(*ir_arena, csv_slice_disabled);
            let w = world(*old(expr_arena), *old(phys_sm), *old(cache_nodes));
            let w1 = world(*final(expr_arena), *final(phys_sm), *final(cache_nodes));
            &&& moved(
                p,
                views(old(levels)@),
                inputs_visits(p, views(old(levels)@), node, depth@, keys@.len(), w),
                views(final(levels)@),
                step@,
                w1,
            )
            &&& forall|t: Seq<Input>| #[trigger]
                starts(t, final(tape)@) ==> unwinds(
                    p,
                    views(old(levels)@),
                    lower_inputs(p, node, depth@, prep@, keys@, w, t, old(tape)@.len()),
                    t,
                ) == goes_on(p, views(final(levels)@), step@, w1, t, final(tape)@.len())
        }),
{
    let ghost p = plan(*ir_arena, csv_slice_disabled);
    let ghost w = world(*expr_arena, *phys_sm, *cache_nodes);
    let ghost before = views(levels@);
    let ghost at = keys@.len();
    let n = get_ir(ir_arena, node);
    match n.ir.input(keys.len()) {
        Some(input) => {
            let ghost level = LevelView { node, depth: depth@, prep: prep@, keys: keys@ };
            levels.push(Level { node, prep, keys, depth });
            assert(views(levels@) == before.push(level));
            assert(before.push(level).drop_last() == before);
            proof {
                lemma_rest_stuck(p, w.exprs, before);
            }
            let step = Step::Visit { node: input, depth: Ghost((depth@ - 1) as nat) };
            assert(levels_ready(p, views(levels@), w));
            assert(whole_outlook(p, views(levels@), step@, w) == rest_outlook(
                p,
                w.exprs,
                before,
                inputs_outlook(p, w.exprs, node, depth@, level.keys.len(), w.cache.dom()),
            ));
            assert forall|t: Seq<Input>| #[trigger] starts(t, tape@) implies unwinds(
                p,
                before,
                lower_inputs(p, node, depth@, level.prep, level.keys, w, t, tape@.len()),
                t,
            ) == goes_on(p, views(levels@), step@, w, t, tape@.len()) by {
                let run = lower(p, input, (depth@ - 1) as nat, w, t, tape@.len());
                assert(continues(p, step@, w, t, tape@.len()) == run);
            }
            step
        },
        None => {
            let step = end_node(
                node,
                n,
                prep,
                keys,
                csv_slice_disabled,
                expr_arena,
                phys_sm,
                cache_nodes,
                tape,
                Ghost(p),
            );
            let ghost w1 = world(*expr_arena, *phys_sm, *cache_nodes);
            proof {
                let first = inputs_outlook(p, w.exprs, node, depth@, at, w.cache.dom());
                assert(first == Outlook::Lowers { visits: 0, cached: w1.cache.dom() });
                lemma_rest_extends(p, w.exprs, w1.exprs, before, first);
                lemma_levels_grow(p, before, w, w1);
                lemma_rest_fails(p, w1.exprs, before);
            }
            step
        },
    }
}

/// Asks of the next expression of an `HStack` whether it is elementwise, or lowers the input when
/// all are.
pub(crate) fn test_stack(
    node: Node,
    at: usize,
    depth: Ghost<nat>,
    levels: &mut Vec<Level>,
    ir_arena: &Arena<IRNode>,
    csv_slice_disabled: bool,
    expr_arena: &mut Arena<AExpr>,
    phys_sm: &mut PhysNodes,
    cache_nodes: &mut CacheNodes,
    tape: &mut Ghost<Seq<Input>>,
) -> (step: Step)
    requires
        ({
            let p = plan(*ir_arena, csv_slice_disabled);
            let w = world(*old(expr_arena), *old(phys_sm), *old(cache_nodes));
            &&& inputs_ready(p, views(old(levels)@), node, depth@, 0, w)
            &&& p.nodes[node as int].ir is HStack
        }),
    ensures
        keyed(final(tape)@, old(tape)@),
        grows(
            world(*old(expr_arena), *old(phys_sm), *old(cache_nodes)),
            world(*final(expr_arena), *final(phys_sm), *final(cache_nodes)),
        ),
        ({
            let p = plan(*ir_arena, csv_slice_disabled);
            let w = world(*old(expr_arena), *old(phys_sm), *old(cache_nodes));
            let w1 = world(*final(expr_arena), *final(phys_sm), *final(cache_nodes));
            &&& moved(
                p,
                views(old(levels)@),
                inputs_visits(p, views(old(levels)@), node, depth@, 0, w),
                views(final(levels)@),
                step@,
                w1,
            )
            &&& forall|t: Seq<Input>| #[trigger]
                starts(t, final(tape)@) ==> unwinds(
                    p,
                    views(old(levels)@),
                    tests_stack(p, node, depth@, at as nat, w, t, old(tape)@.len()),
                    t,
                ) == goes_on(p, views(final(levels)@), step@, w1, t, final(tape)@.len())
        }),
{
    let ghost p = plan(*ir_arena, csv_slice_disabled);
    let ghost w = world(*expr_arena, *phys_sm, *cache_nodes);
    if let IR::HStack { exprs, .. } = &get_ir(ir_arena, node).ir {
        if at < exprs.len() {
            let request = Request::IsElementwise { node: exprs[at].node };
            let step = Step::Ask(request, Pending::StackTest { node, at, depth });
            assert(ready(p, views(levels@), step@, w));
            return step;
        }
    }
    descend(
        node,
        Prep::Elementwise(true),
        Vec::new(),
        depth,
        levels,
        ir_arena,
        csv_slice_disabled,
        expr_arena,
        phys_sm,
        cache_nodes,
        tape,
    )
}

/// Lowers the input of an `HStack` with an expression that is not elementwise.
pub(crate) fn give_up_stack(
    node: Node,
    depth: Ghost<nat>,
    levels: &mut Vec<Level>,
    ir_arena: &Arena<IRNode>,
    csv_slice_disabled: bool,
    expr_arena: &mut Arena<AExpr>,
    phys_sm: &mut PhysNodes,
    cache_nodes: &mut CacheNodes,
    tape: &mut Ghost<Seq<Input>>,
) -> (step: Step)
    requires
        ({
            let p = plan(*ir_arena, csv_slice_disabled);
            let w = world(*old(expr_arena), *old(phys_sm), *old(cache_nodes));
            &&& inputs_ready(p, views(old(levels)@), node, depth@, 0, w)
            &&& p.nodes[node as int].ir matches IR::HStack { exprs, .. } && named(exprs@)
        }),
    ensures
        keyed(final(tape)@, old(tape)@),
        grows(
            world(*old(expr_arena), *old(phys_sm), *old(cache_nodes)),
            world(*final(expr_arena), *final(phys_sm), *final(cache_nodes)),
        ),
        ({
            let p = plan(*ir_arena, csv_slice_disabled);
            let w = world(*old(expr_arena), *old(phys_sm), *old(cache_nodes));
            let w1 = world(*final(expr_arena), *final(phys_sm), *final(cache_nodes));
            &&& moved(
                p,
                views(old(levels)@),
                inputs_visits(p, views(old(levels)@), node, depth@, 0, w),
                views(final(levels)@),
                step@,
                w1,
            )
            &&& forall|t: Seq<Input>| #[trigger]
                starts(t, final(tape)@) ==> unwinds(
                    p,
                    views(old(levels)@),
                    lower_inputs(
                        p,
                        node,
                        depth@,
                        PrepView::Elementwise(false),
                        seq![],
                        w,
                        t,
                        old(tape)@.len(),
                    ),
                    t,
                ) == goes_on(p, views(final(levels)@), step@, w1, t, final(tape)@.len())
        }),
{
    descend(
        node,
        Prep::Elementwise(false),
        Vec::new(),
        depth,
        levels,
        ir_arena,
        csv_slice_disabled,
        expr_arena,
        phys_sm,
        cache_nodes,
        tape,
    )
}

/// Asks of what the next aggregation of a grouping reads whether it is elementwise, or lowers the
/// input when all is collected.
pub(crate) fn test_group(
    node: Node,
    at: usize,
    needed: Vec<ExprIR>,
    depth: Ghost<nat>,
    levels: &mut Vec<Level>,
    ir_arena: &Arena<IRNode>,
    csv_slice_disabled: bool,
    expr_arena: &mut Arena<AExpr>,
    phys_sm: &mut PhysNodes,
    cache_nodes: &mut CacheNodes,
    tape: &mut Ghost<Seq<Input>>,
) -> (step: Step)
    requires
        ({
            let p = plan(*ir_arena, csv_slice_disabled);
            let w = world(*old(expr_arena), *old(phys_sm), *old(cache_nodes));
            &&& inputs_ready(p, views(old(levels)@), node, depth@, 0, w)
            &&& p.nodes[node as int].ir matches IR::GroupBy { keys, aggs, .. }
                && keys@.len() > 0 && aggs_supported(aggs@, at as nat, w.exprs)
        }),
    ensures
        keyed(final(tape)@, old(tape)@),
        grows(
            world(*old(expr_arena), *old(phys_sm), *old(cache_nodes)),
            world(*final(expr_arena), *final(phys_sm), *final(cache_nodes)),
        ),
        ({
            let p = plan(*ir_arena, csv_slice_disabled);
            let w = world(*old(expr_arena), *old(phys_sm), *old(cache_nodes));
            let w1 = world(*final(expr_arena), *final(phys_sm), *final(cache_nodes));
            &&& moved(
                p,
                views(old(levels)@),
                inputs_visits(p, views(old(levels)@), node, depth@, 0, w),
                views(final(levels)@),
                step@,
                w1,
            )
            &&& forall|t: Seq<Input>| #[trigger]
                starts(t, final(tape)@) ==> unwinds(
                    p,
                    views(old(levels)@),
                    tests_group(p, node, depth@, at as nat, needed@, w, t, old(tape)@.len()),
                    t,
                ) == goes_on(p, views(final(levels)@), step@, w1, t, final(tape)@.len())
        }),
{
    let ghost p = plan(*ir_arena, csv_slice_disabled);
    let ghost w = world(*expr_arena, *phys_sm, *cache_nodes);
    let mut collected = needed;
    if let IR::GroupBy { keys, aggs, .. } = &get_ir(ir_arena, node).ir {
        let mut next = at;
        while next < aggs.len()
            invariant
                p == plan(*ir_arena, csv_slice_disabled),
                w == world(*expr_arena, *phys_sm, *cache_nodes),
                w == world(*old(expr_arena), *old(phys_sm), *old(cache_nodes)),
                *tape == *old(tape),
                *levels == *old(levels),
                inputs_ready(p, views(levels@), node, depth@, 0, w),
                keys@.len() > 0,
                p.nodes[node as int].ir is GroupBy,
                p.nodes[node as int].ir->GroupBy_keys == *keys,
                p.nodes[node as int].ir->GroupBy_aggs == *aggs,
                aggs_supported(aggs@, next as nat, w.exprs),
                forall|t: Seq<Input>, i: nat| #[trigger]
                    tests_group(p, node, depth@, at as nat, needed@, w, t, i) == tests_group(
                        p,
                        node,
                        depth@,
                        next as nat,
                        collected@,
                        w,
                        t,
                        i,
                    ),
            decreases aggs.len() - next,
        {
            assert(agg_supported(aggs@[next as int], w.exprs));
            match &get_expr(expr_arena, aggs[next].node).kind {
                AExprKind::Agg(agg) => {
                    if let Some(input) = agg.get_input() {
                        let request = Request::IsElementwise { node: input };
                        let step = Step::Ask(
                            request,
                            Pending::GroupTest { node, at: next, needed: collected, input, depth },
                        );
                        assert(ready(p, views(levels@), step@, w));
                        return step;
                    }
                    assert(false);
                },
                _ => {},
            }
            collected.push(keys[0].clone());
            next = next + 1;
        }
    }
    descend(
        node,
        Prep::Group(collected),
        Vec::new(),
        depth,
        levels,
        ir_arena,
        csv_slice_disabled,
        expr_arena,
        phys_sm,
        cache_nodes,
        tape,
    )
}

/// Starts the lowering of a node.
fn visit(
    node: Node,
    depth: Ghost<nat>,
    levels: &mut Vec<Level>,
    ir_arena: &Arena<IRNode>,
    csv_slice_disabled: bool,
    expr_arena: &mut Arena<AExpr>,
    phys_sm: &mut PhysNodes,
    cache_nodes: &mut CacheNodes,
    tape: &mut Ghost<Seq<Input>>,
) -> (step: Step)
    requires
        ready(
            plan(*ir_arena, csv_slice_disabled),
            views(old(levels)@),
            StepView::Visit { node, depth: depth@ },
            world(*old(expr_arena), *old(phys_sm), *old(cache_nodes)),
        ),
    ensures
        keyed(final(tape)@, old(tape)@),
        grows(
            world(*old(expr_arena), *old(phys_sm), *old(cache_nodes)),
            world(*final(expr_arena), *final(phys_sm), *final(cache_nodes)),
        ),
        whole_outlook(
            plan(*ir_arena, csv_slice_disabled),
            views(old(levels)@),
            StepView::Visit { node, depth: depth@ },
            world(*old(expr_arena), *old(phys_sm), *old(cache_nodes)),
        ).visits() > 0,
        ({
            let p = plan(*ir_arena, csv_slice_disabled);
            let w = world(*old(expr_arena), *old(phys_sm), *old(cache_nodes));
            let w1 = world(*final(expr_arena), *final(phys_sm), *final(cache_nodes));
            &&& moved(
                p,
                views(old(levels)@),
                (whole_outlook(
                    p,
                    views(old(levels)@),
                    StepView::Visit { node, depth: depth@ },
                    w,
                ).visits() - 1) as nat,
                views(final(levels)@),
                step@,
                w1,
            )
            &&& forall|t: Seq<Input>| #[trigger]
                starts(t, final(tape)@) ==> unwinds(
                    p,
                    views(old(levels)@),
                    lower(p, node, depth@, w, t, old(tape)@.len()),
                    t,
                ) == goes_on(p, views(final(levels)@), step@, w1, t, final(tape)@.len())
        }),
{
    let ghost p = plan(*ir_arena, csv_slice_disabled);
    let ghost w = world(*expr_arena, *phys_sm, *cache_nodes);
    let ghost before = views(levels@);
    proof {
        let first = inputs_outlook(p, w.exprs, node, depth@, 0, w.cache.dom());
        lemma_rest_stuck(p, w.exprs, before);
        lemma_rest_fails(p, w.exprs, before);
        lemma_rest_after(p, w.exprs, before, first, 1);
        lemma_rest_after(
            p,
            w.exprs,
            before,
            Outlook::Lowers { visits: 0, cached: w.cache.dom() },
            1,
        );
    }
    match &get_ir(ir_arena, node).ir {
        IR::HStack { .. } => {
            return test_stack(
                node,
                0,
                depth,
                levels,
                ir_arena,
                csv_slice_disabled,
                expr_arena,
                phys_sm,
                cache_nodes,
                tape,
            );
        },
        IR::GroupBy { keys, .. } => {
            if keys.len() == 0 {
                return Step::Fail(LowerError::NoGroupByKeys);
            }
            return test_group(
                node,
                0,
                clone_exprs(keys),
                depth,
                levels,
                ir_arena,
                csv_slice_disabled,
                expr_arena,
                phys_sm,
                cache_nodes,
                tape,
            );
        },
        IR::Cache { id, .. } => {
            if let Some(key) = cache_nodes.get(*id) {
                return Step::Return(key);
            }
        },
        _ => {},
    }
    descend(
        node,
        Prep::Plain,
        Vec::new(),
        depth,
        levels,
        ir_arena,
        csv_slice_disabled,
        expr_arena,
        phys_sm,
        cache_nodes,
        tape,
    )
}

/// Hands a lowered input to the last of the nodes that wait.
fn hand_up(
    key: PhysNodeKey,
    level: Level,
    levels: &mut Vec<Level>,
    ir_arena: &Arena<IRNode>,
    csv_slice_disabled: bool,
    expr_arena: &mut Arena<AExpr>,
    phys_sm: &mut PhysNodes,
    cache_nodes: &mut CacheNodes,
    tape: &mut Ghost<Seq<Input>>,
) -> (step: Step)
    requires
        ready(
            plan(*ir_arena, csv_slice_disabled),
            views(old(levels)@).push(level@),
            StepView::Return(key),
            world(*old(expr_arena), *old(phys_sm), *old(cache_nodes)),
        ),
    ensures
        keyed(final(tape)@, old(tape)@),
        grows(
            world(*old(expr_arena), *old(phys_sm), *old(cache_nodes)),
            world(*final(expr_arena), *final(phys_sm), *final(cache_nodes)),
        ),
        ({
            let p = plan(*ir_arena, csv_slice_disabled);
            let w = world(*old(expr_arena), *old(phys_sm), *old(cache_nodes));
            let w1 = world(*final(expr_arena), *final(phys_sm), *final(cache_nodes));
            let waiting = views(old(levels)@).push(level@);
            &&& moved(
                p,
                views(old(levels)@),
                whole_outlook(p, waiting, StepView::Return(key), w).visits(),
                views(final(levels)@),
                step@,
                w1,
            )
            &&& forall|t: Seq<Input>| #[trigger]
                starts(t, final(tape)@) ==> goes_on(
                    p,
                    waiting,
                    StepView::Return(key),
                    w,
                    t,
                    old(tape)@.len(),
                ) == goes_on(p, views(final(levels)@), step@, w1, t, final(tape)@.len())
        }),
{
    let ghost p = plan(*ir_arena, csv_slice_disabled);
    let ghost w = world(*expr_arena, *phys_sm, *cache_nodes);
    let ghost before = views(levels@);
    let ghost waiting = before.push(level@);
    let mut keys = level.keys;
    keys.push(key);
    proof {
        assert(waiting.drop_last() == before);
        assert(level_ready(p, waiting.last(), w));
        assert forall|i: int| 0 <= i < before.len() implies level_ready(
            p,
            #[trigger] before[i],
            w,
        ) by {
            assert(waiting[i] == before[i]);
        }
        let next = inputs_outlook(p, w.exprs, level.node, level.depth@, keys@.len(), w.cache.dom());
        assert(next.after(0) == next);
    }
    descend(
        level.node,
        level.prep,
        keys,
        level.depth,
        levels,
        ir_arena,
        csv_slice_disabled,
        expr_arena,
        phys_sm,
        cache_nodes,
        tape,
    )
}

/// Goes on step by step until the service has to be asked or the plan is done with.
pub(crate) fn run(
    step: Step,
    levels: &mut Vec<Level>,
    ir_arena: &Arena<IRNode>,
    csv_slice_disabled: bool,
    expr_arena: &mut Arena<AExpr>,
    phys_sm: &mut PhysNodes,
    cache_nodes: &mut CacheNodes,
    tape: &mut Ghost<Seq<Input>>,
) -> (last: Step)
    requires
        ready(
            plan(*ir_arena, csv_slice_disabled),
            views(old(levels)@),
            step@,
            world(*old(expr_arena), *old(phys_sm), *old(cache_nodes)),
        ),
        asks_well(step@, world(*old(expr_arena), *old(phys_sm), *old(cache_nodes))),
    ensures
        keyed(final(tape)@, old(tape)@),
        grows(
            world(*old(expr_arena), *old(phys_sm), *old(cache_nodes)),
            world(*final(expr_arena), *final(phys_sm), *final(cache_nodes)),
        ),
        !(last is Visit),
        last is Return ==> final(levels)@.len() == 0,
        ({
            let p = plan(*ir_arena, csv_slice_disabled);
            let w = world(*old(expr_arena), *old(phys_sm), *old(cache_nodes));
            let w1 = world(*final(expr_arena), *final(phys_sm), *final(cache_nodes));
            &&& ready(p, views(final(levels)@), last@, w1)
            &&& asks_well(last@, w1)
            &&& forall|t: Seq<Input>| #[trigger]
                starts(t, final(tape)@) ==> goes_on(
                    p,
                    views(old(levels)@),
                    step@,
                    w,
                    t,
                    old(tape)@.len(),
                ) == goes_on(p, views(final(levels)@), last@, w1, t, final(tape)@.len())
        }),
{
    let ghost p = plan(*ir_arena, csv_slice_disabled);
    let mut now = step;
    loop
        invariant
            p == plan(*ir_arena, csv_slice_disabled),
            keyed(tape@, old(tape)@),
            grows(
                world(*old(expr_arena), *old(phys_sm), *old(cache_nodes)),
                world(*expr_arena, *phys_sm, *cache_nodes),
            ),
            asks_well(now@, world(*expr_arena, *phys_sm, *cache_nodes)),
            ready(p, views(levels@), now@, world(*expr_arena, *phys_sm, *cache_nodes)),
            forall|t: Seq<Input>| #[trigger]
                starts(t, tape@) ==> goes_on(
                    p,
                    views(old(levels)@),
                    step@,
                    world(*old(expr_arena), *old(phys_sm), *old(cache_nodes)),
                    t,
                    old(tape)@.len(),
                ) == goes_on(
                    p,
                    views(levels@),
                    now@,
                    world(*expr_arena, *phys_sm, *cache_nodes),
                    t,
                    tape@.len(),
                ),
        decreases
                whole_outlook(
                    p,
                    views(levels@),
                    now@,
                    world(*expr_arena, *phys_sm, *cache_nodes),
                ).visits(),
                levels@.len(),
                if now is Return {
                    1nat
                } else {
                    0nat
                },
    {
        let ghost tape0 = tape@;
        let ghost levels0 = views(levels@);
        let ghost w0 = world(*expr_arena, *phys_sm, *cache_nodes);
        match now {
            Step::Visit { node, depth } => {
                now = visit(
                    node,
                    depth,
                    levels,
                    ir_arena,
                    csv_slice_disabled,
                    expr_arena,
                    phys_sm,
                    cache_nodes,
                    tape,
                );
            },
            Step::Return(key) => match levels.pop() {
                Some(level) => {
                    assert(levels0 == views(levels@).push(level@));
                    now = hand_up(
                        key,
                        level,
                        levels,
                        ir_arena,
                        csv_slice_disabled,
                        expr_arena,
                        phys_sm,
                        cache_nodes,
                        tape,
                    );
                },
                None => {
                    return Step::Return(key);
                },
            },
            last => {
                return last;
            },
        }
        assert(forall|t: Seq<Input>| #[trigger] starts(t, tape@) ==> starts(t, tape0));
        proof {
            lemma_grows(
                world(*old(expr_arena), *old(phys_sm), *old(cache_nodes)),
                w0,
                world(*expr_arena, *phys_sm, *cache_nodes),
            );
        }
    }
}

} // verus!
