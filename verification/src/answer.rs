//! What lowering does with the answers of the service.

use crate::finish::{belongs, ends, grows, owed_to, put, slice_if, sound, waits};
use crate::ir::{AExpr, AExprKind, ExprIR, IRNode, IR};
use crate::model::{after_group, after_right, aggregations, renumbered, Input, LowerError, Plan,
    ReplyView, World};
use crate::phys::{PhysNode, PhysNodeKey, PhysNodeKind, PhysNodes};
use crate::pieces::build_filter_node;
use crate::protocol::{Reply, Request};
use crate::schema::schema_fields;
use crate::step::{continues, resumes, starts, Pending, PendingView, Step};
use crate::store::{add_expr, count_exprs, expr_items, get_expr, get_ir, ir_items};
use crate::support::{named, slice_supported};
use crate::survey::{all_named, can_slice};
use polars_utils::arena::Arena;
use vstd::prelude::*;

verus! {

/// Whether an answer can be used for what it is wanted for. A grouping goes on only when what it
/// reads is elementwise; columns are selected anew only under names; the nodes that an answer names
/// are in the plan; and of lowered expressions there are at least as many as are used.
pub open spec fn fits(p: Plan, pending: PendingView, reply: ReplyView, w: World) -> bool {
    match (pending, reply) {
        (PendingView::StackTest { node, .. }, ReplyView::Elementwise(elementwise)) => {
            elementwise || named(p.nodes[node as int].ir->HStack_exprs@)
        },
        (PendingView::GroupTest { .. }, ReplyView::Elementwise(elementwise)) => elementwise,
        (PendingView::Filter, ReplyView::Lowered { input, exprs }) => {
            w.phys.contains_key(input) && exprs.len() > 0
        },
        (PendingView::Select, ReplyView::Selected(key)) => w.phys.contains_key(key),
        (PendingView::GroupExprs { node }, ReplyView::Lowered { input, exprs }) => {
            p.nodes[node as int].ir matches IR::GroupBy { keys, aggs, options, .. } && {
                &&& w.phys.contains_key(input)
                &&& keys@.len() <= exprs.len()
                &&& slice_supported(options.slice)
                &&& aggregable(aggs@, exprs.skip(keys@.len() as int), w.exprs)
            }
        },
        (PendingView::JoinLeft { node, .. }, ReplyView::Lowered { input, exprs }) => {
            p.nodes[node as int].ir matches IR::Join { left_on, .. } && {
                &&& w.phys.contains_key(input)
                &&& left_on@.len() <= exprs.len()
            }
        },
        (PendingView::JoinRight { node, .. }, ReplyView::Lowered { input, exprs }) => {
            p.nodes[node as int].ir matches IR::Join { right_on, args, .. } && {
                &&& w.phys.contains_key(input)
                &&& right_on@.len() <= exprs.len()
                &&& slice_supported(args.slice)
            }
        },
        (PendingView::StackTest { .. }, ReplyView::Failed(_)) => false,
        (PendingView::GroupTest { .. }, ReplyView::Failed(_)) => false,
        (_, ReplyView::Failed(_)) => true,
        _ => false,
    }
}

/// Whether the arena holds the aggregations, and what each of them is to read.
pub open spec fn aggregable(aggs: Seq<ExprIR>, read: Seq<ExprIR>, exprs: Seq<AExpr>) -> bool {
    forall|j: int|
        0 <= j < aggs.len() && j < read.len() ==> (#[trigger] aggs[j]).node < exprs.len()
            && read[j].node < exprs.len()
}

/// Tells whether the arena holds the aggregations, and what each of them is to read, with the first
/// `skip` of the expressions left out.
fn can_read(
    aggs: &Vec<ExprIR>,
    exprs: &Vec<ExprIR>,
    skip: usize,
    expr_arena: &Arena<AExpr>,
) -> (can: bool)
    requires
        skip <= exprs@.len(),
    ensures
        can == aggregable(aggs@, exprs@.skip(skip as int), expr_items(*expr_arena)),
{
    let count = count_exprs(expr_arena);
    let ghost read = exprs@.skip(skip as int);
    for j in 0..aggs.len()
        invariant
            skip <= exprs@.len(),
            read == exprs@.skip(skip as int),
            count == expr_items(*expr_arena).len(),
            forall|i: int|
                0 <= i < j && i < read.len() ==> (#[trigger] aggs@[i]).node < count
                    && read[i].node < count,
    {
        if j >= exprs.len() - skip {
            return true;
        }
        if aggs[j].node >= count || exprs[skip + j].node >= count {
            assert(read[j as int] == exprs@[skip + j]);
            assert(!aggregable(aggs@, read, expr_items(*expr_arena)));
            return false;
        }
    }
    true
}

/// Tells whether an answer can be used for what it is wanted for.
pub(crate) fn is_fit(
    pending: &Pending,
    reply: &Reply,
    ir_arena: &Arena<IRNode>,
    expr_arena: &Arena<AExpr>,
    phys_sm: &PhysNodes,
    Ghost(p): Ghost<Plan>,
    Ghost(w): Ghost<World>,
) -> (fit: bool)
    requires
        p.nodes == ir_items(*ir_arena),
        w.exprs == expr_items(*expr_arena),
        w.phys == phys_sm@,
        belongs(p, pending@),
    ensures
        fit == fits(p, pending@, reply@, w),
{
    match (pending, reply) {
        (Pending::StackTest { node, .. }, Reply::Elementwise(elementwise)) => *elementwise
            || match &get_ir(ir_arena, *node).ir {
            IR::HStack { exprs, .. } => all_named(exprs),
            _ => false,
        },
        (Pending::GroupTest { .. }, Reply::Elementwise(elementwise)) => *elementwise,
        (Pending::Filter, Reply::Lowered { input, exprs }) => {
            phys_sm.contains_key(*input) && exprs.len() > 0
        },
        (Pending::Select, Reply::Selected(key)) => phys_sm.contains_key(*key),
        (Pending::GroupExprs { node }, Reply::Lowered { input, exprs }) => {
            match &get_ir(ir_arena, *node).ir {
                IR::GroupBy { keys, aggs, options, .. } => {
                    phys_sm.contains_key(*input) && keys.len() <= exprs.len() && can_slice(
                        options.slice,
                    ) && can_read(aggs, exprs, keys.len(), expr_arena)
                },
                _ => false,
            }
        },
        (Pending::JoinLeft { node, .. }, Reply::Lowered { input, exprs }) => {
            match &get_ir(ir_arena, *node).ir {
                IR::Join { left_on, .. } => {
                    phys_sm.contains_key(*input) && left_on.len() <= exprs.len()
                },
                _ => false,
            }
        },
        (Pending::JoinRight { node, .. }, Reply::Lowered { input, exprs }) => {
            match &get_ir(ir_arena, *node).ir {
                IR::Join { right_on, args, .. } => {
                    phys_sm.contains_key(*input) && right_on.len() <= exprs.len() && can_slice(
                        args.slice,
                    )
                },
                _ => false,
            }
        },
        (Pending::StackTest { .. }, Reply::Failed(_)) => false,
        (Pending::GroupTest { .. }, Reply::Failed(_)) => false,
        (_, Reply::Failed(_)) => true,
        _ => false,
    }
}

/// The aggregations of a grouping over what the service lowered, as new nodes of the arena.
fn add_aggregations(
    aggs: &Vec<ExprIR>,
    read: &Vec<ExprIR>,
    expr_arena: &mut Arena<AExpr>,
) -> (trans_aggs: Vec<ExprIR>)
    requires
        aggregable(aggs@, read@, expr_items(*old(expr_arena))),
    ensures
        expr_items(*final(expr_arena)) == expr_items(*old(expr_arena)) + aggregations(
            aggs@,
            read@,
            expr_items(*old(expr_arena)),
        ),
        trans_aggs@ == renumbered(
            aggs@,
            aggregations(aggs@, read@, expr_items(*old(expr_arena))).len(),
            expr_items(*old(expr_arena)).len(),
        ),
{
    let ghost before = expr_items(*expr_arena);
    let ghost added = aggregations(aggs@, read@, before);
    let mut trans_aggs: Vec<ExprIR> = Vec::new();
    let count = if aggs.len() <= read.len() {
        aggs.len()
    } else {
        read.len()
    };
    assert(before == before + added.take(0));
    for j in 0..count
        invariant
            before == expr_items(*old(expr_arena)),
            added == aggregations(aggs@, read@, before),
            count == added.len(),
            count <= aggs@.len(),
            count <= read@.len(),
            aggregable(aggs@, read@, before),
            expr_items(*expr_arena) == before + added.take(j as int),
            trans_aggs@ == renumbered(aggs@, j as nat, before.len()),
    {
        let node = read[j].node;
        assert(aggs@[j as int].node < before.len());
        assert(read@[j as int].node < before.len());
        let old_expr = get_expr(expr_arena, aggs[j].node).clone();
        let new_expr = match old_expr.kind {
            AExprKind::Agg(agg) => AExpr {
                kind: AExprKind::Agg(agg.with_input(node)),
                output_name: get_expr(expr_arena, node).output_name.clone(),
            },
            _ => old_expr,
        };
        assert(new_expr == added[j as int]);
        let new_node = add_expr(expr_arena, new_expr);
        trans_aggs.push(ExprIR { node: new_node, output_name: aggs[j].output_name.clone() });
        assert(added.take(j + 1) == added.take(j as int).push(added[j as int]));
        assert(trans_aggs@ == renumbered(aggs@, (j + 1) as nat, before.len()));
    }
    assert(added.take(count as int) == added);
    trans_aggs
}

/// Goes on with a grouping whose expressions are lowered.
fn group(
    n: &IRNode,
    input: PhysNodeKey,
    exprs: Vec<ExprIR>,
    expr_arena: &mut Arena<AExpr>,
    phys_sm: &mut PhysNodes,
    tape: &mut Ghost<Seq<Input>>,
    Ghost(p): Ghost<Plan>,
    Ghost(w): Ghost<World>,
) -> (step: Step)
    requires
        n.ir matches IR::GroupBy { keys, aggs, options, .. } && {
            &&& slice_supported(options.slice)
            &&& keys@.len() <= exprs@.len()
            &&& w.phys.contains_key(input)
            &&& aggregable(aggs@, exprs@.skip(keys@.len() as int), w.exprs)
        },
        w.exprs == expr_items(*old(expr_arena)),
        w.phys == old(phys_sm)@,
        sound(w, 2),
    ensures
        ends(p, step@, w, *final(expr_arena), *final(phys_sm), old(tape)@, final(tape)@, 2),
        forall|t: Seq<Input>| #[trigger]
            starts(t, final(tape)@) ==> after_group(
                schema_fields(*n.schema),
                n.ir->GroupBy_keys@,
                n.ir->GroupBy_aggs@,
                n.ir->GroupBy_options.slice,
                ReplyView::Lowered { input, exprs: exprs@ },
                w,
                t,
                old(tape)@.len(),
            ) == continues(
                p,
                step@,
                World { exprs: expr_items(*final(expr_arena)), phys: final(phys_sm)@, ..w },
                t,
                final(tape)@.len(),
            ),
{
    let ghost all = exprs@;
    match &n.ir {
        IR::GroupBy { keys, aggs, options, .. } => {
            let mut key = exprs;
            let read = key.split_off(keys.len());
            assert(key@ == all.take(keys@.len() as int));
            assert(read@ == all.skip(keys@.len() as int));
            let trans_aggs = add_aggregations(aggs, &read, expr_arena);
            let kind = PhysNodeKind::GroupBy { input, key, aggs: trans_aggs };
            let node = put(phys_sm, PhysNode::new(n.schema.clone(), kind), tape);
            let ghost w1 = World { exprs: expr_items(*expr_arena), phys: phys_sm@, ..w };
            let ghost tape1 = tape@;
            assert(grows(w, w1));
            let node = slice_if(node, options.slice, phys_sm, tape, Ghost(w1));
            let step = Step::Return(node);
            assert(forall|t: Seq<Input>| #[trigger] starts(t, tape@) ==> starts(t, tape1));
            step
        },
        _ => {
            assert(false);
            Step::Return(input)
        },
    }
}

/// Goes on with a join by equal keys when those of the right side are lowered.
fn join(
    n: &IRNode,
    left: PhysNodeKey,
    left_on: Vec<ExprIR>,
    right: PhysNodeKey,
    exprs: Vec<ExprIR>,
    expr_arena: &Arena<AExpr>,
    phys_sm: &mut PhysNodes,
    tape: &mut Ghost<Seq<Input>>,
    Ghost(p): Ghost<Plan>,
    Ghost(w): Ghost<World>,
) -> (step: Step)
    requires
        n.ir matches IR::Join { right_on, args, .. } && {
            &&& slice_supported(args.slice)
            &&& right_on@.len() <= exprs@.len()
        },
        w.phys.contains_key(left),
        w.phys.contains_key(right),
        w.exprs == expr_items(*expr_arena),
        w.phys == old(phys_sm)@,
        sound(w, 2),
    ensures
        ends(p, step@, w, *expr_arena, *final(phys_sm), old(tape)@, final(tape)@, 2),
        forall|t: Seq<Input>| #[trigger]
            starts(t, final(tape)@) ==> after_right(
                schema_fields(*n.schema),
                n.ir->Join_args,
                left,
                left_on@,
                n.ir->Join_right_on@.len(),
                ReplyView::Lowered { input: right, exprs: exprs@ },
                w,
                t,
                old(tape)@.len(),
            ) == continues(
                p,
                step@,
                World { exprs: expr_items(*expr_arena), phys: final(phys_sm)@, ..w },
                t,
                final(tape)@.len(),
            ),
{
    let ghost all = exprs@;
    match &n.ir {
        IR::Join { right_on, args, .. } => {
            let mut trans_right_on = exprs;
            trans_right_on.truncate(right_on.len());
            assert(trans_right_on@ == all.take(right_on@.len() as int));
            let kind = PhysNodeKind::EquiJoin {
                input_left: left,
                input_right: right,
                left_on,
                right_on: trans_right_on,
                args: *args,
            };
            let node = put(phys_sm, PhysNode::new(n.schema.clone(), kind), tape);
            let ghost w1 = World { phys: phys_sm@, ..w };
            let ghost tape1 = tape@;
            assert(grows(w, w1));
            let node = slice_if(node, args.slice, phys_sm, tape, Ghost(w1));
            let step = Step::Return(node);
            assert(forall|t: Seq<Input>| #[trigger] starts(t, tape@) ==> starts(t, tape1));
            step
        },
        _ => {
            assert(false);
            Step::Return(left)
        },
    }
}

/// Goes on with an answer of the service, when it was not wanted for a test.
pub(crate) fn take_answer(
    pending: Pending,
    reply: Reply,
    ir_arena: &Arena<IRNode>,
    expr_arena: &mut Arena<AExpr>,
    phys_sm: &mut PhysNodes,
    tape: &mut Ghost<Seq<Input>>,
    Ghost(p): Ghost<Plan>,
    Ghost(w): Ghost<World>,
) -> (step: Step)
    requires
        !(pending is StackTest),
        !(pending is GroupTest),
        p.nodes == ir_items(*ir_arena),
        w.exprs == expr_items(*old(expr_arena)),
        w.phys == old(phys_sm)@,
        waits(p, pending@, w),
        fits(p, pending@, reply@, w),
        sound(w, owed_to(pending@)),
    ensures
        ends(
            p,
            step@,
            w,
            *final(expr_arena),
            *final(phys_sm),
            old(tape)@,
            final(tape)@,
            owed_to(pending@),
        ),
        forall|t: Seq<Input>| #[trigger]
            starts(t, final(tape)@) ==> resumes(
                p,
                pending@,
                reply@,
                w,
                t,
                old(tape)@.len(),
            ) == continues(
                p,
                step@,
                World { exprs: expr_items(*final(expr_arena)), phys: final(phys_sm)@, ..w },
                t,
                final(tape)@.len(),
            ),
{
    match reply {
        Reply::Failed(error) => Step::Fail(LowerError::Polars(error)),
        Reply::Selected(key) => Step::Return(key),
        Reply::Lowered { input, exprs } => match pending {
            Pending::Filter => {
                let (key, selectors) = build_filter_node(input, exprs, phys_sm);
                *tape = Ghost(tape@.push(Input::Key(key)));
                Step::Ask(Request::BuildSelect { input: key, selectors }, Pending::Select)
            },
            Pending::GroupExprs { node } => {
                let n = get_ir(ir_arena, node);
                group(n, input, exprs, expr_arena, phys_sm, tape, Ghost(p), Ghost(w))
            },
            Pending::JoinLeft { node, right, right_exprs } => {
                let ghost all = exprs@;
                let mut left_on = exprs;
                if let IR::Join { left_on: keys, .. } = &get_ir(ir_arena, node).ir {
                    left_on.truncate(keys.len());
                    assert(left_on@ == all.take(keys@.len() as int));
                }
                Step::Ask(
                    Request::LowerExprs { input: right, exprs: right_exprs },
                    Pending::JoinRight { node, left: input, left_on },
                )
            },
            Pending::JoinRight { node, left, left_on } => {
                let n = get_ir(ir_arena, node);
                join(n, left, left_on, input, exprs, expr_arena, phys_sm, tape, Ghost(p), Ghost(w))
            },
            _ => {
                assert(false);
                Step::Return(input)
            },
        },
        Reply::Elementwise(_) => {
            assert(false);
            Step::Fail(LowerError::NoGroupByKeys)
        },
    }
}

} // verus!
