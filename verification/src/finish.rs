//! The end of the lowering of a node, once its inputs are lowered.

use crate::ir::{clone_exprs, inputs, AExpr, Carried, ExprIR, FileScan, FileScanOptions, FunctionIR,
    IRNode, JoinArgs, Node, RowIndex, Scan, SinkType, IR};
use crate::model::{filters, finish, finish_frame, finish_join, finish_scan, reader, reads,
    rewrites_all, streams, then_slices, Input, Plan, PrepView, RequestView, Run, World};
use crate::phys::{complete, has_inputs, lemma_complete, Frame, PhysNode, PhysNodeKey, PhysNodeKind,
    PhysNodes, MAX_PHYS_NODES};
use crate::pieces::{add_columns, build_slice_node, filter_exprs, stack_exprs};
use crate::protocol::Request;
use crate::schema::{clone_schema, names_agree, schema_fields, schema_names, shift_remove_index};
use crate::step::{continues, keyed, starts, world, Pending, PendingView, Prep, Step, StepView};
use crate::store::{expr_items, CacheNodes};
use crate::support::{bounded, ends_well, named, scan_supported, slice_supported, starts_well};
use polars_core::schema::Schema;
use polars_utils::arena::Arena;
use std::sync::Arc;
use vstd::prelude::*;

verus! {

/// Whether there is room for `count` more nodes, and all lowered parts are nodes of the plan.
pub open spec fn sound(w: World, count: nat) -> bool {
    &&& w.phys.dom().finite()
    &&& w.phys.dom().len() + count <= MAX_PHYS_NODES
    &&& forall|id: usize|
        w.cache.contains_key(id) ==> w.phys.contains_key(#[trigger] w.cache[id])
}

/// Whether one world holds all that another one holds, with new expressions behind the others and
/// with no node that reads something which is not there.
pub open spec fn grows(before: World, after: World) -> bool {
    &&& before.exprs.len() <= after.exprs.len()
    &&& forall|i: int|
        0 <= i < before.exprs.len() ==> #[trigger] after.exprs[i] == before.exprs[i]
    &&& forall|key: PhysNodeKey| #[trigger]
        before.phys.contains_key(key) ==> after.phys.contains_key(key) && after.phys[key]
            == before.phys[key]
    &&& forall|id: usize| #[trigger]
        before.cache.contains_key(id) ==> after.cache.contains_key(id)
    &&& complete(before.phys) ==> complete(after.phys)
}

pub proof fn lemma_grows(a: World, b: World, c: World)
    requires
        grows(a, b),
        grows(b, c),
    ensures
        grows(a, c),
{
    assert forall|i: int| 0 <= i < a.exprs.len() implies #[trigger] c.exprs[i] == a.exprs[i] by {
        assert(b.exprs[i] == a.exprs[i]);
    }
    assert forall|key: PhysNodeKey| #[trigger] a.phys.contains_key(key) implies c.phys.contains_key(
        key,
    ) && c.phys[key] == a.phys[key] by {
        assert(b.phys.contains_key(key));
    }
    assert forall|id: usize| #[trigger] a.cache.contains_key(id) implies c.cache.contains_key(
        id,
    ) by {
        assert(b.cache.contains_key(id));
    }
}

/// Adds a node to the physical plan.
pub(crate) fn put(
    phys_sm: &mut PhysNodes,
    node: PhysNode,
    tape: &mut Ghost<Seq<Input>>,
) -> (key: PhysNodeKey)
    requires
        old(phys_sm)@.dom().len() < MAX_PHYS_NODES,
    ensures
        !old(phys_sm)@.contains_key(key),
        final(phys_sm)@ == old(phys_sm)@.insert(key, node@),
        final(tape)@ == old(tape)@.push(Input::Key(key)),
        complete(old(phys_sm)@) && has_inputs(node@.kind, old(phys_sm)@) ==> complete(
            final(phys_sm)@,
        ),
{
    let ghost before = phys_sm@;
    let ghost added = node@;
    let key = phys_sm.insert(node);
    proof {
        if complete(before) && has_inputs(added.kind, before) {
            lemma_complete(before, key, added);
        }
    }
    *tape = Ghost(tape@.push(Input::Key(key)));
    key
}

/// How many nodes may still be added for the node that an answer is wanted for.
pub open spec fn owed_to(pending: PendingView) -> nat {
    match pending {
        PendingView::StackTest { .. } => 4,
        PendingView::GroupTest { .. } => 4,
        PendingView::Filter => 1,
        PendingView::Select => 0,
        _ => 2,
    }
}

/// How many nodes may still be added for the node that a step belongs to.
pub open spec fn owed(step: StepView) -> nat {
    match step {
        StepView::Ask(_, pending) => owed_to(pending),
        _ => 0,
    }
}

/// Whether the input that a question names is a node of the physical plan.
pub open spec fn asks_well(step: StepView, w: World) -> bool {
    match step {
        StepView::Ask(RequestView::LowerExprs { input, .. }, _) => w.phys.contains_key(input),
        StepView::Ask(RequestView::BuildSelect { input, .. }, _) => w.phys.contains_key(input),
        _ => true,
    }
}

/// Whether a step asks about an expression before the inputs of a node are lowered.
pub open spec fn tests(step: StepView) -> bool {
    step matches StepView::Ask(_, pending) && (pending is StackTest || pending is GroupTest)
}

/// Whether a step is a proper end for what started in the world `w`, with no more than `most` nodes
/// added by it or still to be added for it.
pub open spec fn ends(
    p: Plan,
    step: StepView,
    w: World,
    expr_arena: Arena<AExpr>,
    phys_sm: PhysNodes,
    before: Seq<Input>,
    after: Seq<Input>,
    most: nat,
) -> bool {
    let now = World { exprs: expr_items(expr_arena), phys: phys_sm@, ..w };
    &&& keyed(after, before)
    &&& !(step is Visit)
    &&& !tests(step)
    &&& steady(p, step, now)
    &&& asks_well(step, now)
    &&& grows(w, now)
    &&& now.phys.dom().finite()
    &&& now.phys.dom().len() + owed(step) <= w.phys.dom().len() + most
}

/// Slices a node, where there is a slice.
pub(crate) fn slice_if(
    key: PhysNodeKey,
    slice: Option<(i64, usize)>,
    phys_sm: &mut PhysNodes,
    tape: &mut Ghost<Seq<Input>>,
    Ghost(w): Ghost<World>,
) -> (sliced: PhysNodeKey)
    requires
        slice_supported(slice),
        w.phys == old(phys_sm)@,
        w.phys.contains_key(key),
        sound(w, 1),
    ensures
        keyed(final(tape)@, old(tape)@),
        final(phys_sm)@.contains_key(sliced),
        grows(w, World { phys: final(phys_sm)@, ..w }),
        final(phys_sm)@.dom().finite(),
        final(phys_sm)@.dom().len() <= w.phys.dom().len() + 1,
        forall|t: Seq<Input>| #[trigger]
            starts(t, final(tape)@) ==> then_slices(
                Run::Returns { result: Ok(key), world: w, next: old(tape)@.len() },
                slice,
                t,
            ) == (Run::Returns {
                result: Ok(sliced),
                world: World { phys: final(phys_sm)@, ..w },
                next: final(tape)@.len(),
            }),
{
    match slice {
        Some((offset, length)) => {
            let sliced = build_slice_node(key, offset, length, phys_sm);
            *tape = Ghost(tape@.push(Input::Key(sliced)));
            sliced
        },
        None => key,
    }
}

/// Whether what is pending belongs to a node of the plan.
pub open spec fn belongs(p: Plan, pending: PendingView) -> bool {
    match pending {
        PendingView::StackTest { node, depth, at } => {
            &&& bounded(p, node, depth)
            &&& p.nodes[node as int].ir matches IR::HStack { exprs, .. }
            &&& at < exprs@.len()
        },
        PendingView::GroupTest { node, depth, at, .. } => {
            &&& bounded(p, node, depth)
            &&& p.nodes[node as int].ir matches IR::GroupBy { keys, aggs, .. }
            &&& starts_well(p.nodes[node as int], p.csv_slice_disabled)
            &&& keys@.len() > 0
            &&& at < aggs@.len()
        },
        PendingView::Filter => true,
        PendingView::Select => true,
        PendingView::GroupExprs { node } => {
            &&& node < p.nodes.len()
            &&& p.nodes[node as int].ir is GroupBy
        },
        PendingView::JoinLeft { node, .. } => {
            &&& node < p.nodes.len()
            &&& p.nodes[node as int].ir is Join
        },
        PendingView::JoinRight { node, .. } => {
            &&& node < p.nodes.len()
            &&& p.nodes[node as int].ir is Join
        },
    }
}

/// Whether what is pending belongs to a node of the plan, and what it refers to is still there.
pub open spec fn waits(p: Plan, pending: PendingView, w: World) -> bool {
    &&& belongs(p, pending)
    &&& match pending {
        PendingView::GroupTest { input, .. } => input < w.exprs.len(),
        PendingView::JoinLeft { right, .. } => w.phys.contains_key(right),
        PendingView::JoinRight { left, .. } => w.phys.contains_key(left),
        _ => true,
    }
}

/// Whether a step can follow in a world.
pub open spec fn steady(p: Plan, step: StepView, w: World) -> bool {
    match step {
        StepView::Visit { node, depth } => bounded(p, node, depth),
        StepView::Return(key) => w.phys.contains_key(key),
        StepView::Fail(_) => true,
        StepView::Ask(_, pending) => waits(p, pending, w),
    }
}

/// Asks for the expressions of a filter to be lowered.
fn ask_filter(
    input: PhysNodeKey,
    predicate: &ExprIR,
    expr_arena: &mut Arena<AExpr>,
    phys_sm: &PhysNodes,
    Ghost(p): Ghost<Plan>,
    Ghost(w): Ghost<World>,
) -> (step: Step)
    requires
        w.exprs == expr_items(*old(expr_arena)),
        w.phys == phys_sm@,
        w.phys.contains_key(input),
    ensures
        grows(w, World { exprs: expr_items(*final(expr_arena)), ..w }),
        steady(p, step@, World { exprs: expr_items(*final(expr_arena)), ..w }),
        asks_well(step@, w),
        step is Ask,
        !tests(step@),
        owed(step@) == 1,
        forall|t: Seq<Input>, i: nat|
            filters(input, *predicate, w, t, i) == #[trigger] continues(
                p,
                step@,
                World { exprs: expr_items(*final(expr_arena)), ..w },
                t,
                i,
            ),
{
    let exprs = filter_exprs(input, predicate, expr_arena, phys_sm);
    Step::Ask(Request::LowerExprs { input, exprs }, Pending::Filter)
}

/// Copies a schema that may be absent.
fn clone_schema_ref(schema: &Option<Arc<Schema>>) -> (copy: Option<Arc<Schema>>)
    ensures
        copy == *schema,
{
    match schema {
        Some(schema) => Some(schema.clone()),
        None => None,
    }
}

/// Copies an expression that may be absent.
fn clone_expr_option(expr: &Option<ExprIR>) -> (copy: Option<ExprIR>)
    ensures
        copy == *expr,
{
    match expr {
        Some(expr) => Some(expr.clone()),
        None => None,
    }
}

/// Copies a row index that may be absent.
fn clone_row_index(row_index: &Option<RowIndex>) -> (copy: Option<RowIndex>)
    ensures
        copy == *row_index,
{
    match row_index {
        Some(row_index) => Some(row_index.clone()),
        None => None,
    }
}

/// Tells whether all that a scan does besides reading becomes nodes of its own.
fn rewrites(scan_type: FileScan, csv_slice_disabled: bool) -> (all: bool)
    ensures
        all == rewrites_all(scan_type, csv_slice_disabled),
{
    match scan_type {
        FileScan::Csv { comment_prefix, .. } => comment_prefix || csv_slice_disabled,
        _ => false,
    }
}

/// What is left of a scan for the reader of the files to do.
fn reader_of(scan: &Scan, csv_slice_disabled: bool) -> (read: Scan)
    ensures
        read == reader(*scan, csv_slice_disabled),
{
    let all = rewrites(scan.scan_type, csv_slice_disabled);
    let predicate = match scan.scan_type {
        FileScan::Parquet { .. } => clone_expr_option(&scan.predicate),
        _ => None,
    };
    let file_options = FileScanOptions {
        slice: if all {
            None
        } else {
            scan.file_options.slice
        },
        row_index: if all {
            None
        } else {
            clone_row_index(&scan.file_options.row_index)
        },
        allow_missing_columns: scan.file_options.allow_missing_columns,
        rest: scan.file_options.rest,
    };
    Scan {
        sources: scan.sources,
        file_info: scan.file_info,
        hive_parts: scan.hive_parts,
        output_schema: clone_schema_ref(&scan.output_schema),
        scan_type: scan.scan_type,
        predicate,
        file_options,
    }
}

/// Adds the nodes that read the files of a scan and number their rows.
fn read_files(
    n: &IRNode,
    scan: &Scan,
    csv_slice_disabled: bool,
    phys_sm: &mut PhysNodes,
    tape: &mut Ghost<Seq<Input>>,
    Ghost(w): Ghost<World>,
) -> (key: PhysNodeKey)
    requires
        scan_supported(*n, *scan, csv_slice_disabled),
        w.phys == old(phys_sm)@,
        sound(w, 2),
    ensures
        keyed(final(tape)@, old(tape)@),
        final(phys_sm)@.contains_key(key),
        grows(w, World { phys: final(phys_sm)@, ..w }),
        final(phys_sm)@.dom().finite(),
        final(phys_sm)@.dom().len() <= w.phys.dom().len() + 2,
        forall|t: Seq<Input>| #[trigger]
            starts(t, final(tape)@) ==> reads(
                schema_fields(*n.schema),
                *scan,
                csv_slice_disabled,
                w,
                t,
                old(tape)@.len(),
            ) == (Run::Returns {
                result: Ok(key),
                world: World { phys: final(phys_sm)@, ..w },
                next: final(tape)@.len(),
            }),
{
    let kind = PhysNodeKind::FileScan { scan: reader_of(scan, csv_slice_disabled) };
    let row_index = if rewrites(scan.scan_type, csv_slice_disabled) {
        clone_row_index(&scan.file_options.row_index)
    } else {
        None
    };
    match row_index {
        Some(row_index) => {
            let mut schema = clone_schema(&n.schema);
            shift_remove_index(&mut schema, 0);
            let input = put(phys_sm, PhysNode::new(Arc::new(schema), kind), tape);
            let kind = PhysNodeKind::WithRowIndex {
                input,
                name: row_index.name,
                offset: Some(row_index.offset),
            };
            put(phys_sm, PhysNode::new(n.schema.clone(), kind), tape)
        },
        None => put(phys_sm, PhysNode::new(n.schema.clone(), kind), tape),
    }
}

/// Ends the lowering of a scan.
fn end_scan(
    n: &IRNode,
    scan: &Scan,
    expr_arena: &mut Arena<AExpr>,
    phys_sm: &mut PhysNodes,
    tape: &mut Ghost<Seq<Input>>,
    csv_slice_disabled: bool,
    Ghost(p): Ghost<Plan>,
    Ghost(w): Ghost<World>,
) -> (step: Step)
    requires
        scan.sources.count == 0 || scan_supported(*n, *scan, csv_slice_disabled),
        w.exprs == expr_items(*old(expr_arena)),
        w.phys == old(phys_sm)@,
        sound(w, 4),
    ensures
        ends(p, step@, w, *final(expr_arena), *final(phys_sm), old(tape)@, final(tape)@, 4),
        forall|t: Seq<Input>| #[trigger]
            starts(t, final(tape)@) ==> finish_scan(
                *n,
                *scan,
                csv_slice_disabled,
                w,
                t,
                old(tape)@.len(),
            ) == continues(
                p,
                step@,
                World { exprs: expr_items(*final(expr_arena)), phys: final(phys_sm)@, ..w },
                t,
                final(tape)@.len(),
            ),
{
    if scan.sources.count == 0 {
        let kind = PhysNodeKind::InMemorySource { df: Frame::Empty(n.schema.clone()) };
        return Step::Return(put(phys_sm, PhysNode::new(n.schema.clone(), kind), tape));
    }
    let key = read_files(n, scan, csv_slice_disabled, phys_sm, tape, Ghost(w));
    let ghost w1 = World { phys: phys_sm@, ..w };
    let ghost tape1 = tape@;
    let slice = if rewrites(scan.scan_type, csv_slice_disabled) {
        scan.file_options.slice
    } else {
        None
    };
    let key = slice_if(key, slice, phys_sm, tape, Ghost(w1));
    let ghost w2 = World { phys: phys_sm@, ..w };
    let predicate = match scan.scan_type {
        FileScan::Parquet { .. } => None,
        _ => clone_expr_option(&scan.predicate),
    };
    let step = match predicate {
        Some(predicate) => ask_filter(key, &predicate, expr_arena, phys_sm, Ghost(p), Ghost(w2)),
        None => Step::Return(key),
    };
    proof {
        assert forall|t: Seq<Input>| #[trigger] starts(t, tape@) implies finish_scan(
            *n,
            *scan,
            csv_slice_disabled,
            w,
            t,
            old(tape)@.len(),
        ) == continues(
            p,
            step@,
            World { exprs: expr_items(*expr_arena), phys: phys_sm@, ..w },
            t,
            tape@.len(),
        ) by {
            assert(starts(t, tape1));
        }
    }
    step
}

/// Ends the lowering of a frame in memory.
fn end_frame(
    n: &IRNode,
    df: Carried,
    given: &Arc<Schema>,
    wanted: &Option<Arc<Schema>>,
    phys_sm: &mut PhysNodes,
    tape: &mut Ghost<Seq<Input>>,
    Ghost(w): Ghost<World>,
) -> (key: PhysNodeKey)
    requires
        w.phys == old(phys_sm)@,
        sound(w, 2),
    ensures
        keyed(final(tape)@, old(tape)@),
        final(phys_sm)@.contains_key(key),
        grows(w, World { phys: final(phys_sm)@, ..w }),
        final(phys_sm)@.dom().finite(),
        final(phys_sm)@.dom().len() <= w.phys.dom().len() + 2,
        forall|t: Seq<Input>| #[trigger]
            starts(t, final(tape)@) ==> finish_frame(
                schema_fields(*n.schema),
                Frame::Given(df),
                schema_fields(**given),
                match *wanted {
                    Some(fields) => Some(schema_fields(*fields)),
                    None => None,
                },
                w,
                t,
                old(tape)@.len(),
            ) == (Run::Returns {
                result: Ok(key),
                world: World { phys: final(phys_sm)@, ..w },
                next: final(tape)@.len(),
            }),
{
    let source = PhysNodeKind::InMemorySource { df: Frame::Given(df) };
    if let Some(projection) = wanted {
        let columns = schema_names(projection);
        let names = schema_names(given);
        if !names_agree(&columns, &names) {
            let input = put(phys_sm, PhysNode::new(given.clone(), source), tape);
            let kind = PhysNodeKind::SimpleProjection { input, columns };
            return put(phys_sm, PhysNode::new(n.schema.clone(), kind), tape);
        }
    }
    put(phys_sm, PhysNode::new(n.schema.clone(), source), tape)
}

/// Asks for the keys of a join by equal keys to be lowered, those of the left side first.
fn ask_join(
    node: Node,
    left_on: &Vec<ExprIR>,
    right_on: &Vec<ExprIR>,
    args: JoinArgs,
    left: PhysNodeKey,
    right: PhysNodeKey,
    expr_arena: &mut Arena<AExpr>,
    phys_sm: &PhysNodes,
    Ghost(p): Ghost<Plan>,
    Ghost(w): Ghost<World>,
) -> (step: Step)
    requires
        w.exprs == expr_items(*old(expr_arena)),
        w.phys == phys_sm@,
        w.phys.contains_key(left),
        w.phys.contains_key(right),
        streams(args),
        node < p.nodes.len(),
        p.nodes[node as int].ir matches IR::Join { left_on: lo, right_on: ro, args: a, .. } && lo@
            == left_on@ && ro@ == right_on@ && a == args,
    ensures
        grows(w, World { exprs: expr_items(*final(expr_arena)), ..w }),
        steady(p, step@, World { exprs: expr_items(*final(expr_arena)), ..w }),
        asks_well(step@, w),
        step is Ask,
        !tests(step@),
        owed(step@) == 2,
        forall|t: Seq<Input>, i: nat|
            finish_join(
                schema_fields(*p.nodes[node as int].schema),
                left_on@,
                right_on@,
                args,
                left,
                right,
                w,
                t,
                i,
            ) == #[trigger] continues(
                p,
                step@,
                World { exprs: expr_items(*final(expr_arena)), ..w },
                t,
                i,
            ),
{
    let left_names = schema_names(&phys_sm.get(left).output_schema);
    let mut left_columns = add_columns(&left_names, expr_arena);
    let mut left_exprs = clone_exprs(left_on);
    left_exprs.append(&mut left_columns);
    let right_names = schema_names(&phys_sm.get(right).output_schema);
    let mut right_columns = add_columns(&right_names, expr_arena);
    let mut right_exprs = clone_exprs(right_on);
    right_exprs.append(&mut right_columns);
    Step::Ask(
        Request::LowerExprs { input: left, exprs: left_exprs },
        Pending::JoinLeft { node, right, right_exprs },
    )
}

/// Whether what was found out about a node is of the kind that its operation needs.
pub open spec fn prepared(ir: IR, prep: PrepView) -> bool {
    match ir {
        IR::HStack { exprs, .. } => {
            prep == PrepView::Elementwise(true) || (prep == PrepView::Elementwise(false) && named(
                exprs@,
            ))
        },
        IR::GroupBy { keys, .. } => prep is Group && keys@.len() > 0,
        _ => true,
    }
}

/// Ends the lowering of a node whose inputs are lowered.
pub(crate) fn end_node(
    node: Node,
    n: &IRNode,
    prep: Prep,
    keys: Vec<PhysNodeKey>,
    csv_slice_disabled: bool,
    expr_arena: &mut Arena<AExpr>,
    phys_sm: &mut PhysNodes,
    cache_nodes: &mut CacheNodes,
    tape: &mut Ghost<Seq<Input>>,
    Ghost(p): Ghost<Plan>,
) -> (step: Step)
    requires
        node < p.nodes.len(),
        *n == p.nodes[node as int],
        csv_slice_disabled == p.csv_slice_disabled,
        starts_well(*n, csv_slice_disabled),
        ends_well(n.ir),
        prepared(n.ir, prep@),
        keys@.len() == inputs(n.ir).len(),
        forall|j: int| 0 <= j < keys@.len() ==> old(phys_sm)@.contains_key(#[trigger] keys@[j]),
        sound(world(*old(expr_arena), *old(phys_sm), *old(cache_nodes)), 4),
    ensures
        keyed(final(tape)@, old(tape)@),
        !(step is Visit),
        !tests(step@),
        final(cache_nodes)@.dom() == (match n.ir {
            IR::Cache { id, .. } => old(cache_nodes)@.dom().insert(id),
            _ => old(cache_nodes)@.dom(),
        }),
        steady(p, step@, world(*final(expr_arena), *final(phys_sm), *final(cache_nodes))),
        asks_well(step@, world(*final(expr_arena), *final(phys_sm), *final(cache_nodes))),
        grows(
            world(*old(expr_arena), *old(phys_sm), *old(cache_nodes)),
            world(*final(expr_arena), *final(phys_sm), *final(cache_nodes)),
        ),
        sound(world(*final(expr_arena), *final(phys_sm), *final(cache_nodes)), 0),
        final(phys_sm)@.dom().len() + owed(step@) <= old(phys_sm)@.dom().len() + 4,
        forall|t: Seq<Input>| #[trigger]
            starts(t, final(tape)@) ==> finish(
                p,
                node,
                prep@,
                keys@,
                world(*old(expr_arena), *old(phys_sm), *old(cache_nodes)),
                t,
                old(tape)@.len(),
            ) == continues(
                p,
                step@,
                world(*final(expr_arena), *final(phys_sm), *final(cache_nodes)),
                t,
                final(tape)@.len(),
            ),
{
    let ghost w = world(*expr_arena, *phys_sm, *cache_nodes);
    let step = match &n.ir {
        IR::SimpleProjection { columns, .. } => {
            let kind = PhysNodeKind::SimpleProjection {
                input: keys[0],
                columns: schema_names(columns),
            };
            Step::Return(put(phys_sm, PhysNode::new(n.schema.clone(), kind), tape))
        },
        IR::Select { expr, .. } => {
            let request = Request::BuildSelect { input: keys[0], selectors: clone_exprs(expr) };
            Step::Ask(request, Pending::Select)
        },
        IR::HStack { exprs: added, .. } => {
            let elementwise = match prep {
                Prep::Elementwise(elementwise) => elementwise,
                _ => false,
            };
            if elementwise {
                let kind = PhysNodeKind::Select {
                    input: keys[0],
                    selectors: clone_exprs(added),
                    extend_original: true,
                };
                Step::Return(put(phys_sm, PhysNode::new(n.schema.clone(), kind), tape))
            } else {
                let selectors = stack_exprs(keys[0], added, expr_arena, phys_sm);
                Step::Ask(Request::BuildSelect { input: keys[0], selectors }, Pending::Select)
            }
        },
        IR::Slice { offset, len, .. } => {
            let key = build_slice_node(keys[0], *offset, *len as usize, phys_sm);
            *tape = Ghost(tape@.push(Input::Key(key)));
            Step::Return(key)
        },
        IR::Filter { predicate, .. } => {
            ask_filter(keys[0], predicate, expr_arena, phys_sm, Ghost(p), Ghost(w))
        },
        IR::DataFrameScan { df, schema, output_schema } => {
            Step::Return(end_frame(n, *df, schema, output_schema, phys_sm, tape, Ghost(w)))
        },
        IR::Sink { payload, .. } => {
            let kind = match payload {
                SinkType::Memory => PhysNodeKind::InMemorySink { input: keys[0] },
                SinkType::File { path, file_type } => PhysNodeKind::FileSink {
                    path: *path,
                    file_type: *file_type,
                    input: keys[0],
                },
            };
            Step::Return(put(phys_sm, PhysNode::new(n.schema.clone(), kind), tape))
        },
        IR::MapFunction { function, .. } => {
            let kind = match function {
                FunctionIR::RowIndex { name, offset } => PhysNodeKind::WithRowIndex {
                    input: keys[0],
                    name: name.clone(),
                    offset: *offset,
                },
                FunctionIR::MergeSorted { function } => PhysNodeKind::InMemoryMap {
                    input: keys[0],
                    map: *function,
                },
                FunctionIR::Other { function, streamable } => if *streamable {
                    PhysNodeKind::StreamingMap { input: keys[0], map: *function }
                } else {
                    PhysNodeKind::InMemoryMap { input: keys[0], map: *function }
                },
            };
            Step::Return(put(phys_sm, PhysNode::new(n.schema.clone(), kind), tape))
        },
        IR::Sort { by_column, slice, sort_options, .. } => {
            let kind = PhysNodeKind::Sort {
                input: keys[0],
                by_column: clone_exprs(by_column),
                slice: *slice,
                sort_options: *sort_options,
            };
            Step::Return(put(phys_sm, PhysNode::new(n.schema.clone(), kind), tape))
        },
        IR::Union { slice, .. } => {
            let kind = PhysNodeKind::OrderedUnion { inputs: keys };
            let key = put(phys_sm, PhysNode::new(n.schema.clone(), kind), tape);
            let ghost w1 = World { phys: phys_sm@, ..w };
            let ghost tape1 = tape@;
            assert(grows(w, w1));
            let key = slice_if(key, *slice, phys_sm, tape, Ghost(w1));
            assert(forall|t: Seq<Input>| #[trigger] starts(t, tape@) ==> starts(t, tape1));
            proof {
                lemma_grows(w, w1, World { phys: phys_sm@, ..w });
            }
            Step::Return(key)
        },
        IR::HConcat { .. } => {
            let kind = PhysNodeKind::Zip { inputs: keys, null_extend: true };
            Step::Return(put(phys_sm, PhysNode::new(n.schema.clone(), kind), tape))
        },
        IR::Scan { scan } => end_scan(
            n,
            scan,
            expr_arena,
            phys_sm,
            tape,
            csv_slice_disabled,
            Ghost(p),
            Ghost(w),
        ),
        IR::Cache { id, .. } => {
            cache_nodes.insert(*id, keys[0]);
            Step::Return(keys[0])
        },
        IR::GroupBy { .. } => {
            let needed = match prep {
                Prep::Group(needed) => needed,
                _ => Vec::new(),
            };
            Step::Ask(
                Request::LowerExprs { input: keys[0], exprs: needed },
                Pending::GroupExprs { node },
            )
        },
        IR::Join { left_on, right_on, args, .. } => {
            if args.how.is_equi() && !args.validation.needs_checks() {
                ask_join(
                    node,
                    left_on,
                    right_on,
                    *args,
                    keys[0],
                    keys[1],
                    expr_arena,
                    phys_sm,
                    Ghost(p),
                    Ghost(w),
                )
            } else {
                let kind = PhysNodeKind::InMemoryJoin {
                    input_left: keys[0],
                    input_right: keys[1],
                    left_on: clone_exprs(left_on),
                    right_on: clone_exprs(right_on),
                    args: *args,
                };
                Step::Return(put(phys_sm, PhysNode::new(n.schema.clone(), kind), tape))
            }
        },
        _ => {
            assert(false);
            Step::Return(keys[0])
        },
    };
    proof {
        let now = world(*expr_arena, *phys_sm, *cache_nodes);
        assert(grows(w, now));
        assert forall|id: usize| now.cache.contains_key(id) implies now.phys.contains_key(
            #[trigger] now.cache[id],
        ) by {
            if w.cache.contains_key(id) {
                assert(w.phys.contains_key(w.cache[id]));
            }
        }
    }
    step
}

} // verus!
