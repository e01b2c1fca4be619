//! What holds of plans that can be lowered, of answers that can be used, and of the pieces that
//! lowering is made of.

use crate::advance::{lemma_levels_grow, lemma_rest_extends, lemma_rest_stuck, pending_outlook, plan,
    ready, whole_outlook};
use crate::answer::fits;
use crate::finish::{grows, owed, sound};
use crate::ir::{inputs, AExpr, AExprKind, ExprIR, FileScan, FunctionIR, IRAggExpr, IRNode, JoinType,
    Node, OutputName, Scan, SinkType, IR};
use crate::lowering::{lowerable, LoweringView};
use crate::model::{column_exprs, lower, slice_node, with_columns, Input, Plan, ReplyView,
    RequestView, World};
use crate::phys::{complete, phys_inputs, phys_nodes, PhysNode, PhysNodeKey, PhysNodeKind,
    PhysNodeKindView, PhysNodeView, PhysNodes};
use crate::protocol::{Reply, Request};
use crate::schema::{same_names, schema_fields};
use crate::service_outcomes::{aggregated, streamable};
use crate::step::{keyed, world, LevelView, PendingView, StepView};
use crate::store::{cached_nodes, expr_items, ir_items, CacheNodes};
use crate::support::{aggs_supported, bounded, extends, inputs_outlook, outlook, Outlook};
use polars_core::prelude::DataType;
use polars_utils::arena::Arena;
use vstd::prelude::*;

verus! {

/// Whether a slice, if there is one, counts from the first row.
pub open spec fn from_the_start(slice: Option<(i64, usize)>) -> bool {
    match slice {
        Some((offset, _)) => offset >= 0,
        None => true,
    }
}

/// Whether a scan of files is of a kind that can be lowered, with options that can be kept.
pub open spec fn can_read(
    columns: Seq<(String, DataType)>,
    scan: Scan,
    csv_slice_disabled: bool,
) -> bool {
    match scan.scan_type {
        FileScan::Parquet { .. } => true,
        FileScan::Ipc { .. } => {
            &&& scan.hive_parts is None
            &&& !scan.sources.cloud_url
            &&& !scan.file_options.allow_missing_columns
            &&& from_the_start(scan.file_options.slice)
        },
        FileScan::Csv { comment_prefix, .. } => (comment_prefix || csv_slice_disabled) ==> {
            &&& from_the_start(scan.file_options.slice)
            &&& match scan.file_options.row_index {
                Some(row_index) => columns.len() > 0 && columns[0].0@ == row_index.name@,
                None => true,
            }
        },
        FileScan::Other(_) => false,
    }
}

/// Whether an operation can be lowered once it is come to.
pub open spec fn can_begin(node: IRNode, csv_slice_disabled: bool, exprs: Seq<AExpr>) -> bool {
    match node.ir {
        IR::SimpleProjection { .. } => true,
        IR::Select { .. } => true,
        IR::HStack { .. } => true,
        IR::Slice { .. } => true,
        IR::Filter { .. } => true,
        IR::DataFrameScan { .. } => true,
        IR::Sink { payload: SinkType::Memory, .. } => true,
        IR::Sink { payload: SinkType::File { file_type, .. }, .. } => file_type is Ipc,
        IR::MapFunction { function: FunctionIR::RowIndex { .. }, .. } => true,
        IR::MapFunction { function: FunctionIR::Other { .. }, .. } => true,
        IR::MapFunction { function: FunctionIR::MergeSorted { .. }, .. } => false,
        IR::Sort { .. } => true,
        IR::Union { .. } => true,
        IR::HConcat { .. } => true,
        IR::Scan { scan } => scan.sources.count == 0 || can_read(
            schema_fields(*node.schema),
            scan,
            csv_slice_disabled,
        ),
        IR::PythonScan { .. } => false,
        IR::Cache { .. } => true,
        IR::GroupBy { keys, aggs, apply, maintain_order, options, .. } => {
            &&& !apply
            &&& !maintain_order
            &&& !options.dynamic
            &&& !options.rolling
            &&& keys@.len() == 0 || streamable(aggs@, exprs)
        },
        IR::Join { .. } => true,
        IR::Distinct { .. } => false,
        IR::ExtContext { .. } => false,
        IR::Invalid => false,
    }
}

/// Whether an operation can be lowered on top of its lowered inputs.
pub open spec fn can_come_to_an_end(ir: IR) -> bool {
    match ir {
        IR::Slice { offset, .. } => offset >= 0,
        IR::Union { slice, .. } => from_the_start(slice),
        _ => true,
    }
}

/// The aggregations of a grouping are supported exactly when all of them can be streamed.
pub proof fn aggregations_are_supported_by_kind(aggs: Seq<ExprIR>, exprs: Seq<AExpr>)
    ensures
        aggs_supported(aggs, 0, exprs) == streamable(aggs, exprs),
{
    if streamable(aggs, exprs) {
        assert(aggs_supported(aggs, 0, exprs));
    }
    if aggs_supported(aggs, 0, exprs) {
        assert forall|j: int| 0 <= j < aggs.len() implies (#[trigger] aggs[j]).node < exprs.len()
            && (exprs[aggs[j].node as int].kind is Len || (aggregated(
            exprs[aggs[j].node as int].kind,
        ) matches Some(input) && input < exprs.len())) by {
            assert(crate::support::agg_supported(aggs[j], exprs));
        }
    }
}

/// A plan is stuck at an operation that is not supported, or that is not there. A part that is
/// lowered already is not looked into, and a grouping without keys fails at once. Any other plan
/// goes the way of its inputs, and is stuck at its end if it cannot be ended.
pub proof fn plans_go_the_way_of_their_inputs(
    p: Plan,
    exprs: Seq<AExpr>,
    node: Node,
    depth: nat,
    cached: Set<usize>,
)
    requires
        depth > 0,
    ensures
        ({
            let look = outlook(p, exprs, node, depth, cached);
            if node >= p.nodes.len() || !can_begin(
                p.nodes[node as int],
                p.csv_slice_disabled,
                exprs,
            ) {
                look is Stuck
            } else {
                match p.nodes[node as int].ir {
                    IR::GroupBy { keys, .. } if keys@.len() == 0 => look == (Outlook::Fails {
                        visits: 1,
                    }),
                    IR::Cache { id, .. } if cached.contains(id) => look == (Outlook::Lowers {
                        visits: 1,
                        cached,
                    }),
                    _ => look == inputs_outlook(p, exprs, node, depth, 0, cached).after(1),
                }
            }
        }),
{
    if node < p.nodes.len() {
        if let IR::GroupBy { aggs, .. } = p.nodes[node as int].ir {
            aggregations_are_supported_by_kind(aggs@, exprs);
        }
    }
}

/// What is found out about the inputs of a node one after the other decides about the node. It is
/// ended when all its inputs are lowered, and then noted if it is to be computed once.
pub proof fn inputs_decide_in_order(
    p: Plan,
    exprs: Seq<AExpr>,
    node: Node,
    depth: nat,
    at: nat,
    cached: Set<usize>,
)
    requires
        depth > 0,
    ensures
        ({
            let ir = p.nodes[node as int].ir;
            let look = inputs_outlook(p, exprs, node, depth, at, cached);
            if at < inputs(ir).len() {
                match outlook(p, exprs, inputs(ir)[at as int], (depth - 1) as nat, cached) {
                    Outlook::Lowers { visits, cached: more } => {
                        let rest = inputs_outlook(p, exprs, node, depth, at + 1, more);
                        &&& look is Stuck <==> rest is Stuck
                        &&& look is Lowers <==> rest is Lowers
                        &&& !(look is Stuck) ==> look.visits() == visits + rest.visits()
                        &&& look is Lowers ==> look->cached == rest->cached
                    },
                    Outlook::Fails { visits } => look == (Outlook::Fails { visits }),
                    Outlook::Stuck => look is Stuck,
                }
            } else if can_come_to_an_end(ir) {
                match ir {
                    IR::Cache { id, .. } => look == (Outlook::Lowers {
                        visits: 0,
                        cached: cached.insert(id),
                    }),
                    _ => look == (Outlook::Lowers { visits: 0, cached }),
                }
            } else {
                look is Stuck
            }
        }),
{
}

/// Whether all operations of a plan are supported.
pub open spec fn all_supported(p: Plan, exprs: Seq<AExpr>) -> bool {
    forall|n: int|
        0 <= n < p.nodes.len() ==> can_begin(#[trigger] p.nodes[n], p.csv_slice_disabled, exprs)
            && can_come_to_an_end(p.nodes[n].ir)
}

/// A plan all of whose operations are supported can be lowered, and without a grouping that has no
/// keys it does not fail.
pub proof fn supported_plans_can_be_lowered(
    p: Plan,
    exprs: Seq<AExpr>,
    node: Node,
    depth: nat,
    cached: Set<usize>,
)
    requires
        bounded(p, node, depth),
        all_supported(p, exprs),
    ensures
        !(outlook(p, exprs, node, depth, cached) is Stuck),
        (forall|n: int|
            0 <= n < p.nodes.len() ==> !(#[trigger] p.nodes[n].ir matches IR::GroupBy { keys, .. }
                && keys@.len() == 0)) ==> outlook(p, exprs, node, depth, cached) is Lowers,
    decreases depth, 1nat, 0int,
{
    assert(can_begin(p.nodes[node as int], p.csv_slice_disabled, exprs));
    plans_go_the_way_of_their_inputs(p, exprs, node, depth, cached);
    lemma_supported_inputs(p, exprs, node, depth, 0, cached);
}

proof fn lemma_supported_inputs(
    p: Plan,
    exprs: Seq<AExpr>,
    node: Node,
    depth: nat,
    at: nat,
    cached: Set<usize>,
)
    requires
        bounded(p, node, depth),
        all_supported(p, exprs),
    ensures
        !(inputs_outlook(p, exprs, node, depth, at, cached) is Stuck),
        (forall|n: int|
            0 <= n < p.nodes.len() ==> !(#[trigger] p.nodes[n].ir matches IR::GroupBy { keys, .. }
                && keys@.len() == 0)) ==> inputs_outlook(p, exprs, node, depth, at, cached)
            is Lowers,
    decreases depth, 0nat, inputs(p.nodes[node as int].ir).len() - at,
{
    let ir = p.nodes[node as int].ir;
    assert(can_come_to_an_end(p.nodes[node as int].ir));
    if at < inputs(ir).len() {
        let input = inputs(ir)[at as int];
        supported_plans_can_be_lowered(p, exprs, input, (depth - 1) as nat, cached);
        if let Outlook::Lowers { cached: more, .. } = outlook(
            p,
            exprs,
            input,
            (depth - 1) as nat,
            cached,
        ) {
            lemma_supported_inputs(p, exprs, node, depth, at + 1, more);
        }
    }
}

/// Which answers can be used for what.
pub proof fn answers_are_used_for_what_they_say(
    p: Plan,
    pending: PendingView,
    reply: ReplyView,
    w: World,
)
    ensures
        match pending {
            PendingView::StackTest { node, .. } => fits(p, pending, reply, w) == match reply {
                ReplyView::Elementwise(true) => true,
                ReplyView::Elementwise(false) => forall|j: int|
                    0 <= j < p.nodes[node as int].ir->HStack_exprs@.len() ==> !((
                    #[trigger] p.nodes[node as int].ir->HStack_exprs@[j]).output_name is Unset),
                _ => false,
            },
            PendingView::GroupTest { .. } => fits(p, pending, reply, w) == (reply
                == ReplyView::Elementwise(true)),
            PendingView::Filter => fits(p, pending, reply, w) == match reply {
                ReplyView::Lowered { input, exprs } => w.phys.contains_key(input) && exprs.len()
                    >= 1,
                ReplyView::Failed(_) => true,
                _ => false,
            },
            PendingView::Select => fits(p, pending, reply, w) == match reply {
                ReplyView::Selected(key) => w.phys.contains_key(key),
                ReplyView::Failed(_) => true,
                _ => false,
            },
            PendingView::GroupExprs { node } => p.nodes[node as int].ir matches IR::GroupBy {
                keys,
                aggs,
                options,
                ..
            } ==> fits(p, pending, reply, w) == match reply {
                ReplyView::Lowered { input, exprs } => {
                    &&& w.phys.contains_key(input)
                    &&& keys@.len() <= exprs.len()
                    &&& from_the_start(options.slice)
                    &&& forall|j: int|
                        0 <= j < aggs@.len() && keys@.len() + j < exprs.len() ==> (
                        #[trigger] aggs@[j]).node < w.exprs.len() && exprs[keys@.len() + j].node
                            < w.exprs.len()
                },
                ReplyView::Failed(_) => true,
                _ => false,
            },
            PendingView::JoinLeft { node, .. } => p.nodes[node as int].ir matches IR::Join {
                left_on,
                ..
            } ==> fits(p, pending, reply, w) == match reply {
                ReplyView::Lowered { input, exprs } => w.phys.contains_key(input) && left_on@.len()
                    <= exprs.len(),
                ReplyView::Failed(_) => true,
                _ => false,
            },
            PendingView::JoinRight { node, .. } => p.nodes[node as int].ir matches IR::Join {
                right_on,
                args,
                ..
            } ==> fits(p, pending, reply, w) == match reply {
                ReplyView::Lowered { input, exprs } => {
                    &&& w.phys.contains_key(input)
                    &&& right_on@.len() <= exprs.len()
                    &&& from_the_start(args.slice)
                },
                ReplyView::Failed(_) => true,
                _ => false,
            },
        },
{
    if let PendingView::GroupExprs { node } = pending {
        if let IR::GroupBy { keys, aggs, .. } = p.nodes[node as int].ir {
            if let ReplyView::Lowered { exprs, .. } = reply {
                if keys@.len() <= exprs.len() {
                    let read = exprs.skip(keys@.len() as int);
                    assert(forall|j: int|
                        0 <= j < read.len() ==> #[trigger] read[j] == exprs[keys@.len() + j]);
                }
            }
        }
    }
}

/// A lowering that could go on when it asked can go on when the service only added to what was
/// there, as long as there is room.
pub proof fn services_that_only_add_can_be_used(
    p: Plan,
    levels: Seq<LevelView>,
    request: RequestView,
    pending: PendingView,
    w: World,
    after: World,
)
    requires
        ready(p, levels, StepView::Ask(request, pending), w),
        grows(w, after),
        after.cache == w.cache,
        sound(
            after,
            owed(StepView::Ask(request, pending)) + 4 * (whole_outlook(
                p,
                levels,
                StepView::Ask(request, pending),
                w,
            ).visits() + levels.len()),
        ),
    ensures
        ready(p, levels, StepView::Ask(request, pending), after),
{
    let first = pending_outlook(p, pending, w);
    lemma_levels_grow(p, levels, w, after);
    lemma_rest_stuck(p, w.exprs, levels);
    assert(extends(after.exprs, w.exprs));
    match pending {
        PendingView::StackTest { node, depth, .. } => {
            crate::support::lemma_inputs_outlook_extends(
                p,
                w.exprs,
                after.exprs,
                node,
                depth,
                0,
                w.cache.dom(),
            );
        },
        PendingView::GroupTest { node, depth, at, .. } => {
            assert(aggs_supported(p.nodes[node as int].ir->GroupBy_aggs@, at + 1, after.exprs));
            crate::support::lemma_inputs_outlook_extends(
                p,
                w.exprs,
                after.exprs,
                node,
                depth,
                0,
                w.cache.dom(),
            );
        },
        _ => {},
    }
    assert(pending_outlook(p, pending, after) == first);
    lemma_rest_extends(p, w.exprs, after.exprs, levels, first);
}

/// The pieces that physical plans are made of say just what they are made from.
pub proof fn pieces_say_what_they_are_made_from(
    input: PhysNodeKey,
    offset: i64,
    length: usize,
    columns: Seq<(String, DataType)>,
    names: Seq<String>,
    exprs: Seq<AExpr>,
)
    ensures
        slice_node(input, offset, length, columns) == (PhysNodeView {
            output_schema: columns,
            kind: PhysNodeKindView::StreamingSlice { input, offset: offset as usize, length },
        }),
        column_exprs(names, exprs.len()).len() == names.len(),
        with_columns(exprs, names).len() == exprs.len() + names.len(),
        forall|j: int|
            0 <= j < names.len() ==> #[trigger] column_exprs(names, exprs.len())[j] == (ExprIR {
                node: (exprs.len() + j) as usize,
                output_name: OutputName::ColumnLhs(names[j]),
            }),
        forall|j: int|
            0 <= j < exprs.len() ==> #[trigger] with_columns(exprs, names)[j] == exprs[j],
        forall|j: int|
            0 <= j < names.len() ==> with_columns(exprs, names)[exprs.len() + j] == (AExpr {
                kind: AExprKind::Column(#[trigger] names[j]),
                output_name: OutputName::ColumnLhs(names[j]),
            }),
{
}

/// An aggregation reads one node, and over another node it is the same aggregation.
pub proof fn aggregations_stay_what_they_are(agg: IRAggExpr, node: Node)
    ensures
        agg.input() == aggregated(AExprKind::Agg(agg)),
        match agg {
            IRAggExpr::Min { propagate_nans, .. } => agg.over(node) == (IRAggExpr::Min {
                input: node,
                propagate_nans,
            }),
            IRAggExpr::Max { propagate_nans, .. } => agg.over(node) == (IRAggExpr::Max {
                input: node,
                propagate_nans,
            }),
            IRAggExpr::Mean(_) => agg.over(node) == IRAggExpr::Mean(node),
            IRAggExpr::Sum(_) => agg.over(node) == IRAggExpr::Sum(node),
            IRAggExpr::Var(_, ddof) => agg.over(node) == IRAggExpr::Var(node, ddof),
            IRAggExpr::Std(_, ddof) => agg.over(node) == IRAggExpr::Std(node, ddof),
            IRAggExpr::Other(_) => agg.over(node) == agg,
        },
{
}

/// An expression has a name exactly when one is set, whatever it comes from. Only inner, left,
/// right and full joins are by equal keys. Lists of names agree exactly when they read the same.
pub proof fn names_and_joins_are_told_apart(
    text: String,
    how: JoinType,
    a: Seq<String>,
    b: Seq<String>,
)
    ensures
        OutputName::Unset.name() is None,
        OutputName::LiteralLhs(text).name() == Some(text),
        OutputName::ColumnLhs(text).name() == Some(text),
        OutputName::Alias(text).name() == Some(text),
        how.equi() == match how {
            JoinType::Inner => true,
            JoinType::Left => true,
            JoinType::Right => true,
            JoinType::Full => true,
            JoinType::Cross => false,
            JoinType::Other(_) => false,
        },
        same_names(a, b) == (a.map_values(|s: String| s@) == b.map_values(|s: String| s@)),
{
    let x = a.map_values(|s: String| s@);
    let y = b.map_values(|s: String| s@);
    if same_names(a, b) {
        assert forall|k: int| 0 <= k < x.len() implies x[k] == y[k] by {
            assert(a[k]@ == b[k]@);
        }
        assert(x == y);
    }
    if x == y {
        assert(x.len() == a.len() && y.len() == b.len());
        assert forall|k: int| 0 <= k < a.len() implies #[trigger] a[k]@ == b[k]@ by {
            assert(x[k] == y[k]);
        }
    }
}

/// The view of an operation of the physical plan is the same operation, with nothing left out.
pub proof fn views_of_operations_leave_nothing_out(kind: PhysNodeKind)
    ensures
        match kind {
            PhysNodeKind::InMemorySource { df } => {
                kind@ == (PhysNodeKindView::InMemorySource { df })
            },
            PhysNodeKind::Select { input, selectors, extend_original } => kind@ == (
            PhysNodeKindView::Select { input, selectors: selectors@, extend_original }),
            PhysNodeKind::WithRowIndex { input, name, offset } => kind@ == (
            PhysNodeKindView::WithRowIndex { input, name, offset }),
            PhysNodeKind::StreamingSlice { input, offset, length } => kind@ == (
            PhysNodeKindView::StreamingSlice { input, offset, length }),
            PhysNodeKind::Filter { input, predicate } => kind@ == (PhysNodeKindView::Filter {
                input,
                predicate,
            }),
            PhysNodeKind::SimpleProjection { input, columns } => kind@ == (
            PhysNodeKindView::SimpleProjection { input, columns: columns@ }),
            PhysNodeKind::InMemorySink { input } => kind@ == (PhysNodeKindView::InMemorySink {
                input,
            }),
            PhysNodeKind::FileSink { path, file_type, input } => kind@ == (
            PhysNodeKindView::FileSink { path, file_type, input }),
            PhysNodeKind::InMemoryMap { input, map } => kind@ == (PhysNodeKindView::InMemoryMap {
                input,
                map,
            }),
            PhysNodeKind::StreamingMap { input, map } => kind@ == (
            PhysNodeKindView::StreamingMap { input, map }),
            PhysNodeKind::Sort { input, by_column, slice, sort_options } => kind@ == (
            PhysNodeKindView::Sort { input, by_column: by_column@, slice, sort_options }),
            PhysNodeKind::OrderedUnion { inputs: all } => kind@ == (
            PhysNodeKindView::OrderedUnion { inputs: all@ }),
            PhysNodeKind::Zip { inputs: all, null_extend } => kind@ == (PhysNodeKindView::Zip {
                inputs: all@,
                null_extend,
            }),
            PhysNodeKind::FileScan { scan } => kind@ == (PhysNodeKindView::FileScan { scan }),
            PhysNodeKind::GroupBy { input, key, aggs } => kind@ == (PhysNodeKindView::GroupBy {
                input,
                key: key@,
                aggs: aggs@,
            }),
            PhysNodeKind::InMemoryJoin { input_left, input_right, left_on, right_on, args } => {
                kind@ == (PhysNodeKindView::InMemoryJoin {
                    input_left,
                    input_right,
                    left_on: left_on@,
                    right_on: right_on@,
                    args,
                })
            },
            PhysNodeKind::EquiJoin { input_left, input_right, left_on, right_on, args } => {
                kind@ == (PhysNodeKindView::EquiJoin {
                    input_left,
                    input_right,
                    left_on: left_on@,
                    right_on: right_on@,
                    args,
                })
            },
            PhysNodeKind::Expression(node) => kind@ == PhysNodeKindView::Expression(node),
        },
{
}

/// The views of nodes, questions and answers leave nothing out.
pub proof fn views_of_messages_leave_nothing_out(node: PhysNode, request: Request, reply: Reply)
    ensures
        node@.output_schema == schema_fields(*node.output_schema),
        node@.kind == node.kind@,
        match request {
            Request::IsElementwise { node } => request@ == (RequestView::IsElementwise { node }),
            Request::LowerExprs { input, exprs } => request@ == (RequestView::LowerExprs {
                input,
                exprs: exprs@,
            }),
            Request::BuildSelect { input, selectors } => request@ == (RequestView::BuildSelect {
                input,
                selectors: selectors@,
            }),
        },
        match reply {
            Reply::Elementwise(elementwise) => reply@ == ReplyView::Elementwise(elementwise),
            Reply::Lowered { input, exprs } => reply@ == (ReplyView::Lowered {
                input,
                exprs: exprs@,
            }),
            Reply::Selected(key) => reply@ == ReplyView::Selected(key),
            Reply::Failed(error) => reply@ == ReplyView::Failed(error),
        },
{
}

/// A plan is what its arena holds, and a world is what the collections hold.
pub proof fn plans_and_worlds_are_what_is_held(
    ir_arena: Arena<IRNode>,
    csv_slice_disabled: bool,
    expr_arena: Arena<AExpr>,
    phys_sm: PhysNodes,
    cache_nodes: CacheNodes,
)
    ensures
        plan(ir_arena, csv_slice_disabled).nodes == ir_items(ir_arena),
        plan(ir_arena, csv_slice_disabled).csv_slice_disabled == csv_slice_disabled,
        world(expr_arena, phys_sm, cache_nodes).exprs == expr_items(expr_arena),
        world(expr_arena, phys_sm, cache_nodes).phys == phys_nodes(phys_sm),
        world(expr_arena, phys_sm, cache_nodes).cache == cached_nodes(cache_nodes),
{
}

/// Chains are no longer than a bound exactly when those of the inputs are shorter by one. A plan in
/// which every node reads only nodes before it has no chain without an end.
pub proof fn bounds_are_on_chains(p: Plan, node: Node, depth: nat)
    ensures
        !bounded(p, node, 0),
        bounded(p, node, depth + 1) == (node < p.nodes.len() && forall|i: int|
            0 <= i < inputs(p.nodes[node as int].ir).len() ==> bounded(
                p,
                #[trigger] inputs(p.nodes[node as int].ir)[i],
                depth,
            )),
        node < p.nodes.len() && depth > node && (forall|n: int, i: int|
            0 <= n < p.nodes.len() && 0 <= i < inputs(p.nodes[n].ir).len() ==> (#[trigger] inputs(
                p.nodes[n].ir,
            )[i]) < n) ==> bounded(p, node, depth),
    decreases depth,
{
    if node < p.nodes.len() && depth > node && (forall|n: int, i: int|
        0 <= n < p.nodes.len() && 0 <= i < inputs(p.nodes[n].ir).len() ==> (#[trigger] inputs(
            p.nodes[n].ir,
        )[i]) < n) {
        assert forall|i: int| 0 <= i < inputs(p.nodes[node as int].ir).len() implies bounded(
            p,
            #[trigger] inputs(p.nodes[node as int].ir)[i],
            (depth - 1) as nat,
        ) by {
            bounds_are_on_chains(p, inputs(p.nodes[node as int].ir)[i], (depth - 1) as nat);
        }
    }
}

/// A plan can be lowered exactly when its chains are bounded, nothing in it is stuck, all parts
/// that are lowered already are nodes of the physical plan, and the physical plan has room for four
/// nodes at each visit.
pub proof fn plans_can_be_lowered_where_there_is_room(p: Plan, node: Node, depth: nat, w: World)
    ensures
        lowerable(p, node, depth, w) == {
            let look = outlook(p, w.exprs, node, depth, w.cache.dom());
            &&& bounded(p, node, depth)
            &&& !(look is Stuck)
            &&& w.phys.dom().finite()
            &&& w.phys.dom().len() + 4 * look.visits() <= 0xffff_fffe
            &&& forall|id: usize|
                w.cache.contains_key(id) ==> w.phys.contains_key(#[trigger] w.cache[id])
        },
{
}

/// Every node of a complete physical plan finds what it reads.
pub proof fn complete_plans_hold_all_inputs(
    phys: Map<PhysNodeKey, PhysNodeView>,
    key: PhysNodeKey,
)
    requires
        complete(phys),
        phys.contains_key(key),
    ensures
        match phys[key].kind {
            PhysNodeKindView::InMemorySource { .. } => true,
            PhysNodeKindView::Select { input, .. } => phys.contains_key(input),
            PhysNodeKindView::WithRowIndex { input, .. } => phys.contains_key(input),
            PhysNodeKindView::StreamingSlice { input, .. } => phys.contains_key(input),
            PhysNodeKindView::Filter { input, .. } => phys.contains_key(input),
            PhysNodeKindView::SimpleProjection { input, .. } => phys.contains_key(input),
            PhysNodeKindView::InMemorySink { input } => phys.contains_key(input),
            PhysNodeKindView::FileSink { input, .. } => phys.contains_key(input),
            PhysNodeKindView::InMemoryMap { input, .. } => phys.contains_key(input),
            PhysNodeKindView::StreamingMap { input, .. } => phys.contains_key(input),
            PhysNodeKindView::Sort { input, .. } => phys.contains_key(input),
            PhysNodeKindView::OrderedUnion { inputs: all } => forall|j: int|
                0 <= j < all.len() ==> phys.contains_key(#[trigger] all[j]),
            PhysNodeKindView::Zip { inputs: all, .. } => forall|j: int|
                0 <= j < all.len() ==> phys.contains_key(#[trigger] all[j]),
            PhysNodeKindView::FileScan { .. } => true,
            PhysNodeKindView::GroupBy { input, .. } => phys.contains_key(input),
            PhysNodeKindView::InMemoryJoin { input_left, input_right, .. } => phys.contains_key(
                input_left,
            ) && phys.contains_key(input_right),
            PhysNodeKindView::EquiJoin { input_left, input_right, .. } => phys.contains_key(
                input_left,
            ) && phys.contains_key(input_right),
            PhysNodeKindView::Expression(_) => true,
        },
{
    let all = phys_inputs(phys[key].kind);
    assert(forall|j: int| 0 <= j < all.len() ==> phys.contains_key(#[trigger] all[j]));
    if all.len() > 0 {
        assert(phys.contains_key(all[0]));
    }
    if all.len() > 1 {
        assert(phys.contains_key(all[1]));
    }
}

/// A world that grows keeps every expression, every node as it is, and every lowered part, and its
/// physical plan stays complete.
pub proof fn growing_worlds_keep_what_they_hold(w: World, after: World)
    requires
        grows(w, after),
    ensures
        w.exprs.len() <= after.exprs.len(),
        after.exprs.take(w.exprs.len() as int) == w.exprs,
        w.phys.dom().subset_of(after.phys.dom()),
        forall|key: PhysNodeKey|
            w.phys.contains_key(key) ==> #[trigger] after.phys[key] == w.phys[key],
        w.cache.dom().subset_of(after.cache.dom()),
        complete(w.phys) ==> complete(after.phys),
{
}

/// An answer is accepted exactly when it can be used for what it is wanted for and the lowering can
/// go on; of a failure only the first is asked. When the lowering could go on as it asked, and the
/// service only added to what was there and left room, every answer that can be used is accepted.
pub proof fn answers_that_can_be_used_are_accepted(
    v: LoweringView,
    reply: ReplyView,
    w: World,
    after: World,
)
    ensures
        reply is Failed ==> v.accepts(reply, after) == fits(v.plan, v.pending, reply, after),
        !(reply is Failed) ==> v.accepts(reply, after) == (fits(v.plan, v.pending, reply, after)
            && ready(v.plan, v.levels, StepView::Ask(v.history.request, v.pending), after)),
        ({
            let asks = StepView::Ask(v.history.request, v.pending);
            &&& ready(v.plan, v.levels, asks, w)
            &&& grows(w, after)
            &&& after.cache == w.cache
            &&& fits(v.plan, v.pending, reply, after)
            &&& sound(
                after,
                owed(asks) + 4 * (whole_outlook(v.plan, v.levels, asks, w).visits()
                    + v.levels.len()),
            )
        }) ==> v.accepts(reply, after),
{
    let asks = StepView::Ask(v.history.request, v.pending);
    if ready(v.plan, v.levels, asks, w) && grows(w, after) && after.cache == w.cache && sound(
        after,
        owed(asks) + 4 * (whole_outlook(v.plan, v.levels, asks, w).visits() + v.levels.len()),
    ) {
        services_that_only_add_can_be_used(
            v.plan,
            v.levels,
            v.history.request,
            v.pending,
            w,
            after,
        );
    }
}

/// Between two answers nothing comes in but the keys of new nodes, and what came in before stays. A
/// lowering that waits is that of its plan from its root and its start on.
pub proof fn only_keys_come_in_between_answers(
    v: LoweringView,
    other: LoweringView,
    more: Seq<Input>,
    before: Seq<Input>,
)
    ensures
        keyed(more, before) ==> {
            &&& before.len() <= more.len()
            &&& more.take(before.len() as int) == before
            &&& forall|j: int| before.len() <= j < more.len() ==> #[trigger] more[j] is Key
        },
        v.run(more) == lower(
            v.plan,
            v.history.root,
            v.history.depth,
            v.history.start,
            more,
            0,
        ),
        v.continues(other) ==> v.run(more) == other.run(more),
{
}

} // verus!
