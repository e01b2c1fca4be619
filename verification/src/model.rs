//! What lowering does, as a function of the plan and of what comes in from outside.
//!
//! Two things come in while a plan is lowered: the keys under which the slot map files new nodes,
//! and the answers of the service that lowers expressions. [`lower`] runs through the lowering of
//! a node with all of them laid out in a sequence of [`Input`]s. Where the sequence ends before a
//! question has its answer, the run ends in the question.

use crate::ir::{inputs, AExpr, AExprKind, ExprIR, FileScan, FileScanOptions, FunctionIR, IRNode,
    JoinArgs, Node, OutputName, RowIndex, Scan, SinkType, IR};
use crate::phys::{Frame, PhysNodeKey, PhysNodeKindView, PhysNodeView};
use crate::schema::{names_of, same_names, schema_fields};
use crate::store::upsert;
use polars_core::prelude::DataType;
use polars_error::PolarsError;
use vstd::prelude::*;

verus! {

/// `polars_error::PolarsError`, which lowering hands on as the service gave it.
#[verifier::external_type_specification]
#[verifier::external_body]
pub struct ExPolarsError(PolarsError);

/// Why a plan was not lowered.
#[derive(Debug)]
pub enum LowerError {
    /// A grouping names no key.
    NoGroupByKeys,
    /// The service that lowers expressions failed.
    Polars(PolarsError),
}

/// A logical plan, and whether CSV readers are kept from slicing on their own.
pub ghost struct Plan {
    pub nodes: Seq<IRNode>,
    pub csv_slice_disabled: bool,
}

/// All that lowering changes: the expressions, the physical plan, and the lowered parts by id.
pub ghost struct World {
    pub exprs: Seq<AExpr>,
    pub phys: Map<PhysNodeKey, PhysNodeView>,
    pub cache: Map<usize, PhysNodeKey>,
}

/// A question to the service that lowers expressions.
pub ghost enum RequestView {
    /// Can the expression be computed row by row?
    IsElementwise { node: Node },
    /// Put the expressions into a form that can be streamed, on top of an input.
    LowerExprs { input: PhysNodeKey, exprs: Seq<ExprIR> },
    /// Make a node that selects the expressions from an input.
    BuildSelect { input: PhysNodeKey, selectors: Seq<ExprIR> },
}

/// An answer of the service.
pub ghost enum ReplyView {
    Elementwise(bool),
    /// The input and the expressions that stand for those that were asked about.
    Lowered { input: PhysNodeKey, exprs: Seq<ExprIR> },
    Selected(PhysNodeKey),
    Failed(PolarsError),
}

/// Something that comes in while a plan is lowered.
pub ghost enum Input {
    /// The key of a node that was added.
    Key(PhysNodeKey),
    /// An answer of the service, and the world as the service left it.
    Answer(ReplyView, World),
}

/// How a run ends, and where in the sequence of inputs.
pub ghost enum Run {
    Returns { result: Result<PhysNodeKey, LowerError>, world: World, next: nat },
    /// No input is left, and the service is asked something.
    Asks { request: RequestView, world: World },
    /// The inputs do not fit the plan, or the plan cannot be lowered.
    Stuck,
}

/// What is found out about a node before its inputs are lowered.
pub ghost enum PrepView {
    Plain,
    /// Whether all expressions of an `HStack` are elementwise.
    Elementwise(bool),
    /// The expressions that a `GroupBy` needs: its keys, then what each aggregation reads.
    Group(Seq<ExprIR>),
}

/// A run that adds a node.
pub open spec fn inserts(node: PhysNodeView, w: World, t: Seq<Input>, i: nat) -> Run {
    if i < t.len() {
        match t[i as int] {
            Input::Key(key) => if w.phys.contains_key(key) {
                Run::Stuck
            } else {
                Run::Returns {
                    result: Ok(key),
                    world: World { phys: w.phys.insert(key, node), ..w },
                    next: i + 1,
                }
            },
            Input::Answer(_, _) => Run::Stuck,
        }
    } else {
        Run::Stuck
    }
}

/// A run that ends because the service failed, or that cannot go on.
pub open spec fn fails(reply: ReplyView, w: World, i: nat) -> Run {
    match reply {
        ReplyView::Failed(error) => Run::Returns {
            result: Err(LowerError::Polars(error)),
            world: w,
            next: i,
        },
        _ => Run::Stuck,
    }
}

/// The rest of a run once the service has answered the request for a select node.
pub open spec fn after_select(reply: ReplyView, w: World, i: nat) -> Run {
    match reply {
        ReplyView::Selected(key) => Run::Returns { result: Ok(key), world: w, next: i },
        _ => fails(reply, w, i),
    }
}

/// A run that has the service make a select node.
pub open spec fn selects(
    input: PhysNodeKey,
    selectors: Seq<ExprIR>,
    w: World,
    t: Seq<Input>,
    i: nat,
) -> Run {
    if i >= t.len() {
        Run::Asks { request: RequestView::BuildSelect { input, selectors }, world: w }
    } else {
        match t[i as int] {
            Input::Answer(reply, after) => after_select(reply, after, i + 1),
            Input::Key(_) => Run::Stuck,
        }
    }
}

/// The node that keeps `length` rows from `offset` on.
pub open spec fn slice_node(
    input: PhysNodeKey,
    offset: i64,
    length: usize,
    schema: Seq<(String, DataType)>,
) -> PhysNodeView {
    PhysNodeView {
        output_schema: schema,
        kind: PhysNodeKindView::StreamingSlice { input, offset: offset as usize, length },
    }
}

/// A run that adds a node which keeps `length` rows from `offset` on.
pub open spec fn slices(
    input: PhysNodeKey,
    offset: i64,
    length: usize,
    w: World,
    t: Seq<Input>,
    i: nat,
) -> Run {
    if offset >= 0 {
        inserts(slice_node(input, offset, length, w.phys[input].output_schema), w, t, i)
    } else {
        Run::Stuck
    }
}

/// A run that goes on to slice what it returned, where there is a slice.
pub open spec fn then_slices(run: Run, slice: Option<(i64, usize)>, t: Seq<Input>) -> Run {
    match (run, slice) {
        (Run::Returns { result: Ok(key), world, next }, Some((offset, length))) => {
            slices(key, offset, length, world, t, next)
        },
        _ => run,
    }
}

/// The arena node of a column.
pub open spec fn column(name: String) -> AExpr {
    AExpr { kind: AExprKind::Column(name), output_name: OutputName::ColumnLhs(name) }
}

/// The expressions with a node for each of some columns at the end.
pub open spec fn with_columns(exprs: Seq<AExpr>, names: Seq<String>) -> Seq<AExpr> {
    exprs + Seq::new(names.len(), |j: int| column(names[j]))
}

/// The columns as expressions, when their arena nodes start at `first`.
pub open spec fn column_exprs(names: Seq<String>, first: nat) -> Seq<ExprIR> {
    Seq::new(
        names.len(),
        |j: int| ExprIR {
            node: (first + j) as usize,
            output_name: OutputName::ColumnLhs(names[j]),
        },
    )
}

/// The names of the columns that a node of the physical plan gives.
pub open spec fn columns_of(w: World, input: PhysNodeKey) -> Seq<String> {
    names_of(w.phys[input].output_schema)
}

/// The rest of a filter once its expressions are lowered: the filter itself takes the last of
/// them, and the others are selected from what it lets through.
pub open spec fn after_filter(reply: ReplyView, w: World, t: Seq<Input>, i: nat) -> Run {
    match reply {
        ReplyView::Lowered { input, exprs } => match inserts(
            filter_node(input, exprs, w),
            w,
            t,
            i,
        ) {
            Run::Returns { result: Ok(key), world, next } => {
                selects(key, exprs.drop_last(), world, t, next)
            },
            other => other,
        },
        _ => fails(reply, w, i),
    }
}

/// The node that lets rows through by the last of some expressions.
pub open spec fn filter_node(input: PhysNodeKey, exprs: Seq<ExprIR>, w: World) -> PhysNodeView {
    PhysNodeView {
        output_schema: w.phys[input].output_schema,
        kind: PhysNodeKindView::Filter { input, predicate: exprs.last() },
    }
}

/// A run that filters: all columns of the input and the predicate are lowered together.
pub open spec fn filters(
    input: PhysNodeKey,
    predicate: ExprIR,
    w: World,
    t: Seq<Input>,
    i: nat,
) -> Run {
    let names = columns_of(w, input);
    let request = RequestView::LowerExprs {
        input,
        exprs: column_exprs(names, w.exprs.len()).push(predicate),
    };
    if i >= t.len() {
        Run::Asks { request, world: World { exprs: with_columns(w.exprs, names), ..w } }
    } else {
        match t[i as int] {
            Input::Answer(reply, after) => after_filter(reply, after, t, i + 1),
            Input::Key(_) => Run::Stuck,
        }
    }
}

/// A run that goes on to filter what it returned, where there is a predicate.
pub open spec fn then_filters(run: Run, predicate: Option<ExprIR>, t: Seq<Input>) -> Run {
    match (run, predicate) {
        (Run::Returns { result: Ok(key), world, next }, Some(expr)) => {
            filters(key, expr, world, t, next)
        },
        _ => run,
    }
}

/// The entries of a list of expressions under their output names, the later ones replacing earlier
/// ones of the same name.
pub open spec fn by_name(exprs: Seq<ExprIR>) -> Seq<(Seq<char>, ExprIR)>
    decreases exprs.len(),
{
    if exprs.len() == 0 {
        seq![]
    } else {
        upsert(by_name(exprs.drop_last()), exprs.last().output_name.name()->0@, exprs.last())
    }
}

/// The expressions among some entries.
pub open spec fn entry_exprs(entries: Seq<(Seq<char>, ExprIR)>) -> Seq<ExprIR> {
    Seq::new(entries.len(), |i: int| entries[i].1)
}

/// What to select in place of adding columns to an input: all its columns, with the added ones in
/// the place of those of the same name, and the rest of them at the end.
pub open spec fn stacked(names: Seq<String>, first: nat, exprs: Seq<ExprIR>) -> Seq<ExprIR> {
    entry_exprs(by_name(column_exprs(names, first) + exprs))
}

/// The end of adding columns. Elementwise ones extend the input; otherwise all columns are
/// selected anew.
pub open spec fn finish_hstack(
    schema: Seq<(String, DataType)>,
    exprs: Seq<ExprIR>,
    prep: PrepView,
    input: PhysNodeKey,
    w: World,
    t: Seq<Input>,
    i: nat,
) -> Run {
    if prep == PrepView::Elementwise(true) {
        inserts(
            PhysNodeView {
                output_schema: schema,
                kind: PhysNodeKindView::Select { input, selectors: exprs, extend_original: true },
            },
            w,
            t,
            i,
        )
    } else {
        let names = columns_of(w, input);
        selects(
            input,
            stacked(names, w.exprs.len(), exprs),
            World { exprs: with_columns(w.exprs, names), ..w },
            t,
            i,
        )
    }
}

/// The end of reading a frame: the frame, and a projection where its columns are not yet those
/// that are wanted.
pub open spec fn finish_frame(
    schema: Seq<(String, DataType)>,
    df: Frame,
    given: Seq<(String, DataType)>,
    wanted: Option<Seq<(String, DataType)>>,
    w: World,
    t: Seq<Input>,
    i: nat,
) -> Run {
    let source = PhysNodeKindView::InMemorySource { df };
    if wanted matches Some(fields) && !same_names(names_of(fields), names_of(given)) {
        match inserts(PhysNodeView { output_schema: given, kind: source }, w, t, i) {
            Run::Returns { result: Ok(input), world, next } => inserts(
                PhysNodeView {
                    output_schema: schema,
                    kind: PhysNodeKindView::SimpleProjection {
                        input,
                        columns: names_of(wanted->0),
                    },
                },
                world,
                t,
                next,
            ),
            other => other,
        }
    } else {
        inserts(PhysNodeView { output_schema: schema, kind: source }, w, t, i)
    }
}

/// The operation that writes what comes in.
pub open spec fn sink_kind(payload: SinkType, input: PhysNodeKey) -> PhysNodeKindView {
    match payload {
        SinkType::Memory => PhysNodeKindView::InMemorySink { input },
        SinkType::File { path, file_type } => PhysNodeKindView::FileSink {
            path,
            file_type,
            input,
        },
    }
}

/// The operation that applies a function.
pub open spec fn map_kind(function: FunctionIR, input: PhysNodeKey) -> PhysNodeKindView {
    match function {
        FunctionIR::RowIndex { name, offset } => PhysNodeKindView::WithRowIndex {
            input,
            name,
            offset,
        },
        FunctionIR::MergeSorted { function } => PhysNodeKindView::InMemoryMap {
            input,
            map: function,
        },
        FunctionIR::Other { function, streamable } => if streamable {
            PhysNodeKindView::StreamingMap { input, map: function }
        } else {
            PhysNodeKindView::InMemoryMap { input, map: function }
        },
    }
}

/// Whether all that a scan does besides reading becomes nodes of its own. This is so for a CSV
/// file that can hold comments, since its rows cannot be counted without reading them.
pub open spec fn rewrites_all(scan_type: FileScan, csv_slice_disabled: bool) -> bool {
    scan_type matches FileScan::Csv { comment_prefix, .. } && (comment_prefix || csv_slice_disabled)
}

/// The row index that becomes a node of its own.
pub open spec fn row_index_node(scan: Scan, csv_slice_disabled: bool) -> Option<RowIndex> {
    if rewrites_all(scan.scan_type, csv_slice_disabled) {
        scan.file_options.row_index
    } else {
        None
    }
}

/// The slice that becomes a node of its own.
pub open spec fn scan_slice_node(scan: Scan, csv_slice_disabled: bool) -> Option<(i64, usize)> {
    if rewrites_all(scan.scan_type, csv_slice_disabled) {
        scan.file_options.slice
    } else {
        None
    }
}

/// The predicate that becomes a node of its own.
pub open spec fn predicate_node(scan: Scan) -> Option<ExprIR> {
    if scan.scan_type is Parquet {
        None
    } else {
        scan.predicate
    }
}

/// What is left for the reader of the files itself to do.
pub open spec fn reader(scan: Scan, csv_slice_disabled: bool) -> Scan {
    Scan {
        predicate: if scan.scan_type is Parquet {
            scan.predicate
        } else {
            None
        },
        file_options: if rewrites_all(scan.scan_type, csv_slice_disabled) {
            FileScanOptions { slice: None, row_index: None, ..scan.file_options }
        } else {
            scan.file_options
        },
        ..scan
    }
}

/// The read itself, with the row index on top of it where that is a node of its own. The reader
/// then gives all columns but the first.
pub open spec fn reads(
    schema: Seq<(String, DataType)>,
    scan: Scan,
    csv_slice_disabled: bool,
    w: World,
    t: Seq<Input>,
    i: nat,
) -> Run {
    let kind = PhysNodeKindView::FileScan { scan: reader(scan, csv_slice_disabled) };
    match row_index_node(scan, csv_slice_disabled) {
        Some(row_index) => match inserts(
            PhysNodeView { output_schema: schema.remove(0), kind },
            w,
            t,
            i,
        ) {
            Run::Returns { result: Ok(input), world, next } => inserts(
                PhysNodeView {
                    output_schema: schema,
                    kind: PhysNodeKindView::WithRowIndex {
                        input,
                        name: row_index.name,
                        offset: Some(row_index.offset),
                    },
                },
                world,
                t,
                next,
            ),
            other => other,
        },
        None => inserts(PhysNodeView { output_schema: schema, kind }, w, t, i),
    }
}

/// The end of a scan: the read, the row index, the slice and the filter, in this order, as far as
/// they are nodes of their own. A scan of no files is an empty frame.
pub open spec fn finish_scan(
    node: IRNode,
    scan: Scan,
    csv_slice_disabled: bool,
    w: World,
    t: Seq<Input>,
    i: nat,
) -> Run {
    let schema = schema_fields(*node.schema);
    if scan.sources.count == 0 {
        inserts(
            PhysNodeView {
                output_schema: schema,
                kind: PhysNodeKindView::InMemorySource { df: Frame::Empty(node.schema) },
            },
            w,
            t,
            i,
        )
    } else {
        then_filters(
            then_slices(
                reads(schema, scan, csv_slice_disabled, w, t, i),
                scan_slice_node(scan, csv_slice_disabled),
                t,
            ),
            predicate_node(scan),
            t,
        )
    }
}

/// An aggregation of the arena over another node. Anything else stays as it is.
pub open spec fn over(expr: AExpr, node: Node, exprs: Seq<AExpr>) -> AExpr {
    match expr.kind {
        AExprKind::Agg(agg) => AExpr {
            kind: AExprKind::Agg(agg.over(node)),
            output_name: exprs[node as int].output_name,
        },
        _ => expr,
    }
}

/// The aggregations over what stands for their inputs: the `j`-th over the `j`-th of `read`.
pub open spec fn aggregations(aggs: Seq<ExprIR>, read: Seq<ExprIR>, exprs: Seq<AExpr>) -> Seq<
    AExpr,
> {
    Seq::new(
        if aggs.len() <= read.len() {
            aggs.len()
        } else {
            read.len()
        },
        |j: int| over(exprs[aggs[j].node as int], read[j].node, exprs),
    )
}

/// The first `count` of some expressions under their own names, at the arena nodes from `first` on.
pub open spec fn renumbered(aggs: Seq<ExprIR>, count: nat, first: nat) -> Seq<ExprIR> {
    Seq::new(
        count,
        |j: int| ExprIR { node: (first + j) as usize, output_name: aggs[j].output_name },
    )
}

/// The rest of a grouping once its expressions are lowered: the first ones are the keys, and the
/// others are what the aggregations read.
pub open spec fn after_group(
    schema: Seq<(String, DataType)>,
    keys: Seq<ExprIR>,
    aggs: Seq<ExprIR>,
    slice: Option<(i64, usize)>,
    reply: ReplyView,
    w: World,
    t: Seq<Input>,
    i: nat,
) -> Run {
    match reply {
        ReplyView::Lowered { input, exprs } => {
            let added = aggregations(aggs, exprs.skip(keys.len() as int), w.exprs);
            then_slices(
                inserts(
                    PhysNodeView {
                        output_schema: schema,
                        kind: PhysNodeKindView::GroupBy {
                            input,
                            key: exprs.take(keys.len() as int),
                            aggs: renumbered(aggs, added.len(), w.exprs.len()),
                        },
                    },
                    World { exprs: w.exprs + added, ..w },
                    t,
                    i,
                ),
                slice,
                t,
            )
        },
        _ => fails(reply, w, i),
    }
}

/// A run that groups: the keys and what the aggregations read are lowered together.
pub open spec fn finish_group(
    schema: Seq<(String, DataType)>,
    keys: Seq<ExprIR>,
    aggs: Seq<ExprIR>,
    slice: Option<(i64, usize)>,
    needed: Seq<ExprIR>,
    input: PhysNodeKey,
    w: World,
    t: Seq<Input>,
    i: nat,
) -> Run {
    if i >= t.len() {
        Run::Asks { request: RequestView::LowerExprs { input, exprs: needed }, world: w }
    } else {
        match t[i as int] {
            Input::Answer(reply, after) => {
                after_group(schema, keys, aggs, slice, reply, after, t, i + 1)
            },
            Input::Key(_) => Run::Stuck,
        }
    }
}

/// The rest of a join by equal keys once the keys of the right side are lowered.
pub open spec fn after_right(
    schema: Seq<(String, DataType)>,
    args: JoinArgs,
    left: PhysNodeKey,
    left_on: Seq<ExprIR>,
    right_keys: nat,
    reply: ReplyView,
    w: World,
    t: Seq<Input>,
    i: nat,
) -> Run {
    match reply {
        ReplyView::Lowered { input, exprs } => then_slices(
            inserts(
                PhysNodeView {
                    output_schema: schema,
                    kind: PhysNodeKindView::EquiJoin {
                        input_left: left,
                        input_right: input,
                        left_on,
                        right_on: exprs.take(right_keys as int),
                        args,
                    },
                },
                w,
                t,
                i,
            ),
            args.slice,
            t,
        ),
        _ => fails(reply, w, i),
    }
}

/// A run that lowers the right side of a join by equal keys.
pub open spec fn joins_right(
    schema: Seq<(String, DataType)>,
    args: JoinArgs,
    left: PhysNodeKey,
    left_on: Seq<ExprIR>,
    right_keys: nat,
    right: PhysNodeKey,
    right_exprs: Seq<ExprIR>,
    w: World,
    t: Seq<Input>,
    i: nat,
) -> Run {
    if i >= t.len() {
        Run::Asks {
            request: RequestView::LowerExprs { input: right, exprs: right_exprs },
            world: w,
        }
    } else {
        match t[i as int] {
            Input::Answer(reply, after) => {
                after_right(schema, args, left, left_on, right_keys, reply, after, t, i + 1)
            },
            Input::Key(_) => Run::Stuck,
        }
    }
}

/// The rest of a join by equal keys once the keys of the left side are lowered.
pub open spec fn after_left(
    schema: Seq<(String, DataType)>,
    args: JoinArgs,
    left_keys: nat,
    right_keys: nat,
    right: PhysNodeKey,
    right_exprs: Seq<ExprIR>,
    reply: ReplyView,
    w: World,
    t: Seq<Input>,
    i: nat,
) -> Run {
    match reply {
        ReplyView::Lowered { input, exprs } => joins_right(
            schema,
            args,
            input,
            exprs.take(left_keys as int),
            right_keys,
            right,
            right_exprs,
            w,
            t,
            i,
        ),
        _ => fails(reply, w, i),
    }
}

/// Whether a join is done on streams.
pub open spec fn streams(args: JoinArgs) -> bool {
    args.how.equi() && args.validation is ManyToMany
}

/// The end of a join. For a join by equal keys the keys of each side are lowered together with all
/// columns of that side, which are dropped again afterwards.
pub open spec fn finish_join(
    schema: Seq<(String, DataType)>,
    left_on: Seq<ExprIR>,
    right_on: Seq<ExprIR>,
    args: JoinArgs,
    left: PhysNodeKey,
    right: PhysNodeKey,
    w: World,
    t: Seq<Input>,
    i: nat,
) -> Run {
    if streams(args) {
        let left_names = columns_of(w, left);
        let right_names = columns_of(w, right);
        let left_exprs = left_on + column_exprs(left_names, w.exprs.len());
        let right_exprs = right_on + column_exprs(
            right_names,
            w.exprs.len() + left_names.len(),
        );
        if i >= t.len() {
            Run::Asks {
                request: RequestView::LowerExprs { input: left, exprs: left_exprs },
                world: World {
                    exprs: with_columns(with_columns(w.exprs, left_names), right_names),
                    ..w
                },
            }
        } else {
            match t[i as int] {
                Input::Answer(reply, after) => after_left(
                    schema,
                    args,
                    left_on.len(),
                    right_on.len(),
                    right,
                    right_exprs,
                    reply,
                    after,
                    t,
                    i + 1,
                ),
                Input::Key(_) => Run::Stuck,
            }
        }
    } else {
        inserts(
            PhysNodeView {
                output_schema: schema,
                kind: PhysNodeKindView::InMemoryJoin {
                    input_left: left,
                    input_right: right,
                    left_on,
                    right_on,
                    args,
                },
            },
            w,
            t,
            i,
        )
    }
}

/// The end of the lowering of a node, once all its inputs are lowered to `keys`.
pub open spec fn finish(
    p: Plan,
    node: Node,
    prep: PrepView,
    keys: Seq<PhysNodeKey>,
    w: World,
    t: Seq<Input>,
    i: nat,
) -> Run {
    let n = p.nodes[node as int];
    let schema = schema_fields(*n.schema);
    match n.ir {
        IR::SimpleProjection { columns, .. } => inserts(
            PhysNodeView {
                output_schema: schema,
                kind: PhysNodeKindView::SimpleProjection {
                    input: keys[0],
                    columns: names_of(schema_fields(*columns)),
                },
            },
            w,
            t,
            i,
        ),
        IR::Select { expr, .. } => selects(keys[0], expr@, w, t, i),
        IR::HStack { exprs, .. } => finish_hstack(schema, exprs@, prep, keys[0], w, t, i),
        IR::Slice { offset, len, .. } => slices(keys[0], offset, len as usize, w, t, i),
        IR::Filter { predicate, .. } => filters(keys[0], predicate, w, t, i),
        IR::DataFrameScan { df, schema: given, output_schema: wanted } => finish_frame(
            schema,
            Frame::Given(df),
            schema_fields(*given),
            match wanted {
                Some(fields) => Some(schema_fields(*fields)),
                None => None,
            },
            w,
            t,
            i,
        ),
        IR::Sink { payload, .. } => inserts(
            PhysNodeView { output_schema: schema, kind: sink_kind(payload, keys[0]) },
            w,
            t,
            i,
        ),
        IR::MapFunction { function, .. } => inserts(
            PhysNodeView { output_schema: schema, kind: map_kind(function, keys[0]) },
            w,
            t,
            i,
        ),
        IR::Sort { by_column, slice, sort_options, .. } => inserts(
            PhysNodeView {
                output_schema: schema,
                kind: PhysNodeKindView::Sort {
                    input: keys[0],
                    by_column: by_column@,
                    slice,
                    sort_options,
                },
            },
            w,
            t,
            i,
        ),
        IR::Union { slice, .. } => then_slices(
            inserts(
                PhysNodeView {
                    output_schema: schema,
                    kind: PhysNodeKindView::OrderedUnion { inputs: keys },
                },
                w,
                t,
                i,
            ),
            slice,
            t,
        ),
        IR::HConcat { .. } => inserts(
            PhysNodeView {
                output_schema: schema,
                kind: PhysNodeKindView::Zip { inputs: keys, null_extend: true },
            },
            w,
            t,
            i,
        ),
        IR::Scan { scan } => finish_scan(n, scan, p.csv_slice_disabled, w, t, i),
        IR::Cache { id, .. } => Run::Returns {
            result: Ok(keys[0]),
            world: World { cache: w.cache.insert(id, keys[0]), ..w },
            next: i,
        },
        IR::GroupBy { keys: by, aggs, options, .. } => finish_group(
            schema,
            by@,
            aggs@,
            options.slice,
            prep->Group_0,
            keys[0],
            w,
            t,
            i,
        ),
        IR::Join { left_on, right_on, args, .. } => finish_join(
            schema,
            left_on@,
            right_on@,
            args,
            keys[0],
            keys[1],
            w,
            t,
            i,
        ),
        IR::PythonScan { .. } => Run::Stuck,
        IR::Distinct { .. } => Run::Stuck,
        IR::ExtContext { .. } => Run::Stuck,
        IR::Invalid => Run::Stuck,
    }
}

/// The lowering of the inputs of a node from the `keys.len()`-th on, and then of the node itself.
pub open spec fn lower_inputs(
    p: Plan,
    node: Node,
    depth: nat,
    prep: PrepView,
    keys: Seq<PhysNodeKey>,
    w: World,
    t: Seq<Input>,
    i: nat,
) -> Run
    decreases depth, 1nat, inputs(p.nodes[node as int].ir).len() - keys.len(),
{
    let all = inputs(p.nodes[node as int].ir);
    if keys.len() >= all.len() {
        finish(p, node, prep, keys, w, t, i)
    } else if depth == 0 {
        Run::Stuck
    } else {
        match lower(p, all[keys.len() as int], (depth - 1) as nat, w, t, i) {
            Run::Returns { result: Ok(key), world, next } => {
                lower_inputs(p, node, depth, prep, keys.push(key), world, t, next)
            },
            other => other,
        }
    }
}

/// Asks of the expressions of an `HStack`, from the `at`-th on and up to the first that is not,
/// whether they are elementwise.
pub open spec fn tests_stack(
    p: Plan,
    node: Node,
    depth: nat,
    at: nat,
    w: World,
    t: Seq<Input>,
    i: nat,
) -> Run
    decreases depth, 2nat, p.nodes[node as int].ir->HStack_exprs@.len() - at,
{
    let exprs = p.nodes[node as int].ir->HStack_exprs@;
    if at >= exprs.len() {
        lower_inputs(p, node, depth, PrepView::Elementwise(true), seq![], w, t, i)
    } else if i >= t.len() {
        Run::Asks {
            request: RequestView::IsElementwise { node: exprs[at as int].node },
            world: w,
        }
    } else {
        match t[i as int] {
            Input::Answer(ReplyView::Elementwise(elementwise), after) => if elementwise {
                tests_stack(p, node, depth, at + 1, after, t, i + 1)
            } else {
                lower_inputs(
                    p,
                    node,
                    depth,
                    PrepView::Elementwise(false),
                    seq![],
                    after,
                    t,
                    i + 1,
                )
            },
            _ => Run::Stuck,
        }
    }
}

/// An arena node as an expression under its own name.
pub open spec fn from_node(node: Node, exprs: Seq<AExpr>) -> ExprIR {
    ExprIR { node, output_name: exprs[node as int].output_name }
}

/// The node that an aggregation reads, where the arena holds an aggregation that can be streamed.
pub open spec fn agg_input(expr: AExpr) -> Option<Node> {
    match expr.kind {
        AExprKind::Agg(agg) => agg.input(),
        _ => None,
    }
}

/// Collects what the aggregations of a `GroupBy` read, from the `at`-th on, behind the expressions
/// that are `needed` already, and asks of each whether it is elementwise. A count of rows reads
/// the first key.
pub open spec fn tests_group(
    p: Plan,
    node: Node,
    depth: nat,
    at: nat,
    needed: Seq<ExprIR>,
    w: World,
    t: Seq<Input>,
    i: nat,
) -> Run
    decreases depth, 2nat, p.nodes[node as int].ir->GroupBy_aggs@.len() - at,
{
    let keys = p.nodes[node as int].ir->GroupBy_keys@;
    let aggs = p.nodes[node as int].ir->GroupBy_aggs@;
    if at >= aggs.len() {
        lower_inputs(p, node, depth, PrepView::Group(needed), seq![], w, t, i)
    } else {
        let expr = w.exprs[aggs[at as int].node as int];
        if expr.kind is Len {
            tests_group(p, node, depth, at + 1, needed.push(keys[0]), w, t, i)
        } else {
            match agg_input(expr) {
                Some(input) => if i >= t.len() {
                    Run::Asks { request: RequestView::IsElementwise { node: input }, world: w }
                } else {
                    match t[i as int] {
                        Input::Answer(ReplyView::Elementwise(true), after) => tests_group(
                            p,
                            node,
                            depth,
                            at + 1,
                            needed.push(from_node(input, after.exprs)),
                            after,
                            t,
                            i + 1,
                        ),
                        _ => Run::Stuck,
                    }
                },
                None => Run::Stuck,
            }
        }
    }
}

/// The lowering of a node from the `i`-th input on. Only plans that are no deeper than `depth`
/// are followed to their end.
pub open spec fn lower(p: Plan, node: Node, depth: nat, w: World, t: Seq<Input>, i: nat) -> Run
    decreases depth, 3nat, 0int,
{
    if node >= p.nodes.len() || depth == 0 {
        Run::Stuck
    } else {
        match p.nodes[node as int].ir {
            IR::HStack { .. } => tests_stack(p, node, depth, 0, w, t, i),
            IR::GroupBy { keys, .. } => if keys@.len() == 0 {
                Run::Returns { result: Err(LowerError::NoGroupByKeys), world: w, next: i }
            } else {
                tests_group(p, node, depth, 0, keys@, w, t, i)
            },
            IR::Cache { id, .. } => if w.cache.contains_key(id) {
                Run::Returns { result: Ok(w.cache[id]), world: w, next: i }
            } else {
                lower_inputs(p, node, depth, PrepView::Plain, seq![], w, t, i)
            },
            _ => lower_inputs(p, node, depth, PrepView::Plain, seq![], w, t, i),
        }
    }
}

} // verus!
