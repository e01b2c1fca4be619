//! What each operation of a logical plan is lowered to.

use crate::ir::{inputs, AExpr, AExprKind, ExprIR, FileScan, FileScanOptions, FunctionIR, Node,
    OutputName, Scan, SinkType, IR};
use crate::model::{filters, finish, lower, lower_inputs, selects, Input, LowerError, Plan, PrepView,
    ReplyView, RequestView, Run, World};
use crate::phys::{Frame, PhysNodeKey, PhysNodeKindView, PhysNodeView};
use crate::schema::{names_of, same_names, schema_fields};
use polars_core::prelude::DataType;
use polars_error::PolarsError;
use vstd::prelude::*;

verus! {

/// Whether the `j`-th input is the key of a node that is not in the physical plan yet.
pub open spec fn fresh(t: Seq<Input>, j: nat, w: World) -> bool {
    j < t.len() && (t[j as int] matches Input::Key(key) && !w.phys.contains_key(key))
}

/// The key that comes in as the `j`-th input.
pub open spec fn key_at(t: Seq<Input>, j: nat) -> PhysNodeKey {
    t[j as int]->Key_0
}

/// A world with one more node in the physical plan.
pub open spec fn with_node(
    w: World,
    key: PhysNodeKey,
    columns: Seq<(String, DataType)>,
    kind: PhysNodeKindView,
) -> World {
    World { phys: w.phys.insert(key, PhysNodeView { output_schema: columns, kind }), ..w }
}

/// Whether some nodes are lowered to some keys, one after the other.
pub open spec fn lowers_all(
    p: Plan,
    nodes: Seq<Node>,
    depth: nat,
    w: World,
    t: Seq<Input>,
    i: nat,
    keys: Seq<PhysNodeKey>,
    after: World,
    next: nat,
) -> bool
    decreases nodes.len(),
{
    if nodes.len() == 0 {
        keys.len() == 0 && after == w && next == i
    } else {
        keys.len() > 0 && match lower(p, nodes[0], depth, w, t, i) {
            Run::Returns { result: Ok(key), world, next: then } => key == keys[0] && lowers_all(
                p,
                nodes.skip(1),
                depth,
                world,
                t,
                then,
                keys.skip(1),
                after,
                next,
            ),
            _ => false,
        }
    }
}

/// Whether the expressions of a world are those of another with one more for each column.
pub open spec fn has_columns(
    exprs: Seq<AExpr>,
    before: Seq<AExpr>,
    columns: Seq<(String, DataType)>,
) -> bool {
    &&& exprs.len() == before.len() + columns.len()
    &&& forall|k: int| 0 <= k < before.len() ==> #[trigger] exprs[k] == before[k]
    &&& forall|k: int|
        0 <= k < columns.len() ==> exprs[before.len() + k] == (AExpr {
            kind: AExprKind::Column((#[trigger] columns[k]).0),
            output_name: OutputName::ColumnLhs(columns[k].0),
        })
}

/// Whether a list names, from a place on, the columns whose arena nodes start at `first`.
pub open spec fn names_columns(
    list: Seq<ExprIR>,
    from: int,
    first: nat,
    columns: Seq<(String, DataType)>,
) -> bool {
    forall|k: int|
        0 <= k < columns.len() ==> list[from + k] == (ExprIR {
            node: (first + k) as usize,
            output_name: OutputName::ColumnLhs((#[trigger] columns[k]).0),
        })
}

/// The inputs of an operation are those that it names, the left one of a join first.
pub proof fn operations_read_what_they_name(ir: IR)
    ensures
        match ir {
            IR::SimpleProjection { input, .. } => inputs(ir) == seq![input],
            IR::Select { input, .. } => inputs(ir) == seq![input],
            IR::HStack { input, .. } => inputs(ir) == seq![input],
            IR::Slice { input, .. } => inputs(ir) == seq![input],
            IR::Filter { input, .. } => inputs(ir) == seq![input],
            IR::DataFrameScan { .. } => inputs(ir).len() == 0,
            IR::Sink { input, .. } => inputs(ir) == seq![input],
            IR::MapFunction { input, .. } => inputs(ir) == seq![input],
            IR::Sort { input, .. } => inputs(ir) == seq![input],
            IR::Union { inputs: all, .. } => inputs(ir) == all@,
            IR::HConcat { inputs: all } => inputs(ir) == all@,
            IR::Scan { .. } => inputs(ir).len() == 0,
            IR::PythonScan { .. } => inputs(ir).len() == 0,
            IR::Cache { input, .. } => inputs(ir) == seq![input],
            IR::GroupBy { input, .. } => inputs(ir) == seq![input],
            IR::Join { input_left, input_right, .. } => {
                inputs(ir) == seq![input_left, input_right]
            },
            IR::Distinct { input, .. } => inputs(ir) == seq![input],
            IR::ExtContext { input, .. } => inputs(ir) == seq![input],
            IR::Invalid => inputs(ir).len() == 0,
        },
{
}

proof fn lemma_chain(
    p: Plan,
    node: Node,
    depth: nat,
    prep: PrepView,
    done: Seq<PhysNodeKey>,
    count: nat,
    w: World,
    t: Seq<Input>,
    i: nat,
    keys: Seq<PhysNodeKey>,
    after: World,
    next: nat,
)
    requires
        depth > 0,
        done.len() + count <= inputs(p.nodes[node as int].ir).len(),
        lowers_all(
            p,
            inputs(p.nodes[node as int].ir).subrange(
                done.len() as int,
                (done.len() + count) as int,
            ),
            (depth - 1) as nat,
            w,
            t,
            i,
            keys,
            after,
            next,
        ),
    ensures
        keys.len() == count,
        lower_inputs(p, node, depth, prep, done, w, t, i) == lower_inputs(
            p,
            node,
            depth,
            prep,
            done + keys,
            after,
            t,
            next,
        ),
    decreases count,
{
    let all = inputs(p.nodes[node as int].ir);
    let nodes = all.subrange(done.len() as int, (done.len() + count) as int);
    if count == 0 {
        assert(done + keys == done);
    } else {
        let run = lower(p, nodes[0], (depth - 1) as nat, w, t, i);
        let more = done.push(keys[0]);
        assert(nodes.skip(1) == all.subrange(
            more.len() as int,
            (more.len() + (count - 1)) as int,
        ));
        lemma_chain(
            p,
            node,
            depth,
            prep,
            more,
            (count - 1) as nat,
            run->Returns_world,
            t,
            run->Returns_next,
            keys.skip(1),
            after,
            next,
        );
        assert(more + keys.skip(1) == done + keys);
    }
}

/// The inputs of a node are lowered one after the other, and then the node itself on top of them.
/// The first input that is not lowered, or not without a question, decides what comes of the node.
pub proof fn inputs_are_lowered_in_order(
    p: Plan,
    node: Node,
    depth: nat,
    w: World,
    t: Seq<Input>,
    i: nat,
    keys: Seq<PhysNodeKey>,
    after: World,
    next: nat,
)
    requires
        node < p.nodes.len(),
        depth > 0,
        !(p.nodes[node as int].ir is HStack),
        !(p.nodes[node as int].ir is GroupBy),
        !(p.nodes[node as int].ir is Cache),
        keys.len() <= inputs(p.nodes[node as int].ir).len(),
        lowers_all(
            p,
            inputs(p.nodes[node as int].ir).take(keys.len() as int),
            (depth - 1) as nat,
            w,
            t,
            i,
            keys,
            after,
            next,
        ),
    ensures
        keys.len() == inputs(p.nodes[node as int].ir).len() ==> lower(p, node, depth, w, t, i)
            == finish(p, node, PrepView::Plain, keys, after, t, next),
        keys.len() < inputs(p.nodes[node as int].ir).len() ==> {
            let run = lower(
                p,
                inputs(p.nodes[node as int].ir)[keys.len() as int],
                (depth - 1) as nat,
                after,
                t,
                next,
            );
            !(run matches Run::Returns { result: Ok(_), .. }) ==> lower(p, node, depth, w, t, i)
                == run
        },
{
    let all = inputs(p.nodes[node as int].ir);
    let none = Seq::<PhysNodeKey>::empty();
    assert(all.take(keys.len() as int) == all.subrange(0, keys.len() as int));
    lemma_chain(
        p,
        node,
        depth,
        PrepView::Plain,
        none,
        keys.len(),
        w,
        t,
        i,
        keys,
        after,
        next,
    );
    assert(none + keys == keys);
}

/// The end of a node with one input comes after that of the input.
pub proof fn lemma_one_input(
    p: Plan,
    node: Node,
    depth: nat,
    prep: PrepView,
    w: World,
    t: Seq<Input>,
    i: nat,
)
    requires
        depth > 0,
        inputs(p.nodes[node as int].ir).len() == 1,
    ensures
        lower_inputs(p, node, depth, prep, seq![], w, t, i) == match lower(
            p,
            inputs(p.nodes[node as int].ir)[0],
            (depth - 1) as nat,
            w,
            t,
            i,
        ) {
            Run::Returns { result: Ok(key), world, next } => {
                finish(p, node, prep, seq![key], world, t, next)
            },
            other => other,
        },
{
    if let Run::Returns { result: Ok(key), world, next } = lower(
        p,
        inputs(p.nodes[node as int].ir)[0],
        (depth - 1) as nat,
        w,
        t,
        i,
    ) {
        assert(Seq::<PhysNodeKey>::empty().push(key) == seq![key]);
        assert(lower_inputs(p, node, depth, prep, seq![key], world, t, next) == finish(
            p,
            node,
            prep,
            seq![key],
            world,
            t,
            next,
        ));
    }
}

/// A projection becomes one that names the same columns in the same order, over its input.
pub proof fn projections_name_their_columns(
    p: Plan,
    node: Node,
    depth: nat,
    w: World,
    t: Seq<Input>,
    i: nat,
    key: PhysNodeKey,
    after: World,
    next: nat,
)
    requires
        node < p.nodes.len(),
        depth > 0,
        p.nodes[node as int].ir matches IR::SimpleProjection { input, .. } && lower(
            p,
            input,
            (depth - 1) as nat,
            w,
            t,
            i,
        ) == (Run::Returns { result: Ok(key), world: after, next }),
        fresh(t, next, after),
    ensures
        ({
            let columns = schema_fields(*p.nodes[node as int].ir->SimpleProjection_columns);
            &&& lower(p, node, depth, w, t, i) matches Run::Returns {
                result: Ok(made),
                world,
                next: end,
            }
            &&& made == key_at(t, next)
            &&& end == next + 1
            &&& world.phys.contains_key(made)
            &&& world.phys[made].kind matches PhysNodeKindView::SimpleProjection {
                input: from,
                columns: named,
            }
            &&& from == key
            &&& named.len() == columns.len()
            &&& forall|k: int| 0 <= k < named.len() ==> #[trigger] named[k] == columns[k].0
            &&& world == with_node(
                after,
                made,
                schema_fields(*p.nodes[node as int].schema),
                world.phys[made].kind,
            )
        }),
{
    lemma_one_input(p, node, depth, PrepView::Plain, w, t, i);
}

/// A select is asked for with just its expressions, over its input; the node that the service made
/// is what it is lowered to.
pub proof fn selects_are_asked_for(
    p: Plan,
    node: Node,
    depth: nat,
    w: World,
    t: Seq<Input>,
    i: nat,
    key: PhysNodeKey,
    after: World,
    next: nat,
)
    requires
        node < p.nodes.len(),
        depth > 0,
        p.nodes[node as int].ir matches IR::Select { input, .. } && lower(
            p,
            input,
            (depth - 1) as nat,
            w,
            t,
            i,
        ) == (Run::Returns { result: Ok(key), world: after, next }),
    ensures
        lower(p, node, depth, w, t, i) == selects(
            key,
            p.nodes[node as int].ir->Select_expr@,
            after,
            t,
            next,
        ),
{
    lemma_one_input(p, node, depth, PrepView::Plain, w, t, i);
}

/// The service is asked for a select node, and its answer is final.
pub proof fn the_service_selects(
    input: PhysNodeKey,
    selectors: Seq<ExprIR>,
    w: World,
    t: Seq<Input>,
    i: nat,
)
    ensures
        t.len() == i ==> selects(input, selectors, w, t, i) == (Run::Asks {
            request: RequestView::BuildSelect { input, selectors },
            world: w,
        }),
        i < t.len() ==> match t[i as int] {
            Input::Answer(ReplyView::Selected(key), after) => selects(
                input,
                selectors,
                w,
                t,
                i,
            ) == (Run::Returns { result: Ok(key), world: after, next: i + 1 }),
            Input::Answer(ReplyView::Failed(error), after) => selects(
                input,
                selectors,
                w,
                t,
                i,
            ) == (Run::Returns {
                result: Err(LowerError::Polars(error)),
                world: after,
                next: i + 1,
            }),
            _ => true,
        },
{
}

/// A slice becomes a node with the same offset and length over its input, with the columns of the
/// input.
pub proof fn slices_keep_their_rows(
    p: Plan,
    node: Node,
    depth: nat,
    w: World,
    t: Seq<Input>,
    i: nat,
    key: PhysNodeKey,
    after: World,
    next: nat,
)
    requires
        node < p.nodes.len(),
        depth > 0,
        p.nodes[node as int].ir matches IR::Slice { input, offset, .. } && offset >= 0 && lower(
            p,
            input,
            (depth - 1) as nat,
            w,
            t,
            i,
        ) == (Run::Returns { result: Ok(key), world: after, next }),
        fresh(t, next, after),
    ensures
        lower(p, node, depth, w, t, i) == (Run::Returns {
            result: Ok(key_at(t, next)),
            world: with_node(
                after,
                key_at(t, next),
                after.phys[key].output_schema,
                PhysNodeKindView::StreamingSlice {
                    input: key,
                    offset: p.nodes[node as int].ir->Slice_offset as usize,
                    length: p.nodes[node as int].ir->Slice_len as usize,
                },
            ),
            next: next + 1,
        }),
{
    lemma_one_input(p, node, depth, PrepView::Plain, w, t, i);
}

/// A filter lets rows of its input through by its predicate.
pub proof fn filters_use_their_predicate(
    p: Plan,
    node: Node,
    depth: nat,
    w: World,
    t: Seq<Input>,
    i: nat,
    key: PhysNodeKey,
    after: World,
    next: nat,
)
    requires
        node < p.nodes.len(),
        depth > 0,
        p.nodes[node as int].ir matches IR::Filter { input, .. } && lower(
            p,
            input,
            (depth - 1) as nat,
            w,
            t,
            i,
        ) == (Run::Returns { result: Ok(key), world: after, next }),
    ensures
        lower(p, node, depth, w, t, i) == filters(
            key,
            p.nodes[node as int].ir->Filter_predicate,
            after,
            t,
            next,
        ),
{
    lemma_one_input(p, node, depth, PrepView::Plain, w, t, i);
}

/// To filter, all columns of the input and then the predicate are asked to be lowered together.
pub proof fn filters_ask_for_all_columns(
    input: PhysNodeKey,
    predicate: ExprIR,
    w: World,
    t: Seq<Input>,
)
    ensures
        ({
            let columns = w.phys[input].output_schema;
            &&& filters(input, predicate, w, t, t.len()) matches Run::Asks {
                request: RequestView::LowerExprs { input: from, exprs },
                world,
            }
            &&& from == input
            &&& exprs.len() == columns.len() + 1
            &&& names_columns(exprs, 0, w.exprs.len(), columns)
            &&& exprs[columns.len() as int] == predicate
            &&& has_columns(world.exprs, w.exprs, columns)
            &&& world.phys == w.phys
            &&& world.cache == w.cache
        }),
{
}

/// Of the lowered expressions of a filter the last one decides which rows come through, and the
/// others are selected from those.
pub proof fn filters_go_by_the_last_expression(
    input: PhysNodeKey,
    predicate: ExprIR,
    w: World,
    t: Seq<Input>,
    i: nat,
    from: PhysNodeKey,
    exprs: Seq<ExprIR>,
    after: World,
)
    requires
        i < t.len(),
        t[i as int] == Input::Answer(ReplyView::Lowered { input: from, exprs }, after),
        exprs.len() > 0,
        fresh(t, i + 1, after),
    ensures
        ({
            let made = key_at(t, i + 1);
            let now = with_node(
                after,
                made,
                after.phys[from].output_schema,
                PhysNodeKindView::Filter { input: from, predicate: exprs[exprs.len() - 1] },
            );
            filters(input, predicate, w, t, i) == selects(
                made,
                exprs.take(exprs.len() - 1),
                now,
                t,
                i + 2,
            )
        }),
{
    assert(exprs.take(exprs.len() - 1) == exprs.drop_last());
}

/// When the expressions of a filter cannot be lowered, the error of the service is handed on.
pub proof fn filters_hand_on_failures(
    input: PhysNodeKey,
    predicate: ExprIR,
    w: World,
    t: Seq<Input>,
    i: nat,
    error: PolarsError,
    after: World,
)
    requires
        i < t.len(),
        t[i as int] == Input::Answer(ReplyView::Failed(error), after),
    ensures
        filters(input, predicate, w, t, i) == (Run::Returns {
            result: Err(LowerError::Polars(error)),
            world: after,
            next: i + 1,
        }),
{
}

/// Whether two lists of columns have the same names in the same order.
pub open spec fn named_alike(a: Seq<(String, DataType)>, b: Seq<(String, DataType)>) -> bool {
    a.len() == b.len() && forall|k: int| 0 <= k < a.len() ==> (#[trigger] a[k]).0@ == b[k].0@
}

/// A frame becomes a source of its own. Where other columns are wanted than the frame has, or in
/// another order, a projection that names just the wanted ones is on top of it.
pub proof fn frames_become_sources(
    p: Plan,
    node: Node,
    depth: nat,
    w: World,
    t: Seq<Input>,
    i: nat,
)
    requires
        node < p.nodes.len(),
        depth > 0,
        p.nodes[node as int].ir is DataFrameScan,
        fresh(t, i, w),
    ensures
        ({
            let ir = p.nodes[node as int].ir;
            let columns = schema_fields(*p.nodes[node as int].schema);
            let given = schema_fields(*ir->DataFrameScan_schema);
            let source = PhysNodeKindView::InMemorySource {
                df: Frame::Given(ir->DataFrameScan_df),
            };
            let run = lower(p, node, depth, w, t, i);
            let alike = Run::Returns {
                result: Ok(key_at(t, i)),
                world: with_node(w, key_at(t, i), columns, source),
                next: i + 1,
            };
            match ir->DataFrameScan_output_schema {
                None => run == alike,
                Some(wanted) => if named_alike(schema_fields(*wanted), given) {
                    run == alike
                } else {
                    let first = with_node(w, key_at(t, i), given, source);
                    fresh(t, i + 1, first) ==> {
                        &&& run matches Run::Returns { result: Ok(made), world, next }
                        &&& made == key_at(t, i + 1)
                        &&& next == i + 2
                        &&& world.phys[made].kind matches PhysNodeKindView::SimpleProjection {
                            input,
                            columns: named,
                        }
                        &&& input == key_at(t, i)
                        &&& named.len() == schema_fields(*wanted).len()
                        &&& forall|k: int|
                            0 <= k < named.len() ==> #[trigger] named[k] == schema_fields(
                                *wanted,
                            )[k].0
                        &&& world == with_node(first, made, columns, world.phys[made].kind)
                    }
                },
            }
        }),
{
    assert forall|a: Seq<(String, DataType)>, b: Seq<(String, DataType)>| #[trigger]
        same_names(names_of(a), names_of(b)) == named_alike(a, b) by {
        lemma_named_alike(a, b);
    }
}

proof fn lemma_named_alike(a: Seq<(String, DataType)>, b: Seq<(String, DataType)>)
    ensures
        same_names(names_of(a), names_of(b)) == named_alike(a, b),
{
    if named_alike(a, b) {
        assert forall|k: int| 0 <= k < names_of(a).len() implies #[trigger] names_of(a)[k]@
            == names_of(b)[k]@ by {
            assert(a[k].0@ == b[k].0@);
        }
    } else if a.len() == b.len() {
        let k = choose|k: int| 0 <= k < a.len() && (#[trigger] a[k]).0@ != b[k].0@;
        assert(names_of(a)[k]@ != names_of(b)[k]@);
    }
}

/// A sink takes its input, in memory or into the file that it names.
pub proof fn sinks_write_where_they_should(
    p: Plan,
    node: Node,
    depth: nat,
    w: World,
    t: Seq<Input>,
    i: nat,
    key: PhysNodeKey,
    after: World,
    next: nat,
)
    requires
        node < p.nodes.len(),
        depth > 0,
        p.nodes[node as int].ir matches IR::Sink { input, .. } && lower(
            p,
            input,
            (depth - 1) as nat,
            w,
            t,
            i,
        ) == (Run::Returns { result: Ok(key), world: after, next }),
        fresh(t, next, after),
    ensures
        lower(p, node, depth, w, t, i) == (Run::Returns {
            result: Ok(key_at(t, next)),
            world: with_node(
                after,
                key_at(t, next),
                schema_fields(*p.nodes[node as int].schema),
                match p.nodes[node as int].ir->Sink_payload {
                    SinkType::Memory => PhysNodeKindView::InMemorySink { input: key },
                    SinkType::File { path, file_type } => PhysNodeKindView::FileSink {
                        path,
                        file_type,
                        input: key,
                    },
                },
            ),
            next: next + 1,
        }),
{
    lemma_one_input(p, node, depth, PrepView::Plain, w, t, i);
}

/// A function is applied to its input: rows are numbered under the given name from the given number
/// on, and any other function is applied piece by piece exactly when it can be.
pub proof fn functions_are_applied(
    p: Plan,
    node: Node,
    depth: nat,
    w: World,
    t: Seq<Input>,
    i: nat,
    key: PhysNodeKey,
    after: World,
    next: nat,
)
    requires
        node < p.nodes.len(),
        depth > 0,
        p.nodes[node as int].ir matches IR::MapFunction { input, function } && !(
        function is MergeSorted) && lower(p, input, (depth - 1) as nat, w, t, i) == (
        Run::Returns { result: Ok(key), world: after, next }),
        fresh(t, next, after),
    ensures
        ({
            &&& lower(p, node, depth, w, t, i) matches Run::Returns {
                result: Ok(made),
                world,
                next: end,
            }
            &&& made == key_at(t, next)
            &&& end == next + 1
            &&& world == with_node(
                after,
                made,
                schema_fields(*p.nodes[node as int].schema),
                world.phys[made].kind,
            )
            &&& match p.nodes[node as int].ir->MapFunction_function {
                FunctionIR::RowIndex { name, offset } => world.phys[made].kind == (
                PhysNodeKindView::WithRowIndex { input: key, name, offset }),
                FunctionIR::Other { function, streamable: true } => world.phys[made].kind == (
                PhysNodeKindView::StreamingMap { input: key, map: function }),
                FunctionIR::Other { function, streamable: false } => world.phys[made].kind == (
                PhysNodeKindView::InMemoryMap { input: key, map: function }),
                FunctionIR::MergeSorted { .. } => true,
            }
        }),
{
    lemma_one_input(p, node, depth, PrepView::Plain, w, t, i);
}

/// A sort keeps its keys, its slice and its options.
pub proof fn sorts_are_handed_on(
    p: Plan,
    node: Node,
    depth: nat,
    w: World,
    t: Seq<Input>,
    i: nat,
    key: PhysNodeKey,
    after: World,
    next: nat,
)
    requires
        node < p.nodes.len(),
        depth > 0,
        p.nodes[node as int].ir matches IR::Sort { input, .. } && lower(
            p,
            input,
            (depth - 1) as nat,
            w,
            t,
            i,
        ) == (Run::Returns { result: Ok(key), world: after, next }),
        fresh(t, next, after),
    ensures
        p.nodes[node as int].ir matches IR::Sort { by_column, slice, sort_options, .. } ==> lower(
            p,
            node,
            depth,
            w,
            t,
            i,
        ) == (Run::Returns {
            result: Ok(key_at(t, next)),
            world: with_node(
                after,
                key_at(t, next),
                schema_fields(*p.nodes[node as int].schema),
                PhysNodeKindView::Sort { input: key, by_column: by_column@, slice, sort_options },
            ),
            next: next + 1,
        }),
{
    lemma_one_input(p, node, depth, PrepView::Plain, w, t, i);
}

/// A union becomes one of all its inputs, in their order, and a slice of it, with the same offset
/// and length, is on top wherever there is one.
pub proof fn unions_keep_inputs_and_slice(
    p: Plan,
    node: Node,
    depth: nat,
    w: World,
    t: Seq<Input>,
    i: nat,
    keys: Seq<PhysNodeKey>,
    after: World,
    next: nat,
)
    requires
        node < p.nodes.len(),
        depth > 0,
        p.nodes[node as int].ir matches IR::Union { inputs: all, .. } && lowers_all(
            p,
            all@,
            (depth - 1) as nat,
            w,
            t,
            i,
            keys,
            after,
            next,
        ),
        fresh(t, next, after),
    ensures
        ({
            let columns = schema_fields(*p.nodes[node as int].schema);
            let union = key_at(t, next);
            let now = with_node(
                after,
                union,
                columns,
                PhysNodeKindView::OrderedUnion { inputs: keys },
            );
            let run = lower(p, node, depth, w, t, i);
            match p.nodes[node as int].ir->Union_slice {
                None => run == (Run::Returns { result: Ok(union), world: now, next: next + 1 }),
                Some((offset, length)) => offset >= 0 && fresh(t, next + 1, now) ==> run == (
                Run::Returns {
                    result: Ok(key_at(t, next + 1)),
                    world: with_node(
                        now,
                        key_at(t, next + 1),
                        columns,
                        PhysNodeKindView::StreamingSlice {
                            input: union,
                            offset: offset as usize,
                            length,
                        },
                    ),
                    next: next + 2,
                }),
            }
        }),
{
    let all = inputs(p.nodes[node as int].ir);
    lemma_lowers_len(p, all, (depth - 1) as nat, w, t, i, keys, after, next);
    assert(all.take(keys.len() as int) == all);
    inputs_are_lowered_in_order(p, node, depth, w, t, i, keys, after, next);
}

proof fn lemma_lowers_len(
    p: Plan,
    nodes: Seq<Node>,
    depth: nat,
    w: World,
    t: Seq<Input>,
    i: nat,
    keys: Seq<PhysNodeKey>,
    after: World,
    next: nat,
)
    requires
        lowers_all(p, nodes, depth, w, t, i, keys, after, next),
    ensures
        keys.len() == nodes.len(),
    decreases nodes.len(),
{
    if nodes.len() > 0 {
        let run = lower(p, nodes[0], depth, w, t, i);
        lemma_lowers_len(
            p,
            nodes.skip(1),
            depth,
            run->Returns_world,
            t,
            run->Returns_next,
            keys.skip(1),
            after,
            next,
        );
    }
}

/// Columns that are put side by side come from all inputs, in their order; shorter ones are filled
/// up with nulls.
pub proof fn concatenations_keep_their_inputs(
    p: Plan,
    node: Node,
    depth: nat,
    w: World,
    t: Seq<Input>,
    i: nat,
    keys: Seq<PhysNodeKey>,
    after: World,
    next: nat,
)
    requires
        node < p.nodes.len(),
        depth > 0,
        p.nodes[node as int].ir matches IR::HConcat { inputs: all } && lowers_all(
            p,
            all@,
            (depth - 1) as nat,
            w,
            t,
            i,
            keys,
            after,
            next,
        ),
        fresh(t, next, after),
    ensures
        lower(p, node, depth, w, t, i) == (Run::Returns {
            result: Ok(key_at(t, next)),
            world: with_node(
                after,
                key_at(t, next),
                schema_fields(*p.nodes[node as int].schema),
                PhysNodeKindView::Zip { inputs: keys, null_extend: true },
            ),
            next: next + 1,
        }),
{
    let all = inputs(p.nodes[node as int].ir);
    lemma_lowers_len(p, all, (depth - 1) as nat, w, t, i, keys, after, next);
    assert(all.take(keys.len() as int) == all);
    inputs_are_lowered_in_order(p, node, depth, w, t, i, keys, after, next);
}

/// A part of a plan that is lowered already is taken as it is. Any other part is what its input is,
/// and is noted under its id.
pub proof fn cached_parts_are_noted(
    p: Plan,
    node: Node,
    depth: nat,
    w: World,
    t: Seq<Input>,
    i: nat,
)
    requires
        node < p.nodes.len(),
        depth > 0,
        p.nodes[node as int].ir is Cache,
    ensures
        ({
            let id = p.nodes[node as int].ir->Cache_id;
            let run = lower(p, node, depth, w, t, i);
            if w.cache.contains_key(id) {
                run == (Run::Returns { result: Ok(w.cache[id]), world: w, next: i })
            } else {
                match lower(p, p.nodes[node as int].ir->Cache_input, (depth - 1) as nat, w, t, i) {
                    Run::Returns { result: Ok(key), world, next } => run == (Run::Returns {
                        result: Ok(key),
                        world: World { cache: world.cache.insert(id, key), ..world },
                        next,
                    }),
                    other => run == other,
                }
            }
        }),
{
    lemma_one_input(p, node, depth, PrepView::Plain, w, t, i);
}

/// A scan of files becomes a reader, and on top of it, in this order, a row index, a slice and a
/// filter, each where the scan has it and the reader does not do it itself. A reader of CSV files
/// whose lines can be comments, or that may not slice, leaves row index and slice to others; only a
/// reader of Parquet files filters.
pub proof fn scans_do_all_that_they_should(
    p: Plan,
    node: Node,
    depth: nat,
    w: World,
    t: Seq<Input>,
    i: nat,
    scan: Scan,
)
    requires
        node < p.nodes.len(),
        depth > 0,
        p.nodes[node as int].ir == (IR::Scan { scan }),
        scan.sources.count > 0,
        fresh(t, i, w),
    ensures
        ({
            let columns = schema_fields(*p.nodes[node as int].schema);
            let leaves = match scan.scan_type {
                FileScan::Csv { comment_prefix, .. } => comment_prefix || p.csv_slice_disabled,
                _ => false,
            };
            let filters_itself = scan.scan_type is Parquet;
            let reader = PhysNodeKindView::FileScan {
                scan: Scan {
                    sources: scan.sources,
                    file_info: scan.file_info,
                    hive_parts: scan.hive_parts,
                    output_schema: scan.output_schema,
                    scan_type: scan.scan_type,
                    predicate: if filters_itself {
                        scan.predicate
                    } else {
                        None
                    },
                    file_options: FileScanOptions {
                        slice: if leaves {
                            None
                        } else {
                            scan.file_options.slice
                        },
                        row_index: if leaves {
                            None
                        } else {
                            scan.file_options.row_index
                        },
                        allow_missing_columns: scan.file_options.allow_missing_columns,
                        rest: scan.file_options.rest,
                    },
                },
            };
            let run = lower(p, node, depth, w, t, i);
            let ends = |top: PhysNodeKey, now: World, next: nat|
                if filters_itself || scan.predicate is None {
                    run == (Run::Returns { result: Ok(top), world: now, next })
                } else {
                    run == filters(top, scan.predicate->0, now, t, next)
                };
            let sliced = |top: PhysNodeKey, now: World, next: nat|
                match scan.file_options.slice {
                    Some((offset, length)) if leaves => {
                        offset >= 0 && fresh(t, next, now) ==> ends(
                            key_at(t, next),
                            with_node(
                                now,
                                key_at(t, next),
                                columns,
                                PhysNodeKindView::StreamingSlice {
                                    input: top,
                                    offset: offset as usize,
                                    length,
                                },
                            ),
                            next + 1,
                        )
                    },
                    _ => ends(top, now, next),
                };
            match scan.file_options.row_index {
                Some(row_index) if leaves => {
                    let read = with_node(w, key_at(t, i), columns.remove(0), reader);
                    fresh(t, i + 1, read) ==> sliced(
                        key_at(t, i + 1),
                        with_node(
                            read,
                            key_at(t, i + 1),
                            columns,
                            PhysNodeKindView::WithRowIndex {
                                input: key_at(t, i),
                                name: row_index.name,
                                offset: Some(row_index.offset),
                            },
                        ),
                        i + 2,
                    )
                },
                _ => sliced(key_at(t, i), with_node(w, key_at(t, i), columns, reader), i + 1),
            }
        }),
{
    assert(lower(p, node, depth, w, t, i) == finish(p, node, PrepView::Plain, seq![], w, t, i));
}

/// The reader of files at a node of a physical plan, or below the row index that is there.
pub open spec fn reader_at(phys: Map<PhysNodeKey, PhysNodeView>, key: PhysNodeKey) -> Option<Scan> {
    match phys[key].kind {
        PhysNodeKindView::FileScan { scan } => Some(scan),
        PhysNodeKindView::WithRowIndex { input, .. } => match phys[input].kind {
            PhysNodeKindView::FileScan { scan } => Some(scan),
            _ => None,
        },
        _ => None,
    }
}

/// Whether what is at a node reads, numbers and slices as a scan says, everything once.
pub open spec fn does_scan(
    phys: Map<PhysNodeKey, PhysNodeView>,
    key: PhysNodeKey,
    scan: Scan,
) -> bool {
    let (below, slice) = match phys[key].kind {
        PhysNodeKindView::StreamingSlice { input, offset, length } => (
            input,
            Some((offset, length)),
        ),
        _ => (key, None),
    };
    &&& reader_at(phys, below) matches Some(read)
    &&& match (scan.file_options.slice, slice) {
        (Some((from, rows)), Some((offset, length))) => {
            &&& read.file_options.slice is None
            &&& offset == from as usize
            &&& length == rows
        },
        (wanted, None) => read.file_options.slice == wanted,
        (None, Some(_)) => false,
    }
    &&& match phys[below].kind {
        PhysNodeKindView::WithRowIndex { name, offset, .. } => {
            &&& read.file_options.row_index is None
            &&& scan.file_options.row_index matches Some(row_index)
            &&& name == row_index.name
            &&& offset == Some(row_index.offset)
        },
        _ => read.file_options.row_index == scan.file_options.row_index,
    }
    &&& read.predicate == if scan.scan_type is Parquet {
        scan.predicate
    } else {
        None
    }
    &&& read.sources == scan.sources
    &&& read.scan_type == scan.scan_type
}

/// However a scan of files is lowered, its rows are read, numbered and sliced just as it says, by
/// the node that comes out, or by the one that is filtered on top.
pub proof fn scans_lose_nothing(
    p: Plan,
    node: Node,
    depth: nat,
    w: World,
    t: Seq<Input>,
    i: nat,
    scan: Scan,
)
    requires
        node < p.nodes.len(),
        p.nodes[node as int].ir == (IR::Scan { scan }),
        scan.sources.count > 0,
        forall|j: int| 0 <= j < t.len() ==> #[trigger] t[j] is Key,
    ensures
        match lower(p, node, depth, w, t, i) {
            Run::Returns { result, world, .. } => {
                &&& scan.predicate is None || scan.scan_type is Parquet
                &&& result matches Ok(key)
                &&& does_scan(world.phys, key, scan)
            },
            Run::Asks { request, world } => {
                &&& scan.predicate is Some && !(scan.scan_type is Parquet)
                &&& request matches RequestView::LowerExprs { input, exprs }
                &&& does_scan(world.phys, input, scan)
                &&& exprs.len() > 0
                &&& exprs[exprs.len() - 1] == scan.predicate->0
            },
            Run::Stuck => true,
        },
{
    if depth > 0 {
        assert(lower(p, node, depth, w, t, i) == finish(
            p,
            node,
            PrepView::Plain,
            seq![],
            w,
            t,
            i,
        ));
    }
}

/// A scan of no files gives no rows, with the columns of the scan.
pub proof fn scans_of_no_files_give_no_rows(
    p: Plan,
    node: Node,
    depth: nat,
    w: World,
    t: Seq<Input>,
    i: nat,
)
    requires
        node < p.nodes.len(),
        depth > 0,
        p.nodes[node as int].ir matches IR::Scan { scan } && scan.sources.count == 0,
        fresh(t, i, w),
    ensures
        lower(p, node, depth, w, t, i) == (Run::Returns {
            result: Ok(key_at(t, i)),
            world: with_node(
                w,
                key_at(t, i),
                schema_fields(*p.nodes[node as int].schema),
                PhysNodeKindView::InMemorySource {
                    df: Frame::Empty(p.nodes[node as int].schema),
                },
            ),
            next: i + 1,
        }),
{
    assert(lower(p, node, depth, w, t, i) == finish(p, node, PrepView::Plain, seq![], w, t, i));
}

} // verus!
