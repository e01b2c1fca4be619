//! What holds of the lowering of single operations.

use crate::ir::{AExpr, ExprIR, IRNode, JoinArgs, Node, Scan, IR};
use crate::model::{after_group, agg_input, by_name, column_exprs, columns_of, entry_exprs, finish,
    finish_join, finish_scan, from_node, inserts, lower, lower_inputs, over, predicate_node, reader,
    rewrites_all, row_index_node, scan_slice_node, stacked, streams, tests_group, then_filters,
    Input, Plan, PrepView, ReplyView, RequestView, Run, World};
use crate::phys::{Frame, PhysNodeKey, PhysNodeKindView, PhysNodeView};
use crate::schema::schema_fields;
use crate::store::{position, upsert};
use crate::support::{agg_supported, aggs_supported, bounded, extends};
use polars_core::prelude::DataType;
use vstd::prelude::*;

verus! {

/// Whether an operation is lowered to a node of its own, with the service having no part in it.
pub open spec fn has_own_node(ir: IR, prep: PrepView) -> bool {
    match ir {
        IR::Select { .. } => false,
        IR::HStack { .. } => prep == PrepView::Elementwise(true),
        IR::Slice { .. } => false,
        IR::Filter { .. } => false,
        IR::Scan { scan } => scan.sources.count == 0 || predicate_node(scan) is None,
        IR::Cache { .. } => false,
        _ => true,
    }
}

/// The node that an operation is lowered to gives the columns that the operation gives, also where
/// it is sliced on top.
pub proof fn schemas_are_kept(
    p: Plan,
    node: Node,
    prep: PrepView,
    keys: Seq<PhysNodeKey>,
    w: World,
    t: Seq<Input>,
    i: nat,
)
    requires
        has_own_node(p.nodes[node as int].ir, prep),
    ensures
        finish(p, node, prep, keys, w, t, i) matches Run::Returns { result: Ok(key), world, .. }
            ==> world.phys.contains_key(key) && world.phys[key].output_schema == schema_fields(
            *p.nodes[node as int].schema,
        ),
{
}

/// A slice gives the columns of what it slices.
pub proof fn slices_keep_the_schema(
    p: Plan,
    node: Node,
    prep: PrepView,
    keys: Seq<PhysNodeKey>,
    w: World,
    t: Seq<Input>,
    i: nat,
)
    requires
        p.nodes[node as int].ir is Slice,
    ensures
        finish(p, node, prep, keys, w, t, i) matches Run::Returns { result: Ok(key), world, .. }
            ==> world.phys.contains_key(key) && world.phys[key].output_schema
            == w.phys[keys[0]].output_schema,
{
}

/// All that a scan does besides reading is done once: by the reader of the files, or by a node of
/// its own. A reader of CSV files keeps row index and slice only when no line can be a comment and
/// it may slice at all; only a reader of Parquet files keeps the predicate.
pub proof fn scan_work_is_done_once(scan: Scan, csv_slice_disabled: bool)
    ensures
        ({
            let read = reader(scan, csv_slice_disabled);
            let all = rewrites_all(scan.scan_type, csv_slice_disabled);
            &&& all ==> {
                &&& read.file_options.row_index is None
                &&& read.file_options.slice is None
                &&& row_index_node(scan, csv_slice_disabled) == scan.file_options.row_index
                &&& scan_slice_node(scan, csv_slice_disabled) == scan.file_options.slice
            }
            &&& !all ==> {
                &&& read.file_options == scan.file_options
                &&& row_index_node(scan, csv_slice_disabled) is None
                &&& scan_slice_node(scan, csv_slice_disabled) is None
            }
            &&& if scan.scan_type is Parquet {
                read.predicate == scan.predicate && predicate_node(scan) is None
            } else {
                read.predicate is None && predicate_node(scan) == scan.predicate
            }
            &&& read.sources == scan.sources
            &&& read.file_info == scan.file_info
            &&& read.hive_parts == scan.hive_parts
            &&& read.output_schema == scan.output_schema
            &&& read.scan_type == scan.scan_type
            &&& read.file_options.allow_missing_columns == scan.file_options.allow_missing_columns
            &&& read.file_options.rest == scan.file_options.rest
        }),
{
}

/// Rows are numbered before they are sliced: the slice is on top of the row index, which is on top
/// of the reader, which gives all columns but the first.
pub proof fn rows_are_numbered_then_sliced(
    node: IRNode,
    scan: Scan,
    csv_slice_disabled: bool,
    w: World,
    t: Seq<Input>,
    i: nat,
)
    requires
        scan.sources.count > 0,
        rewrites_all(scan.scan_type, csv_slice_disabled),
        scan.file_options.row_index is Some,
        scan.file_options.slice is Some,
        scan.predicate is None,
    ensures
        finish_scan(node, scan, csv_slice_disabled, w, t, i) matches Run::Returns {
            result: Ok(key),
            world,
            next,
        } ==> {
            &&& next == i + 3
            &&& world.phys[key].kind matches PhysNodeKindView::StreamingSlice {
                input: numbered,
                offset,
                length,
            }
            &&& scan.file_options.slice matches Some((from, rows))
            &&& offset == (from as usize)
            &&& length == rows
            &&& world.phys[numbered].kind matches PhysNodeKindView::WithRowIndex {
                input: read,
                name,
                offset: first,
            }
            &&& name == scan.file_options.row_index->0.name
            &&& first == Some(scan.file_options.row_index->0.offset)
            &&& world.phys[read] == (PhysNodeView {
                output_schema: schema_fields(*node.schema).remove(0),
                kind: PhysNodeKindView::FileScan { scan: reader(scan, csv_slice_disabled) },
            })
        },
{
}

/// What is read, numbered and sliced is filtered last.
pub proof fn scans_are_filtered_last(
    node: IRNode,
    scan: Scan,
    csv_slice_disabled: bool,
    w: World,
    t: Seq<Input>,
    i: nat,
)
    requires
        scan.sources.count > 0,
        !(scan.scan_type is Parquet),
    ensures
        finish_scan(node, scan, csv_slice_disabled, w, t, i) == then_filters(
            finish_scan(node, Scan { predicate: None, ..scan }, csv_slice_disabled, w, t, i),
            scan.predicate,
            t,
        ),
{
    let without = Scan { predicate: None, ..scan };
    assert(reader(without, csv_slice_disabled) == reader(scan, csv_slice_disabled));
}

/// A scan of no files is an empty frame with the right columns, whatever else is asked of it.
pub proof fn scans_of_no_files_are_empty_frames(
    node: IRNode,
    scan: Scan,
    csv_slice_disabled: bool,
    w: World,
    t: Seq<Input>,
    i: nat,
)
    requires
        scan.sources.count == 0,
        i < t.len(),
        t[i as int] matches Input::Key(key) && !w.phys.contains_key(key),
    ensures
        finish_scan(node, scan, csv_slice_disabled, w, t, i) == (Run::Returns {
            result: Ok(t[i as int]->Key_0),
            world: World {
                phys: w.phys.insert(
                    t[i as int]->Key_0,
                    PhysNodeView {
                        output_schema: schema_fields(*node.schema),
                        kind: PhysNodeKindView::InMemorySource { df: Frame::Empty(node.schema) },
                    },
                ),
                ..w
            },
            next: i + 1,
        }),
{
}

/// The keys of each side of a join by equal keys are lowered together with all columns of that
/// side, the left side first, and only what stands for the keys is joined by.
pub proof fn joins_drop_the_columns_again(
    schema: Seq<(String, DataType)>,
    left_on: Seq<ExprIR>,
    right_on: Seq<ExprIR>,
    args: JoinArgs,
    left: PhysNodeKey,
    right: PhysNodeKey,
    w: World,
    t: Seq<Input>,
    i: nat,
    first: (PhysNodeKey, Seq<ExprIR>, World),
    second: (PhysNodeKey, Seq<ExprIR>, World),
)
    requires
        streams(args),
        i + 1 < t.len(),
        t[i as int] == Input::Answer(
            ReplyView::Lowered { input: first.0, exprs: first.1 },
            first.2,
        ),
        t[(i + 1) as int] == Input::Answer(
            ReplyView::Lowered { input: second.0, exprs: second.1 },
            second.2,
        ),
    ensures
        finish_join(schema, left_on, right_on, args, left, right, w, t.take(i as int), i)
            matches Run::Asks { request, .. } && request == (RequestView::LowerExprs {
            input: left,
            exprs: left_on + column_exprs(columns_of(w, left), w.exprs.len()),
        }),
        finish_join(schema, left_on, right_on, args, left, right, w, t.take((i + 1) as int), i)
            matches Run::Asks { request, world } && world == first.2 && request == (
        RequestView::LowerExprs {
            input: right,
            exprs: right_on + column_exprs(
                columns_of(w, right),
                w.exprs.len() + columns_of(w, left).len(),
            ),
        }),
        args.slice is None ==> finish_join(
            schema,
            left_on,
            right_on,
            args,
            left,
            right,
            w,
            t,
            i,
        ) == inserts(
            PhysNodeView {
                output_schema: schema,
                kind: PhysNodeKindView::EquiJoin {
                    input_left: first.0,
                    input_right: second.0,
                    left_on: first.1.take(left_on.len() as int),
                    right_on: second.1.take(right_on.len() as int),
                    args,
                },
            },
            second.2,
            t,
            i + 2,
        ),
{
    assert(t.take((i + 1) as int)[i as int] == t[i as int]);
}

/// Each aggregation of a grouping is lowered to the same aggregation over what was lowered for it,
/// under its own name.
pub proof fn groupings_aggregate_what_was_lowered(
    schema: Seq<(String, DataType)>,
    keys: Seq<ExprIR>,
    aggs: Seq<ExprIR>,
    input: PhysNodeKey,
    exprs: Seq<ExprIR>,
    w: World,
    t: Seq<Input>,
    i: nat,
)
    requires
        exprs.len() == keys.len() + aggs.len(),
        w.exprs.len() + aggs.len() <= usize::MAX,
    ensures
        after_group(
            schema,
            keys,
            aggs,
            None,
            ReplyView::Lowered { input, exprs },
            w,
            t,
            i,
        ) matches Run::Returns { result: Ok(key), world, .. } ==> {
            &&& world.phys[key].kind matches PhysNodeKindView::GroupBy {
                input: from,
                key: by,
                aggs: lowered,
            }
            &&& from == input
            &&& by == exprs.take(keys.len() as int)
            &&& lowered.len() == aggs.len()
            &&& forall|j: int|
                0 <= j < aggs.len() ==> (#[trigger] lowered[j]).output_name == aggs[j].output_name
                    && world.exprs[lowered[j].node as int] == over(
                    w.exprs[aggs[j].node as int],
                    exprs[keys.len() + j].node,
                    w.exprs,
                )
        },
{
}

/// What a grouping has lowered for its aggregations: what each of them reads, under its own name,
/// and the first key for a count of rows.
pub open spec fn what_is_read(keys: Seq<ExprIR>, aggs: Seq<ExprIR>, exprs: Seq<AExpr>) -> Seq<
    ExprIR,
> {
    Seq::new(
        aggs.len(),
        |j: int|
            {
                let expr = exprs[aggs[j].node as int];
                if expr.kind is Len {
                    keys[0]
                } else {
                    from_node(agg_input(expr)->0, exprs)
                }
            },
    )
}

/// Whether a run went on to the input of a grouping, with these expressions to be lowered then.
pub open spec fn collected(
    run: Run,
    p: Plan,
    node: Node,
    depth: nat,
    needed: Seq<ExprIR>,
    t: Seq<Input>,
) -> bool {
    exists|w: World, i: nat|
        run == #[trigger] lower_inputs(p, node, depth, PrepView::Group(needed), seq![], w, t, i)
}

/// A grouping has its keys lowered, and then one expression for each of its aggregations, as long
/// as the service only adds expressions.
pub proof fn groupings_collect_what_is_read(
    p: Plan,
    node: Node,
    depth: nat,
    w: World,
    t: Seq<Input>,
    i: nat,
)
    requires
        bounded(p, node, depth),
        p.nodes[node as int].ir matches IR::GroupBy { keys, aggs, .. } && keys@.len() > 0
            && aggs_supported(aggs@, 0, w.exprs),
        forall|j: int|
            0 <= j < t.len() ==> (#[trigger] t[j] matches Input::Answer(_, after) ==> extends(
                after.exprs,
                w.exprs,
            )),
    ensures
        ({
            let run = lower(p, node, depth, w, t, i);
            let keys = p.nodes[node as int].ir->GroupBy_keys@;
            let aggs = p.nodes[node as int].ir->GroupBy_aggs@;
            ||| run is Asks
            ||| run is Stuck
            ||| collected(run, p, node, depth, keys + what_is_read(keys, aggs, w.exprs), t)
        }),
{
    let keys = p.nodes[node as int].ir->GroupBy_keys@;
    let aggs = p.nodes[node as int].ir->GroupBy_aggs@;
    assert(keys == keys + what_is_read(keys, aggs, w.exprs).take(0));
    lemma_collects(p, node, depth, 0, keys, w.exprs, w, t, i);
}

proof fn lemma_collects(
    p: Plan,
    node: Node,
    depth: nat,
    at: nat,
    needed: Seq<ExprIR>,
    exprs: Seq<AExpr>,
    w: World,
    t: Seq<Input>,
    i: nat,
)
    requires
        p.nodes[node as int].ir matches IR::GroupBy { keys, aggs, .. } && {
            &&& at <= aggs@.len()
            &&& aggs_supported(aggs@, 0, exprs)
            &&& needed == keys@ + what_is_read(keys@, aggs@, exprs).take(at as int)
        },
        extends(w.exprs, exprs),
        forall|j: int|
            0 <= j < t.len() ==> (#[trigger] t[j] matches Input::Answer(_, after) ==> extends(
                after.exprs,
                exprs,
            )),
    ensures
        ({
            let run = tests_group(p, node, depth, at, needed, w, t, i);
            let keys = p.nodes[node as int].ir->GroupBy_keys@;
            let aggs = p.nodes[node as int].ir->GroupBy_aggs@;
            ||| run is Asks
            ||| run is Stuck
            ||| collected(run, p, node, depth, keys + what_is_read(keys, aggs, exprs), t)
        }),
    decreases p.nodes[node as int].ir->GroupBy_aggs@.len() - at,
{
    let keys = p.nodes[node as int].ir->GroupBy_keys@;
    let aggs = p.nodes[node as int].ir->GroupBy_aggs@;
    let read = what_is_read(keys, aggs, exprs);
    if at < aggs.len() {
        assert(agg_supported(aggs[at as int], exprs));
        assert(read.take((at + 1) as int) == read.take(at as int).push(read[at as int]));
        let more = keys + read.take((at + 1) as int);
        assert(more == needed.push(read[at as int]));
        let expr = w.exprs[aggs[at as int].node as int];
        assert(expr == exprs[aggs[at as int].node as int]);
        if expr.kind is Len {
            lemma_collects(p, node, depth, at + 1, more, exprs, w, t, i);
        } else if i < t.len() {
            if let Input::Answer(_, after) = t[i as int] {
                let input = agg_input(expr)->0;
                assert(after.exprs[input as int] == exprs[input as int]);
                lemma_collects(p, node, depth, at + 1, more, exprs, after, t, i + 1);
            }
        }
    } else {
        assert(read.take(at as int) == read);
        assert(tests_group(p, node, depth, at, needed, w, t, i) == lower_inputs(
            p,
            node,
            depth,
            PrepView::Group(needed),
            seq![],
            w,
            t,
            i,
        ));
    }
}

/// The name of an expression.
pub open spec fn title(expr: ExprIR) -> Seq<char> {
    expr.output_name.name()->0@
}

/// Whether no expression further back in a list has the name of the `k`-th.
pub open spec fn last_of_its_name(list: Seq<ExprIR>, k: int) -> bool {
    &&& 0 <= k < list.len()
    &&& forall|m: int| k < m < list.len() ==> title(#[trigger] list[m]) != title(list[k])
}

/// Whether an expression is the last of its name in a list.
pub open spec fn is_last(list: Seq<ExprIR>, expr: ExprIR) -> bool {
    exists|k: int| #[trigger] last_of_its_name(list, k) && list[k] == expr
}

/// Whether an expression is among some entries.
pub open spec fn is_held(entries: Seq<(Seq<char>, ExprIR)>, expr: ExprIR) -> bool {
    exists|a: int| 0 <= a < entries.len() && (#[trigger] entries[a]).1 == expr
}

/// Whether some entries are what a list of expressions comes to by name: each name once, with the
/// last expression of that name.
pub open spec fn sums_up(entries: Seq<(Seq<char>, ExprIR)>, list: Seq<ExprIR>) -> bool {
    &&& forall|a: int, b: int|
        0 <= a < b < entries.len() ==> (#[trigger] entries[a]).0 != (#[trigger] entries[b]).0
    &&& forall|a: int|
        0 <= a < entries.len() ==> (#[trigger] entries[a]).0 == title(entries[a].1)
    &&& forall|a: int| 0 <= a < entries.len() ==> is_last(list, (#[trigger] entries[a]).1)
    &&& forall|k: int| #[trigger] last_of_its_name(list, k) ==> is_held(entries, list[k])
}

/// An expression that is put behind a list takes the place of those of its name.
proof fn lemma_last_pushed(list: Seq<ExprIR>, expr: ExprIR, k: int)
    requires
        0 <= k < list.len(),
    ensures
        last_of_its_name(list.push(expr), k) <==> last_of_its_name(list, k) && title(list[k])
            != title(expr),
{
    let more = list.push(expr);
    if last_of_its_name(more, k) {
        assert(title(more[list.len() as int]) != title(more[k]));
        assert forall|m: int| k < m < list.len() implies title(#[trigger] list[m]) != title(
            list[k],
        ) by {
            assert(more[m] == list[m]);
        }
    }
    if last_of_its_name(list, k) && title(list[k]) != title(expr) {
        assert forall|m: int| k < m < more.len() implies title(#[trigger] more[m]) != title(
            more[k],
        ) by {
            if m < list.len() {
                assert(more[m] == list[m]);
            }
        }
    }
}

proof fn lemma_sums_up_one_more(
    before: Seq<(Seq<char>, ExprIR)>,
    list: Seq<ExprIR>,
    expr: ExprIR,
)
    requires
        sums_up(before, list),
    ensures
        sums_up(upsert(before, title(expr), expr), list.push(expr)),
{
    let more = list.push(expr);
    let entries = upsert(before, title(expr), expr);
    let end = list.len() as int;
    assert(last_of_its_name(more, end));
    assert(is_last(more, expr));
    let at = match position(before, title(expr)) {
        Some(at) => at,
        None => before.len() as int,
    };
    assert(0 <= at < entries.len() && entries[at] == (title(expr), expr));
    assert(is_held(entries, expr));
    assert forall|a: int| 0 <= a < before.len() && a != at implies #[trigger] before[a].0 != title(
        expr,
    ) by {
        if at < before.len() {
            if a < at {
                assert(before[a].0 != before[at].0);
            } else {
                assert(before[at].0 != before[a].0);
            }
        }
    }
    assert forall|a: int| 0 <= a < entries.len() && a != at implies #[trigger] entries[a]
        == before[a] by {}
    assert forall|a: int| 0 <= a < entries.len() implies is_last(
        more,
        (#[trigger] entries[a]).1,
    ) by {
        if a != at {
            assert(entries[a] == before[a]);
            assert(is_last(list, before[a].1));
            let k = choose|k: int| #[trigger] last_of_its_name(list, k) && list[k] == before[a].1;
            lemma_last_pushed(list, expr, k);
            assert(before[a].0 == title(before[a].1));
            assert(last_of_its_name(more, k) && more[k] == entries[a].1);
        }
    }
    assert forall|k: int| #[trigger] last_of_its_name(more, k) implies is_held(
        entries,
        more[k],
    ) by {
        if k < end {
            lemma_last_pushed(list, expr, k);
            assert(is_held(before, list[k]));
            let a = choose|a: int| 0 <= a < before.len() && (#[trigger] before[a]).1 == list[k];
            assert(before[a].0 == title(before[a].1));
            assert(entries[a] == before[a]);
        }
    }
}

pub proof fn lemma_sums_up(list: Seq<ExprIR>)
    ensures
        sums_up(by_name(list), list),
    decreases list.len(),
{
    if list.len() > 0 {
        lemma_sums_up(list.drop_last());
        lemma_sums_up_one_more(by_name(list.drop_last()), list.drop_last(), list.last());
        assert(list.drop_last().push(list.last()) == list);
    }
}

/// More expressions leave the names that are there in their places.
proof fn lemma_names_stay(list: Seq<ExprIR>, count: nat)
    requires
        count <= list.len(),
    ensures
        by_name(list.take(count as int)).len() <= by_name(list).len(),
        forall|a: int|
            0 <= a < by_name(list.take(count as int)).len() ==> (#[trigger] by_name(list)[a]).0
                == by_name(list.take(count as int))[a].0,
    decreases list.len(),
{
    if count < list.len() {
        let most = list.drop_last();
        assert(most.take(count as int) == list.take(count as int));
        lemma_names_stay(most, count);
        let before = by_name(most);
        assert forall|a: int| 0 <= a < by_name(list.take(count as int)).len() implies (
        #[trigger] by_name(list)[a]).0 == by_name(list.take(count as int))[a].0 by {
            assert(before[a].0 == by_name(list.take(count as int))[a].0);
        }
    } else {
        assert(list.take(count as int) == list);
    }
}

/// Expressions of different names come one after the other.
proof fn lemma_distinct_stay(list: Seq<ExprIR>)
    requires
        forall|a: int, b: int|
            0 <= a < b < list.len() ==> title(#[trigger] list[a]) != title(#[trigger] list[b]),
    ensures
        by_name(list).len() == list.len(),
        forall|a: int|
            0 <= a < list.len() ==> #[trigger] by_name(list)[a] == (title(list[a]), list[a]),
    decreases list.len(),
{
    if list.len() > 0 {
        let most = list.drop_last();
        lemma_distinct_stay(most);
        let before = by_name(most);
        let name = title(list.last());
        assert forall|a: int| 0 <= a < before.len() implies (#[trigger] before[a]).0 != name by {
            assert(before[a] == (title(most[a]), most[a]));
            assert(title(list[a]) != title(list[list.len() - 1]));
        }
        assert(position(before, name) is None);
    }
}

/// Columns that are added to others go to the place of the column whose name they take, or else
/// behind all columns. Every name occurs once, and of several expressions of one name the last is
/// taken.
pub proof fn added_columns_replace_in_place(
    names: Seq<String>,
    first: nat,
    exprs: Seq<ExprIR>,
)
    requires
        forall|a: int, b: int|
            0 <= a < b < names.len() ==> (#[trigger] names[a])@ != (#[trigger] names[b])@,
    ensures
        ({
            let all = column_exprs(names, first) + exprs;
            let selected = stacked(names, first, exprs);
            &&& names.len() <= selected.len()
            &&& forall|j: int|
                0 <= j < names.len() ==> title(#[trigger] selected[j]) == names[j]@
            &&& forall|a: int, b: int|
                0 <= a < b < selected.len() ==> title(#[trigger] selected[a]) != title(
                    #[trigger] selected[b],
                )
            &&& forall|a: int|
                0 <= a < selected.len() ==> is_last(all, #[trigger] selected[a])
            &&& forall|k: int| #[trigger] last_of_its_name(all, k) ==> selected.contains(all[k])
        }),
{
    let columns = column_exprs(names, first);
    let all = columns + exprs;
    let entries = by_name(all);
    let selected = stacked(names, first, exprs);
    assert(selected == entry_exprs(entries));
    assert forall|a: int, b: int| 0 <= a < b < columns.len() implies title(#[trigger] columns[a])
        != title(#[trigger] columns[b]) by {
        assert(names[a]@ != names[b]@);
    }
    lemma_distinct_stay(columns);
    assert(all.take(names.len() as int) == columns);
    lemma_names_stay(all, names.len());
    lemma_sums_up(all);
    assert forall|a: int| 0 <= a < selected.len() implies title(#[trigger] selected[a])
        == entries[a].0 by {
        assert(entries[a].0 == title(entries[a].1));
    }
    assert forall|j: int| 0 <= j < names.len() implies title(#[trigger] selected[j])
        == names[j]@ by {
        assert(by_name(columns)[j] == (title(columns[j]), columns[j]));
        assert(entries[j].0 == by_name(columns)[j].0);
    }
    assert forall|a: int, b: int| 0 <= a < b < selected.len() implies title(#[trigger] selected[a])
        != title(#[trigger] selected[b]) by {
        assert(entries[a].0 != entries[b].0);
    }
    assert forall|a: int| 0 <= a < selected.len() implies is_last(all, #[trigger] selected[a]) by {
        assert(is_last(all, entries[a].1));
    }
    assert forall|k: int| #[trigger] last_of_its_name(all, k) implies selected.contains(all[k]) by {
        assert(is_held(entries, all[k]));
        let a = choose|a: int| 0 <= a < entries.len() && (#[trigger] entries[a]).1 == all[k];
        assert(selected[a] == all[k]);
    }
}

/// When more columns are added, those that were there stay where they are.
pub proof fn added_columns_keep_their_order(
    names: Seq<String>,
    first: nat,
    exprs: Seq<ExprIR>,
    count: nat,
)
    requires
        count <= exprs.len(),
    ensures
        ({
            let fewer = stacked(names, first, exprs.take(count as int));
            let selected = stacked(names, first, exprs);
            &&& fewer.len() <= selected.len()
            &&& forall|a: int|
                0 <= a < fewer.len() ==> title(#[trigger] selected[a]) == title(fewer[a])
        }),
{
    let columns = column_exprs(names, first);
    let all = columns + exprs;
    let some = columns + exprs.take(count as int);
    assert(all.take((names.len() + count) as int) == some);
    lemma_names_stay(all, names.len() + count);
    lemma_sums_up(all);
    lemma_sums_up(some);
    assert forall|a: int| 0 <= a < by_name(some).len() implies title(
        #[trigger] stacked(names, first, exprs)[a],
    ) == title(stacked(names, first, exprs.take(count as int))[a]) by {
        assert(by_name(all)[a].0 == title(by_name(all)[a].1));
        assert(by_name(some)[a].0 == title(by_name(some)[a].1));
    }
}

} // verus!
