//! What the operations are lowered to that have the service lower expressions.

use crate::ir::{inputs, AExpr, AExprKind, ExprIR, IRAggExpr, JoinArgs, JoinType, Node, OutputName,
    IR};
use crate::model::{by_name, column_exprs, entry_exprs, finish, lower, lower_inputs, selects,
    stacked, tests_group, tests_stack, with_columns, Input, LowerError, Plan, PrepView, ReplyView,
    RequestView, Run, World};
use crate::operation_laws::{is_last, last_of_its_name, lemma_sums_up, title};
use crate::outcomes::{fresh, has_columns, inputs_are_lowered_in_order, key_at, lemma_one_input,
    lowers_all, names_columns, with_node};
use crate::phys::{PhysNodeKey, PhysNodeKindView};
use crate::schema::{names_of, schema_fields};
use crate::store::{position, upsert};
use crate::support::extends;
use polars_core::prelude::DataType;
use vstd::prelude::*;

verus! {

/// Whether `count` answers from the `i`-th input on say that an expression is elementwise.
pub open spec fn all_yes(t: Seq<Input>, i: nat, count: nat) -> bool {
    &&& i + count <= t.len()
    &&& forall|j: int|
        i <= j < i + count ==> (#[trigger] t[j] matches Input::Answer(
            ReplyView::Elementwise(true),
            _,
        ))
}

/// The world after `count` answers from the `i`-th input on.
pub open spec fn world_after(w: World, t: Seq<Input>, i: nat, count: nat) -> World {
    if count == 0 {
        w
    } else {
        t[i + count - 1]->Answer_1
    }
}

proof fn lemma_stack_yes(
    p: Plan,
    node: Node,
    depth: nat,
    w: World,
    t: Seq<Input>,
    i: nat,
    count: nat,
)
    requires
        p.nodes[node as int].ir matches IR::HStack { exprs, .. } && count <= exprs@.len(),
        all_yes(t, i, count),
    ensures
        tests_stack(p, node, depth, 0, w, t, i) == tests_stack(
            p,
            node,
            depth,
            count,
            world_after(w, t, i, count),
            t,
            i + count,
        ),
    decreases count,
{
    if count > 0 {
        let before = (count - 1) as nat;
        lemma_stack_yes(p, node, depth, w, t, i, before);
        assert(t[(i + before) as int] matches Input::Answer(ReplyView::Elementwise(true), _));
        assert(tests_stack(
            p,
            node,
            depth,
            before,
            world_after(w, t, i, before),
            t,
            i + before,
        ) == tests_stack(p, node, depth, count, world_after(w, t, i, count), t, i + count));
    }
}

/// Of the columns that are added to an input, one after the other is asked about as long as all are
/// elementwise.
pub proof fn added_columns_are_tested_in_order(
    p: Plan,
    node: Node,
    depth: nat,
    w: World,
    t: Seq<Input>,
    i: nat,
    count: nat,
)
    requires
        node < p.nodes.len(),
        depth > 0,
        p.nodes[node as int].ir matches IR::HStack { exprs, .. } && count < exprs@.len(),
        all_yes(t, i, count),
        t.len() == i + count,
    ensures
        lower(p, node, depth, w, t, i) == (Run::Asks {
            request: RequestView::IsElementwise {
                node: p.nodes[node as int].ir->HStack_exprs@[count as int].node,
            },
            world: world_after(w, t, i, count),
        }),
{
    lemma_stack_yes(p, node, depth, w, t, i, count);
}

/// Columns of which each was said to be elementwise extend the input, all of them as they are.
pub proof fn elementwise_columns_extend_the_input(
    p: Plan,
    node: Node,
    depth: nat,
    w: World,
    t: Seq<Input>,
    i: nat,
    key: PhysNodeKey,
    after: World,
    next: nat,
)
    requires
        node < p.nodes.len(),
        depth > 0,
        p.nodes[node as int].ir matches IR::HStack { input, exprs } && all_yes(t, i, exprs@.len())
            && lower(
            p,
            input,
            (depth - 1) as nat,
            world_after(w, t, i, exprs@.len()),
            t,
            i + exprs@.len(),
        ) == (Run::Returns { result: Ok(key), world: after, next }),
        fresh(t, next, after),
    ensures
        lower(p, node, depth, w, t, i) == (Run::Returns {
            result: Ok(key_at(t, next)),
            world: with_node(
                after,
                key_at(t, next),
                schema_fields(*p.nodes[node as int].schema),
                PhysNodeKindView::Select {
                    input: key,
                    selectors: p.nodes[node as int].ir->HStack_exprs@,
                    extend_original: true,
                },
            ),
            next: next + 1,
        }),
{
    let count = p.nodes[node as int].ir->HStack_exprs@.len();
    lemma_stack_yes(p, node, depth, w, t, i, count);
    let now = world_after(w, t, i, count);
    lemma_one_input(p, node, depth, PrepView::Elementwise(true), now, t, i + count);
}

/// Columns as expressions, when their arena nodes start at `first`.
pub open spec fn as_exprs(columns: Seq<(String, DataType)>, first: nat) -> Seq<ExprIR> {
    Seq::new(
        columns.len(),
        |k: int| ExprIR {
            node: (first + k) as usize,
            output_name: OutputName::ColumnLhs(columns[k].0),
        },
    )
}

/// Whether of two names the first occurs in a list before any expression of the second.
pub open spec fn comes_before(list: Seq<ExprIR>, a: Seq<char>, b: Seq<char>) -> bool {
    exists|k: int|
        0 <= k < list.len() && title(#[trigger] list[k]) == a && forall|m: int|
            0 <= m < list.len() && title(#[trigger] list[m]) == b ==> k < m
}

/// Whether some expressions are those that a list comes to when later ones take the place of
/// earlier ones of the same name: each name once, where it first occurs, with the last expression
/// of it.
pub open spec fn selects_by_name(selected: Seq<ExprIR>, list: Seq<ExprIR>) -> bool {
    &&& forall|a: int, b: int|
        0 <= a < b < selected.len() ==> title(#[trigger] selected[a]) != title(
            #[trigger] selected[b],
        ) && comes_before(list, title(selected[a]), title(selected[b]))
    &&& forall|a: int| 0 <= a < selected.len() ==> is_last(list, #[trigger] selected[a])
    &&& forall|k: int| #[trigger] last_of_its_name(list, k) ==> selected.contains(list[k])
}

/// Whether a name is among some entries.
spec fn is_listed(entries: Seq<(Seq<char>, ExprIR)>, name: Seq<char>) -> bool {
    exists|a: int| 0 <= a < entries.len() && (#[trigger] entries[a]).0 == name
}

/// Whether entries stand in the order in which their names first occur in a list.
spec fn in_order(entries: Seq<(Seq<char>, ExprIR)>, list: Seq<ExprIR>) -> bool {
    &&& forall|k: int| 0 <= k < list.len() ==> is_listed(entries, title(#[trigger] list[k]))
    &&& forall|a: int, b: int|
        0 <= a < b < entries.len() ==> comes_before(
            list,
            (#[trigger] entries[a]).0,
            (#[trigger] entries[b]).0,
        )
}

proof fn lemma_comes_before_pushed(
    list: Seq<ExprIR>,
    expr: ExprIR,
    a: Seq<char>,
    b: Seq<char>,
)
    requires
        comes_before(list, a, b),
    ensures
        comes_before(list.push(expr), a, b),
{
    let more = list.push(expr);
    let k = choose|k: int|
        0 <= k < list.len() && title(#[trigger] list[k]) == a && forall|m: int|
            0 <= m < list.len() && title(#[trigger] list[m]) == b ==> k < m;
    assert(title(more[k]) == a);
    assert forall|m: int| 0 <= m < more.len() && title(#[trigger] more[m]) == b implies k < m by {
        if m < list.len() {
            assert(title(list[m]) == b);
        }
    }
}

proof fn lemma_in_order(list: Seq<ExprIR>)
    ensures
        in_order(by_name(list), list),
    decreases list.len(),
{
    if list.len() > 0 {
        let most = list.drop_last();
        let expr = list.last();
        let before = by_name(most);
        let entries = by_name(list);
        let name = title(expr);
        lemma_in_order(most);
        lemma_sums_up(most);
        assert(most.push(expr) == list);
        assert(entries == upsert(before, name, expr));
        assert forall|a: int| 0 <= a < before.len() implies (#[trigger] entries[a]).0
            == before[a].0 by {}
        assert forall|k: int| 0 <= k < list.len() implies is_listed(
            entries,
            title(#[trigger] list[k]),
        ) by {
            if k < most.len() {
                assert(most[k] == list[k]);
                assert(is_listed(before, title(most[k])));
                let a = choose|a: int|
                    0 <= a < before.len() && (#[trigger] before[a]).0 == title(most[k]);
                assert(entries[a].0 == title(list[k]));
            } else {
                match position(before, name) {
                    Some(at) => {
                        assert(entries[at].0 == name);
                    },
                    None => {
                        assert(entries[before.len() as int].0 == name);
                    },
                }
            }
        }
        assert forall|a: int, b: int| 0 <= a < b < entries.len() implies comes_before(
            list,
            (#[trigger] entries[a]).0,
            (#[trigger] entries[b]).0,
        ) by {
            assert(entries[a].0 == before[a].0);
            if b < before.len() {
                assert(entries[b].0 == before[b].0);
                assert(comes_before(most, before[a].0, before[b].0));
                lemma_comes_before_pushed(most, expr, before[a].0, before[b].0);
            } else {
                assert(position(before, name) is None);
                assert(entries[b].0 == name);
                assert(is_last(most, before[a].1));
                let k = choose|k: int| #[trigger]
                    last_of_its_name(most, k) && most[k] == before[a].1;
                assert(before[a].0 == title(before[a].1));
                assert(title(list[k]) == entries[a].0);
                assert forall|m: int|
                    0 <= m < list.len() && title(#[trigger] list[m]) == name implies k < m by {
                    if m < most.len() {
                        assert(is_listed(before, title(most[m])));
                        let at = choose|at: int|
                            0 <= at < before.len() && (#[trigger] before[at]).0 == title(most[m]);
                        assert(before[at].0 == name);
                        assert(false);
                    }
                }
            }
        }
    }
}

/// When columns are added to others, each name is selected once, where it first occurs, with the
/// last expression of that name.
pub proof fn columns_are_selected_by_name(
    columns: Seq<(String, DataType)>,
    first: nat,
    exprs: Seq<ExprIR>,
)
    ensures
        selects_by_name(
            stacked(names_of(columns), first, exprs),
            as_exprs(columns, first) + exprs,
        ),
{
    let list = as_exprs(columns, first) + exprs;
    assert(column_exprs(names_of(columns), first) == as_exprs(columns, first));
    let entries = by_name(list);
    let selected = entry_exprs(entries);
    lemma_sums_up(list);
    lemma_in_order(list);
    assert forall|a: int| 0 <= a < selected.len() implies title(#[trigger] selected[a])
        == entries[a].0 by {
        assert(entries[a].0 == title(entries[a].1));
    }
    assert forall|a: int, b: int| 0 <= a < b < selected.len() implies title(#[trigger] selected[a])
        != title(#[trigger] selected[b]) && comes_before(
        list,
        title(selected[a]),
        title(selected[b]),
    ) by {
        assert(entries[a].0 != entries[b].0);
    }
    assert forall|a: int| 0 <= a < selected.len() implies is_last(list, #[trigger] selected[a]) by {
        assert(is_last(list, entries[a].1));
    }
    assert forall|k: int| #[trigger] last_of_its_name(list, k) implies selected.contains(
        list[k],
    ) by {
        let a = choose|a: int| 0 <= a < entries.len() && (#[trigger] entries[a]).1 == list[k];
        assert(selected[a] == list[k]);
    }
}

/// Whether a run has the service select, from an input, its columns together with others.
pub open spec fn selects_all(
    run: Run,
    input: PhysNodeKey,
    exprs: Seq<ExprIR>,
    w: World,
    t: Seq<Input>,
    i: nat,
) -> bool {
    let columns = w.phys[input].output_schema;
    exists|selectors: Seq<ExprIR>, now: World|
        run == #[trigger] selects(input, selectors, now, t, i) && selects_by_name(
            selectors,
            as_exprs(columns, w.exprs.len()) + exprs,
        ) && has_columns(now.exprs, w.exprs, columns) && now.phys == w.phys && now.cache == w.cache
}

/// As soon as one of the columns that are added, at whatever place, is said not to be elementwise,
/// nothing more is asked about them, and all columns are selected anew from the input.
pub proof fn other_columns_are_selected_anew(
    p: Plan,
    node: Node,
    depth: nat,
    w: World,
    t: Seq<Input>,
    i: nat,
    count: nat,
    said: World,
    key: PhysNodeKey,
    after: World,
    next: nat,
)
    requires
        node < p.nodes.len(),
        depth > 0,
        p.nodes[node as int].ir matches IR::HStack { input, exprs } && count < exprs@.len()
            && lower(p, input, (depth - 1) as nat, said, t, i + count + 1) == (Run::Returns {
            result: Ok(key),
            world: after,
            next,
        }),
        all_yes(t, i, count),
        i + count < t.len(),
        t[(i + count) as int] == Input::Answer(ReplyView::Elementwise(false), said),
    ensures
        selects_all(
            lower(p, node, depth, w, t, i),
            key,
            p.nodes[node as int].ir->HStack_exprs@,
            after,
            t,
            next,
        ),
{
    let exprs = p.nodes[node as int].ir->HStack_exprs@;
    let columns = after.phys[key].output_schema;
    lemma_stack_yes(p, node, depth, w, t, i, count);
    let prep = PrepView::Elementwise(false);
    assert(lower(p, node, depth, w, t, i) == lower_inputs(
        p,
        node,
        depth,
        prep,
        seq![],
        said,
        t,
        i + count + 1,
    ));
    lemma_one_input(p, node, depth, prep, said, t, i + count + 1);
    columns_are_selected_by_name(columns, after.exprs.len(), exprs);
    let now = World {
        exprs: with_columns(after.exprs, names_of(columns)),
        ..after
    };
    assert(has_columns(now.exprs, after.exprs, columns));
    assert(lower(p, node, depth, w, t, i) == selects(
        key,
        stacked(names_of(columns), after.exprs.len(), exprs),
        now,
        t,
        next,
    ));
}

/// When the input of added columns cannot be lowered, or not without a question, that is what comes
/// of them, whether they are elementwise or not.
pub proof fn added_columns_wait_for_the_input(
    p: Plan,
    node: Node,
    depth: nat,
    w: World,
    t: Seq<Input>,
    i: nat,
    count: nat,
)
    requires
        node < p.nodes.len(),
        depth > 0,
        p.nodes[node as int].ir matches IR::HStack { exprs, .. } && count <= exprs@.len(),
        all_yes(t, i, count),
    ensures
        ({
            let exprs = p.nodes[node as int].ir->HStack_exprs@;
            let input = p.nodes[node as int].ir->HStack_input;
            if count == exprs.len() {
                let now = world_after(w, t, i, count);
                let run = lower(p, input, (depth - 1) as nat, now, t, i + count);
                !(run matches Run::Returns { result: Ok(_), .. }) ==> lower(p, node, depth, w, t, i)
                    == run
            } else {
                i + count < t.len() ==> match t[(i + count) as int] {
                    Input::Answer(ReplyView::Elementwise(false), said) => {
                        let run = lower(p, input, (depth - 1) as nat, said, t, i + count + 1);
                        !(run matches Run::Returns { result: Ok(_), .. }) ==> lower(
                            p,
                            node,
                            depth,
                            w,
                            t,
                            i,
                        ) == run
                    },
                    _ => true,
                }
            }
        }),
{
    lemma_stack_yes(p, node, depth, w, t, i, count);
    if count == p.nodes[node as int].ir->HStack_exprs@.len() {
        let now = world_after(w, t, i, count);
        lemma_one_input(p, node, depth, PrepView::Elementwise(true), now, t, i + count);
    } else if i + count < t.len() {
        if let Input::Answer(_, said) = t[(i + count) as int] {
            let prep = PrepView::Elementwise(false);
            lemma_one_input(p, node, depth, prep, said, t, i + count + 1);
        }
    }
}

/// The node that an aggregation reads, for the aggregations that can be streamed.
pub open spec fn aggregated(kind: AExprKind) -> Option<Node> {
    match kind {
        AExprKind::Agg(IRAggExpr::Min { input, .. }) => Some(input),
        AExprKind::Agg(IRAggExpr::Max { input, .. }) => Some(input),
        AExprKind::Agg(IRAggExpr::Mean(input)) => Some(input),
        AExprKind::Agg(IRAggExpr::Sum(input)) => Some(input),
        AExprKind::Agg(IRAggExpr::Var(input, _)) => Some(input),
        AExprKind::Agg(IRAggExpr::Std(input, _)) => Some(input),
        _ => None,
    }
}

/// Whether all of some expressions are aggregations that can be streamed, or counts of rows.
pub open spec fn streamable(aggs: Seq<ExprIR>, exprs: Seq<AExpr>) -> bool {
    forall|j: int|
        0 <= j < aggs.len() ==> (#[trigger] aggs[j]).node < exprs.len() && (
        exprs[aggs[j].node as int].kind is Len || (aggregated(exprs[aggs[j].node as int].kind)
            matches Some(input) && input < exprs.len()))
}

/// How many of the first `count` expressions are not counts of rows.
pub open spec fn questions(aggs: Seq<ExprIR>, exprs: Seq<AExpr>, count: nat) -> nat
    decreases count,
{
    if count == 0 {
        0
    } else {
        questions(aggs, exprs, (count - 1) as nat) + if exprs[aggs[count - 1].node as int].kind
            is Len {
            0nat
        } else {
            1nat
        }
    }
}

/// What a grouping has lowered for its aggregations: what each of them reads, under its own name,
/// and the first key for a count of rows.
pub open spec fn for_aggregations(
    keys: Seq<ExprIR>,
    aggs: Seq<ExprIR>,
    exprs: Seq<AExpr>,
) -> Seq<ExprIR> {
    Seq::new(
        aggs.len(),
        |j: int|
            if exprs[aggs[j].node as int].kind is Len {
                keys[0]
            } else {
                let input = aggregated(exprs[aggs[j].node as int].kind)->0;
                ExprIR { node: input, output_name: exprs[input as int].output_name }
            },
    )
}

/// Whether every answer leaves the expressions that were there.
pub open spec fn keeps_exprs(t: Seq<Input>, exprs: Seq<AExpr>) -> bool {
    forall|j: int|
        0 <= j < t.len() ==> (#[trigger] t[j] matches Input::Answer(_, after) ==> extends(
            after.exprs,
            exprs,
        ))
}

proof fn lemma_group_yes(
    p: Plan,
    node: Node,
    depth: nat,
    w: World,
    t: Seq<Input>,
    i: nat,
    count: nat,
)
    requires
        p.nodes[node as int].ir matches IR::GroupBy { aggs, .. } && count <= aggs@.len()
            && streamable(aggs@, w.exprs) && all_yes(t, i, questions(aggs@, w.exprs, count)),
        keeps_exprs(t, w.exprs),
    ensures
        ({
            let keys = p.nodes[node as int].ir->GroupBy_keys@;
            let aggs = p.nodes[node as int].ir->GroupBy_aggs@;
            let asked = questions(aggs, w.exprs, count);
            &&& extends(world_after(w, t, i, asked).exprs, w.exprs)
            &&& tests_group(p, node, depth, 0, keys, w, t, i) == tests_group(
                p,
                node,
                depth,
                count,
                keys + for_aggregations(keys, aggs, w.exprs).take(count as int),
                world_after(w, t, i, asked),
                t,
                i + asked,
            )
        }),
    decreases count,
{
    let keys = p.nodes[node as int].ir->GroupBy_keys@;
    let aggs = p.nodes[node as int].ir->GroupBy_aggs@;
    let read = for_aggregations(keys, aggs, w.exprs);
    if count == 0 {
        assert(keys + read.take(0) == keys);
    } else {
        let before = (count - 1) as nat;
        let asked = questions(aggs, w.exprs, before);
        lemma_group_yes(p, node, depth, w, t, i, before);
        let now = world_after(w, t, i, asked);
        let needed = keys + read.take(before as int);
        let expr = now.exprs[aggs[before as int].node as int];
        assert(aggs[before as int].node < w.exprs.len());
        assert(expr == w.exprs[aggs[before as int].node as int]);
        assert(read.take(count as int) == read.take(before as int).push(read[before as int]));
        assert(keys + read.take(count as int) == needed.push(read[before as int]));
        if !(expr.kind is Len) {
            assert(t[(i + asked) as int] matches Input::Answer(ReplyView::Elementwise(true), _));
            let after = t[(i + asked) as int]->Answer_1;
            let input = aggregated(expr.kind)->0;
            assert(after.exprs[input as int] == w.exprs[input as int]);
            assert(world_after(w, t, i, asked + 1) == after);
        }
    }
}

/// What one aggregation of a grouping after the other reads is asked about, with counts of rows
/// left out.
pub proof fn aggregations_are_tested_in_order(
    p: Plan,
    node: Node,
    depth: nat,
    w: World,
    t: Seq<Input>,
    i: nat,
    count: nat,
)
    requires
        node < p.nodes.len(),
        depth > 0,
        p.nodes[node as int].ir matches IR::GroupBy { keys, aggs, .. } && keys@.len() > 0 && count
            < aggs@.len() && streamable(aggs@, w.exprs) && !(
        w.exprs[aggs@[count as int].node as int].kind is Len) && all_yes(
            t,
            i,
            questions(aggs@, w.exprs, count),
        ) && t.len() == i + questions(aggs@, w.exprs, count),
        keeps_exprs(t, w.exprs),
    ensures
        ({
            let aggs = p.nodes[node as int].ir->GroupBy_aggs@;
            lower(p, node, depth, w, t, i) == (Run::Asks {
                request: RequestView::IsElementwise {
                    node: aggregated(w.exprs[aggs[count as int].node as int].kind)->0,
                },
                world: world_after(w, t, i, questions(aggs, w.exprs, count)),
            })
        }),
{
    let aggs = p.nodes[node as int].ir->GroupBy_aggs@;
    lemma_group_yes(p, node, depth, w, t, i, count);
    let now = world_after(w, t, i, questions(aggs, w.exprs, count));
    assert(aggs[count as int].node < w.exprs.len());
    assert(now.exprs[aggs[count as int].node as int] == w.exprs[aggs[count as int].node as int]);
}

/// A grouping does not go on over something that is not elementwise.
pub proof fn groupings_read_only_what_is_elementwise(
    p: Plan,
    node: Node,
    depth: nat,
    w: World,
    t: Seq<Input>,
    i: nat,
    count: nat,
)
    requires
        node < p.nodes.len(),
        depth > 0,
        p.nodes[node as int].ir matches IR::GroupBy { keys, aggs, .. } && keys@.len() > 0 && count
            < aggs@.len() && streamable(aggs@, w.exprs) && !(
        w.exprs[aggs@[count as int].node as int].kind is Len) && all_yes(
            t,
            i,
            questions(aggs@, w.exprs, count),
        ) && i + questions(aggs@, w.exprs, count) < t.len() && (t[(i + questions(
            aggs@,
            w.exprs,
            count,
        )) as int] matches Input::Answer(ReplyView::Elementwise(false), _)),
        keeps_exprs(t, w.exprs),
    ensures
        lower(p, node, depth, w, t, i) is Stuck,
{
    let aggs = p.nodes[node as int].ir->GroupBy_aggs@;
    lemma_group_yes(p, node, depth, w, t, i, count);
    let now = world_after(w, t, i, questions(aggs, w.exprs, count));
    assert(aggs[count as int].node < w.exprs.len());
    assert(now.exprs[aggs[count as int].node as int] == w.exprs[aggs[count as int].node as int]);
}

/// When all that the aggregations of a grouping read was said to be elementwise, the input is
/// lowered, and then the keys and what the aggregations read are to be lowered on top of it. What
/// comes of an input that is not lowered, or not without a question, comes of the grouping.
pub proof fn groupings_are_over_their_input(
    p: Plan,
    node: Node,
    depth: nat,
    w: World,
    t: Seq<Input>,
    i: nat,
)
    requires
        node < p.nodes.len(),
        depth > 0,
        p.nodes[node as int].ir matches IR::GroupBy { keys, aggs, .. } && keys@.len() > 0
            && streamable(aggs@, w.exprs) && all_yes(
            t,
            i,
            questions(aggs@, w.exprs, aggs@.len()),
        ),
        keeps_exprs(t, w.exprs),
    ensures
        ({
            let keys = p.nodes[node as int].ir->GroupBy_keys@;
            let aggs = p.nodes[node as int].ir->GroupBy_aggs@;
            let asked = questions(aggs, w.exprs, aggs.len());
            match lower(
                p,
                p.nodes[node as int].ir->GroupBy_input,
                (depth - 1) as nat,
                world_after(w, t, i, asked),
                t,
                i + asked,
            ) {
                Run::Returns { result: Ok(key), world, next } => lower(p, node, depth, w, t, i)
                    == finish(
                    p,
                    node,
                    PrepView::Group(keys + for_aggregations(keys, aggs, w.exprs)),
                    seq![key],
                    world,
                    t,
                    next,
                ),
                other => lower(p, node, depth, w, t, i) == other,
            }
        }),
{
    let keys = p.nodes[node as int].ir->GroupBy_keys@;
    let aggs = p.nodes[node as int].ir->GroupBy_aggs@;
    let read = for_aggregations(keys, aggs, w.exprs);
    let asked = questions(aggs, w.exprs, aggs.len());
    lemma_group_yes(p, node, depth, w, t, i, aggs.len());
    assert(read.take(aggs.len() as int) == read);
    lemma_one_input(
        p,
        node,
        depth,
        PrepView::Group(keys + read),
        world_after(w, t, i, asked),
        t,
        i + asked,
    );
}

/// The expressions of a grouping are asked to be lowered over the lowered input, and when that
/// fails the error is handed on.
pub proof fn groupings_have_their_expressions_lowered(
    p: Plan,
    node: Node,
    needed: Seq<ExprIR>,
    key: PhysNodeKey,
    w: World,
    t: Seq<Input>,
    i: nat,
)
    requires
        p.nodes[node as int].ir is GroupBy,
    ensures
        ({
            let run = finish(p, node, PrepView::Group(needed), seq![key], w, t, i);
            &&& t.len() == i ==> run == (Run::Asks {
                request: RequestView::LowerExprs { input: key, exprs: needed },
                world: w,
            })
            &&& i < t.len() ==> match t[i as int] {
                Input::Answer(ReplyView::Failed(error), after) => run == (Run::Returns {
                    result: Err(LowerError::Polars(error)),
                    world: after,
                    next: i + 1,
                }),
                _ => true,
            }
        }),
{
}

/// Whether an expression is the same aggregation as another, over a given node. A count of rows is
/// one whatever it is over.
pub open spec fn is_same_over(new: AExprKind, old: AExprKind, node: Node) -> bool {
    match old {
        AExprKind::Agg(IRAggExpr::Min { propagate_nans, .. }) => new == AExprKind::Agg(
            IRAggExpr::Min { input: node, propagate_nans },
        ),
        AExprKind::Agg(IRAggExpr::Max { propagate_nans, .. }) => new == AExprKind::Agg(
            IRAggExpr::Max { input: node, propagate_nans },
        ),
        AExprKind::Agg(IRAggExpr::Mean(_)) => new == AExprKind::Agg(IRAggExpr::Mean(node)),
        AExprKind::Agg(IRAggExpr::Sum(_)) => new == AExprKind::Agg(IRAggExpr::Sum(node)),
        AExprKind::Agg(IRAggExpr::Var(_, ddof)) => new == AExprKind::Agg(
            IRAggExpr::Var(node, ddof),
        ),
        AExprKind::Agg(IRAggExpr::Std(_, ddof)) => new == AExprKind::Agg(
            IRAggExpr::Std(node, ddof),
        ),
        other => new == other,
    }
}

/// A grouping is by what stands for its keys. For each aggregation there is a new expression, which
/// is the same aggregation over what was lowered for it, under the name of the aggregation.
/// A slice, with the same offset and length, is on top wherever there is one.
pub proof fn groupings_keep_their_aggregations(
    p: Plan,
    node: Node,
    needed: Seq<ExprIR>,
    key: PhysNodeKey,
    w: World,
    t: Seq<Input>,
    i: nat,
    from: PhysNodeKey,
    exprs: Seq<ExprIR>,
    after: World,
)
    requires
        i < t.len(),
        t[i as int] == Input::Answer(ReplyView::Lowered { input: from, exprs }, after),
        p.nodes[node as int].ir matches IR::GroupBy { keys, options, .. } && exprs.len()
            >= keys@.len() && (options.slice matches Some((offset, _)) ==> offset
            >= 0 && i + 2 < t.len() && (t[(i + 2) as int] matches Input::Key(top) && top != key_at(
            t,
            i + 1,
        ) && !after.phys.contains_key(top))),
        fresh(t, i + 1, after),
    ensures
        ({
            let keys = p.nodes[node as int].ir->GroupBy_keys@;
            let aggs = p.nodes[node as int].ir->GroupBy_aggs@;
            let slice = p.nodes[node as int].ir->GroupBy_options.slice;
            let columns = schema_fields(*p.nodes[node as int].schema);
            let made = key_at(t, i + 1);
            let first = after.exprs.len();
            let count = if aggs.len() <= exprs.len() - keys.len() {
                aggs.len() as int
            } else {
                exprs.len() - keys.len()
            };
            &&& finish(p, node, PrepView::Group(needed), seq![key], w, t, i) matches Run::Returns {
                result: Ok(top),
                world,
                next,
            }
            &&& world.phys[made].kind matches PhysNodeKindView::GroupBy {
                input,
                key: by,
                aggs: lowered,
            }
            &&& input == from
            &&& by == exprs.take(keys.len() as int)
            &&& lowered.len() == count
            &&& forall|j: int|
                0 <= j < count ==> #[trigger] lowered[j] == (ExprIR {
                    node: (first + j) as usize,
                    output_name: aggs[j].output_name,
                })
            &&& world.exprs.len() == first + count
            &&& forall|j: int| 0 <= j < first ==> #[trigger] world.exprs[j] == after.exprs[j]
            &&& forall|j: int|
                0 <= j < count ==> is_same_over(
                    world.exprs[first + j].kind,
                    after.exprs[(#[trigger] aggs[j]).node as int].kind,
                    exprs[keys.len() + j].node,
                ) && world.exprs[first + j].output_name == if after.exprs[aggs[j].node as int].kind
                    is Agg {
                    after.exprs[exprs[keys.len() + j].node as int].output_name
                } else {
                    after.exprs[aggs[j].node as int].output_name
                }
            &&& world.cache == after.cache
            &&& match slice {
                None => {
                    &&& top == made
                    &&& next == i + 2
                    &&& world.phys == with_node(
                        after,
                        made,
                        columns,
                        world.phys[made].kind,
                    ).phys
                },
                Some((offset, length)) => {
                    &&& top == key_at(t, i + 2)
                    &&& next == i + 3
                    &&& world.phys == with_node(
                        with_node(after, made, columns, world.phys[made].kind),
                        top,
                        columns,
                        PhysNodeKindView::StreamingSlice {
                            input: made,
                            offset: offset as usize,
                            length,
                        },
                    ).phys
                },
            }
        }),
{
    assert(seq![key][0] == key);
}

/// Whether a join is by equal keys, with no check of how often a key occurs.
pub open spec fn joins_on_streams(args: JoinArgs) -> bool {
    &&& args.validation is ManyToMany
    &&& match args.how {
        JoinType::Inner => true,
        JoinType::Left => true,
        JoinType::Right => true,
        JoinType::Full => true,
        _ => false,
    }
}

/// Whether the sides of a join are lowered to some keys, the left one first.
pub open spec fn sides_lowered(
    p: Plan,
    node: Node,
    depth: nat,
    w: World,
    t: Seq<Input>,
    i: nat,
    left: PhysNodeKey,
    right: PhysNodeKey,
    after: World,
    next: nat,
) -> bool {
    &&& node < p.nodes.len()
    &&& depth > 0
    &&& p.nodes[node as int].ir matches IR::Join { input_left, input_right, .. }
    &&& lower(p, input_left, (depth - 1) as nat, w, t, i) matches Run::Returns {
        result: Ok(first),
        world: between,
        next: then,
    }
    &&& first == left
    &&& lower(p, input_right, (depth - 1) as nat, between, t, then) == (Run::Returns {
        result: Ok(right),
        world: after,
        next,
    })
}

proof fn lemma_sides(
    p: Plan,
    node: Node,
    depth: nat,
    w: World,
    t: Seq<Input>,
    i: nat,
    left: PhysNodeKey,
    right: PhysNodeKey,
    after: World,
    next: nat,
)
    requires
        sides_lowered(p, node, depth, w, t, i, left, right, after, next),
    ensures
        lower(p, node, depth, w, t, i) == finish(
            p,
            node,
            PrepView::Plain,
            seq![left, right],
            after,
            t,
            next,
        ),
{
    let all = inputs(p.nodes[node as int].ir);
    let keys = seq![left, right];
    let below = (depth - 1) as nat;
    let run = lower(p, all[0], below, w, t, i);
    assert(all.take(2) == all);
    assert(all.skip(1)[0] == all[1]);
    assert(all.skip(1).skip(1).len() == 0);
    assert(keys.skip(1)[0] == right);
    let none = keys.skip(1).skip(1);
    assert(lowers_all(p, all.skip(1).skip(1), below, after, t, next, none, after, next));
    assert(lowers_all(
        p,
        all.skip(1),
        below,
        run->Returns_world,
        t,
        run->Returns_next,
        keys.skip(1),
        after,
        next,
    ));
    assert(lowers_all(p, all, below, w, t, i, keys, after, next));
    inputs_are_lowered_in_order(p, node, depth, w, t, i, keys, after, next);
}

/// A join that is not by equal keys on streams is done in memory, on its lowered sides, by all its
/// keys, and with its arguments as they are.
pub proof fn other_joins_keep_all_keys(
    p: Plan,
    node: Node,
    depth: nat,
    w: World,
    t: Seq<Input>,
    i: nat,
    left: PhysNodeKey,
    right: PhysNodeKey,
    after: World,
    next: nat,
)
    requires
        sides_lowered(p, node, depth, w, t, i, left, right, after, next),
        !joins_on_streams(p.nodes[node as int].ir->Join_args),
        fresh(t, next, after),
    ensures
        lower(p, node, depth, w, t, i) == (Run::Returns {
            result: Ok(key_at(t, next)),
            world: with_node(
                after,
                key_at(t, next),
                schema_fields(*p.nodes[node as int].schema),
                PhysNodeKindView::InMemoryJoin {
                    input_left: left,
                    input_right: right,
                    left_on: p.nodes[node as int].ir->Join_left_on@,
                    right_on: p.nodes[node as int].ir->Join_right_on@,
                    args: p.nodes[node as int].ir->Join_args,
                },
            ),
            next: next + 1,
        }),
{
    lemma_sides(p, node, depth, w, t, i, left, right, after, next);
}

/// A join by equal keys first has the keys of the left side lowered, together with all columns of
/// that side.
pub proof fn joins_ask_for_the_left_side(
    p: Plan,
    node: Node,
    depth: nat,
    w: World,
    t: Seq<Input>,
    i: nat,
    left: PhysNodeKey,
    right: PhysNodeKey,
    after: World,
)
    requires
        sides_lowered(p, node, depth, w, t, i, left, right, after, t.len()),
        joins_on_streams(p.nodes[node as int].ir->Join_args),
    ensures
        ({
            let left_on = p.nodes[node as int].ir->Join_left_on@;
            let columns = after.phys[left].output_schema;
            let others = after.phys[right].output_schema;
            let both = after.exprs.len() + columns.len();
            &&& lower(p, node, depth, w, t, i) matches Run::Asks {
                request: RequestView::LowerExprs { input, exprs },
                world,
            }
            &&& input == left
            &&& exprs.len() == left_on.len() + columns.len()
            &&& exprs.take(left_on.len() as int) == left_on
            &&& names_columns(exprs, left_on.len() as int, after.exprs.len(), columns)
            &&& world.exprs.len() == both + others.len()
            &&& has_columns(world.exprs.take(both as int), after.exprs, columns)
            &&& has_columns(world.exprs, world.exprs.take(both as int), others)
            &&& world.phys == after.phys
            &&& world.cache == after.cache
        }),
{
    lemma_sides(p, node, depth, w, t, i, left, right, after, t.len());
}

/// Then a join by equal keys has the keys of the right side lowered, together with all columns of
/// that side.
pub proof fn joins_ask_for_the_right_side(
    p: Plan,
    node: Node,
    depth: nat,
    w: World,
    t: Seq<Input>,
    i: nat,
    left: PhysNodeKey,
    right: PhysNodeKey,
    after: World,
    next: nat,
    lowered: (PhysNodeKey, Seq<ExprIR>, World),
)
    requires
        sides_lowered(p, node, depth, w, t, i, left, right, after, next),
        joins_on_streams(p.nodes[node as int].ir->Join_args),
        t.len() == next + 1,
        t[next as int] == Input::Answer(
            ReplyView::Lowered { input: lowered.0, exprs: lowered.1 },
            lowered.2,
        ),
    ensures
        ({
            let right_on = p.nodes[node as int].ir->Join_right_on@;
            let others = after.phys[left].output_schema;
            let columns = after.phys[right].output_schema;
            let first = after.exprs.len() + others.len();
            &&& lower(p, node, depth, w, t, i) matches Run::Asks {
                request: RequestView::LowerExprs { input, exprs },
                world,
            }
            &&& input == right
            &&& exprs.len() == right_on.len() + columns.len()
            &&& exprs.take(right_on.len() as int) == right_on
            &&& names_columns(exprs, right_on.len() as int, first, columns)
            &&& world == lowered.2
        }),
{
    lemma_sides(p, node, depth, w, t, i, left, right, after, next);
}

/// A join by equal keys is on what was lowered for its sides, by as many keys as it has, the first
/// ones of what was lowered, and with its arguments as they are. A slice, with the same offset and
/// length, is on top wherever there is one.
pub proof fn joins_are_by_all_keys(
    p: Plan,
    node: Node,
    depth: nat,
    w: World,
    t: Seq<Input>,
    i: nat,
    left: PhysNodeKey,
    right: PhysNodeKey,
    after: World,
    next: nat,
    first: (PhysNodeKey, Seq<ExprIR>, World),
    second: (PhysNodeKey, Seq<ExprIR>, World),
)
    requires
        sides_lowered(p, node, depth, w, t, i, left, right, after, next),
        joins_on_streams(p.nodes[node as int].ir->Join_args),
        next + 1 < t.len(),
        t[next as int] == Input::Answer(
            ReplyView::Lowered { input: first.0, exprs: first.1 },
            first.2,
        ),
        t[(next + 1) as int] == Input::Answer(
            ReplyView::Lowered { input: second.0, exprs: second.1 },
            second.2,
        ),
        fresh(t, next + 2, second.2),
    ensures
        ({
            let columns = schema_fields(*p.nodes[node as int].schema);
            let args = p.nodes[node as int].ir->Join_args;
            let joined = key_at(t, next + 2);
            let left_keys = p.nodes[node as int].ir->Join_left_on@.len();
            let right_keys = p.nodes[node as int].ir->Join_right_on@.len();
            let now = with_node(
                second.2,
                joined,
                columns,
                PhysNodeKindView::EquiJoin {
                    input_left: first.0,
                    input_right: second.0,
                    left_on: first.1.take(left_keys as int),
                    right_on: second.1.take(right_keys as int),
                    args,
                },
            );
            let run = lower(p, node, depth, w, t, i);
            match args.slice {
                None => run == (Run::Returns { result: Ok(joined), world: now, next: next + 3 }),
                Some((offset, length)) => offset >= 0 && fresh(t, next + 3, now) ==> run == (
                Run::Returns {
                    result: Ok(key_at(t, next + 3)),
                    world: with_node(
                        now,
                        key_at(t, next + 3),
                        columns,
                        PhysNodeKindView::StreamingSlice {
                            input: joined,
                            offset: offset as usize,
                            length,
                        },
                    ),
                    next: next + 4,
                }),
            }
        }),
{
    lemma_sides(p, node, depth, w, t, i, left, right, after, next);
}

/// When the keys of either side of a join by equal keys cannot be lowered, the error is handed on.
pub proof fn joins_hand_on_failures(
    p: Plan,
    node: Node,
    depth: nat,
    w: World,
    t: Seq<Input>,
    i: nat,
    left: PhysNodeKey,
    right: PhysNodeKey,
    after: World,
    next: nat,
)
    requires
        sides_lowered(p, node, depth, w, t, i, left, right, after, next),
        joins_on_streams(p.nodes[node as int].ir->Join_args),
        next < t.len(),
    ensures
        match t[next as int] {
            Input::Answer(ReplyView::Failed(error), now) => lower(p, node, depth, w, t, i) == (
            Run::Returns { result: Err(LowerError::Polars(error)), world: now, next: next + 1 }),
            Input::Answer(ReplyView::Lowered { .. }, _) => next + 1 < t.len() ==> match t[(next
                + 1) as int] {
                Input::Answer(ReplyView::Failed(error), now) => lower(p, node, depth, w, t, i) == (
                Run::Returns {
                    result: Err(LowerError::Polars(error)),
                    world: now,
                    next: next + 2,
                }),
                _ => true,
            },
            _ => true,
        },
{
    lemma_sides(p, node, depth, w, t, i, left, right, after, next);
}

} // verus!
