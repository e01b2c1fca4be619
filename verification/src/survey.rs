//! Finding out beforehand whether a plan can be lowered.

use crate::advance::{lemma_rest_after, lemma_rest_fails, lemma_rest_stuck, level_placed, plan,
    rest_outlook};
use crate::ir::{inputs, AExpr, AExprKind, ExprIR, FileScan, FileType, FunctionIR, IRNode, Node,
    Scan, SinkType, IR};
use crate::model::{Plan, PrepView};
use crate::phys::PhysNodeKey;
use crate::schema::schema_names;
use crate::step::LevelView;
use crate::store::{count_exprs, count_ir, expr_items, get_expr, get_ir, ir_items, CacheNodes};
use crate::support::{agg_supported, aggs_supported, bounded, ends_well, inputs_outlook, named,
    outlook, scan_supported, slice_supported, starts_well, Outlook};
use polars_utils::arena::Arena;
use vstd::prelude::*;
use vstd::set_lib::{lemma_int_range, lemma_len_subset, set_int_range};

verus! {

/// Tells whether a slice can be made.
pub fn can_slice(slice: Option<(i64, usize)>) -> (can: bool)
    ensures
        can == slice_supported(slice),
{
    match slice {
        Some((offset, _)) => offset >= 0,
        None => true,
    }
}

/// Tells whether all of some expressions have a name.
pub fn all_named(exprs: &Vec<ExprIR>) -> (all: bool)
    ensures
        all == named(exprs@),
{
    for i in 0..exprs.len()
        invariant
            forall|j: int|
                0 <= j < i ==> (#[trigger] exprs@[j]).output_name.name() is Some,
    {
        if exprs[i].output_name.get().is_none() {
            return false;
        }
    }
    true
}

/// Tells whether all of some expressions from the `at`-th on are aggregations that can be streamed,
/// or counts of rows.
pub fn can_aggregate(aggs: &Vec<ExprIR>, at: usize, expr_arena: &Arena<AExpr>) -> (can: bool)
    ensures
        can == aggs_supported(aggs@, at as nat, expr_items(*expr_arena)),
{
    let count = count_exprs(expr_arena);
    let mut i: usize = at;
    while i < aggs.len()
        invariant
            count == expr_items(*expr_arena).len(),
            forall|j: int|
                at <= j < i && j < aggs@.len() ==> agg_supported(
                    #[trigger] aggs@[j],
                    expr_items(*expr_arena),
                ),
            at <= i,
        decreases aggs.len() - i,
    {
        let expr = &aggs[i];
        if expr.node >= count {
            assert(!agg_supported(aggs@[i as int], expr_items(*expr_arena)));
            return false;
        }
        let can = match &get_expr(expr_arena, expr.node).kind {
            AExprKind::Len => true,
            AExprKind::Agg(agg) => match agg.get_input() {
                Some(input) => input < count,
                None => false,
            },
            _ => false,
        };
        if !can {
            assert(!agg_supported(aggs@[i as int], expr_items(*expr_arena)));
            return false;
        }
        i = i + 1;
    }
    true
}

/// Tells whether a scan of at least one file can be lowered.
pub fn can_scan(node: &IRNode, scan: &Scan, csv_slice_disabled: bool) -> (can: bool)
    ensures
        can == scan_supported(*node, *scan, csv_slice_disabled),
{
    let all = match scan.scan_type {
        FileScan::Other(_) => {
            return false;
        },
        FileScan::Parquet { .. } => {
            return true;
        },
        FileScan::Ipc { .. } => {
            return scan.hive_parts.is_none() && !scan.sources.cloud_url
                && !scan.file_options.allow_missing_columns && can_slice(scan.file_options.slice);
        },
        FileScan::Csv { comment_prefix, .. } => comment_prefix || csv_slice_disabled,
    };
    if !all {
        return true;
    }
    if !can_slice(scan.file_options.slice) {
        return false;
    }
    match &scan.file_options.row_index {
        Some(row_index) => {
            let names = schema_names(&node.schema);
            names.len() > 0 && names[0] == row_index.name
        },
        None => true,
    }
}

/// Tells whether the lowering of a node can be started, as far as its own operation goes.
pub fn can_start(node: &IRNode, csv_slice_disabled: bool) -> (can: bool)
    ensures
        can == starts_well(*node, csv_slice_disabled),
{
    match &node.ir {
        IR::Sink { payload, .. } => match payload {
            SinkType::File { file_type, .. } => match file_type {
                FileType::Ipc(_) => true,
                _ => false,
            },
            SinkType::Memory => true,
        },
        IR::MapFunction { function, .. } => match function {
            FunctionIR::MergeSorted { .. } => false,
            _ => true,
        },
        IR::Scan { scan } => scan.sources.count == 0 || can_scan(node, scan, csv_slice_disabled),
        IR::GroupBy { apply, maintain_order, options, .. } => {
            !*apply && !*maintain_order && !options.dynamic && !options.rolling
        },
        IR::PythonScan { .. } => false,
        IR::Distinct { .. } => false,
        IR::ExtContext { .. } => false,
        IR::Invalid => false,
        _ => true,
    }
}

/// Tells whether the lowering of a node can be ended once its inputs are lowered.
pub fn can_end(ir: &IR) -> (can: bool)
    ensures
        can == ends_well(*ir),
{
    match ir {
        IR::Slice { offset, .. } => *offset >= 0,
        IR::Union { slice, .. } => can_slice(*slice),
        _ => true,
    }
}

/// Longer chains are allowed, so no node is lost.
proof fn lemma_bounded_more(p: Plan, node: Node, depth: nat)
    requires
        bounded(p, node, depth),
    ensures
        bounded(p, node, depth + 1),
    decreases depth,
{
    assert forall|i: int| 0 <= i < inputs(p.nodes[node as int].ir).len() implies bounded(
        p,
        #[trigger] inputs(p.nodes[node as int].ir)[i],
        depth,
    ) by {
        lemma_bounded_more(p, inputs(p.nodes[node as int].ir)[i], (depth - 1) as nat);
    }
}

/// Where chains that are longer by one bring in no node, no longer chains do.
proof fn lemma_bounded_stable(p: Plan, node: Node, depth: nat, other: nat)
    requires
        forall|n: Node| #[trigger] bounded(p, n, depth + 1) ==> bounded(p, n, depth),
        bounded(p, node, other),
    ensures
        bounded(p, node, depth),
    decreases other,
{
    assert forall|i: int| 0 <= i < inputs(p.nodes[node as int].ir).len() implies bounded(
        p,
        #[trigger] inputs(p.nodes[node as int].ir)[i],
        depth,
    ) by {
        lemma_bounded_stable(p, inputs(p.nodes[node as int].ir)[i], depth, (other - 1) as nat);
    }
    assert(bounded(p, node, depth + 1));
}

/// The nodes that are marked.
spec fn marks(marked: Seq<bool>) -> Set<int> {
    Set::new(|i: int| 0 <= i < marked.len() && marked[i])
}

/// Whether exactly the nodes are marked that read chains no longer than `depth`.
spec fn marks_bounded(marked: Seq<bool>, p: Plan, depth: nat) -> bool {
    &&& marked.len() == p.nodes.len()
    &&& forall|i: int|
        0 <= i < marked.len() ==> #[trigger] marked[i] == bounded(p, i as usize, depth)
}

/// Tells whether all inputs of a node are marked.
fn inputs_marked(ir: &IR, marked: &Vec<bool>) -> (all: bool)
    ensures
        all == (forall|i: int|
            0 <= i < inputs(*ir).len() ==> (#[trigger] inputs(*ir)[i]) < marked@.len()
                && marked@[inputs(*ir)[i] as int]),
{
    let count = ir.count_inputs();
    for at in 0..count
        invariant
            count == inputs(*ir).len(),
            forall|i: int|
                0 <= i < at ==> (#[trigger] inputs(*ir)[i]) < marked@.len()
                    && marked@[inputs(*ir)[i] as int],
    {
        if let Some(input) = ir.input(at) {
            if input >= marked.len() || !marked[input] {
                assert(inputs(*ir)[at as int] == input);
                return false;
            }
        }
    }
    true
}

/// Marks the nodes all of whose inputs are marked.
fn mark_next(
    ir_arena: &Arena<IRNode>,
    marked: &Vec<bool>,
    Ghost(p): Ghost<Plan>,
    Ghost(depth): Ghost<nat>,
) -> (next: Vec<bool>)
    requires
        p.nodes == ir_items(*ir_arena),
        marks_bounded(marked@, p, depth),
    ensures
        marks_bounded(next@, p, depth + 1),
{
    let mut next: Vec<bool> = Vec::new();
    for i in 0..marked.len()
        invariant
            p.nodes == ir_items(*ir_arena),
            marks_bounded(marked@, p, depth),
            next@.len() == i,
            forall|j: int| 0 <= j < i ==> #[trigger] next@[j] == bounded(p, j as usize, depth + 1),
    {
        let all = inputs_marked(&get_ir(ir_arena, i).ir, marked);
        proof {
            let read = inputs(p.nodes[i as int].ir);
            if all {
                assert forall|j: int| 0 <= j < read.len() implies bounded(
                    p,
                    #[trigger] read[j],
                    depth,
                ) by {
                    assert(marked@[read[j] as int] == bounded(p, read[j], depth));
                }
                assert(bounded(p, i, depth + 1));
            } else {
                let j = choose|j: int|
                    0 <= j < read.len() && !((#[trigger] read[j]) < marked@.len()
                        && marked@[read[j] as int]);
                assert(!bounded(p, read[j], depth));
                assert(!bounded(p, i, depth + 1));
            }
        }
        next.push(all);
    }
    next
}

/// Tells whether the chains that a node reads come to an end.
pub(crate) fn is_bounded(
    node: Node,
    ir_arena: &Arena<IRNode>,
    Ghost(p): Ghost<Plan>,
) -> (ends: bool)
    requires
        p.nodes == ir_items(*ir_arena),
    ensures
        ends == (exists|depth: nat| #[trigger] bounded(p, node, depth)),
{
    let count = count_ir(ir_arena);
    if node >= count {
        assert(forall|depth: nat| !bounded(p, node, depth));
        return false;
    }
    let mut marked: Vec<bool> = Vec::new();
    for i in 0..count
        invariant
            marked@.len() == i,
            forall|j: int| 0 <= j < i ==> !(#[trigger] marked@[j]),
    {
        marked.push(false);
    }
    let ghost mut depth: nat = 0;
    loop
        invariant
            p.nodes == ir_items(*ir_arena),
            count == p.nodes.len(),
            node < count,
            marks_bounded(marked@, p, depth),
        decreases count - marks(marked@).len(),
    {
        let next = mark_next(ir_arena, &marked, Ghost(p), Ghost(depth));
        let mut same = true;
        let mut at: usize = 0;
        while at < count && same
            invariant
                at <= count,
                marked@.len() == count,
                next@.len() == count,
                same ==> forall|i: int| 0 <= i < at ==> #[trigger] marked@[i] == next@[i],
                !same ==> exists|i: int| 0 <= i < count && #[trigger] marked@[i] != next@[i],
            decreases count - at,
        {
            if marked[at] != next[at] {
                same = false;
            }
            at = at + 1;
        }
        if same {
            proof {
                assert forall|n: Node| #[trigger] bounded(p, n, depth + 1) implies bounded(
                    p,
                    n,
                    depth,
                ) by {
                    assert(marked@[n as int] == next@[n as int]);
                }
                assert forall|other: nat| #[trigger] bounded(p, node, other) implies bounded(
                    p,
                    node,
                    depth,
                ) by {
                    lemma_bounded_stable(p, node, depth, other);
                }
                assert(marked@[node as int] == bounded(p, node, depth));
            }
            return marked[node];
        }
        proof {
            let before = marks(marked@);
            let after = marks(next@);
            let i = choose|i: int| 0 <= i < count && #[trigger] marked@[i] != next@[i];
            assert forall|j: int| before.contains(j) implies after.contains(j) by {
                assert(marked@[j] == bounded(p, j as usize, depth));
                lemma_bounded_more(p, j as usize, depth);
                assert(next@[j] == bounded(p, j as usize, depth + 1));
            }
            assert(!before.contains(i));
            if marked@[i] {
                assert(before.contains(i));
            }
            assert(after.contains(i));
            lemma_int_range(0, count as int);
            assert(before.subset_of(set_int_range(0, count as int)));
            assert(after.subset_of(set_int_range(0, count as int)));
            lemma_len_subset(before, set_int_range(0, count as int));
            lemma_len_subset(after, set_int_range(0, count as int));
            assert(before.insert(i).subset_of(after));
            lemma_len_subset(before.insert(i), after);
            depth = depth + 1;
        }
        marked = next;
    }
}

/// Where a walk through a plan is.
pub enum Spot {
    /// At a node that has not been looked at.
    At(Node, Ghost<nat>),
    /// At a node whose inputs have been walked through up to one.
    Inputs(Node, Ghost<nat>, usize),
    /// At the end of a node.
    Behind,
}

impl Spot {
    /// The outlook from there.
    pub open spec fn outlook(self, p: Plan, exprs: Seq<AExpr>, cached: Set<usize>) -> Outlook {
        match self {
            Spot::At(node, depth) => outlook(p, exprs, node, depth@, cached),
            Spot::Inputs(node, depth, at) => {
                inputs_outlook(p, exprs, node, depth@, at as nat, cached)
            },
            Spot::Behind => Outlook::Lowers { visits: 0, cached },
        }
    }

    /// Whether this is a spot in the plan.
    pub open spec fn placed(self, p: Plan) -> bool {
        match self {
            Spot::At(node, depth) => bounded(p, node, depth@),
            Spot::Inputs(node, depth, at) => bounded(p, node, depth@) && at <= inputs(
                p.nodes[node as int].ir,
            ).len(),
            Spot::Behind => true,
        }
    }

    /// How far it is to the next node, with this many nodes to come back to.
    pub open spec fn rank(self, waiting: nat) -> nat {
        match self {
            Spot::At(_, _) => 0,
            Spot::Inputs(_, _, _) => 2 * waiting + 2,
            Spot::Behind => 2 * waiting + 1,
        }
    }
}

/// Whether a list of nodes and input counts tells of the nodes that wait.
pub open spec fn tells(stack: Seq<(Node, usize)>, levels: Seq<LevelView>) -> bool {
    &&& stack.len() == levels.len()
    &&& forall|i: int|
        0 <= i < levels.len() ==> (#[trigger] stack[i]).0 == levels[i].node && stack[i].1
            == levels[i].keys.len()
}

/// Tells whether a number is in a list.
fn contains(list: &Vec<usize>, id: usize) -> (found: bool)
    ensures
        found == list@.contains(id),
{
    for i in 0..list.len()
        invariant
            forall|j: int| 0 <= j < i ==> #[trigger] list@[j] != id,
    {
        if list[i] == id {
            assert(list@[i as int] == id);
            return true;
        }
    }
    false
}

/// Walks through the part of a plan that is not lowered yet, and counts the nodes, up to a limit.
pub(crate) fn walk(
    spot: Spot,
    waiting: Vec<(Node, usize)>,
    limit: usize,
    ir_arena: &Arena<IRNode>,
    csv_slice_disabled: bool,
    expr_arena: &Arena<AExpr>,
    cache_nodes: &CacheNodes,
    Ghost(levels): Ghost<Seq<LevelView>>,
) -> (visits: Option<usize>)
    requires
        spot.placed(plan(*ir_arena, csv_slice_disabled)),
        tells(waiting@, levels),
        forall|i: int|
            0 <= i < levels.len() ==> level_placed(
                plan(*ir_arena, csv_slice_disabled),
                #[trigger] levels[i],
            ),
    ensures
        ({
            let p = plan(*ir_arena, csv_slice_disabled);
            let exprs = expr_items(*expr_arena);
            let whole = rest_outlook(
                p,
                exprs,
                levels,
                spot.outlook(p, exprs, cache_nodes@.dom()),
            );
            visits == (if whole is Stuck || whole.visits() > limit {
                None
            } else {
                Some(whole.visits() as usize)
            })
        }),
{
    let ghost p = plan(*ir_arena, csv_slice_disabled);
    let ghost exprs = expr_items(*expr_arena);
    let ghost whole = rest_outlook(p, exprs, levels, spot.outlook(p, exprs, cache_nodes@.dom()));
    let mut here = spot;
    let mut stack = waiting;
    let mut added: Vec<usize> = Vec::new();
    let mut visits: usize = 0;
    let ghost mut frames = levels;
    let ghost mut cached = cache_nodes@.dom();
    assert(whole.after(0) == whole);
    loop
        invariant
            p == plan(*ir_arena, csv_slice_disabled),
            exprs == expr_items(*expr_arena),
            whole == rest_outlook(p, exprs, frames, here.outlook(p, exprs, cached)).after(
                visits as nat,
            ),
            whole == rest_outlook(p, exprs, levels, spot.outlook(p, exprs, cache_nodes@.dom())),
            visits <= limit,
            here.placed(p),
            tells(stack@, frames),
            forall|i: int|
                0 <= i < frames.len() ==> bounded(
                    p,
                    (#[trigger] frames[i]).node,
                    frames[i].depth,
                ) && frames[i].keys.len() < inputs(p.nodes[frames[i].node as int].ir).len(),
            forall|id: usize| #[trigger]
                cached.contains(id) <==> cache_nodes@.contains_key(id) || added@.contains(id),
        decreases limit - visits, here.rank(stack@.len()),
    {
        let ghost cached0 = cached;
        let ghost frames0 = frames;
        proof {
            lemma_rest_stuck(p, exprs, frames0);
            lemma_rest_fails(p, exprs, frames0);
        }
        match here {
            Spot::At(node, depth) => {
                let n = get_ir(ir_arena, node);
                let ghost below = inputs_outlook(p, exprs, node, depth@, 0, cached);
                let ghost hit = Outlook::Lowers { visits: 0, cached };
                proof {
                    lemma_rest_after(p, exprs, frames0, below, 1);
                    lemma_rest_after(p, exprs, frames0, hit, 1);
                }
                if !can_start(n, csv_slice_disabled) {
                    return None;
                }
                let mut inside = true;
                match &n.ir {
                    IR::GroupBy { keys, aggs, .. } => {
                        if keys.len() == 0 {
                            return if visits < limit {
                                Some(visits + 1)
                            } else {
                                None
                            };
                        }
                        if !can_aggregate(aggs, 0, expr_arena) {
                            return None;
                        }
                    },
                    IR::Cache { id, .. } => {
                        if cache_nodes.get(*id).is_some() || contains(&added, *id) {
                            inside = false;
                        }
                    },
                    _ => {},
                }
                if visits == limit {
                    return None;
                }
                visits = visits + 1;
                here = if inside {
                    Spot::Inputs(node, depth, 0)
                } else {
                    Spot::Behind
                };
            },
            Spot::Inputs(node, depth, at) => {
                let ir = &get_ir(ir_arena, node).ir;
                match ir.input(at) {
                    Some(input) => {
                        proof {
                            let key: PhysNodeKey = vstd::pervasive::arbitrary();
                            let level = LevelView {
                                node,
                                depth: depth@,
                                prep: PrepView::Plain,
                                keys: Seq::new(at as nat, |i: int| key),
                            };
                            frames = frames0.push(level);
                            assert(frames.drop_last() == frames0);
                        }
                        stack.push((node, at));
                        here = Spot::At(input, Ghost((depth@ - 1) as nat));
                    },
                    None => {
                        if !can_end(ir) {
                            return None;
                        }
                        if let IR::Cache { id, .. } = ir {
                            let ghost before = added@;
                            added.push(*id);
                            proof {
                                cached = cached0.insert(*id);
                                assert forall|other: usize| #[trigger] cached.contains(other) <==> (
                                cache_nodes@.contains_key(other) || added@.contains(other)) by {
                                    lemma_push_contains(before, *id, other);
                                    assert(cached0.contains(other) <==> cache_nodes@.contains_key(
                                        other,
                                    ) || before.contains(other));
                                }
                            }
                        }
                        here = Spot::Behind;
                    },
                }
            },
            Spot::Behind => match stack.pop() {
                Some((node, at)) => {
                    let ghost level = frames0.last();
                    proof {
                        frames = frames0.drop_last();
                        let next = inputs_outlook(
                            p,
                            exprs,
                            level.node,
                            level.depth,
                            level.keys.len() + 1,
                            cached,
                        );
                        assert(next.after(0) == next);
                    }
                    let count = get_ir(ir_arena, node).ir.count_inputs();
                    assert(at < count);
                    here = Spot::Inputs(node, Ghost(level.depth), at + 1);
                },
                None => {
                    return Some(visits);
                },
            },
        }
    }
}

/// What a list holds once something has been put behind it.
proof fn lemma_push_contains(list: Seq<usize>, id: usize, other: usize)
    ensures
        list.push(id).contains(other) <==> list.contains(other) || other == id,
{
    let more = list.push(id);
    if list.contains(other) {
        let i = choose|i: int| 0 <= i < list.len() && list[i] == other;
        assert(more[i] == other);
    }
    if other == id {
        assert(more[list.len() as int] == other);
    }
    if more.contains(other) {
        let i = choose|i: int| 0 <= i < more.len() && more[i] == other;
        if i < list.len() {
            assert(list[i] == other);
        }
    }
}

} // verus!
