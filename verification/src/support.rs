//! Which plans can be lowered, and how much work they are.

use crate::ir::{inputs, AExpr, ExprIR, IRNode, Node, Scan, SinkType, IR};
use crate::model::{agg_input, row_index_node, rewrites_all, Plan};
use crate::schema::schema_fields;
use vstd::prelude::*;

verus! {

/// Whether a slice can be made: its offset counts from the first row.
pub open spec fn slice_supported(slice: Option<(i64, usize)>) -> bool {
    slice matches Some((offset, _)) ==> offset >= 0
}

/// Whether all of some expressions have a name.
pub open spec fn named(exprs: Seq<ExprIR>) -> bool {
    forall|i: int| 0 <= i < exprs.len() ==> (#[trigger] exprs[i]).output_name.name() is Some
}

/// Whether an expression is an aggregation that a grouping can stream, or a count of rows.
pub open spec fn agg_supported(expr: ExprIR, exprs: Seq<AExpr>) -> bool {
    &&& expr.node < exprs.len()
    &&& {
        ||| exprs[expr.node as int].kind is Len
        ||| agg_input(exprs[expr.node as int]) matches Some(input) && input < exprs.len()
    }
}

/// Whether all of some expressions from the `at`-th on are aggregations that can be streamed, or
/// counts of rows.
pub open spec fn aggs_supported(aggs: Seq<ExprIR>, at: nat, exprs: Seq<AExpr>) -> bool {
    forall|i: int| at <= i < aggs.len() ==> agg_supported(#[trigger] aggs[i], exprs)
}

/// Whether a scan of at least one file can be lowered.
pub open spec fn scan_supported(node: IRNode, scan: Scan, csv_slice_disabled: bool) -> bool {
    &&& !(scan.scan_type is Other)
    &&& scan.scan_type is Ipc ==> {
        &&& scan.hive_parts is None
        &&& !scan.sources.cloud_url
        &&& !scan.file_options.allow_missing_columns
        &&& slice_supported(scan.file_options.slice)
    }
    &&& rewrites_all(scan.scan_type, csv_slice_disabled) ==> slice_supported(
        scan.file_options.slice,
    )
    &&& row_index_node(scan, csv_slice_disabled) matches Some(row_index) ==> {
        &&& schema_fields(*node.schema).len() > 0
        &&& schema_fields(*node.schema)[0].0@ == row_index.name@
    }
}

/// Whether the lowering of a node can be started, as far as its own operation goes.
pub open spec fn starts_well(node: IRNode, csv_slice_disabled: bool) -> bool {
    match node.ir {
        IR::Sink { payload, .. } => {
            payload matches SinkType::File { file_type, .. } ==> file_type is Ipc
        },
        IR::MapFunction { function, .. } => !(function is MergeSorted),
        IR::Scan { scan } => {
            scan.sources.count == 0 || scan_supported(node, scan, csv_slice_disabled)
        },
        IR::GroupBy { apply, maintain_order, options, .. } => {
            !apply && !maintain_order && !options.dynamic && !options.rolling
        },
        IR::PythonScan { .. } => false,
        IR::Distinct { .. } => false,
        IR::ExtContext { .. } => false,
        IR::Invalid => false,
        _ => true,
    }
}

/// Whether the lowering of a node can be ended once its inputs are lowered.
pub open spec fn ends_well(ir: IR) -> bool {
    match ir {
        IR::Slice { offset, .. } => offset >= 0,
        IR::Union { slice, .. } => slice_supported(slice),
        _ => true,
    }
}

/// Whether a node and all that it reads are nodes of the plan, in chains no longer than `depth`. No
/// node of such a plan reads itself.
pub open spec fn bounded(p: Plan, node: Node, depth: nat) -> bool
    decreases depth,
{
    &&& depth > 0
    &&& node < p.nodes.len()
    &&& forall|i: int|
        0 <= i < inputs(p.nodes[node as int].ir).len() ==> bounded(
            p,
            #[trigger] inputs(p.nodes[node as int].ir)[i],
            (depth - 1) as nat,
        )
}

/// What can be said of the lowering of a plan before it is done, as long as the service does not
/// fail.
pub ghost enum Outlook {
    /// It succeeds after this many visits of nodes, and these parts are lowered then.
    Lowers { visits: nat, cached: Set<usize> },
    /// It fails after this many visits of nodes.
    Fails { visits: nat },
    /// It comes to an operation that is not supported.
    Stuck,
}

impl Outlook {
    /// The same with more visits before it.
    pub open spec fn after(self, more: nat) -> Outlook {
        match self {
            Outlook::Lowers { visits, cached } => Outlook::Lowers { visits: more + visits, cached },
            Outlook::Fails { visits } => Outlook::Fails { visits: more + visits },
            Outlook::Stuck => Outlook::Stuck,
        }
    }

    /// How many nodes are visited.
    pub open spec fn visits(self) -> nat {
        match self {
            Outlook::Lowers { visits, .. } => visits,
            Outlook::Fails { visits } => visits,
            Outlook::Stuck => 0,
        }
    }
}

/// The outlook for a node whose inputs are lowered up to the `at`-th.
pub open spec fn inputs_outlook(
    p: Plan,
    exprs: Seq<AExpr>,
    node: Node,
    depth: nat,
    at: nat,
    cached: Set<usize>,
) -> Outlook
    decreases depth, 0nat, inputs(p.nodes[node as int].ir).len() - at,
{
    let ir = p.nodes[node as int].ir;
    if at >= inputs(ir).len() {
        if ends_well(ir) {
            Outlook::Lowers {
                visits: 0,
                cached: match ir {
                    IR::Cache { id, .. } => cached.insert(id),
                    _ => cached,
                },
            }
        } else {
            Outlook::Stuck
        }
    } else if depth == 0 {
        Outlook::Stuck
    } else {
        match outlook(p, exprs, inputs(ir)[at as int], (depth - 1) as nat, cached) {
            Outlook::Lowers { visits, cached } => inputs_outlook(
                p,
                exprs,
                node,
                depth,
                at + 1,
                cached,
            ).after(visits),
            other => other,
        }
    }
}

/// The outlook for a node that reads chains no longer than `depth`, when these parts of the plan
/// are lowered already.
pub open spec fn outlook(
    p: Plan,
    exprs: Seq<AExpr>,
    node: Node,
    depth: nat,
    cached: Set<usize>,
) -> Outlook
    decreases depth, 1nat, 0int,
{
    if node >= p.nodes.len() || depth == 0 || !starts_well(
        p.nodes[node as int],
        p.csv_slice_disabled,
    ) {
        Outlook::Stuck
    } else {
        match p.nodes[node as int].ir {
            IR::GroupBy { keys, aggs, .. } => if keys@.len() == 0 {
                Outlook::Fails { visits: 1 }
            } else if aggs_supported(aggs@, 0, exprs) {
                inputs_outlook(p, exprs, node, depth, 0, cached).after(1)
            } else {
                Outlook::Stuck
            },
            IR::Cache { id, .. } => if cached.contains(id) {
                Outlook::Lowers { visits: 1, cached }
            } else {
                inputs_outlook(p, exprs, node, depth, 0, cached).after(1)
            },
            _ => inputs_outlook(p, exprs, node, depth, 0, cached).after(1),
        }
    }
}

/// Whether one list of expressions starts with another.
pub open spec fn extends(more: Seq<AExpr>, exprs: Seq<AExpr>) -> bool {
    &&& exprs.len() <= more.len()
    &&& forall|i: int| 0 <= i < exprs.len() ==> #[trigger] more[i] == exprs[i]
}

/// New expressions behind the others leave the outlook as it is.
pub proof fn lemma_inputs_outlook_extends(
    p: Plan,
    exprs: Seq<AExpr>,
    more: Seq<AExpr>,
    node: Node,
    depth: nat,
    at: nat,
    cached: Set<usize>,
)
    requires
        extends(more, exprs),
        !(inputs_outlook(p, exprs, node, depth, at, cached) is Stuck),
    ensures
        inputs_outlook(p, more, node, depth, at, cached) == inputs_outlook(
            p,
            exprs,
            node,
            depth,
            at,
            cached,
        ),
    decreases depth, 0nat, inputs(p.nodes[node as int].ir).len() - at,
{
    let ir = p.nodes[node as int].ir;
    if at < inputs(ir).len() {
        let input = inputs(ir)[at as int];
        lemma_outlook_extends(p, exprs, more, input, (depth - 1) as nat, cached);
        if let Outlook::Lowers { cached, .. } = outlook(
            p,
            exprs,
            input,
            (depth - 1) as nat,
            cached,
        ) {
            lemma_inputs_outlook_extends(p, exprs, more, node, depth, at + 1, cached);
        }
    }
}

/// New expressions behind the others leave the outlook as it is.
pub proof fn lemma_outlook_extends(
    p: Plan,
    exprs: Seq<AExpr>,
    more: Seq<AExpr>,
    node: Node,
    depth: nat,
    cached: Set<usize>,
)
    requires
        extends(more, exprs),
        !(outlook(p, exprs, node, depth, cached) is Stuck),
    ensures
        outlook(p, more, node, depth, cached) == outlook(p, exprs, node, depth, cached),
    decreases depth, 1nat, 0int,
{
    match p.nodes[node as int].ir {
        IR::GroupBy { keys, aggs, .. } => if keys@.len() > 0 {
            assert(aggs_supported(aggs@, 0, more));
            lemma_inputs_outlook_extends(p, exprs, more, node, depth, 0, cached);
        },
        IR::Cache { id, .. } => if !cached.contains(id) {
            lemma_inputs_outlook_extends(p, exprs, more, node, depth, 0, cached);
        },
        _ => {
            lemma_inputs_outlook_extends(p, exprs, more, node, depth, 0, cached);
        },
    }
}

/// The outlook is the same for all bounds on the plan.
pub proof fn lemma_inputs_outlook_depth(
    p: Plan,
    exprs: Seq<AExpr>,
    node: Node,
    depth: nat,
    other: nat,
    at: nat,
    cached: Set<usize>,
)
    requires
        bounded(p, node, depth),
        bounded(p, node, other),
    ensures
        inputs_outlook(p, exprs, node, depth, at, cached) == inputs_outlook(
            p,
            exprs,
            node,
            other,
            at,
            cached,
        ),
    decreases depth, 0nat, inputs(p.nodes[node as int].ir).len() - at,
{
    let ir = p.nodes[node as int].ir;
    if at < inputs(ir).len() {
        let input = inputs(ir)[at as int];
        lemma_outlook_depth(p, exprs, input, (depth - 1) as nat, (other - 1) as nat, cached);
        if let Outlook::Lowers { cached, .. } = outlook(
            p,
            exprs,
            input,
            (depth - 1) as nat,
            cached,
        ) {
            lemma_inputs_outlook_depth(p, exprs, node, depth, other, at + 1, cached);
        }
    }
}

/// The outlook is the same for all bounds on the plan.
pub proof fn lemma_outlook_depth(
    p: Plan,
    exprs: Seq<AExpr>,
    node: Node,
    depth: nat,
    other: nat,
    cached: Set<usize>,
)
    requires
        bounded(p, node, depth),
        bounded(p, node, other),
    ensures
        outlook(p, exprs, node, depth, cached) == outlook(p, exprs, node, other, cached),
    decreases depth, 1nat, 0int,
{
    lemma_inputs_outlook_depth(p, exprs, node, depth, other, 0, cached);
}

} // verus!
