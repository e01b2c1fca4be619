//! How far the lowering of a plan has come: what it does next, what it waits for, and what it
//! comes back to afterwards.

use crate::ir::{AExpr, ExprIR, Node};
use crate::model::{after_filter, after_group, after_left, after_right, after_select, from_node,
    lower, lower_inputs, tests_group, tests_stack, Input, LowerError, Plan, PrepView, ReplyView,
    RequestView, Run, World};
use crate::phys::{PhysNodeKey, PhysNodes};
use crate::protocol::Request;
use crate::schema::schema_fields;
use crate::store::{expr_items, CacheNodes};
use polars_utils::arena::Arena;
use vstd::prelude::*;

verus! {

/// The world that the collections make up.
pub open spec fn world(
    expr_arena: Arena<AExpr>,
    phys_sm: PhysNodes,
    cache_nodes: CacheNodes,
) -> World {
    World { exprs: expr_items(expr_arena), phys: phys_sm@, cache: cache_nodes@ }
}

/// What is found out about a node before its inputs are lowered.
#[derive(Debug)]
pub enum Prep {
    Plain,
    Elementwise(bool),
    Group(Vec<ExprIR>),
}

impl View for Prep {
    type V = PrepView;

    open spec fn view(&self) -> PrepView {
        match *self {
            Prep::Plain => PrepView::Plain,
            Prep::Elementwise(elementwise) => PrepView::Elementwise(elementwise),
            Prep::Group(needed) => PrepView::Group(needed@),
        }
    }
}

/// A node that waits for the next of its inputs.
pub struct Level {
    pub node: Node,
    pub prep: Prep,
    /// The inputs that are lowered.
    pub keys: Vec<PhysNodeKey>,
    pub depth: Ghost<nat>,
}

/// A node that waits for the next of its inputs.
pub ghost struct LevelView {
    pub node: Node,
    pub depth: nat,
    pub prep: PrepView,
    pub keys: Seq<PhysNodeKey>,
}

impl View for Level {
    type V = LevelView;

    open spec fn view(&self) -> LevelView {
        LevelView {
            node: self.node,
            depth: self.depth@,
            prep: self.prep@,
            keys: self.keys@,
        }
    }
}

/// What an answer of the service is wanted for.
pub enum Pending {
    /// To learn whether an expression of an `HStack` is elementwise.
    StackTest { node: Node, at: usize, depth: Ghost<nat> },
    /// To learn whether what an aggregation reads is elementwise.
    GroupTest { node: Node, at: usize, needed: Vec<ExprIR>, input: Node, depth: Ghost<nat> },
    /// To filter by the last of the lowered expressions.
    Filter,
    /// To return the node that selects.
    Select,
    /// To group by the lowered keys.
    GroupExprs { node: Node },
    /// To join by the lowered keys of the left side.
    JoinLeft { node: Node, right: PhysNodeKey, right_exprs: Vec<ExprIR> },
    /// To join by the lowered keys of the right side.
    JoinRight { node: Node, left: PhysNodeKey, left_on: Vec<ExprIR> },
}

/// What an answer of the service is wanted for.
pub ghost enum PendingView {
    StackTest { node: Node, depth: nat, at: nat },
    GroupTest { node: Node, depth: nat, at: nat, needed: Seq<ExprIR>, input: Node },
    Filter,
    Select,
    GroupExprs { node: Node },
    JoinLeft { node: Node, right: PhysNodeKey, right_exprs: Seq<ExprIR> },
    JoinRight { node: Node, left: PhysNodeKey, left_on: Seq<ExprIR> },
}

impl View for Pending {
    type V = PendingView;

    open spec fn view(&self) -> PendingView {
        match *self {
            Pending::StackTest { node, at, depth } => PendingView::StackTest {
                node,
                depth: depth@,
                at: at as nat,
            },
            Pending::GroupTest { node, at, needed, input, depth } => PendingView::GroupTest {
                node,
                depth: depth@,
                at: at as nat,
                needed: needed@,
                input,
            },
            Pending::Filter => PendingView::Filter,
            Pending::Select => PendingView::Select,
            Pending::GroupExprs { node } => PendingView::GroupExprs { node },
            Pending::JoinLeft { node, right, right_exprs } => PendingView::JoinLeft {
                node,
                right,
                right_exprs: right_exprs@,
            },
            Pending::JoinRight { node, left, left_on } => PendingView::JoinRight {
                node,
                left,
                left_on: left_on@,
            },
        }
    }
}

/// What comes next.
pub enum Step {
    /// Lower a node.
    Visit { node: Node, depth: Ghost<nat> },
    /// A node is lowered.
    Return(PhysNodeKey),
    /// The plan is not lowered.
    Fail(LowerError),
    /// Ask the service.
    Ask(Request, Pending),
}

/// What comes next.
pub ghost enum StepView {
    Visit { node: Node, depth: nat },
    Return(PhysNodeKey),
    Fail(LowerError),
    Ask(RequestView, PendingView),
}

impl View for Step {
    type V = StepView;

    open spec fn view(&self) -> StepView {
        match *self {
            Step::Visit { node, depth } => StepView::Visit { node, depth: depth@ },
            Step::Return(key) => StepView::Return(key),
            Step::Fail(error) => StepView::Fail(error),
            Step::Ask(request, pending) => StepView::Ask(request@, pending@),
        }
    }
}

/// The rest of a run once the service has answered.
pub open spec fn resumes(
    p: Plan,
    pending: PendingView,
    reply: ReplyView,
    w: World,
    t: Seq<Input>,
    i: nat,
) -> Run {
    match pending {
        PendingView::StackTest { node, depth, at } => match reply {
            ReplyView::Elementwise(elementwise) => if elementwise {
                tests_stack(p, node, depth, at + 1, w, t, i)
            } else {
                lower_inputs(p, node, depth, PrepView::Elementwise(false), seq![], w, t, i)
            },
            _ => Run::Stuck,
        },
        PendingView::GroupTest { node, depth, at, needed, input } => match reply {
            ReplyView::Elementwise(true) => tests_group(
                p,
                node,
                depth,
                at + 1,
                needed.push(from_node(input, w.exprs)),
                w,
                t,
                i,
            ),
            _ => Run::Stuck,
        },
        PendingView::Filter => after_filter(reply, w, t, i),
        PendingView::Select => after_select(reply, w, i),
        PendingView::GroupExprs { node } => after_group(
            schema_fields(*p.nodes[node as int].schema),
            p.nodes[node as int].ir->GroupBy_keys@,
            p.nodes[node as int].ir->GroupBy_aggs@,
            p.nodes[node as int].ir->GroupBy_options.slice,
            reply,
            w,
            t,
            i,
        ),
        PendingView::JoinLeft { node, right, right_exprs } => after_left(
            schema_fields(*p.nodes[node as int].schema),
            p.nodes[node as int].ir->Join_args,
            p.nodes[node as int].ir->Join_left_on@.len(),
            p.nodes[node as int].ir->Join_right_on@.len(),
            right,
            right_exprs,
            reply,
            w,
            t,
            i,
        ),
        PendingView::JoinRight { node, left, left_on } => after_right(
            schema_fields(*p.nodes[node as int].schema),
            p.nodes[node as int].ir->Join_args,
            left,
            left_on,
            p.nodes[node as int].ir->Join_right_on@.len(),
            reply,
            w,
            t,
            i,
        ),
    }
}

/// The rest of a run from a step on, as far as the node goes that the step belongs to.
pub open spec fn continues(p: Plan, step: StepView, w: World, t: Seq<Input>, i: nat) -> Run {
    match step {
        StepView::Visit { node, depth } => lower(p, node, depth, w, t, i),
        StepView::Return(key) => Run::Returns { result: Ok(key), world: w, next: i },
        StepView::Fail(error) => Run::Returns { result: Err(error), world: w, next: i },
        StepView::Ask(request, pending) => if i >= t.len() {
            Run::Asks { request, world: w }
        } else {
            match t[i as int] {
                Input::Answer(reply, after) => resumes(p, pending, reply, after, t, i + 1),
                Input::Key(_) => Run::Stuck,
            }
        },
    }
}

/// A run that goes on, once it has returned, with the nodes that wait for it, the last one first.
pub open spec fn unwinds(p: Plan, levels: Seq<LevelView>, run: Run, t: Seq<Input>) -> Run
    decreases levels.len(),
{
    if levels.len() == 0 {
        run
    } else {
        match run {
            Run::Returns { result: Ok(key), world, next } => {
                let level = levels.last();
                unwinds(
                    p,
                    levels.drop_last(),
                    lower_inputs(
                        p,
                        level.node,
                        level.depth,
                        level.prep,
                        level.keys.push(key),
                        world,
                        t,
                        next,
                    ),
                    t,
                )
            },
            other => other,
        }
    }
}

/// Whether a sequence of inputs starts with the given ones.
pub open spec fn starts(t: Seq<Input>, first: Seq<Input>) -> bool {
    first.len() <= t.len() && forall|j: int| 0 <= j < first.len() ==> #[trigger] t[j] == first[j]
}

/// Whether a sequence of inputs is another one with keys of new nodes behind it.
pub open spec fn keyed(after: Seq<Input>, before: Seq<Input>) -> bool {
    &&& starts(after, before)
    &&& forall|j: int| before.len() <= j < after.len() ==> #[trigger] after[j] is Key
}

} // verus!
