//! What holds of every lowering.

use crate::ir::{inputs, ExprIR, Node, Scan, IR};
use crate::model::{agg_input, finish, from_node, lower, lower_inputs, predicate_node, streams,
    tests_group, tests_stack, Input, LowerError, Plan, PrepView, ReplyView, Run, World};
use crate::phys::PhysNodeKey;
use crate::step::{resumes, PendingView};
use crate::support::{bounded, inputs_outlook, outlook, Outlook};
use vstd::prelude::*;

verus! {

/// The run of a node is the same for all bounds on what it reads.
pub proof fn bounds_do_not_matter(
    p: Plan,
    node: Node,
    depth: nat,
    other: nat,
    w: World,
    t: Seq<Input>,
    i: nat,
)
    requires
        bounded(p, node, depth),
        bounded(p, node, other),
    ensures
        lower(p, node, depth, w, t, i) == lower(p, node, other, w, t, i),
    decreases depth, 3nat, 0int,
{
    match p.nodes[node as int].ir {
        IR::HStack { .. } => {
            lemma_stack_bounds(p, node, depth, other, 0, w, t, i);
        },
        IR::GroupBy { keys, .. } => {
            lemma_group_bounds(p, node, depth, other, 0, keys@, w, t, i);
        },
        _ => {
            lemma_inputs_bounds(p, node, depth, other, PrepView::Plain, seq![], w, t, i);
        },
    }
}

proof fn lemma_inputs_bounds(
    p: Plan,
    node: Node,
    depth: nat,
    other: nat,
    prep: PrepView,
    keys: Seq<PhysNodeKey>,
    w: World,
    t: Seq<Input>,
    i: nat,
)
    requires
        bounded(p, node, depth),
        bounded(p, node, other),
    ensures
        lower_inputs(p, node, depth, prep, keys, w, t, i) == lower_inputs(
            p,
            node,
            other,
            prep,
            keys,
            w,
            t,
            i,
        ),
    decreases depth, 1nat, inputs(p.nodes[node as int].ir).len() - keys.len(),
{
    let all = inputs(p.nodes[node as int].ir);
    if keys.len() < all.len() {
        let input = all[keys.len() as int];
        bounds_do_not_matter(p, input, (depth - 1) as nat, (other - 1) as nat, w, t, i);
        if let Run::Returns { result: Ok(key), world, next } = lower(
            p,
            input,
            (depth - 1) as nat,
            w,
            t,
            i,
        ) {
            lemma_inputs_bounds(p, node, depth, other, prep, keys.push(key), world, t, next);
        }
    }
}

proof fn lemma_stack_bounds(
    p: Plan,
    node: Node,
    depth: nat,
    other: nat,
    at: nat,
    w: World,
    t: Seq<Input>,
    i: nat,
)
    requires
        bounded(p, node, depth),
        bounded(p, node, other),
    ensures
        tests_stack(p, node, depth, at, w, t, i) == tests_stack(p, node, other, at, w, t, i),
    decreases depth, 2nat, p.nodes[node as int].ir->HStack_exprs@.len() - at,
{
    lemma_inputs_bounds(p, node, depth, other, PrepView::Elementwise(true), seq![], w, t, i);
    if at < p.nodes[node as int].ir->HStack_exprs@.len() && i < t.len() {
        if let Input::Answer(ReplyView::Elementwise(elementwise), after) = t[i as int] {
            if elementwise {
                lemma_stack_bounds(p, node, depth, other, at + 1, after, t, i + 1);
            } else {
                let prep = PrepView::Elementwise(false);
                lemma_inputs_bounds(p, node, depth, other, prep, seq![], after, t, i + 1);
            }
        }
    }
}

proof fn lemma_group_bounds(
    p: Plan,
    node: Node,
    depth: nat,
    other: nat,
    at: nat,
    needed: Seq<ExprIR>,
    w: World,
    t: Seq<Input>,
    i: nat,
)
    requires
        bounded(p, node, depth),
        bounded(p, node, other),
    ensures
        tests_group(p, node, depth, at, needed, w, t, i) == tests_group(
            p,
            node,
            other,
            at,
            needed,
            w,
            t,
            i,
        ),
    decreases depth, 2nat, p.nodes[node as int].ir->GroupBy_aggs@.len() - at,
{
    lemma_inputs_bounds(p, node, depth, other, PrepView::Group(needed), seq![], w, t, i);
    let keys = p.nodes[node as int].ir->GroupBy_keys@;
    let aggs = p.nodes[node as int].ir->GroupBy_aggs@;
    if at < aggs.len() {
        let expr = w.exprs[aggs[at as int].node as int];
        lemma_group_bounds(p, node, depth, other, at + 1, needed.push(keys[0]), w, t, i);
        if let Some(input) = agg_input(expr) {
            if i < t.len() {
                if let Input::Answer(_, after) = t[i as int] {
                    let more = needed.push(from_node(input, after.exprs));
                    lemma_group_bounds(p, node, depth, other, at + 1, more, after, t, i + 1);
                }
            }
        }
    }
}

/// A part of a plan that is to be computed once is lowered once. Whichever node stands for it later
/// is lowered to the same key, without any change and without any question.
pub proof fn cached_parts_are_lowered_once(
    p: Plan,
    node: Node,
    again: Node,
    depth: nat,
    other: nat,
    w: World,
    t: Seq<Input>,
    i: nat,
)
    requires
        node < p.nodes.len(),
        again < p.nodes.len(),
        p.nodes[node as int].ir matches IR::Cache { id, .. } && p.nodes[again as int].ir matches
            IR::Cache { id: same, .. } && id == same,
        other > 0,
    ensures
        lower(p, node, depth, w, t, i) matches Run::Returns { result: Ok(key), world, next }
            ==> lower(p, again, other, world, t, next) == (Run::Returns {
            result: Ok(key),
            world,
            next,
        }),
{
    let id = p.nodes[node as int].ir->Cache_id;
    if depth > 0 && !w.cache.contains_key(id) {
        let all = inputs(p.nodes[node as int].ir);
        assert(all.len() == 1);
        if let Run::Returns { result: Ok(key), world, next } = lower(
            p,
            all[0],
            (depth - 1) as nat,
            w,
            t,
            i,
        ) {
            let empty = Seq::<PhysNodeKey>::empty();
            assert(lower_inputs(p, node, depth, PrepView::Plain, empty, w, t, i) == lower_inputs(
                p,
                node,
                depth,
                PrepView::Plain,
                empty.push(key),
                world,
                t,
                next,
            ));
        }
    }
}

/// A grouping without keys is refused before anything is done.
pub proof fn groupings_need_keys(
    p: Plan,
    node: Node,
    depth: nat,
    w: World,
    t: Seq<Input>,
    i: nat,
)
    requires
        bounded(p, node, depth),
        p.nodes[node as int].ir matches IR::GroupBy { keys, .. } && keys@.len() == 0,
    ensures
        lower(p, node, depth, w, t, i) == (Run::Returns {
            result: Err(LowerError::NoGroupByKeys),
            world: w,
            next: i,
        }),
{
}

/// When an input cannot be lowered, the node is not lowered either, for the same reason, and
/// nothing more is done.
pub proof fn failures_pass_up(
    p: Plan,
    node: Node,
    depth: nat,
    prep: PrepView,
    keys: Seq<PhysNodeKey>,
    w: World,
    t: Seq<Input>,
    i: nat,
)
    requires
        depth > 0,
        keys.len() < inputs(p.nodes[node as int].ir).len(),
        lower(p, inputs(p.nodes[node as int].ir)[keys.len() as int], (depth - 1) as nat, w, t, i)
            matches Run::Returns { result: Err(_), .. },
    ensures
        lower_inputs(p, node, depth, prep, keys, w, t, i) == lower(
            p,
            inputs(p.nodes[node as int].ir)[keys.len() as int],
            (depth - 1) as nat,
            w,
            t,
            i,
        ),
{
}

/// When the service fails to lower expressions, the plan is not lowered, with the error of the
/// service, and nothing more is done.
pub proof fn service_failures_end_it(
    p: Plan,
    pending: PendingView,
    error: polars_error::PolarsError,
    w: World,
    t: Seq<Input>,
    i: nat,
)
    requires
        !(pending is StackTest),
        !(pending is GroupTest),
    ensures
        resumes(p, pending, ReplyView::Failed(error), w, t, i) == (Run::Returns {
            result: Err(LowerError::Polars(error)),
            world: w,
            next: i,
        }),
{
}

/// Whether a run that failed did so for a known cause: a grouping without keys, or a failure of the
/// service in the last input that was used.
pub open spec fn has_cause(run: Run, t: Seq<Input>) -> bool {
    run matches Run::Returns { result: Err(error), world, next } ==> match error {
        LowerError::NoGroupByKeys => true,
        LowerError::Polars(cause) => 0 < next <= t.len() && t[next - 1] == Input::Answer(
            ReplyView::Failed(cause),
            world,
        ),
    }
}

/// A plan is not lowered only when a grouping names no key or when the service fails. The service's
/// own error is then handed on, in the world as the service left it.
pub proof fn failures_have_causes(
    p: Plan,
    node: Node,
    depth: nat,
    w: World,
    t: Seq<Input>,
    i: nat,
)
    ensures
        has_cause(lower(p, node, depth, w, t, i), t),
    decreases depth, 3nat, 0int,
{
    if node < p.nodes.len() && depth > 0 {
        match p.nodes[node as int].ir {
            IR::HStack { .. } => {
                lemma_stack_cause(p, node, depth, 0, w, t, i);
            },
            IR::GroupBy { keys, .. } => {
                lemma_group_cause(p, node, depth, 0, keys@, w, t, i);
            },
            _ => {
                lemma_inputs_cause(p, node, depth, PrepView::Plain, seq![], w, t, i);
            },
        }
    }
}

proof fn lemma_inputs_cause(
    p: Plan,
    node: Node,
    depth: nat,
    prep: PrepView,
    keys: Seq<PhysNodeKey>,
    w: World,
    t: Seq<Input>,
    i: nat,
)
    ensures
        has_cause(lower_inputs(p, node, depth, prep, keys, w, t, i), t),
    decreases depth, 1nat, inputs(p.nodes[node as int].ir).len() - keys.len(),
{
    let all = inputs(p.nodes[node as int].ir);
    if keys.len() >= all.len() {
        lemma_finish_cause(p, node, prep, keys, w, t, i);
    } else if depth > 0 {
        failures_have_causes(p, all[keys.len() as int], (depth - 1) as nat, w, t, i);
        if let Run::Returns { result: Ok(key), world, next } = lower(
            p,
            all[keys.len() as int],
            (depth - 1) as nat,
            w,
            t,
            i,
        ) {
            lemma_inputs_cause(p, node, depth, prep, keys.push(key), world, t, next);
        }
    }
}

proof fn lemma_finish_cause(
    p: Plan,
    node: Node,
    prep: PrepView,
    keys: Seq<PhysNodeKey>,
    w: World,
    t: Seq<Input>,
    i: nat,
)
    ensures
        has_cause(finish(p, node, prep, keys, w, t, i), t),
{
}

proof fn lemma_stack_cause(
    p: Plan,
    node: Node,
    depth: nat,
    at: nat,
    w: World,
    t: Seq<Input>,
    i: nat,
)
    ensures
        has_cause(tests_stack(p, node, depth, at, w, t, i), t),
    decreases depth, 2nat, p.nodes[node as int].ir->HStack_exprs@.len() - at,
{
    lemma_inputs_cause(p, node, depth, PrepView::Elementwise(true), seq![], w, t, i);
    if at < p.nodes[node as int].ir->HStack_exprs@.len() && i < t.len() {
        if let Input::Answer(ReplyView::Elementwise(elementwise), after) = t[i as int] {
            if elementwise {
                lemma_stack_cause(p, node, depth, at + 1, after, t, i + 1);
            } else {
                let prep = PrepView::Elementwise(false);
                lemma_inputs_cause(p, node, depth, prep, seq![], after, t, i + 1);
            }
        }
    }
}

proof fn lemma_group_cause(
    p: Plan,
    node: Node,
    depth: nat,
    at: nat,
    needed: Seq<ExprIR>,
    w: World,
    t: Seq<Input>,
    i: nat,
)
    ensures
        has_cause(tests_group(p, node, depth, at, needed, w, t, i), t),
    decreases depth, 2nat, p.nodes[node as int].ir->GroupBy_aggs@.len() - at,
{
    lemma_inputs_cause(p, node, depth, PrepView::Group(needed), seq![], w, t, i);
    let keys = p.nodes[node as int].ir->GroupBy_keys@;
    let aggs = p.nodes[node as int].ir->GroupBy_aggs@;
    if at < aggs.len() {
        let expr = w.exprs[aggs[at as int].node as int];
        lemma_group_cause(p, node, depth, at + 1, needed.push(keys[0]), w, t, i);
        if let Some(input) = agg_input(expr) {
            if i < t.len() {
                if let Input::Answer(_, after) = t[i as int] {
                    let more = needed.push(from_node(input, after.exprs));
                    lemma_group_cause(p, node, depth, at + 1, more, after, t, i + 1);
                }
            }
        }
    }
}

/// Whether two sequences of inputs agree in their first `count`.
pub open spec fn agree(t: Seq<Input>, u: Seq<Input>, count: nat) -> bool {
    &&& count <= t.len()
    &&& count <= u.len()
    &&& forall|j: int| 0 <= j < count ==> #[trigger] t[j] == u[j]
}

/// Whether a run that returned is the same with other inputs that agree in those that it used.
pub open spec fn settled(run: Run, other: Run, i: nat, t: Seq<Input>, u: Seq<Input>) -> bool {
    run matches Run::Returns { next, .. } ==> i <= next && (agree(t, u, next) ==> other == run)
}

/// What a lowering comes to depends on no input beyond those that it uses.
pub proof fn later_inputs_do_not_matter(
    p: Plan,
    node: Node,
    depth: nat,
    w: World,
    t: Seq<Input>,
    u: Seq<Input>,
    i: nat,
)
    ensures
        settled(lower(p, node, depth, w, t, i), lower(p, node, depth, w, u, i), i, t, u),
    decreases depth, 3nat, 0int,
{
    if node < p.nodes.len() && depth > 0 {
        match p.nodes[node as int].ir {
            IR::HStack { .. } => {
                lemma_stack_settled(p, node, depth, 0, w, t, u, i);
            },
            IR::GroupBy { keys, .. } => {
                lemma_group_settled(p, node, depth, 0, keys@, w, t, u, i);
            },
            _ => {
                lemma_inputs_settled(p, node, depth, PrepView::Plain, seq![], w, t, u, i);
            },
        }
    }
}

proof fn lemma_inputs_settled(
    p: Plan,
    node: Node,
    depth: nat,
    prep: PrepView,
    keys: Seq<PhysNodeKey>,
    w: World,
    t: Seq<Input>,
    u: Seq<Input>,
    i: nat,
)
    ensures
        settled(
            lower_inputs(p, node, depth, prep, keys, w, t, i),
            lower_inputs(p, node, depth, prep, keys, w, u, i),
            i,
            t,
            u,
        ),
    decreases depth, 1nat, inputs(p.nodes[node as int].ir).len() - keys.len(),
{
    let all = inputs(p.nodes[node as int].ir);
    if keys.len() >= all.len() {
        lemma_finish_settled(p, node, prep, keys, w, t, u, i);
    } else if depth > 0 {
        later_inputs_do_not_matter(p, all[keys.len() as int], (depth - 1) as nat, w, t, u, i);
        if let Run::Returns { result: Ok(key), world, next } = lower(
            p,
            all[keys.len() as int],
            (depth - 1) as nat,
            w,
            t,
            i,
        ) {
            lemma_inputs_settled(p, node, depth, prep, keys.push(key), world, t, u, next);
        }
    }
}

proof fn lemma_finish_settled(
    p: Plan,
    node: Node,
    prep: PrepView,
    keys: Seq<PhysNodeKey>,
    w: World,
    t: Seq<Input>,
    u: Seq<Input>,
    i: nat,
)
    ensures
        settled(
            finish(p, node, prep, keys, w, t, i),
            finish(p, node, prep, keys, w, u, i),
            i,
            t,
            u,
        ),
{
}

proof fn lemma_stack_settled(
    p: Plan,
    node: Node,
    depth: nat,
    at: nat,
    w: World,
    t: Seq<Input>,
    u: Seq<Input>,
    i: nat,
)
    ensures
        settled(
            tests_stack(p, node, depth, at, w, t, i),
            tests_stack(p, node, depth, at, w, u, i),
            i,
            t,
            u,
        ),
    decreases depth, 2nat, p.nodes[node as int].ir->HStack_exprs@.len() - at,
{
    lemma_inputs_settled(p, node, depth, PrepView::Elementwise(true), seq![], w, t, u, i);
    if at < p.nodes[node as int].ir->HStack_exprs@.len() && i < t.len() {
        if let Input::Answer(ReplyView::Elementwise(elementwise), after) = t[i as int] {
            if elementwise {
                lemma_stack_settled(p, node, depth, at + 1, after, t, u, i + 1);
            } else {
                let prep = PrepView::Elementwise(false);
                lemma_inputs_settled(p, node, depth, prep, seq![], after, t, u, i + 1);
            }
        }
    }
}

proof fn lemma_group_settled(
    p: Plan,
    node: Node,
    depth: nat,
    at: nat,
    needed: Seq<ExprIR>,
    w: World,
    t: Seq<Input>,
    u: Seq<Input>,
    i: nat,
)
    ensures
        settled(
            tests_group(p, node, depth, at, needed, w, t, i),
            tests_group(p, node, depth, at, needed, w, u, i),
            i,
            t,
            u,
        ),
    decreases depth, 2nat, p.nodes[node as int].ir->GroupBy_aggs@.len() - at,
{
    lemma_inputs_settled(p, node, depth, PrepView::Group(needed), seq![], w, t, u, i);
    let keys = p.nodes[node as int].ir->GroupBy_keys@;
    let aggs = p.nodes[node as int].ir->GroupBy_aggs@;
    if at < aggs.len() {
        let expr = w.exprs[aggs[at as int].node as int];
        lemma_group_settled(p, node, depth, at + 1, needed.push(keys[0]), w, t, u, i);
        if let Some(input) = agg_input(expr) {
            if i < t.len() {
                if let Input::Answer(_, after) = t[i as int] {
                    let more = needed.push(from_node(input, after.exprs));
                    lemma_group_settled(p, node, depth, at + 1, more, after, t, u, i + 1);
                }
            }
        }
    }
}

/// Whether an operation needs no expressions lowered.
pub open spec fn needs_no_service(ir: IR) -> bool {
    match ir {
        IR::Select { .. } => false,
        IR::HStack { exprs, .. } => exprs@.len() == 0,
        IR::Filter { .. } => false,
        IR::Scan { scan } => scan.sources.count == 0 || predicate_node(scan) is None,
        IR::GroupBy { keys, .. } => keys@.len() == 0,
        IR::Join { args, .. } => !streams(args),
        _ => true,
    }
}

/// Whether no operation that a node reads, in chains no longer than `depth`, needs expressions
/// lowered, nor the node itself.
pub open spec fn plain(p: Plan, node: Node, depth: nat) -> bool
    decreases depth,
{
    &&& depth > 0
    &&& node < p.nodes.len()
    &&& needs_no_service(p.nodes[node as int].ir)
    &&& forall|i: int|
        0 <= i < inputs(p.nodes[node as int].ir).len() ==> plain(
            p,
            #[trigger] inputs(p.nodes[node as int].ir)[i],
            (depth - 1) as nat,
        )
}

/// Whether a run asks nothing, and if it returns, does so as an outlook says.
pub open spec fn as_foreseen(run: Run, look: Outlook) -> bool {
    &&& !(run is Asks)
    &&& run matches Run::Returns { result, world, .. } ==> match look {
        Outlook::Lowers { cached, .. } => result is Ok && world.cache.dom() == cached,
        Outlook::Fails { .. } => result is Err,
        Outlook::Stuck => true,
    }
}

/// A plan without expressions to lower is lowered without any question. It is lowered exactly when
/// the outlook says so beforehand: when nothing in it is a grouping without keys.
pub proof fn plain_plans_go_as_foreseen(
    p: Plan,
    node: Node,
    depth: nat,
    w: World,
    t: Seq<Input>,
    i: nat,
)
    requires
        plain(p, node, depth),
    ensures
        as_foreseen(
            lower(p, node, depth, w, t, i),
            outlook(p, w.exprs, node, depth, w.cache.dom()),
        ),
    decreases depth, 3nat, 0int,
{
    match p.nodes[node as int].ir {
        IR::GroupBy { .. } => {},
        IR::HStack { .. } => {
            let prep = PrepView::Elementwise(true);
            lemma_plain_inputs(p, node, depth, prep, seq![], w, t, i);
        },
        _ => {
            lemma_plain_inputs(p, node, depth, PrepView::Plain, seq![], w, t, i);
        },
    }
}

proof fn lemma_plain_inputs(
    p: Plan,
    node: Node,
    depth: nat,
    prep: PrepView,
    keys: Seq<PhysNodeKey>,
    w: World,
    t: Seq<Input>,
    i: nat,
)
    requires
        plain(p, node, depth),
        !(p.nodes[node as int].ir is GroupBy),
        p.nodes[node as int].ir is HStack ==> prep == PrepView::Elementwise(true),
    ensures
        as_foreseen(
            lower_inputs(p, node, depth, prep, keys, w, t, i),
            inputs_outlook(p, w.exprs, node, depth, keys.len(), w.cache.dom()),
        ),
    decreases depth, 1nat, inputs(p.nodes[node as int].ir).len() - keys.len(),
{
    let all = inputs(p.nodes[node as int].ir);
    if keys.len() >= all.len() {
        lemma_plain_finish(p, node, prep, keys, w, t, i);
    } else {
        let input = all[keys.len() as int];
        plain_plans_go_as_foreseen(p, input, (depth - 1) as nat, w, t, i);
        lemma_plain_exprs(p, input, (depth - 1) as nat, w, t, i);
        if let Run::Returns { result: Ok(key), world, next } = lower(
            p,
            input,
            (depth - 1) as nat,
            w,
            t,
            i,
        ) {
            lemma_plain_inputs(p, node, depth, prep, keys.push(key), world, t, next);
        }
    }
}

proof fn lemma_plain_finish(
    p: Plan,
    node: Node,
    prep: PrepView,
    keys: Seq<PhysNodeKey>,
    w: World,
    t: Seq<Input>,
    i: nat,
)
    requires
        needs_no_service(p.nodes[node as int].ir),
        !(p.nodes[node as int].ir is GroupBy),
        p.nodes[node as int].ir is HStack ==> prep == PrepView::Elementwise(true),
    ensures
        !(finish(p, node, prep, keys, w, t, i) is Asks),
        finish(p, node, prep, keys, w, t, i) matches Run::Returns { result, world, .. } ==> {
            &&& result is Ok
            &&& world.exprs == w.exprs
            &&& world.cache.dom() == match p.nodes[node as int].ir {
                IR::Cache { id, .. } => w.cache.dom().insert(id),
                _ => w.cache.dom(),
            }
        },
{
}

/// A plan without expressions to lower is lowered without new expressions.
proof fn lemma_plain_exprs(p: Plan, node: Node, depth: nat, w: World, t: Seq<Input>, i: nat)
    requires
        plain(p, node, depth),
    ensures
        lower(p, node, depth, w, t, i) matches Run::Returns { world, .. } ==> world.exprs
            == w.exprs,
    decreases depth, 3nat, 0int,
{
    match p.nodes[node as int].ir {
        IR::GroupBy { .. } => {},
        IR::HStack { .. } => {
            let prep = PrepView::Elementwise(true);
            lemma_plain_inputs_exprs(p, node, depth, prep, seq![], w, t, i);
        },
        _ => {
            lemma_plain_inputs_exprs(p, node, depth, PrepView::Plain, seq![], w, t, i);
        },
    }
}

proof fn lemma_plain_inputs_exprs(
    p: Plan,
    node: Node,
    depth: nat,
    prep: PrepView,
    keys: Seq<PhysNodeKey>,
    w: World,
    t: Seq<Input>,
    i: nat,
)
    requires
        plain(p, node, depth),
        !(p.nodes[node as int].ir is GroupBy),
        p.nodes[node as int].ir is HStack ==> prep == PrepView::Elementwise(true),
    ensures
        lower_inputs(p, node, depth, prep, keys, w, t, i) matches Run::Returns { world, .. }
            ==> world.exprs == w.exprs,
    decreases depth, 1nat, inputs(p.nodes[node as int].ir).len() - keys.len(),
{
    let all = inputs(p.nodes[node as int].ir);
    if keys.len() >= all.len() {
        lemma_plain_finish(p, node, prep, keys, w, t, i);
    } else {
        let input = all[keys.len() as int];
        lemma_plain_exprs(p, input, (depth - 1) as nat, w, t, i);
        if let Run::Returns { result: Ok(key), world, next } = lower(
            p,
            input,
            (depth - 1) as nat,
            w,
            t,
            i,
        ) {
            lemma_plain_inputs_exprs(p, node, depth, prep, keys.push(key), world, t, next);
        }
    }
}

} // verus!
