//! The lowering of a logical plan to a physical one.
//!
//! [`lower_ir`] goes as far as it can on its own. Where expressions have to be lowered, it hands
//! out a question for the service that does this, together with a [`Lowering`] that goes on with
//! the answer.

use crate::advance::{give_up_stack, goes_on, lemma_levels_grow, lemma_rest_extends,
    lemma_rest_fails, lemma_rest_stuck, level_placed, level_ready, levels_ready, plan, ready, run,
    test_group, test_stack, views};
use crate::answer::{fits, is_fit, take_answer};
use crate::finish::{asks_well, belongs, grows, lemma_grows, sound};
use crate::ir::{AExpr, ExprIR, IRNode, Node, IR};
use crate::model::{lower, Input, LowerError, Plan, ReplyView, RequestView, Run, World};
use crate::phys::{PhysNodeKey, PhysNodeView, PhysNodes, MAX_PHYS_NODES};
use crate::protocol::{Reply, Request};
use crate::step::{continues, keyed, resumes, starts, unwinds, world, Level, LevelView, Pending,
    PendingView, Step, StepView};
use crate::store::{count_exprs, get_expr, get_ir, CacheNodes};
use crate::support::{bounded, lemma_outlook_depth, outlook, Outlook};
use crate::survey::{can_aggregate, is_bounded, walk, Spot};
use polars_utils::arena::Arena;
use vstd::prelude::*;

verus! {

/// Where a lowering started, what has come in since, and what was asked last.
pub ghost struct History {
    pub root: Node,
    pub depth: nat,
    pub start: World,
    pub tape: Seq<Input>,
    pub request: RequestView,
    pub asked: World,
}

/// A lowering that waits for an answer.
pub struct Lowering<'a> {
    ir_arena: &'a Arena<IRNode>,
    csv_slice_disabled: bool,
    levels: Vec<Level>,
    pending: Pending,
    history: Ghost<History>,
}

/// A lowering that waits for an answer: the plan, the nodes that wait for their inputs, what the
/// answer is wanted for, and the way up to here.
pub ghost struct LoweringView {
    pub plan: Plan,
    pub levels: Seq<LevelView>,
    pub pending: PendingView,
    pub history: History,
}

impl<'a> View for Lowering<'a> {
    type V = LoweringView;

    closed spec fn view(&self) -> LoweringView {
        LoweringView {
            plan: plan(*self.ir_arena, self.csv_slice_disabled),
            levels: views(self.levels@),
            pending: self.pending@,
            history: self.history@,
        }
    }
}

impl<'a> Lowering<'a> {
    #[verifier::type_invariant]
    spec fn wf(self) -> bool {
        self@.explained() && self@.placed()
    }
}

impl LoweringView {
    /// The lowering of the whole plan, from its start on, with these inputs.
    pub open spec fn run(self, t: Seq<Input>) -> Run {
        lower(self.plan, self.history.root, self.history.depth, self.history.start, t, 0)
    }

    /// The step that asks.
    pub open spec fn step(self) -> StepView {
        StepView::Ask(self.history.request, self.pending)
    }

    /// Whether what is left to do is what the lowering of the whole plan comes to from here on.
    pub open spec fn explained(self) -> bool {
        forall|t: Seq<Input>| #[trigger]
            starts(t, self.history.tape) ==> self.run(t) == goes_on(
                self.plan,
                self.levels,
                self.step(),
                self.history.asked,
                t,
                self.history.tape.len(),
            )
    }

    /// Whether all that waits belongs to the plan, and the bound on what the root reads is right.
    pub open spec fn placed(self) -> bool {
        &&& bounded(self.plan, self.history.root, self.history.depth)
        &&& forall|i: int|
            0 <= i < self.levels.len() ==> level_placed(self.plan, #[trigger] self.levels[i])
        &&& belongs(self.plan, self.pending)
    }

    /// Whether the lowering can go on with an answer, in the world as the service left it. A
    /// failure of the service can be handed on in any world.
    pub open spec fn accepts(self, reply: ReplyView, w: World) -> bool {
        &&& fits(self.plan, self.pending, reply, w)
        &&& reply is Failed || ready(self.plan, self.levels, self.step(), w)
    }

    /// Whether this is the lowering of the same plan from the same start as another one.
    pub open spec fn continues(self, other: LoweringView) -> bool {
        &&& self.plan == other.plan
        &&& self.history.root == other.history.root
        &&& self.history.depth == other.history.depth
        &&& self.history.start == other.history.start
    }
}

/// How far a lowering has come.
pub enum Progress<'a> {
    /// The plan is lowered to this node, or cannot be lowered.
    Done(Result<PhysNodeKey, LowerError>),
    /// The service has to answer first.
    Ask(Request, Lowering<'a>),
}

/// Whether a plan can be lowered from a node on that reads chains no longer than `depth`: all its
/// operations are supported, and there is room for all nodes that are to be added.
pub open spec fn lowerable(p: Plan, node: Node, depth: nat, w: World) -> bool {
    let whole = outlook(p, w.exprs, node, depth, w.cache.dom());
    &&& bounded(p, node, depth)
    &&& !(whole is Stuck)
    &&& sound(w, 4 * whole.visits())
}

/// Tells whether a plan can be lowered from a node on.
pub fn can_lower(
    node: Node,
    ir_arena: &Arena<IRNode>,
    expr_arena: &Arena<AExpr>,
    phys_sm: &PhysNodes,
    cache_nodes: &CacheNodes,
    csv_slice_disabled: bool,
) -> (can: bool)
    ensures
        can == exists|depth: nat| #[trigger]
            lowerable(
                plan(*ir_arena, csv_slice_disabled),
                node,
                depth,
                world(*expr_arena, *phys_sm, *cache_nodes),
            ),
{
    let ghost p = plan(*ir_arena, csv_slice_disabled);
    let ghost w = world(*expr_arena, *phys_sm, *cache_nodes);
    if !is_bounded(node, ir_arena, Ghost(p)) {
        assert(forall|depth: nat| #[trigger]
            lowerable(p, node, depth, w) ==> bounded(p, node, depth));
        return false;
    }
    let len = phys_sm.len();
    if len > MAX_PHYS_NODES || !cache_nodes.all_in(phys_sm) {
        return false;
    }
    let limit: usize = (MAX_PHYS_NODES - len) / 4;
    let ghost depth = choose|depth: nat| bounded(p, node, depth);
    let visits = walk(
        Spot::At(node, Ghost(depth)),
        Vec::new(),
        limit,
        ir_arena,
        csv_slice_disabled,
        expr_arena,
        cache_nodes,
        Ghost(Seq::empty()),
    );
    proof {
        assert forall|other: nat| #[trigger] lowerable(p, node, other, w) implies lowerable(
            p,
            node,
            depth,
            w,
        ) by {
            lemma_outlook_depth(p, w.exprs, node, depth, other, w.cache.dom());
        }
        assert(lowerable(p, node, depth, w) == visits is Some);
    }
    visits.is_some()
}

/// Tells whether the inputs of all nodes that wait are nodes of the physical plan.
fn all_live(levels: &Vec<Level>, phys_sm: &PhysNodes) -> (all: bool)
    ensures
        all == (forall|i: int|
            0 <= i < levels@.len() ==> keys_live(#[trigger] levels@[i].keys@, phys_sm@)),
{
    for i in 0..levels.len()
        invariant
            forall|j: int| 0 <= j < i ==> keys_live(#[trigger] levels@[j].keys@, phys_sm@),
    {
        let keys = &levels[i].keys;
        for j in 0..keys.len()
            invariant
                keys == levels@[i as int].keys,
                i < levels@.len(),
                forall|k: int| 0 <= k < j ==> phys_sm@.contains_key(#[trigger] keys@[k]),
        {
            if !phys_sm.contains_key(keys[j]) {
                assert(!keys_live(levels@[i as int].keys@, phys_sm@));
                return false;
            }
        }
    }
    true
}

/// Whether some keys are keys of nodes.
spec fn keys_live(keys: Seq<PhysNodeKey>, phys: Map<PhysNodeKey, PhysNodeView>) -> bool {
    forall|j: int| 0 <= j < keys.len() ==> phys.contains_key(#[trigger] keys[j])
}

/// Makes something of the step at which a lowering stopped.
fn stop<'a>(
    last: Step,
    levels: Vec<Level>,
    ir_arena: &'a Arena<IRNode>,
    csv_slice_disabled: bool,
    Ghost(root): Ghost<Node>,
    Ghost(depth): Ghost<nat>,
    Ghost(start): Ghost<World>,
    Ghost(tape): Ghost<Seq<Input>>,
    Ghost(w): Ghost<World>,
) -> (progress: Progress<'a>)
    requires
        !(last is Visit),
        last is Return ==> levels@.len() == 0,
        ready(plan(*ir_arena, csv_slice_disabled), views(levels@), last@, w),
        bounded(plan(*ir_arena, csv_slice_disabled), root, depth),
        forall|t: Seq<Input>| #[trigger]
            starts(t, tape) ==> lower(
                plan(*ir_arena, csv_slice_disabled),
                root,
                depth,
                start,
                t,
                0,
            ) == goes_on(
                plan(*ir_arena, csv_slice_disabled),
                views(levels@),
                last@,
                w,
                t,
                tape.len(),
            ),
    ensures
        match progress {
            Progress::Done(result) => {
                &&& result matches Ok(key) ==> w.phys.contains_key(key)
                &&& lower(plan(*ir_arena, csv_slice_disabled), root, depth, start, tape, 0) == (
                Run::Returns { result, world: w, next: tape.len() })
            },
            Progress::Ask(request, lowering) => {
                &&& lowering@.explained()
                &&& lowering@.placed()
                &&& lowering@.run(tape) == (Run::Asks { request: request@, world: w })
                &&& lowering@.plan == plan(*ir_arena, csv_slice_disabled)
                &&& lowering@.levels == views(levels@)
                &&& last@ == lowering@.step()
                &&& lowering@.history == (History {
                    root,
                    depth,
                    start,
                    tape,
                    request: request@,
                    asked: w,
                })
            },
        },
{
    assert(starts(tape, tape));
    match last {
        Step::Return(key) => Progress::Done(Ok(key)),
        Step::Fail(error) => Progress::Done(Err(error)),
        Step::Ask(request, pending) => {
            let history = Ghost(
                History { root, depth, start, tape, request: request@, asked: w },
            );
            let lowering = Lowering { ir_arena, csv_slice_disabled, levels, pending, history };
            Progress::Ask(request, lowering)
        },
        Step::Visit { node, depth } => {
            assert(false);
            Progress::Done(Err(LowerError::NoGroupByKeys))
        },
    }
}

/// Lowers a logical plan from a node on. Parts that are to be computed once are looked up in and
/// put into `cache_nodes`.
pub fn lower_ir<'a>(
    node: Node,
    ir_arena: &'a Arena<IRNode>,
    expr_arena: &mut Arena<AExpr>,
    phys_sm: &mut PhysNodes,
    cache_nodes: &mut CacheNodes,
    csv_slice_disabled: bool,
) -> (progress: Progress<'a>)
    requires
        exists|depth: nat| #[trigger]
            lowerable(
                plan(*ir_arena, csv_slice_disabled),
                node,
                depth,
                world(*old(expr_arena), *old(phys_sm), *old(cache_nodes)),
            ),
    ensures
        grows(
            world(*old(expr_arena), *old(phys_sm), *old(cache_nodes)),
            world(*final(expr_arena), *final(phys_sm), *final(cache_nodes)),
        ),
        match progress {
            Progress::Done(result) => {
                &&& result matches Ok(key) ==> final(phys_sm)@.contains_key(key)
                &&& exists|depth: nat, tape: Seq<Input>|
                    bounded(plan(*ir_arena, csv_slice_disabled), node, depth) && keyed(
                        tape,
                        seq![],
                    ) && #[trigger] lower(
                        plan(*ir_arena, csv_slice_disabled),
                        node,
                        depth,
                        world(*old(expr_arena), *old(phys_sm), *old(cache_nodes)),
                        tape,
                        0,
                    ) == (Run::Returns {
                        result,
                        world: world(*final(expr_arena), *final(phys_sm), *final(cache_nodes)),
                        next: tape.len(),
                    })
            },
            Progress::Ask(request, lowering) => {
                let w1 = world(*final(expr_arena), *final(phys_sm), *final(cache_nodes));
                &&& lowering@.explained()
                &&& lowering@.placed()
                &&& lowering@.plan == plan(*ir_arena, csv_slice_disabled)
                &&& keyed(lowering@.history.tape, seq![])
                &&& lowering@.history.root == node
                &&& lowering@.history.start == world(
                    *old(expr_arena),
                    *old(phys_sm),
                    *old(cache_nodes),
                )
                &&& lowering@.run(lowering@.history.tape) == (Run::Asks {
                    request: request@,
                    world: w1,
                })
                &&& lowering@.history.request == request@
                &&& lowering@.history.asked == w1
                &&& ready(lowering@.plan, lowering@.levels, lowering@.step(), w1)
                &&& asks_well(lowering@.step(), w1)
            },
        },
{
    let ghost p = plan(*ir_arena, csv_slice_disabled);
    let ghost w = world(*expr_arena, *phys_sm, *cache_nodes);
    let ghost depth = choose|depth: nat| lowerable(p, node, depth, w);
    let mut levels: Vec<Level> = Vec::new();
    let mut tape: Ghost<Seq<Input>> = Ghost(Seq::empty());
    let first = Step::Visit { node, depth: Ghost(depth) };
    let last = run(
        first,
        &mut levels,
        ir_arena,
        csv_slice_disabled,
        expr_arena,
        phys_sm,
        cache_nodes,
        &mut tape,
    );
    stop(
        last,
        levels,
        ir_arena,
        csv_slice_disabled,
        Ghost(node),
        Ghost(depth),
        Ghost(w),
        Ghost(tape@),
        Ghost(world(*expr_arena, *phys_sm, *cache_nodes)),
    )
}

/// Finds the step that follows an answer of the service.
fn next_step(
    pending: Pending,
    reply: Reply,
    levels: &mut Vec<Level>,
    ir_arena: &Arena<IRNode>,
    csv_slice_disabled: bool,
    expr_arena: &mut Arena<AExpr>,
    phys_sm: &mut PhysNodes,
    cache_nodes: &mut CacheNodes,
    tape: &mut Ghost<Seq<Input>>,
    Ghost(request): Ghost<RequestView>,
) -> (step: Step)
    requires
        ({
            let p = plan(*ir_arena, csv_slice_disabled);
            let w = world(*old(expr_arena), *old(phys_sm), *old(cache_nodes));
            &&& ready(p, views(old(levels)@), StepView::Ask(request, pending@), w)
            &&& fits(p, pending@, reply@, w)
        }),
    ensures
        keyed(final(tape)@, old(tape)@),
        grows(
            world(*old(expr_arena), *old(phys_sm), *old(cache_nodes)),
            world(*final(expr_arena), *final(phys_sm), *final(cache_nodes)),
        ),
        ({
            let p = plan(*ir_arena, csv_slice_disabled);
            let w = world(*old(expr_arena), *old(phys_sm), *old(cache_nodes));
            let w1 = world(*final(expr_arena), *final(phys_sm), *final(cache_nodes));
            &&& ready(p, views(final(levels)@), step@, w1)
            &&& asks_well(step@, w1)
            &&& forall|t: Seq<Input>| #[trigger]
                starts(t, final(tape)@) ==> unwinds(
                    p,
                    views(old(levels)@),
                    resumes(p, pending@, reply@, w, t, old(tape)@.len()),
                    t,
                ) == goes_on(p, views(final(levels)@), step@, w1, t, final(tape)@.len())
        }),
{
    let ghost p = plan(*ir_arena, csv_slice_disabled);
    let ghost w = world(*expr_arena, *phys_sm, *cache_nodes);
    let ghost before = views(levels@);
    proof {
        lemma_rest_stuck(p, w.exprs, before);
    }
    match pending {
        Pending::StackTest { node, at, depth } => {
            assert(at < p.nodes[node as int].ir->HStack_exprs.len());
            if let Reply::Elementwise(true) = reply {
                test_stack(
                    node,
                    at + 1,
                    depth,
                    levels,
                    ir_arena,
                    csv_slice_disabled,
                    expr_arena,
                    phys_sm,
                    cache_nodes,
                    tape,
                )
            } else {
                give_up_stack(
                    node,
                    depth,
                    levels,
                    ir_arena,
                    csv_slice_disabled,
                    expr_arena,
                    phys_sm,
                    cache_nodes,
                    tape,
                )
            }
        },
        Pending::GroupTest { node, at, needed, input, depth } => {
            assert(at < p.nodes[node as int].ir->GroupBy_aggs.len());
            let mut needed = needed;
            let output_name = get_expr(expr_arena, input).output_name.clone();
            needed.push(ExprIR { node: input, output_name });
            test_group(
                node,
                at + 1,
                needed,
                depth,
                levels,
                ir_arena,
                csv_slice_disabled,
                expr_arena,
                phys_sm,
                cache_nodes,
                tape,
            )
        },
        pending => {
            let step = take_answer(
                pending,
                reply,
                ir_arena,
                expr_arena,
                phys_sm,
                tape,
                Ghost(p),
                Ghost(w),
            );
            proof {
                let w1 = world(*expr_arena, *phys_sm, *cache_nodes);
                let first = Outlook::Lowers { visits: 0, cached: w.cache.dom() };
                lemma_levels_grow(p, before, w, w1);
                lemma_rest_extends(p, w.exprs, w1.exprs, before, first);
                lemma_rest_fails(p, w1.exprs, before);
            }
            step
        },
    }
}

/// Goes on with an answer of the service until the next has to be asked for, or the plan is done
/// with.
fn go_on(
    pending: Pending,
    reply: Reply,
    levels: &mut Vec<Level>,
    ir_arena: &Arena<IRNode>,
    csv_slice_disabled: bool,
    expr_arena: &mut Arena<AExpr>,
    phys_sm: &mut PhysNodes,
    cache_nodes: &mut CacheNodes,
    tape: &mut Ghost<Seq<Input>>,
    Ghost(request): Ghost<RequestView>,
) -> (last: Step)
    requires
        ({
            let p = plan(*ir_arena, csv_slice_disabled);
            let w = world(*old(expr_arena), *old(phys_sm), *old(cache_nodes));
            &&& ready(p, views(old(levels)@), StepView::Ask(request, pending@), w)
            &&& fits(p, pending@, reply@, w)
        }),
    ensures
        keyed(final(tape)@, old(tape)@),
        grows(
            world(*old(expr_arena), *old(phys_sm), *old(cache_nodes)),
            world(*final(expr_arena), *final(phys_sm), *final(cache_nodes)),
        ),
        !(last is Visit),
        last is Return ==> final(levels)@.len() == 0,
        ({
            let p = plan(*ir_arena, csv_slice_disabled);
            let w = world(*old(expr_arena), *old(phys_sm), *old(cache_nodes));
            let w1 = world(*final(expr_arena), *final(phys_sm), *final(cache_nodes));
            &&& ready(p, views(final(levels)@), last@, w1)
            &&& asks_well(last@, w1)
            &&& forall|t: Seq<Input>| #[trigger]
                starts(t, final(tape)@) ==> unwinds(
                    p,
                    views(old(levels)@),
                    resumes(p, pending@, reply@, w, t, old(tape)@.len()),
                    t,
                ) == goes_on(p, views(final(levels)@), last@, w1, t, final(tape)@.len())
        }),
{
    let step = next_step(
        pending,
        reply,
        levels,
        ir_arena,
        csv_slice_disabled,
        expr_arena,
        phys_sm,
        cache_nodes,
        tape,
        Ghost(request),
    );
    let ghost tape1 = tape@;
    let ghost w1 = world(*expr_arena, *phys_sm, *cache_nodes);
    let last = run(
        step,
        levels,
        ir_arena,
        csv_slice_disabled,
        expr_arena,
        phys_sm,
        cache_nodes,
        tape,
    );
    assert(forall|t: Seq<Input>| #[trigger] starts(t, tape@) ==> starts(t, tape1));
    proof {
        lemma_grows(
            world(*old(expr_arena), *old(phys_sm), *old(cache_nodes)),
            w1,
            world(*expr_arena, *phys_sm, *cache_nodes),
        );
    }
    last
}

/// With an answer the lowering of the whole plan goes on as what is pending does.
proof fn lemma_answered(v: LoweringView, reply: ReplyView, w: World, t: Seq<Input>)
    requires
        v.explained(),
        starts(t, v.history.tape.push(Input::Answer(reply, w))),
    ensures
        v.run(t) == unwinds(
            v.plan,
            v.levels,
            resumes(v.plan, v.pending, reply, w, t, v.history.tape.len() + 1),
            t,
        ),
{
    let first = v.history.tape.push(Input::Answer(reply, w));
    let len = v.history.tape.len();
    assert(t[len as int] == first[len as int]);
    assert forall|j: int| 0 <= j < len implies #[trigger] t[j] == v.history.tape[j] by {
        assert(t[j] == first[j]);
    }
    assert(starts(t, v.history.tape));
    assert(continues(v.plan, v.step(), v.history.asked, t, len) == resumes(
        v.plan,
        v.pending,
        reply,
        w,
        t,
        len + 1,
    ));
}

impl<'a> Lowering<'a> {
    /// Tells whether the lowering can go on with an answer.
    pub fn can_resume(
        &self,
        reply: &Reply,
        expr_arena: &Arena<AExpr>,
        phys_sm: &PhysNodes,
        cache_nodes: &CacheNodes,
    ) -> (can: bool)
        ensures
            can == self@.accepts(reply@, world(*expr_arena, *phys_sm, *cache_nodes)),
    {
        proof {
            use_type_invariant(self);
        }
        let ghost p = self@.plan;
        let ghost w = world(*expr_arena, *phys_sm, *cache_nodes);
        let ghost levels = self@.levels;
        proof {
            lemma_rest_stuck(p, w.exprs, levels);
            if levels_ready(p, levels, w) {
                assert forall|i: int| 0 <= i < self.levels@.len() implies keys_live(
                    #[trigger] self.levels@[i].keys@,
                    phys_sm@,
                ) by {
                    assert(level_ready(p, levels[i], w));
                }
            }
        }
        if !is_fit(&self.pending, reply, self.ir_arena, expr_arena, phys_sm, Ghost(p), Ghost(w)) {
            return false;
        }
        if let Reply::Failed(_) = reply {
            return true;
        }
        if !all_live(&self.levels, phys_sm) || !cache_nodes.all_in(phys_sm) {
            return false;
        }
        let mut owed: usize = 2;
        let mut spot = Spot::Behind;
        match &self.pending {
            Pending::StackTest { node, depth, .. } => {
                owed = 4;
                spot = Spot::Inputs(*node, *depth, 0);
            },
            Pending::GroupTest { node, depth, at, input, .. } => {
                owed = 4;
                spot = Spot::Inputs(*node, *depth, 0);
                if *input >= count_exprs(expr_arena) {
                    return false;
                }
                if let IR::GroupBy { aggs, .. } = &get_ir(self.ir_arena, *node).ir {
                    assert(*at < aggs.len());
                    if !can_aggregate(aggs, *at + 1, expr_arena) {
                        return false;
                    }
                }
            },
            Pending::JoinLeft { right, .. } => {
                if !phys_sm.contains_key(*right) {
                    return false;
                }
            },
            Pending::JoinRight { left, .. } => {
                if !phys_sm.contains_key(*left) {
                    return false;
                }
            },
            Pending::Filter => {
                owed = 1;
            },
            Pending::Select => {
                owed = 0;
            },
            _ => {},
        }
        let waiting = self.levels.len();
        let len = phys_sm.len();
        if len > MAX_PHYS_NODES - owed || waiting > (MAX_PHYS_NODES - owed - len) / 4 {
            return false;
        }
        let limit: usize = (MAX_PHYS_NODES - owed - len) / 4 - waiting;
        let mut stack: Vec<(Node, usize)> = Vec::new();
        for i in 0..waiting
            invariant
                waiting == self.levels@.len(),
                levels == views(self.levels@),
                stack@.len() == i,
                forall|j: int|
                    0 <= j < i ==> (#[trigger] stack@[j]).0 == levels[j].node && stack@[j].1
                        == levels[j].keys.len(),
        {
            stack.push((self.levels[i].node, self.levels[i].keys.len()));
        }
        walk(
            spot,
            stack,
            limit,
            self.ir_arena,
            self.csv_slice_disabled,
            expr_arena,
            cache_nodes,
            Ghost(levels),
        ).is_some()
    }

    /// Goes on with the answer of the service.
    pub fn resume(
        self,
        reply: Reply,
        expr_arena: &mut Arena<AExpr>,
        phys_sm: &mut PhysNodes,
        cache_nodes: &mut CacheNodes,
    ) -> (progress: Progress<'a>)
        requires
            self@.accepts(reply@, world(*old(expr_arena), *old(phys_sm), *old(cache_nodes))),
        ensures
            grows(
                world(*old(expr_arena), *old(phys_sm), *old(cache_nodes)),
                world(*final(expr_arena), *final(phys_sm), *final(cache_nodes)),
            ),
            ({
                let w = world(*old(expr_arena), *old(phys_sm), *old(cache_nodes));
                let w1 = world(*final(expr_arena), *final(phys_sm), *final(cache_nodes));
                let first = self@.history.tape.push(Input::Answer(reply@, w));
                match progress {
                    Progress::Done(result) => {
                        &&& result matches Ok(key) ==> final(phys_sm)@.contains_key(key)
                        &&& exists|tape: Seq<Input>| #[trigger]
                            keyed(tape, first) && self@.run(tape) == (Run::Returns {
                                result,
                                world: w1,
                                next: tape.len(),
                            })
                    },
                    Progress::Ask(request, lowering) => {
                        &&& lowering@.explained()
                        &&& lowering@.placed()
                        &&& lowering@.continues(self@)
                        &&& keyed(lowering@.history.tape, first)
                        &&& lowering@.run(lowering@.history.tape) == (Run::Asks {
                            request: request@,
                            world: w1,
                        })
                        &&& lowering@.history.request == request@
                        &&& lowering@.history.asked == w1
                        &&& ready(lowering@.plan, lowering@.levels, lowering@.step(), w1)
                        &&& asks_well(lowering@.step(), w1)
                &&& asks_well(lowering@.step(), w1)
                    },
                }
            }),
    {
        proof {
            use_type_invariant(&self);
        }
        let ghost view = self@;
        let ghost reply_view = reply@;
        let ghost w = world(*expr_arena, *phys_sm, *cache_nodes);
        let Lowering { ir_arena, csv_slice_disabled, levels, pending, history } = self;
        let ghost first = history@.tape.push(Input::Answer(reply@, w));
        let reply = match reply {
            Reply::Failed(error) => {
                proof {
                    lemma_answered(view, reply_view, w, first);
                    assert(keyed(first, first));
                }
                return Progress::Done(Err(LowerError::Polars(error)));
            },
            reply => reply,
        };
        let mut tape: Ghost<Seq<Input>> = Ghost(first);
        let mut levels = levels;
        let last = go_on(
            pending,
            reply,
            &mut levels,
            ir_arena,
            csv_slice_disabled,
            expr_arena,
            phys_sm,
            cache_nodes,
            &mut tape,
            Ghost(history@.request),
        );
        let ghost w1 = world(*expr_arena, *phys_sm, *cache_nodes);
        assert forall|t: Seq<Input>| #[trigger] starts(t, tape@) implies view.run(t) == goes_on(
            view.plan,
            views(levels@),
            last@,
            w1,
            t,
            tape@.len(),
        ) by {
            assert(starts(t, first));
            lemma_answered(view, reply_view, w, t);
        }
        stop(
            last,
            levels,
            ir_arena,
            csv_slice_disabled,
            Ghost(history@.root),
            Ghost(history@.depth),
            Ghost(history@.start),
            Ghost(tape@),
            Ghost(w1),
        )
    }
}

} // verus!
