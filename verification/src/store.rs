//! The collections that lowering reads and fills besides the physical plan.

use crate::ir::{AExpr, ExprIR, IRNode, Node};
use crate::phys::{PhysNodeKey, PhysNodes};
use polars_utils::aliases::{InitHashMaps, PlHashMap, PlIndexMap};
use polars_utils::arena::Arena;
use polars_utils::pl_str::PlSmallStr;
use vstd::prelude::*;

verus! {

/// `polars_utils::arena::Arena`, a growing list whose items are known by their index.
#[verifier::external_type_specification]
#[verifier::external_body]
#[verifier::reject_recursive_types(T)]
pub struct ExArena<T>(Arena<T>);

/// What an expression arena holds: its nodes, in the order in which they were added.
pub uninterp spec fn expr_items(arena: Arena<AExpr>) -> Seq<AExpr>;

/// What a plan arena holds: its nodes, in the order in which they were added.
pub uninterp spec fn ir_items(arena: Arena<IRNode>) -> Seq<IRNode>;

/// `Arena::add` on expressions: appends a node and returns its index.
#[verifier::external_body]
pub(crate) fn add_expr(expr_arena: &mut Arena<AExpr>, expr: AExpr) -> (node: Node)
    ensures
        node == expr_items(*old(expr_arena)).len(),
        expr_items(*final(expr_arena)) == expr_items(*old(expr_arena)).push(expr),
{
    expr_arena.add(expr).0
}

/// `Arena::get` on expressions: the node at an index. The arena panics past its last node.
#[verifier::external_body]
pub(crate) fn get_expr(expr_arena: &Arena<AExpr>, node: Node) -> (expr: &AExpr)
    requires
        node < expr_items(*expr_arena).len(),
    ensures
        *expr == expr_items(*expr_arena)[node as int],
{
    expr_arena.get(polars_utils::arena::Node(node))
}

/// `Arena::len` on expressions: how many nodes there are.
#[verifier::external_body]
pub(crate) fn count_exprs(expr_arena: &Arena<AExpr>) -> (len: usize)
    ensures
        len == expr_items(*expr_arena).len(),
{
    expr_arena.len()
}

/// `Arena::get` on plans: the node at an index. The arena panics past its last node.
#[verifier::external_body]
pub(crate) fn get_ir(ir_arena: &Arena<IRNode>, node: Node) -> (ir_node: &IRNode)
    requires
        node < ir_items(*ir_arena).len(),
    ensures
        *ir_node == ir_items(*ir_arena)[node as int],
{
    ir_arena.get(polars_utils::arena::Node(node))
}

/// `Arena::len` on plans: how many nodes there are.
#[verifier::external_body]
pub(crate) fn count_ir(ir_arena: &Arena<IRNode>) -> (len: usize)
    ensures
        len == ir_items(*ir_arena).len(),
{
    ir_arena.len()
}

/// The lowered parts of a plan that are to be computed once, in a `PlHashMap` by their ids.
#[verifier::external_body]
#[derive(Debug)]
pub struct CacheNodes {
    map: PlHashMap<usize, PhysNodeKey>,
}

/// What the map of lowered parts holds: the key of each part, by its id.
pub uninterp spec fn cached_nodes(cache_nodes: CacheNodes) -> Map<usize, PhysNodeKey>;

impl View for CacheNodes {
    type V = Map<usize, PhysNodeKey>;

    open spec fn view(&self) -> Map<usize, PhysNodeKey> {
        cached_nodes(*self)
    }
}

/// `PlHashMap::new`: a map without entries.
#[verifier::external_body]
fn hash_map_new() -> (cache_nodes: CacheNodes)
    ensures
        cached_nodes(cache_nodes).dom().is_empty(),
{
    CacheNodes { map: PlHashMap::new() }
}

/// `PlHashMap::get`: the entry under an id, if there is one.
#[verifier::external_body]
fn hash_map_get(cache_nodes: &CacheNodes, id: usize) -> (key: Option<PhysNodeKey>)
    ensures
        key == (if cached_nodes(*cache_nodes).contains_key(id) {
            Some(cached_nodes(*cache_nodes)[id])
        } else {
            None
        }),
{
    cache_nodes.map.get(&id).copied()
}

/// `PlHashMap::insert`: puts an entry in under an id, in place of the one that was there.
#[verifier::external_body]
fn hash_map_insert(cache_nodes: &mut CacheNodes, id: usize, key: PhysNodeKey)
    ensures
        cached_nodes(*final(cache_nodes)) == cached_nodes(*old(cache_nodes)).insert(id, key),
{
    cache_nodes.map.insert(id, key);
}

/// Whether a list holds the values of a map and nothing else.
pub open spec fn lists(keys: Seq<PhysNodeKey>, map: Map<usize, PhysNodeKey>) -> bool {
    &&& forall|id: usize| map.contains_key(id) ==> keys.contains(#[trigger] map[id])
    &&& forall|i: int|
        0 <= i < keys.len() ==> map.values().contains(#[trigger] keys[i])
}

/// `PlHashMap::values`, collected: the entries, in no particular order.
#[verifier::external_body]
fn hash_map_values(cache_nodes: &CacheNodes) -> (keys: Vec<PhysNodeKey>)
    ensures
        lists(keys@, cached_nodes(*cache_nodes)),
{
    cache_nodes.map.values().copied().collect()
}

impl CacheNodes {
    /// A map without lowered parts.
    pub fn new() -> (cache_nodes: CacheNodes)
        ensures
            cache_nodes@ == Map::<usize, PhysNodeKey>::empty(),
    {
        let cache_nodes = hash_map_new();
        assert(cache_nodes@.dom() == Set::<usize>::empty());
        cache_nodes
    }

    /// Returns the key of a part, if it has been lowered.
    pub fn get(&self, id: usize) -> (key: Option<PhysNodeKey>)
        ensures
            key == (if self@.contains_key(id) {
                Some(self@[id])
            } else {
                None
            }),
    {
        hash_map_get(self, id)
    }

    /// Tells whether the keys of all parts are keys of nodes of the physical plan.
    pub fn all_in(&self, phys_sm: &PhysNodes) -> (all: bool)
        ensures
            all == (forall|id: usize|
                self@.contains_key(id) ==> phys_sm@.contains_key(#[trigger] self@[id])),
    {
        let keys = hash_map_values(self);
        for i in 0..keys.len()
            invariant
                lists(keys@, self@),
                forall|j: int| 0 <= j < i ==> phys_sm@.contains_key(#[trigger] keys@[j]),
        {
            if !phys_sm.contains_key(keys[i]) {
                proof {
                    assert(self@.values().contains(keys@[i as int]));
                    let id = choose|id: usize|
                        self@.contains_key(id) && #[trigger] self@[id] == keys@[i as int];
                    assert(!phys_sm@.contains_key(self@[id]));
                }
                return false;
            }
        }
        assert forall|id: usize| self@.contains_key(id) implies phys_sm@.contains_key(
            #[trigger] self@[id],
        ) by {
            assert(keys@.contains(self@[id]));
        }
        true
    }

    /// Notes the key of a part.
    pub fn insert(&mut self, id: usize, key: PhysNodeKey)
        ensures
            final(self)@ == old(self)@.insert(id, key),
    {
        hash_map_insert(self, id, key)
    }
}

/// Expressions by their output names, in a `PlIndexMap`, which keeps them in order.
#[verifier::external_body]
pub struct Selectors {
    map: PlIndexMap<PlSmallStr, ExprIR>,
}

/// What the selectors are: each name with its expression, in order.
pub uninterp spec fn selector_entries(selectors: Selectors) -> Seq<(Seq<char>, ExprIR)>;

/// Where a name stands among some entries.
pub open spec fn position(entries: Seq<(Seq<char>, ExprIR)>, name: Seq<char>) -> Option<int> {
    if exists|i: int| 0 <= i < entries.len() && #[trigger] entries[i].0 == name {
        Some(choose|i: int| 0 <= i < entries.len() && #[trigger] entries[i].0 == name)
    } else {
        None
    }
}

/// The entries after an expression has been put in under a name: at the place where the name stands
/// already, or else at the end.
pub open spec fn upsert(
    entries: Seq<(Seq<char>, ExprIR)>,
    name: Seq<char>,
    expr: ExprIR,
) -> Seq<(Seq<char>, ExprIR)> {
    match position(entries, name) {
        Some(i) => entries.update(i, (name, expr)),
        None => entries.push((name, expr)),
    }
}

/// `PlIndexMap::new`: a map without entries.
#[verifier::external_body]
pub(crate) fn index_map_new() -> (selectors: Selectors)
    ensures
        selector_entries(selectors) == Seq::<(Seq<char>, ExprIR)>::empty(),
{
    Selectors { map: PlIndexMap::new() }
}

/// `PlIndexMap::insert`: puts an expression in under a name. A name that is there keeps its place
/// and gets the new expression; any other name comes last.
#[verifier::external_body]
pub(crate) fn index_map_insert(selectors: &mut Selectors, name: &String, expr: ExprIR)
    ensures
        selector_entries(*final(selectors)) == upsert(
            selector_entries(*old(selectors)),
            name@,
            expr,
        ),
{
    selectors.map.insert(PlSmallStr::from_str(name), expr);
}

/// `PlIndexMap::into_values`: the expressions, in order.
#[verifier::external_body]
pub(crate) fn index_map_into_values(selectors: Selectors) -> (exprs: Vec<ExprIR>)
    ensures
        exprs@ == selector_entries(selectors).map_values(|entry: (Seq<char>, ExprIR)| entry.1),
{
    selectors.map.into_values().collect()
}

} // verus!
