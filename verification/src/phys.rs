//! The physical plan that lowering builds.

use crate::ir::{Carried, ExprIR, FileType, JoinArgs, Scan};
use crate::schema::schema_fields;
use polars_core::prelude::DataType;
use polars_core::schema::Schema;
use slotmap::{DefaultKey, SlotMap};
use std::sync::Arc;
use vstd::prelude::*;

verus! {

/// `slotmap::DefaultKey`, by which a node of the physical plan is found.
#[verifier::external_type_specification]
#[verifier::external_body]
pub struct ExDefaultKey(DefaultKey);

/// The key of a node of the physical plan.
pub type PhysNodeKey = DefaultKey;

/// A frame in memory.
#[derive(Debug)]
pub enum Frame {
    /// The frame that the logical plan names.
    Given(Carried),
    /// A frame without rows.
    Empty(Arc<Schema>),
}

/// An operation of the physical plan.
#[derive(Debug)]
pub enum PhysNodeKind {
    InMemorySource { df: Frame },
    Select { input: PhysNodeKey, selectors: Vec<ExprIR>, extend_original: bool },
    WithRowIndex { input: PhysNodeKey, name: String, offset: Option<u32> },
    StreamingSlice { input: PhysNodeKey, offset: usize, length: usize },
    Filter { input: PhysNodeKey, predicate: ExprIR },
    SimpleProjection { input: PhysNodeKey, columns: Vec<String> },
    InMemorySink { input: PhysNodeKey },
    FileSink { path: Carried, file_type: FileType, input: PhysNodeKey },
    /// A function on the whole frame.
    InMemoryMap { input: PhysNodeKey, map: Carried },
    /// A function on each piece of a stream.
    StreamingMap { input: PhysNodeKey, map: Carried },
    Sort {
        input: PhysNodeKey,
        by_column: Vec<ExprIR>,
        slice: Option<(i64, usize)>,
        sort_options: Carried,
    },
    OrderedUnion { inputs: Vec<PhysNodeKey> },
    Zip { inputs: Vec<PhysNodeKey>, null_extend: bool },
    FileScan { scan: Scan },
    GroupBy { input: PhysNodeKey, key: Vec<ExprIR>, aggs: Vec<ExprIR> },
    InMemoryJoin {
        input_left: PhysNodeKey,
        input_right: PhysNodeKey,
        left_on: Vec<ExprIR>,
        right_on: Vec<ExprIR>,
        args: JoinArgs,
    },
    EquiJoin {
        input_left: PhysNodeKey,
        input_right: PhysNodeKey,
        left_on: Vec<ExprIR>,
        right_on: Vec<ExprIR>,
        args: JoinArgs,
    },
    /// A node that the lowering of expressions made for itself.
    Expression(Carried),
}

/// A node of the physical plan: an operation, and the schema of the rows that it gives.
#[derive(Debug)]
pub struct PhysNode {
    pub output_schema: Arc<Schema>,
    pub kind: PhysNodeKind,
}

/// What an operation of the physical plan is, with its lists as sequences.
pub ghost enum PhysNodeKindView {
    InMemorySource { df: Frame },
    Select { input: PhysNodeKey, selectors: Seq<ExprIR>, extend_original: bool },
    WithRowIndex { input: PhysNodeKey, name: String, offset: Option<u32> },
    StreamingSlice { input: PhysNodeKey, offset: usize, length: usize },
    Filter { input: PhysNodeKey, predicate: ExprIR },
    SimpleProjection { input: PhysNodeKey, columns: Seq<String> },
    InMemorySink { input: PhysNodeKey },
    FileSink { path: Carried, file_type: FileType, input: PhysNodeKey },
    InMemoryMap { input: PhysNodeKey, map: Carried },
    StreamingMap { input: PhysNodeKey, map: Carried },
    Sort {
        input: PhysNodeKey,
        by_column: Seq<ExprIR>,
        slice: Option<(i64, usize)>,
        sort_options: Carried,
    },
    OrderedUnion { inputs: Seq<PhysNodeKey> },
    Zip { inputs: Seq<PhysNodeKey>, null_extend: bool },
    FileScan { scan: Scan },
    GroupBy { input: PhysNodeKey, key: Seq<ExprIR>, aggs: Seq<ExprIR> },
    InMemoryJoin {
        input_left: PhysNodeKey,
        input_right: PhysNodeKey,
        left_on: Seq<ExprIR>,
        right_on: Seq<ExprIR>,
        args: JoinArgs,
    },
    EquiJoin {
        input_left: PhysNodeKey,
        input_right: PhysNodeKey,
        left_on: Seq<ExprIR>,
        right_on: Seq<ExprIR>,
        args: JoinArgs,
    },
    Expression(Carried),
}

/// What a node of the physical plan is: an operation, and the columns that it gives.
pub ghost struct PhysNodeView {
    pub output_schema: Seq<(String, DataType)>,
    pub kind: PhysNodeKindView,
}

impl View for PhysNodeKind {
    type V = PhysNodeKindView;

    open spec fn view(&self) -> PhysNodeKindView {
        match *self {
            PhysNodeKind::InMemorySource { df } => PhysNodeKindView::InMemorySource { df },
            PhysNodeKind::Select { input, selectors, extend_original } => {
                PhysNodeKindView::Select { input, selectors: selectors@, extend_original }
            },
            PhysNodeKind::WithRowIndex { input, name, offset } => {
                PhysNodeKindView::WithRowIndex { input, name, offset }
            },
            PhysNodeKind::StreamingSlice { input, offset, length } => {
                PhysNodeKindView::StreamingSlice { input, offset, length }
            },
            PhysNodeKind::Filter { input, predicate } => {
                PhysNodeKindView::Filter { input, predicate }
            },
            PhysNodeKind::SimpleProjection { input, columns } => {
                PhysNodeKindView::SimpleProjection { input, columns: columns@ }
            },
            PhysNodeKind::InMemorySink { input } => PhysNodeKindView::InMemorySink { input },
            PhysNodeKind::FileSink { path, file_type, input } => {
                PhysNodeKindView::FileSink { path, file_type, input }
            },
            PhysNodeKind::InMemoryMap { input, map } => {
                PhysNodeKindView::InMemoryMap { input, map }
            },
            PhysNodeKind::StreamingMap { input, map } => {
                PhysNodeKindView::StreamingMap { input, map }
            },
            PhysNodeKind::Sort { input, by_column, slice, sort_options } => {
                PhysNodeKindView::Sort { input, by_column: by_column@, slice, sort_options }
            },
            PhysNodeKind::OrderedUnion { inputs } => {
                PhysNodeKindView::OrderedUnion { inputs: inputs@ }
            },
            PhysNodeKind::Zip { inputs, null_extend } => {
                PhysNodeKindView::Zip { inputs: inputs@, null_extend }
            },
            PhysNodeKind::FileScan { scan } => PhysNodeKindView::FileScan { scan },
            PhysNodeKind::GroupBy { input, key, aggs } => {
                PhysNodeKindView::GroupBy { input, key: key@, aggs: aggs@ }
            },
            PhysNodeKind::InMemoryJoin { input_left, input_right, left_on, right_on, args } => {
                PhysNodeKindView::InMemoryJoin {
                    input_left,
                    input_right,
                    left_on: left_on@,
                    right_on: right_on@,
                    args,
                }
            },
            PhysNodeKind::EquiJoin { input_left, input_right, left_on, right_on, args } => {
                PhysNodeKindView::EquiJoin {
                    input_left,
                    input_right,
                    left_on: left_on@,
                    right_on: right_on@,
                    args,
                }
            },
            PhysNodeKind::Expression(node) => PhysNodeKindView::Expression(node),
        }
    }
}

impl View for PhysNode {
    type V = PhysNodeView;

    open spec fn view(&self) -> PhysNodeView {
        PhysNodeView { output_schema: schema_fields(*self.output_schema), kind: self.kind@ }
    }
}

impl PhysNode {
    /// A node of the physical plan.
    pub fn new(output_schema: Arc<Schema>, kind: PhysNodeKind) -> (node: PhysNode)
        ensures
            node@ == (PhysNodeView { output_schema: schema_fields(*output_schema), kind: kind@ }),
            node.output_schema == output_schema,
            node.kind == kind,
    {
        PhysNode { output_schema, kind }
    }
}

/// The nodes that an operation of the physical plan reads.
pub open spec fn phys_inputs(kind: PhysNodeKindView) -> Seq<PhysNodeKey> {
    match kind {
        PhysNodeKindView::InMemorySource { .. } => seq![],
        PhysNodeKindView::Select { input, .. } => seq![input],
        PhysNodeKindView::WithRowIndex { input, .. } => seq![input],
        PhysNodeKindView::StreamingSlice { input, .. } => seq![input],
        PhysNodeKindView::Filter { input, .. } => seq![input],
        PhysNodeKindView::SimpleProjection { input, .. } => seq![input],
        PhysNodeKindView::InMemorySink { input } => seq![input],
        PhysNodeKindView::FileSink { input, .. } => seq![input],
        PhysNodeKindView::InMemoryMap { input, .. } => seq![input],
        PhysNodeKindView::StreamingMap { input, .. } => seq![input],
        PhysNodeKindView::Sort { input, .. } => seq![input],
        PhysNodeKindView::OrderedUnion { inputs } => inputs,
        PhysNodeKindView::Zip { inputs, .. } => inputs,
        PhysNodeKindView::FileScan { .. } => seq![],
        PhysNodeKindView::GroupBy { input, .. } => seq![input],
        PhysNodeKindView::InMemoryJoin { input_left, input_right, .. } => {
            seq![input_left, input_right]
        },
        PhysNodeKindView::EquiJoin { input_left, input_right, .. } => {
            seq![input_left, input_right]
        },
        PhysNodeKindView::Expression(_) => seq![],
    }
}

/// Whether all that an operation reads is in a physical plan.
pub open spec fn has_inputs(kind: PhysNodeKindView, phys: Map<PhysNodeKey, PhysNodeView>) -> bool {
    forall|j: int|
        0 <= j < phys_inputs(kind).len() ==> phys.contains_key(#[trigger] phys_inputs(kind)[j])
}

/// Whether all that the nodes of a physical plan read is in the plan.
pub open spec fn complete(phys: Map<PhysNodeKey, PhysNodeView>) -> bool {
    forall|key: PhysNodeKey| #[trigger]
        phys.contains_key(key) ==> has_inputs(phys[key].kind, phys)
}

/// A plan stays complete when a node is added whose inputs are in it.
pub proof fn lemma_complete(
    phys: Map<PhysNodeKey, PhysNodeView>,
    key: PhysNodeKey,
    node: PhysNodeView,
)
    requires
        complete(phys),
        has_inputs(node.kind, phys),
        !phys.contains_key(key),
    ensures
        complete(phys.insert(key, node)),
{
    let more = phys.insert(key, node);
    assert forall|other: PhysNodeKey| #[trigger] more.contains_key(other) implies has_inputs(
        more[other].kind,
        more,
    ) by {
        if other != key {
            assert(phys.contains_key(other));
            assert(has_inputs(phys[other].kind, phys));
        }
    }
}

/// The most nodes that a physical plan can hold.
pub const MAX_PHYS_NODES: usize = 0xffff_fffe;

/// The nodes of a physical plan, in a `slotmap::SlotMap`.
#[verifier::external_body]
#[derive(Debug)]
pub struct PhysNodes {
    nodes: SlotMap<PhysNodeKey, PhysNode>,
}

/// What a physical plan holds: its nodes by their keys.
pub uninterp spec fn phys_nodes(phys_sm: PhysNodes) -> Map<PhysNodeKey, PhysNodeView>;

impl View for PhysNodes {
    type V = Map<PhysNodeKey, PhysNodeView>;

    open spec fn view(&self) -> Map<PhysNodeKey, PhysNodeView> {
        phys_nodes(*self)
    }
}

/// `SlotMap::with_key`: a map without nodes.
#[verifier::external_body]
fn slotmap_new() -> (phys_sm: PhysNodes)
    ensures
        phys_nodes(phys_sm).dom().is_empty(),
{
    PhysNodes { nodes: SlotMap::with_key() }
}

/// `SlotMap::insert`: puts a node in under a key that no node of the map has, and leaves the others
/// as they are. The map panics when it holds `MAX_PHYS_NODES` nodes already.
#[verifier::external_body]
fn slotmap_insert(phys_sm: &mut PhysNodes, node: PhysNode) -> (key: PhysNodeKey)
    requires
        phys_nodes(*old(phys_sm)).dom().finite(),
        phys_nodes(*old(phys_sm)).dom().len() < MAX_PHYS_NODES,
    ensures
        !phys_nodes(*old(phys_sm)).contains_key(key),
        phys_nodes(*final(phys_sm)) == phys_nodes(*old(phys_sm)).insert(key, node@),
{
    phys_sm.nodes.insert(node)
}

/// `SlotMap::index`: the node under a key of the map. The map panics on any other key.
#[verifier::external_body]
fn slotmap_index(phys_sm: &PhysNodes, key: PhysNodeKey) -> (node: &PhysNode)
    requires
        phys_nodes(*phys_sm).contains_key(key),
    ensures
        node@ == phys_nodes(*phys_sm)[key],
{
    &phys_sm.nodes[key]
}

/// `SlotMap::contains_key`: whether a node is there under the key.
#[verifier::external_body]
fn slotmap_contains_key(phys_sm: &PhysNodes, key: PhysNodeKey) -> (found: bool)
    ensures
        found == phys_nodes(*phys_sm).contains_key(key),
{
    phys_sm.nodes.contains_key(key)
}

/// Whether a set of keys is finite and has this many members.
pub open spec fn counts(len: usize, keys: Set<PhysNodeKey>) -> bool {
    keys.finite() && keys.len() == len
}

/// `SlotMap::len`: how many nodes there are.
#[verifier::external_body]
fn slotmap_len(phys_sm: &PhysNodes) -> (len: usize)
    ensures
        counts(len, phys_nodes(*phys_sm).dom()),
{
    phys_sm.nodes.len()
}

impl PhysNodes {
    /// A plan without nodes.
    pub fn new() -> (phys_sm: PhysNodes)
        ensures
            phys_sm@ == Map::<PhysNodeKey, PhysNodeView>::empty(),
    {
        let phys_sm = slotmap_new();
        assert(phys_sm@.dom() == Set::<PhysNodeKey>::empty());
        phys_sm
    }

    /// Adds a node and returns its key.
    pub fn insert(&mut self, node: PhysNode) -> (key: PhysNodeKey)
        requires
            old(self)@.dom().len() < MAX_PHYS_NODES,
        ensures
            !old(self)@.contains_key(key),
            final(self)@ == old(self)@.insert(key, node@),
    {
        slotmap_len(self);
        slotmap_insert(self, node)
    }

    /// Returns the node under a key.
    pub fn get(&self, key: PhysNodeKey) -> (node: &PhysNode)
        requires
            self@.contains_key(key),
        ensures
            node@ == self@[key],
    {
        slotmap_index(self, key)
    }

    /// Tells whether there is a node under a key.
    pub fn contains_key(&self, key: PhysNodeKey) -> (found: bool)
        ensures
            found == self@.contains_key(key),
    {
        slotmap_contains_key(self, key)
    }

    /// Counts the nodes.
    pub fn len(&self) -> (len: usize)
        ensures
            self@.dom().finite(),
            len == self@.dom().len(),
    {
        slotmap_len(self)
    }
}

} // verus!
