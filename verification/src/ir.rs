//! The logical plan that lowering reads.

use polars_core::schema::Schema;
use std::sync::Arc;
use vstd::prelude::*;

verus! {

/// Index of an item in an arena.
pub type Node = usize;

/// Something that lowering hands on without looking at it, under the number by which the caller
/// finds it again.
#[derive(Clone, Copy, Debug, PartialEq, Eq, Structural)]
pub struct Carried {
    pub id: u64,
}

/// Where the output name of an expression comes from.
#[derive(Debug, PartialEq, Eq)]
pub enum OutputName {
    /// No name has been set.
    Unset,
    /// The name of the leftmost literal.
    LiteralLhs(String),
    /// The name of the leftmost column.
    ColumnLhs(String),
    /// A name that was asked for.
    Alias(String),
}

impl OutputName {
    /// The name, if one is set.
    pub open spec fn name(self) -> Option<String> {
        match self {
            OutputName::Unset => None,
            OutputName::LiteralLhs(name) => Some(name),
            OutputName::ColumnLhs(name) => Some(name),
            OutputName::Alias(name) => Some(name),
        }
    }

    /// Returns the name, if one is set.
    pub fn get(&self) -> (name: Option<&String>)
        ensures
            name is Some <==> self.name() is Some,
            name matches Some(text) ==> self.name() == Some(*text),
    {
        match self {
            OutputName::Unset => None,
            OutputName::LiteralLhs(name) => Some(name),
            OutputName::ColumnLhs(name) => Some(name),
            OutputName::Alias(name) => Some(name),
        }
    }
}

impl Clone for OutputName {
    fn clone(&self) -> (copy: Self)
        ensures
            copy == *self,
    {
        match self {
            OutputName::Unset => OutputName::Unset,
            OutputName::LiteralLhs(name) => OutputName::LiteralLhs(name.clone()),
            OutputName::ColumnLhs(name) => OutputName::ColumnLhs(name.clone()),
            OutputName::Alias(name) => OutputName::Alias(name.clone()),
        }
    }
}

/// An expression of a plan: a node of the expression arena under an output name.
#[derive(Debug, PartialEq, Eq)]
pub struct ExprIR {
    pub node: Node,
    pub output_name: OutputName,
}

impl Clone for ExprIR {
    fn clone(&self) -> (copy: Self)
        ensures
            copy == *self,
    {
        ExprIR { node: self.node, output_name: self.output_name.clone() }
    }
}

/// Copies a list of expressions.
pub fn clone_exprs(exprs: &Vec<ExprIR>) -> (copies: Vec<ExprIR>)
    ensures
        copies@ == exprs@,
{
    let mut copies: Vec<ExprIR> = Vec::new();
    for i in 0..exprs.len()
        invariant
            copies@ == exprs@.take(i as int),
    {
        copies.push(exprs[i].clone());
        assert(exprs@.take(i + 1) == exprs@.take(i as int).push(exprs@[i as int]));
    }
    assert(exprs@.take(exprs@.len() as int) == exprs@);
    copies
}

/// An aggregation, over one node of the expression arena.
#[derive(Clone, Copy, Debug, PartialEq, Eq)]
pub enum IRAggExpr {
    Min { input: Node, propagate_nans: bool },
    Max { input: Node, propagate_nans: bool },
    Mean(Node),
    Sum(Node),
    Var(Node, u8),
    Std(Node, u8),
    /// Any other aggregation.
    Other(Carried),
}

impl IRAggExpr {
    /// The node that is aggregated, for the aggregations that can be streamed.
    pub open spec fn input(self) -> Option<Node> {
        match self {
            IRAggExpr::Min { input, .. } => Some(input),
            IRAggExpr::Max { input, .. } => Some(input),
            IRAggExpr::Mean(input) => Some(input),
            IRAggExpr::Sum(input) => Some(input),
            IRAggExpr::Var(input, _) => Some(input),
            IRAggExpr::Std(input, _) => Some(input),
            IRAggExpr::Other(_) => None,
        }
    }

    /// The same aggregation over another node.
    pub open spec fn over(self, node: Node) -> IRAggExpr {
        match self {
            IRAggExpr::Min { propagate_nans, .. } => IRAggExpr::Min { input: node, propagate_nans },
            IRAggExpr::Max { propagate_nans, .. } => IRAggExpr::Max { input: node, propagate_nans },
            IRAggExpr::Mean(_) => IRAggExpr::Mean(node),
            IRAggExpr::Sum(_) => IRAggExpr::Sum(node),
            IRAggExpr::Var(_, ddof) => IRAggExpr::Var(node, ddof),
            IRAggExpr::Std(_, ddof) => IRAggExpr::Std(node, ddof),
            IRAggExpr::Other(function) => IRAggExpr::Other(function),
        }
    }

    /// Returns the node that is aggregated, for the aggregations that can be streamed.
    pub fn get_input(&self) -> (input: Option<Node>)
        ensures
            input == self.input(),
    {
        match *self {
            IRAggExpr::Min { input, .. } => Some(input),
            IRAggExpr::Max { input, .. } => Some(input),
            IRAggExpr::Mean(input) => Some(input),
            IRAggExpr::Sum(input) => Some(input),
            IRAggExpr::Var(input, _) => Some(input),
            IRAggExpr::Std(input, _) => Some(input),
            IRAggExpr::Other(_) => None,
        }
    }

    /// Returns the same aggregation over another node.
    pub fn with_input(&self, node: Node) -> (agg: IRAggExpr)
        ensures
            agg == self.over(node),
    {
        match *self {
            IRAggExpr::Min { propagate_nans, .. } => IRAggExpr::Min { input: node, propagate_nans },
            IRAggExpr::Max { propagate_nans, .. } => IRAggExpr::Max { input: node, propagate_nans },
            IRAggExpr::Mean(_) => IRAggExpr::Mean(node),
            IRAggExpr::Sum(_) => IRAggExpr::Sum(node),
            IRAggExpr::Var(_, ddof) => IRAggExpr::Var(node, ddof),
            IRAggExpr::Std(_, ddof) => IRAggExpr::Std(node, ddof),
            IRAggExpr::Other(function) => IRAggExpr::Other(function),
        }
    }
}

/// What a node of the expression arena computes.
#[derive(Debug, PartialEq, Eq)]
pub enum AExprKind {
    Column(String),
    Agg(IRAggExpr),
    Len,
    /// Any other expression.
    Other(Carried),
}

/// A node of the expression arena.
#[derive(Debug, PartialEq, Eq)]
pub struct AExpr {
    pub kind: AExprKind,
    /// The name that the expression gives to its result when nothing renames it.
    pub output_name: OutputName,
}

impl Clone for AExpr {
    fn clone(&self) -> (copy: Self)
        ensures
            copy == *self,
    {
        let kind = match &self.kind {
            AExprKind::Column(name) => AExprKind::Column(name.clone()),
            AExprKind::Agg(agg) => AExprKind::Agg(*agg),
            AExprKind::Len => AExprKind::Len,
            AExprKind::Other(function) => AExprKind::Other(*function),
        };
        AExpr { kind, output_name: self.output_name.clone() }
    }
}

/// The kinds of file that a sink can write.
#[derive(Clone, Copy, Debug, PartialEq, Eq)]
pub enum FileType {
    Parquet(Carried),
    Ipc(Carried),
    Csv(Carried),
    Json(Carried),
}

/// Where a sink puts its rows.
#[derive(Clone, Copy, Debug, PartialEq, Eq)]
pub enum SinkType {
    Memory,
    File { path: Carried, file_type: FileType },
}

/// A function from frame to frame.
#[derive(Debug, PartialEq, Eq)]
pub enum FunctionIR {
    RowIndex { name: String, offset: Option<u32> },
    MergeSorted { function: Carried },
    /// Any other function, and whether it can be applied to a stream piece by piece.
    Other { function: Carried, streamable: bool },
}

/// The files of a scan: how many there are, and whether they lie in the cloud.
#[derive(Clone, Copy, Debug, PartialEq, Eq)]
pub struct ScanSources {
    pub paths: Carried,
    pub count: usize,
    pub cloud_url: bool,
}

/// A column of row numbers: its name and the first number.
#[derive(Debug, PartialEq, Eq)]
pub struct RowIndex {
    pub name: String,
    pub offset: u32,
}

impl Clone for RowIndex {
    fn clone(&self) -> (copy: Self)
        ensures
            copy == *self,
    {
        RowIndex { name: self.name.clone(), offset: self.offset }
    }
}

/// What a scan does besides reading, whatever the kind of file.
#[derive(Debug, PartialEq, Eq)]
pub struct FileScanOptions {
    /// Offset and length of the rows to keep.
    pub slice: Option<(i64, usize)>,
    pub row_index: Option<RowIndex>,
    pub allow_missing_columns: bool,
    pub rest: Carried,
}

/// The kinds of file that a scan can read.
#[derive(Clone, Copy, Debug, PartialEq, Eq)]
pub enum FileScan {
    Parquet { options: Carried },
    Ipc { options: Carried },
    /// `comment_prefix` says whether lines of the file can be comments.
    Csv { options: Carried, comment_prefix: bool },
    /// Any other source.
    Other(Carried),
}

/// A scan of files.
#[derive(Debug)]
pub struct Scan {
    pub sources: ScanSources,
    pub file_info: Carried,
    pub hive_parts: Option<Carried>,
    pub output_schema: Option<Arc<Schema>>,
    pub scan_type: FileScan,
    pub predicate: Option<ExprIR>,
    pub file_options: FileScanOptions,
}

/// Whether a grouping is over windows, and which of its groups to keep.
#[derive(Clone, Copy, Debug, PartialEq, Eq)]
pub struct GroupbyOptions {
    pub dynamic: bool,
    pub rolling: bool,
    pub slice: Option<(i64, usize)>,
}

/// The kinds of join.
#[derive(Clone, Copy, Debug, PartialEq, Eq)]
pub enum JoinType {
    Inner,
    Left,
    Right,
    Full,
    Cross,
    /// Any other join.
    Other(Carried),
}

impl JoinType {
    /// Whether rows are matched by equal keys, and rows of both sides appear in the result.
    pub open spec fn equi(self) -> bool {
        self is Inner || self is Left || self is Right || self is Full
    }

    /// Whether rows are matched by equal keys, and rows of both sides appear in the result.
    pub fn is_equi(&self) -> (equi: bool)
        ensures
            equi == self.equi(),
    {
        match self {
            JoinType::Inner | JoinType::Left | JoinType::Right | JoinType::Full => true,
            _ => false,
        }
    }
}

/// How often a join key may occur on each side.
#[derive(Clone, Copy, Debug, PartialEq, Eq)]
pub enum JoinValidation {
    ManyToMany,
    ManyToOne,
    OneToMany,
    OneToOne,
}

impl JoinValidation {
    /// Whether keys have to be checked for uniqueness.
    pub fn needs_checks(&self) -> (checks: bool)
        ensures
            checks == !(self is ManyToMany),
    {
        match self {
            JoinValidation::ManyToMany => false,
            _ => true,
        }
    }
}

/// How to join.
#[derive(Clone, Copy, Debug, PartialEq, Eq)]
pub struct JoinArgs {
    pub how: JoinType,
    pub validation: JoinValidation,
    pub slice: Option<(i64, usize)>,
    pub rest: Carried,
}

/// An operation of the logical plan.
#[derive(Debug)]
pub enum IR {
    SimpleProjection { input: Node, columns: Arc<Schema> },
    Select { input: Node, expr: Vec<ExprIR> },
    HStack { input: Node, exprs: Vec<ExprIR> },
    Slice { input: Node, offset: i64, len: u32 },
    Filter { input: Node, predicate: ExprIR },
    /// A frame in memory. `output_schema` is the projection to apply, if there is one.
    DataFrameScan { df: Carried, schema: Arc<Schema>, output_schema: Option<Arc<Schema>> },
    Sink { input: Node, payload: SinkType },
    MapFunction { input: Node, function: FunctionIR },
    Sort {
        input: Node,
        by_column: Vec<ExprIR>,
        slice: Option<(i64, usize)>,
        sort_options: Carried,
    },
    /// The rows of all inputs, one input after the other.
    Union { inputs: Vec<Node>, slice: Option<(i64, usize)> },
    /// The columns of all inputs, side by side.
    HConcat { inputs: Vec<Node> },
    Scan { scan: Scan },
    PythonScan { options: Carried },
    /// A part of the plan that is to be computed once. Equal ids stand for the same part.
    Cache { input: Node, id: usize },
    GroupBy {
        input: Node,
        keys: Vec<ExprIR>,
        aggs: Vec<ExprIR>,
        /// Whether a function is to be applied to each group.
        apply: bool,
        maintain_order: bool,
        options: GroupbyOptions,
    },
    Join {
        input_left: Node,
        input_right: Node,
        left_on: Vec<ExprIR>,
        right_on: Vec<ExprIR>,
        args: JoinArgs,
    },
    Distinct { input: Node, options: Carried },
    ExtContext { input: Node, contexts: Vec<Node> },
    Invalid,
}

/// A node of the plan arena: an operation, and the schema of the rows that it gives.
#[derive(Debug)]
pub struct IRNode {
    pub schema: Arc<Schema>,
    pub ir: IR,
}

/// The nodes that an operation reads, in the order in which they are lowered.
pub open spec fn inputs(ir: IR) -> Seq<Node> {
    match ir {
        IR::SimpleProjection { input, .. } => seq![input],
        IR::Select { input, .. } => seq![input],
        IR::HStack { input, .. } => seq![input],
        IR::Slice { input, .. } => seq![input],
        IR::Filter { input, .. } => seq![input],
        IR::DataFrameScan { .. } => seq![],
        IR::Sink { input, .. } => seq![input],
        IR::MapFunction { input, .. } => seq![input],
        IR::Sort { input, .. } => seq![input],
        IR::Union { inputs, .. } => inputs@,
        IR::HConcat { inputs } => inputs@,
        IR::Scan { .. } => seq![],
        IR::PythonScan { .. } => seq![],
        IR::Cache { input, .. } => seq![input],
        IR::GroupBy { input, .. } => seq![input],
        IR::Join { input_left, input_right, .. } => seq![input_left, input_right],
        IR::Distinct { input, .. } => seq![input],
        IR::ExtContext { input, .. } => seq![input],
        IR::Invalid => seq![],
    }
}

impl IR {
    /// Counts the nodes that the operation reads.
    pub fn count_inputs(&self) -> (count: usize)
        ensures
            count == inputs(*self).len(),
    {
        match self {
            IR::Union { inputs, .. } => inputs.len(),
            IR::HConcat { inputs } => inputs.len(),
            IR::Join { .. } => 2,
            IR::DataFrameScan { .. } => 0,
            IR::Scan { .. } => 0,
            IR::PythonScan { .. } => 0,
            IR::Invalid => 0,
            _ => 1,
        }
    }

    /// Returns the node that the operation reads at position `i`, or `None` past the last one.
    pub fn input(&self, i: usize) -> (node: Option<Node>)
        ensures
            node == (if i < inputs(*self).len() {
                Some(inputs(*self)[i as int])
            } else {
                None
            }),
    {
        let only: Node = match self {
            IR::SimpleProjection { input, .. } => *input,
            IR::Select { input, .. } => *input,
            IR::HStack { input, .. } => *input,
            IR::Slice { input, .. } => *input,
            IR::Filter { input, .. } => *input,
            IR::Sink { input, .. } => *input,
            IR::MapFunction { input, .. } => *input,
            IR::Sort { input, .. } => *input,
            IR::Cache { input, .. } => *input,
            IR::GroupBy { input, .. } => *input,
            IR::Distinct { input, .. } => *input,
            IR::ExtContext { input, .. } => *input,
            IR::Union { inputs, .. } => {
                return if i < inputs.len() {
                    Some(inputs[i])
                } else {
                    None
                };
            },
            IR::HConcat { inputs } => {
                return if i < inputs.len() {
                    Some(inputs[i])
                } else {
                    None
                };
            },
            IR::Join { input_left, input_right, .. } => {
                return if i == 0 {
                    Some(*input_left)
                } else if i == 1 {
                    Some(*input_right)
                } else {
                    None
                };
            },
            IR::DataFrameScan { .. } => {
                return None;
            },
            IR::Scan { .. } => {
                return None;
            },
            IR::PythonScan { .. } => {
                return None;
            },
            IR::Invalid => {
                return None;
            },
        };
        if i == 0 {
            Some(only)
        } else {
            None
        }
    }
}

} // verus!
