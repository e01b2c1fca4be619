//! The questions that lowering puts to the service that lowers expressions, and its answers.

use crate::ir::{ExprIR, Node};
use crate::model::{LowerError, ReplyView, RequestView};
use crate::phys::PhysNodeKey;
use polars_error::PolarsError;
use vstd::prelude::*;

verus! {

/// A question to the service that lowers expressions.
#[derive(Debug)]
pub enum Request {
    /// Can the expression be computed row by row?
    IsElementwise { node: Node },
    /// Put the expressions into a form that can be streamed, on top of an input.
    LowerExprs { input: PhysNodeKey, exprs: Vec<ExprIR> },
    /// Make a node that selects the expressions from an input.
    BuildSelect { input: PhysNodeKey, selectors: Vec<ExprIR> },
}

impl View for Request {
    type V = RequestView;

    open spec fn view(&self) -> RequestView {
        match *self {
            Request::IsElementwise { node } => RequestView::IsElementwise { node },
            Request::LowerExprs { input, exprs } => RequestView::LowerExprs {
                input,
                exprs: exprs@,
            },
            Request::BuildSelect { input, selectors } => RequestView::BuildSelect {
                input,
                selectors: selectors@,
            },
        }
    }
}

/// An answer of the service.
#[derive(Debug)]
pub enum Reply {
    Elementwise(bool),
    /// The input and the expressions that stand for those that were asked about.
    Lowered { input: PhysNodeKey, exprs: Vec<ExprIR> },
    Selected(PhysNodeKey),
    Failed(PolarsError),
}

impl View for Reply {
    type V = ReplyView;

    open spec fn view(&self) -> ReplyView {
        match *self {
            Reply::Elementwise(elementwise) => ReplyView::Elementwise(elementwise),
            Reply::Lowered { input, exprs } => ReplyView::Lowered { input, exprs: exprs@ },
            Reply::Selected(key) => ReplyView::Selected(key),
            Reply::Failed(error) => ReplyView::Failed(error),
        }
    }
}

impl LowerError {
    /// Returns the text of an error that lowering itself found.
    pub fn message(&self) -> (message: Option<String>)
        ensures
            match *self {
                LowerError::NoGroupByKeys => {
                    &&& message matches Some(text)
                    &&& text@ == "at least one key is required in a group_by operation"@
                },
                LowerError::Polars(_) => message is None,
            },
    {
        match self {
            LowerError::NoGroupByKeys => Some(
                "at least one key is required in a group_by operation".to_owned(),
            ),
            LowerError::Polars(_) => None,
        }
    }
}

} // verus!
