//! The pieces of a physical plan that more than one operation is lowered to.

use crate::ir::{clone_exprs, AExpr, AExprKind, ExprIR, OutputName};
use crate::model::{by_name, column, column_exprs, entry_exprs, slice_node, stacked, with_columns};
use crate::phys::{complete, lemma_complete, PhysNode, PhysNodeKey, PhysNodeKind, PhysNodeKindView,
    PhysNodeView, PhysNodes, MAX_PHYS_NODES};
use crate::schema::{names_of, schema_names};
use crate::store::{add_expr, expr_items, index_map_insert, index_map_into_values, index_map_new,
    selector_entries};
use polars_utils::arena::Arena;
use vstd::prelude::*;

verus! {

/// Adds a node that keeps `length` rows of its input from `offset` on. Offsets that count from the
/// end are not supported.
pub fn build_slice_node(
    input: PhysNodeKey,
    offset: i64,
    length: usize,
    phys_sm: &mut PhysNodes,
) -> (key: PhysNodeKey)
    requires
        offset >= 0,
        old(phys_sm)@.contains_key(input),
        old(phys_sm)@.dom().len() < MAX_PHYS_NODES,
    ensures
        !old(phys_sm)@.contains_key(key),
        final(phys_sm)@ == old(phys_sm)@.insert(
            key,
            slice_node(input, offset, length, old(phys_sm)@[input].output_schema),
        ),
        complete(old(phys_sm)@) ==> complete(final(phys_sm)@),
{
    let ghost before = phys_sm@;
    let schema = phys_sm.get(input).output_schema.clone();
    let offset: usize = offset as usize;
    let key = phys_sm.insert(
        PhysNode::new(schema, PhysNodeKind::StreamingSlice { input, offset, length }),
    );
    proof {
        if complete(before) {
            lemma_complete(before, key, phys_sm@[key]);
        }
    }
    key
}

/// Adds an arena node for each of some columns, and returns the columns as expressions.
pub fn add_columns(names: &Vec<String>, expr_arena: &mut Arena<AExpr>) -> (exprs: Vec<ExprIR>)
    ensures
        exprs@ == column_exprs(names@, expr_items(*old(expr_arena)).len()),
        expr_items(*final(expr_arena)) == with_columns(expr_items(*old(expr_arena)), names@),
{
    let mut exprs: Vec<ExprIR> = Vec::new();
    let ghost before = expr_items(*expr_arena);
    assert(before == with_columns(before, names@.take(0)));
    for i in 0..names.len()
        invariant
            before == expr_items(*old(expr_arena)),
            exprs@ == column_exprs(names@.take(i as int), before.len()),
            expr_items(*expr_arena) == with_columns(before, names@.take(i as int)),
    {
        let name = names[i].clone();
        let expr = AExpr {
            kind: AExprKind::Column(name.clone()),
            output_name: OutputName::ColumnLhs(name.clone()),
        };
        let node = add_expr(expr_arena, expr);
        exprs.push(ExprIR { node, output_name: OutputName::ColumnLhs(name) });
        assert(with_columns(before, names@.take(i + 1)) == with_columns(
            before,
            names@.take(i as int),
        ).push(column(names@[i as int])));
        assert(exprs@ == column_exprs(names@.take(i + 1), before.len()));
    }
    assert(names@.take(names@.len() as int) == names@);
    exprs
}

/// The columns of a node and then a predicate, as one list of expressions to lower. All columns are
/// in it so that none is lost when the input is replaced.
pub fn filter_exprs(
    input: PhysNodeKey,
    predicate: &ExprIR,
    expr_arena: &mut Arena<AExpr>,
    phys_sm: &PhysNodes,
) -> (cols_and_predicate: Vec<ExprIR>)
    requires
        phys_sm@.contains_key(input),
    ensures
        cols_and_predicate@ == column_exprs(
            names_of(phys_sm@[input].output_schema),
            expr_items(*old(expr_arena)).len(),
        ).push(*predicate),
        expr_items(*final(expr_arena)) == with_columns(
            expr_items(*old(expr_arena)),
            names_of(phys_sm@[input].output_schema),
        ),
{
    let names = schema_names(&phys_sm.get(input).output_schema);
    let mut cols_and_predicate = add_columns(&names, expr_arena);
    cols_and_predicate.push(predicate.clone());
    cols_and_predicate
}

/// Adds a node that lets rows of its input through by the last of the lowered expressions. The
/// others are what is to be selected from it, and are returned with its key.
pub fn build_filter_node(
    trans_input: PhysNodeKey,
    trans_cols_and_predicate: Vec<ExprIR>,
    phys_sm: &mut PhysNodes,
) -> (filtered: (PhysNodeKey, Vec<ExprIR>))
    requires
        trans_cols_and_predicate@.len() > 0,
        old(phys_sm)@.contains_key(trans_input),
        old(phys_sm)@.dom().len() < MAX_PHYS_NODES,
    ensures
        !old(phys_sm)@.contains_key(filtered.0),
        final(phys_sm)@ == old(phys_sm)@.insert(
            filtered.0,
            PhysNodeView {
                output_schema: old(phys_sm)@[trans_input].output_schema,
                kind: PhysNodeKindView::Filter {
                    input: trans_input,
                    predicate: trans_cols_and_predicate@.last(),
                },
            },
        ),
        filtered.1@ == trans_cols_and_predicate@.drop_last(),
        complete(old(phys_sm)@) ==> complete(final(phys_sm)@),
{
    let ghost before = phys_sm@;
    let mut cols = trans_cols_and_predicate;
    let predicate = cols[cols.len() - 1].clone();
    let filter_schema = phys_sm.get(trans_input).output_schema.clone();
    let post_filter = phys_sm.insert(
        PhysNode::new(filter_schema, PhysNodeKind::Filter { input: trans_input, predicate }),
    );
    cols.pop();
    proof {
        if complete(before) {
            lemma_complete(before, post_filter, phys_sm@[post_filter]);
        }
    }
    (post_filter, cols)
}

/// Adds arena nodes for the columns of an input, and returns what to select in place of adding
/// `exprs` to it: the columns, with an added expression in the place of the column that it
/// replaces, and the other added expressions behind them.
pub fn stack_exprs(
    input: PhysNodeKey,
    exprs: &Vec<ExprIR>,
    expr_arena: &mut Arena<AExpr>,
    phys_sm: &PhysNodes,
) -> (selectors: Vec<ExprIR>)
    requires
        phys_sm@.contains_key(input),
        forall|i: int| 0 <= i < exprs@.len() ==> (#[trigger] exprs@[i]).output_name.name() is Some,
    ensures
        selectors@ == stacked(
            names_of(phys_sm@[input].output_schema),
            expr_items(*old(expr_arena)).len(),
            exprs@,
        ),
        expr_items(*final(expr_arena)) == with_columns(
            expr_items(*old(expr_arena)),
            names_of(phys_sm@[input].output_schema),
        ),
{
    let names = schema_names(&phys_sm.get(input).output_schema);
    let mut all = add_columns(&names, expr_arena);
    let ghost columns = all@;
    let mut added = clone_exprs(exprs);
    all.append(&mut added);
    assert(all@ == columns + exprs@);
    let mut selectors = index_map_new();
    let count = all.len();
    for i in 0..count
        invariant
            count == all@.len(),
            all@ == columns + exprs@,
            forall|j: int| 0 <= j < all@.len() ==> (#[trigger] all@[j]).output_name.name() is Some,
            selector_entries(selectors) == by_name(all@.take(i as int)),
    {
        assert(all@[i as int].output_name.name() is Some);
        if let Some(name) = all[i].output_name.get() {
            index_map_insert(&mut selectors, name, all[i].clone());
        }
        assert(all@.take(i + 1).drop_last() == all@.take(i as int));
    }
    assert(all@.take(count as int) == all@);
    let selectors = index_map_into_values(selectors);
    assert(selectors@ == entry_exprs(by_name(all@)));
    selectors
}

} // verus!
