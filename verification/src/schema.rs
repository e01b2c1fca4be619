//! Schemas: the columns of a table, in order, by name and type.

use polars_core::prelude::DataType;
use polars_core::schema::Schema;
use vstd::prelude::*;

verus! {

/// The type of a column, which lowering only carries along.
#[verifier::external_type_specification]
#[verifier::external_body]
pub struct ExDataType(DataType);

/// `polars_schema::Schema`, of which `polars_core::schema::Schema` is the case with column types.
#[verifier::external_type_specification]
#[verifier::external_body]
#[verifier::reject_recursive_types(D)]
pub struct ExSchema<D>(polars_schema::Schema<D>);

/// What a schema holds: the name and type of each column, in order.
pub uninterp spec fn schema_fields(schema: Schema) -> Seq<(String, DataType)>;

/// The names among some columns.
pub open spec fn names_of(fields: Seq<(String, DataType)>) -> Seq<String> {
    Seq::new(fields.len(), |i: int| fields[i].0)
}

/// Whether two lists of names read the same.
pub open spec fn same_names(a: Seq<String>, b: Seq<String>) -> bool {
    a.len() == b.len() && forall|i: int| 0 <= i < a.len() ==> #[trigger] a[i]@ == b[i]@
}

/// `polars_schema::Schema::iter_names_cloned`, collected: the names of the columns, in order.
#[verifier::external_body]
pub(crate) fn schema_names(schema: &Schema) -> (names: Vec<String>)
    ensures
        names@ == names_of(schema_fields(*schema)),
{
    schema.iter_names_cloned().map(|name| name.into_string()).collect()
}

/// `Clone::clone` of a schema: the copy holds the same columns in the same order.
#[verifier::external_body]
pub(crate) fn clone_schema(schema: &Schema) -> (copy: Schema)
    ensures
        schema_fields(copy) == schema_fields(*schema),
{
    schema.clone()
}

/// `polars_schema::Schema::shift_remove_index`: takes out the column at `index` and hands it back;
/// the others keep their order. Past the end nothing is taken out.
#[verifier::external_body]
pub(crate) fn shift_remove_index(
    schema: &mut Schema,
    index: usize,
) -> (field: Option<(String, DataType)>)
    ensures
        index < schema_fields(*old(schema)).len() ==> {
            &&& field == Some(schema_fields(*old(schema))[index as int])
            &&& schema_fields(*final(schema)) == schema_fields(*old(schema)).remove(index as int)
        },
        index >= schema_fields(*old(schema)).len() ==> {
            &&& field is None
            &&& schema_fields(*final(schema)) == schema_fields(*old(schema))
        },
{
    schema.shift_remove_index(index).map(|(name, dtype)| (name.into_string(), dtype))
}

/// Compares two lists of names.
pub fn names_agree(a: &Vec<String>, b: &Vec<String>) -> (agree: bool)
    ensures
        agree == same_names(a@, b@),
{
    if a.len() != b.len() {
        return false;
    }
    for i in 0..a.len()
        invariant
            a@.len() == b@.len(),
            forall|j: int| 0 <= j < i ==> #[trigger] a@[j]@ == b@[j]@,
    {
        if a[i] != b[i] {
            return false;
        }
    }
    true
}

} // verus!
