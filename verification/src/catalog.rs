//! The tables of a database.

use vstd::prelude::*;
use crate::error::DbError;
use crate::row::RowSchema;
use crate::text::same_text;
use crate::value::DataType;
use crate::views::texts;

verus! {

broadcast use crate::views::lemma_texts_push;

/// A column of a table.
#[derive(Debug)]
pub struct ColumnSpec {
    pub column_name: String,
    pub data_type: DataType,
}

/// A table: its name, the file that holds it, and its columns.
#[derive(Debug)]
pub struct TableSpec {
    pub name: String,
    pub file_id: String,
    pub column_specs: Vec<ColumnSpec>,
}

/// The names of columns.
pub open spec fn names_of(columns: Seq<ColumnSpec>) -> Seq<Seq<char>> {
    columns.map_values(|c: ColumnSpec| c.column_name@)
}

/// The types of columns.
pub open spec fn types_of(columns: Seq<ColumnSpec>) -> Seq<DataType> {
    columns.map_values(|c: ColumnSpec| c.data_type)
}

/// Whether a table goes by this name, its own or that of its file.
pub open spec fn goes_by(table: TableSpec, id: Seq<char>) -> bool {
    table.name@ == id || table.file_id@ == id
}

/// The position of the first table that goes by a name.
pub open spec fn table_at(tables: Seq<TableSpec>, id: Seq<char>) -> Option<int>
    decreases tables.len(),
{
    if tables.len() == 0 {
        None
    } else {
        match table_at(tables.drop_last(), id) {
            Some(i) => Some(i),
            None => if goes_by(tables.last(), id) {
                Some(tables.len() - 1)
            } else {
                None
            },
        }
    }
}

/// What `table_at` is: the first table that goes by the name.
pub proof fn table_at_is_first(tables: Seq<TableSpec>, id: Seq<char>)
    ensures
        match table_at(tables, id) {
            Some(i) => {
                &&& 0 <= i < tables.len()
                &&& goes_by(tables[i], id)
                &&& forall|j: int| 0 <= j < i ==> !goes_by(#[trigger] tables[j], id)
            },
            None => forall|j: int| 0 <= j < tables.len() ==> !goes_by(#[trigger] tables[j], id),
        },
    decreases tables.len(),
{
    if tables.len() > 0 {
        let init = tables.drop_last();
        table_at_is_first(init, id);
        match table_at(init, id) {
            Some(i) => {
                assert(tables[i] == init[i]);
                assert forall|j: int| 0 <= j < i implies !goes_by(#[trigger] tables[j], id) by {
                    assert(tables[j] == init[j]);
                }
            },
            None => {
                assert forall|j: int| 0 <= j < tables.len() - 1 implies !goes_by(
                    #[trigger] tables[j],
                    id,
                ) by {
                    assert(tables[j] == init[j]);
                }
            },
        }
    }
}

/// Looks a table up by its name or by that of its file.
pub fn get_table_spec<'a>(tables: &'a [TableSpec], table_id: &str) -> (r: Result<
    &'a TableSpec,
    DbError,
>)
    ensures
        match table_at(tables@, table_id@) {
            Some(i) => 0 <= i < tables@.len() && r is Ok && *r->Ok_0 == tables@[i],
            None => r matches Err(DbError::TableNotFound(t)) && t@ == table_id@,
        },
{
    let mut i: usize = 0;
    while i < tables.len()
        invariant
            i <= tables@.len(),
            forall|j: int| 0 <= j < i ==> !goes_by(#[trigger] tables@[j], table_id@),
        decreases tables@.len() - i,
    {
        let t = &tables[i];
        if same_text(t.name.as_str(), table_id) || same_text(t.file_id.as_str(), table_id) {
            proof {
                table_at_is_first(tables@, table_id@);
                assert(goes_by(tables@[i as int], table_id@));
            }
            return Ok(t);
        }
        i += 1;
    }
    proof {
        table_at_is_first(tables@, table_id@);
    }
    Err(DbError::TableNotFound(table_id.to_owned()))
}

/// The schema of a table's rows.
pub fn schema_from_table_spec(table_spec: &TableSpec) -> (r: RowSchema)
    ensures
        r@ == names_of(table_spec.column_specs@),
{
    let mut names: Vec<String> = Vec::new();
    let mut i: usize = 0;
    while i < table_spec.column_specs.len()
        invariant
            i <= table_spec.column_specs@.len(),
            texts(names@) == names_of(table_spec.column_specs@).take(i as int),
        decreases table_spec.column_specs@.len() - i,
    {
        names.push(table_spec.column_specs[i].column_name.clone());
        i += 1;
        assert(texts(names@) =~= names_of(table_spec.column_specs@).take(i as int));
    }
    assert(names_of(table_spec.column_specs@).take(i as int) =~= names_of(
        table_spec.column_specs@,
    ));
    RowSchema::new(names)
}

/// Looks up the position of a table.
pub fn table_index(tables: &[TableSpec], table_id: &str) -> (r: Option<usize>)
    ensures
        match r {
            Some(i) => i < tables@.len() && table_at(tables@, table_id@) == Some(i as int),
            None => table_at(tables@, table_id@) is None,
        },
{
    let mut i: usize = 0;
    proof {
        table_at_is_first(tables@, table_id@);
    }
    while i < tables.len()
        invariant
            i <= tables@.len(),
            forall|j: int| 0 <= j < i ==> !goes_by(#[trigger] tables@[j], table_id@),
        decreases tables@.len() - i,
    {
        let t = &tables[i];
        if same_text(t.name.as_str(), table_id) || same_text(t.file_id.as_str(), table_id) {
            proof {
                table_at_is_first(tables@, table_id@);
                assert(goes_by(tables@[i as int], table_id@));
            }
            return Some(i);
        }
        i += 1;
    }
    None
}

} // verus!
