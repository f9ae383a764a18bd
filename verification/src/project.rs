//! Projection.

use vstd::prelude::*;
use crate::error::DbError;
use crate::row::{Row, RowSchema, all_present, column_positions, first_missing, first_out_of_bounds, in_bounds, pick};
use crate::views::{positions, texts};

verus! {

broadcast use crate::views::group_row_views;

/// The source columns of a column map.
pub open spec fn sources(map: Seq<(String, String)>) -> Seq<Seq<char>> {
    map.map_values(|p: (String, String)| p.0@)
}

/// The names that a column map gives.
pub open spec fn aliases(map: Seq<(String, String)>) -> Seq<Seq<char>> {
    map.map_values(|p: (String, String)| p.1@)
}

/// Keeps selected columns under new names.
#[derive(Debug)]
pub struct ProjectOperator {
    indices: Vec<usize>,
    schema: RowSchema,
}

impl ProjectOperator {
    pub closed spec fn positions_view(&self) -> Seq<int> {
        positions(self.indices@)
    }

    pub closed spec fn schema_view(&self) -> Seq<Seq<char>> {
        self.schema@
    }

    /// Makes a projection of an input with the given schema. An error names the first source
    /// column that is missing.
    pub fn new(input_schema: &RowSchema, column_name_map: &[(String, String)]) -> (r: Result<
        ProjectOperator,
        DbError,
    >)
        ensures
            r is Ok <==> all_present(input_schema@, sources(column_name_map@)),
            r matches Ok(p) ==> p.schema_view() == aliases(column_name_map@) && p.positions_view()
                == column_positions(input_schema@, sources(column_name_map@)) && in_bounds(
                p.positions_view(),
                input_schema@.len() as int,
            ),
            r matches Err(e) ==> e matches DbError::ColumnNotFound(c) && c@ == first_missing(
                input_schema@,
                sources(column_name_map@),
            ),
    {
        let ghost wanted = sources(column_name_map@);
        let mut indices: Vec<usize> = Vec::new();
        let mut output_columns: Vec<String> = Vec::new();
        let mut i: usize = 0;
        assert(wanted.skip(0) =~= wanted);
        while i < column_name_map.len()
            invariant
                i <= column_name_map@.len(),
                wanted == sources(column_name_map@),
                positions(indices@) == column_positions(input_schema@, wanted.take(i as int)),
                in_bounds(positions(indices@), input_schema@.len() as int),
                texts(output_columns@) == aliases(column_name_map@).take(i as int),
                forall|j: int| 0 <= j < i ==> input_schema@.contains(#[trigger] wanted[j]),
                first_missing(input_schema@, wanted) == first_missing(
                    input_schema@,
                    wanted.skip(i as int),
                ),
            decreases column_name_map@.len() - i,
        {
            assert(wanted.skip(i as int)[0] == column_name_map@[i as int].0@);
            assert(wanted[i as int] == column_name_map@[i as int].0@);
            let ghost before = positions(indices@);
            match input_schema.require_index(column_name_map[i].0.as_str()) {
                Ok(idx) => {
                    indices.push(idx);
                    assert(positions(indices@) =~= before.push(idx as int));
                },
                Err(e) => {
                    return Err(e);
                },
            }
            output_columns.push(column_name_map[i].1.clone());
            assert(wanted.skip(i as int).drop_first() =~= wanted.skip(i + 1));
            i = i + 1;
            assert(positions(indices@) =~= column_positions(input_schema@, wanted.take(i as int)));
            assert(texts(output_columns@) =~= aliases(column_name_map@).take(i as int));
        }
        assert(wanted.take(i as int) =~= wanted);
        assert(aliases(column_name_map@).take(i as int) =~= aliases(column_name_map@));
        Ok(ProjectOperator { indices, schema: RowSchema::new(output_columns) })
    }

    pub fn schema(&self) -> (r: &RowSchema)
        ensures
            r@ == self.schema_view(),
    {
        &self.schema
    }

    /// Projects the row that the input handed over; `None` stands for the end of the input.
    pub fn offer(&self, pulled: Option<Row>) -> (r: Result<Option<Row>, DbError>)
        ensures
            match pulled {
                None => r is Ok && r->Ok_0 is None,
                Some(row) => {
                    &&& r is Ok <==> in_bounds(self.positions_view(), row@.len() as int)
                    &&& r matches Ok(o) ==> o matches Some(out) && out@ == pick(
                        row@,
                        self.positions_view(),
                    )
                    &&& r matches Err(e) ==> e matches DbError::RowIndexOutOfBounds(i) && i as int
                        == first_out_of_bounds(self.positions_view(), row@.len() as int)
                },
            },
    {
        match pulled {
            None => Ok(None),
            Some(row) => match row.project_by_indices_owned(self.indices.as_slice()) {
                Ok(out) => Ok(Some(out)),
                Err(e) => Err(e),
            },
        }
    }
}

} // verus!
