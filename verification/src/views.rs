//! Views of lists, element by element.

use vstd::prelude::*;
use crate::row::Row;
use crate::value::{Data, Value};

verus! {

/// The texts of a sequence of strings.
pub open spec fn texts(names: Seq<String>) -> Seq<Seq<char>> {
    names.map_values(|s: String| s@)
}

/// The values of a sequence of data.
pub open spec fn values_of(data: Seq<Data>) -> Seq<Value> {
    data.map_values(|d: Data| d@)
}

/// The views of a sequence of rows.
pub open spec fn rows_of(rows: Seq<Row>) -> Seq<Seq<Value>> {
    rows.map_values(|r: Row| r@)
}

/// The positions in a sequence of indices.
pub open spec fn positions(indices: Seq<usize>) -> Seq<int> {
    indices.map_values(|i: usize| i as int)
}

pub broadcast proof fn lemma_texts_push(names: Seq<String>, s: String)
    ensures
        #[trigger] texts(names.push(s)) == texts(names).push(s@),
{
    assert(texts(names.push(s)) =~= texts(names).push(s@));
}

pub broadcast proof fn lemma_values_of_push(data: Seq<Data>, d: Data)
    ensures
        #[trigger] values_of(data.push(d)) == values_of(data).push(d@),
{
    assert(values_of(data.push(d)) =~= values_of(data).push(d@));
}

pub broadcast proof fn lemma_rows_of_push(rows: Seq<Row>, r: Row)
    ensures
        #[trigger] rows_of(rows.push(r)) == rows_of(rows).push(r@),
{
    assert(rows_of(rows.push(r)) =~= rows_of(rows).push(r@));
}

pub broadcast group group_row_views {
    lemma_texts_push,
    lemma_values_of_push,
}

} // verus!
