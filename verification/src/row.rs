//! Rows and their schemas.

use vstd::prelude::*;
use vstd::string::StringExecFns;
use vstd::utf8::encode_utf8;
use crate::error::DbError;
use crate::lines::chars_of;
use crate::text::{append_decimal, same_text};
use crate::value::{Data, Value};
use crate::views::{positions, texts, values_of};

verus! {

broadcast use crate::views::group_row_views;

/// The ordered column names of a row.
#[derive(Debug)]
pub struct RowSchema {
    column_names: Vec<String>,
}

impl View for RowSchema {
    type V = Seq<Seq<char>>;

    closed spec fn view(&self) -> Seq<Seq<char>> {
        texts(self.column_names@)
    }
}

/// Copies a list of strings.
pub fn clone_names(names: &[String]) -> (r: Vec<String>)
    ensures
        texts(r@) == texts(names@),
{
    let mut out: Vec<String> = Vec::new();
    let mut i: usize = 0;
    while i < names.len()
        invariant
            i <= names@.len(),
            texts(out@) == texts(names@).take(i as int),
        decreases names@.len() - i,
    {
        out.push(names[i].clone());
        i = i + 1;
        assert(texts(out@) =~= texts(names@).take(i as int));
    }
    assert(texts(names@).take(i as int) =~= texts(names@));
    out
}

impl Clone for RowSchema {
    fn clone(&self) -> (r: RowSchema)
        ensures
            r@ == self@,
    {
        RowSchema { column_names: clone_names(self.column_names.as_slice()) }
    }
}

/// Whether each of `names` is a column of `schema`.
pub open spec fn all_present(schema: Seq<Seq<char>>, names: Seq<Seq<char>>) -> bool {
    forall|i: int| 0 <= i < names.len() ==> schema.contains(#[trigger] names[i])
}

/// The first of `names` that `schema` does not hold.
pub open spec fn first_missing(schema: Seq<Seq<char>>, names: Seq<Seq<char>>) -> Seq<char>
    decreases names.len(),
{
    if names.len() == 0 {
        Seq::empty()
    } else if !schema.contains(names[0]) {
        names[0]
    } else {
        first_missing(schema, names.drop_first())
    }
}

/// The position of the first column named `name`.
pub open spec fn column_position(schema: Seq<Seq<char>>, name: Seq<char>) -> int {
    schema.index_of_first(name)->0
}

/// What `column_position` is: a column with that name, with no such column before it.
pub proof fn column_position_is_first(schema: Seq<Seq<char>>, name: Seq<char>)
    requires
        schema.contains(name),
    ensures
        0 <= column_position(schema, name) < schema.len(),
        schema[column_position(schema, name)] == name,
        forall|j: int| 0 <= j < column_position(schema, name) ==> schema[j] != name,
{
    schema.index_of_first_ensures(name);
}

/// A first occurrence is where `column_position` points.
pub proof fn column_position_unique(schema: Seq<Seq<char>>, name: Seq<char>, at: int)
    requires
        0 <= at < schema.len(),
        schema[at] == name,
        forall|j: int| 0 <= j < at ==> schema[j] != name,
    ensures
        schema.contains(name),
        column_position(schema, name) == at,
{
    schema.index_of_first_ensures(name);
}

impl RowSchema {
    pub fn new(column_names: Vec<String>) -> (r: RowSchema)
        ensures
            r@ == texts(column_names@),
    {
        RowSchema { column_names }
    }

    pub fn len(&self) -> (r: usize)
        ensures
            r == self@.len(),
    {
        self.column_names.len()
    }

    pub fn is_empty(&self) -> (r: bool)
        ensures
            r == (self@.len() == 0),
    {
        self.column_names.len() == 0
    }

    pub fn column_names(&self) -> (r: &[String])
        ensures
            texts(r@) == self@,
    {
        self.column_names.as_slice()
    }

    /// The position of the first column with the given name.
    pub fn index_of(&self, column_name: &str) -> (r: Option<usize>)
        ensures
            r is Some <==> self@.contains(column_name@),
            r is Some ==> r->0 < self@.len() && r->0 as int == column_position(
                self@,
                column_name@,
            ),
    {
        let mut i: usize = 0;
        while i < self.column_names.len()
            invariant
                i <= self.column_names@.len(),
                forall|j: int| 0 <= j < i ==> self@[j] != column_name@,
            decreases self.column_names@.len() - i,
        {
            if same_text(self.column_names[i].as_str(), column_name) {
                proof {
                    assert(self@[i as int] == column_name@);
                    column_position_unique(self@, column_name@, i as int);
                }
                return Some(i);
            }
            i = i + 1;
        }
        None
    }

    /// As `index_of`, with an error for a missing column.
    pub fn require_index(&self, column_name: &str) -> (r: Result<usize, DbError>)
        ensures
            r is Ok <==> self@.contains(column_name@),
            r is Ok ==> r->Ok_0 < self@.len() && r->Ok_0 as int == column_position(
                self@,
                column_name@,
            ),
            r matches Err(e) ==> e matches DbError::ColumnNotFound(c) && c@ == column_name@,
    {
        match self.index_of(column_name) {
            Some(i) => Ok(i),
            None => Err(DbError::ColumnNotFound(column_name.to_owned())),
        }
    }

    pub fn contains(&self, column_name: &str) -> (r: bool)
        ensures
            r == self@.contains(column_name@),
    {
        self.index_of(column_name).is_some()
    }

    pub fn push_column(&mut self, column_name: String)
        ensures
            final(self)@ == old(self)@.push(column_name@),
    {
        let ghost before = self@;
        self.column_names.push(column_name);
        assert(self@ =~= before.push(column_name@));
    }

    /// The schema of the selected columns; an error names the first that is missing.
    pub fn project(&self, selected_columns: &[String]) -> (r: Result<RowSchema, DbError>)
        ensures
            r is Ok <==> all_present(self@, texts(selected_columns@)),
            r matches Ok(s) ==> s@ == texts(selected_columns@),
            r matches Err(e) ==> e matches DbError::ColumnNotFound(c) && c@ == first_missing(
                self@,
                texts(selected_columns@),
            ),
    {
        let mut i: usize = 0;
        let ghost wanted = texts(selected_columns@);
        assert(wanted.skip(0) =~= wanted);
        while i < selected_columns.len()
            invariant
                i <= selected_columns@.len(),
                wanted == texts(selected_columns@),
                forall|j: int| 0 <= j < i ==> self@.contains(#[trigger] wanted[j]),
                first_missing(self@, wanted) == first_missing(self@, wanted.skip(i as int)),
            decreases selected_columns@.len() - i,
        {
            assert(wanted[i as int] == selected_columns@[i as int]@);
            assert(wanted.skip(i as int)[0] == wanted[i as int]);
            match self.require_index(selected_columns[i].as_str()) {
                Ok(_) => {},
                Err(e) => {
                    return Err(e);
                },
            }
            assert(wanted.skip(i as int).drop_first() =~= wanted.skip(i + 1));
            i = i + 1;
        }
        Ok(RowSchema::new(clone_names(selected_columns)))
    }

    /// The columns of one schema followed by those of another.
    pub fn merge(left: &RowSchema, right: &RowSchema) -> (r: RowSchema)
        ensures
            r@ == left@ + right@,
    {
        let mut cols = clone_names(left.column_names.as_slice());
        let mut more = clone_names(right.column_names.as_slice());
        let ghost a = cols@;
        let ghost b = more@;
        cols.append(&mut more);
        assert(texts(a + b) =~= texts(a) + texts(b));
        RowSchema::new(cols)
    }
}

/// A tuple of values.
#[derive(Debug)]
pub struct Row {
    values: Vec<Data>,
}

impl View for Row {
    type V = Seq<Value>;

    closed spec fn view(&self) -> Seq<Value> {
        values_of(self.values@)
    }
}

fn clone_values(values: &[Data]) -> (r: Vec<Data>)
    ensures
        values_of(r@) == values_of(values@),
{
    let mut out: Vec<Data> = Vec::new();
    let mut i: usize = 0;
    while i < values.len()
        invariant
            i <= values@.len(),
            values_of(out@) == values_of(values@).take(i as int),
        decreases values@.len() - i,
    {
        out.push(values[i].clone());
        i = i + 1;
        assert(values_of(out@) =~= values_of(values@).take(i as int));
    }
    assert(values_of(values@).take(i as int) =~= values_of(values@));
    out
}

impl Clone for Row {
    fn clone(&self) -> (r: Row)
        ensures
            r@ == self@,
    {
        Row { values: clone_values(self.values.as_slice()) }
    }
}

/// The values of `row` at the given positions.
pub open spec fn pick(row: Seq<Value>, at: Seq<int>) -> Seq<Value> {
    at.map_values(|i: int| row[i])
}

/// Whether all of `at` are positions of a row of length `len`.
pub open spec fn in_bounds(at: Seq<int>, len: int) -> bool {
    forall|i: int| 0 <= i < at.len() ==> 0 <= #[trigger] at[i] < len
}

/// The first of `at` that is no position of a row of length `len`.
pub open spec fn first_out_of_bounds(at: Seq<int>, len: int) -> int
    decreases at.len(),
{
    if at.len() == 0 {
        0
    } else if !(0 <= at[0] < len) {
        at[0]
    } else {
        first_out_of_bounds(at.drop_first(), len)
    }
}

/// The positions of the named columns.
pub open spec fn column_positions(schema: Seq<Seq<char>>, names: Seq<Seq<char>>) -> Seq<int> {
    names.map_values(|n: Seq<char>| column_position(schema, n))
}

/// How a floating-point number reads, from its decimal notation: a whole number gets a `.0`.
pub open spec fn float_reading(t: Seq<char>) -> Seq<char> {
    if t.contains('.') || t.contains('e') || t.contains('E') {
        t
    } else {
        t + ".0"@
    }
}

/// How a value reads; `float_text` is the decimal notation of a floating-point number.
pub open spec fn value_text(v: Value, float_text: Seq<char>) -> Seq<char> {
    match v {
        Value::Int32(n) => crate::text::decimal(n as int),
        Value::Int64(n) => crate::text::decimal(n as int),
        Value::Float32(_) => float_reading(float_text),
        Value::Float64(_) => float_reading(float_text),
        Value::Str(s) => s,
    }
}

/// The values of a row, each followed by a bar.
pub open spec fn barred_text(row: Seq<Value>, float_texts: Seq<Seq<char>>) -> Seq<char>
    decreases row.len(),
{
    if row.len() == 0 {
        Seq::empty()
    } else {
        barred_text(row.drop_last(), float_texts) + value_text(
            row.last(),
            float_texts[row.len() - 1],
        ) + seq!['|']
    }
}

/// The output line of a row.
pub open spec fn pipe_text(row: Seq<Value>, float_texts: Seq<Seq<char>>) -> Seq<char> {
    barred_text(row, float_texts) + seq!['\n']
}

/// The bytes that a row of `columns` values takes, with strings of the given capacities: the
/// row itself, its values, the capacities, and sixteen bytes for each heap block.
pub open spec fn heap_size(columns: nat, capacities: Seq<usize>) -> nat {
    vstd::layout::size_of::<Row>() + columns * vstd::layout::size_of::<Data>() + 16
        + capacity_sum(capacities)
}

/// The string part of `heap_size`.
pub open spec fn capacity_sum(capacities: Seq<usize>) -> nat
    decreases capacities.len(),
{
    if capacities.len() == 0 {
        0
    } else {
        capacity_sum(capacities.drop_last()) + capacities.last() as nat + 16
    }
}

/// The lengths in bytes of the strings of a row, in order.
pub open spec fn string_lengths(row: Seq<Value>) -> Seq<nat>
    decreases row.len(),
{
    if row.len() == 0 {
        Seq::empty()
    } else {
        let before = string_lengths(row.drop_last());
        match row.last() {
            Value::Str(s) => before.push(encode_utf8(s).len()),
            _ => before,
        }
    }
}

/// Calls `String::capacity`, which tells how many bytes the string's buffer holds; that is at
/// least the length of the text. Nothing more is claimed: the allocator decides.
#[verifier::external_body]
pub(crate) fn string_capacity(s: &String) -> (r: usize)
    ensures
        r >= encode_utf8(s@).len(),
{
    s.capacity()
}

/// The saturating size of a row, from the number of its values and the capacities of its
/// strings.
pub fn heap_size_of(columns: usize, capacities: &[usize]) -> (r: usize)
    ensures
        r == (if heap_size(columns as nat, capacities@) > usize::MAX {
            usize::MAX as nat
        } else {
            heap_size(columns as nat, capacities@)
        }),
{
    let row_size: usize = core::mem::size_of::<Row>();
    let data_size: usize = core::mem::size_of::<Data>();
    let body: usize = match columns.checked_mul(data_size) {
        Some(n) => n,
        None => usize::MAX,
    };
    let mut total: usize = row_size.saturating_add(body).saturating_add(16);
    let mut i: usize = 0;
    assert(capacities@.take(0) =~= Seq::<usize>::empty());
    while i < capacities.len()
        invariant
            i <= capacities@.len(),
            ({
                let exact = heap_size(columns as nat, capacities@.take(i as int));
                total == (if exact > usize::MAX {
                    usize::MAX as nat
                } else {
                    exact
                })
            }),
        decreases capacities@.len() - i,
    {
        assert(capacities@.take(i + 1).drop_last() =~= capacities@.take(i as int));
        total = total.saturating_add(capacities[i]).saturating_add(16);
        i = i + 1;
    }
    assert(capacities@.take(i as int) =~= capacities@);
    total
}

impl Row {
    pub fn new(values: Vec<Data>) -> (r: Row)
        ensures
            r@ == values_of(values@),
    {
        Row { values }
    }

    pub fn len(&self) -> (r: usize)
        ensures
            r == self@.len(),
    {
        self.values.len()
    }

    pub fn is_empty(&self) -> (r: bool)
        ensures
            r == (self@.len() == 0),
    {
        self.values.len() == 0
    }

    pub fn values(&self) -> (r: &[Data])
        ensures
            values_of(r@) == self@,
    {
        self.values.as_slice()
    }

    pub fn into_values(self) -> (r: Vec<Data>)
        ensures
            values_of(r@) == self@,
    {
        self.values
    }

    pub fn get(&self, idx: usize) -> (r: Option<&Data>)
        ensures
            r is Some <==> idx < self@.len(),
            r is Some ==> (r->0)@ == self@[idx as int],
    {
        if idx < self.values.len() {
            Some(&self.values[idx])
        } else {
            None
        }
    }

    /// As `get`, with an error for a position past the end.
    pub fn require(&self, idx: usize) -> (r: Result<&Data, DbError>)
        ensures
            r is Ok <==> idx < self@.len(),
            r is Ok ==> (r->Ok_0)@ == self@[idx as int],
            r is Err ==> r->Err_0 == DbError::RowIndexOutOfBounds(idx),
    {
        match self.get(idx) {
            Some(d) => Ok(d),
            None => Err(DbError::RowIndexOutOfBounds(idx)),
        }
    }

    pub fn get_by_name<'a>(&'a self, schema: &RowSchema, column_name: &str) -> (r: Result<
        &'a Data,
        DbError,
    >)
        ensures
            r is Ok <==> schema@.contains(column_name@) && column_position(schema@, column_name@)
                < self@.len(),
            r is Ok ==> (r->Ok_0)@ == self@[column_position(schema@, column_name@)],
            r matches Err(e) ==> if schema@.contains(column_name@) {
                e matches DbError::RowIndexOutOfBounds(i) && i as int == column_position(
                    schema@,
                    column_name@,
                )
            } else {
                e matches DbError::ColumnNotFound(c) && c@ == column_name@
            },
    {
        match schema.require_index(column_name) {
            Ok(idx) => self.require(idx),
            Err(e) => Err(e),
        }
    }

    /// The values at the given positions; an error names the first position past the end.
    pub fn project_by_indices(&self, indices: &[usize]) -> (r: Result<Row, DbError>)
        ensures
            r is Ok <==> in_bounds(positions(indices@), self@.len() as int),
            r matches Ok(p) ==> p@ == pick(self@, positions(indices@)),
            r matches Err(e) ==> e matches DbError::RowIndexOutOfBounds(i) && i as int
                == first_out_of_bounds(positions(indices@), self@.len() as int),
    {
        let ghost at = positions(indices@);
        let mut out: Vec<Data> = Vec::new();
        let mut i: usize = 0;
        assert(at.skip(0) =~= at);
        while i < indices.len()
            invariant
                i <= indices@.len(),
                at == positions(indices@),
                values_of(out@) == pick(self@, at.take(i as int)),
                forall|j: int| 0 <= j < i ==> 0 <= #[trigger] at[j] < self@.len(),
                first_out_of_bounds(at, self@.len() as int) == first_out_of_bounds(
                    at.skip(i as int),
                    self@.len() as int,
                ),
            decreases indices@.len() - i,
        {
            assert(at.skip(i as int)[0] == at[i as int]);
            assert(at[i as int] == indices@[i as int]);
            match self.require(indices[i]) {
                Ok(d) => {
                    out.push(d.clone());
                },
                Err(e) => {
                    return Err(e);
                },
            }
            assert(at.skip(i as int).drop_first() =~= at.skip(i + 1));
            i = i + 1;
            assert(values_of(out@) =~= pick(self@, at.take(i as int)));
        }
        assert(at.take(i as int) =~= at);
        Ok(Row::new(out))
    }

    /// As `project_by_indices`, on a row that is given up: values are moved where the positions
    /// ascend, and the row is handed back where they select all of it in order.
    pub fn project_by_indices_owned(self, indices: &[usize]) -> (r: Result<Row, DbError>)
        ensures
            r is Ok <==> in_bounds(positions(indices@), self@.len() as int),
            r matches Ok(p) ==> p@ == pick(self@, positions(indices@)),
            r matches Err(e) ==> e matches DbError::RowIndexOutOfBounds(i) && i as int
                == first_out_of_bounds(positions(indices@), self@.len() as int),
    {
        let ghost at = positions(indices@);
        let mut identity = indices.len() == self.values.len();
        let mut i: usize = 0;
        while i < indices.len() && identity
            invariant
                i <= indices@.len(),
                identity ==> indices@.len() == self@.len(),
                identity ==> forall|j: int| 0 <= j < i ==> indices@[j] == j,
            decreases indices@.len() - i,
        {
            if indices[i] != i {
                identity = false;
            }
            i = i + 1;
        }
        if identity {
            proof {
                assert(self@.len() == self.values@.len());
                assert forall|j: int| 0 <= j < at.len() implies 0 <= #[trigger] at[j]
                    < self@.len() by {
                    assert(at[j] == indices@[j]);
                }
                assert(pick(self@, at) =~= self@);
            }
            return Ok(self);
        }
        self.project_by_indices(indices)
    }

    /// The values of the named columns. An error names the first column that is missing, else
    /// the first position past the end of the row.
    pub fn project_by_names(&self, schema: &RowSchema, column_names: &[String]) -> (r: Result<
        Row,
        DbError,
    >)
        ensures
            r is Ok <==> all_present(schema@, texts(column_names@)) && in_bounds(
                column_positions(schema@, texts(column_names@)),
                self@.len() as int,
            ),
            r matches Ok(p) ==> p@ == pick(
                self@,
                column_positions(schema@, texts(column_names@)),
            ),
            r matches Err(e) ==> if all_present(schema@, texts(column_names@)) {
                e matches DbError::RowIndexOutOfBounds(i) && i as int == first_out_of_bounds(
                    column_positions(schema@, texts(column_names@)),
                    self@.len() as int,
                )
            } else {
                e matches DbError::ColumnNotFound(c) && c@ == first_missing(
                    schema@,
                    texts(column_names@),
                )
            },
    {
        match resolve_columns(schema, column_names) {
            Ok(indices) => self.project_by_indices(indices.as_slice()),
            Err(e) => Err(e),
        }
    }

    /// The values of one row followed by those of another.
    pub fn merge(left: &Row, right: &Row) -> (r: Row)
        ensures
            r@ == left@ + right@,
    {
        let mut vals = clone_values(left.values.as_slice());
        let mut more = clone_values(right.values.as_slice());
        let ghost a = vals@;
        let ghost b = more@;
        vals.append(&mut more);
        assert(values_of(a + b) =~= values_of(a) + values_of(b));
        Row::new(vals)
    }

    /// Appends the output line of the row. `float_texts` tells, for each position that holds a
    /// floating-point number, how that number reads.
    pub fn append_pipe_to(&self, float_texts: &[String], out: &mut String)
        requires
            float_texts@.len() == self@.len(),
        ensures
            final(out)@ == old(out)@ + pipe_text(self@, texts(float_texts@)),
    {
        let ghost before = out@;
        let ghost ft = texts(float_texts@);
        let mut i: usize = 0;
        proof {
            reveal_strlit("|");
            reveal_strlit("\n");
            assert(self@.take(0) =~= Seq::<Value>::empty());
            assert(out@ =~= before + barred_text(self@.take(0), ft));
        }
        while i < self.values.len()
            invariant
                i <= self.values@.len(),
                self@ == values_of(self.values@),
                float_texts@.len() == self@.len(),
                ft == texts(float_texts@),
                "|"@ == seq!['|'],
                out@ == before + barred_text(self@.take(i as int), ft),
            decreases self.values@.len() - i,
        {
            let ghost so_far = out@;
            append_value(&self.values[i], float_texts[i].as_str(), out);
            out.append("|");
            proof {
                let head = self@.take(i + 1);
                assert(head.drop_last() =~= self@.take(i as int));
                assert(head.last() == self.values@[i as int]@);
                assert(ft[i as int] == float_texts@[i as int]@);
                assert(out@ =~= before + barred_text(head, ft));
            }
            i = i + 1;
        }
        out.append("\n");
        proof {
            assert(self@.take(i as int) =~= self@);
            assert("\n"@ =~= seq!['\n']);
            assert(out@ =~= before + pipe_text(self@, ft));
        }
    }

    /// The output line of the row; see `append_pipe_to`.
    pub fn to_pipe_string(&self, float_texts: &[String]) -> (r: String)
        requires
            float_texts@.len() == self@.len(),
        ensures
            r@ == pipe_text(self@, texts(float_texts@)),
    {
        let mut out = String::new();
        self.append_pipe_to(float_texts, &mut out);
        assert(out@ =~= pipe_text(self@, texts(float_texts@)));
        out
    }

    pub fn validate_against_schema(&self, schema: &RowSchema) -> (r: Result<(), DbError>)
        ensures
            r is Ok <==> self@.len() == schema@.len(),
            r matches Err(e) ==> e matches DbError::RowSchemaMismatch(n, m) && n == self@.len() && m
                == schema@.len(),
    {
        let n = self.len();
        let m = schema.len();
        if n != m {
            return Err(DbError::RowSchemaMismatch(n, m));
        }
        Ok(())
    }

    /// An estimate of the memory that the row takes. It follows `heap_size` for the capacities
    /// that the strings happen to have, each at least the length of its text.
    pub fn estimate_heap_size(&self) -> (r: usize)
        ensures
            exists|caps: Seq<usize>|
                caps.len() == string_lengths(self@).len() && (forall|i: int|
                    0 <= i < caps.len() ==> #[trigger] caps[i] as nat >= string_lengths(
                        self@,
                    )[i]) && r == (if #[trigger] heap_size(self@.len(), caps) > usize::MAX {
                    usize::MAX as nat
                } else {
                    heap_size(self@.len(), caps)
                }),
    {
        let mut capacities: Vec<usize> = Vec::new();
        let mut i: usize = 0;
        assert(self@.take(0) =~= Seq::<Value>::empty());
        while i < self.values.len()
            invariant
                i <= self.values@.len(),
                self@ == values_of(self.values@),
                capacities@.len() == string_lengths(self@.take(i as int)).len(),
                forall|j: int|
                    0 <= j < capacities@.len() ==> #[trigger] capacities@[j] as nat
                        >= string_lengths(self@.take(i as int))[j],
            decreases self.values@.len() - i,
        {
            proof {
                assert(self@.take(i + 1).drop_last() =~= self@.take(i as int));
                assert(self@.take(i + 1).last() == self.values@[i as int]@);
            }
            if let Data::String(s) = &self.values[i] {
                capacities.push(string_capacity(s));
            }
            i = i + 1;
        }
        assert(self@.take(i as int) =~= self@);
        let size = heap_size_of(self.values.len(), capacities.as_slice());
        assert(heap_size(self@.len(), capacities@) >= 0);
        size
    }
}

/// The positions of the named columns; an error names the first that is missing.
pub fn resolve_columns(schema: &RowSchema, column_names: &[String]) -> (r: Result<
    Vec<usize>,
    DbError,
>)
    ensures
        r is Ok <==> all_present(schema@, texts(column_names@)),
        r matches Ok(v) ==> positions(v@) == column_positions(schema@, texts(column_names@))
            && in_bounds(positions(v@), schema@.len() as int),
        r matches Err(e) ==> e matches DbError::ColumnNotFound(c) && c@ == first_missing(
            schema@,
            texts(column_names@),
        ),
{
    let ghost wanted = texts(column_names@);
    let mut indices: Vec<usize> = Vec::new();
    let mut i: usize = 0;
    assert(wanted.skip(0) =~= wanted);
    while i < column_names.len()
        invariant
            i <= column_names@.len(),
            wanted == texts(column_names@),
            positions(indices@) == column_positions(schema@, wanted.take(i as int)),
            in_bounds(positions(indices@), schema@.len() as int),
            forall|j: int| 0 <= j < i ==> schema@.contains(#[trigger] wanted[j]),
            first_missing(schema@, wanted) == first_missing(schema@, wanted.skip(i as int)),
        decreases column_names@.len() - i,
    {
        assert(wanted[i as int] == column_names@[i as int]@);
        assert(wanted.skip(i as int)[0] == wanted[i as int]);
        let ghost before = positions(indices@);
        match schema.require_index(column_names[i].as_str()) {
            Ok(idx) => {
                indices.push(idx);
                assert(positions(indices@) =~= before.push(idx as int));
            },
            Err(e) => {
                return Err(e);
            },
        }
        assert(wanted.skip(i as int).drop_first() =~= wanted.skip(i + 1));
        i = i + 1;
        assert(positions(indices@) =~= column_positions(schema@, wanted.take(i as int)));
    }
    assert(wanted.take(i as int) =~= wanted);
    Ok(indices)
}

/// Appends how a floating-point number reads.
fn append_float(float_text: &str, out: &mut String)
    ensures
        final(out)@ == old(out)@ + float_reading(float_text@),
{
    let chars = chars_of(float_text);
    let mut marked = false;
    let mut i: usize = 0;
    while i < chars.len()
        invariant
            i <= chars@.len(),
            chars@ == float_text@,
            marked <==> exists|k: int|
                0 <= k < i && (#[trigger] chars@[k] == '.' || chars@[k] == 'e' || chars@[k] == 'E'),
        decreases chars@.len() - i,
    {
        if chars[i] == '.' || chars[i] == 'e' || chars[i] == 'E' {
            marked = true;
        }
        i += 1;
    }
    let ghost t = float_text@;
    out.append(float_text);
    if !marked {
        out.append(".0");
        assert(out@ =~= old(out)@ + (t + ".0"@));
    } else {
        proof {
            let k = choose|k: int|
                0 <= k < t.len() && (#[trigger] t[k] == '.' || t[k] == 'e' || t[k] == 'E');
            assert(t.contains(t[k]));
        }
    }
}

fn append_value(data: &Data, float_text: &str, out: &mut String)
    ensures
        final(out)@ == old(out)@ + value_text(data@, float_text@),
{
    match data {
        Data::Int32(v) => append_decimal(out, *v as i64),
        Data::Int64(v) => append_decimal(out, *v),
        Data::Float32(_) => append_float(float_text, out),
        Data::Float64(_) => append_float(float_text, out),
        Data::String(v) => out.append(v.as_str()),
    }
}

/// How a value reads. `float_text` is its decimal notation where it is a floating-point number.
pub fn data_to_string(data: &Data, float_text: &str) -> (r: String)
    ensures
        r@ == value_text(data@, float_text@),
{
    let mut out = String::new();
    append_value(data, float_text, &mut out);
    assert(out@ =~= value_text(data@, float_text@));
    out
}

} // verus!
