//! Statistics of tables, gathered while their rows are read.

use vstd::prelude::*;
use crate::floats::Comparison;
use crate::text::same_text;
use crate::value::{Data, DataType, Value, has_type, order_is_antisymmetric, order_is_transitive_within_a_type, order_of};
use crate::views::texts;

verus! {

/// The least of some values: the first of those that no later one is less than.
pub open spec fn least(values: Seq<Value>) -> Option<Value>
    decreases values.len(),
{
    if values.len() == 0 {
        None
    } else {
        match least(values.drop_last()) {
            Some(m) if order_of(values.last(), m) != Some(Comparison::Less) => Some(m),
            _ => Some(values.last()),
        }
    }
}

/// The greatest of some values: the first of those that no later one is greater than.
pub open spec fn greatest(values: Seq<Value>) -> Option<Value>
    decreases values.len(),
{
    if values.len() == 0 {
        None
    } else {
        match greatest(values.drop_last()) {
            Some(m) if order_of(values.last(), m) != Some(Comparison::Greater) => Some(m),
            _ => Some(values.last()),
        }
    }
}

/// Whether no value is less than the one before it.
pub open spec fn never_falls(values: Seq<Value>) -> bool {
    forall|i: int|
        #![trigger values[i]]
        0 < i < values.len() ==> order_of(values[i], values[i - 1]) != Some(Comparison::Less)
}

/// Whether values are of one type and compare with themselves.
pub open spec fn of_one_type(values: Seq<Value>, t: DataType) -> bool {
    forall|i: int|
        0 <= i < values.len() ==> has_type(#[trigger] values[i], t) && order_of(
            values[i],
            values[i],
        ) is Some
}

/// Whether a value does not come after another one.
#[verifier::opaque]
spec fn at_most(a: Value, b: Value) -> bool {
    order_of(a, b) != Some(Comparison::Greater)
}

spec fn typed(v: Value, t: DataType) -> bool {
    has_type(v, t) && order_of(v, v) is Some
}

proof fn lemma_at_most(a: Value, b: Value, c: Value, t: DataType)
    requires
        typed(a, t),
        typed(b, t),
        typed(c, t),
    ensures
        at_most(a, b) && at_most(b, c) ==> at_most(a, c),
{
    reveal(at_most);
    order_is_transitive_within_a_type(a, b, c, t);
}

proof fn lemma_compares(a: Value, b: Value, t: DataType)
    requires
        typed(a, t),
        typed(b, t),
    ensures
        at_most(a, b) || at_most(b, a),
        order_of(a, b) == Some(Comparison::Less) <==> !at_most(b, a),
        order_of(a, b) == Some(Comparison::Greater) <==> !at_most(a, b),
{
    reveal(at_most);
    order_is_antisymmetric(a, b);
    order_is_transitive_within_a_type(a, b, b, t);
}

spec fn lower_bound(m: Value, values: Seq<Value>) -> bool {
    forall|i: int| 0 <= i < values.len() ==> at_most(m, #[trigger] values[i])
}

spec fn upper_bound(m: Value, values: Seq<Value>) -> bool {
    forall|i: int| 0 <= i < values.len() ==> at_most(#[trigger] values[i], m)
}

spec fn all_of(values: Seq<Value>, t: DataType) -> bool {
    forall|i: int| 0 <= i < values.len() ==> typed(#[trigger] values[i], t)
}

proof fn lemma_lower(m: Value, x: Value, rest: Seq<Value>, t: DataType)
    requires
        typed(m, t),
        typed(x, t),
        all_of(rest, t),
        lower_bound(m, rest),
    ensures
        at_most(m, x) ==> lower_bound(m, rest.push(x)),
        !at_most(m, x) ==> lower_bound(x, rest.push(x)),
{
    lemma_compares(m, x, t);
    lemma_compares(x, x, t);
    let all = rest.push(x);
    if !at_most(m, x) {
        assert forall|i: int| 0 <= i < all.len() implies at_most(x, #[trigger] all[i]) by {
            if i < rest.len() {
                assert(at_most(m, rest[i]));
                assert(typed(rest[i], t));
                lemma_at_most(x, m, rest[i], t);
            }
        }
    }
}

proof fn lemma_upper(m: Value, x: Value, rest: Seq<Value>, t: DataType)
    requires
        typed(m, t),
        typed(x, t),
        all_of(rest, t),
        upper_bound(m, rest),
    ensures
        at_most(x, m) ==> upper_bound(m, rest.push(x)),
        !at_most(x, m) ==> upper_bound(x, rest.push(x)),
{
    lemma_compares(m, x, t);
    lemma_compares(x, x, t);
    let all = rest.push(x);
    if !at_most(x, m) {
        assert forall|i: int| 0 <= i < all.len() implies at_most(#[trigger] all[i], x) by {
            if i < rest.len() {
                assert(at_most(rest[i], m));
                assert(typed(rest[i], t));
                lemma_at_most(rest[i], m, x, t);
            }
        }
    }
}

proof fn lemma_ends(values: Seq<Value>, t: DataType)
    requires
        all_of(values, t),
        values.len() > 0,
    ensures
        least(values) matches Some(m) && values.contains(m) && lower_bound(m, values),
        greatest(values) matches Some(m) && values.contains(m) && upper_bound(m, values),
    decreases values.len(),
{
    let x = values.last();
    let rest = values.drop_last();
    assert(typed(values[values.len() - 1], t));
    assert(values =~= rest.push(x));
    assert(values[values.len() - 1] == x);
    assert(values.contains(x));
    if rest.len() == 0 {
        lemma_compares(x, x, t);
    } else {
        assert forall|i: int| 0 <= i < rest.len() implies typed(#[trigger] rest[i], t) by {
            assert(typed(values[i], t));
        }
        lemma_ends(rest, t);
        let m = least(rest)->0;
        let k = choose|k: int| 0 <= k < rest.len() && rest[k] == m;
        assert(values[k] == m);
        assert(typed(rest[k], t));
        lemma_lower(m, x, rest, t);
        lemma_compares(x, m, t);
        let g = greatest(rest)->0;
        let j = choose|j: int| 0 <= j < rest.len() && rest[j] == g;
        assert(values[j] == g);
        assert(typed(rest[j], t));
        lemma_upper(g, x, rest, t);
        lemma_compares(x, g, t);
    }
}

/// Among values of one type without NaN, the least one is one of them, and none is less.
pub proof fn least_is_a_lower_bound(values: Seq<Value>, t: DataType)
    requires
        of_one_type(values, t),
        values.len() > 0,
    ensures
        least(values) matches Some(m) && values.contains(m) && forall|i: int|
            0 <= i < values.len() ==> order_of(#[trigger] values[i], m) != Some(Comparison::Less),
{
    assert(all_of(values, t));
    lemma_ends(values, t);
    let m = least(values)->0;
    let k = choose|k: int| 0 <= k < values.len() && values[k] == m;
    assert(typed(values[k], t));
    assert forall|i: int| 0 <= i < values.len() implies order_of(#[trigger] values[i], m) != Some(
        Comparison::Less,
    ) by {
        assert(typed(values[i], t));
        lemma_compares(values[i], m, t);
    }
}

/// Among values of one type without NaN, the greatest one is one of them, and none is greater.
pub proof fn greatest_is_an_upper_bound(values: Seq<Value>, t: DataType)
    requires
        of_one_type(values, t),
        values.len() > 0,
    ensures
        greatest(values) matches Some(m) && values.contains(m) && forall|i: int|
            0 <= i < values.len() ==> order_of(#[trigger] values[i], m) != Some(
                Comparison::Greater,
            ),
{
    assert(all_of(values, t));
    lemma_ends(values, t);
    let m = greatest(values)->0;
    let k = choose|k: int| 0 <= k < values.len() && values[k] == m;
    assert(typed(values[k], t));
    assert forall|i: int| 0 <= i < values.len() implies order_of(#[trigger] values[i], m) != Some(
        Comparison::Greater,
    ) by {
        assert(typed(values[i], t));
        lemma_compares(values[i], m, t);
    }
}

/// Values of one type without NaN that never fall are in order throughout.
pub proof fn never_falling_is_ordered(values: Seq<Value>, t: DataType, i: int, j: int)
    requires
        of_one_type(values, t),
        never_falls(values),
        0 <= i <= j < values.len(),
    ensures
        order_of(values[i], values[j]) != Some(Comparison::Greater),
    decreases j - i,
{
    if i == j {
        order_is_antisymmetric(values[i], values[i]);
    } else {
        never_falling_is_ordered(values, t, i, j - 1);
        order_is_antisymmetric(values[j], values[j - 1]);
        order_is_transitive_within_a_type(values[i], values[j - 1], values[j], t);
    }
}

/// What was seen of a column.
pub struct StreamingColumnStats {
    pub name: String,
    pub min_val: Option<Data>,
    pub max_val: Option<Data>,
    pub is_ordered: bool,
    pub prev_val: Option<Data>,
    pub seen: Ghost<Seq<Value>>,
}

pub open spec fn optional_value(d: Option<Data>) -> Option<Value> {
    match d {
        Some(v) => Some(v@),
        None => None,
    }
}

impl StreamingColumnStats {
    /// The values that were seen.
    pub open spec fn seen(&self) -> Seq<Value> {
        self.seen@
    }

    pub open spec fn last_seen(&self) -> bool {
        optional_value(self.prev_val) == if self.seen@.len() == 0 {
            None
        } else {
            Some(self.seen@.last())
        }
    }

    /// The statistics are those of the values that were seen.
    pub open spec fn inv(&self) -> bool {
        &&& optional_value(self.min_val) == least(self.seen())
        &&& optional_value(self.max_val) == greatest(self.seen())
        &&& self.is_ordered == never_falls(self.seen())
        &&& self.last_seen()
    }

    fn new(name: String) -> (r: StreamingColumnStats)
        ensures
            r.inv(),
            r.name == name,
            r.seen() == Seq::<Value>::empty(),
    {
        StreamingColumnStats {
            name,
            min_val: None,
            max_val: None,
            is_ordered: true,
            prev_val: None,
            seen: Ghost(Seq::empty()),
        }
    }

    /// Takes one more value of the column.
    pub fn observe(&mut self, value: &Data)
        requires
            old(self).inv(),
        ensures
            final(self).inv(),
            final(self).name == old(self).name,
            final(self).seen() == old(self).seen().push(value@),
    {
        let ghost before = self.seen@;
        let ghost after = before.push(value@);
        let lower = match &self.min_val {
            None => true,
            Some(m) => match value.compare(m) {
                Some(Comparison::Less) => true,
                _ => false,
            },
        };
        if lower {
            self.min_val = Some(value.clone());
        }
        let higher = match &self.max_val {
            None => true,
            Some(m) => match value.compare(m) {
                Some(Comparison::Greater) => true,
                _ => false,
            },
        };
        if higher {
            self.max_val = Some(value.clone());
        }
        if self.is_ordered {
            if let Some(prev) = &self.prev_val {
                if let Some(Comparison::Less) = value.compare(prev) {
                    self.is_ordered = false;
                }
            }
        }
        self.prev_val = Some(value.clone());
        proof {
            self.seen@ = after;
            assert(after.drop_last() =~= before);
            let n = before.len() as int;
            if never_falls(after) {
                assert forall|i: int| #![trigger before[i]] 0 < i < n implies order_of(
                    before[i],
                    before[i - 1],
                ) != Some(Comparison::Less) by {
                    assert(after[i] == before[i]);
                    assert(after[i - 1] == before[i - 1]);
                }
                if n > 0 {
                    assert(after[n] == value@);
                    assert(after[n - 1] == before.last());
                }
            } else {
                let i = choose|i: int|
                    #![trigger after[i]]
                    0 < i < after.len() && order_of(after[i], after[i - 1]) == Some(
                        Comparison::Less,
                    );
                if i < n {
                    assert(before[i] == after[i]);
                    assert(before[i - 1] == after[i - 1]);
                } else {
                    assert(after[i] == value@);
                    assert(after[i - 1] == before.last());
                }
            }
        }
    }
}

/// What was seen of a table.
pub struct StreamingTableStats {
    pub row_count: u64,
    pub columns: Vec<StreamingColumnStats>,
}

/// What a column's statistics are of: its name, and the values that were seen.
pub struct SeenColumn {
    pub name: Seq<char>,
    pub values: Seq<Value>,
}

/// What a table's statistics are of: how many rows were counted, and its columns.
pub struct SeenTable {
    pub rows: nat,
    pub columns: Seq<SeenColumn>,
}

pub open spec fn seen_columns(columns: Seq<StreamingColumnStats>) -> Seq<SeenColumn> {
    columns.map_values(|c: StreamingColumnStats| SeenColumn { name: c.name@, values: c.seen() })
}

/// A table of which nothing was seen yet.
pub open spec fn unseen(names: Seq<Seq<char>>) -> SeenTable {
    SeenTable {
        rows: 0,
        columns: names.map_values(
            |n: Seq<char>| SeenColumn { name: n, values: Seq::<Value>::empty() },
        ),
    }
}

/// A table of which one more value was seen; a column that it does not have is passed over.
pub open spec fn with_value(t: SeenTable, column: int, v: Value) -> SeenTable {
    if 0 <= column < t.columns.len() {
        let c = t.columns[column];
        SeenTable {
            rows: t.rows,
            columns: t.columns.update(
                column,
                SeenColumn { name: c.name, values: c.values.push(v) },
            ),
        }
    } else {
        t
    }
}

/// The first column of a name.
pub open spec fn column_named(columns: Seq<SeenColumn>, name: Seq<char>) -> Option<int>
    decreases columns.len(),
{
    if columns.len() == 0 {
        None
    } else {
        match column_named(columns.drop_last(), name) {
            Some(i) => Some(i),
            None => if columns.last().name == name {
                Some(columns.len() - 1)
            } else {
                None
            },
        }
    }
}

impl StreamingTableStats {
    pub open spec fn seen(&self) -> SeenTable {
        SeenTable { rows: self.row_count as nat, columns: seen_columns(self.columns@) }
    }

    pub open spec fn inv(&self) -> bool {
        forall|i: int| 0 <= i < self.columns@.len() ==> (#[trigger] self.columns@[i]).inv()
    }

    fn new(col_names: &[String]) -> (r: StreamingTableStats)
        ensures
            r.inv(),
            r.seen() == unseen(texts(col_names@)),
    {
        let mut columns: Vec<StreamingColumnStats> = Vec::new();
        let mut i: usize = 0;
        while i < col_names.len()
            invariant
                i <= col_names@.len(),
                columns@.len() == i,
                forall|k: int| 0 <= k < i ==> (#[trigger] columns@[k]).inv(),
                forall|k: int|
                    0 <= k < i ==> (#[trigger] columns@[k]).name@ == col_names@[k]@
                        && columns@[k].seen() == Seq::<Value>::empty(),
            decreases col_names@.len() - i,
        {
            columns.push(StreamingColumnStats::new(col_names[i].clone()));
            i += 1;
        }
        let r = StreamingTableStats { row_count: 0, columns };
        proof {
            let want = unseen(texts(col_names@)).columns;
            assert forall|k: int| 0 <= k < want.len() implies #[trigger] seen_columns(columns@)[k]
                == want[k] by {
                assert(texts(col_names@)[k] == col_names@[k]@);
                assert(columns@[k].name@ == col_names@[k]@);
            }
            assert(seen_columns(columns@) =~= want);
        }
        r
    }

    /// Takes one more value of a column.
    fn observe(&mut self, orig_col_idx: usize, value: &Data)
        requires
            old(self).inv(),
        ensures
            final(self).inv(),
            final(self).seen() == with_value(old(self).seen(), orig_col_idx as int, value@),
    {
        if orig_col_idx < self.columns.len() {
            let mut column = StreamingColumnStats::new(String::new());
            self.columns.set_and_swap(orig_col_idx, &mut column);
            column.observe(value);
            self.columns.set_and_swap(orig_col_idx, &mut column);
            proof {
                let at = orig_col_idx as int;
                assert(seen_columns(self.columns@) =~= with_value(
                    old(self).seen(),
                    at,
                    value@,
                ).columns);
                assert forall|i: int| 0 <= i < self.columns@.len() implies (
                #[trigger] self.columns@[i]).inv() by {
                    if i != at {
                        assert(self.columns@[i] == old(self).columns@[i]);
                    }
                }
            }
        }
    }
}

struct NamedTable {
    id: String,
    stats: StreamingTableStats,
}

/// The statistics of tables, by their names.
pub struct StreamingCatalog {
    tables: Vec<NamedTable>,
}

impl StreamingCatalog {
    spec fn holds(&self, id: Seq<char>) -> bool {
        exists|i: int| 0 <= i < self.tables@.len() && (#[trigger] self.tables@[i]).id@ == id
    }

    spec fn at(&self, id: Seq<char>) -> int {
        choose|i: int| 0 <= i < self.tables@.len() && (#[trigger] self.tables@[i]).id@ == id
    }

    /// What was seen of each table.
    pub closed spec fn tables(&self) -> Map<Seq<char>, SeenTable> {
        Map::new(
            |id: Seq<char>| self.holds(id),
            |id: Seq<char>| self.tables@[self.at(id)].stats.seen(),
        )
    }

    pub closed spec fn inv(&self) -> bool {
        &&& forall|i: int| 0 <= i < self.tables@.len() ==> (#[trigger] self.tables@[i]).stats.inv()
        &&& forall|i: int, j: int|
            0 <= i < j < self.tables@.len() ==> (#[trigger] self.tables@[i]).id@ != (
            #[trigger] self.tables@[j]).id@
    }

    pub fn new() -> (r: StreamingCatalog)
        ensures
            r.inv(),
            r.tables() == Map::<Seq<char>, SeenTable>::empty(),
    {
        let r = StreamingCatalog { tables: Vec::new() };
        assert(r.tables() =~= Map::<Seq<char>, SeenTable>::empty());
        r
    }

    fn find(&self, table_id: &str) -> (r: Option<usize>)
        requires
            self.inv(),
        ensures
            match r {
                Some(i) => {
                    &&& i < self.tables@.len()
                    &&& self.tables@[i as int].id@ == table_id@
                    &&& self.tables().contains_key(table_id@)
                    &&& self.tables()[table_id@] == self.tables@[i as int].stats.seen()
                },
                None => !self.tables().contains_key(table_id@) && !self.holds(table_id@),
            },
    {
        let mut i: usize = 0;
        while i < self.tables.len()
            invariant
                i <= self.tables@.len(),
                self.inv(),
                forall|k: int| 0 <= k < i ==> (#[trigger] self.tables@[k]).id@ != table_id@,
            decreases self.tables@.len() - i,
        {
            if same_text(self.tables[i].id.as_str(), table_id) {
                proof {
                    assert(self.holds(table_id@));
                    let j = self.at(table_id@);
                    assert(self.tables@[j].id@ == self.tables@[i as int].id@);
                    assert(j == i);
                }
                return Some(i);
            }
            i += 1;
        }
        None
    }

    proof fn lemma_replaced(&self, old: &StreamingCatalog, i: int)
        requires
            old.inv(),
            0 <= i < old.tables@.len(),
            self.tables@.len() == old.tables@.len(),
            self.tables@[i].id@ == old.tables@[i].id@,
            self.tables@[i].stats.inv(),
            forall|k: int|
                0 <= k < old.tables@.len() && k != i ==> #[trigger] self.tables@[k]
                    == old.tables@[k],
        ensures
            self.inv(),
            self.tables() == old.tables().insert(old.tables@[i].id@, self.tables@[i].stats.seen()),
    {
        assert forall|k: int| 0 <= k < self.tables@.len() implies (
        #[trigger] self.tables@[k]).stats.inv() by {
            if k != i {
                assert(self.tables@[k] == old.tables@[k]);
                assert(old.tables@[k].stats.inv());
            }
        }
        assert forall|k: int| 0 <= k < self.tables@.len() implies (#[trigger] self.tables@[k]).id@
            == old.tables@[k].id@ by {}
        assert forall|a: int, b: int| 0 <= a < b < self.tables@.len() implies (
        #[trigger] self.tables@[a]).id@ != (#[trigger] self.tables@[b]).id@ by {
            assert(old.tables@[a].id@ != old.tables@[b].id@);
        }
        let want = old.tables().insert(old.tables@[i].id@, self.tables@[i].stats.seen());
        assert forall|id: Seq<char>| #[trigger]
            self.tables().contains_key(id) <==> want.contains_key(id) by {
            if self.holds(id) {
                let k = self.at(id);
                assert(old.tables@[k].id@ == id);
            }
            if old.holds(id) {
                let k = old.at(id);
                assert(self.tables@[k].id@ == id);
            }
            assert(self.tables@[i].id@ == old.tables@[i].id@);
        }
        assert forall|id: Seq<char>| #[trigger] self.tables().contains_key(id) implies self.tables()[id]
            == want[id] by {
            let k = self.at(id);
            assert(self.holds(id));
            assert(self.tables@[k].id@ == id);
            if k != i {
                assert(old.tables@[k].id@ == id);
                assert(old.holds(id));
                let m = old.at(id);
                assert(old.tables@[m].id@ == id);
                assert(m == k);
                assert(id != old.tables@[i].id@);
            }
        }
        assert(self.tables() =~= want);
    }

    /// Registers a table before its rows are read. A table that is known already stays as it is.
    pub fn init_table(&mut self, table_id: &str, col_names: &[String])
        requires
            old(self).inv(),
        ensures
            final(self).inv(),
            final(self).tables() == if old(self).tables().contains_key(table_id@) {
                old(self).tables()
            } else {
                old(self).tables().insert(table_id@, unseen(texts(col_names@)))
            },
    {
        if self.find(table_id).is_some() {
            return;
        }
        let stats = StreamingTableStats::new(col_names);
        let ghost was = *self;
        self.tables.push(NamedTable { id: table_id.to_owned(), stats });
        proof {
            let n = was.tables@.len() as int;
            let want = was.tables().insert(table_id@, unseen(texts(col_names@)));
            assert forall|k: int| 0 <= k < n implies #[trigger] self.tables@[k]
                == was.tables@[k] by {}
            assert forall|k: int| 0 <= k < self.tables@.len() implies (
            #[trigger] self.tables@[k]).stats.inv() by {
                if k < n {
                    assert(was.tables@[k].stats.inv());
                }
            }
            assert forall|a: int, b: int| 0 <= a < b < self.tables@.len() implies (
            #[trigger] self.tables@[a]).id@ != (#[trigger] self.tables@[b]).id@ by {
                if b < n {
                    assert(was.tables@[a].id@ != was.tables@[b].id@);
                } else {
                    assert(was.tables@[a].id@ != table_id@);
                }
            }
            assert forall|id: Seq<char>| #[trigger]
                self.tables().contains_key(id) <==> want.contains_key(id) by {
                if self.holds(id) {
                    let k = self.at(id);
                    if k < n {
                        assert(was.tables@[k].id@ == id);
                    }
                }
                if was.holds(id) {
                    let k = was.at(id);
                    assert(self.tables@[k].id@ == id);
                }
                assert(self.tables@[n].id@ == table_id@);
            }
            assert forall|id: Seq<char>| #[trigger] self.tables().contains_key(id) implies self.tables()[id]
                == want[id] by {
                assert(self.holds(id));
                let k = self.at(id);
                assert(self.tables@[k].id@ == id);
                if k < n {
                    assert(was.tables@[k].id@ == id);
                    assert(was.holds(id));
                    let m = was.at(id);
                    assert(was.tables@[m].id@ == id);
                    assert(m == k);
                }
            }
            assert(self.tables() =~= want);
        }
    }

    /// Takes one more value of a column of a table. A table or column that is not known is passed
    /// over.
    pub fn observe(&mut self, table_id: &str, orig_col_idx: usize, value: &Data)
        requires
            old(self).inv(),
        ensures
            final(self).inv(),
            final(self).tables() == if old(self).tables().contains_key(table_id@) {
                old(self).tables().insert(
                    table_id@,
                    with_value(old(self).tables()[table_id@], orig_col_idx as int, value@),
                )
            } else {
                old(self).tables()
            },
    {
        if let Some(i) = self.find(table_id) {
            let ghost was = *self;
            let mut table = NamedTable {
                id: String::new(),
                stats: StreamingTableStats { row_count: 0, columns: Vec::new() },
            };
            self.tables.set_and_swap(i, &mut table);
            assert(was.tables@[i as int].stats.inv());
            table.stats.observe(orig_col_idx, value);
            self.tables.set_and_swap(i, &mut table);
            proof {
                self.lemma_replaced(&was, i as int);
            }
        }
    }

    /// Counts one more row of a table; one that is not known is passed over.
    pub fn count_row(&mut self, table_id: &str)
        requires
            old(self).inv(),
            old(self).tables().contains_key(table_id@) ==> old(self).tables()[table_id@].rows
                < u64::MAX,
        ensures
            final(self).inv(),
            final(self).tables() == if old(self).tables().contains_key(table_id@) {
                let t = old(self).tables()[table_id@];
                old(self).tables().insert(
                    table_id@,
                    SeenTable { rows: t.rows + 1, columns: t.columns },
                )
            } else {
                old(self).tables()
            },
    {
        if let Some(i) = self.find(table_id) {
            let ghost was = *self;
            let mut table = NamedTable {
                id: String::new(),
                stats: StreamingTableStats { row_count: 0, columns: Vec::new() },
            };
            self.tables.set_and_swap(i, &mut table);
            assert(was.tables@[i as int].stats.inv());
            table.stats.row_count = table.stats.row_count + 1;
            self.tables.set_and_swap(i, &mut table);
            proof {
                self.lemma_replaced(&was, i as int);
            }
        }
    }

    /// The statistics of a table.
    pub fn get_table(&self, table_id: &str) -> (r: Option<&StreamingTableStats>)
        requires
            self.inv(),
        ensures
            match r {
                Some(t) => {
                    &&& t.inv()
                    &&& self.tables().contains_key(table_id@)
                    &&& t.seen() == self.tables()[table_id@]
                },
                None => !self.tables().contains_key(table_id@),
            },
    {
        match self.find(table_id) {
            Some(i) => Some(&self.tables[i].stats),
            None => None,
        }
    }

    /// The statistics of a column of a table.
    pub fn get_column(&self, table_id: &str, col_name: &str) -> (r: Option<&StreamingColumnStats>)
        requires
            self.inv(),
        ensures
            match r {
                Some(c) => {
                    &&& c.inv()
                    &&& self.tables().contains_key(table_id@)
                    &&& column_named(self.tables()[table_id@].columns, col_name@) matches Some(i)
                        && c.seen() == self.tables()[table_id@].columns[i].values && c.name@
                        == col_name@
                },
                None => !self.tables().contains_key(table_id@) || column_named(
                    self.tables()[table_id@].columns,
                    col_name@,
                ) is None,
            },
    {
        let table = match self.get_table(table_id) {
            Some(t) => t,
            None => {
                return None;
            },
        };
        let ghost all = table.seen().columns;
        let mut i: usize = 0;
        assert(all.take(0) =~= Seq::<SeenColumn>::empty());
        while i < table.columns.len()
            invariant
                i <= table.columns@.len(),
                table.inv(),
                all == seen_columns(table.columns@),
                table.seen().columns == all,
                self.tables().contains_key(table_id@),
                table.seen() == self.tables()[table_id@],
                column_named(all.take(i as int), col_name@) is None,
            decreases table.columns@.len() - i,
        {
            proof {
                assert(all.take(i + 1).drop_last() =~= all.take(i as int));
                assert(all.take(i + 1).last() == all[i as int]);
                assert(all[i as int].name == table.columns@[i as int].name@);
            }
            if same_text(table.columns[i].name.as_str(), col_name) {
                proof {
                    lemma_named_early(all, i + 1, col_name@);
                    assert(table.columns@[i as int].inv());
                }
                return Some(&table.columns[i]);
            }
            i += 1;
        }
        assert(all.take(i as int) =~= all);
        None
    }

    /// How many rows of a table were counted, where any were.
    pub fn row_count(&self, table_id: &str) -> (r: Option<u64>)
        requires
            self.inv(),
        ensures
            match r {
                Some(n) => n > 0 && self.tables().contains_key(table_id@) && n
                    == self.tables()[table_id@].rows,
                None => self.tables().contains_key(table_id@) ==> self.tables()[table_id@].rows
                    == 0,
            },
    {
        match self.get_table(table_id) {
            Some(t) => if t.row_count > 0 {
                Some(t.row_count)
            } else {
                None
            },
            None => None,
        }
    }

    /// Whether a column was in order so far, once two rows of its table were counted.
    pub fn is_ordered(&self, table_id: &str, col_name: &str) -> (r: Option<bool>)
        requires
            self.inv(),
        ensures
            r == if self.tables().contains_key(table_id@) && self.tables()[table_id@].rows >= 2 {
                let columns = self.tables()[table_id@].columns;
                match column_named(columns, col_name@) {
                    Some(i) => Some(never_falls(columns[i].values)),
                    None => None,
                }
            } else {
                None
            },
    {
        let column = match self.get_column(table_id, col_name) {
            Some(c) => c,
            None => {
                return None;
            },
        };
        let table = match self.get_table(table_id) {
            Some(t) => t,
            None => {
                return None;
            },
        };
        if table.row_count < 2 {
            return None;
        }
        Some(column.is_ordered)
    }
}

proof fn lemma_named_early(columns: Seq<SeenColumn>, n: int, name: Seq<char>)
    requires
        0 <= n <= columns.len(),
        column_named(columns.take(n), name) is Some,
    ensures
        column_named(columns, name) == column_named(columns.take(n), name),
    decreases columns.len(),
{
    if n < columns.len() {
        assert(columns.drop_last().take(n) =~= columns.take(n));
        lemma_named_early(columns.drop_last(), n, name);
    } else {
        assert(columns.take(n) =~= columns);
    }
}

} // verus!
