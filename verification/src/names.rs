//! Sets of column names.

use vstd::prelude::*;
use crate::query::{ComparisionValue, Condition, Operand, Predicate, SortSpec, conditions};
use crate::text::same_text;
use crate::views::texts;

verus! {

broadcast use crate::views::lemma_texts_push;

/// A set of names.
#[derive(Debug)]
pub struct NameSet {
    names: Vec<String>,
}

impl View for NameSet {
    type V = Set<Seq<char>>;

    closed spec fn view(&self) -> Set<Seq<char>> {
        texts(self.names@).to_set()
    }
}

impl NameSet {
    pub fn new() -> (r: NameSet)
        ensures
            r@ == Set::<Seq<char>>::empty(),
    {
        let r = NameSet { names: Vec::new() };
        assert(texts(r.names@) =~= Seq::<Seq<char>>::empty());
        assert(r@ =~= Set::<Seq<char>>::empty());
        r
    }

    pub fn contains(&self, name: &str) -> (r: bool)
        ensures
            r == self@.contains(name@),
    {
        let ghost all = texts(self.names@);
        let mut i: usize = 0;
        while i < self.names.len()
            invariant
                i <= self.names@.len(),
                all == texts(self.names@),
                forall|j: int| 0 <= j < i ==> #[trigger] all[j] != name@,
            decreases self.names@.len() - i,
        {
            if same_text(self.names[i].as_str(), name) {
                assert(all[i as int] == name@);
                assert(all.contains(name@));
                return true;
            }
            i += 1;
        }
        false
    }

    /// Puts a name in.
    pub fn insert(&mut self, name: &str)
        ensures
            final(self)@ == old(self)@.insert(name@),
    {
        if self.contains(name) {
            assert(self@ =~= old(self)@.insert(name@));
            return;
        }
        let ghost before = texts(self.names@);
        self.names.push(name.to_owned());
        proof {
            let after = texts(self.names@);
            assert(after == before.push(name@));
            assert forall|n: Seq<char>| after.contains(n) <==> before.contains(n) || n == name@ by {
                if before.contains(n) {
                    let j = choose|j: int| 0 <= j < before.len() && before[j] == n;
                    assert(after[j] == n);
                }
                if n == name@ {
                    assert(after[before.len() as int] == n);
                }
            }
            assert(self@ =~= old(self)@.insert(name@));
        }
    }

    pub fn is_empty(&self) -> (r: bool)
        ensures
            r == (self@ == Set::<Seq<char>>::empty()),
    {
        let ghost all = texts(self.names@);
        if self.names.len() == 0 {
            assert(self@ =~= Set::<Seq<char>>::empty());
            true
        } else {
            assert(all.contains(all[0]));
            assert(self@.contains(all[0]));
            false
        }
    }

    /// The names, each at a position.
    pub fn as_slice(&self) -> (r: &[String])
        ensures
            texts(r@).to_set() == self@,
    {
        self.names.as_slice()
    }

    /// A copy of the set.
    pub fn copy(&self) -> (r: NameSet)
        ensures
            r@ == self@,
    {
        NameSet { names: crate::row::clone_names(self.names.as_slice()) }
    }
}

/// The columns that a condition reads.
pub open spec fn columns_of(c: Condition) -> Set<Seq<char>> {
    match c.operand {
        Operand::Column(other) => Set::<Seq<char>>::empty().insert(c.column).insert(other),
        Operand::Literal(_) => Set::<Seq<char>>::empty().insert(c.column),
    }
}

/// The columns that some conditions read.
pub open spec fn all_columns_of(cs: Seq<Condition>) -> Set<Seq<char>>
    decreases cs.len(),
{
    if cs.len() == 0 {
        Set::empty()
    } else {
        all_columns_of(cs.drop_last()).union(columns_of(cs.last()))
    }
}

/// What is in `all_columns_of`: a column that one of the conditions reads.
pub proof fn all_columns_are_read(cs: Seq<Condition>, name: Seq<char>)
    ensures
        all_columns_of(cs).contains(name) <==> exists|i: int|
            0 <= i < cs.len() && #[trigger] columns_of(cs[i]).contains(name),
    decreases cs.len(),
{
    if cs.len() > 0 {
        let init = cs.drop_last();
        all_columns_are_read(init, name);
        if all_columns_of(init).contains(name) {
            let i = choose|i: int|
                0 <= i < init.len() && #[trigger] columns_of(init[i]).contains(name);
            assert(columns_of(cs[i]).contains(name));
        }
        if columns_of(cs.last()).contains(name) {
            assert(columns_of(cs[cs.len() - 1]).contains(name));
        }
        if exists|i: int| 0 <= i < cs.len() && #[trigger] columns_of(cs[i]).contains(name) {
            let i = choose|i: int| 0 <= i < cs.len() && #[trigger] columns_of(cs[i]).contains(name);
            if i < cs.len() - 1 {
                assert(columns_of(init[i]).contains(name));
            }
        }
    }
}

/// The columns that some sort keys read.
pub open spec fn sort_columns_of(specs: Seq<SortSpec>) -> Set<Seq<char>> {
    specs.map_values(|s: SortSpec| s.column_name@).to_set()
}

/// The view of names that may be missing: `None` stands for all columns.
pub open spec fn needs(needed: Option<&NameSet>) -> Option<Set<Seq<char>>> {
    match needed {
        Some(n) => Some(n@),
        None => None,
    }
}

/// Adds the columns of a predicate.
pub fn add_columns_of(names: &mut NameSet, pred: &Predicate)
    ensures
        final(names)@ == old(names)@.union(columns_of(pred@)),
{
    names.insert(pred.column_name.as_str());
    if let ComparisionValue::Column(c) = &pred.value {
        names.insert(c.as_str());
    }
    assert(names@ =~= old(names)@.union(columns_of(pred@)));
}

/// Extends the needed columns by those that predicates read. Where all columns are needed, they
/// still are.
pub fn add_predicate_columns(needed: Option<&NameSet>, predicates: &[Predicate]) -> (r: Option<
    NameSet,
>)
    ensures
        match needed {
            Some(n) => r is Some && (r->0)@ == n@.union(all_columns_of(conditions(predicates@))),
            None => r is None,
        },
{
    match needed {
        None => None,
        Some(set) => {
            let ghost cs = conditions(predicates@);
            let mut result = set.copy();
            let mut i: usize = 0;
            proof {
                assert(cs.take(0) =~= Seq::<Condition>::empty());
                assert(set@.union(all_columns_of(cs.take(0))) =~= set@);
            }
            while i < predicates.len()
                invariant
                    i <= predicates@.len(),
                    cs == conditions(predicates@),
                    result@ == set@.union(all_columns_of(cs.take(i as int))),
                decreases predicates@.len() - i,
            {
                add_columns_of(&mut result, &predicates[i]);
                i += 1;
                proof {
                    assert(cs.take(i as int).drop_last() =~= cs.take(i - 1));
                    assert(cs.take(i as int).last() == predicates@[i - 1]@);
                    assert(result@ =~= set@.union(all_columns_of(cs.take(i as int))));
                }
            }
            assert(cs.take(cs.len() as int) =~= cs);
            Some(result)
        },
    }
}

/// Extends the needed columns by those to sort by.
pub fn add_sort_columns(needed: Option<&NameSet>, sort_specs: &[SortSpec]) -> (r: Option<NameSet>)
    ensures
        match needed {
            Some(n) => r is Some && (r->0)@ == n@.union(sort_columns_of(sort_specs@)),
            None => r is None,
        },
{
    match needed {
        None => None,
        Some(set) => {
            let ghost all = sort_specs@.map_values(|s: SortSpec| s.column_name@);
            let mut result = set.copy();
            let mut i: usize = 0;
            assert(result@ =~= set@.union(all.take(0).to_set()));
            while i < sort_specs.len()
                invariant
                    i <= sort_specs@.len(),
                    all == sort_specs@.map_values(|s: SortSpec| s.column_name@),
                    result@ == set@.union(all.take(i as int).to_set()),
                decreases sort_specs@.len() - i,
            {
                result.insert(sort_specs[i].column_name.as_str());
                i += 1;
                proof {
                    let before = all.take(i - 1);
                    let after = all.take(i as int);
                    assert(after =~= before.push(all[i - 1]));
                    assert forall|n: Seq<char>| after.contains(n) <==> before.contains(n) || n
                        == all[i - 1] by {
                        if before.contains(n) {
                            let j = choose|j: int| 0 <= j < before.len() && before[j] == n;
                            assert(after[j] == n);
                        }
                        if n == all[i - 1] {
                            assert(after[i - 1] == n);
                        }
                    }
                    assert(result@ =~= set@.union(after.to_set()));
                }
            }
            assert(all.take(all.len() as int) =~= all);
            Some(result)
        },
    }
}

} // verus!
