//! What a join operator asks of its driver.

use vstd::prelude::*;
use crate::error::DbError;
use crate::progress::{nearer, not_farther};
use crate::row::Row;
use crate::temp_storage::BlockRange;

verus! {

/// A side of a join.
#[derive(Clone, Copy, Debug, PartialEq, Eq, Structural)]
pub enum Side {
    Left,
    Right,
}

/// What a join asks for or gives.
#[derive(Debug)]
pub enum JoinStep {
    /// The next row of this side is to be fed in.
    Pull(Side),
    /// Work was done; another step is to be made.
    Again,
    /// These blocks are to be read and supplied.
    Need(Vec<BlockRange>),
    /// The start of the anonymous region is to be told to the storage.
    NeedAnonStart,
    /// A row of the join.
    Row(Row),
    /// The join is exhausted.
    Done,
}

/// What a step does to what is left to do: one that gives a row or does some work comes nearer to
/// the end, and none goes away from it.
pub open spec fn step_nearer(
    r: Result<JoinStep, DbError>,
    after: Seq<nat>,
    before: Seq<nat>,
) -> bool {
    match r {
        Ok(JoinStep::Again) | Ok(JoinStep::Row(_)) => nearer(after, before),
        Ok(_) => not_farther(after, before),
        Err(_) => true,
    }
}

impl Side {
    pub open spec fn of(is_left: bool) -> Side {
        if is_left {
            Side::Left
        } else {
            Side::Right
        }
    }
}

} // verus!
