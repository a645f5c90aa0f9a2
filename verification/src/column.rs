//! The catalogue of columns and their static flags.

use vstd::prelude::*;

verus! {

/// Number of columns in the catalogue.
pub const NUM_COLUMNS: usize = 10;

/// A logical table of the store.
#[derive(Clone, Copy, Debug, PartialEq, Eq, Structural, Hash)]
pub enum DBCol {
    DbVersion,
    BlockMisc,
    Block,
    BlockHeader,
    BlockHeight,
    State,
    ChunkExtra,
    Transactions,
    Receipts,
    Chunks,
}

impl DBCol {
    /// Whether values of the column carry a reference count.
    pub open spec fn rc(self) -> bool {
        self is State || self is Transactions || self is Receipts
    }

    /// Whether a key of the column keeps the value it was first given.
    pub open spec fn insert_only(self) -> bool {
        self is Block || self is BlockHeader || self is Chunks
    }

    /// Position of the column in the catalogue.
    pub open spec fn ord(self) -> int {
        match self {
            DBCol::DbVersion => 0,
            DBCol::BlockMisc => 1,
            DBCol::Block => 2,
            DBCol::BlockHeader => 3,
            DBCol::BlockHeight => 4,
            DBCol::State => 5,
            DBCol::ChunkExtra => 6,
            DBCol::Transactions => 7,
            DBCol::Receipts => 8,
            DBCol::Chunks => 9,
        }
    }

    pub fn is_rc(&self) -> (r: bool)
        ensures
            r == self.rc(),
    {
        match self {
            DBCol::State | DBCol::Transactions | DBCol::Receipts => true,
            _ => false,
        }
    }

    pub fn is_insert_only(&self) -> (r: bool)
        ensures
            r == self.insert_only(),
    {
        match self {
            DBCol::Block | DBCol::BlockHeader | DBCol::Chunks => true,
            _ => false,
        }
    }

    pub fn index(&self) -> (r: usize)
        ensures
            r == self.ord(),
            r < NUM_COLUMNS,
    {
        match self {
            DBCol::DbVersion => 0,
            DBCol::BlockMisc => 1,
            DBCol::Block => 2,
            DBCol::BlockHeader => 3,
            DBCol::BlockHeight => 4,
            DBCol::State => 5,
            DBCol::ChunkExtra => 6,
            DBCol::Transactions => 7,
            DBCol::Receipts => 8,
            DBCol::Chunks => 9,
        }
    }

    /// The column at a position of the catalogue, if there is one.
    pub fn from_index(i: usize) -> (r: Option<DBCol>)
        ensures
            i < NUM_COLUMNS ==> r is Some && r.unwrap().ord() == i,
            i >= NUM_COLUMNS ==> r is None,
    {
        match i {
            0 => Some(DBCol::DbVersion),
            1 => Some(DBCol::BlockMisc),
            2 => Some(DBCol::Block),
            3 => Some(DBCol::BlockHeader),
            4 => Some(DBCol::BlockHeight),
            5 => Some(DBCol::State),
            6 => Some(DBCol::ChunkExtra),
            7 => Some(DBCol::Transactions),
            8 => Some(DBCol::Receipts),
            9 => Some(DBCol::Chunks),
            _ => None,
        }
    }
}

/// Two columns at the same position are the same column, and no column is
/// both reference-counted and insert-only.
pub proof fn lemma_columns_distinct(a: DBCol, b: DBCol)
    ensures
        a.ord() == b.ord() ==> a == b,
        0 <= a.ord() < NUM_COLUMNS,
        !(a.rc() && a.insert_only()),
{
}

} // verus!
