//! What can go wrong.

use vstd::prelude::*;

verus! {

/// Why stored bytes are no row.
#[derive(Clone, Copy, Debug, PartialEq, Eq, Structural)]
pub enum DecodeError {
    /// No room for a record's length.
    LengthOverrun,
    /// A record longer than its page.
    PayloadOverrun,
    /// A payload too short for the number of fields.
    MissingFieldCount,
    /// A payload that ends where a field should start.
    MissingTag,
    /// A field longer than its row.
    FieldOverrun,
    /// A string that is no UTF-8.
    InvalidText,
    /// A field tag with no meaning.
    UnknownTag(u8),
    /// A payload with bytes behind its last field.
    TrailingBytes,
}

/// An error of the engine.
#[derive(Debug, PartialEq, Eq)]
pub enum DbError {
    /// A column that the schema does not hold.
    ColumnNotFound(String),
    /// A table that the database does not hold.
    TableNotFound(String),
    /// A position past the end of a row.
    RowIndexOutOfBounds(usize),
    /// A row whose length differs from its schema's: the row's, then the schema's.
    RowSchemaMismatch(usize, usize),
    /// Two values that do not compare.
    IncomparableValues,
    /// Stored bytes that are no row.
    Decode(DecodeError),
    /// A block too small to hold its row count.
    BlockTooSmall,
    /// A value that does not fit before the end of a block's rows.
    BlockOverrun { needed: usize, offset: usize, usable_end: usize },
    /// A string of a block without an end.
    UnterminatedString,
    /// An empty block in a file that is searched by its order.
    EmptyOrderedBlock(u64),
    /// An answer that is no number.
    InvalidAnswer(String),
    /// A buffer manager with room for no block.
    NoBufferCapacity,
    /// A buffer manager with no block to give up.
    NoEvictionVictim,
    /// A block size below what temporary storage needs.
    BlockSizeTooSmall(usize),
    /// A temporary file that does not exist.
    UnknownTempFile(u64),
    /// No name is left for a temporary file.
    TooManyTempFiles,
    /// An extent of no pages.
    ZeroPageExtent,
    /// A temporary file with more pages than can be counted.
    PageCountOverflow(u64),
    /// The start of the anonymous region has not been told.
    AnonRegionUnknown,
    /// The anonymous region has no block numbers left.
    BlockIdOverflow,
    /// A buffer that is not empty, for no pages.
    BufferForNoPages,
    /// A buffer for so many pages that its size overflows.
    BufferSizeOverflow(u64),
    /// A buffer whose length is not that of its pages.
    BufferLengthMismatch { len: usize, num_pages: u64, block_size: usize },
    /// A page past the end of a temporary file.
    PageOutOfBounds { page: u64, file: u64, num_pages: u64 },
    /// Pages that do not lie in one extent.
    CrossesExtent { num_pages: u64, page: u64, file: u64 },
    /// A batch of no pages.
    ZeroBatch,
    /// A batch of pages larger than memory can address.
    BatchCapacityOverflow,
    /// A record larger than a page can hold.
    RowTooLarge { record_len: usize, usable: usize },
    /// A page with more rows than its count can tell.
    PageRowCountOverflow,
    /// A Bloom filter of no words.
    FilterWithoutWords,
    /// A Bloom filter of no hashes.
    FilterWithoutHashes,
    /// A row with more fields than its binary form can count.
    TooManyFields(usize),
    /// A string with more bytes than its binary form can count.
    StringTooLarge(usize),
    /// A reservation of so many bytes overflows the count.
    MemoryAccountingOverflow(usize),
    /// A reservation that the query's memory budget has no room for.
    MemoryBudgetExceeded { requested: usize, used: usize, budget: usize },
}

/// Whether an error is one of storing rows: a row that has no record or does not fit a page, or
/// a limit of the storage that is reached.
pub open spec fn storage_error(e: DbError) -> bool {
    ||| e is TooManyFields
    ||| e is StringTooLarge
    ||| e is RowTooLarge
    ||| e is PageRowCountOverflow
    ||| e is PageCountOverflow
    ||| e is AnonRegionUnknown
    ||| e is BlockIdOverflow
    ||| e is TooManyTempFiles
    ||| e is BatchCapacityOverflow
}

} // verus!
