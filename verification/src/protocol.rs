//! What is said to the disk and to the monitor, and what they answer.

use vstd::prelude::*;
use vstd::string::StringExecFns;
use crate::error::DbError;
use crate::lines::{chars_of, parse_u64, trim, trimmed, u64_of};
use crate::text::{append_digits, digits};

verus! {

/// The question for the size of a block.
pub fn block_size_command() -> (r: String)
    ensures
        r@ == "get block-size\n"@,
{
    "get block-size\n".to_owned()
}

/// The question for the first block of a file.
pub fn file_start_block_command(file_id: &str) -> (r: String)
    ensures
        r@ == "get file start-block "@ + file_id@ + "\n"@,
{
    let mut out = "get file start-block ".to_owned();
    out.append(file_id);
    out.append("\n");
    out
}

/// The question for the number of blocks of a file.
pub fn file_num_blocks_command(file_id: &str) -> (r: String)
    ensures
        r@ == "get file num-blocks "@ + file_id@ + "\n"@,
{
    let mut out = "get file num-blocks ".to_owned();
    out.append(file_id);
    out.append("\n");
    out
}

/// The question for the first block of the anonymous region.
pub fn anon_start_block_command() -> (r: String)
    ensures
        r@ == "get anon-start-block\n"@,
{
    "get anon-start-block\n".to_owned()
}

/// The request for the contents of blocks.
pub fn get_blocks_command(start_block_id: u64, num_blocks: u64) -> (r: String)
    ensures
        r@ == "get block "@ + digits(start_block_id as nat) + " "@ + digits(num_blocks as nat)
            + "\n"@,
{
    let mut out = "get block ".to_owned();
    append_digits(&mut out, start_block_id);
    out.append(" ");
    append_digits(&mut out, num_blocks);
    out.append("\n");
    out
}

/// The request to store blocks; their contents follow it.
pub fn put_blocks_command(start_block_id: u64, num_blocks: u64) -> (r: String)
    ensures
        r@ == "put block "@ + digits(start_block_id as nat) + " "@ + digits(num_blocks as nat)
            + "\n"@,
{
    let mut out = "put block ".to_owned();
    append_digits(&mut out, start_block_id);
    out.append(" ");
    append_digits(&mut out, num_blocks);
    out.append("\n");
    out
}

/// The number that an answer tells: white space around it is passed over.
pub open spec fn answered_number(line: Seq<char>, most: nat) -> Option<nat> {
    match u64_of(trimmed(line)) {
        Some(v) if v <= most => Some(v as nat),
        _ => None,
    }
}

fn read_answer(line: &str, most: u64) -> (r: Result<u64, DbError>)
    ensures
        match r {
            Ok(v) => answered_number(line@, most as nat) == Some(v as nat),
            Err(e) => {
                &&& answered_number(line@, most as nat) is None
                &&& e matches DbError::InvalidAnswer(t) && t@ == line@
            },
        },
{
    let chars = chars_of(trim(line));
    assert(chars@.subrange(0, chars@.len() as int) =~= chars@);
    match parse_u64(chars.as_slice(), 0, chars.len()) {
        Some(v) if v <= most => Ok(v),
        _ => Err(DbError::InvalidAnswer(line.to_owned())),
    }
}

/// Reads the size of a block out of the disk's answer.
pub fn get_block_size(line: &str) -> (r: Result<usize, DbError>)
    ensures
        match r {
            Ok(v) => answered_number(line@, usize::MAX as nat) == Some(v as nat),
            Err(e) => {
                &&& answered_number(line@, usize::MAX as nat) is None
                &&& e matches DbError::InvalidAnswer(t) && t@ == line@
            },
        },
{
    match read_answer(line, usize::MAX as u64) {
        Ok(v) => Ok(v as usize),
        Err(e) => Err(e),
    }
}

/// Reads the first block of a file out of the disk's answer.
pub fn get_file_start_block(line: &str) -> (r: Result<u64, DbError>)
    ensures
        match r {
            Ok(v) => answered_number(line@, u64::MAX as nat) == Some(v as nat),
            Err(e) => {
                &&& answered_number(line@, u64::MAX as nat) is None
                &&& e matches DbError::InvalidAnswer(t) && t@ == line@
            },
        },
{
    read_answer(line, u64::MAX)
}

/// Reads the number of blocks of a file out of the disk's answer.
pub fn get_file_num_blocks(line: &str) -> (r: Result<u64, DbError>)
    ensures
        match r {
            Ok(v) => answered_number(line@, u64::MAX as nat) == Some(v as nat),
            Err(e) => {
                &&& answered_number(line@, u64::MAX as nat) is None
                &&& e matches DbError::InvalidAnswer(t) && t@ == line@
            },
        },
{
    read_answer(line, u64::MAX)
}

/// Reads the first block of the anonymous region out of the disk's answer.
pub fn get_anon_start_block(line: &str) -> (r: Result<u64, DbError>)
    ensures
        match r {
            Ok(v) => answered_number(line@, u64::MAX as nat) == Some(v as nat),
            Err(e) => {
                &&& answered_number(line@, u64::MAX as nat) is None
                &&& e matches DbError::InvalidAnswer(t) && t@ == line@
            },
        },
{
    read_answer(line, u64::MAX)
}

/// Reads the memory limit, in megabytes, out of the monitor's answer.
pub fn get_memory_limit(line: &str) -> (r: Result<u32, DbError>)
    ensures
        match r {
            Ok(v) => answered_number(line@, u32::MAX as nat) == Some(v as nat),
            Err(e) => {
                &&& answered_number(line@, u32::MAX as nat) is None
                &&& e matches DbError::InvalidAnswer(t) && t@ == line@
            },
        },
{
    match read_answer(line, u32::MAX as u64) {
        Ok(v) => Ok(v as u32),
        Err(e) => Err(e),
    }
}

/// How many bytes a read of blocks gives; nothing where memory cannot address as many.
pub fn read_size(num_blocks: u64, block_size: usize) -> (r: Option<usize>)
    ensures
        match r {
            Some(n) => n == num_blocks * block_size,
            None => num_blocks > usize::MAX || num_blocks * block_size > usize::MAX,
        },
{
    if num_blocks > usize::MAX as u64 {
        return None;
    }
    (num_blocks as usize).checked_mul(block_size)
}

} // verus!
