//! The text protocol spoken with the disk simulator over its pipes.
//!
//! Every request is one line of text; answers are one line holding a
//! number, or the raw bytes of the blocks asked for.  This module builds
//! the requests and reads the answers; the caller moves the bytes.
use vstd::prelude::*;
use vstd::string::StringSliceAdditionalSpecFns;
use crate::buffer_pool::DiskRequest;
use crate::catalog::name_bytes;
use crate::text::{decimal_digits, parse_trimmed_u64, parse_unsigned, trimmed, u64_to_decimal};

verus! {

/// The disk's file descriptors: the engine reads the disk's answers on 3
/// and writes its requests on 4.
pub const DISK_INPUT_FD: i32 = 3;
pub const DISK_OUTPUT_FD: i32 = 4;

/// The monitor's file descriptors: the engine reads the monitor on 5 and
/// writes to it on 6.
pub const MONITOR_INPUT_FD: i32 = 5;
pub const MONITOR_OUTPUT_FD: i32 = 6;

/// The descriptors of the disk's pipes: (what the engine reads, what it
/// writes).
pub fn setup_disk_io() -> (r: (i32, i32))
    ensures
        r == (DISK_INPUT_FD, DISK_OUTPUT_FD),
{
    (DISK_INPUT_FD, DISK_OUTPUT_FD)
}

/// The descriptors of the monitor's pipes: (what the engine reads, what it
/// writes).
pub fn setup_monitor_io() -> (r: (i32, i32))
    ensures
        r == (MONITOR_INPUT_FD, MONITOR_OUTPUT_FD),
{
    (MONITOR_INPUT_FD, MONITOR_OUTPUT_FD)
}

/// An answer of the disk that is not what was asked for.
#[derive(Debug, Clone, Copy, PartialEq, Eq, Structural)]
pub enum DiskError {
    /// A line that should hold a number does not.
    BadNumber,
}

/// The engine's side of the disk protocol, for a disk of blocks of
/// `block_size` bytes.
#[derive(Debug, Clone, Copy, PartialEq, Eq, Structural)]
pub struct DiskManager {
    pub block_size: u64,
}

/// Appends the UTF-8 bytes of `s`.
fn push_text(out: &mut Vec<u8>, s: &str)
    ensures
        final(out)@ == old(out)@ + s.spec_bytes(),
{
    let b = s.as_bytes();
    let mut i: usize = 0;
    let ghost start = out@;
    while i < b.len()
        invariant
            i <= b@.len(),
            b@ == s.spec_bytes(),
            out@ == start + b@.subrange(0, i as int),
        decreases b.len() - i,
    {
        out.push(b[i]);
        i += 1;
        assert(out@ =~= start + b@.subrange(0, i as int));
    }
    assert(b@.subrange(0, i as int) =~= b@);
}

/// Appends the decimal digits of `n`.
fn push_number(out: &mut Vec<u8>, n: u64)
    ensures
        final(out)@ == old(out)@ + decimal_digits(n as nat),
{
    let d = u64_to_decimal(n);
    let mut i: usize = 0;
    let ghost start = out@;
    while i < d.len()
        invariant
            i <= d@.len(),
            out@ == start + d@.subrange(0, i as int),
        decreases d.len() - i,
    {
        out.push(d[i]);
        i += 1;
        assert(out@ =~= start + d@.subrange(0, i as int));
    }
    assert(d@.subrange(0, i as int) =~= d@);
}

/// The request `get block <start> <count>`.
pub open spec fn read_command(start: u64, count: u64) -> Seq<u8> {
    "get block ".spec_bytes() + decimal_digits(start as nat) + " ".spec_bytes()
        + decimal_digits(count as nat) + "\n".spec_bytes()
}

/// The header `put block <start> <count>` of a write.
pub open spec fn write_header(start: u64, count: u64) -> Seq<u8> {
    "put block ".spec_bytes() + decimal_digits(start as nat) + " ".spec_bytes()
        + decimal_digits(count as nat) + "\n".spec_bytes()
}

/// Reads one answer line as a number (white space around it is ignored).
pub fn read_line_as_u64(line: &str) -> (r: Result<u64, DiskError>)
    ensures
        match parse_unsigned(trimmed(line@), u64::MAX as nat) {
            Some(v) => r == Ok::<u64, DiskError>(v as u64),
            None => r == Err::<u64, DiskError>(DiskError::BadNumber),
        },
{
    match parse_trimmed_u64(line) {
        Some(v) => Ok(v),
        None => Err(DiskError::BadNumber),
    }
}

impl DiskManager {
    /// The first request on a new connection: the block size.
    pub fn block_size_request() -> (r: Vec<u8>)
        ensures
            r@ == "get block-size\n".spec_bytes(),
    {
        let mut out: Vec<u8> = Vec::new();
        push_text(&mut out, "get block-size\n");
        out
    }

    /// The manager for a disk that answered the block-size request with
    /// `reply`.
    pub fn new(reply: &str) -> (r: Result<DiskManager, DiskError>)
        ensures
            match parse_unsigned(trimmed(reply@), u64::MAX as nat) {
                Some(v) => r == Ok::<DiskManager, DiskError>(DiskManager { block_size: v as u64 }),
                None => r == Err::<DiskManager, DiskError>(DiskError::BadNumber),
            },
    {
        match read_line_as_u64(reply) {
            Ok(block_size) => Ok(DiskManager { block_size }),
            Err(e) => Err(e),
        }
    }

    /// The request for the first block of the scratch region; the answer
    /// is a line read with [`read_line_as_u64`].
    pub fn get_anon_start_block(&self) -> (r: Vec<u8>)
        ensures
            r@ == "get anon-start-block\n".spec_bytes(),
    {
        let mut out: Vec<u8> = Vec::new();
        push_text(&mut out, "get anon-start-block\n");
        out
    }

    /// The request for the first block of a file; the answer is a line
    /// read with [`read_line_as_u64`].
    pub fn get_file_start_block(&self, file_id: &str) -> (r: Vec<u8>)
        ensures
            r@ == "get file start-block ".spec_bytes() + file_id.spec_bytes() + "\n".spec_bytes(),
    {
        let mut out: Vec<u8> = Vec::new();
        push_text(&mut out, "get file start-block ");
        push_text(&mut out, file_id);
        push_text(&mut out, "\n");
        out
    }

    /// The request for the number of blocks of a file; the answer is a
    /// line read with [`read_line_as_u64`].
    pub fn get_file_num_blocks(&self, file_id: &str) -> (r: Vec<u8>)
        ensures
            r@ == "get file num-blocks ".spec_bytes() + file_id.spec_bytes() + "\n".spec_bytes(),
    {
        let mut out: Vec<u8> = Vec::new();
        push_text(&mut out, "get file num-blocks ");
        push_text(&mut out, file_id);
        push_text(&mut out, "\n");
        out
    }

    /// The request for `count` blocks from `start_id`, and the number of
    /// bytes of the answer.
    pub fn read_blocks(&self, start_id: u64, count: u64) -> (r: (Vec<u8>, u64))
        requires
            count * self.block_size <= u64::MAX,
        ensures
            r.0@ == read_command(start_id, count),
            r.1 == count * self.block_size,
    {
        let mut out: Vec<u8> = Vec::new();
        push_text(&mut out, "get block ");
        push_number(&mut out, start_id);
        push_text(&mut out, " ");
        push_number(&mut out, count);
        push_text(&mut out, "\n");
        (out, count * self.block_size)
    }

    /// The message that writes `data` to consecutive blocks from
    /// `start_id`: a header naming as many whole blocks as `data` holds,
    /// then the bytes.
    pub fn write_blocks(&self, start_id: u64, data: &[u8]) -> (r: Vec<u8>)
        requires
            self.block_size > 0,
        ensures
            r@ == write_header(start_id, (data@.len() as u64 / self.block_size) as u64) + data@,
    {
        let count = data.len() as u64 / self.block_size;
        let mut out: Vec<u8> = Vec::new();
        push_text(&mut out, "put block ");
        push_number(&mut out, start_id);
        push_text(&mut out, " ");
        push_number(&mut out, count);
        push_text(&mut out, "\n");
        let ghost header = out@;
        let mut i: usize = 0;
        while i < data.len()
            invariant
                i <= data@.len(),
                out@ == header + data@.subrange(0, i as int),
            decreases data.len() - i,
        {
            out.push(data[i]);
            i += 1;
            assert(out@ =~= header + data@.subrange(0, i as int));
        }
        assert(data@.subrange(0, i as int) =~= data@);
        out
    }

    /// The request that answers a request the buffer pool recorded, and
    /// the number of raw bytes of its answer (`None`: the answer is a line
    /// holding a number).
    pub fn request_bytes(&self, req: &DiskRequest) -> (r: (Vec<u8>, Option<u64>))
        requires
            req matches DiskRequest::ReadBlocks { count, .. } ==> count * self.block_size <= u64::MAX,
        ensures
            match req {
                DiskRequest::AnonStartBlock => r.0@ == "get anon-start-block\n".spec_bytes() && r.1 is None,
                DiskRequest::FileStartBlock(id) => r.0@ == "get file start-block ".spec_bytes()
                    + name_bytes(*id) + "\n".spec_bytes() && r.1 is None,
                DiskRequest::FileNumBlocks(id) => r.0@ == "get file num-blocks ".spec_bytes()
                    + name_bytes(*id) + "\n".spec_bytes() && r.1 is None,
                DiskRequest::ReadBlocks { start, count } => r.0@ == read_command(*start, *count)
                    && r.1 == Some((*count * self.block_size) as u64),
            },
    {
        match req {
            DiskRequest::AnonStartBlock => (self.get_anon_start_block(), None),
            DiskRequest::FileStartBlock(id) => (self.get_file_start_block(id.as_str()), None),
            DiskRequest::FileNumBlocks(id) => (self.get_file_num_blocks(id.as_str()), None),
            DiskRequest::ReadBlocks { start, count } => {
                let (c, n) = self.read_blocks(*start, *count);
                (c, Some(n))
            },
        }
    }
}

} // verus!
