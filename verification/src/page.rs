//! Page formats: headers of index and data-file pages, and the
//! capacity a page of a given block length offers.

use vstd::prelude::*;
use crate::bytescoder::{spec_be32, spec_from_be32};
use vstd::bytes::{u32_to_le_bytes, u32_from_le_bytes, spec_u32_to_le_bytes};

verus! {

pub const FILE_HEADER_SIZE: usize = 20;

pub const INDEX_INTERNAL_HEADER_SIZE: usize = 20;

pub const INDEX_LEAF_HEADER_SIZE: usize = 20;

/// The default page size when none is configured.
pub const DEFAULT_PAGE_SIZE: usize = 4096;

/// The header of a data-file page.
#[derive(Debug)]
pub struct FileHeader {
    pub pid: u32,
    pub capacity: usize,
    pub block_length: usize,
}

/// How many records of one block length fit in a page after its header.
pub fn get_file_capacity(block_length: &usize) -> (r: usize)
    requires
        *block_length >= 1,
    ensures
        r == (DEFAULT_PAGE_SIZE - FILE_HEADER_SIZE) / (*block_length as int),
{
    (DEFAULT_PAGE_SIZE - FILE_HEADER_SIZE) / *block_length
}

fn push_be32(out: &mut Vec<u8>, v: u32)
    ensures
        final(out)@ == old(out)@ + spec_be32(v),
{
    let le = u32_to_le_bytes(v);
    let ghost before = out@;
    out.push(le[3]);
    out.push(le[2]);
    out.push(le[1]);
    out.push(le[0]);
    proof {
        assert(out@ =~= before + spec_u32_to_le_bytes(v).reverse());
    }
}

impl FileHeader {
    /// The header as bytes: pid, capacity, and block length, each as a
    /// big-endian 32-bit integer.
    pub fn to_bytes(&self) -> (r: Vec<u8>)
        requires
            self.capacity <= 0x7fff_ffff,
            self.block_length <= 0x7fff_ffff,
        ensures
            r@ == spec_be32(self.pid) + spec_be32(self.capacity as u32) + spec_be32(
                self.block_length as u32,
            ),
    {
        let mut out: Vec<u8> = Vec::new();
        push_be32(&mut out, self.pid);
        push_be32(&mut out, self.capacity as u32);
        push_be32(&mut out, self.block_length as u32);
        proof {
            assert(out@ =~= spec_be32(self.pid) + spec_be32(self.capacity as u32) + spec_be32(
                self.block_length as u32,
            ));
        }
        out
    }

    /// Reads a header back from its first twelve bytes.
    pub fn from_bytes(bytes: &Vec<u8>) -> (r: FileHeader)
        requires
            bytes@.len() >= 12,
        ensures
            r.pid == spec_from_be32(bytes@.subrange(0, 4)),
            r.capacity == spec_from_be32(bytes@.subrange(4, 8)) as usize,
            r.block_length == spec_from_be32(bytes@.subrange(8, 12)) as usize,
    {
        let pid = read_be32(bytes, 0);
        let capacity = read_be32(bytes, 4) as usize;
        let block_length = read_be32(bytes, 8) as usize;
        FileHeader { pid, capacity, block_length }
    }
}

fn read_be32(bytes: &Vec<u8>, at: usize) -> (r: u32)
    requires
        at <= usize::MAX - 4,
        at + 4 <= bytes@.len(),
    ensures
        r == spec_from_be32(bytes@.subrange(at as int, at + 4)),
{
    let mut le: Vec<u8> = Vec::new();
    le.push(bytes[at + 3]);
    le.push(bytes[at + 2]);
    le.push(bytes[at + 1]);
    le.push(bytes[at]);
    proof {
        assert(le@ =~= bytes@.subrange(at as int, at + 4).reverse());
    }
    u32_from_le_bytes(le.as_slice())
}

/// A data-file page: its encoded header and its content bytes.
#[derive(Debug)]
pub struct DataFilePage {
    pub header: Vec<u8>,
    pub content: Vec<u8>,
}

impl DataFilePage {
    /// A fresh page for records of the given block length: the header
    /// carries the page id, the page's capacity, and the block length;
    /// the content starts empty.
    pub fn new(pid: u32, block_length: usize) -> (r: DataFilePage)
        requires
            1 <= block_length <= 0x7fff_ffff,
        ensures
            ({
                let cap = (DEFAULT_PAGE_SIZE - FILE_HEADER_SIZE) / (block_length as int);
                &&& r.header@ == spec_be32(pid) + spec_be32(cap as u32) + spec_be32(
                    block_length as u32,
                )
                &&& r.content@.len() == 0
            }),
    {
        let capacity = get_file_capacity(&block_length);
        let header = FileHeader { pid, capacity, block_length };
        DataFilePage { header: header.to_bytes(), content: Vec::new() }
    }
}

} // verus!
