//! A byte buffer read and written in big-endian order, with a cursor.

use vstd::prelude::*;
use vstd::arithmetic::div_mod::{lemma_fundamental_div_mod, lemma_div_denominator};

verus! {

/// The value of two big-endian bytes.
pub open spec fn spec_u16_of_be(s: Seq<u8>) -> int
    recommends
        s.len() == 2,
{
    s[0] * 0x100 + s[1]
}

/// The value of four big-endian bytes.
pub open spec fn spec_u32_of_be(s: Seq<u8>) -> int
    recommends
        s.len() == 4,
{
    s[0] * 0x1000000 + s[1] * 0x10000 + s[2] * 0x100 + s[3]
}

/// The value of eight big-endian bytes.
pub open spec fn spec_u64_of_be(s: Seq<u8>) -> int
    recommends
        s.len() == 8,
{
    s[0] * 0x100000000000000 + s[1] * 0x1000000000000 + s[2] * 0x10000000000 + s[3] * 0x100000000
        + s[4] * 0x1000000 + s[5] * 0x10000 + s[6] * 0x100 + s[7]
}

/// The two big-endian bytes of a `u16`.
pub open spec fn spec_u16_to_be(n: u16) -> Seq<u8> {
    seq![(n / 0x100) as u8, (n % 0x100) as u8]
}

/// The four big-endian bytes of a `u32`.
pub open spec fn spec_u32_to_be(n: u32) -> Seq<u8> {
    seq![
        (n / 0x1000000) as u8,
        ((n / 0x10000) % 0x100) as u8,
        ((n / 0x100) % 0x100) as u8,
        (n % 0x100) as u8,
    ]
}

/// The eight big-endian bytes of a `u64`.
pub open spec fn spec_u64_to_be(n: u64) -> Seq<u8> {
    seq![
        (n / 0x100000000000000) as u8,
        ((n / 0x1000000000000) % 0x100) as u8,
        ((n / 0x10000000000) % 0x100) as u8,
        ((n / 0x100000000) % 0x100) as u8,
        ((n / 0x1000000) % 0x100) as u8,
        ((n / 0x10000) % 0x100) as u8,
        ((n / 0x100) % 0x100) as u8,
        (n % 0x100) as u8,
    ]
}

/// Splitting a value into big-endian bytes and reading them back gives the
/// value again.
pub proof fn lemma_u16_be_roundtrip(n: u16)
    ensures
        spec_u16_of_be(spec_u16_to_be(n)) == n,
{
    lemma_fundamental_div_mod(n as int, 0x100);
}

/// Splitting a value into big-endian bytes and reading them back gives the
/// value again.
pub proof fn lemma_u32_be_roundtrip(n: u32)
    ensures
        spec_u32_of_be(spec_u32_to_be(n)) == n,
{
    let x = n as int;
    lemma_fundamental_div_mod(x, 0x100);
    lemma_fundamental_div_mod(x / 0x100, 0x100);
    lemma_fundamental_div_mod(x / 0x10000, 0x100);
    lemma_div_denominator(x, 0x100, 0x100);
    lemma_div_denominator(x, 0x10000, 0x100);
}

/// Splitting a value into big-endian bytes and reading them back gives the
/// value again.
pub proof fn lemma_u64_be_roundtrip(n: u64)
    ensures
        spec_u64_of_be(spec_u64_to_be(n)) == n,
{
    let x = n as int;
    lemma_fundamental_div_mod(x, 0x100);
    lemma_fundamental_div_mod(x / 0x100, 0x100);
    lemma_fundamental_div_mod(x / 0x10000, 0x100);
    lemma_fundamental_div_mod(x / 0x1000000, 0x100);
    lemma_fundamental_div_mod(x / 0x100000000, 0x100);
    lemma_fundamental_div_mod(x / 0x10000000000, 0x100);
    lemma_fundamental_div_mod(x / 0x1000000000000, 0x100);
    lemma_div_denominator(x, 0x100, 0x100);
    lemma_div_denominator(x, 0x10000, 0x100);
    lemma_div_denominator(x, 0x1000000, 0x100);
    lemma_div_denominator(x, 0x100000000, 0x100);
    lemma_div_denominator(x, 0x10000000000, 0x100);
    lemma_div_denominator(x, 0x1000000000000, 0x100);
}

/// A byte buffer with a cursor.  Reads consume bytes at the cursor; writes
/// append at the end of the buffer, where the cursor sits while writing.
#[derive(Debug)]
pub struct Bytes {
    pub data: Vec<u8>,
    pub index: usize,
}

impl Bytes {
    /// Creates a buffer over `data`, to be read from the start onwards.
    pub fn new(data: Vec<u8>) -> (r: Bytes)
        ensures
            r.data == data,
            r.index == 0,
    {
        Bytes { data, index: 0 }
    }

    pub fn index(&self) -> (r: usize)
        ensures
            r == self.index,
    {
        self.index
    }

    /// An empty buffer with room reserved for `length` bytes.
    pub fn reserve(length: usize) -> (r: Bytes)
        ensures
            r.data@ == Seq::<u8>::empty(),
            r.index == 0,
    {
        Bytes { data: Vec::with_capacity(length), index: 0 }
    }

    /// An empty buffer with room reserved for exactly `length` bytes.
    pub fn reserve_exact(length: usize) -> (r: Bytes)
        ensures
            r.data@ == Seq::<u8>::empty(),
            r.index == 0,
    {
        Bytes { data: Vec::with_capacity(length), index: 0 }
    }

    /// Whether any bytes remain to be read.
    pub fn yet_readding(&self) -> (r: bool)
        ensures
            r == (self.data@.len() > self.index),
    {
        self.data.len() > self.index
    }

    pub fn read_u8(&mut self) -> (r: u8)
        requires
            old(self).index + 1 <= old(self).data.len(),
        ensures
            final(self).data@ == old(self).data@,
            final(self).index == old(self).index + 1,
            r == old(self).data@[old(self).index as int],
    {
        let number = self.data[self.index];
        self.index = self.index + 1;
        number
    }

    pub fn read_u16(&mut self) -> (r: u16)
        requires
            old(self).index + 2 <= old(self).data.len(),
        ensures
            final(self).data@ == old(self).data@,
            final(self).index == old(self).index + 2,
            r == spec_u16_of_be(old(self).data@.subrange(
                old(self).index as int,
                old(self).index + 2,
            )),
    {
        let i = self.index;
        let number = (self.data[i] as u16) * 0x100 + (self.data[i + 1] as u16);
        self.index = i + 2;
        number
    }

    pub fn read_u32(&mut self) -> (r: u32)
        requires
            old(self).index + 4 <= old(self).data.len(),
        ensures
            final(self).data@ == old(self).data@,
            final(self).index == old(self).index + 4,
            r == spec_u32_of_be(old(self).data@.subrange(
                old(self).index as int,
                old(self).index + 4,
            )),
    {
        let i = self.index;
        let number = (self.data[i] as u32) * 0x1000000 + (self.data[i + 1] as u32) * 0x10000
            + (self.data[i + 2] as u32) * 0x100 + (self.data[i + 3] as u32);
        self.index = i + 4;
        number
    }

    pub fn read_u64(&mut self) -> (r: u64)
        requires
            old(self).index + 8 <= old(self).data.len(),
        ensures
            final(self).data@ == old(self).data@,
            final(self).index == old(self).index + 8,
            r == spec_u64_of_be(old(self).data@.subrange(
                old(self).index as int,
                old(self).index + 8,
            )),
    {
        let i = self.index;
        let number = (self.data[i] as u64) * 0x100000000000000
            + (self.data[i + 1] as u64) * 0x1000000000000
            + (self.data[i + 2] as u64) * 0x10000000000
            + (self.data[i + 3] as u64) * 0x100000000
            + (self.data[i + 4] as u64) * 0x1000000
            + (self.data[i + 5] as u64) * 0x10000
            + (self.data[i + 6] as u64) * 0x100
            + (self.data[i + 7] as u64);
        self.index = i + 8;
        number
    }

    /// Reads the next `len` bytes as an owned copy, or `None` when fewer
    /// remain.
    pub fn read_slice(&mut self, len: usize) -> (r: Option<Vec<u8>>)
        requires
            old(self).index <= old(self).data.len(),
        ensures
            final(self).data@ == old(self).data@,
            r is Some <==> old(self).index + len <= old(self).data.len(),
            r is Some ==> {
                &&& r.unwrap()@ == old(self).data@.subrange(
                    old(self).index as int,
                    old(self).index + len,
                )
                &&& final(self).index == old(self).index + len
            },
            r is None ==> final(self).index == old(self).index,
    {
        if len > self.data.len() - self.index {
            return None;
        }
        let start = self.index;
        let mut out: Vec<u8> = Vec::with_capacity(len);
        let mut k: usize = 0;
        while k < len
            invariant
                start + len <= self.data.len(),
                k <= len,
                self.index == start,
                out@ == self.data@.subrange(start as int, start + k),
            decreases len - k,
        {
            out.push(self.data[start + k]);
            proof {
                assert(out@ =~= self.data@.subrange(start as int, start + k + 1));
            }
            k = k + 1;
        }
        self.index = start + len;
        Some(out)
    }

    pub fn write_u8(&mut self, number: u8)
        requires
            old(self).index == old(self).data.len(),
        ensures
            final(self).data@ == old(self).data@.push(number),
            final(self).index == final(self).data@.len(),
    {
        self.data.push(number);
        self.index = self.data.len();
    }

    pub fn write_u16(&mut self, number: u16)
        requires
            old(self).index == old(self).data.len(),
        ensures
            final(self).data@ == old(self).data@ + spec_u16_to_be(number),
            final(self).index == final(self).data@.len(),
    {
        self.data.push((number / 0x100) as u8);
        self.data.push((number % 0x100) as u8);
        self.index = self.data.len();
        proof {
            assert(self.data@ =~= old(self).data@ + spec_u16_to_be(number));
        }
    }

    pub fn write_u32(&mut self, number: u32)
        requires
            old(self).index == old(self).data.len(),
        ensures
            final(self).data@ == old(self).data@ + spec_u32_to_be(number),
            final(self).index == final(self).data@.len(),
    {
        self.data.push((number / 0x1000000) as u8);
        self.data.push(((number / 0x10000) % 0x100) as u8);
        self.data.push(((number / 0x100) % 0x100) as u8);
        self.data.push((number % 0x100) as u8);
        self.index = self.data.len();
        proof {
            assert(self.data@ =~= old(self).data@ + spec_u32_to_be(number));
        }
    }

    pub fn write_u64(&mut self, number: u64)
        requires
            old(self).index == old(self).data.len(),
        ensures
            final(self).data@ == old(self).data@ + spec_u64_to_be(number),
            final(self).index == final(self).data@.len(),
    {
        self.data.push((number / 0x100000000000000) as u8);
        self.data.push(((number / 0x1000000000000) % 0x100) as u8);
        self.data.push(((number / 0x10000000000) % 0x100) as u8);
        self.data.push(((number / 0x100000000) % 0x100) as u8);
        self.data.push(((number / 0x1000000) % 0x100) as u8);
        self.data.push(((number / 0x10000) % 0x100) as u8);
        self.data.push(((number / 0x100) % 0x100) as u8);
        self.data.push((number % 0x100) as u8);
        self.index = self.data.len();
        proof {
            assert(self.data@ =~= old(self).data@ + spec_u64_to_be(number));
        }
    }

    pub fn write_slice(&mut self, slice: &Vec<u8>)
        requires
            old(self).index == old(self).data.len(),
        ensures
            final(self).data@ == old(self).data@ + slice@,
            final(self).index == final(self).data@.len(),
    {
        let ghost start = self.data@.len();
        let mut k: usize = 0;
        while k < slice.len()
            invariant
                k <= slice@.len(),
                self.data@ == old(self).data@ + slice@.subrange(0, k as int),
                self.index == start,
                start == old(self).data@.len(),
            decreases slice@.len() - k,
        {
            self.data.push(slice[k]);
            proof {
                assert(self.data@ =~= old(self).data@ + slice@.subrange(0, k + 1));
            }
            k = k + 1;
        }
        proof {
            assert(slice@.subrange(0, slice@.len() as int) =~= slice@);
        }
        self.index = self.data.len();
    }
}

} // verus!
