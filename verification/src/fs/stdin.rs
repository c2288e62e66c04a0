//! Standard input: a buffer of received bytes that reads drain.
use vstd::prelude::*;
use std::collections::VecDeque;
use crate::fs::{FsError, FsResult};

verus! {

/// What a read of standard input comes to.
#[derive(Debug, PartialEq, Eq, Structural)]
pub enum StdinRead {
    /// This many bytes were read.
    Read(usize),
    /// Nothing was pending: the reader waits until input arrives, and the
    /// read then counts 0 bytes.
    Wait,
}

/// The bytes typed but not read yet.
pub struct Stdin {
    buffer: VecDeque<u8>,
}

impl Stdin {
    /// The unread bytes, oldest first.
    pub closed spec fn pending(&self) -> Seq<u8> {
        self.buffer@
    }

    /// An empty input.
    pub fn new() -> (r: Self)
        ensures
            r.pending() == Seq::<u8>::empty(),
    {
        Stdin { buffer: VecDeque::new() }
    }

    /// Records a received byte.
    pub fn push(&mut self, byte: u8)
        ensures
            final(self).pending() == old(self).pending().push(byte),
    {
        self.buffer.push_back(byte);
    }

    /// Whether no byte waits to be read (a reader then has to wait).
    pub fn is_empty(&self) -> (r: bool)
        ensures
            r == (self.pending().len() == 0),
    {
        self.buffer.len() == 0
    }

    /// Standard input cannot be written.
    pub fn write_at(&self, offset: usize, buf: &[u8]) -> (r: FsResult<usize>)
        ensures
            r == Err::<usize, FsError>(FsError::NotSupported),
    {
        Err(FsError::NotSupported)
    }

    /// Standard input cannot be polled.
    pub fn poll(&self) -> (r: FsResult<()>)
        ensures
            r == Err::<(), FsError>(FsError::NotSupported),
    {
        Err(FsError::NotSupported)
    }

    /// Reads at offset 0 only. With bytes pending, moves the oldest of them
    /// into `buf`, as many as fit, and returns how many. With nothing pending
    /// it reads nothing and returns `Wait`: the reader waits for input, and
    /// the read counts 0 bytes. Any other offset is refused with
    /// `NotSupported`.
    pub fn read_at(&mut self, offset: usize, buf: &mut [u8]) -> (r: FsResult<StdinRead>)
        ensures
            offset != 0 ==> r == Err::<StdinRead, FsError>(FsError::NotSupported) && final(self).pending() == old(self).pending()
                && final(buf)@ == old(buf)@,
            offset == 0 && old(self).pending().len() == 0 ==> r == Ok::<StdinRead, FsError>(StdinRead::Wait)
                && final(self).pending() == old(self).pending() && final(buf)@ == old(buf)@,
            offset == 0 && old(self).pending().len() > 0 ==> {
                let n = if old(self).pending().len() < old(buf)@.len() { old(self).pending().len() } else { old(buf)@.len() };
                &&& r == Ok::<StdinRead, FsError>(StdinRead::Read(n as usize))
                &&& final(self).pending() == old(self).pending().skip(n as int)
                &&& final(buf)@.len() == old(buf)@.len()
                &&& forall|i: int| 0 <= i < n ==> final(buf)@[i] == old(self).pending()[i]
                &&& forall|i: int| n <= i < old(buf)@.len() ==> final(buf)@[i] == old(buf)@[i]
            },
    {
        if offset != 0 {
            return Err(FsError::NotSupported);
        }
        if self.buffer.len() == 0 {
            return Ok(StdinRead::Wait);
        }
        let mut i: usize = 0;
        while i < buf.len()
            invariant
                offset == 0,
                old(self).pending().len() > 0,
                i <= buf@.len(),
                buf@.len() == old(buf)@.len(),
                i <= old(self).pending().len(),
                self.pending() == old(self).pending().skip(i as int),
                forall|j: int| 0 <= j < i ==> buf@[j] == old(self).pending()[j],
                forall|j: int| i <= j < buf@.len() ==> buf@[j] == old(buf)@[j],
            decreases buf@.len() - i,
        {
            match self.buffer.pop_front() {
                Some(b) => {
                    buf[i] = b;
                    proof {
                        assert(old(self).pending().skip(i as int)[0] == old(self).pending()[i as int]);
                        assert(self.pending() =~= old(self).pending().skip(i + 1));
                    }
                },
                None => {
                    return Ok(StdinRead::Read(i));
                },
            }
            i = i + 1;
        }
        Ok(StdinRead::Read(buf.len()))
    }
}

} // verus!
