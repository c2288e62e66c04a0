//! Standard output: accepts text to print.
use vstd::prelude::*;
use vstd::utf8::{valid_utf8, decode_utf8};
use crate::fs::{FsError, FsResult};

verus! {

/// Calls `core::str::from_utf8(bytes)`, which accepts exactly the byte
/// strings that are well-formed UTF-8 and then returns them as text.
#[verifier::external_body]
fn utf8_text(bytes: &[u8]) -> (r: Option<&str>)
    ensures
        r is Some <==> valid_utf8(bytes@),
        r matches Some(text) ==> text@ == decode_utf8(bytes@),
{
    core::str::from_utf8(bytes).ok()
}

/// The console as a file that can only be written.
#[derive(Debug, Default)]
pub struct Stdout;

impl Stdout {
    /// Standard output cannot be read.
    pub fn read_at(&self, offset: usize, buf: &mut [u8]) -> (r: FsResult<usize>)
        ensures
            r == Err::<usize, FsError>(FsError::NotSupported),
            final(buf)@ == old(buf)@,
    {
        Err(FsError::NotSupported)
    }

    /// Writes at offset 0 only: `buf` must be UTF-8 text. Returns the number
    /// of bytes written, all `buf.len()` of them, with the text, which the
    /// caller prints. Another offset is refused with `NotSupported`, bytes
    /// that are not UTF-8 with `InvalidParam`; nothing is printed then.
    pub fn write_at<'a>(&self, offset: usize, buf: &'a [u8]) -> (r: FsResult<(usize, &'a str)>)
        ensures
            offset != 0 ==> r == Err::<(usize, &str), FsError>(FsError::NotSupported),
            offset == 0 && !valid_utf8(buf@) ==> r == Err::<(usize, &str), FsError>(FsError::InvalidParam),
            offset == 0 && valid_utf8(buf@) ==> (r matches Ok((n, text)) && n == buf@.len() && text@ == decode_utf8(buf@)),
    {
        if offset != 0 {
            Err(FsError::NotSupported)
        } else {
            match utf8_text(buf) {
                Some(text) => Ok((buf.len(), text)),
                None => Err(FsError::InvalidParam),
            }
        }
    }

    /// Standard output cannot be polled.
    pub fn poll(&self) -> (r: FsResult<()>)
        ensures
            r == Err::<(), FsError>(FsError::NotSupported),
    {
        Err(FsError::NotSupported)
    }
}

} // verus!
