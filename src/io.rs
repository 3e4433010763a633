//! A minimal byte sink, with an implementation for `Vec<u8>`.

use vstd::prelude::*;

verus! {

/// The kind of an I/O failure.
#[derive(Clone, Copy, Debug, PartialEq, Eq)]
pub enum ErrorKind {
    Other,
}

/// An I/O failure of a byte sink. Writing into memory never fails.
#[derive(Clone, Copy, Debug, PartialEq, Eq)]
pub struct Error;

impl Error {
    pub fn new(_kind: ErrorKind) -> (r: Error) {
        Error
    }
}

pub type Result<T> = core::result::Result<T, Error>;

/// A sink of bytes. `written` is everything that has reached the sink.
pub trait Write {
    spec fn written(&self) -> Seq<u8>;

    fn write(&mut self, buf: &[u8]) -> (r: Result<usize>)
        ensures
            r is Ok ==> r->Ok_0 == buf@.len() && final(self).written() == old(self).written() + buf@,
            r is Err ==> final(self).written() == old(self).written(),
    ;

    fn write_all(&mut self, buf: &[u8]) -> (r: Result<()>)
        ensures
            r is Ok ==> final(self).written() == old(self).written() + buf@,
            r is Err ==> final(self).written() == old(self).written(),
    ;

    fn flush(&mut self) -> (r: Result<()>)
        ensures
            final(self).written() == old(self).written(),
    ;
}

impl Write for Vec<u8> {
    open spec fn written(&self) -> Seq<u8> {
        self@
    }

    fn write(&mut self, buf: &[u8]) -> (r: Result<usize>)
        ensures
            r == Ok::<usize, Error>(buf@.len() as usize),
    {
        let mut i: usize = 0;
        while i < buf.len()
            invariant
                i <= buf@.len(),
                self@ == old(self)@ + buf@.subrange(0, i as int),
            decreases buf@.len() - i,
        {
            self.push(buf[i]);
            i = i + 1;
            assert(self@ =~= old(self)@ + buf@.subrange(0, i as int));
        }
        assert(buf@.subrange(0, buf@.len() as int) =~= buf@);
        Ok(buf.len())
    }

    fn write_all(&mut self, buf: &[u8]) -> (r: Result<()>)
        ensures
            r is Ok,
    {
        let _ = self.write(buf);
        Ok(())
    }

    fn flush(&mut self) -> (r: Result<()>)
        ensures
            r is Ok,
    {
        Ok(())
    }
}

} // verus!
