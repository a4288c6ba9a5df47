//! The read cursor: a window over an input buffer that is consumed from
//! its front or from its back.
use vstd::prelude::*;

use crate::bytes::{be_decode, be_value};
use crate::err::SerdeErr;

verus! {

/// What a cursor is: the bytes still to read, the end that reads take from,
/// and how many bytes were consumed so far.
pub struct Window {
    pub bytes: Seq<u8>,
    pub forward: bool,
    pub used: nat,
}

/// Takes `n` bytes from the active end of `w`: the front when reading
/// forward, the back when reading in reverse.
pub open spec fn take_spec(w: Window, n: nat) -> Result<(Seq<u8>, Window), SerdeErr> {
    if w.bytes.len() < n {
        Err(SerdeErr::Eof)
    } else if w.forward {
        Ok(
            (
                w.bytes.subrange(0, n as int),
                Window { bytes: w.bytes.subrange(n as int, w.bytes.len() as int), used: w.used + n, ..w },
            ),
        )
    } else {
        let k = w.bytes.len() - n;
        Ok(
            (
                w.bytes.subrange(k, w.bytes.len() as int),
                Window { bytes: w.bytes.subrange(0, k), used: w.used + n, ..w },
            ),
        )
    }
}

/// Keeps the first `n` bytes of the window when reading forward, the last
/// `n` when reading in reverse. The bytes cut off are not consumed.
pub open spec fn truncate_spec(w: Window, n: nat) -> Result<Window, SerdeErr> {
    if w.bytes.len() < n {
        Err(SerdeErr::Eof)
    } else if w.forward {
        Ok(Window { bytes: w.bytes.subrange(0, n as int), ..w })
    } else {
        Ok(Window { bytes: w.bytes.subrange(w.bytes.len() - n, w.bytes.len() as int), ..w })
    }
}

/// The cursor over a buffer that record decoding reads from.
pub struct NetStructDeserializer<'a> {
    buf: &'a [u8],
    dir: bool,
    init_count: usize,
    dropped: usize,
}

impl<'a> View for NetStructDeserializer<'a> {
    type V = Window;

    closed spec fn view(&self) -> Window {
        Window {
            bytes: self.buf@,
            forward: self.dir,
            used: (self.init_count - self.buf@.len() - self.dropped) as nat,
        }
    }
}

impl<'a> NetStructDeserializer<'a> {
    /// The cursor's own bookkeeping holds together.
    pub closed spec fn wf(&self) -> bool {
        self.buf@.len() + self.dropped <= self.init_count
    }

    /// A cursor over all of `buf`, reading forward, with nothing consumed.
    pub fn new(buf: &'a [u8]) -> (r: Self)
        ensures
            r.wf(),
            r@ == (Window { bytes: buf@, forward: true, used: 0 }),
    {
        NetStructDeserializer { buf, dir: true, init_count: buf.len(), dropped: 0 }
    }

    /// The number of bytes left in the window.
    pub fn remaining(&self) -> (r: usize)
        ensures
            r == self@.bytes.len(),
    {
        self.buf.len()
    }

    /// Whether reads take from the front.
    pub fn forward(&self) -> (r: bool)
        ensures
            r == self@.forward,
    {
        self.dir
    }

    /// Succeeds when at least `len` bytes are left.
    pub fn expect(&self, len: usize) -> (r: Result<(), SerdeErr>)
        ensures
            r == (if self@.bytes.len() >= len {
                Ok::<(), SerdeErr>(())
            } else {
                Err(SerdeErr::Eof)
            }),
    {
        if self.remaining() >= len {
            Ok(())
        } else {
            Err(SerdeErr::Eof)
        }
    }

    /// Takes `n` bytes from the active end of the window.
    pub fn take(&mut self, n: usize) -> (r: Result<Vec<u8>, SerdeErr>)
        requires
            old(self).wf(),
        ensures
            final(self).wf(),
            match take_spec(old(self)@, n as nat) {
                Ok((b, w)) => r matches Ok(v) && v@ == b && final(self)@ == w,
                Err(e) => r == Err::<Vec<u8>, SerdeErr>(e) && final(self)@ == old(self)@,
            },
    {
        let len = self.buf.len();
        if len < n {
            return Err(SerdeErr::Eof);
        }
        if self.dir {
            let head = vstd::slice::slice_subrange(self.buf, 0, n);
            let v = vstd::slice::slice_to_vec(head);
            self.buf = vstd::slice::slice_subrange(self.buf, n, len);
            Ok(v)
        } else {
            let tail = vstd::slice::slice_subrange(self.buf, len - n, len);
            let v = vstd::slice::slice_to_vec(tail);
            self.buf = vstd::slice::slice_subrange(self.buf, 0, len - n);
            Ok(v)
        }
    }

    /// Drops `n` bytes at the active end of the window, as consumed.
    pub fn skip(&mut self, n: usize) -> (r: Result<(), SerdeErr>)
        requires
            old(self).wf(),
        ensures
            final(self).wf(),
            match take_spec(old(self)@, n as nat) {
                Ok((_, w)) => r == Ok::<(), SerdeErr>(()) && final(self)@ == w,
                Err(e) => r == Err::<(), SerdeErr>(e) && final(self)@ == old(self)@,
            },
    {
        match self.take(n) {
            Ok(_) => Ok(()),
            Err(e) => Err(e),
        }
    }

    /// Keeps only `n` bytes of the window, the first when reading forward
    /// and the last when reading in reverse.
    pub fn truncate(&mut self, n: usize) -> (r: Result<(), SerdeErr>)
        requires
            old(self).wf(),
        ensures
            final(self).wf(),
            match truncate_spec(old(self)@, n as nat) {
                Ok(w) => r == Ok::<(), SerdeErr>(()) && final(self)@ == w,
                Err(e) => r == Err::<(), SerdeErr>(e) && final(self)@ == old(self)@,
            },
    {
        let len = self.buf.len();
        if len < n {
            return Err(SerdeErr::Eof);
        }
        if self.dir {
            self.buf = vstd::slice::slice_subrange(self.buf, 0, n);
        } else {
            self.buf = vstd::slice::slice_subrange(self.buf, len - n, len);
        }
        self.dropped = self.dropped + (len - n);
        Ok(())
    }

    /// Switches the end that reads take from.
    pub fn reverse(&mut self)
        requires
            old(self).wf(),
        ensures
            final(self).wf(),
            final(self)@ == (Window { forward: !old(self)@.forward, ..old(self)@ }),
    {
        self.dir = !self.dir;
    }

    /// The number of bytes consumed so far.
    pub fn finalize(&self) -> (r: usize)
        requires
            self.wf(),
        ensures
            r == self@.used,
    {
        self.init_count - self.buf.len() - self.dropped
    }

    /// Reads a big-endian unsigned integer of `width` bytes.
    pub fn deserialize_uint(&mut self, width: usize) -> (r: Result<u64, SerdeErr>)
        requires
            old(self).wf(),
            width <= 8,
        ensures
            final(self).wf(),
            match take_spec(old(self)@, width as nat) {
                Ok((b, w)) => r matches Ok(v) && v as nat == be_value(b) && final(self)@ == w,
                Err(e) => r == Err::<u64, SerdeErr>(e) && final(self)@ == old(self)@,
            },
    {
        let b = self.take(width)?;
        Ok(be_decode(b.as_slice()))
    }

    /// Reads one byte.
    pub fn deserialize_u8(&mut self) -> (r: Result<u8, SerdeErr>)
        requires
            old(self).wf(),
        ensures
            final(self).wf(),
            match take_spec(old(self)@, 1) {
                Ok((b, w)) => r == Ok::<u8, SerdeErr>(b[0]) && final(self)@ == w,
                Err(e) => r == Err::<u8, SerdeErr>(e) && final(self)@ == old(self)@,
            },
    {
        let b = self.take(1)?;
        Ok(b[0])
    }

    /// Reads a big-endian `u16`.
    pub fn deserialize_u16(&mut self) -> (r: Result<u16, SerdeErr>)
        requires
            old(self).wf(),
        ensures
            final(self).wf(),
            match take_spec(old(self)@, 2) {
                Ok((b, w)) => r matches Ok(v) && v as nat == be_value(b) && final(self)@ == w,
                Err(e) => r == Err::<u16, SerdeErr>(e) && final(self)@ == old(self)@,
            },
    {
        let v = self.deserialize_uint(2)?;
        proof {
            let b = take_spec(old(self)@, 2).unwrap().0;
            crate::bytes::lemma_be_value_bound(b);
            assert(crate::bytes::pow256(2) == 65536) by {
                reveal_with_fuel(crate::bytes::pow256, 3);
            }
        }
        Ok(v as u16)
    }

    /// Reads a big-endian `u32`.
    pub fn deserialize_u32(&mut self) -> (r: Result<u32, SerdeErr>)
        requires
            old(self).wf(),
        ensures
            final(self).wf(),
            match take_spec(old(self)@, 4) {
                Ok((b, w)) => r matches Ok(v) && v as nat == be_value(b) && final(self)@ == w,
                Err(e) => r == Err::<u32, SerdeErr>(e) && final(self)@ == old(self)@,
            },
    {
        let v = self.deserialize_uint(4)?;
        proof {
            let b = take_spec(old(self)@, 4).unwrap().0;
            crate::bytes::lemma_be_value_bound(b);
            assert(crate::bytes::pow256(4) == 0x1_0000_0000) by {
                reveal_with_fuel(crate::bytes::pow256, 5);
            }
        }
        Ok(v as u32)
    }

    /// Reads a big-endian `u64`.
    pub fn deserialize_u64(&mut self) -> (r: Result<u64, SerdeErr>)
        requires
            old(self).wf(),
        ensures
            final(self).wf(),
            match take_spec(old(self)@, 8) {
                Ok((b, w)) => r matches Ok(v) && v as nat == be_value(b) && final(self)@ == w,
                Err(e) => r == Err::<u64, SerdeErr>(e) && final(self)@ == old(self)@,
            },
    {
        self.deserialize_uint(8)
    }

    /// Reads a one-byte boolean: any byte but zero is true.
    pub fn deserialize_bool(&mut self) -> (r: Result<bool, SerdeErr>)
        requires
            old(self).wf(),
        ensures
            final(self).wf(),
            match take_spec(old(self)@, 1) {
                Ok((b, w)) => r == Ok::<bool, SerdeErr>(b[0] != 0) && final(self)@ == w,
                Err(e) => r == Err::<bool, SerdeErr>(e) && final(self)@ == old(self)@,
            },
    {
        let b = self.deserialize_u8()?;
        Ok(b != 0)
    }

    /// Reads an optional unsigned integer of `width` bytes: `None` when the
    /// window is empty.
    pub fn deserialize_option(&mut self, width: usize) -> (r: Result<Option<u64>, SerdeErr>)
        requires
            old(self).wf(),
            width <= 8,
        ensures
            final(self).wf(),
            old(self)@.bytes.len() == 0 ==> r == Ok::<Option<u64>, SerdeErr>(None) && final(self)@
                == old(self)@,
            old(self)@.bytes.len() > 0 ==> match take_spec(old(self)@, width as nat) {
                Ok((b, w)) => r matches Ok(Some(v)) && v as nat == be_value(b) && final(self)@ == w,
                Err(e) => r == Err::<Option<u64>, SerdeErr>(e) && final(self)@ == old(self)@,
            },
    {
        match self.expect(1) {
            Ok(()) => {
                let v = self.deserialize_uint(width)?;
                Ok(Some(v))
            },
            Err(_) => Ok(None),
        }
    }
}

} // verus!
