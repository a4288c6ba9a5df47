//! The writer: fills a caller's buffer from its start.
use vstd::prelude::*;

use crate::bytes::{be_bytes, be_encode};
use crate::err::SerdeErr;

verus! {

/// What a writer is: the bytes written so far and the size of its buffer.
pub struct Output {
    pub written: Seq<u8>,
    pub capacity: nat,
}

/// Appends `v` to what `o` holds, or fails when the buffer has no room.
pub open spec fn write_spec(o: Output, v: Seq<u8>) -> Result<Output, SerdeErr> {
    if o.written.len() + v.len() <= o.capacity {
        Ok(Output { written: o.written + v, ..o })
    } else {
        Err(SerdeErr::NotEnoughSpace)
    }
}

/// The writer that record encoding writes to.
pub struct NetStructSerializer {
    buf: Vec<u8>,
    len: usize,
}

impl View for NetStructSerializer {
    type V = Output;

    closed spec fn view(&self) -> Output {
        Output { written: self.buf@.subrange(0, self.len as int), capacity: self.buf@.len() }
    }
}

impl NetStructSerializer {
    /// The writer's own bookkeeping holds together.
    pub closed spec fn wf(&self) -> bool {
        self.len <= self.buf@.len()
    }

    /// A writer over `buf`, with nothing written.
    pub fn new(buf: Vec<u8>) -> (r: Self)
        ensures
            r.wf(),
            r@ == (Output { written: seq![], capacity: buf@.len() }),
    {
        let r = NetStructSerializer { buf, len: 0 };
        assert(r.buf@.subrange(0, 0) =~= Seq::<u8>::empty());
        r
    }

    /// The number of bytes written.
    pub fn finalize(&self) -> (r: usize)
        requires
            self.wf(),
        ensures
            r == self@.written.len(),
    {
        self.len
    }

    /// The bytes written.
    pub fn written(&self) -> (r: &[u8])
        requires
            self.wf(),
        ensures
            r@ == self@.written,
    {
        vstd::slice::slice_subrange(self.buf.as_slice(), 0, self.len)
    }

    /// The whole buffer: the bytes written, then what was there before.
    pub fn into_inner(self) -> (r: Vec<u8>)
        requires
            self.wf(),
        ensures
            r@.len() == self@.capacity,
            r@.subrange(0, self@.written.len() as int) == self@.written,
    {
        self.buf
    }

    /// Appends `v` whole, or writes nothing and fails when the buffer has
    /// no room for it.
    pub fn serialize_bytes(&mut self, v: &[u8]) -> (r: Result<(), SerdeErr>)
        requires
            old(self).wf(),
        ensures
            final(self).wf(),
            match write_spec(old(self)@, v@) {
                Ok(o) => r == Ok::<(), SerdeErr>(()) && final(self)@ == o,
                Err(e) => r == Err::<(), SerdeErr>(e) && final(self)@ == old(self)@,
            },
    {
        if self.buf.len() - self.len < v.len() {
            return Err(SerdeErr::NotEnoughSpace);
        }
        let ghost start = self.len;
        let cap = self.buf.len();
        let mut i: usize = 0;
        while i < v.len()
            invariant
                cap == self.buf@.len(),
                self.len == start + i,
                start + v@.len() <= self.buf@.len() == old(self).buf@.len(),
                i <= v@.len(),
                self.buf@.subrange(0, self.len as int) =~= old(self)@.written + v@.subrange(0, i as int),
            decreases v@.len() - i,
        {
            let ghost before = self.buf@;
            self.buf[self.len] = v[i];
            assert(self.buf@.subrange(0, self.len as int) =~= before.subrange(0, self.len as int));
            assert(v@.subrange(0, i as int + 1) =~= v@.subrange(0, i as int).push(v@[i as int]));
            self.len = self.len + 1;
            i = i + 1;
        }
        assert(v@.subrange(0, i as int) =~= v@);
        Ok(())
    }

    /// Writes the `width` low-order bytes of `v`, most significant first.
    pub fn serialize_uint(&mut self, v: u64, width: usize) -> (r: Result<(), SerdeErr>)
        requires
            old(self).wf(),
        ensures
            final(self).wf(),
            match write_spec(old(self)@, be_bytes(v as nat, width as nat)) {
                Ok(o) => r == Ok::<(), SerdeErr>(()) && final(self)@ == o,
                Err(e) => r == Err::<(), SerdeErr>(e) && final(self)@ == old(self)@,
            },
    {
        let b = be_encode(v, width);
        self.serialize_bytes(b.as_slice())
    }

    /// Writes one byte.
    pub fn serialize_u8(&mut self, v: u8) -> (r: Result<(), SerdeErr>)
        requires
            old(self).wf(),
        ensures
            final(self).wf(),
            match write_spec(old(self)@, seq![v]) {
                Ok(o) => r == Ok::<(), SerdeErr>(()) && final(self)@ == o,
                Err(e) => r == Err::<(), SerdeErr>(e) && final(self)@ == old(self)@,
            },
    {
        let b = vec![v];
        assert(b@ =~= seq![v]);
        self.serialize_bytes(b.as_slice())
    }

    /// Writes a big-endian `u16`.
    pub fn serialize_u16(&mut self, v: u16) -> (r: Result<(), SerdeErr>)
        requires
            old(self).wf(),
        ensures
            final(self).wf(),
            match write_spec(old(self)@, be_bytes(v as nat, 2)) {
                Ok(o) => r == Ok::<(), SerdeErr>(()) && final(self)@ == o,
                Err(e) => r == Err::<(), SerdeErr>(e) && final(self)@ == old(self)@,
            },
    {
        self.serialize_uint(v as u64, 2)
    }

    /// Writes a big-endian `u32`.
    pub fn serialize_u32(&mut self, v: u32) -> (r: Result<(), SerdeErr>)
        requires
            old(self).wf(),
        ensures
            final(self).wf(),
            match write_spec(old(self)@, be_bytes(v as nat, 4)) {
                Ok(o) => r == Ok::<(), SerdeErr>(()) && final(self)@ == o,
                Err(e) => r == Err::<(), SerdeErr>(e) && final(self)@ == old(self)@,
            },
    {
        self.serialize_uint(v as u64, 4)
    }

    /// Writes a big-endian `u64`.
    pub fn serialize_u64(&mut self, v: u64) -> (r: Result<(), SerdeErr>)
        requires
            old(self).wf(),
        ensures
            final(self).wf(),
            match write_spec(old(self)@, be_bytes(v as nat, 8)) {
                Ok(o) => r == Ok::<(), SerdeErr>(()) && final(self)@ == o,
                Err(e) => r == Err::<(), SerdeErr>(e) && final(self)@ == old(self)@,
            },
    {
        self.serialize_uint(v, 8)
    }

    /// Writes a boolean as one byte, `1` for true and `0` for false.
    pub fn serialize_bool(&mut self, v: bool) -> (r: Result<(), SerdeErr>)
        requires
            old(self).wf(),
        ensures
            final(self).wf(),
            match write_spec(old(self)@, seq![if v { 1u8 } else { 0u8 }]) {
                Ok(o) => r == Ok::<(), SerdeErr>(()) && final(self)@ == o,
                Err(e) => r == Err::<(), SerdeErr>(e) && final(self)@ == old(self)@,
            },
    {
        self.serialize_u8(if v { 1u8 } else { 0u8 })
    }
}

} // verus!
