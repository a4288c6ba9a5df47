//! Scalars on the wire: integers, booleans, enumerations, and flat
//! elements made of several of them.
use vstd::prelude::*;

use crate::bytes::{
    be_bytes, be_decode, be_encode, be_value, lemma_pow256_8, lemma_pow256_mono, lemma_pow256_pos, pow256,
};
use crate::de::{take_spec, NetStructDeserializer, Window};
use crate::err::{DeriveErr, SerdeErr};
use crate::ser::{write_spec, NetStructSerializer};

verus! {

/// A primitive integer type and so its width on the wire. `Usize` and
/// `Isize` are eight bytes wide, as on a 64-bit target.
#[derive(Debug, Clone, Copy, PartialEq, Eq, Structural)]
pub enum IntTy {
    U8,
    I8,
    U16,
    I16,
    U32,
    I32,
    U64,
    I64,
    Usize,
    Isize,
}

impl IntTy {
    pub open spec fn spec_width(self) -> nat {
        match self {
            IntTy::U8 | IntTy::I8 => 1,
            IntTy::U16 | IntTy::I16 => 2,
            IntTy::U32 | IntTy::I32 => 4,
            _ => 8,
        }
    }

    /// The width in bytes.
    pub fn width(&self) -> (r: usize)
        ensures
            r == self.spec_width(),
    {
        match self {
            IntTy::U8 | IntTy::I8 => 1,
            IntTy::U16 | IntTy::I16 => 2,
            IntTy::U32 | IntTy::I32 => 4,
            _ => 8,
        }
    }
}

/// A closed enumeration: variant `j` has discriminant `discriminants[j]`,
/// written as an integer of type `repr` (cast to its width).
#[derive(Debug, Clone)]
pub struct EnumSchema {
    pub repr: IntTy,
    pub discriminants: Vec<u64>,
}

impl EnumSchema {
    /// The wire value of variant `j`: its discriminant cast to the width.
    pub open spec fn wire(self, j: int) -> nat {
        self.discriminants@[j] as nat % pow256(self.repr.spec_width())
    }

    /// The first variant from `j` on whose wire value is `v`.
    pub open spec fn lookup_from(self, v: nat, j: nat) -> Option<nat>
        decreases self.discriminants@.len() - j,
    {
        if j >= self.discriminants@.len() {
            None
        } else if self.wire(j as int) == v {
            Some(j)
        } else {
            self.lookup_from(v, j + 1)
        }
    }

    /// The variant whose wire value is `v`, if there is one.
    pub open spec fn lookup(self, v: nat) -> Option<nat> {
        self.lookup_from(v, 0)
    }

    pub proof fn lemma_lookup_from_bound(self, v: nat, j: nat)
        ensures
            self.lookup_from(v, j) matches Some(i) ==> j <= i < self.discriminants@.len()
                && self.wire(i as int) == v,
        decreases self.discriminants@.len() - j,
    {
        if j < self.discriminants@.len() && self.wire(j as int) != v {
            self.lemma_lookup_from_bound(v, j + 1);
        }
    }

    /// No two variants share a wire value.
    pub open spec fn distinct(self) -> bool {
        forall|i: int, j: int|
            0 <= i < j < self.discriminants@.len() ==> self.wire(i) != self.wire(j)
    }

    /// Checks an enumeration's declaration: every variant needs a
    /// discriminant, and no two may meet on the wire.
    pub fn new(repr: IntTy, discriminants: Vec<Option<u64>>) -> (r: Result<EnumSchema, DeriveErr>)
        ensures
            !all_present(discriminants@) <==> r matches Err(DeriveErr::MissingDiscriminant(_)),
            r matches Err(DeriveErr::MissingDiscriminant(i)) ==> i < discriminants@.len()
                && discriminants@[i as int] is None,
            all_present(discriminants@) && !distinct_wire(repr, discriminants@) <==> r matches Err(
                DeriveErr::DuplicateDiscriminant(_),
            ),
            r matches Err(DeriveErr::DuplicateDiscriminant(j)) ==> j < discriminants@.len(),
            all_present(discriminants@) && distinct_wire(repr, discriminants@) <==> r is Ok,
            r matches Ok(e) ==> e.repr == repr && e.distinct() && e.discriminants@.len()
                == discriminants@.len() && forall|i: int|
                0 <= i < discriminants@.len() ==> discriminants@[i] == Some(e.discriminants@[i]),
    {
        let mut ds: Vec<u64> = Vec::new();
        let mut i: usize = 0;
        while i < discriminants.len()
            invariant
                i <= discriminants@.len(),
                ds@.len() == i,
                forall|k: int| 0 <= k < i ==> discriminants@[k] == Some(ds@[k]),
            decreases discriminants@.len() - i,
        {
            match discriminants[i] {
                Some(d) => ds.push(d),
                None => return Err(DeriveErr::MissingDiscriminant(i)),
            }
            i = i + 1;
        }
        let e = EnumSchema { repr, discriminants: ds };
        assert(all_present(discriminants@));
        let w = repr.width();
        let mut j: usize = 0;
        while j < e.discriminants.len()
            invariant
                j <= e.discriminants@.len() == discriminants@.len(),
                e.repr == repr,
                w == repr.spec_width(),
                forall|k: int| 0 <= k < discriminants@.len() ==> discriminants@[k] == Some(e.discriminants@[k]),
                forall|a: int, b: int| 0 <= a < b < j ==> e.wire(a) != e.wire(b),
            decreases e.discriminants@.len() - j,
        {
            let mut k: usize = 0;
            while k < j
                invariant
                    k <= j < e.discriminants@.len() == discriminants@.len(),
                    e.repr == repr,
                    w == repr.spec_width(),
                    forall|q: int| 0 <= q < discriminants@.len() ==> discriminants@[q] == Some(e.discriminants@[q]),
                    forall|a: int| 0 <= a < k ==> e.wire(a) != e.wire(j as int),
                decreases j - k,
            {
                if wire_cast(e.discriminants[k], w) == wire_cast(e.discriminants[j], w) {
                    assert(!distinct_wire(repr, discriminants@)) by {
                        assert(discriminants@[k as int] == Some(e.discriminants@[k as int]));
                        assert(discriminants@[j as int] == Some(e.discriminants@[j as int]));
                    }
                    return Err(DeriveErr::DuplicateDiscriminant(j));
                }
                k = k + 1;
            }
            j = j + 1;
        }
        assert(distinct_wire(repr, discriminants@)) by {
            assert forall|a: int, b: int| 0 <= a < b < discriminants@.len() implies
                discriminants@[a].unwrap() as nat % pow256(repr.spec_width())
                != discriminants@[b].unwrap() as nat % pow256(repr.spec_width()) by {
                assert(e.wire(a) != e.wire(b));
            }
        }
        Ok(e)
    }
}

impl EnumSchema {
    /// The wire value of a variant: its discriminant cast to the width.
    pub fn into_wire(&self, variant: usize) -> (r: u64)
        requires
            variant < self.discriminants@.len(),
        ensures
            r as nat == self.wire(variant as int),
    {
        wire_cast(self.discriminants[variant], self.repr.width())
    }

    /// The variant with wire value `v`; `ParseFailed` when none has it.
    pub fn try_from_wire(&self, v: u64) -> (r: Result<usize, SerdeErr>)
        ensures
            match self.lookup(v as nat) {
                Some(j) => r == Ok::<usize, SerdeErr>(j as usize),
                None => r == Err::<usize, SerdeErr>(SerdeErr::ParseFailed),
            },
    {
        let w = self.repr.width();
        let mut j: usize = 0;
        while j < self.discriminants.len()
            invariant
                j <= self.discriminants@.len(),
                w == self.repr.spec_width(),
                self.lookup(v as nat) == self.lookup_from(v as nat, j as nat),
            decreases self.discriminants@.len() - j,
        {
            if wire_cast(self.discriminants[j], w) == v {
                return Ok(j);
            }
            j = j + 1;
        }
        Err(SerdeErr::ParseFailed)
    }

    /// Writes a variant as its wire value.
    pub fn serialize(&self, variant: usize, out: &mut NetStructSerializer) -> (r: Result<(), SerdeErr>)
        requires
            old(out).wf(),
        ensures
            final(out).wf(),
            match atom_encode(Atom::Enum(*self), variant as u64) {
                None => r == Err::<(), SerdeErr>(SerdeErr::ParseFailed) && final(out)@ == old(out)@,
                Some(b) => match write_spec(old(out)@, b) {
                    Ok(o) => r == Ok::<(), SerdeErr>(()) && final(out)@ == o,
                    Err(e) => r == Err::<(), SerdeErr>(e) && final(out)@ == old(out)@,
                },
            },
    {
        if variant >= self.discriminants.len() {
            return Err(SerdeErr::ParseFailed);
        }
        out.serialize_uint(self.discriminants[variant], self.repr.width())
    }

    /// Reads a wire value and gives its variant.
    pub fn deserialize(&self, de: &mut NetStructDeserializer) -> (r: Result<usize, SerdeErr>)
        requires
            old(de).wf(),
        ensures
            final(de).wf(),
            read_atom_spec(Atom::Enum(*self), old(de)@) == (
            match r {
                Ok(j) => Ok::<u64, SerdeErr>(j as u64),
                Err(e) => Err(e),
            },
            final(de)@,
            ),
    {
        let v = de.deserialize_uint(self.repr.width());
        match v {
            Ok(v) => {
                let n = self.discriminants.len();
                proof {
                    self.lemma_lookup_from_bound(v as nat, 0);
                }
                self.try_from_wire(v)
            },
            Err(e) => Err(e),
        }
    }
}

/// One scalar on the wire.
#[derive(Debug, Clone)]
pub enum Atom {
    /// One byte: zero is false, anything else true.
    Bool,
    /// A big-endian integer.
    Int(IntTy),
    /// An enumeration, held in a record by the position of its variant.
    Enum(EnumSchema),
}

/// The width of an atom in bytes.
pub open spec fn atom_width(a: Atom) -> nat {
    match a {
        Atom::Bool => 1,
        Atom::Int(t) => t.spec_width(),
        Atom::Enum(e) => e.repr.spec_width(),
    }
}

/// The bytes of value `v` of atom `a`; `None` when `v` names no variant.
pub open spec fn atom_encode(a: Atom, v: u64) -> Option<Seq<u8>> {
    match a {
        Atom::Bool => Some(seq![if v != 0 { 1u8 } else { 0u8 }]),
        Atom::Int(t) => Some(be_bytes(v as nat, t.spec_width())),
        Atom::Enum(e) => if v < e.discriminants@.len() {
            Some(be_bytes(e.discriminants@[v as int] as nat, e.repr.spec_width()))
        } else {
            None
        },
    }
}

/// The value that the bytes `b`, as wide as `a`, hold.
pub open spec fn atom_parse(a: Atom, b: Seq<u8>) -> Result<u64, SerdeErr> {
    match a {
        Atom::Bool => Ok(if b[0] != 0 { 1u64 } else { 0u64 }),
        Atom::Int(t) => Ok(be_value(b) as u64),
        Atom::Enum(e) => match e.lookup(be_value(b)) {
            Some(j) => Ok(j as u64),
            None => Err(SerdeErr::ParseFailed),
        },
    }
}

/// `v` is a value of `a` that survives a round trip.
pub open spec fn atom_value_ok(a: Atom, v: u64) -> bool {
    match a {
        Atom::Bool => v <= 1,
        Atom::Int(t) => v < pow256(t.spec_width()),
        Atom::Enum(e) => v < e.discriminants@.len(),
    }
}

/// Reads one atom from the active end of a window: what comes out, and the
/// window after.
pub open spec fn read_atom_spec(a: Atom, w: Window) -> (Result<u64, SerdeErr>, Window) {
    match take_spec(w, atom_width(a)) {
        Err(e) => (Err(e), w),
        Ok((b, w2)) => (atom_parse(a, b), w2),
    }
}

/// The width of the first `n` atoms.
pub open spec fn width_of(atoms: Seq<Atom>, n: nat) -> nat
    decreases n,
{
    if n == 0 || n > atoms.len() {
        0
    } else {
        width_of(atoms, (n - 1) as nat) + atom_width(atoms[n - 1])
    }
}

/// The bytes of the first `n` atoms with values `e`.
pub open spec fn encode_atoms(atoms: Seq<Atom>, e: Seq<u64>, n: nat) -> Option<Seq<u8>>
    decreases n,
{
    if n == 0 || n > atoms.len() {
        Some(seq![])
    } else {
        match encode_atoms(atoms, e, (n - 1) as nat) {
            None => None,
            Some(s) => match atom_encode(atoms[n - 1], e[n - 1]) {
                None => None,
                Some(t) => Some(s + t),
            },
        }
    }
}

/// The values of the first `n` atoms, parsed in order from `b`.
pub open spec fn parse_atoms(atoms: Seq<Atom>, b: Seq<u8>, n: nat) -> Result<Seq<u64>, SerdeErr>
    decreases n,
{
    if n == 0 || n > atoms.len() {
        Ok(seq![])
    } else {
        match parse_atoms(atoms, b, (n - 1) as nat) {
            Err(e) => Err(e),
            Ok(s) => {
                let off = width_of(atoms, (n - 1) as nat);
                match atom_parse(atoms[n - 1], b.subrange(off as int, (off + atom_width(atoms[n - 1])) as int)) {
                    Err(e) => Err(e),
                    Ok(v) => Ok(s.push(v)),
                }
            },
        }
    }
}

/// The type of the elements of a field: a flat run of atoms, with the size
/// of one element in memory, by which byte and bit lengths are divided.
#[derive(Debug, Clone)]
pub struct ElemTy {
    pub atoms: Vec<Atom>,
    pub size: usize,
}

/// The width of an element on the wire.
pub open spec fn elem_width(t: ElemTy) -> nat {
    width_of(t.atoms@, t.atoms@.len())
}

/// The bytes of an element; `None` when a value names no variant.
pub open spec fn elem_encode(t: ElemTy, e: Seq<u64>) -> Option<Seq<u8>> {
    encode_atoms(t.atoms@, e, t.atoms@.len())
}

/// The element that bytes as wide as `t` hold.
pub open spec fn elem_parse(t: ElemTy, b: Seq<u8>) -> Result<Seq<u64>, SerdeErr> {
    parse_atoms(t.atoms@, b, t.atoms@.len())
}

/// `e` is a value of `t` that survives a round trip.
pub open spec fn elem_value_ok(t: ElemTy, e: Seq<u64>) -> bool {
    &&& e.len() == t.atoms@.len()
    &&& forall|k: int| 0 <= k < e.len() ==> atom_value_ok(#[trigger] t.atoms@[k], e[k])
}

/// Reads one element from the active end of a window as one block: what
/// comes out, and the window after. A block that fails to parse stays
/// consumed.
pub open spec fn read_elem_spec(t: ElemTy, w: Window) -> (Result<Seq<u64>, SerdeErr>, Window) {
    match take_spec(w, elem_width(t)) {
        Err(e) => (Err(e), w),
        Ok((b, w2)) => (elem_parse(t, b), w2),
    }
}

pub proof fn lemma_width_of_mono(atoms: Seq<Atom>, m: nat, n: nat)
    requires
        m <= n <= atoms.len(),
    ensures
        width_of(atoms, m) <= width_of(atoms, n),
    decreases n,
{
    if m < n {
        lemma_width_of_mono(atoms, m, (n - 1) as nat);
    }
}

impl Atom {
    /// The width in bytes.
    pub fn width(&self) -> (r: usize)
        ensures
            r == atom_width(*self),
    {
        match self {
            Atom::Bool => 1,
            Atom::Int(t) => t.width(),
            Atom::Enum(e) => e.repr.width(),
        }
    }
}

impl ElemTy {
    /// The width of an element on the wire; `None` when it does not fit a
    /// `usize`.
    pub fn wire_width(&self) -> (r: Option<usize>)
        ensures
            match r {
                Some(w) => w == elem_width(*self),
                None => elem_width(*self) > usize::MAX,
            },
    {
        let mut w: usize = 0;
        let mut k: usize = 0;
        while k < self.atoms.len()
            invariant
                k <= self.atoms@.len(),
                w == width_of(self.atoms@, k as nat),
            decreases self.atoms@.len() - k,
        {
            let a = self.atoms[k].width();
            if w > usize::MAX - a {
                proof {
                    lemma_width_of_mono(self.atoms@, k as nat + 1, self.atoms@.len());
                }
                return None;
            }
            w = w + a;
            k = k + 1;
        }
        Some(w)
    }

    /// Appends the bytes of element `e` to `out`; false, with `out` as it
    /// was or longer, when a value names no variant.
    pub fn encode(&self, e: &Vec<u64>, out: &mut Vec<u8>) -> (ok: bool)
        requires
            e@.len() == self.atoms@.len(),
        ensures
            ok == elem_encode(*self, e@) is Some,
            ok ==> final(out)@ == old(out)@ + elem_encode(*self, e@).unwrap(),
    {
        let mut k: usize = 0;
        while k < self.atoms.len()
            invariant
                k <= self.atoms@.len() == e@.len(),
                encode_atoms(self.atoms@, e@, k as nat) is Some,
                out@ == old(out)@ + encode_atoms(self.atoms@, e@, k as nat).unwrap(),
            decreases self.atoms@.len() - k,
        {
            let v = e[k];
            let b: Vec<u8> = match &self.atoms[k] {
                Atom::Bool => vec![if v != 0 { 1u8 } else { 0u8 }],
                Atom::Int(t) => be_encode(v, t.width()),
                Atom::Enum(en) => {
                    if v >= en.discriminants.len() as u64 {
                        proof {
                            lemma_encode_atoms_none(self.atoms@, e@, k as nat + 1, self.atoms@.len());
                        }
                        return false;
                    }
                    be_encode(en.discriminants[v as usize], en.repr.width())
                },
            };
            proof {
                if let Atom::Bool = self.atoms@[k as int] {
                    assert(b@ =~= seq![if v != 0 { 1u8 } else { 0u8 }]);
                }
                assert(atom_encode(self.atoms@[k as int], v) == Some(b@));
            }
            let ghost before = out@;
            let mut i: usize = 0;
            while i < b.len()
                invariant
                    i <= b@.len(),
                    out@ == before + b@.subrange(0, i as int),
                decreases b@.len() - i,
            {
                out.push(b[i]);
                assert(b@.subrange(0, i as int + 1) =~= b@.subrange(0, i as int).push(b@[i as int]));
                i = i + 1;
            }
            assert(b@.subrange(0, i as int) =~= b@);
            assert(out@ =~= old(out)@ + encode_atoms(self.atoms@, e@, k as nat + 1).unwrap());
            k = k + 1;
        }
        true
    }

    /// Parses an element out of a block as wide as it.
    pub fn parse(&self, b: &[u8]) -> (r: Result<Vec<u64>, SerdeErr>)
        requires
            b@.len() == elem_width(*self),
        ensures
            match elem_parse(*self, b@) {
                Ok(e) => r matches Ok(v) && v@ == e,
                Err(e) => r == Err::<Vec<u64>, SerdeErr>(e),
            },
            r matches Ok(v) ==> v@.len() == self.atoms@.len(),
    {
        let mut vals: Vec<u64> = Vec::new();
        let mut off: usize = 0;
        let mut k: usize = 0;
        let blen = b.len();
        while k < self.atoms.len()
            invariant
                blen == b@.len(),
                k <= self.atoms@.len(),
                b@.len() == elem_width(*self),
                off == width_of(self.atoms@, k as nat),
                vals@.len() == k,
                parse_atoms(self.atoms@, b@, k as nat) == Ok::<Seq<u64>, SerdeErr>(vals@),
            decreases self.atoms@.len() - k,
        {
            proof {
                lemma_width_of_mono(self.atoms@, k as nat + 1, self.atoms@.len());
            }
            let a = &self.atoms[k];
            let w = a.width();
            let blk = vstd::slice::slice_subrange(b, off, off + w);
            let v: u64 = match a {
                Atom::Bool => if blk[0] != 0 { 1u64 } else { 0u64 },
                Atom::Int(t) => {
                    proof {
                        crate::bytes::lemma_be_value_bound(blk@);
                        lemma_pow256_mono(blk@.len(), 8);
                        lemma_pow256_8();
                    }
                    be_decode(blk)
                },
                Atom::Enum(en) => {
                    let d = be_decode(blk);
                    let nd = en.discriminants.len();
                    proof {
                        en.lemma_lookup_from_bound(d as nat, 0);
                    }
                    match en.try_from_wire(d) {
                        Ok(j) => j as u64,
                        Err(e) => {
                            proof {
                                lemma_parse_atoms_err(self.atoms@, b@, k as nat + 1, self.atoms@.len());
                            }
                            return Err(e);
                        },
                    }
                },
            };
            assert(blk@ == b@.subrange(off as int, (off + atom_width(self.atoms@[k as int])) as int));
            assert(atom_parse(self.atoms@[k as int], blk@) == Ok::<u64, SerdeErr>(v));
            vals.push(v);
            off = off + w;
            k = k + 1;
        }
        Ok(vals)
    }

    /// Reads one element from the active end of the cursor, as one block of
    /// `width` bytes.
    pub fn read(&self, width: usize, de: &mut NetStructDeserializer) -> (r: Result<Vec<u64>, SerdeErr>)
        requires
            old(de).wf(),
            width == elem_width(*self),
        ensures
            final(de).wf(),
            read_elem_spec(*self, old(de)@) == (
            match r {
                Ok(v) => Ok::<Seq<u64>, SerdeErr>(v@),
                Err(e) => Err(e),
            },
            final(de)@,
            ),
            r matches Ok(v) ==> v@.len() == self.atoms@.len(),
    {
        let b = de.take(width);
        match b {
            Ok(b) => {
                self.parse(b.as_slice())
            },
            Err(e) => Err(e),
        }
    }
}

pub proof fn lemma_encode_atoms_none(atoms: Seq<Atom>, e: Seq<u64>, m: nat, n: nat)
    requires
        0 < m <= n <= atoms.len(),
        encode_atoms(atoms, e, m) is None,
    ensures
        encode_atoms(atoms, e, n) is None,
    decreases n,
{
    if m < n {
        lemma_encode_atoms_none(atoms, e, m, (n - 1) as nat);
    }
}

pub proof fn lemma_parse_atoms_err(atoms: Seq<Atom>, b: Seq<u8>, m: nat, n: nat)
    requires
        0 < m <= n <= atoms.len(),
        parse_atoms(atoms, b, m) is Err,
    ensures
        parse_atoms(atoms, b, n) == parse_atoms(atoms, b, m),
    decreases n,
{
    if m < n {
        lemma_parse_atoms_err(atoms, b, m, (n - 1) as nat);
    }
}

/// Every variant has a discriminant.
pub open spec fn all_present(d: Seq<Option<u64>>) -> bool {
    forall|i: int| 0 <= i < d.len() ==> d[i] is Some
}

/// No two declared discriminants meet once cast to the width of `repr`.
pub open spec fn distinct_wire(repr: IntTy, d: Seq<Option<u64>>) -> bool {
    forall|a: int, b: int|
        0 <= a < b < d.len() ==> d[a].unwrap() as nat % pow256(repr.spec_width()) != d[b].unwrap() as nat
            % pow256(repr.spec_width())
}

/// `256^w` for a width below eight.
fn pow256_exec(w: usize) -> (r: u64)
    requires
        w < 8,
    ensures
        r == pow256(w as nat),
{
    let mut p: u64 = 1;
    let mut i: usize = 0;
    while i < w
        invariant
            i <= w < 8,
            p == pow256(i as nat),
        decreases w - i,
    {
        proof {
            lemma_pow256_mono(i as nat + 1, 7);
            reveal_with_fuel(pow256, 8);
        }
        p = p * 256;
        i = i + 1;
    }
    p
}

/// `d` cast to an integer of `w` bytes, as an unsigned value.
pub fn wire_cast(d: u64, w: usize) -> (r: u64)
    requires
        w <= 8,
    ensures
        r as nat == d as nat % pow256(w as nat),
{
    if w == 8 {
        proof {
            lemma_pow256_8();
            vstd::arithmetic::div_mod::lemma_small_mod(d as nat, pow256(8));
        }
        d
    } else {
        let p = pow256_exec(w);
        proof {
            lemma_pow256_pos(w as nat);
        }
        d % p
    }
}

} // verus!
