//! Record schemas and the compiler of their read plans.
use vstd::prelude::*;
use vstd::string::StringSliceAdditionalSpecFns;

use crate::elem::{elem_width, Atom, ElemTy};
use crate::err::DeriveErr;

verus! {

/// What the value of a length field counts.
#[derive(Debug, Clone, Copy, PartialEq, Eq, Structural)]
pub enum SizeUnit {
    Bits,
    Bytes,
    /// Elements.
    Length,
}

/// The unit that a unit's name in a declaration stands for: `len`, or no
/// name, for elements; `bytes` or `B` for bytes; `bits` for bits.
pub open spec fn unit_named(b: Seq<u8>) -> Option<SizeUnit> {
    if b.len() == 0 || b == seq![108u8, 101u8, 110u8] {
        Some(SizeUnit::Length)
    } else if b == seq![98u8, 121u8, 116u8, 101u8, 115u8] || b == seq![66u8] {
        Some(SizeUnit::Bytes)
    } else if b == seq![98u8, 105u8, 116u8, 115u8] {
        Some(SizeUnit::Bits)
    } else {
        None
    }
}

impl SizeUnit {
    /// The unit a declaration names; `None` for a name that is none of
    /// `len`, `bytes`, `B` and `bits`.
    pub fn from_name(name: &str) -> (r: Option<SizeUnit>)
        ensures
            r == unit_named(name.spec_bytes()),
    {
        let b = name.as_bytes();
        let n = b.len();
        if n == 0 {
            return Some(SizeUnit::Length);
        }
        if n == 1 && b[0] == 66 {
            assert(b@ =~= seq![66u8]);
            return Some(SizeUnit::Bytes);
        }
        if n == 3 && b[0] == 108 && b[1] == 101 && b[2] == 110 {
            assert(b@ =~= seq![108u8, 101u8, 110u8]);
            return Some(SizeUnit::Length);
        }
        if n == 4 && b[0] == 98 && b[1] == 105 && b[2] == 116 && b[3] == 115 {
            assert(b@ =~= seq![98u8, 105u8, 116u8, 115u8]);
            return Some(SizeUnit::Bits);
        }
        if n == 5 && b[0] == 98 && b[1] == 121 && b[2] == 116 && b[3] == 101 && b[4] == 115 {
            assert(b@ =~= seq![98u8, 121u8, 116u8, 101u8, 115u8]);
            return Some(SizeUnit::Bytes);
        }
        proof {
            if n == 1 {
                assert(b@ != seq![66u8]) by {
                    assert(b@[0] != seq![66u8][0]);
                }
            }
            if n == 3 {
                let l = seq![108u8, 101u8, 110u8];
                assert(b@ != l) by {
                    if b@ == l {
                        assert(b@[0] == l[0] && b@[1] == l[1] && b@[2] == l[2]);
                    }
                }
            }
            if n == 4 {
                let l = seq![98u8, 105u8, 116u8, 115u8];
                assert(b@ != l) by {
                    if b@ == l {
                        assert(b@[0] == l[0] && b@[1] == l[1] && b@[2] == l[2] && b@[3] == l[3]);
                    }
                }
            }
            if n == 5 {
                let l = seq![98u8, 121u8, 116u8, 101u8, 115u8];
                assert(b@ != l) by {
                    if b@ == l {
                        assert(b@[0] == l[0] && b@[1] == l[1] && b@[2] == l[2] && b@[3] == l[3] && b@[4] == l[4]);
                    }
                }
            }
        }
        None
    }
}

/// The shape of a field: one element, a fixed number of them, or a bounded
/// vector whose length another field holds.
#[derive(Debug, Clone, Copy, PartialEq, Eq, Structural)]
pub enum Shape {
    Scalar,
    Array(usize),
    Vector { cap: usize, len_field: usize, unit: SizeUnit },
}

/// One field of a record. A phantom field is not on the wire and takes no
/// part in equality.
#[derive(Debug, Clone)]
pub struct Field {
    pub ty: ElemTy,
    pub shape: Shape,
    pub phantom: bool,
}

/// The field whose value is the length of the whole record on the wire.
#[derive(Debug, Clone, Copy, PartialEq, Eq, Structural)]
pub struct StructLen {
    pub anchor: usize,
    pub unit: SizeUnit,
}

/// One step of a read plan.
#[derive(Debug, Clone, Copy, PartialEq, Eq, Structural)]
pub enum Step {
    /// Read the field at this position from the active end.
    Read(usize),
    /// Read elements of the vector at this position, forward, for as long
    /// as they parse, and store their count in its length field.
    ReadToEnd(usize),
    /// Switch the end that reads take from.
    Reverse,
    /// Clip the window to the record length that the anchor now holds.
    Truncate,
}

/// A checked record schema with its read plan. Build it with
/// [`Schema::new`].
#[derive(Debug, Clone)]
pub struct Schema {
    pub fields: Vec<Field>,
    pub struct_len: Option<StructLen>,
    pub widths: Vec<usize>,
    pub plan: Vec<Step>,
}

/// Field `l` can hold a length: one integer.
pub open spec fn is_int_scalar(f: Field) -> bool {
    &&& f.shape is Scalar
    &&& f.ty.atoms@.len() == 1
    &&& f.ty.atoms@[0] is Int
}

/// The field at position `i` is well formed, and what it refers to exists
/// and can serve it.
pub open spec fn field_ok(fields: Seq<Field>, i: int) -> bool {
    let f = fields[i];
    &&& f.ty.atoms@.len() > 0
    &&& f.ty.size > 0
    &&& elem_width(f.ty) <= usize::MAX
    &&& match f.shape {
        Shape::Vector { len_field, .. } => {
            &&& len_field < fields.len()
            &&& len_field != i
            &&& is_int_scalar(fields[len_field as int])
        },
        _ => true,
    }
}

/// Every field is well formed.
pub open spec fn fields_ok(fields: Seq<Field>) -> bool {
    forall|i: int| 0 <= i < fields.len() ==> field_ok(fields, i)
}

/// The record-length anchor, if there is one, is a non-phantom integer
/// field, counted in bytes or bits.
pub open spec fn struct_len_ok(fields: Seq<Field>, sl: Option<StructLen>) -> bool {
    match sl {
        None => true,
        Some(s) => {
            &&& s.anchor < fields.len()
            &&& is_int_scalar(fields[s.anchor as int])
            &&& !fields[s.anchor as int].phantom
            &&& s.unit != SizeUnit::Length
        },
    }
}

/// A vector whose length field is phantom: its length is whatever is left.
pub open spec fn open_ended(fields: Seq<Field>, i: int) -> bool {
    match fields[i].shape {
        Shape::Vector { len_field, .. } => fields[len_field as int].phantom,
        _ => false,
    }
}

/// Field `i` can be read now, with the fields marked in `read` read and the
/// fields `lo..hi` unread.
pub open spec fn readable(
    fields: Seq<Field>,
    sl: Option<StructLen>,
    read: Seq<bool>,
    lo: nat,
    hi: nat,
    i: int,
) -> bool {
    if fields[i].phantom {
        true
    } else {
        match fields[i].shape {
            Shape::Vector { len_field, .. } => if fields[len_field as int].phantom {
                hi == lo + 1
            } else {
                &&& read[len_field as int]
                &&& sl matches Some(s) ==> read[s.anchor as int]
            },
            _ => true,
        }
    }
}

/// The steps that read field `i` when the active end is `fwd`, and the
/// direction after them.
pub open spec fn steps_for(fields: Seq<Field>, sl: Option<StructLen>, i: int, fwd: bool) -> (
    Seq<Step>,
    bool,
) {
    if fields[i].phantom {
        (seq![], fwd)
    } else if open_ended(fields, i) {
        if fwd {
            (seq![Step::ReadToEnd(i as usize)], true)
        } else {
            (seq![Step::Reverse, Step::ReadToEnd(i as usize)], true)
        }
    } else if sl matches Some(s) && s.anchor == i {
        (seq![Step::Read(i as usize), Step::Truncate], fwd)
    } else {
        (seq![Step::Read(i as usize)], fwd)
    }
}

/// The read plan for the unread fields `lo..hi`: take the field at the
/// active end when it can be read; else reverse and take the one at the
/// other end when that can be read; else the schema is ambiguous.
pub open spec fn plan_from(
    fields: Seq<Field>,
    sl: Option<StructLen>,
    lo: nat,
    hi: nat,
    fwd: bool,
    read: Seq<bool>,
) -> Result<Seq<Step>, DeriveErr>
    decreases hi - lo,
{
    if lo >= hi {
        Ok(seq![])
    } else {
        let head = if fwd { lo as int } else { hi - 1 };
        let other = if fwd { hi - 1 } else { lo as int };
        if readable(fields, sl, read, lo, hi, head) {
            let (st, f2) = steps_for(fields, sl, head, fwd);
            let (lo2, hi2) = if fwd { (lo + 1, hi) } else { (lo, (hi - 1) as nat) };
            match plan_from(fields, sl, lo2, hi2, f2, read.update(head, true)) {
                Ok(rest) => Ok(st + rest),
                Err(e) => Err(e),
            }
        } else if readable(fields, sl, read, lo, hi, other) {
            let (st, f2) = steps_for(fields, sl, other, !fwd);
            let (lo2, hi2) = if !fwd { (lo + 1, hi) } else { (lo, (hi - 1) as nat) };
            match plan_from(fields, sl, lo2, hi2, f2, read.update(other, true)) {
                Ok(rest) => Ok(seq![Step::Reverse] + st + rest),
                Err(e) => Err(e),
            }
        } else {
            Err(DeriveErr::AmbigiousDeserialize(lo as usize, (hi - 1) as usize))
        }
    }
}

/// The read plan of a whole record.
pub open spec fn compile_spec(fields: Seq<Field>, sl: Option<StructLen>) -> Result<
    Seq<Step>,
    DeriveErr,
> {
    plan_from(fields, sl, 0, fields.len(), true, Seq::new(fields.len(), |i: int| false))
}

/// Compiling fails only on an ambiguous schema.
pub proof fn lemma_plan_err(
    fields: Seq<Field>,
    sl: Option<StructLen>,
    lo: nat,
    hi: nat,
    fwd: bool,
    read: Seq<bool>,
)
    ensures
        plan_from(fields, sl, lo, hi, fwd, read) matches Err(e) ==> e is AmbigiousDeserialize,
    decreases hi - lo,
{
    if lo < hi {
        let head = if fwd { lo as int } else { hi - 1 };
        let other = if fwd { hi - 1 } else { lo as int };
        if readable(fields, sl, read, lo, hi, head) {
            let (st, f2) = steps_for(fields, sl, head, fwd);
            let (lo2, hi2) = if fwd { (lo + 1, hi) } else { (lo, (hi - 1) as nat) };
            lemma_plan_err(fields, sl, lo2, hi2, f2, read.update(head, true));
        } else if readable(fields, sl, read, lo, hi, other) {
            let (st, f2) = steps_for(fields, sl, other, !fwd);
            let (lo2, hi2) = if !fwd { (lo + 1, hi) } else { (lo, (hi - 1) as nat) };
            lemma_plan_err(fields, sl, lo2, hi2, f2, read.update(other, true));
        }
    }
}

impl Schema {
    /// The schema was built by [`Schema::new`] from its fields.
    pub open spec fn wf(&self) -> bool {
        &&& self.fields@.len() <= usize::MAX
        &&& forall|i: int| 0 <= i < self.fields@.len() ==> field_ok(self.fields@, i)
        &&& struct_len_ok(self.fields@, self.struct_len)
        &&& self.widths@.len() == self.fields@.len()
        &&& forall|i: int|
            0 <= i < self.fields@.len() ==> self.widths@[i] == elem_width(#[trigger] self.fields@[i].ty)
        &&& compile_spec(self.fields@, self.struct_len) == Ok::<Seq<Step>, DeriveErr>(self.plan@)
    }

    /// Checks a record description and compiles its read plan: each field
    /// must be well formed, the anchor a non-phantom integer counted in
    /// bytes or bits, and some read order unambiguous.
    pub fn new(fields: Vec<Field>, struct_len: Option<StructLen>) -> (r: Result<Schema, DeriveErr>)
        ensures
            !fields_ok(fields@) <==> r matches Err(DeriveErr::InvalidField(_)),
            r matches Err(DeriveErr::InvalidField(i)) ==> i < fields@.len() && !field_ok(
                fields@,
                i as int,
            ) && forall|k: int| 0 <= k < i ==> field_ok(fields@, k),
            fields_ok(fields@) && !struct_len_ok(fields@, struct_len) <==> r matches Err(
                DeriveErr::InvalidStructLen,
            ),
            r matches Err(e) ==> (e is InvalidField || e is InvalidStructLen || compile_spec(
                fields@,
                struct_len,
            ) == Err::<Seq<Step>, DeriveErr>(e)),
            r matches Ok(s) ==> s.wf() && s.fields@ == fields@ && s.struct_len == struct_len,
            fields_ok(fields@) && struct_len_ok(fields@, struct_len) ==> (r is Ok <==> compile_spec(
                fields@,
                struct_len,
            ) is Ok),
    {
        let n = fields.len();
        let mut widths: Vec<usize> = Vec::new();
        let mut i: usize = 0;
        while i < n
            invariant
                n == fields@.len(),
                i <= n,
                widths@.len() == i,
                forall|k: int| 0 <= k < i ==> field_ok(fields@, k),
                forall|k: int| 0 <= k < i ==> widths@[k] == elem_width(#[trigger] fields@[k].ty),
            decreases n - i,
        {
            let f = &fields[i];
            let w = match f.ty.wire_width() {
                Some(w) => w,
                None => {
                    assert(!field_ok(fields@, i as int));
                    return Err(DeriveErr::InvalidField(i));
                },
            };
            if f.ty.atoms.len() == 0 || f.ty.size == 0 {
                assert(!field_ok(fields@, i as int));
                return Err(DeriveErr::InvalidField(i));
            }
            match f.shape {
                Shape::Vector { len_field, .. } => {
                    if len_field >= n || len_field == i || !int_scalar(&fields[len_field]) {
                        assert(!field_ok(fields@, i as int));
                        return Err(DeriveErr::InvalidField(i));
                    }
                },
                _ => {},
            }
            assert(field_ok(fields@, i as int));
            widths.push(w);
            i = i + 1;
        }
        match struct_len {
            Some(s) => {
                if s.anchor >= n || !int_scalar(&fields[s.anchor]) || fields[s.anchor].phantom
                    || s.unit == SizeUnit::Length {
                    return Err(DeriveErr::InvalidStructLen);
                }
            },
            None => {},
        }
        assert(fields_ok(fields@));
        proof {
            lemma_plan_err(fields@, struct_len, 0, fields@.len(), true, Seq::new(fields@.len(), |i: int| false));
        }
        match compile(&fields, struct_len) {
            Ok(plan) => Ok(Schema { fields, struct_len, widths, plan }),
            Err(e) => Err(e),
        }
    }
}

fn int_scalar(f: &Field) -> (r: bool)
    ensures
        r == is_int_scalar(*f),
{
    match f.shape {
        Shape::Scalar => f.ty.atoms.len() == 1 && match &f.ty.atoms[0] {
            Atom::Int(_) => true,
            _ => false,
        },
        _ => false,
    }
}

fn is_open_ended(fields: &Vec<Field>, i: usize) -> (r: bool)
    requires
        i < fields@.len(),
        forall|k: int| 0 <= k < fields@.len() ==> field_ok(fields@, k),
    ensures
        r == open_ended(fields@, i as int),
{
    assert(field_ok(fields@, i as int));
    match fields[i].shape {
        Shape::Vector { len_field, .. } => fields[len_field].phantom,
        _ => false,
    }
}

fn can_read(
    fields: &Vec<Field>,
    sl: Option<StructLen>,
    read: &Vec<bool>,
    lo: usize,
    hi: usize,
    i: usize,
) -> (r: bool)
    requires
        i < fields@.len(),
        lo < hi <= fields@.len(),
        read@.len() == fields@.len(),
        forall|k: int| 0 <= k < fields@.len() ==> field_ok(fields@, k),
        struct_len_ok(fields@, sl),
    ensures
        r == readable(fields@, sl, read@, lo as nat, hi as nat, i as int),
{
    assert(field_ok(fields@, i as int));
    if fields[i].phantom {
        return true;
    }
    match fields[i].shape {
        Shape::Vector { len_field, .. } => {
            if fields[len_field].phantom {
                hi == lo + 1
            } else {
                read[len_field] && match sl {
                    Some(s) => read[s.anchor],
                    None => true,
                }
            }
        },
        _ => true,
    }
}

/// Appends the steps that read field `i` and gives the direction after them.
fn push_steps(
    fields: &Vec<Field>,
    sl: Option<StructLen>,
    i: usize,
    fwd: bool,
    out: &mut Vec<Step>,
) -> (f2: bool)
    requires
        i < fields@.len(),
        forall|k: int| 0 <= k < fields@.len() ==> field_ok(fields@, k),
    ensures
        final(out)@ == old(out)@ + steps_for(fields@, sl, i as int, fwd).0,
        f2 == steps_for(fields@, sl, i as int, fwd).1,
{
    let ghost st = steps_for(fields@, sl, i as int, fwd).0;
    if fields[i].phantom {
        assert(old(out)@ + st =~= old(out)@);
        fwd
    } else if is_open_ended(fields, i) {
        if !fwd {
            out.push(Step::Reverse);
        }
        out.push(Step::ReadToEnd(i));
        assert(final(out)@ =~= old(out)@ + st);
        true
    } else {
        out.push(Step::Read(i));
        match sl {
            Some(s) => {
                if s.anchor == i {
                    out.push(Step::Truncate);
                }
            },
            None => {},
        }
        assert(final(out)@ =~= old(out)@ + st);
        fwd
    }
}

/// Compiles the read plan of a record whose fields are well formed.
fn compile(fields: &Vec<Field>, sl: Option<StructLen>) -> (r: Result<Vec<Step>, DeriveErr>)
    requires
        forall|k: int| 0 <= k < fields@.len() ==> field_ok(fields@, k),
        struct_len_ok(fields@, sl),
    ensures
        match compile_spec(fields@, sl) {
            Ok(p) => r matches Ok(v) && v@ == p,
            Err(e) => r == Err::<Vec<Step>, DeriveErr>(e),
        },
{
    let n = fields.len();
    let mut read: Vec<bool> = Vec::new();
    let mut k: usize = 0;
    while k < n
        invariant
            n == fields@.len(),
            k <= n,
            read@ == Seq::new(k as nat, |i: int| false),
        decreases n - k,
    {
        read.push(false);
        k = k + 1;
        assert(read@ =~= Seq::new(k as nat, |i: int| false));
    }
    let mut out: Vec<Step> = Vec::new();
    let mut lo: usize = 0;
    let mut hi: usize = n;
    let mut fwd = true;
    assert(out@ + compile_spec(fields@, sl).unwrap() =~= compile_spec(fields@, sl).unwrap());
    while lo < hi
        invariant
            n == fields@.len(),
            lo <= hi <= n,
            read@.len() == n,
            forall|k: int| 0 <= k < fields@.len() ==> field_ok(fields@, k),
            struct_len_ok(fields@, sl),
            compile_spec(fields@, sl) == match plan_from(fields@, sl, lo as nat, hi as nat, fwd, read@) {
                Ok(rest) => Ok::<Seq<Step>, DeriveErr>(out@ + rest),
                Err(e) => Err(e),
            },
        decreases hi - lo,
    {
        let head = if fwd { lo } else { hi - 1 };
        let other = if fwd { hi - 1 } else { lo };
        let ghost before = out@;
        let ghost rest_spec = plan_from(fields@, sl, lo as nat, hi as nat, fwd, read@);
        if can_read(fields, sl, &read, lo, hi, head) {
            let f2 = push_steps(fields, sl, head, fwd, &mut out);
            read.set(head, true);
            if fwd {
                lo = lo + 1;
            } else {
                hi = hi - 1;
            }
            fwd = f2;
        } else if can_read(fields, sl, &read, lo, hi, other) {
            out.push(Step::Reverse);
            let f2 = push_steps(fields, sl, other, !fwd, &mut out);
            read.set(other, true);
            if !fwd {
                lo = lo + 1;
            } else {
                hi = hi - 1;
            }
            fwd = f2;
        } else {
            return Err(DeriveErr::AmbigiousDeserialize(lo, hi - 1));
        }
        proof {
            match plan_from(fields@, sl, lo as nat, hi as nat, fwd, read@) {
                Ok(rest) => {
                    assert(before + rest_spec.unwrap() =~= out@ + rest);
                },
                Err(e) => {},
            }
        }
    }
    Ok(out)
}

} // verus!
