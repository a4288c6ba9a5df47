//! Records: their bytes on the wire, and the driver that runs a schema's
//! read plan against a cursor.
use vstd::prelude::*;

use crate::de::{truncate_spec, NetStructDeserializer, Window};
use crate::elem::{elem_encode, elem_width, read_elem_spec, ElemTy};
use crate::err::SerdeErr;
use crate::schema::{Schema, Shape, SizeUnit, Step};
use crate::ser::{write_spec, NetStructSerializer};

verus! {

/// A record in memory: for each field, its elements (one for a scalar, the
/// whole storage of an array or vector), each a value per atom. An
/// enumeration's value is the position of its variant; a boolean is 0 or 1.
pub type Record = Vec<Vec<Vec<u64>>>;

/// What a record holds, as sequences.
pub type RecordView = Seq<Seq<Seq<u64>>>;

/// How many elements a field of this shape stores.
pub open spec fn storage_len(sh: Shape) -> nat {
    match sh {
        Shape::Scalar => 1,
        Shape::Array(n) => n as nat,
        Shape::Vector { cap, .. } => cap as nat,
    }
}

/// An element with every value zero.
pub open spec fn zero_elem(t: ElemTy) -> Seq<u64> {
    Seq::new(t.atoms@.len(), |k: int| 0u64)
}

/// The record has the storage that its schema lays out.
pub open spec fn shaped(s: Schema, r: RecordView) -> bool {
    &&& r.len() == s.fields@.len()
    &&& forall|i: int|
        0 <= i < r.len() ==> {
            &&& (#[trigger] r[i]).len() == storage_len(s.fields@[i].shape)
            &&& forall|j: int| 0 <= j < r[i].len() ==> (#[trigger] r[i][j]).len() == s.fields@[i].ty.atoms@.len()
        }
}

/// The number of elements that a length value `v` in `unit` stands for,
/// elements being `size` bytes; a remainder is dropped.
pub open spec fn to_elements(v: nat, unit: SizeUnit, size: nat) -> nat {
    match unit {
        SizeUnit::Length => v,
        SizeUnit::Bytes => v / size,
        SizeUnit::Bits => v / 8 / size,
    }
}

/// The value of the integer field `l`.
pub open spec fn len_value(r: RecordView, l: int) -> nat {
    r[l][0][0] as nat
}

/// How many elements of field `i` are on the wire.
pub open spec fn count(s: Schema, r: RecordView, i: int) -> nat {
    match s.fields@[i].shape {
        Shape::Scalar => 1,
        Shape::Array(n) => n as nat,
        Shape::Vector { len_field, unit, .. } => to_elements(
            len_value(r, len_field as int),
            unit,
            s.fields@[i].ty.size as nat,
        ),
    }
}

/// The bytes of the first `n` elements of `es`.
pub open spec fn elems_encode(t: ElemTy, es: Seq<Seq<u64>>, n: nat) -> Option<Seq<u8>>
    decreases n,
{
    if n == 0 {
        Some(seq![])
    } else {
        match elems_encode(t, es, (n - 1) as nat) {
            None => None,
            Some(b) => match elem_encode(t, es[n - 1]) {
                None => None,
                Some(c) => Some(b + c),
            },
        }
    }
}

/// The bytes of field `i`: none for a phantom field; `None` when its length
/// exceeds its storage or a value names no variant.
pub open spec fn field_encode(s: Schema, r: RecordView, i: int) -> Option<Seq<u8>> {
    if s.fields@[i].phantom {
        Some(seq![])
    } else if count(s, r, i) > storage_len(s.fields@[i].shape) {
        None
    } else {
        elems_encode(s.fields@[i].ty, r[i], count(s, r, i))
    }
}

/// The bytes of the first `n` fields, in declaration order.
pub open spec fn fields_encode(s: Schema, r: RecordView, n: nat) -> Option<Seq<u8>>
    decreases n,
{
    if n == 0 {
        Some(seq![])
    } else {
        match fields_encode(s, r, (n - 1) as nat) {
            None => None,
            Some(b) => match field_encode(s, r, n - 1) {
                None => None,
                Some(c) => Some(b + c),
            },
        }
    }
}

/// The bytes of a record on the wire.
pub open spec fn encode_spec(s: Schema, r: RecordView) -> Option<Seq<u8>> {
    fields_encode(s, r, s.fields@.len())
}

/// Reads `n` elements one after another from the active end: the elements
/// in the order read, and the window after.
pub open spec fn read_elems(t: ElemTy, n: nat, w: Window) -> Result<(Seq<Seq<u64>>, Window), SerdeErr>
    decreases n,
{
    if n == 0 {
        Ok((seq![], w))
    } else {
        match read_elems(t, (n - 1) as nat, w) {
            Err(e) => Err(e),
            Ok((es, w1)) => match read_elem_spec(t, w1) {
                (Ok(e), w2) => Ok((es.push(e), w2)),
                (Err(e), _) => Err(e),
            },
        }
    }
}

/// The storage of `len` elements that `n` elements read in this direction
/// fill: in reading order when forward, from the last place down when in
/// reverse; the rest are zero.
pub open spec fn place(t: ElemTy, es: Seq<Seq<u64>>, n: nat, len: nat, fwd: bool) -> Seq<Seq<u64>> {
    Seq::new(
        len,
        |j: int|
            if j < n {
                if fwd {
                    es[j]
                } else {
                    es[n - 1 - j]
                }
            } else {
                zero_elem(t)
            },
    )
}

/// Reads field `i`, whose element count `r` already determines.
pub open spec fn read_field(s: Schema, r: RecordView, i: int, w: Window) -> Result<
    (Seq<Seq<u64>>, Window),
    SerdeErr,
> {
    let n = count(s, r, i);
    let t = s.fields@[i].ty;
    let len = storage_len(s.fields@[i].shape);
    if n > len {
        Err(SerdeErr::Eof)
    } else {
        match read_elems(t, n, w) {
            Err(e) => Err(e),
            Ok((es, w2)) => Ok((place(t, es, n, len, w.forward), w2)),
        }
    }
}

/// Reads elements for as long as they parse, at most `budget` of them. An
/// element that fails to parse ends the run and is not kept.
pub open spec fn greedy(t: ElemTy, budget: nat, w: Window) -> (Seq<Seq<u64>>, Window)
    decreases budget,
{
    if budget == 0 {
        (seq![], w)
    } else {
        match read_elem_spec(t, w) {
            (Ok(e), w2) => {
                let (rest, w3) = greedy(t, (budget - 1) as nat, w2);
                (seq![e] + rest, w3)
            },
            (Err(_), w2) => (seq![], w2),
        }
    }
}

/// The effect of one plan step on the record being filled and the window.
pub open spec fn exec_step(s: Schema, st: Step, r: RecordView, w: Window) -> Result<
    (RecordView, Window),
    SerdeErr,
> {
    match st {
        Step::Reverse => Ok((r, Window { forward: !w.forward, ..w })),
        Step::Read(i) if i >= s.fields@.len() => Err(SerdeErr::NotSupported),
        Step::ReadToEnd(i) if i >= s.fields@.len() => Err(SerdeErr::NotSupported),
        Step::Truncate => match s.struct_len {
            None => Err(SerdeErr::NotSupported),
            Some(sl) => {
                let a = len_value(r, sl.anchor as int);
                let total = if sl.unit == SizeUnit::Bits { a / 8 } else { a };
                if total < w.used {
                    Err(SerdeErr::Eof)
                } else {
                    match truncate_spec(w, (total - w.used) as nat) {
                        Ok(w2) => Ok((r, w2)),
                        Err(e) => Err(e),
                    }
                }
            },
        },
        Step::Read(i) => match read_field(s, r, i as int, w) {
            Ok((f, w2)) => Ok((r.update(i as int, f), w2)),
            Err(e) => Err(e),
        },
        Step::ReadToEnd(i) => match s.fields@[i as int].shape {
            Shape::Vector { cap, len_field, unit } => {
                let t = s.fields@[i as int].ty;
                let (es, w2) = greedy(t, cap as nat, w);
                let n = es.len();
                let l = to_elements(n, unit, t.size as nat);
                Ok(
                    (
                        r.update(i as int, place(t, es, n, cap as nat, true)).update(
                            len_field as int,
                            seq![seq![l as u64]],
                        ),
                        w2,
                    ),
                )
            },
            _ => Err(SerdeErr::NotSupported),
        },
    }
}

/// Runs the plan from step `k` on.
pub open spec fn run(s: Schema, k: nat, r: RecordView, w: Window) -> Result<(RecordView, Window), SerdeErr>
    decreases s.plan@.len() - k,
{
    if k >= s.plan@.len() {
        Ok((r, w))
    } else {
        match exec_step(s, s.plan@[k as int], r, w) {
            Err(e) => Err(e),
            Ok((r2, w2)) => run(s, k + 1, r2, w2),
        }
    }
}

/// The record that decoding starts from: every value zero.
pub open spec fn zero_record(s: Schema) -> RecordView {
    Seq::new(
        s.fields@.len(),
        |i: int| Seq::new(storage_len(s.fields@[i].shape), |j: int| zero_elem(s.fields@[i].ty)),
    )
}

/// Decoding a record from a window: the record and the window after.
pub open spec fn decode_spec(s: Schema, w: Window) -> Result<(RecordView, Window), SerdeErr> {
    run(s, 0, zero_record(s), w)
}



/// Two records are equal: every non-phantom field matches, and a vector
/// only over as many elements as the first record's length gives.
pub open spec fn records_eq(s: Schema, a: RecordView, b: RecordView) -> bool {
    forall|i: int|
        0 <= i < s.fields@.len() && !(#[trigger] s.fields@[i]).phantom ==> match s.fields@[i].shape {
            Shape::Vector { cap, .. } => forall|j: int|
                0 <= j < count(s, a, i) && j < cap ==> (#[trigger] a[i][j]) == b[i][j],
            _ => a[i] == b[i],
        }
}

/// An element with every value zero.
fn new_zero_elem(t: &ElemTy) -> (r: Vec<u64>)
    ensures
        r@ == zero_elem(*t),
{
    let mut v: Vec<u64> = Vec::new();
    let mut k: usize = 0;
    while k < t.atoms.len()
        invariant
            k <= t.atoms@.len(),
            v@ == Seq::new(k as nat, |q: int| 0u64),
        decreases t.atoms@.len() - k,
    {
        v.push(0);
        k = k + 1;
        assert(v@ =~= Seq::new(k as nat, |q: int| 0u64));
    }
    v
}

/// A vector of integers is its own deep view.
pub proof fn lemma_deep_view_flat(v: &Vec<u64>)
    ensures
        v.deep_view() == v@,
{
    assert(v.deep_view() =~= v@);
}

/// A vector of vectors of integers, seen through its deep view.
pub proof fn lemma_deep_view_nested(v: &Vec<Vec<u64>>)
    ensures
        v.deep_view() == Seq::new(v@.len(), |j: int| v@[j]@),
{
    assert forall|j: int| 0 <= j < v@.len() implies v@[j].deep_view() == v@[j]@ by {
        lemma_deep_view_flat(&v@[j]);
    }
    assert(v.deep_view() =~= Seq::new(v@.len(), |j: int| v@[j]@));
}

/// Storage of `len` zero elements.
fn new_zero_storage(t: &ElemTy, len: usize) -> (r: Vec<Vec<u64>>)
    ensures
        r@.len() == len,
        forall|j: int| 0 <= j < len ==> (#[trigger] r@[j])@ == zero_elem(*t),
        r.deep_view() == Seq::new(len as nat, |j: int| zero_elem(*t)),
{
    let mut v: Vec<Vec<u64>> = Vec::new();
    let mut k: usize = 0;
    while k < len
        invariant
            k <= len,
            v@.len() == k,
            forall|j: int| 0 <= j < k ==> (#[trigger] v@[j])@ == zero_elem(*t),
        decreases len - k,
    {
        let e = new_zero_elem(t);
        v.push(e);
        k = k + 1;
    }
    proof {
        lemma_deep_view_nested(&v);
    }
    assert(v.deep_view() =~= Seq::new(len as nat, |j: int| zero_elem(*t)));
    v
}

fn storage_len_exec(sh: Shape) -> (r: usize)
    ensures
        r == storage_len(sh),
{
    match sh {
        Shape::Scalar => 1,
        Shape::Array(n) => n,
        Shape::Vector { cap, .. } => cap,
    }
}

fn to_elements_exec(v: u64, unit: SizeUnit, size: usize) -> (r: u64)
    requires
        size > 0,
    ensures
        r as nat == to_elements(v as nat, unit, size as nat),
{
    match unit {
        SizeUnit::Length => v,
        SizeUnit::Bytes => v / (size as u64),
        SizeUnit::Bits => v / 8 / (size as u64),
    }
}

pub proof fn lemma_read_elems_err(t: ElemTy, m: nat, n: nat, w: Window)
    requires
        m <= n,
        read_elems(t, m, w) is Err,
    ensures
        read_elems(t, n, w) == read_elems(t, m, w),
    decreases n,
{
    if m < n {
        lemma_read_elems_err(t, m, (n - 1) as nat, w);
    }
}

impl Schema {
    /// The record that decoding starts from: every value zero.
    pub fn new_record(&self) -> (r: Record)
        requires
            self.wf(),
        ensures
            r.deep_view() == zero_record(*self),
            shaped(*self, r.deep_view()),
    {
        let mut r: Record = Vec::new();
        let mut i: usize = 0;
        while i < self.fields.len()
            invariant
                i <= self.fields@.len(),
                r.deep_view() =~= zero_record(*self).subrange(0, i as int),
            decreases self.fields@.len() - i,
        {
            let f = &self.fields[i];
            let st = new_zero_storage(&f.ty, storage_len_exec(f.shape));
            let ghost r0 = r.deep_view();
            r.push(st);
            assert(r.deep_view() =~= r0.push(st.deep_view()));
            i = i + 1;
            assert(r.deep_view() =~= zero_record(*self).subrange(0, i as int));
        }
        assert(zero_record(*self).subrange(0, i as int) =~= zero_record(*self));
        r
    }

    /// The value of the integer field `l`.
    fn len_value_exec(&self, rec: &Record, l: usize) -> (v: u64)
        requires
            self.wf(),
            l < self.fields@.len(),
            crate::schema::is_int_scalar(self.fields@[l as int]),
            shaped(*self, rec.deep_view()),
        ensures
            v as nat == len_value(rec.deep_view(), l as int),
    {
        assert(rec.deep_view()[l as int] == rec@[l as int].deep_view());
        assert(rec.deep_view()[l as int][0] == rec@[l as int]@[0].deep_view());
        rec[l][0][0]
    }

    /// How many elements of field `i` are on the wire.
    fn count_exec(&self, rec: &Record, i: usize) -> (n: u64)
        requires
            self.wf(),
            i < self.fields@.len(),
            shaped(*self, rec.deep_view()),
        ensures
            n as nat == count(*self, rec.deep_view(), i as int),
    {
        assert(crate::schema::field_ok(self.fields@, i as int));
        let f = &self.fields[i];
        match f.shape {
            Shape::Scalar => 1,
            Shape::Array(n) => n as u64,
            Shape::Vector { len_field, unit, .. } => {
                let v = self.len_value_exec(rec, len_field);
                to_elements_exec(v, unit, f.ty.size)
            },
        }
    }

    /// Reads field `i` from the cursor.
    fn read_field_exec(&self, rec: &Record, i: usize, de: &mut NetStructDeserializer) -> (r: Result<
        Vec<Vec<u64>>,
        SerdeErr,
    >)
        requires
            self.wf(),
            i < self.fields@.len(),
            shaped(*self, rec.deep_view()),
            old(de).wf(),
        ensures
            final(de).wf(),
            match read_field(*self, rec.deep_view(), i as int, old(de)@) {
                Ok((f, w2)) => r matches Ok(v) && v.deep_view() == f && final(de)@ == w2,
                Err(e) => r == Err::<Vec<Vec<u64>>, SerdeErr>(e),
            },
            r matches Ok(v) ==> v@.len() == storage_len(self.fields@[i as int].shape) && forall|j: int|
                0 <= j < v@.len() ==> (#[trigger] v@[j])@.len() == self.fields@[i as int].ty.atoms@.len(),
    {
        let n = self.count_exec(rec, i);
        let f = &self.fields[i];
        let t = &f.ty;
        let cap = storage_len_exec(f.shape);
        if n > cap as u64 {
            return Err(SerdeErr::Eof);
        }
        let n = n as usize;
        let width = self.widths[i];
        let fwd = de.forward();
        let ghost w0 = de@;
        let mut store = new_zero_storage(t, cap);
        let ghost mut es: Seq<Seq<u64>> = seq![];
        let mut k: usize = 0;
        while k < n
            invariant
                self.wf(),
                i < self.fields@.len(),
                t == self.fields@[i as int].ty,
                width == elem_width(*t),
                n <= cap,
                n as nat == count(*self, rec.deep_view(), i as int),
                cap == storage_len(self.fields@[i as int].shape),
                w0 == old(de)@,
                k <= n,
                fwd == w0.forward,
                de.wf(),
                es.len() == k,
                store@.len() == cap,
                forall|j: int| 0 <= j < k ==> (#[trigger] es[j]).len() == t.atoms@.len(),
                read_elems(*t, k as nat, w0) == Ok::<(Seq<Seq<u64>>, Window), SerdeErr>((es, de@)),
                forall|j: int|
                    0 <= j < cap ==> (#[trigger] store@[j])@ == if fwd {
                        if j < k {
                            es[j]
                        } else {
                            zero_elem(*t)
                        }
                    } else {
                        if n - k <= j < n {
                            es[n - 1 - j]
                        } else {
                            zero_elem(*t)
                        }
                    },
            decreases n - k,
        {
            let ghost before = store.deep_view();
            match t.read(width, de) {
                Ok(v) => {
                    let idx = if fwd { k } else { n - 1 - k };
                    proof {
                        lemma_deep_view_flat(&v);
                    }
                    store.set(idx, v);
                    proof {
                        es = es.push(v@);
                    }
                    k = k + 1;
                },
                Err(e) => {
                    proof {
                        assert(read_elems(*t, k as nat + 1, w0) == Err::<(Seq<Seq<u64>>, Window), SerdeErr>(e));
                        lemma_read_elems_err(*t, k as nat + 1, n as nat, w0);
                        assert(read_elems(*t, n as nat, w0) == Err::<(Seq<Seq<u64>>, Window), SerdeErr>(e));
                    }
                    return Err(e);
                },
            }
        }
        proof {
            lemma_deep_view_nested(&store);
        }
        assert(store.deep_view() =~= place(*t, es, n as nat, cap as nat, fwd));
        Ok(store)
    }

    /// Reads the open-ended vector `i` for as long as its elements parse,
    /// and stores their count, in its unit, in its length field.
    fn read_to_end_exec(&self, rec: &mut Record, i: usize, de: &mut NetStructDeserializer)
        requires
            self.wf(),
            i < self.fields@.len(),
            self.fields@[i as int].shape is Vector,
            shaped(*self, old(rec).deep_view()),
            old(de).wf(),
        ensures
            final(de).wf(),
            exec_step(*self, Step::ReadToEnd(i), old(rec).deep_view(), old(de)@) == Ok::<
                (RecordView, Window),
                SerdeErr,
            >((final(rec).deep_view(), final(de)@)),
            shaped(*self, final(rec).deep_view()),
    {
        assert(crate::schema::field_ok(self.fields@, i as int));
        let f = &self.fields[i];
        let t = &f.ty;
        let (cap, len_field, unit) = match f.shape {
            Shape::Vector { cap, len_field, unit } => (cap, len_field, unit),
            _ => (0, 0, SizeUnit::Length),
        };
        let width = self.widths[i];
        let ghost w0 = de@;
        let mut store = new_zero_storage(t, cap);
        let ghost mut es: Seq<Seq<u64>> = seq![];
        let mut cnt: usize = 0;
        let mut done = false;
        while cnt < cap && !done
            invariant
                self.wf(),
                i < self.fields@.len(),
                t == self.fields@[i as int].ty,
                width == elem_width(*t),
                cnt <= cap,
                de.wf(),
                es.len() == cnt,
                store@.len() == cap,
                forall|j: int| 0 <= j < cnt ==> (#[trigger] es[j]).len() == t.atoms@.len(),
                !done ==> greedy(*t, cap as nat, w0) == (
                    es + greedy(*t, (cap - cnt) as nat, de@).0,
                    greedy(*t, (cap - cnt) as nat, de@).1,
                ),
                done ==> greedy(*t, cap as nat, w0) == (es, de@),
                forall|j: int|
                    0 <= j < cap ==> (#[trigger] store@[j])@ == if j < cnt {
                        es[j]
                    } else {
                        zero_elem(*t)
                    },
            decreases (cap - cnt) as int * 2 + if done {
                0int
            } else {
                1int
            },
        {
            let ghost wb = de@;
            match t.read(width, de) {
                Ok(v) => {
                    proof {
                        lemma_deep_view_flat(&v);
                    }
                    store.set(cnt, v);
                    proof {
                        let rest = greedy(*t, (cap - cnt - 1) as nat, de@);
                        assert(es + (seq![v@] + rest.0) =~= es.push(v@) + rest.0);
                        es = es.push(v@);
                    }
                    cnt = cnt + 1;
                },
                Err(_) => {
                    assert(es + seq![] =~= es);
                    done = true;
                },
            }
        }
        if !done {
            assert(es + seq![] =~= es);
        }
        proof {
            lemma_deep_view_nested(&store);
        }
        assert(store.deep_view() =~= place(*t, es, cnt as nat, cap as nat, true));
        let l = to_elements_exec(cnt as u64, unit, t.size);
        let ghost r0 = rec.deep_view();
        rec.set(i, store);
        let mut inner: Vec<u64> = Vec::new();
        inner.push(l);
        let mut lv: Vec<Vec<u64>> = Vec::new();
        lv.push(inner);
        proof {
            lemma_deep_view_nested(&lv);
            assert(lv@[0]@ =~= seq![l]);
        }
        rec.set(len_field, lv);
        proof {
            assert(lv.deep_view() =~= seq![seq![l]]);
            assert(rec.deep_view() =~= r0.update(i as int, place(*t, es, cnt as nat, cap as nat, true)).update(
                len_field as int,
                seq![seq![l]],
            ));
            assert(crate::schema::is_int_scalar(self.fields@[len_field as int]));
        }
    }
}

pub proof fn lemma_elems_encode_none(t: ElemTy, es: Seq<Seq<u64>>, m: nat, n: nat)
    requires
        0 < m <= n,
        elems_encode(t, es, m) is None,
    ensures
        elems_encode(t, es, n) is None,
    decreases n,
{
    if m < n {
        lemma_elems_encode_none(t, es, m, (n - 1) as nat);
    }
}

pub proof fn lemma_fields_encode_none(s: Schema, r: RecordView, m: nat, n: nat)
    requires
        0 < m <= n,
        fields_encode(s, r, m) is None,
    ensures
        fields_encode(s, r, n) is None,
    decreases n,
{
    if m < n {
        lemma_fields_encode_none(s, r, m, (n - 1) as nat);
    }
}

/// The two elements hold the same values.
fn same_elem(a: &Vec<u64>, b: &Vec<u64>) -> (r: bool)
    ensures
        r == (a@ == b@),
{
    if a.len() != b.len() {
        return false;
    }
    let mut k: usize = 0;
    while k < a.len()
        invariant
            k <= a@.len() == b@.len(),
            forall|q: int| 0 <= q < k ==> a@[q] == b@[q],
        decreases a@.len() - k,
    {
        if a[k] != b[k] {
            return false;
        }
        k = k + 1;
    }
    assert(a@ =~= b@);
    true
}

impl Schema {
    /// Runs one plan step on the record being filled and the cursor.
    fn do_step(&self, st: Step, rec: &mut Record, de: &mut NetStructDeserializer) -> (r: Result<(), SerdeErr>)
        requires
            self.wf(),
            shaped(*self, old(rec).deep_view()),
            old(de).wf(),
        ensures
            final(de).wf(),
            match exec_step(*self, st, old(rec).deep_view(), old(de)@) {
                Ok((r2, w2)) => r is Ok && final(rec).deep_view() == r2 && final(de)@ == w2 && shaped(*self, r2),
                Err(e) => r == Err::<(), SerdeErr>(e),
            },
    {
        match st {
            Step::Reverse => {
                de.reverse();
                Ok(())
            },
            Step::Read(i) => {
                if i >= self.fields.len() {
                    return Err(SerdeErr::NotSupported);
                }
                let f = self.read_field_exec(rec, i, de)?;
                let ghost r0 = rec.deep_view();
                proof {
                    lemma_deep_view_nested(&f);
                }
                rec.set(i, f);
                assert(rec.deep_view() =~= r0.update(i as int, f.deep_view()));
                Ok(())
            },
            Step::ReadToEnd(i) => {
                if i >= self.fields.len() {
                    return Err(SerdeErr::NotSupported);
                }
                match self.fields[i].shape {
                    Shape::Vector { .. } => {
                        self.read_to_end_exec(rec, i, de);
                        Ok(())
                    },
                    _ => Err(SerdeErr::NotSupported),
                }
            },
            Step::Truncate => match self.struct_len {
                None => Err(SerdeErr::NotSupported),
                Some(sl) => {
                    let a = self.len_value_exec(rec, sl.anchor);
                    let total = if sl.unit == SizeUnit::Bits { a / 8 } else { a };
                    let used = de.finalize() as u64;
                    if total < used {
                        return Err(SerdeErr::Eof);
                    }
                    if total - used > de.remaining() as u64 {
                        return Err(SerdeErr::Eof);
                    }
                    de.truncate((total - used) as usize)
                },
            },
        }
    }

    /// Decodes a record from the cursor by running the read plan.
    pub fn decode(&self, de: &mut NetStructDeserializer) -> (r: Result<Record, SerdeErr>)
        requires
            self.wf(),
            old(de).wf(),
        ensures
            final(de).wf(),
            match decode_spec(*self, old(de)@) {
                Ok((rv, w)) => r matches Ok(v) && v.deep_view() == rv && final(de)@ == w,
                Err(e) => r == Err::<Record, SerdeErr>(e),
            },
    {
        let mut rec = self.new_record();
        let mut k: usize = 0;
        while k < self.plan.len()
            invariant
                self.wf(),
                k <= self.plan@.len(),
                de.wf(),
                shaped(*self, rec.deep_view()),
                decode_spec(*self, old(de)@) == run(*self, k as nat, rec.deep_view(), de@),
            decreases self.plan@.len() - k,
        {
            self.do_step(self.plan[k], &mut rec, de)?;
            k = k + 1;
        }
        Ok(rec)
    }

    /// Appends the bytes of field `i`; false when its length exceeds its
    /// storage or a value names no variant.
    fn field_bytes(&self, rec: &Record, i: usize, out: &mut Vec<u8>) -> (ok: bool)
        requires
            self.wf(),
            i < self.fields@.len(),
            shaped(*self, rec.deep_view()),
        ensures
            ok == field_encode(*self, rec.deep_view(), i as int) is Some,
            ok ==> final(out)@ == old(out)@ + field_encode(*self, rec.deep_view(), i as int).unwrap(),
    {
        let f = &self.fields[i];
        if f.phantom {
            assert(out@ + seq![] =~= out@);
            return true;
        }
        let n = self.count_exec(rec, i);
        let cap = storage_len_exec(f.shape);
        if n > cap as u64 {
            return false;
        }
        let n = n as usize;
        let ghost es = rec.deep_view()[i as int];
        proof {
            lemma_deep_view_nested(&rec@[i as int]);
        }
        assert(out@ + seq![] =~= out@);
        let mut j: usize = 0;
        while j < n
            invariant
                self.wf(),
                i < self.fields@.len(),
                f == self.fields@[i as int],
                n <= cap == storage_len(f.shape),
                n as nat == count(*self, rec.deep_view(), i as int),
                !f.phantom,
                shaped(*self, rec.deep_view()),
                es == rec.deep_view()[i as int],
                es == Seq::new(rec@[i as int]@.len(), |q: int| rec@[i as int]@[q]@),
                j <= n,
                elems_encode(f.ty, es, j as nat) is Some,
                out@ == old(out)@ + elems_encode(f.ty, es, j as nat).unwrap(),
            decreases n - j,
        {
            let ghost before = out@;
            let ok = f.ty.encode(&rec[i][j], out);
            if !ok {
                proof {
                    assert(es[j as int] == rec@[i as int]@[j as int]@);
                    lemma_elems_encode_none(f.ty, es, j as nat + 1, n as nat);
                }
                return false;
            }
            assert(out@ =~= old(out)@ + elems_encode(f.ty, es, j as nat + 1).unwrap());
            j = j + 1;
        }
        true
    }

    /// The bytes of a record on the wire: its non-phantom fields in
    /// declaration order, each vector as long as its length field says.
    /// `ParseFailed` when a length exceeds its storage or a value names no
    /// variant.
    pub fn encode_bytes(&self, rec: &Record) -> (r: Result<Vec<u8>, SerdeErr>)
        requires
            self.wf(),
            shaped(*self, rec.deep_view()),
        ensures
            match encode_spec(*self, rec.deep_view()) {
                Some(b) => r matches Ok(v) && v@ == b,
                None => r == Err::<Vec<u8>, SerdeErr>(SerdeErr::ParseFailed),
            },
    {
        let mut out: Vec<u8> = Vec::new();
        let mut i: usize = 0;
        while i < self.fields.len()
            invariant
                self.wf(),
                i <= self.fields@.len(),
                shaped(*self, rec.deep_view()),
                fields_encode(*self, rec.deep_view(), i as nat) is Some,
                out@ == fields_encode(*self, rec.deep_view(), i as nat).unwrap(),
            decreases self.fields@.len() - i,
        {
            if !self.field_bytes(rec, i, &mut out) {
                proof {
                    lemma_fields_encode_none(*self, rec.deep_view(), i as nat + 1, self.fields@.len());
                }
                return Err(SerdeErr::ParseFailed);
            }
            i = i + 1;
        }
        Ok(out)
    }

    /// Encodes a record into the writer: all of its bytes, or nothing and
    /// an error.
    pub fn encode(&self, rec: &Record, out: &mut NetStructSerializer) -> (r: Result<(), SerdeErr>)
        requires
            self.wf(),
            shaped(*self, rec.deep_view()),
            old(out).wf(),
        ensures
            final(out).wf(),
            match encode_spec(*self, rec.deep_view()) {
                None => r == Err::<(), SerdeErr>(SerdeErr::ParseFailed) && final(out)@ == old(out)@,
                Some(b) => match write_spec(old(out)@, b) {
                    Ok(o) => r == Ok::<(), SerdeErr>(()) && final(out)@ == o,
                    Err(e) => r == Err::<(), SerdeErr>(e) && final(out)@ == old(out)@,
                },
            },
    {
        let b = self.encode_bytes(rec)?;
        out.serialize_bytes(b.as_slice())
    }

    /// Compares two records: non-phantom fields only, and each vector over
    /// as many elements as the length in `a` gives.
    pub fn equal(&self, a: &Record, b: &Record) -> (r: bool)
        requires
            self.wf(),
            shaped(*self, a.deep_view()),
            shaped(*self, b.deep_view()),
        ensures
            r == records_eq(*self, a.deep_view(), b.deep_view()),
    {
        let mut i: usize = 0;
        while i < self.fields.len()
            invariant
                self.wf(),
                i <= self.fields@.len(),
                shaped(*self, a.deep_view()),
                shaped(*self, b.deep_view()),
                forall|q: int|
                    0 <= q < i && !(#[trigger] self.fields@[q]).phantom ==> match self.fields@[q].shape {
                        Shape::Vector { cap, .. } => forall|j: int|
                            0 <= j < count(*self, a.deep_view(), q) && j < cap ==> (#[trigger] a.deep_view()[q][j])
                                == b.deep_view()[q][j],
                        _ => a.deep_view()[q] == b.deep_view()[q],
                    },
            decreases self.fields@.len() - i,
        {
            let f = &self.fields[i];
            proof {
                lemma_deep_view_nested(&a@[i as int]);
                lemma_deep_view_nested(&b@[i as int]);
            }
            if !f.phantom {
                let len = storage_len_exec(f.shape);
                let n: u64 = match f.shape {
                    Shape::Vector { .. } => self.count_exec(a, i),
                    _ => len as u64,
                };
                let mut j: usize = 0;
                while j < len && (j as u64) < n
                    invariant
                        self.wf(),
                        i < self.fields@.len(),
                        f == self.fields@[i as int],
                        len == storage_len(f.shape),
                        shaped(*self, a.deep_view()),
                        shaped(*self, b.deep_view()),
                        a.deep_view()[i as int] == Seq::new(a@[i as int]@.len(), |q: int| a@[i as int]@[q]@),
                        b.deep_view()[i as int] == Seq::new(b@[i as int]@.len(), |q: int| b@[i as int]@[q]@),
                        j <= len,
                        !f.phantom,
                        f.shape is Vector ==> n as nat == count(*self, a.deep_view(), i as int),
                        !(f.shape is Vector) ==> n == len,
                        forall|q: int| 0 <= q < j ==> a.deep_view()[i as int][q] == b.deep_view()[i as int][q],
                    decreases len - j,
                {
                    if !same_elem(&a[i][j], &b[i][j]) {
                        proof {
                            let (av, bv) = (a.deep_view(), b.deep_view());
                            assert(av[i as int][j as int] != bv[i as int][j as int]);
                            assert(!self.fields@[i as int].phantom);
                            if !(f.shape is Vector) {
                                assert(av[i as int] != bv[i as int]);
                            }
                        }
                        return false;
                    }
                    j = j + 1;
                }
                proof {
                    if !(f.shape is Vector) {
                        assert(a.deep_view()[i as int] =~= b.deep_view()[i as int]);
                    }
                }
            }
            i = i + 1;
        }
        true
    }
}

impl Schema {
    /// Whether a record has the storage that this schema lays out.
    pub fn is_shaped(&self, rec: &Record) -> (r: bool)
        requires
            self.wf(),
        ensures
            r == shaped(*self, rec.deep_view()),
    {
        if rec.len() != self.fields.len() {
            return false;
        }
        let mut i: usize = 0;
        while i < rec.len()
            invariant
                self.wf(),
                rec@.len() == self.fields@.len(),
                i <= rec@.len(),
                forall|q: int|
                    0 <= q < i ==> {
                        &&& (#[trigger] rec.deep_view()[q]).len() == storage_len(self.fields@[q].shape)
                        &&& forall|j: int|
                            0 <= j < rec.deep_view()[q].len() ==> (#[trigger] rec.deep_view()[q][j]).len()
                                == self.fields@[q].ty.atoms@.len()
                    },
            decreases rec@.len() - i,
        {
            proof {
                lemma_deep_view_nested(&rec@[i as int]);
            }
            let f = &self.fields[i];
            let st = &rec[i];
            if st.len() != storage_len_exec(f.shape) {
                assert(rec.deep_view()[i as int].len() != storage_len(self.fields@[i as int].shape));
                return false;
            }
            let mut j: usize = 0;
            while j < st.len()
                invariant
                    self.wf(),
                    i < self.fields@.len(),
                    rec@.len() == self.fields@.len(),
                    f == self.fields@[i as int],
                    st == rec@[i as int],
                    rec.deep_view()[i as int] == Seq::new(st@.len(), |q: int| st@[q]@),
                    j <= st@.len(),
                    forall|q: int| 0 <= q < j ==> (#[trigger] st@[q])@.len() == f.ty.atoms@.len(),
                decreases st@.len() - j,
            {
                if st[j].len() != f.ty.atoms.len() {
                    assert(rec.deep_view()[i as int][j as int].len() != self.fields@[i as int].ty.atoms@.len());
                    return false;
                }
                j = j + 1;
            }
            i = i + 1;
        }
        true
    }
}

/// Encodes a record into a fresh buffer of `N` bytes and gives the bytes
/// written: `NotEnoughSpace` when they do not fit.
pub fn to_vec<const N: usize>(schema: &Schema, rec: &Record) -> (r: Result<Vec<u8>, SerdeErr>)
    requires
        schema.wf(),
        shaped(*schema, rec.deep_view()),
    ensures
        match encode_spec(*schema, rec.deep_view()) {
            None => r == Err::<Vec<u8>, SerdeErr>(SerdeErr::ParseFailed),
            Some(b) => if b.len() <= N {
                r matches Ok(v) && v@ == b
            } else {
                r == Err::<Vec<u8>, SerdeErr>(SerdeErr::NotEnoughSpace)
            },
        },
{
    let mut ser = NetStructSerializer::new(vec![0u8; N]);
    schema.encode(rec, &mut ser)?;
    proof {
        let b = encode_spec(*schema, rec.deep_view()).unwrap();
        assert(Seq::<u8>::empty() + b =~= b);
    }
    Ok(vstd::slice::slice_to_vec(ser.written()))
}

/// Decodes a record from the start of `data`.
pub fn from_slice(schema: &Schema, data: &[u8]) -> (r: Result<Record, SerdeErr>)
    requires
        schema.wf(),
    ensures
        match decode_spec(*schema, Window { bytes: data@, forward: true, used: 0 }) {
            Ok((rv, _)) => r matches Ok(v) && v.deep_view() == rv,
            Err(e) => r == Err::<Record, SerdeErr>(e),
        },
{
    let mut de = NetStructDeserializer::new(data);
    schema.decode(&mut de)
}

} // verus!
