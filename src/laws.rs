//! What holds of the codec as a whole: round trips, lengths, equality.
use vstd::prelude::*;

use crate::codec::{
    count, decode_spec, elems_encode, encode_spec, exec_step, field_encode, fields_encode, len_value,
    place, read_field, records_eq, run, shaped, storage_len, zero_elem, zero_record, RecordView,
};
use crate::de::{truncate_spec, Window};
use crate::bytes::{be_bytes, lemma_be_round_trip_small, pow256};
use crate::elem::{atom_encode, atom_parse, elem_value_ok, elem_width, read_elem_spec, Atom, ElemTy, EnumSchema};
use crate::lemmas::{
    enums_distinct, lemma_read_elems_plain, no_enums, lemma_atom_round_trip, lemma_elems_encode_len, lemma_lookup_misses, lemma_greedy, lemma_read_elems_back, lemma_read_elems_front,
};
use crate::schema::{
    compile_spec, field_ok, open_ended, plan_from, readable, steps_for, Schema, Shape, SizeUnit, Step,
};

verus! {

/// The bytes of fields `lo..hi`, in declaration order.
pub open spec fn seg(s: Schema, r: RecordView, lo: nat, hi: nat) -> Seq<u8>
    decreases hi,
{
    if hi <= lo {
        seq![]
    } else {
        seg(s, r, lo, (hi - 1) as nat) + field_encode(s, r, hi - 1).unwrap()
    }
}

/// The length of the whole record that the anchor holds, in bytes.
pub open spec fn anchor_total(s: Schema, r: RecordView) -> nat {
    match s.struct_len {
        None => 0,
        Some(sl) => {
            let a = len_value(r, sl.anchor as int);
            if sl.unit == SizeUnit::Bits {
                a / 8
            } else {
                a
            }
        },
    }
}

/// A record that conforms to its schema: it has the schema's storage,
/// every field encodes (lengths within storage, variants that exist), the
/// values on the wire are within their types, enumerations keep their
/// variants apart, and the anchor, if any, holds the record's length.
pub open spec fn conforming(s: Schema, r: RecordView) -> bool {
    &&& shaped(s, r)
    &&& forall|i: int| 0 <= i < s.fields@.len() ==> (#[trigger] field_encode(s, r, i)) is Some
    &&& forall|i: int, q: int|
        0 <= i < s.fields@.len() && !s.fields@[i].phantom && 0 <= q < count(s, r, i) ==> elem_value_ok(
            s.fields@[i].ty,
            #[trigger] r[i][q],
        )
    &&& forall|i: int| 0 <= i < s.fields@.len() ==> enums_distinct((#[trigger] s.fields@[i]).ty.atoms@)
    &&& s.struct_len is Some ==> anchor_total(s, r) == seg(s, r, 0, s.fields@.len()).len()
}

/// Field `j` of `acc` holds what field `j` of `r` holds on the wire.
pub open spec fn field_agrees(s: Schema, r: RecordView, acc: RecordView, j: int) -> bool {
    s.fields@[j].phantom || match s.fields@[j].shape {
        Shape::Vector { .. } => forall|q: int| 0 <= q < count(s, r, j) ==> (#[trigger] acc[j][q]) == r[j][q],
        _ => acc[j] == r[j],
    }
}

pub proof fn lemma_seg_front(s: Schema, r: RecordView, lo: nat, hi: nat)
    requires
        lo < hi,
    ensures
        seg(s, r, lo, hi) == field_encode(s, r, lo as int).unwrap() + seg(s, r, lo + 1, hi),
    decreases hi,
{
    if hi > lo + 1 {
        lemma_seg_front(s, r, lo, (hi - 1) as nat);
        let a = field_encode(s, r, lo as int).unwrap();
        let m = seg(s, r, lo + 1, (hi - 1) as nat);
        let z = field_encode(s, r, hi - 1).unwrap();
        assert(seg(s, r, lo, hi) == seg(s, r, lo, (hi - 1) as nat) + z);
        assert(seg(s, r, lo + 1, hi) == m + z);
        assert((a + m) + z =~= a + (m + z));
    } else {
        let a = field_encode(s, r, lo as int).unwrap();
        assert(seg(s, r, lo, lo) == Seq::<u8>::empty());
        assert(seg(s, r, lo + 1, hi) == Seq::<u8>::empty());
        assert(seg(s, r, lo, hi) == seg(s, r, lo, lo) + a);
        assert(Seq::<u8>::empty() + a =~= a + Seq::<u8>::empty());
    }
}

pub proof fn lemma_fields_encode_seg(s: Schema, r: RecordView, n: nat)
    requires
        forall|i: int| 0 <= i < n ==> (#[trigger] field_encode(s, r, i)) is Some,
    ensures
        fields_encode(s, r, n) == Some(seg(s, r, 0, n)),
    decreases n,
{
    if n > 0 {
        lemma_fields_encode_seg(s, r, (n - 1) as nat);
        assert(field_encode(s, r, n - 1) is Some);
    }
}

pub proof fn lemma_zero_record_shaped(s: Schema)
    ensures
        shaped(s, zero_record(s)),
{
}

/// One plan step at position `k` and the rest of the run.
pub proof fn lemma_run_unfold(s: Schema, k: nat, acc: RecordView, w: Window)
    requires
        k < s.plan@.len(),
    ensures
        run(s, k, acc, w) == match exec_step(s, s.plan@[k as int], acc, w) {
            Err(e) => Err(e),
            Ok((r2, w2)) => run(s, k + 1, r2, w2),
        },
{
}

/// Reading field `i` of a conforming record back from the end of the window
/// that holds its bytes.
pub proof fn lemma_read_one(s: Schema, r: RecordView, acc: RecordView, i: int, w: Window, other: Seq<u8>)
    requires
        s.wf(),
        conforming(s, r),
        shaped(s, acc),
        0 <= i < s.fields@.len(),
        !s.fields@[i].phantom,
        count(s, acc, i) == count(s, r, i),
        w.forward ==> w.bytes == field_encode(s, r, i).unwrap() + other,
        !w.forward ==> w.bytes == other + field_encode(s, r, i).unwrap(),
    ensures
        read_field(s, acc, i, w) matches Ok((f, w2)) && w2 == (Window {
            bytes: other,
            used: w.used + field_encode(s, r, i).unwrap().len(),
            ..w
        }) && shaped(s, acc.update(i, f)) && field_agrees(s, r, acc.update(i, f), i),
{
    let t = s.fields@[i].ty;
    let n = count(s, r, i);
    let len = storage_len(s.fields@[i].shape);
    let es = r[i];
    assert(field_encode(s, r, i) is Some);
    assert(n <= len);
    assert forall|q: int| 0 <= q < n implies elem_value_ok(t, #[trigger] es[q]) by {
        assert(elem_value_ok(s.fields@[i].ty, r[i][q]));
    }
    assert(enums_distinct(s.fields@[i].ty.atoms@));
    lemma_elems_encode_len(t, es, n);
    if w.forward {
        lemma_read_elems_front(t, es, n, other, w);
        let f = place(t, es.subrange(0, n as int), n, len, true);
        assert(f.len() == len);
        let acc2 = acc.update(i, f);
        assert forall|j: int| 0 <= j < acc2[i].len() implies (#[trigger] acc2[i][j]).len() == t.atoms@.len() by {
            if j < n {
                assert(es[j].len() == t.atoms@.len());
            }
        }
        assert(shaped(s, acc2));
        match s.fields@[i].shape {
            Shape::Vector { .. } => {},
            _ => {
                assert(acc2[i] =~= r[i]);
            },
        }
    } else {
        lemma_read_elems_back(t, es, n, n, other, w);
        assert(elems_encode(t, es, 0).unwrap() =~= Seq::<u8>::empty());
        assert(other + Seq::<u8>::empty() =~= other);
        let rd = Seq::new(n, |q: int| es[n - 1 - q]);
        let f = place(t, rd, n, len, false);
        let acc2 = acc.update(i, f);
        assert forall|j: int| 0 <= j < acc2[i].len() implies (#[trigger] acc2[i][j]).len() == t.atoms@.len() by {
            if j < n {
                assert(es[j].len() == t.atoms@.len());
            }
        }
        assert(shaped(s, acc2));
        match s.fields@[i].shape {
            Shape::Vector { .. } => {},
            _ => {
                assert(acc2[i] =~= r[i]);
            },
        }
    }
}

/// From step `k` on, the plan clips the window by the anchor before it
/// reverses.
pub open spec fn truncates_first(plan: Seq<Step>, k: nat) -> bool {
    exists|t: int|
        k <= t < plan.len() && plan[t] == Step::Truncate && forall|q: int| k <= q < t ==> plan[q] != Step::Reverse
}

/// The state of a decoding run over a conforming record's bytes, after the
/// fields outside `lo..hi` were read: the window holds the bytes of the
/// unread fields, then `tail`; the record being filled agrees on the read
/// fields. Bytes beyond the record remain only while the plan reads forward
/// and has yet to clip the window by the anchor.
pub open spec fn run_pre(
    s: Schema,
    r: RecordView,
    lo: nat,
    hi: nat,
    fwd: bool,
    read: Seq<bool>,
    k: nat,
    acc: RecordView,
    w: Window,
    tail: Seq<u8>,
) -> bool {
    &&& s.wf()
    &&& conforming(s, r)
    &&& lo <= hi <= s.fields@.len()
    &&& read.len() == s.fields@.len()
    &&& forall|j: int| 0 <= j < s.fields@.len() ==> (#[trigger] read[j] <==> !(lo <= j < hi))
    &&& w.forward == fwd
    &&& w.bytes == seg(s, r, lo, hi) + tail
    &&& w.used + seg(s, r, lo, hi).len() == seg(s, r, 0, s.fields@.len()).len()
    &&& shaped(s, acc)
    &&& forall|j: int| 0 <= j < s.fields@.len() && read[j] ==> #[trigger] field_agrees(s, r, acc, j)
    &&& tail.len() > 0 ==> {
        &&& fwd
        &&& s.struct_len is Some
        &&& !read[s.struct_len.unwrap().anchor as int]
        &&& truncates_first(s.plan@, k)
    }
}

/// The run from step `k` ends with every byte of the record consumed, and
/// a record that agrees with `r` on every field.
pub open spec fn run_post(s: Schema, r: RecordView, k: nat, acc: RecordView, w: Window) -> bool {
    run(s, k, acc, w) matches Ok((fin, we)) && we.bytes.len() == 0 && we.used == seg(
        s,
        r,
        0,
        s.fields@.len(),
    ).len() && forall|j: int| 0 <= j < s.fields@.len() ==> #[trigger] field_agrees(s, r, fin, j)
}

pub proof fn lemma_run(
    s: Schema,
    r: RecordView,
    lo: nat,
    hi: nat,
    fwd: bool,
    read: Seq<bool>,
    k: nat,
    acc: RecordView,
    w: Window,
    tail: Seq<u8>,
)
    requires
        run_pre(s, r, lo, hi, fwd, read, k, acc, w, tail),
        plan_from(s.fields@, s.struct_len, lo, hi, fwd, read) is Ok,
        k <= s.plan@.len(),
        s.plan@.subrange(k as int, s.plan@.len() as int) == plan_from(
            s.fields@,
            s.struct_len,
            lo,
            hi,
            fwd,
            read,
        ).unwrap(),
    ensures
        run_post(s, r, k, acc, w),
    decreases (hi - lo) * 2 + 1, 0nat,
{
    let fields = s.fields@;
    let sl = s.struct_len;
    if lo >= hi {
        assert(s.plan@.subrange(k as int, s.plan@.len() as int).len() == 0);
        assert(forall|j: int| 0 <= j < fields.len() ==> read[j]);
        if tail.len() > 0 {
            assert(read[sl.unwrap().anchor as int]);
        }
        assert forall|j: int| 0 <= j < fields.len() implies #[trigger] field_agrees(s, r, acc, j) by {
            assert(read[j]);
        }
    } else {
        let head = if fwd { lo as int } else { hi - 1 };
        let other = if fwd { hi - 1 } else { lo as int };
        if readable(fields, sl, read, lo, hi, head) {
            lemma_pop_read_set(s, lo, hi, fwd, read);
            lemma_pop(s, r, lo, hi, fwd, read, k, acc, w, tail);
        } else {
            assert(readable(fields, sl, read, lo, hi, other));
            let (st, f2) = steps_for(fields, sl, other, !fwd);
            let (lo2, hi2) = if !fwd { (lo + 1, hi) } else { (lo, (hi - 1) as nat) };
            let rest = plan_from(fields, sl, lo2, hi2, f2, read.update(other, true)).unwrap();
            let tl = s.plan@.subrange(k as int, s.plan@.len() as int);
            assert(tl == seq![Step::Reverse] + st + rest);
            assert(tl[0] == Step::Reverse);
            assert(s.plan@[k as int] == Step::Reverse);
            if tail.len() > 0 {
                let t = choose|t: int|
                    k <= t < s.plan@.len() && s.plan@[t] == Step::Truncate && forall|q: int|
                        k <= q < t ==> s.plan@[q] != Step::Reverse;
                assert(t != k);
                assert(s.plan@[k as int] != Step::Reverse);
            }
            assert(tail.len() == 0);
            lemma_run_unfold(s, k, acc, w);
            let w1 = Window { forward: !w.forward, ..w };
            assert(s.plan@.subrange(k + 1 as int, s.plan@.len() as int) =~= st + rest) by {
                assert(s.plan@.subrange(k + 1 as int, s.plan@.len() as int) =~= tl.subrange(1, tl.len() as int));
            }
            lemma_pop_read_set(s, lo, hi, !fwd, read);
            lemma_pop(s, r, lo, hi, !fwd, read, k + 1, acc, w1, tail);
        }
    }
}

/// The field at the active end can be read, and the plan from step `k` on
/// reads it and then the rest.
pub open spec fn pop_pre(
    s: Schema,
    r: RecordView,
    lo: nat,
    hi: nat,
    fwd: bool,
    read: Seq<bool>,
    k: nat,
    acc: RecordView,
    w: Window,
    tail: Seq<u8>,
) -> bool {
    let i = if fwd { lo as int } else { hi - 1 };
    let (st, f2) = steps_for(s.fields@, s.struct_len, i, fwd);
    let (lo2, hi2) = if fwd { (lo + 1, hi) } else { (lo, (hi - 1) as nat) };
    &&& run_pre(s, r, lo, hi, fwd, read, k, acc, w, tail)
    &&& lo < hi
    &&& readable(s.fields@, s.struct_len, read, lo, hi, i)
    &&& plan_from(s.fields@, s.struct_len, lo2, hi2, f2, read.update(i, true)) is Ok
    &&& k <= s.plan@.len()
    &&& s.plan@.subrange(k as int, s.plan@.len() as int) == st + plan_from(
        s.fields@,
        s.struct_len,
        lo2,
        hi2,
        f2,
        read.update(i, true),
    ).unwrap()
}

pub proof fn lemma_pop(
    s: Schema,
    r: RecordView,
    lo: nat,
    hi: nat,
    fwd: bool,
    read: Seq<bool>,
    k: nat,
    acc: RecordView,
    w: Window,
    tail: Seq<u8>,
)
    requires
        pop_pre(s, r, lo, hi, fwd, read, k, acc, w, tail),
    ensures
        run_post(s, r, k, acc, w),
    decreases (hi - lo) * 2, 1nat,
{
    let i = if fwd { lo as int } else { hi - 1 };
    if s.fields@[i].phantom {
        lemma_pop_phantom(s, r, lo, hi, fwd, read, k, acc, w, tail);
    } else if open_ended(s.fields@, i) {
        lemma_pop_open(s, r, lo, hi, fwd, read, k, acc, w, tail);
    } else {
        lemma_pop_read(s, r, lo, hi, fwd, read, k, acc, w, tail);
    }
}

/// The fields left after the active one is taken are those outside the
/// read set.
pub proof fn lemma_pop_read_set(s: Schema, lo: nat, hi: nat, fwd: bool, read: Seq<bool>)
    requires
        lo < hi <= s.fields@.len(),
        read.len() == s.fields@.len(),
        forall|j: int| 0 <= j < s.fields@.len() ==> (#[trigger] read[j] <==> !(lo <= j < hi)),
    ensures
        ({
            let i = if fwd { lo as int } else { hi - 1 };
            let (lo2, hi2) = if fwd { (lo + 1, hi) } else { (lo, (hi - 1) as nat) };
            forall|j: int|
                0 <= j < s.fields@.len() ==> (#[trigger] read.update(i, true)[j] <==> !(lo2 <= j < hi2))
        }),
{
    let i = if fwd { lo as int } else { hi - 1 };
    let (lo2, hi2) = if fwd { (lo + 1, hi) } else { (lo, (hi - 1) as nat) };
    assert forall|j: int| 0 <= j < s.fields@.len() implies (#[trigger] read.update(i, true)[j] <==> !(lo2
        <= j < hi2)) by {
        assert(read[j] <==> !(lo <= j < hi));
    }
}

/// The window before and after the active field: its bytes are at the
/// active end.
pub proof fn lemma_active_bytes(s: Schema, r: RecordView, lo: nat, hi: nat, fwd: bool, w: Window, tail: Seq<u8>)
    requires
        lo < hi,
        w.bytes == seg(s, r, lo, hi) + tail,
        tail.len() > 0 ==> fwd,
    ensures
        ({
            let i = if fwd { lo as int } else { hi - 1 };
            let (lo2, hi2) = if fwd { (lo + 1, hi) } else { (lo, (hi - 1) as nat) };
            let fe = field_encode(s, r, i).unwrap();
            let others = seg(s, r, lo2, hi2);
            &&& seg(s, r, lo, hi).len() == fe.len() + others.len()
            &&& fwd ==> w.bytes == fe + (others + tail)
            &&& !fwd ==> w.bytes == others + fe
        }),
{
    let i = if fwd { lo as int } else { hi - 1 };
    let fe = field_encode(s, r, i).unwrap();
    if fwd {
        lemma_seg_front(s, r, lo, hi);
        let others = seg(s, r, lo + 1, hi);
        assert((fe + others) + tail =~= fe + (others + tail));
    } else {
        assert(tail.len() == 0);
        assert(w.bytes =~= seg(s, r, lo, hi));
    }
}

pub proof fn lemma_pop_phantom(
    s: Schema,
    r: RecordView,
    lo: nat,
    hi: nat,
    fwd: bool,
    read: Seq<bool>,
    k: nat,
    acc: RecordView,
    w: Window,
    tail: Seq<u8>,
)
    requires
        pop_pre(s, r, lo, hi, fwd, read, k, acc, w, tail),
        s.fields@[if fwd { lo as int } else { hi - 1 }].phantom,
    ensures
        run_post(s, r, k, acc, w),
    decreases (hi - lo) * 2, 0nat,
{
    let fields = s.fields@;
    let sl = s.struct_len;
    let n_f = fields.len();
    let i = if fwd { lo as int } else { hi - 1 };
    let (st, f2) = steps_for(fields, sl, i, fwd);
    let (lo2, hi2) = if fwd { (lo + 1, hi) } else { (lo, (hi - 1) as nat) };
    let read2 = read.update(i, true);
    let rest = plan_from(fields, sl, lo2, hi2, f2, read2).unwrap();
    let tl = s.plan@.subrange(k as int, s.plan@.len() as int);
    let others = seg(s, r, lo2, hi2);
    lemma_active_bytes(s, r, lo, hi, fwd, w, tail);
    let fe = field_encode(s, r, i).unwrap();
    assert(fe == Seq::<u8>::empty());
    assert(w.bytes =~= others + tail);
    assert(tl =~= rest);
    lemma_pop_read_set(s, lo, hi, fwd, read);
    assert forall|j: int| 0 <= j < n_f && read2[j] implies #[trigger] field_agrees(s, r, acc, j) by {
        if j != i {
            assert(read[j]);
        }
    }
    if tail.len() > 0 {
        assert(!fields[sl.unwrap().anchor as int].phantom);
        assert(!read2[sl.unwrap().anchor as int]);
    }
    lemma_run(s, r, lo2, hi2, f2, read2, k, acc, w, tail);
}

pub proof fn lemma_pop_open(
    s: Schema,
    r: RecordView,
    lo: nat,
    hi: nat,
    fwd: bool,
    read: Seq<bool>,
    k: nat,
    acc: RecordView,
    w: Window,
    tail: Seq<u8>,
)
    requires
        pop_pre(s, r, lo, hi, fwd, read, k, acc, w, tail),
        !s.fields@[if fwd { lo as int } else { hi - 1 }].phantom,
        open_ended(s.fields@, if fwd { lo as int } else { hi - 1 }),
    ensures
        run_post(s, r, k, acc, w),
{
    let fields = s.fields@;
    let sl = s.struct_len;
    let n_f = fields.len();
    let i = if fwd { lo as int } else { hi - 1 };
    let (st, f2) = steps_for(fields, sl, i, fwd);
    let (lo2, hi2) = if fwd { (lo + 1, hi) } else { (lo, (hi - 1) as nat) };
    let read2 = read.update(i, true);
    let rest = plan_from(fields, sl, lo2, hi2, f2, read2).unwrap();
    let tl = s.plan@.subrange(k as int, s.plan@.len() as int);
    assert(field_ok(fields, i));
    assert(field_encode(s, r, i) is Some);
    let fe = field_encode(s, r, i).unwrap();
    assert(hi == lo + 1);
    assert(lo2 == hi2);
    assert(rest == Seq::<Step>::empty());
    if tail.len() > 0 {
        let a = sl.unwrap().anchor as int;
        assert(a != i);
        assert(read[a]);
    }
    assert(tail.len() == 0);
    assert(w.bytes =~= fe) by {
        assert(seg(s, r, lo, lo) == Seq::<u8>::empty());
        assert(seg(s, r, lo, hi) == seg(s, r, lo, lo) + fe);
    }
    let t = fields[i].ty;
    let (cap, lf, unit) = match fields[i].shape {
        Shape::Vector { cap, len_field, unit } => (cap, len_field, unit),
        _ => (0, 0, SizeUnit::Length),
    };
    let n = count(s, r, i);
    let es = r[i];
    let w1 = Window { forward: true, ..w };
    let k1 = if fwd { k } else { k + 1 };
    if !fwd {
        assert(tl[0] == Step::Reverse);
        lemma_run_unfold(s, k, acc, w);
    }
    assert(tl[k1 - k] == Step::ReadToEnd(i as usize));
    assert(s.plan@[k1 as int] == Step::ReadToEnd(i as usize));
    assert(k1 + 1 == s.plan@.len());
    assert(run(s, k, acc, w) == run(s, k1, acc, w1));
    lemma_run_unfold(s, k1, acc, w1);
    assert(n <= cap);
    assert forall|q: int| 0 <= q < n implies elem_value_ok(t, #[trigger] es[q]) by {
        assert(elem_value_ok(fields[i].ty, r[i][q]));
    }
    assert(enums_distinct(fields[i].ty.atoms@));
    lemma_greedy(t, es, n, cap as nat, w1);
    lemma_elems_encode_len(t, es, n);
    let es_n = es.subrange(0, n as int);
    let l = crate::codec::to_elements(n, unit, t.size as nat);
    let fin = acc.update(i, place(t, es_n, n, cap as nat, true)).update(lf as int, seq![seq![l as u64]]);
    let we = Window { bytes: Seq::<u8>::empty(), used: w1.used + n * elem_width(t), ..w1 };
    assert(crate::codec::greedy(t, cap as nat, w1) == (es_n, we));
    assert(exec_step(s, Step::ReadToEnd(i as usize), acc, w1) == Ok::<(RecordView, Window), crate::err::SerdeErr>((fin, we)));
    assert(run(s, k1 + 1, fin, we) == Ok::<(RecordView, Window), crate::err::SerdeErr>((fin, we)));
    assert(run(s, k, acc, w) == run(s, k1 + 1, fin, we));
    assert forall|j: int| 0 <= j < n_f implies #[trigger] field_agrees(s, r, fin, j) by {
        if j == i {
            assert forall|q: int| 0 <= q < count(s, r, j) implies (#[trigger] fin[j][q]) == r[j][q] by {
                assert(fin[j][q] == es_n[q]);
            }
        } else if j != lf {
            assert(read[j]);
            assert(field_agrees(s, r, acc, j));
            assert(fin[j] == acc[j]);
        }
    }
}

#[verifier::rlimit(80)]
pub proof fn lemma_pop_read(
    s: Schema,
    r: RecordView,
    lo: nat,
    hi: nat,
    fwd: bool,
    read: Seq<bool>,
    k: nat,
    acc: RecordView,
    w: Window,
    tail: Seq<u8>,
)
    requires
        pop_pre(s, r, lo, hi, fwd, read, k, acc, w, tail),
        !s.fields@[if fwd { lo as int } else { hi - 1 }].phantom,
        !open_ended(s.fields@, if fwd { lo as int } else { hi - 1 }),
    ensures
        run_post(s, r, k, acc, w),
    decreases (hi - lo) * 2, 0nat,
{
    let fields = s.fields@;
    let sl = s.struct_len;
    let n_f = fields.len();
    let i = if fwd { lo as int } else { hi - 1 };
    let (st, f2) = steps_for(fields, sl, i, fwd);
    let (lo2, hi2) = if fwd { (lo + 1, hi) } else { (lo, (hi - 1) as nat) };
    let read2 = read.update(i, true);
    let rest = plan_from(fields, sl, lo2, hi2, f2, read2).unwrap();
    let tl = s.plan@.subrange(k as int, s.plan@.len() as int);
    let total = seg(s, r, 0, n_f).len();
    assert(field_ok(fields, i));
    let others = seg(s, r, lo2, hi2);
    lemma_active_bytes(s, r, lo, hi, fwd, w, tail);
    let fe = field_encode(s, r, i).unwrap();
    let n = count(s, r, i);
    assert(count(s, acc, i) == n) by {
        match fields[i].shape {
            Shape::Vector { len_field, .. } => {
                assert(read[len_field as int]);
                assert(field_agrees(s, r, acc, len_field as int));
                assert(acc[len_field as int] == r[len_field as int]);
            },
            _ => {},
        }
    }
    let oth = if fwd { others + tail } else { others };
    lemma_read_one(s, r, acc, i, w, oth);
    let (f, w2) = read_field(s, acc, i, w).unwrap();
    let acc2 = acc.update(i, f);
    assert(w2.bytes =~= others + tail);
    assert(st[0] == Step::Read(i as usize));
    assert(st.len() >= 1);
    assert(tl.len() >= 1);
    assert(tl[0] == (st + rest)[0]);
    assert(tl[0] == s.plan@[k as int]);
    assert(s.plan@[k as int] == Step::Read(i as usize));
    lemma_run_unfold(s, k, acc, w);
    assert(exec_step(s, Step::Read(i as usize), acc, w) == Ok::<(RecordView, Window), crate::err::SerdeErr>((acc2, w2)));
    assert(run(s, k, acc, w) == run(s, k + 1, acc2, w2));
    lemma_pop_read_set(s, lo, hi, fwd, read);
    assert forall|j: int| 0 <= j < n_f && read2[j] implies #[trigger] field_agrees(s, r, acc2, j) by {
        if j != i {
            assert(read[j]);
            assert(field_agrees(s, r, acc, j));
            assert(acc2[j] == acc[j]);
        }
    }
    if sl is Some && sl.unwrap().anchor == i {
        let a = sl.unwrap();
        assert(st[1] == Step::Truncate);
        assert(tl[1] == Step::Truncate);
        assert(s.plan@[k + 1 as int] == Step::Truncate);
        lemma_run_unfold(s, k + 1, acc2, w2);
        assert(acc2[i] == r[i]);
        assert(len_value(acc2, a.anchor as int) == len_value(r, a.anchor as int));
        assert(w2.used + others.len() == total);
        let w3 = Window { bytes: others, ..w2 };
        assert(truncate_spec(w2, (total - w2.used) as nat) == Ok::<Window, crate::err::SerdeErr>(w3)) by {
            if w2.forward {
                assert(w2.bytes.subrange(0, others.len() as int) =~= others);
            } else {
                assert(w2.bytes =~= others);
                assert(w2.bytes.subrange(0, w2.bytes.len() as int) =~= others);
            }
        }
        assert(run(s, k + 1, acc2, w2) == run(s, k + 2, acc2, w3));
        assert(s.plan@.subrange(k + 2 as int, s.plan@.len() as int) =~= rest) by {
            assert(s.plan@.subrange(k + 2 as int, s.plan@.len() as int) =~= tl.subrange(2, tl.len() as int));
        }
        assert(w3.bytes =~= others + Seq::<u8>::empty());
        lemma_run(s, r, lo2, hi2, f2, read2, k + 2, acc2, w3, Seq::<u8>::empty());
    } else {
        assert(s.plan@.subrange(k + 1 as int, s.plan@.len() as int) =~= rest) by {
            assert(s.plan@.subrange(k + 1 as int, s.plan@.len() as int) =~= tl.subrange(1, tl.len() as int));
        }
        if tail.len() > 0 {
            let t = choose|t: int|
                k <= t < s.plan@.len() && s.plan@[t] == Step::Truncate && forall|q: int|
                    k <= q < t ==> s.plan@[q] != Step::Reverse;
            assert(t != k);
            assert(truncates_first(s.plan@, k + 1));
            assert(!read2[sl.unwrap().anchor as int]);
        }
        lemma_run(s, r, lo2, hi2, f2, read2, k + 1, acc2, w2, tail);
    }
}

/// Decoding the bytes of a record that conforms to its schema gives back a
/// record equal to it, and consumes exactly the bytes that encoding wrote.
pub proof fn round_trip(s: Schema, r: RecordView)
    requires
        s.wf(),
        conforming(s, r),
    ensures
        encode_spec(s, r) matches Some(b) && decode_spec(
            s,
            Window { bytes: b, forward: true, used: 0 },
        ) matches Ok((d, w)) && records_eq(s, r, d) && w.used == b.len() && w.bytes.len() == 0,
{
    trailing_bytes_untouched(s, r, Seq::<u8>::empty());
    assert(seg(s, r, 0, s.fields@.len()) + Seq::<u8>::empty() =~= seg(s, r, 0, s.fields@.len()));
}

/// Decoding a conforming record's bytes followed by more bytes gives back
/// the record and leaves the extra bytes unconsumed, provided its anchor is
/// read, and the window clipped by it, before any read from the back.
pub proof fn trailing_bytes_untouched(s: Schema, r: RecordView, extra: Seq<u8>)
    requires
        s.wf(),
        conforming(s, r),
        extra.len() > 0 ==> s.struct_len is Some && truncates_first(s.plan@, 0),
    ensures
        encode_spec(s, r) matches Some(b) && decode_spec(
            s,
            Window { bytes: b + extra, forward: true, used: 0 },
        ) matches Ok((d, w)) && records_eq(s, r, d) && w.used == b.len() && w.bytes.len() == 0,
{
    let n = s.fields@.len();
    lemma_fields_encode_seg(s, r, n);
    let b = seg(s, r, 0, n);
    let w = Window { bytes: b + extra, forward: true, used: 0 };
    let read = Seq::new(n, |i: int| false);
    let acc = zero_record(s);
    lemma_zero_record_shaped(s);
    assert(s.plan@.subrange(0, s.plan@.len() as int) =~= s.plan@);
    assert(compile_spec(s.fields@, s.struct_len) == plan_from(s.fields@, s.struct_len, 0, n, true, read));
    lemma_run(s, r, 0, n, true, read, 0, acc, w, extra);
    let (d, we) = run(s, 0, acc, w).unwrap();
    assert forall|i: int| 0 <= i < n && !(#[trigger] s.fields@[i]).phantom implies match s.fields@[i].shape {
        Shape::Vector { cap, .. } => forall|j: int| 0 <= j < count(s, r, i) && j < cap ==> (#[trigger] r[i][j]) == d[i][j],
        _ => r[i] == d[i],
    } by {
        assert(field_agrees(s, r, d, i));
    }
}

/// Every variant of an enumeration whose variants stay apart on the wire
/// is read back as itself from the bytes written for it.
pub proof fn enum_round_trip(e: EnumSchema, v: u64)
    requires
        e.distinct(),
        v < e.discriminants@.len(),
    ensures
        atom_encode(Atom::Enum(e), v) matches Some(b) && atom_parse(Atom::Enum(e), b) == Ok::<
            u64,
            crate::err::SerdeErr,
        >(v),
{
    lemma_atom_round_trip(Atom::Enum(e), v);
}

/// A wire value that no variant has is refused with `ParseFailed`.
pub proof fn enum_unknown_refused(e: EnumSchema, x: nat)
    requires
        x < pow256(e.repr.spec_width()),
        forall|j: int| 0 <= j < e.discriminants@.len() ==> e.wire(j) != x,
    ensures
        atom_parse(Atom::Enum(e), be_bytes(x, e.repr.spec_width())) == Err::<u64, crate::err::SerdeErr>(
            crate::err::SerdeErr::ParseFailed,
        ),
{
    lemma_be_round_trip_small(x, e.repr.spec_width());
    lemma_lookup_misses(e, x, 0);
}

/// Records whose non-phantom fields hold the same values are equal, whatever
/// their phantom fields hold.
pub proof fn equality_ignores_phantom(s: Schema, a: RecordView, b: RecordView)
    requires
        forall|i: int| 0 <= i < s.fields@.len() && !s.fields@[i].phantom ==> a[i] == b[i],
    ensures
        records_eq(s, a, b),
{
    assert forall|i: int| 0 <= i < s.fields@.len() && !(#[trigger] s.fields@[i]).phantom implies match s.fields@[i].shape {
        Shape::Vector { cap, .. } => forall|j: int| 0 <= j < count(s, a, i) && j < cap ==> (#[trigger] a[i][j]) == b[i][j],
        _ => a[i] == b[i],
    } by {
        assert(a[i] == b[i]);
    }
}

/// The body of a vector on the wire is its length in elements, its length
/// field's value converted by its unit, times the width of one element.
pub proof fn vector_body_len(s: Schema, r: RecordView, i: int)
    requires
        0 <= i < s.fields@.len(),
        !s.fields@[i].phantom,
        s.fields@[i].shape is Vector,
        field_encode(s, r, i) is Some,
    ensures
        match s.fields@[i].shape {
            Shape::Vector { len_field, unit, .. } => field_encode(s, r, i).unwrap().len() == crate::codec::to_elements(
                len_value(r, len_field as int),
                unit,
                s.fields@[i].ty.size as nat,
            ) * elem_width(s.fields@[i].ty),
            _ => true,
        },
{
    lemma_elems_encode_len(s.fields@[i].ty, r[i], count(s, r, i));
}

/// The bytes that field `i` takes whatever the record holds: those of a
/// non-phantom scalar or array; a vector may be empty.
pub open spec fn fixed_size(s: Schema, i: int) -> nat {
    let f = s.fields@[i];
    if f.phantom || f.shape is Vector {
        0
    } else {
        storage_len(f.shape) * elem_width(f.ty)
    }
}

/// The bytes that fields `lo..hi` take at the least.
pub open spec fn need(s: Schema, lo: nat, hi: nat) -> nat
    decreases hi,
{
    if hi <= lo {
        0
    } else {
        need(s, lo, (hi - 1) as nat) + fixed_size(s, hi - 1)
    }
}

/// The least number of bytes a record of this schema takes on the wire.
pub open spec fn min_size(s: Schema) -> nat {
    need(s, 0, s.fields@.len())
}

pub proof fn lemma_need_front(s: Schema, lo: nat, hi: nat)
    requires
        lo < hi,
    ensures
        need(s, lo, hi) == fixed_size(s, lo as int) + need(s, lo + 1, hi),
    decreases hi,
{
    if hi > lo + 1 {
        lemma_need_front(s, lo, (hi - 1) as nat);
        assert(need(s, lo, hi) == need(s, lo, (hi - 1) as nat) + fixed_size(s, hi - 1));
        assert(need(s, lo + 1, hi) == need(s, lo + 1, (hi - 1) as nat) + fixed_size(s, hi - 1));
    } else {
        assert(need(s, lo, lo) == 0);
        assert(need(s, lo + 1, hi) == 0);
        assert(need(s, lo, hi) == need(s, lo, lo) + fixed_size(s, lo as int));
    }
}

pub proof fn lemma_short_run(
    s: Schema,
    lo: nat,
    hi: nat,
    fwd: bool,
    read: Seq<bool>,
    k: nat,
    acc: RecordView,
    w: Window,
)
    requires
        s.wf(),
        forall|i: int| 0 <= i < s.fields@.len() ==> no_enums((#[trigger] s.fields@[i]).ty.atoms@),
        lo <= hi <= s.fields@.len(),
        read.len() == s.fields@.len(),
        plan_from(s.fields@, s.struct_len, lo, hi, fwd, read) is Ok,
        k <= s.plan@.len(),
        s.plan@.subrange(k as int, s.plan@.len() as int) == plan_from(
            s.fields@,
            s.struct_len,
            lo,
            hi,
            fwd,
            read,
        ).unwrap(),
        w.bytes.len() < need(s, lo, hi),
    ensures
        run(s, k, acc, w) == Err::<(RecordView, Window), crate::err::SerdeErr>(crate::err::SerdeErr::Eof),
    decreases (hi - lo) * 2 + 1, 0nat,
{
    let fields = s.fields@;
    let sl = s.struct_len;
    if lo < hi {
        let head = if fwd { lo as int } else { hi - 1 };
        let other = if fwd { hi - 1 } else { lo as int };
        if readable(fields, sl, read, lo, hi, head) {
            lemma_short_pop(s, lo, hi, fwd, read, k, acc, w);
        } else {
            let (st, f2) = steps_for(fields, sl, other, !fwd);
            let (lo2, hi2) = if !fwd { (lo + 1, hi) } else { (lo, (hi - 1) as nat) };
            let rest = plan_from(fields, sl, lo2, hi2, f2, read.update(other, true)).unwrap();
            let tl = s.plan@.subrange(k as int, s.plan@.len() as int);
            assert(tl == seq![Step::Reverse] + st + rest);
            assert(tl[0] == Step::Reverse);
            lemma_run_unfold(s, k, acc, w);
            let w1 = Window { forward: !w.forward, ..w };
            assert(s.plan@.subrange(k + 1 as int, s.plan@.len() as int) =~= st + rest) by {
                assert(s.plan@.subrange(k + 1 as int, s.plan@.len() as int) =~= tl.subrange(1, tl.len() as int));
            }
            lemma_short_pop(s, lo, hi, !fwd, read, k + 1, acc, w1);
        }
    }
}

pub proof fn lemma_short_pop(
    s: Schema,
    lo: nat,
    hi: nat,
    fwd: bool,
    read: Seq<bool>,
    k: nat,
    acc: RecordView,
    w: Window,
)
    requires
        s.wf(),
        forall|i: int| 0 <= i < s.fields@.len() ==> no_enums((#[trigger] s.fields@[i]).ty.atoms@),
        lo < hi <= s.fields@.len(),
        read.len() == s.fields@.len(),
        readable(s.fields@, s.struct_len, read, lo, hi, if fwd { lo as int } else { hi - 1 }),
        plan_from(
            s.fields@,
            s.struct_len,
            if fwd { lo + 1 } else { lo },
            if fwd { hi } else { (hi - 1) as nat },
            steps_for(s.fields@, s.struct_len, if fwd { lo as int } else { hi - 1 }, fwd).1,
            read.update(if fwd { lo as int } else { hi - 1 }, true),
        ) is Ok,
        k <= s.plan@.len(),
        s.plan@.subrange(k as int, s.plan@.len() as int) == steps_for(
            s.fields@,
            s.struct_len,
            if fwd { lo as int } else { hi - 1 },
            fwd,
        ).0 + plan_from(
            s.fields@,
            s.struct_len,
            if fwd { lo + 1 } else { lo },
            if fwd { hi } else { (hi - 1) as nat },
            steps_for(s.fields@, s.struct_len, if fwd { lo as int } else { hi - 1 }, fwd).1,
            read.update(if fwd { lo as int } else { hi - 1 }, true),
        ).unwrap(),
        w.bytes.len() < need(s, lo, hi),
    ensures
        run(s, k, acc, w) == Err::<(RecordView, Window), crate::err::SerdeErr>(crate::err::SerdeErr::Eof),
    decreases (hi - lo) * 2, 0nat,
{
    let fields = s.fields@;
    let sl = s.struct_len;
    let i = if fwd { lo as int } else { hi - 1 };
    let (st, f2) = steps_for(fields, sl, i, fwd);
    let (lo2, hi2) = if fwd { (lo + 1, hi) } else { (lo, (hi - 1) as nat) };
    let read2 = read.update(i, true);
    let rest = plan_from(fields, sl, lo2, hi2, f2, read2).unwrap();
    let tl = s.plan@.subrange(k as int, s.plan@.len() as int);
    assert(field_ok(fields, i));
    if fwd {
        lemma_need_front(s, lo, hi);
    }
    assert(need(s, lo, hi) == fixed_size(s, i) + need(s, lo2, hi2));
    if fields[i].phantom {
        assert(tl =~= rest);
        lemma_short_run(s, lo2, hi2, f2, read2, k, acc, w);
    } else if open_ended(fields, i) {
        assert(hi == lo + 1);
        assert(need(s, lo2, hi2) == 0);
        assert(false);
    } else {
        let t = fields[i].ty;
        let n = count(s, acc, i);
        let len = storage_len(fields[i].shape);
        assert(st[0] == Step::Read(i as usize));
        assert(st.len() >= 1);
        assert(tl.len() >= 1);
        assert(tl[0] == (st + rest)[0]);
        assert(tl[0] == s.plan@[k as int]);
        assert(s.plan@[k as int] == Step::Read(i as usize));
        lemma_run_unfold(s, k, acc, w);
        assert(no_enums(fields[i].ty.atoms@));
        lemma_read_elems_plain(t, n, w);
        if n > len || w.bytes.len() < n * elem_width(t) {
            assert(read_field(s, acc, i, w) == Err::<(Seq<Seq<u64>>, Window), crate::err::SerdeErr>(
                crate::err::SerdeErr::Eof,
            ));
        } else {
            let (f, w2) = read_field(s, acc, i, w).unwrap();
            let acc2 = acc.update(i, f);
            assert(w2.bytes.len() == w.bytes.len() - n * elem_width(t));
            if !(fields[i].shape is Vector) {
                assert(fixed_size(s, i) == n * elem_width(t));
            }
            assert(w2.bytes.len() < need(s, lo2, hi2));
            assert(run(s, k, acc, w) == run(s, k + 1, acc2, w2));
            if sl is Some && sl.unwrap().anchor == i {
                assert(st[1] == Step::Truncate);
                assert(tl[1] == Step::Truncate);
                assert(s.plan@[k + 1 as int] == Step::Truncate);
                lemma_run_unfold(s, k + 1, acc2, w2);
                match exec_step(s, Step::Truncate, acc2, w2) {
                    Err(e) => {},
                    Ok((acc3, w3)) => {
                        assert(w3.bytes.len() <= w2.bytes.len());
                        assert(s.plan@.subrange(k + 2 as int, s.plan@.len() as int) =~= rest) by {
                            assert(s.plan@.subrange(k + 2 as int, s.plan@.len() as int) =~= tl.subrange(2, tl.len() as int));
                        }
                        lemma_short_run(s, lo2, hi2, f2, read2, k + 2, acc3, w3);
                    },
                }
            } else {
                assert(s.plan@.subrange(k + 1 as int, s.plan@.len() as int) =~= rest) by {
                    assert(s.plan@.subrange(k + 1 as int, s.plan@.len() as int) =~= tl.subrange(1, tl.len() as int));
                }
                lemma_short_run(s, lo2, hi2, f2, read2, k + 1, acc2, w2);
            }
        }
    }
}

/// A buffer shorter than the bytes that a record's non-phantom scalars and
/// arrays take fails to decode with `Eof`, when no field holds an
/// enumeration (a discriminant that no variant has may be met first).
pub proof fn short_buffer_eof(s: Schema, b: Seq<u8>)
    requires
        s.wf(),
        forall|i: int| 0 <= i < s.fields@.len() ==> no_enums((#[trigger] s.fields@[i]).ty.atoms@),
        b.len() < min_size(s),
    ensures
        decode_spec(s, Window { bytes: b, forward: true, used: 0 }) == Err::<
            (RecordView, Window),
            crate::err::SerdeErr,
        >(crate::err::SerdeErr::Eof),
{
    let n = s.fields@.len();
    let read = Seq::new(n, |i: int| false);
    assert(s.plan@.subrange(0, s.plan@.len() as int) =~= s.plan@);
    assert(compile_spec(s.fields@, s.struct_len) == plan_from(s.fields@, s.struct_len, 0, n, true, read));
    lemma_short_run(s, 0, n, true, read, 0, zero_record(s), Window { bytes: b, forward: true, used: 0 });
}

} // verus!
