//! Facts about the wire form of atoms and elements that the laws rest on.
use vstd::prelude::*;

use crate::bytes::{be_bytes, be_value, lemma_be_bytes_len, lemma_be_round_trip, lemma_be_round_trip_small, pow256};
use crate::codec::{elems_encode, greedy, read_elems};
use crate::de::{take_spec, Window};
use crate::elem::{
    atom_encode, atom_parse, atom_value_ok, atom_width, elem_encode, elem_parse, elem_value_ok,
    elem_width, encode_atoms, parse_atoms, read_elem_spec, width_of, Atom, ElemTy, EnumSchema,
};

verus! {

/// Every enumeration among these atoms keeps its variants apart on the wire.
pub open spec fn enums_distinct(atoms: Seq<Atom>) -> bool {
    forall|k: int| 0 <= k < atoms.len() ==> (#[trigger] atoms[k] matches Atom::Enum(e) ==> e.distinct())
}

/// The lookup of a variant's wire value finds that variant.
pub proof fn lemma_lookup_finds(e: EnumSchema, v: nat, j: nat)
    requires
        e.distinct(),
        j <= v < e.discriminants@.len(),
    ensures
        e.lookup_from(e.wire(v as int), j) == Some(v),
    decreases v - j,
{
    if j < v {
        assert(e.wire(j as int) != e.wire(v as int));
        lemma_lookup_finds(e, v, j + 1);
    }
}

/// A lookup finds nothing for a value that no variant has.
pub proof fn lemma_lookup_misses(e: EnumSchema, x: nat, j: nat)
    requires
        forall|q: int| 0 <= q < e.discriminants@.len() ==> e.wire(q) != x,
    ensures
        e.lookup_from(x, j) is None,
    decreases e.discriminants@.len() - j,
{
    if j < e.discriminants@.len() {
        lemma_lookup_misses(e, x, j + 1);
    }
}

/// An atom's bytes are as wide as the atom.
pub proof fn lemma_atom_encode_len(a: Atom, v: u64)
    ensures
        atom_encode(a, v) matches Some(b) ==> b.len() == atom_width(a),
{
    match a {
        Atom::Bool => {},
        Atom::Int(t) => lemma_be_bytes_len(v as nat, t.spec_width()),
        Atom::Enum(e) => if v < e.discriminants@.len() {
            lemma_be_bytes_len(e.discriminants@[v as int] as nat, e.repr.spec_width());
        },
    }
}

/// A value of an atom survives its bytes.
pub proof fn lemma_atom_round_trip(a: Atom, v: u64)
    requires
        atom_value_ok(a, v),
        a matches Atom::Enum(e) ==> e.distinct(),
    ensures
        atom_encode(a, v) matches Some(b) && b.len() == atom_width(a) && atom_parse(a, b) == Ok::<
            u64,
            crate::err::SerdeErr,
        >(v),
{
    lemma_atom_encode_len(a, v);
    match a {
        Atom::Bool => {},
        Atom::Int(t) => {
            lemma_be_round_trip_small(v as nat, t.spec_width());
        },
        Atom::Enum(e) => {
            let w = e.repr.spec_width();
            lemma_be_round_trip(e.discriminants@[v as int] as nat, w);
            lemma_lookup_finds(e, v as nat, 0);
        },
    }
}

/// The bytes of the first `n` atoms are as wide as those atoms.
pub proof fn lemma_encode_atoms_len(atoms: Seq<Atom>, e: Seq<u64>, n: nat)
    ensures
        encode_atoms(atoms, e, n) matches Some(b) ==> b.len() == width_of(atoms, n),
    decreases n,
{
    if n > 0 && n <= atoms.len() {
        lemma_encode_atoms_len(atoms, e, (n - 1) as nat);
        lemma_atom_encode_len(atoms[n - 1], e[n - 1]);
    }
}

/// Parsing bytes that begin with the encoding of the first `n` atoms gives
/// back their values.
pub proof fn lemma_atoms_round_trip(atoms: Seq<Atom>, e: Seq<u64>, n: nat, x: Seq<u8>)
    requires
        n <= atoms.len(),
        e.len() == atoms.len(),
        forall|k: int| 0 <= k < n ==> atom_value_ok(#[trigger] atoms[k], e[k]),
        enums_distinct(atoms),
        encode_atoms(atoms, e, n) matches Some(b) && b.len() <= x.len() && x.subrange(0, b.len() as int)
            == b,
    ensures
        encode_atoms(atoms, e, n) is Some,
        parse_atoms(atoms, x, n) == Ok::<Seq<u64>, crate::err::SerdeErr>(e.subrange(0, n as int)),
    decreases n,
{
    if n > 0 {
        let b = encode_atoms(atoms, e, n).unwrap();
        let b1 = encode_atoms(atoms, e, (n - 1) as nat).unwrap();
        let a = atoms[n - 1];
        let c = atom_encode(a, e[n - 1]).unwrap();
        assert(b == b1 + c);
        assert(x.subrange(0, b1.len() as int) =~= b.subrange(0, b1.len() as int));
        assert(b.subrange(0, b1.len() as int) =~= b1);
        lemma_atoms_round_trip(atoms, e, (n - 1) as nat, x);
        lemma_encode_atoms_len(atoms, e, (n - 1) as nat);
        lemma_atom_round_trip(a, e[n - 1]);
        let off = width_of(atoms, (n - 1) as nat);
        assert(x.subrange(off as int, (off + atom_width(a)) as int) =~= c) by {
            assert(x.subrange(off as int, (off + atom_width(a)) as int) =~= b.subrange(off as int, (off + atom_width(a)) as int));
        }
        assert(e.subrange(0, n - 1).push(e[n - 1]) =~= e.subrange(0, n as int));
    } else {
        assert(e.subrange(0, 0) =~= Seq::<u64>::empty());
    }
}

/// An element's bytes are as wide as the element.
pub proof fn lemma_elem_encode_len(t: ElemTy, e: Seq<u64>)
    ensures
        elem_encode(t, e) matches Some(b) ==> b.len() == elem_width(t),
{
    lemma_encode_atoms_len(t.atoms@, e, t.atoms@.len());
}

/// A value of an element survives its bytes.
pub proof fn lemma_elem_round_trip(t: ElemTy, e: Seq<u64>)
    requires
        elem_value_ok(t, e),
        enums_distinct(t.atoms@),
    ensures
        elem_encode(t, e) matches Some(b) && b.len() == elem_width(t) && elem_parse(t, b) == Ok::<
            Seq<u64>,
            crate::err::SerdeErr,
        >(e),
{
    let n = t.atoms@.len();
    lemma_encode_atoms_some(t.atoms@, e, n);
    let b = elem_encode(t, e).unwrap();
    assert(b.subrange(0, b.len() as int) =~= b);
    lemma_atoms_round_trip(t.atoms@, e, n, b);
    lemma_elem_encode_len(t, e);
    assert(e.subrange(0, n as int) =~= e);
}

/// Values within range encode.
pub proof fn lemma_encode_atoms_some(atoms: Seq<Atom>, e: Seq<u64>, n: nat)
    requires
        n <= atoms.len(),
        forall|k: int| 0 <= k < n ==> atom_value_ok(#[trigger] atoms[k], e[k]),
    ensures
        encode_atoms(atoms, e, n) is Some,
    decreases n,
{
    if n > 0 {
        lemma_encode_atoms_some(atoms, e, (n - 1) as nat);
        assert(atom_value_ok(atoms[n - 1], e[n - 1]));
    }
}

/// Every atom is at least one byte wide, so the first `n` are at least `n`.
pub proof fn lemma_width_of_lower(atoms: Seq<Atom>, n: nat)
    requires
        n <= atoms.len(),
    ensures
        width_of(atoms, n) >= n,
    decreases n,
{
    if n > 0 {
        lemma_width_of_lower(atoms, (n - 1) as nat);
        let a = atoms[n - 1];
        assert(atom_width(a) >= 1) by {
            match a {
                Atom::Int(t) => {},
                Atom::Enum(e) => {},
                Atom::Bool => {},
            }
        }
    }
}

/// The bytes of `n` elements are `n` times as wide as one.
pub proof fn lemma_elems_encode_len(t: ElemTy, es: Seq<Seq<u64>>, n: nat)
    ensures
        elems_encode(t, es, n) matches Some(b) ==> b.len() == n * elem_width(t),
    decreases n,
{
    if n > 0 {
        lemma_elems_encode_len(t, es, (n - 1) as nat);
        lemma_elem_encode_len(t, es[n - 1]);
        let m = (n - 1) as nat;
        let w = elem_width(t);
        assert(m * w + w == (m + 1) * w) by (nonlinear_arith);
        assert(m + 1 == n);
    } else {
        assert(0 * elem_width(t) == 0);
    }
}

/// Reading forward from bytes that begin with an element gives it back.
pub proof fn lemma_read_elem_front(t: ElemTy, e: Seq<u64>, rest: Seq<u8>, w: Window)
    requires
        elem_value_ok(t, e),
        enums_distinct(t.atoms@),
        w.forward,
        w.bytes == elem_encode(t, e).unwrap() + rest,
    ensures
        read_elem_spec(t, w) == (
            Ok::<Seq<u64>, crate::err::SerdeErr>(e),
            Window { bytes: rest, used: w.used + elem_width(t), ..w },
        ),
{
    lemma_elem_round_trip(t, e);
    let b = elem_encode(t, e).unwrap();
    assert(w.bytes.subrange(0, b.len() as int) =~= b);
    assert(w.bytes.subrange(b.len() as int, w.bytes.len() as int) =~= rest);
}

/// Reading in reverse from bytes that end with an element gives it back.
pub proof fn lemma_read_elem_back(t: ElemTy, e: Seq<u64>, pre: Seq<u8>, w: Window)
    requires
        elem_value_ok(t, e),
        enums_distinct(t.atoms@),
        !w.forward,
        w.bytes == pre + elem_encode(t, e).unwrap(),
    ensures
        read_elem_spec(t, w) == (
            Ok::<Seq<u64>, crate::err::SerdeErr>(e),
            Window { bytes: pre, used: w.used + elem_width(t), ..w },
        ),
{
    lemma_elem_round_trip(t, e);
    let b = elem_encode(t, e).unwrap();
    assert(w.bytes.subrange(pre.len() as int, w.bytes.len() as int) =~= b);
    assert(w.bytes.subrange(0, pre.len() as int) =~= pre);
}

/// A prefix of encodable elements is encodable.
pub proof fn lemma_elems_encode_prefix(t: ElemTy, es: Seq<Seq<u64>>, m: nat, n: nat)
    requires
        m <= n,
        elems_encode(t, es, n) is Some,
    ensures
        elems_encode(t, es, m) is Some,
    decreases n,
{
    if m < n {
        lemma_elems_encode_prefix(t, es, m, (n - 1) as nat);
    }
}

/// The bytes of `n` elements are the first element's, then the rest's.
pub proof fn lemma_elems_cons(t: ElemTy, es: Seq<Seq<u64>>, n: nat)
    requires
        1 <= n <= es.len(),
        elems_encode(t, es, n) is Some,
    ensures
        elems_encode(t, es.subrange(1, es.len() as int), (n - 1) as nat) is Some,
        elem_encode(t, es[0]) is Some,
        elems_encode(t, es, n).unwrap() == elem_encode(t, es[0]).unwrap() + elems_encode(
            t,
            es.subrange(1, es.len() as int),
            (n - 1) as nat,
        ).unwrap(),
    decreases n,
{
    let tail = es.subrange(1, es.len() as int);
    if n == 1 {
        assert(elems_encode(t, es, 1).unwrap() =~= elem_encode(t, es[0]).unwrap());
        assert(elem_encode(t, es[0]).unwrap() + Seq::<u8>::empty() =~= elem_encode(t, es[0]).unwrap());
    } else {
        lemma_elems_cons(t, es, (n - 1) as nat);
        assert(tail[n - 2] == es[n - 1]);
        assert(elems_encode(t, es, n).unwrap() =~= elem_encode(t, es[0]).unwrap() + elems_encode(
            t,
            tail,
            (n - 1) as nat,
        ).unwrap());
    }
}

/// Reading `n` elements forward from bytes that begin with their encoding
/// gives them back in order.
pub proof fn lemma_read_elems_front(t: ElemTy, es: Seq<Seq<u64>>, n: nat, rest: Seq<u8>, w: Window)
    requires
        n <= es.len(),
        forall|q: int| 0 <= q < n ==> elem_value_ok(t, #[trigger] es[q]),
        enums_distinct(t.atoms@),
        w.forward,
        elems_encode(t, es, n) is Some,
        w.bytes == elems_encode(t, es, n).unwrap() + rest,
    ensures
        read_elems(t, n, w) == Ok::<(Seq<Seq<u64>>, Window), crate::err::SerdeErr>(
            (es.subrange(0, n as int), Window { bytes: rest, used: w.used + n * elem_width(t), ..w }),
        ),
    decreases n,
{
    if n > 0 {
        let m = (n - 1) as nat;
        let b1 = elems_encode(t, es, m).unwrap();
        let c = elem_encode(t, es[m as int]).unwrap();
        assert(w.bytes =~= b1 + (c + rest));
        lemma_read_elems_front(t, es, m, c + rest, w);
        let w1 = Window { bytes: c + rest, used: w.used + m * elem_width(t), ..w };
        lemma_read_elem_front(t, es[m as int], rest, w1);
        assert(es.subrange(0, m as int).push(es[m as int]) =~= es.subrange(0, n as int));
        let ew = elem_width(t);
        assert(m * ew + ew == n * ew) by (nonlinear_arith)
            requires
                n == m + 1,
        ;
    } else {
        assert(es.subrange(0, 0) =~= Seq::<Seq<u64>>::empty());
        assert(Seq::<u8>::empty() + rest =~= rest);
        assert(0 * elem_width(t) == 0);
    }
}

/// Reading `m` elements in reverse from bytes that end with the encoding of
/// `n` elements gives the last `m`, last first.
pub proof fn lemma_read_elems_back(t: ElemTy, es: Seq<Seq<u64>>, n: nat, m: nat, pre: Seq<u8>, w: Window)
    requires
        m <= n <= es.len(),
        forall|q: int| 0 <= q < n ==> elem_value_ok(t, #[trigger] es[q]),
        enums_distinct(t.atoms@),
        !w.forward,
        elems_encode(t, es, n) is Some,
        w.bytes == pre + elems_encode(t, es, n).unwrap(),
    ensures
        elems_encode(t, es, (n - m) as nat) is Some,
        read_elems(t, m, w) == Ok::<(Seq<Seq<u64>>, Window), crate::err::SerdeErr>(
            (
                Seq::new(m, |q: int| es[n - 1 - q]),
                Window {
                    bytes: pre + elems_encode(t, es, (n - m) as nat).unwrap(),
                    used: w.used + m * elem_width(t),
                    ..w
                },
            ),
        ),
    decreases m,
{
    lemma_elems_encode_prefix(t, es, (n - m) as nat, n);
    if m > 0 {
        let k = (n - m) as nat;
        lemma_read_elems_back(t, es, n, (m - 1) as nat, pre, w);
        let b = elems_encode(t, es, k).unwrap();
        let c = elem_encode(t, es[k as int]).unwrap();
        assert(elems_encode(t, es, k + 1).unwrap() == b + c);
        let w1 = Window {
            bytes: pre + elems_encode(t, es, k + 1).unwrap(),
            used: w.used + (m - 1) as nat * elem_width(t),
            ..w
        };
        assert(w1.bytes =~= (pre + b) + c);
        lemma_read_elem_back(t, es[k as int], pre + b, w1);
        assert(Seq::new((m - 1) as nat, |q: int| es[n - 1 - q]).push(es[k as int]) =~= Seq::new(
            m,
            |q: int| es[n - 1 - q],
        ));
        let ew = elem_width(t);
        let m1 = (m - 1) as nat;
        assert(m1 * ew + ew == m * ew) by (nonlinear_arith)
            requires
                m == m1 + 1,
        ;
    } else {
        assert(Seq::new(0, |q: int| es[n - 1 - q]) =~= Seq::<Seq<u64>>::empty());
        assert(0 * elem_width(t) == 0);
    }
}

/// Reading elements for as long as they parse, from bytes that hold exactly
/// `n` of them, gives those `n` and empties the window.
pub proof fn lemma_greedy(t: ElemTy, es: Seq<Seq<u64>>, n: nat, budget: nat, w: Window)
    requires
        n <= budget,
        n <= es.len(),
        t.atoms@.len() > 0,
        forall|q: int| 0 <= q < n ==> elem_value_ok(t, #[trigger] es[q]),
        enums_distinct(t.atoms@),
        w.forward,
        elems_encode(t, es, n) is Some,
        w.bytes == elems_encode(t, es, n).unwrap(),
    ensures
        greedy(t, budget, w) == (
            es.subrange(0, n as int),
            Window { bytes: Seq::<u8>::empty(), used: w.used + n * elem_width(t), ..w },
        ),
    decreases budget,
{
    lemma_width_of_lower(t.atoms@, t.atoms@.len());
    if n == 0 {
        assert(es.subrange(0, 0) =~= Seq::<Seq<u64>>::empty());
        assert(w.bytes =~= Seq::<u8>::empty());
        assert(0 * elem_width(t) == 0);
        assert(w == Window { bytes: Seq::<u8>::empty(), used: w.used + n * elem_width(t), ..w });
    } else {
        let tail = es.subrange(1, es.len() as int);
        lemma_elems_cons(t, es, n);
        let rest = elems_encode(t, tail, (n - 1) as nat).unwrap();
        assert(elem_value_ok(t, es[0]));
        lemma_read_elem_front(t, es[0], rest, w);
        let w2 = Window { bytes: rest, used: w.used + elem_width(t), ..w };
        assert forall|q: int| 0 <= q < n - 1 implies elem_value_ok(t, #[trigger] tail[q]) by {
            assert(tail[q] == es[q + 1]);
        }
        lemma_greedy(t, tail, (n - 1) as nat, (budget - 1) as nat, w2);
        assert(seq![es[0]] + tail.subrange(0, n - 1) =~= es.subrange(0, n as int));
        let ew = elem_width(t);
        let m1 = (n - 1) as nat;
        assert(ew + m1 * ew == n * ew) by (nonlinear_arith)
            requires
                n == m1 + 1,
        ;
    }
}

/// No atom is an enumeration, so every block of the right width parses.
pub open spec fn no_enums(atoms: Seq<Atom>) -> bool {
    forall|k: int| 0 <= k < atoms.len() ==> !(#[trigger] atoms[k] is Enum)
}

pub proof fn lemma_parse_atoms_ok(atoms: Seq<Atom>, b: Seq<u8>, n: nat)
    requires
        no_enums(atoms),
    ensures
        parse_atoms(atoms, b, n) is Ok,
    decreases n,
{
    if n > 0 && n <= atoms.len() {
        lemma_parse_atoms_ok(atoms, b, (n - 1) as nat);
        assert(!(atoms[n - 1] is Enum));
    }
}

/// Without enumerations, reading `n` elements fails only for want of bytes,
/// with `Eof`, and otherwise consumes exactly their width.
pub proof fn lemma_read_elems_plain(t: ElemTy, n: nat, w: Window)
    requires
        no_enums(t.atoms@),
    ensures
        w.bytes.len() >= n * elem_width(t) ==> (read_elems(t, n, w) matches Ok((_, w2)) && w2.bytes.len()
            == w.bytes.len() - n * elem_width(t)),
        w.bytes.len() < n * elem_width(t) ==> read_elems(t, n, w) == Err::<
            (Seq<Seq<u64>>, Window),
            crate::err::SerdeErr,
        >(crate::err::SerdeErr::Eof),
    decreases n,
{
    let ew = elem_width(t);
    if n > 0 {
        let m = (n - 1) as nat;
        lemma_read_elems_plain(t, m, w);
        assert(m * ew + ew == n * ew) by (nonlinear_arith)
            requires
                n == m + 1,
        ;
        if w.bytes.len() >= m * ew {
            let w1 = read_elems(t, m, w).unwrap().1;
            match take_spec(w1, ew) {
                Ok((b, w2)) => {
                    lemma_parse_atoms_ok(t.atoms@, b, t.atoms@.len());
                },
                Err(_) => {},
            }
        }
    } else {
        assert(0 * ew == 0);
    }
}

} // verus!
