//! Big-endian integers as byte sequences.
use vstd::prelude::*;

verus! {

/// `256` raised to `n`.
pub open spec fn pow256(n: nat) -> nat
    decreases n,
{
    if n == 0 {
        1
    } else {
        256 * pow256((n - 1) as nat)
    }
}

/// The `w` low-order bytes of `v`, most significant first.
pub open spec fn be_bytes(v: nat, w: nat) -> Seq<u8>
    decreases w,
{
    if w == 0 {
        seq![]
    } else {
        be_bytes(v / 256, (w - 1) as nat).push((v % 256) as u8)
    }
}

/// The number that the bytes `s` spell, most significant first.
pub open spec fn be_value(s: Seq<u8>) -> nat
    decreases s.len(),
{
    if s.len() == 0 {
        0
    } else {
        be_value(s.drop_last()) * 256 + s.last() as nat
    }
}

pub proof fn lemma_pow256_pos(n: nat)
    ensures
        pow256(n) > 0,
    decreases n,
{
    if n > 0 {
        lemma_pow256_pos((n - 1) as nat);
    }
}

pub proof fn lemma_pow256_8()
    ensures
        pow256(8) == 0x1_0000_0000_0000_0000,
{
    reveal_with_fuel(pow256, 9);
}

pub proof fn lemma_pow256_mono(a: nat, b: nat)
    requires
        a <= b,
    ensures
        pow256(a) <= pow256(b),
    decreases b,
{
    if a < b {
        lemma_pow256_mono(a, (b - 1) as nat);
        lemma_pow256_pos((b - 1) as nat);
    }
}

pub proof fn lemma_be_bytes_len(v: nat, w: nat)
    ensures
        be_bytes(v, w).len() == w,
    decreases w,
{
    if w > 0 {
        lemma_be_bytes_len(v / 256, (w - 1) as nat);
    }
}

pub proof fn lemma_be_value_bound(s: Seq<u8>)
    ensures
        be_value(s) < pow256(s.len()),
    decreases s.len(),
{
    if s.len() > 0 {
        lemma_be_value_bound(s.drop_last());
        let p = pow256((s.len() - 1) as nat);
        let a = be_value(s.drop_last());
        assert(a * 256 + (s.last() as nat) < p * 256) by (nonlinear_arith)
            requires
                a < p,
                s.last() < 256,
        ;
    }
}

/// Reading back `w` written bytes gives the value modulo `256^w`.
pub proof fn lemma_be_round_trip(v: nat, w: nat)
    ensures
        be_value(be_bytes(v, w)) == v % pow256(w),
    decreases w,
{
    if w > 0 {
        let s = be_bytes(v, w);
        lemma_be_round_trip(v / 256, (w - 1) as nat);
        assert(s.drop_last() =~= be_bytes(v / 256, (w - 1) as nat));
        let p = pow256((w - 1) as nat);
        lemma_pow256_pos((w - 1) as nat);
        assert((v / 256) % p * 256 + v % 256 == v % (256 * p)) by (nonlinear_arith)
            requires
                p > 0,
        {
            vstd::arithmetic::div_mod::lemma_breakdown(v as int, 256, p as int);
        }
    }
}

/// A value below `256^w` survives the trip through `w` bytes.
pub proof fn lemma_be_round_trip_small(v: nat, w: nat)
    requires
        v < pow256(w),
    ensures
        be_value(be_bytes(v, w)) == v,
{
    lemma_be_round_trip(v, w);
    vstd::arithmetic::div_mod::lemma_small_mod(v, pow256(w));
}

/// The `w` bytes of `v`, most significant first.
pub fn be_encode(v: u64, w: usize) -> (r: Vec<u8>)
    ensures
        r@ == be_bytes(v as nat, w as nat),
    decreases w,
{
    if w == 0 {
        Vec::new()
    } else {
        let mut r = be_encode(v / 256, w - 1);
        r.push((v % 256) as u8);
        r
    }
}

/// The number that at most eight bytes spell, most significant first.
pub fn be_decode(s: &[u8]) -> (r: u64)
    requires
        s@.len() <= 8,
    ensures
        r as nat == be_value(s@),
{
    let mut acc: u64 = 0;
    let mut i: usize = 0;
    while i < s.len()
        invariant
            i <= s@.len() <= 8,
            acc as nat == be_value(s@.subrange(0, i as int)),
            acc < pow256(i as nat),
        decreases s@.len() - i,
    {
        proof {
            let t = s@.subrange(0, i as int + 1);
            assert(t.drop_last() =~= s@.subrange(0, i as int));
            lemma_pow256_mono(i as nat + 1, 8);
            lemma_pow256_8();
            let p = pow256(i as nat);
            assert(acc * 256 + s@[i as int] < p * 256) by (nonlinear_arith)
                requires
                    acc < p,
                    s@[i as int] < 256,
            ;
        }
        acc = acc * 256 + s[i] as u64;
        i = i + 1;
    }
    assert(s@.subrange(0, i as int) =~= s@);
    acc
}

} // verus!
