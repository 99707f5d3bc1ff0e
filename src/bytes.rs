//! Little-endian encoding of unsigned integers, specified over `nat`.
use vstd::arithmetic::div_mod::lemma_mod_breakdown;
use vstd::prelude::*;

verus! {

/// `256^n`.
pub open spec fn pow256(n: nat) -> nat
    decreases n,
{
    if n == 0 {
        1
    } else {
        256 * pow256((n - 1) as nat)
    }
}

/// The `n` least significant bytes of `u`, least significant first.
pub open spec fn le_bytes(u: nat, n: nat) -> Seq<u8>
    decreases n,
{
    if n == 0 {
        seq![]
    } else {
        seq![(u % 256) as u8] + le_bytes(u / 256, (n - 1) as nat)
    }
}

/// The number whose little-endian bytes are `s`.
pub open spec fn le_value(s: Seq<u8>) -> nat
    decreases s.len(),
{
    if s.len() == 0 {
        0
    } else {
        s[0] as nat + 256 * le_value(s.drop_first())
    }
}

pub proof fn lemma_pow256_values()
    ensures
        pow256(1) == 0x100,
        pow256(2) == 0x1_0000,
        pow256(4) == 0x1_0000_0000,
        pow256(6) == 0x1_0000_0000_0000,
        pow256(8) == 0x1_0000_0000_0000_0000,
        pow256(16) == 0x1_0000_0000_0000_0000_0000_0000_0000_0000,
{
    reveal_with_fuel(pow256, 17);
}

pub proof fn lemma_pow256_pos(n: nat)
    ensures
        pow256(n) >= 1,
    decreases n,
{
    if n > 0 {
        lemma_pow256_pos((n - 1) as nat);
    }
}

pub proof fn lemma_le_bytes_len(u: nat, n: nat)
    ensures
        le_bytes(u, n).len() == n,
    decreases n,
{
    if n > 0 {
        lemma_le_bytes_len(u / 256, (n - 1) as nat);
    }
}

/// Decoding the `n` low bytes of `u` gives `u` modulo `256^n`.
pub proof fn lemma_le_round_trip(u: nat, n: nat)
    ensures
        le_value(le_bytes(u, n)) == u % pow256(n),
    decreases n,
{
    if n > 0 {
        let rest = le_bytes(u / 256, (n - 1) as nat);
        lemma_le_round_trip(u / 256, (n - 1) as nat);
        assert((seq![(u % 256) as u8] + rest).drop_first() =~= rest);
        lemma_pow256_pos((n - 1) as nat);
        lemma_mod_breakdown(u as int, 256, pow256((n - 1) as nat) as int);
    } else {
        assert(u % 1 == 0);
    }
}

pub proof fn lemma_le_value_bound(s: Seq<u8>)
    ensures
        le_value(s) < pow256(s.len()),
    decreases s.len(),
{
    if s.len() > 0 {
        lemma_le_value_bound(s.drop_first());
        let a = s[0] as nat;
        let v = le_value(s.drop_first());
        let p = pow256((s.len() - 1) as nat);
        assert(a + 256 * v < 256 * p) by (nonlinear_arith)
            requires
                a < 256,
                v < p,
        ;
    }
}

/// Appends the `n` low bytes of `u` to `out`, least significant first.
pub fn push_le(out: &mut Vec<u8>, u: u128, n: usize)
    ensures
        final(out)@ == old(out)@ + le_bytes(u as nat, n as nat),
{
    let mut v: u128 = u;
    let mut i: usize = 0;
    while i < n
        invariant
            i <= n,
            out@ + le_bytes(v as nat, (n - i) as nat) == old(out)@ + le_bytes(u as nat, n as nat),
        decreases n - i,
    {
        let b: u8 = (v % 256) as u8;
        let ghost before = out@;
        out.push(b);
        assert(le_bytes(v as nat, (n - i) as nat) == seq![b] + le_bytes((v / 256) as nat, (n - i - 1) as nat));
        assert(out@ + le_bytes((v / 256) as nat, (n - i - 1) as nat) =~= before + le_bytes(v as nat, (n - i) as nat));
        v = v / 256;
        i = i + 1;
    }
    assert(le_bytes(v as nat, 0) =~= seq![]);
    assert(out@ + seq![] =~= out@);
}

/// Reads the number stored little-endian in `data[start..start + n]`.
pub fn read_le(data: &[u8], start: usize, n: usize) -> (r: u128)
    requires
        n <= 16,
        start + n <= data@.len(),
    ensures
        r as nat == le_value(data@.subrange(start as int, start + n)),
{
    let len: usize = data.len();
    let mut acc: u128 = 0;
    let mut k: usize = n;
    proof {
        lemma_pow256_values();
    }
    while k > 0
        invariant
            k <= n <= 16,
            start + n <= data@.len(),
            len == data@.len(),
            acc as nat == le_value(data@.subrange(start + k, start + n)),
            pow256(16) == 0x1_0000_0000_0000_0000_0000_0000_0000_0000,
        decreases k,
    {
        let ghost tail = data@.subrange(start + k, start + n);
        let ghost s = data@.subrange(start + k - 1, start + n);
        assert(s.drop_first() =~= tail);
        proof {
            lemma_le_value_bound(s);
            lemma_pow256_monotone(s.len(), 16);
        }
        let b: u8 = data[start + (k - 1)];
        acc = b as u128 + 256 * acc;
        k = k - 1;
    }
    acc
}

pub proof fn lemma_pow256_monotone(a: nat, b: nat)
    requires
        a <= b,
    ensures
        pow256(a) <= pow256(b),
    decreases b,
{
    if a < b {
        lemma_pow256_monotone(a, (b - 1) as nat);
        lemma_pow256_pos((b - 1) as nat);
    }
}

} // verus!
