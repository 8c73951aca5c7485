//! Little-endian integer encoding.
use vstd::prelude::*;

verus! {

/// `256^k`.
pub open spec fn pow256(k: nat) -> nat
    decreases k,
{
    if k == 0 {
        1
    } else {
        256 * pow256((k - 1) as nat)
    }
}

/// The `k` least significant bytes of `n`, least significant first.
pub open spec fn le_bytes(n: nat, k: nat) -> Seq<u8>
    decreases k,
{
    if k == 0 {
        Seq::empty()
    } else {
        seq![(n % 256) as u8] + le_bytes(n / 256, (k - 1) as nat)
    }
}

/// The number whose little-endian bytes are `s`.
pub open spec fn le_value(s: Seq<u8>) -> nat
    decreases s.len(),
{
    if s.len() == 0 {
        0
    } else {
        s[0] as nat + 256 * le_value(s.drop_first())
    }
}

pub proof fn lemma_le_bytes_len(n: nat, k: nat)
    ensures
        le_bytes(n, k).len() == k,
    decreases k,
{
    if k > 0 {
        lemma_le_bytes_len(n / 256, (k - 1) as nat);
    }
}

pub proof fn lemma_le_value_bound(s: Seq<u8>)
    ensures
        le_value(s) < pow256(s.len()),
    decreases s.len(),
{
    if s.len() > 0 {
        lemma_le_value_bound(s.drop_first());
        let r = le_value(s.drop_first());
        let p = pow256(s.drop_first().len());
        assert(s[0] as nat + 256 * r < 256 * p) by (nonlinear_arith)
            requires
                r < p,
                s[0] < 256,
        ;
    }
}

/// Encoding a number that fits in `k` bytes and reading it back gives the
/// number.
pub proof fn lemma_le_roundtrip(n: nat, k: nat)
    requires
        n < pow256(k),
    ensures
        le_value(le_bytes(n, k)) == n,
        le_bytes(n, k).len() == k,
    decreases k,
{
    lemma_le_bytes_len(n, k);
    if k > 0 {
        let p = pow256((k - 1) as nat);
        assert(n / 256 < p) by (nonlinear_arith)
            requires
                n < 256 * p,
        ;
        lemma_le_roundtrip(n / 256, (k - 1) as nat);
        let s = le_bytes(n, k);
        assert(s.drop_first() =~= le_bytes(n / 256, (k - 1) as nat));
        assert(n == n % 256 + 256 * (n / 256)) by (nonlinear_arith);
    }
}

pub proof fn lemma_pow256_values()
    ensures
        pow256(2) == 0x1_0000,
        pow256(4) == 0x1_0000_0000,
        pow256(8) == 0x1_0000_0000_0000_0000,
{
    reveal_with_fuel(pow256, 9);
}

/// Appends the `k` low bytes of `n` to `out`, least significant first.
pub fn push_le(out: &mut Vec<u8>, n: u64, k: usize)
    requires
        k <= 8,
    ensures
        final(out)@ == old(out)@ + le_bytes(n as nat, k as nat),
{
    let mut cur: u64 = n;
    let mut i: usize = 0;
    while i < k
        invariant
            i <= k,
            out@ + le_bytes(cur as nat, (k - i) as nat) == old(out)@ + le_bytes(n as nat, k as nat),
        decreases k - i,
    {
        let ghost before = out@;
        let ghost x = (cur as nat % 256) as u8;
        let ghost rest = le_bytes(cur as nat / 256, (k - i - 1) as nat);
        assert(le_bytes(cur as nat, (k - i) as nat) == seq![x] + rest);
        out.push((cur % 256) as u8);
        cur = cur / 256;
        i += 1;
        assert(out@ + rest =~= before + (seq![x] + rest));
    }
}

/// The number whose little-endian bytes are `bytes[off .. off + k]`.
pub fn read_le(bytes: &[u8], off: usize, k: usize) -> (r: u64)
    requires
        k <= 8,
        off + k <= bytes.len(),
    ensures
        r as nat == le_value(bytes@.subrange(off as int, off + k)),
{
    let mut acc: u64 = 0;
    let mut j: usize = k;
    proof {
        lemma_pow256_values();
    }
    while j > 0
        invariant
            j <= k,
            k <= 8,
            off + k <= bytes.len(),
            acc as nat == le_value(bytes@.subrange(off + j, off + k)),
            pow256(8) == 0x1_0000_0000_0000_0000,
        decreases j,
    {
        let ghost tail = bytes@.subrange(off + j, off + k);
        proof {
            lemma_le_value_bound(tail);
            lemma_pow_mono((k - j) as nat, 7);
        }
        let b = bytes[off + (j - 1)];
        let ghost s = bytes@.subrange(off + j - 1, off + k);
        assert(s.drop_first() =~= tail);
        assert(s[0] == b);
        assert(acc * 256 + b < 0x1_0000_0000_0000_0000) by (nonlinear_arith)
            requires
                acc < pow256((k - j) as nat),
                pow256((k - j) as nat) <= pow256(7),
                pow256(7) * 256 == 0x1_0000_0000_0000_0000,
                b < 256,
        {
        }
        acc = acc * 256 + b as u64;
        j -= 1;
    }
    acc
}

pub proof fn lemma_pow_mono(a: nat, b: nat)
    requires
        a <= b,
    ensures
        pow256(a) <= pow256(b),
        pow256(7) * 256 == 0x1_0000_0000_0000_0000,
    decreases b,
{
    reveal_with_fuel(pow256, 9);
    if a < b {
        lemma_pow_mono(a, (b - 1) as nat);
    }
}

} // verus!
