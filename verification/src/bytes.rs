//! Little-endian integer fields of the container format: serialization,
//! parsing, and the round trip between them.
use vstd::prelude::*;

verus! {

/// The value of a little-endian byte string.
pub open spec fn le_val(s: Seq<u8>) -> int
    decreases s.len(),
{
    if s.len() == 0 {
        0
    } else {
        s[0] + 256 * le_val(s.subrange(1, s.len() as int))
    }
}

/// The `n`-byte little-endian encoding of a value.
pub open spec fn le_bytes(v: int, n: nat) -> Seq<u8>
    decreases n,
{
    if n == 0 {
        Seq::empty()
    } else {
        seq![(v % 256) as u8] + le_bytes(v / 256, (n - 1) as nat)
    }
}

/// `256^n`, the number of values an `n`-byte field can hold.
pub open spec fn pow256(n: nat) -> int
    decreases n,
{
    if n == 0 {
        1
    } else {
        256 * pow256((n - 1) as nat)
    }
}

/// The little-endian encoding has the requested length and decodes back
/// to the value it was built from.
pub proof fn lemma_le_round_trip(v: int, n: nat)
    requires
        0 <= v < pow256(n),
    ensures
        le_bytes(v, n).len() == n,
        le_val(le_bytes(v, n)) == v,
    decreases n,
{
    if n > 0 {
        vstd::arithmetic::div_mod::lemma_fundamental_div_mod(v, 256);
        vstd::arithmetic::div_mod::lemma_mod_bound(v, 256);
        assert(v / 256 < pow256((n - 1) as nat)) by {
            if v / 256 >= pow256((n - 1) as nat) {
                vstd::arithmetic::mul::lemma_mul_inequality(pow256((n - 1) as nat), v / 256, 256);
                vstd::arithmetic::mul::lemma_mul_is_commutative(pow256((n - 1) as nat), 256);
                vstd::arithmetic::mul::lemma_mul_is_commutative(v / 256, 256);
            }
        }
        vstd::arithmetic::div_mod::lemma_div_basics_4(v, 256);
        lemma_le_round_trip(v / 256, (n - 1) as nat);
        let s = le_bytes(v, n);
        assert(s.subrange(1, s.len() as int) =~= le_bytes(v / 256, (n - 1) as nat));
    }
}

/// A little-endian value is non-negative and below `256^len`.
pub proof fn lemma_le_val_nonneg(s: Seq<u8>)
    ensures
        0 <= le_val(s) < pow256(s.len()),
    decreases s.len(),
{
    if s.len() > 0 {
        lemma_le_val_nonneg(s.subrange(1, s.len() as int));
        let t = le_val(s.subrange(1, s.len() as int));
        assert(256 * t <= 256 * (pow256((s.len() - 1) as nat) - 1)) by {
            vstd::arithmetic::mul::lemma_mul_inequality(t, pow256((s.len() - 1) as nat) - 1, 256);
            vstd::arithmetic::mul::lemma_mul_is_commutative(t, 256);
            vstd::arithmetic::mul::lemma_mul_is_commutative(pow256((s.len() - 1) as nat) - 1, 256);
        }
        assert(256 * (pow256((s.len() - 1) as nat) - 1) == 256 * pow256((s.len() - 1) as nat)
            - 256) by {
            vstd::arithmetic::mul::lemma_mul_is_distributive_sub(
                256,
                pow256((s.len() - 1) as nat),
                1,
            );
        }
        assert(0 <= 256 * t) by {
            vstd::arithmetic::mul::lemma_mul_nonnegative(256, t);
        }
    }
}

/// Append the eight little-endian bytes of a 64-bit value.
pub fn push_u64(out: &mut Vec<u8>, v: u64)
    ensures
        final(out)@ == old(out)@ + le_bytes(v as int, 8),
{
    let mut x = v;
    let ghost base = out@;
    proof {
        lemma_le_bytes_len(v as int, 8);
        assert(out@ =~= base + le_bytes(v as int, 8).subrange(0, 0));
    }
    let mut k: usize = 0;
    while k < 8
        invariant
            k <= 8,
            out@.len() == base.len() + k,
            x as int == le_rest(v as int, k as nat),
            out@ == base + le_bytes(v as int, 8).subrange(0, k as int),
            le_bytes(v as int, 8).len() == 8,
        decreases 8 - k,
    {
        proof {
            lemma_le_bytes_len(v as int, 8);
            lemma_le_bytes_step(v as int, 8, k as nat);
        }
        out.push((x % 256) as u8);
        x = x / 256;
        k = k + 1;
        proof {
            assert(out@ =~= base + le_bytes(v as int, 8).subrange(0, k as int));
        }
    }
    proof {
        assert(le_bytes(v as int, 8).subrange(0, 8) =~= le_bytes(v as int, 8));
    }
}

/// What remains of a value after stripping `k` low bytes.
pub open spec fn le_rest(v: int, k: nat) -> int
    decreases k,
{
    if k == 0 {
        v
    } else {
        le_rest(v, (k - 1) as nat) / 256
    }
}

/// The encoding has the requested length.
pub proof fn lemma_le_bytes_len(v: int, n: nat)
    ensures
        le_bytes(v, n).len() == n,
    decreases n,
{
    if n > 0 {
        lemma_le_bytes_len(v / 256, (n - 1) as nat);
    }
}

/// Byte `k` of the encoding is the low byte of the `k`-times-stripped
/// value.
pub proof fn lemma_le_bytes_step(v: int, n: nat, k: nat)
    requires
        k < n,
    ensures
        le_bytes(v, n)[k as int] == (le_rest(v, k) % 256) as u8,
    decreases k,
{
    lemma_le_bytes_len(v, n);
    lemma_le_bytes_len(v / 256, (n - 1) as nat);
    if k == 0 {
    } else {
        lemma_le_bytes_step(v / 256, (n - 1) as nat, (k - 1) as nat);
        lemma_le_rest_shift(v, k);
    }
}

/// Stripping bytes commutes with dividing first.
proof fn lemma_le_rest_shift(v: int, k: nat)
    requires
        k >= 1,
    ensures
        le_rest(v, k) == le_rest(v / 256, (k - 1) as nat),
    decreases k,
{
    if k == 1 {
        assert(le_rest(v, 1) == le_rest(v, 0) / 256);
    } else {
        lemma_le_rest_shift(v, (k - 1) as nat);
        assert(le_rest(v, k) == le_rest(v, (k - 1) as nat) / 256);
        assert(le_rest(v / 256, (k - 1) as nat) == le_rest(v / 256, (k - 2) as nat) / 256);
    }
}

/// Read an eight-byte little-endian value.
pub fn read_u64(bytes: &Vec<u8>, pos: usize) -> (r: Option<(u64, usize)>)
    ensures
        pos + 8 <= bytes@.len() ==> (r matches Some(p) && p.0 as int == le_val(
            bytes@.subrange(pos as int, pos as int + 8),
        ) && p.1 == pos + 8),
        pos + 8 > bytes@.len() ==> r is None,
{
    if pos > bytes.len() || bytes.len() - pos < 8 {
        return None;
    }
    let b0 = bytes[pos] as u64;
    let b1 = bytes[pos + 1] as u64;
    let b2 = bytes[pos + 2] as u64;
    let b3 = bytes[pos + 3] as u64;
    let b4 = bytes[pos + 4] as u64;
    let b5 = bytes[pos + 5] as u64;
    let b6 = bytes[pos + 6] as u64;
    let b7 = bytes[pos + 7] as u64;
    let w = b0 + 256 * (b1 + 256 * (b2 + 256 * (b3 + 256 * (b4 + 256 * (b5 + 256 * (b6 + 256
        * b7))))));
    proof {
        lemma_le_val_8(bytes@, pos as int);
    }
    Some((w, pos + 8))
}

/// Append the four little-endian bytes of a 32-bit value.
pub fn push_u32(out: &mut Vec<u8>, v: u32)
    ensures
        final(out)@ == old(out)@ + le_bytes(v as int, 4),
{
    let mut x = v;
    let ghost base = out@;
    proof {
        lemma_le_bytes_len(v as int, 4);
        assert(out@ =~= base + le_bytes(v as int, 4).subrange(0, 0));
    }
    let mut k: usize = 0;
    while k < 4
        invariant
            k <= 4,
            out@.len() == base.len() + k,
            x as int == le_rest(v as int, k as nat),
            out@ == base + le_bytes(v as int, 4).subrange(0, k as int),
            le_bytes(v as int, 4).len() == 4,
        decreases 4 - k,
    {
        proof {
            lemma_le_bytes_len(v as int, 4);
            lemma_le_bytes_step(v as int, 4, k as nat);
        }
        out.push((x % 256) as u8);
        x = x / 256;
        k = k + 1;
        proof {
            assert(out@ =~= base + le_bytes(v as int, 4).subrange(0, k as int));
        }
    }
    proof {
        assert(le_bytes(v as int, 4).subrange(0, 4) =~= le_bytes(v as int, 4));
    }
}

/// Read a four-byte little-endian value.
pub fn read_u32(bytes: &Vec<u8>, pos: usize) -> (r: Option<(u32, usize)>)
    ensures
        pos + 4 <= bytes@.len() ==> (r matches Some(p) && p.0 as int == le_val(
            bytes@.subrange(pos as int, pos as int + 4),
        ) && p.1 == pos + 4),
        pos + 4 > bytes@.len() ==> r is None,
{
    if pos > bytes.len() || bytes.len() - pos < 4 {
        return None;
    }
    let b0 = bytes[pos] as u32;
    let b1 = bytes[pos + 1] as u32;
    let b2 = bytes[pos + 2] as u32;
    let b3 = bytes[pos + 3] as u32;
    let w = b0 + 256 * (b1 + 256 * (b2 + 256 * b3));
    proof {
        lemma_le_val_tail(bytes@, pos as int, pos as int + 4);
        lemma_le_val_tail(bytes@, pos as int + 1, pos as int + 4);
        lemma_le_val_tail(bytes@, pos as int + 2, pos as int + 4);
        lemma_le_val_tail(bytes@, pos as int + 3, pos as int + 4);
        assert(bytes@.subrange(pos as int + 4, pos as int + 4) =~= Seq::<u8>::empty());
        assert(le_val(bytes@.subrange(pos as int + 4, pos as int + 4)) == 0);
    }
    Some((w, pos + 4))
}

/// Read one byte.
pub fn read_u8(bytes: &Vec<u8>, pos: usize) -> (r: Option<(u8, usize)>)
    ensures
        pos + 1 <= bytes@.len() ==> (r matches Some(p) && p.0 == bytes@[pos as int] && p.1 == pos
            + 1),
        pos + 1 > bytes@.len() ==> r is None,
{
    if pos >= bytes.len() {
        return None;
    }
    Some((bytes[pos], pos + 1))
}

/// Read `n` raw bytes.
pub fn read_chunk(bytes: &Vec<u8>, pos: usize, n: usize) -> (r: Option<(Vec<u8>, usize)>)
    ensures
        pos + n <= bytes@.len() ==> (r matches Some(p) && p.0@ == bytes@.subrange(
            pos as int,
            pos as int + n,
        ) && p.1 == pos + n),
        pos + n > bytes@.len() ==> r is None,
{
    if pos > bytes.len() || bytes.len() - pos < n {
        return None;
    }
    let end = pos + n;
    let mut v: Vec<u8> = Vec::new();
    let mut j: usize = pos;
    while j < end
        invariant
            pos + n <= bytes@.len(),
            end == pos + n,
            pos <= j <= end,
            v@.len() == j - pos,
            forall|i: int| 0 <= i < j - pos ==> v@[i] == bytes@[pos + i],
        decreases end - j,
    {
        v.push(bytes[j]);
        j = j + 1;
    }
    proof {
        assert(v@ =~= bytes@.subrange(pos as int, pos as int + n));
    }
    Some((v, pos + n))
}

/// Append raw bytes.
pub fn push_chunk(out: &mut Vec<u8>, data: &Vec<u8>)
    ensures
        final(out)@ == old(out)@ + data@,
{
    let mut k: usize = 0;
    while k < data.len()
        invariant
            k <= data@.len(),
            out@.len() == old(out)@.len() + k,
            out@ == old(out)@ + data@.subrange(0, k as int),
        decreases data@.len() - k,
    {
        out.push(data[k]);
        k = k + 1;
        proof {
            assert(out@ =~= old(out)@ + data@.subrange(0, k as int));
        }
    }
    proof {
        assert(data@.subrange(0, data@.len() as int) =~= data@);
    }
}

/// Append coefficient values.
pub fn push_chunk_i32(out: &mut Vec<i32>, data: &Vec<i32>)
    ensures
        final(out)@ == old(out)@ + data@,
{
    let mut k: usize = 0;
    while k < data.len()
        invariant
            k <= data@.len(),
            out@.len() == old(out)@.len() + k,
            out@ == old(out)@ + data@.subrange(0, k as int),
        decreases data@.len() - k,
    {
        out.push(data[k]);
        k = k + 1;
        proof {
            assert(out@ =~= old(out)@ + data@.subrange(0, k as int));
        }
    }
    proof {
        assert(data@.subrange(0, data@.len() as int) =~= data@);
    }
}

/// Unfold the value of an eight-byte field into its bytes.
proof fn lemma_le_val_8(s: Seq<u8>, p: int)
    requires
        0 <= p,
        p + 8 <= s.len(),
    ensures
        le_val(s.subrange(p, p + 8)) == s[p] + 256 * (s[p + 1] + 256 * (s[p + 2] + 256 * (s[p + 3]
            + 256 * (s[p + 4] + 256 * (s[p + 5] + 256 * (s[p + 6] + 256 * (s[p + 7] as int))))))),
{
    lemma_le_val_tail(s, p, p + 8);
    lemma_le_val_tail(s, p + 1, p + 8);
    lemma_le_val_tail(s, p + 2, p + 8);
    lemma_le_val_tail(s, p + 3, p + 8);
    lemma_le_val_tail(s, p + 4, p + 8);
    lemma_le_val_tail(s, p + 5, p + 8);
    lemma_le_val_tail(s, p + 6, p + 8);
    lemma_le_val_tail(s, p + 7, p + 8);
    assert(s.subrange(p + 8, p + 8) =~= Seq::<u8>::empty());
    assert(le_val(s.subrange(p + 8, p + 8)) == 0);
}

/// Peel the first byte off a subrange value.
proof fn lemma_le_val_tail(s: Seq<u8>, a: int, b: int)
    requires
        0 <= a < b <= s.len(),
    ensures
        le_val(s.subrange(a, b)) == s[a] + 256 * le_val(s.subrange(a + 1, b)),
{
    let sub = s.subrange(a, b);
    assert(sub.subrange(1, sub.len() as int) =~= s.subrange(a + 1, b));
}

} // verus!
