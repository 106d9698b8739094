//! Byte-level value of machine words: big-endian, little-endian, and the
//! variable-width (LEB128-style) integers that one network dialect uses for
//! length fields.

use vstd::prelude::*;

verus! {

/// `256 ^ n`, the number of values an `n`-byte word can hold.
pub open spec fn pow256(n: nat) -> nat
    decreases n,
{
    if n == 0 {
        1
    } else {
        256 * pow256((n - 1) as nat)
    }
}

/// The value of a byte sequence read as one big-endian word.
pub open spec fn be_val(b: Seq<u8>) -> nat
    decreases b.len(),
{
    if b.len() == 0 {
        0
    } else {
        be_val(b.drop_last()) * 256 + b.last() as nat
    }
}

/// The `n`-byte big-endian encoding of `v` (of `v % 256^n` when `v` is too
/// large to fit).
pub open spec fn be_bytes(v: nat, n: nat) -> Seq<u8>
    decreases n,
{
    if n == 0 {
        Seq::empty()
    } else {
        be_bytes(v / 256, (n - 1) as nat).push((v % 256) as u8)
    }
}

/// The value of a byte sequence read as one little-endian word.
pub open spec fn le_val(b: Seq<u8>) -> nat
    decreases b.len(),
{
    if b.len() == 0 {
        0
    } else {
        b.first() as nat + le_val(b.drop_first()) * 256
    }
}

/// The `n`-byte little-endian encoding of `v` (of `v % 256^n` when `v` is
/// too large to fit).
pub open spec fn le_bytes(v: nat, n: nat) -> Seq<u8>
    decreases n,
{
    if n == 0 {
        Seq::empty()
    } else {
        seq![(v % 256) as u8] + le_bytes(v / 256, (n - 1) as nat)
    }
}

pub proof fn lemma_be_bytes_len(v: nat, n: nat)
    ensures
        be_bytes(v, n).len() == n,
    decreases n,
{
    if n > 0 {
        lemma_be_bytes_len(v / 256, (n - 1) as nat);
    }
}

pub proof fn lemma_le_bytes_len(v: nat, n: nat)
    ensures
        le_bytes(v, n).len() == n,
    decreases n,
{
    if n > 0 {
        lemma_le_bytes_len(v / 256, (n - 1) as nat);
    }
}

/// Reading back the big-endian bytes of a value that fits in `n` bytes
/// returns that value.
pub proof fn lemma_be_round_trip(v: nat, n: nat)
    requires
        v < pow256(n),
    ensures
        be_val(be_bytes(v, n)) == v,
    decreases n,
{
    if n > 0 {
        assert(v / 256 < pow256((n - 1) as nat)) by (nonlinear_arith)
            requires
                v < 256 * pow256((n - 1) as nat),
        ;
        lemma_be_round_trip(v / 256, (n - 1) as nat);
        let prefix = be_bytes(v / 256, (n - 1) as nat);
        assert(prefix.push((v % 256) as u8).drop_last() =~= prefix);
    }
}

/// Reading back the little-endian bytes of a value that fits in `n` bytes
/// returns that value.
pub proof fn lemma_le_round_trip(v: nat, n: nat)
    requires
        v < pow256(n),
    ensures
        le_val(le_bytes(v, n)) == v,
    decreases n,
{
    if n > 0 {
        assert(v / 256 < pow256((n - 1) as nat)) by (nonlinear_arith)
            requires
                v < 256 * pow256((n - 1) as nat),
        ;
        lemma_le_round_trip(v / 256, (n - 1) as nat);
        let rest = le_bytes(v / 256, (n - 1) as nat);
        let whole = seq![(v % 256) as u8] + rest;
        assert(whole.first() == v % 256);
        assert(whole.drop_first() =~= rest);
    }
}

/// A word's value is bounded by the size of the word.
pub proof fn lemma_be_val_bound(b: Seq<u8>)
    ensures
        be_val(b) < pow256(b.len()),
    decreases b.len(),
{
    if b.len() > 0 {
        lemma_be_val_bound(b.drop_last());
        assert(be_val(b.drop_last()) * 256 + b.last() < pow256(b.len())) by (nonlinear_arith)
            requires
                be_val(b.drop_last()) < pow256((b.len() - 1) as nat),
                b.last() < 256,
                pow256(b.len()) == 256 * pow256((b.len() - 1) as nat),
        ;
    }
}

pub proof fn lemma_le_val_bound(b: Seq<u8>)
    ensures
        le_val(b) < pow256(b.len()),
    decreases b.len(),
{
    if b.len() > 0 {
        lemma_le_val_bound(b.drop_first());
        assert(b.first() + le_val(b.drop_first()) * 256 < pow256(b.len())) by (nonlinear_arith)
            requires
                le_val(b.drop_first()) < pow256((b.len() - 1) as nat),
                b.first() < 256,
                pow256(b.len()) == 256 * pow256((b.len() - 1) as nat),
        ;
    }
}

/// The variable-width encoding of `v`: seven value bits per byte, lowest
/// bits first, with the high bit of a byte marking a continuation.
pub open spec fn varint_bytes(v: nat) -> Seq<u8>
    decreases v,
{
    if v < 128 {
        seq![v as u8]
    } else {
        seq![(v % 128 + 128) as u8] + varint_bytes(v / 128)
    }
}

/// `128 ^ n`, the number of values `n` variable-width bytes can hold.
pub open spec fn pow128(n: nat) -> nat
    decreases n,
{
    if n == 0 {
        1
    } else {
        128 * pow128((n - 1) as nat)
    }
}

/// Reading one variable-width integer from `b` at position `i`, looking at
/// most `k` bytes ahead (the `k`-th byte ends the number whether or not its
/// continuation bit is set).  Returns the value and the bytes consumed, or
/// `None` when the buffer ends first.
pub open spec fn varint_val(b: Seq<u8>, i: int, k: nat) -> Option<(nat, nat)>
    decreases k,
{
    if k == 0 || !(0 <= i < b.len()) {
        None
    } else if b[i] < 128 || k == 1 {
        Some(((b[i] % 128) as nat, 1))
    } else {
        match varint_val(b, i + 1, (k - 1) as nat) {
            Some((v, c)) => Some(((b[i] - 128) as nat + 128 * v, (c + 1) as nat)),
            None => None,
        }
    }
}

/// A value below `128 ^ k` is encoded in at most `k` bytes.
pub proof fn lemma_varint_len(v: nat, k: nat)
    requires
        v < pow128(k),
    ensures
        1 <= varint_bytes(v).len() <= k || k == 0,
    decreases k,
{
    if k > 0 && v >= 128 {
        assert(v / 128 < pow128((k - 1) as nat)) by (nonlinear_arith)
            requires
                v < 128 * pow128((k - 1) as nat),
        ;
        lemma_varint_len(v / 128, (k - 1) as nat);
    }
}

/// The word sizes the format uses all fit an unsigned 64-bit accumulator.
pub proof fn lemma_pow256_values()
    ensures
        pow256(1) == 0x100,
        pow256(2) == 0x1_0000,
        pow256(4) == 0x1_0000_0000,
        pow256(8) == 0x1_0000_0000_0000_0000,
{
    reveal_with_fuel(pow256, 9);
}

pub proof fn lemma_pow256_increases(a: nat, b: nat)
    requires
        a <= b,
    ensures
        pow256(a) <= pow256(b),
    decreases b,
{
    if a < b {
        lemma_pow256_increases(a, (b - 1) as nat);
        assert(pow256(b) == 256 * pow256((b - 1) as nat));
    }
}

/// A variable-width integer read with at most `k` bytes of lookahead is
/// below `128 ^ k` and consumes between 1 and `k` bytes.
pub proof fn lemma_pow128_pos(n: nat)
    ensures
        pow128(n) >= 1,
    decreases n,
{
    if n > 0 {
        lemma_pow128_pos((n - 1) as nat);
    }
}

pub proof fn lemma_pow128_values()
    ensures
        pow128(4) == 0x1000_0000,
        pow128(5) == 0x8_0000_0000,
{
    reveal_with_fuel(pow128, 6);
}

pub proof fn lemma_pow128_increases(a: nat, b: nat)
    requires
        a <= b,
    ensures
        pow128(a) <= pow128(b),
    decreases b,
{
    if a < b {
        lemma_pow128_increases(a, (b - 1) as nat);
        assert(pow128(b) == 128 * pow128((b - 1) as nat));
    }
}

pub proof fn lemma_varint_val_bound(b: Seq<u8>, i: int, k: nat)
    ensures
        varint_val(b, i, k) matches Some((v, c)) ==> v < pow128(k) && 1 <= c <= k && i + c
            <= b.len(),
    decreases k,
{
    if k > 0 && 0 <= i < b.len() {
        if b[i] < 128 || k == 1 {
            lemma_pow128_pos((k - 1) as nat);
            assert(pow128(k) == 128 * pow128((k - 1) as nat));
        } else {
            lemma_varint_val_bound(b, i + 1, (k - 1) as nat);
            if let Some((v, c)) = varint_val(b, i + 1, (k - 1) as nat) {
                assert((b[i] - 128) as nat + 128 * v < pow128(k)) by (nonlinear_arith)
                    requires
                        v < pow128((k - 1) as nat),
                        ((b[i] - 128) as nat) < 128,
                        pow128(k) == 128 * pow128((k - 1) as nat),
                ;
            }
        }
    }
}

/// Reading back the variable-width bytes of `v` from any buffer that holds
/// them at position `i` returns `v`, consuming exactly those bytes.
pub proof fn lemma_varint_round_trip(b: Seq<u8>, i: int, v: nat, k: nat)
    requires
        0 <= i,
        i + varint_bytes(v).len() <= b.len(),
        b.subrange(i, i + varint_bytes(v).len() as int) =~= varint_bytes(v),
        varint_bytes(v).len() <= k,
    ensures
        varint_val(b, i, k) == Some((v, varint_bytes(v).len() as nat)),
    decreases v,
{
    let e = varint_bytes(v);
    if v < 128 {
        assert(b[i] == e[0]);
    } else {
        let rest = varint_bytes(v / 128);
        assert(b[i] == e[0]);
        assert(e[0] == v % 128 + 128);
        assert(b.subrange(i + 1, i + 1 + rest.len() as int) =~= rest) by {
            assert forall|j: int| 0 <= j < rest.len() implies b[i + 1 + j] == rest[j] by {
                assert(e[j + 1] == rest[j]);
                assert(b[i + 1 + j] == e[j + 1]);
            }
        }
        lemma_varint_round_trip(b, i + 1, v / 128, (k - 1) as nat);
        assert((b[i] - 128) as nat + 128 * (v / 128) == v % 128 + 128 * (v / 128));
        assert(v % 128 + 128 * (v / 128) == v);
    }
}

} // verus!
