//! The byte cursor: a buffer and a read position, with endian-parameterized
//! primitive reads.
//!
//! Each primitive read comes in two forms, as the format's two read paths
//! demand.  The plain form carries its bounds demand as a precondition
//! (`requires`), discharged statically at every call site — this is the
//! unchecked path, and the `_unsafe` names keep the traditional spelling of
//! that path.  The `try_` form tests the bound at run time and fails with
//! `UnexpectedEof` — this is the checked path.  Both forms of a read return
//! the same value at the same position and advance the cursor identically;
//! their contracts state the value through one shared spec function, which
//! is the checked/unchecked equivalence contract.

use vstd::prelude::*;

use crate::model::DecodeError;
use crate::model::NbtVersion;
use crate::spec_codec::chars_of_bytes;
use crate::spec_codec::dec_str;
use crate::words::be_val;
use crate::words::le_val;
use crate::words::lemma_pow256_increases;
use crate::words::lemma_pow256_values;
use crate::words::lemma_pow128_increases;
use crate::words::lemma_pow128_values;
use crate::words::lemma_varint_val_bound;
use crate::words::pow256;
use crate::words::varint_val;

verus! {

/// Relies on `String::from_utf8_lossy` (and `Cow::into_owned`): bytes that
/// are valid UTF-8 decode to exactly their UTF-8 reading, and invalid
/// sequences are repaired to a replacement that depends on the bytes alone,
/// here named `lossy_chars`.
#[verifier::external_body]
fn lossy_string(b: &Vec<u8>) -> (r: String)
    ensures
        r@ == chars_of_bytes(b@),
        !vstd::utf8::valid_utf8(b@) ==> r@ == crate::spec_codec::lossy_chars(b@),
{
    String::from_utf8_lossy(b.as_slice()).into_owned()
}

/// A cursor over a byte buffer.  Reads advance `cursor` by exactly the
/// bytes they consume and never change `data`.
pub struct NbtReader {
    /// The buffer being decoded.
    pub data: Vec<u8>,
    /// The read position; `0 <= cursor <= data.len()` at every point a read
    /// is allowed.
    pub cursor: usize,
}

impl NbtReader {
    pub fn new(data: Vec<u8>) -> (r: NbtReader)
        ensures
            r.data@ == data@,
            r.cursor == 0,
    {
        NbtReader { data, cursor: 0 }
    }

    /// Move the cursor back by `len` bytes without reading.
    pub fn roll_back(&mut self, len: usize)
        requires
            len <= old(self).cursor,
        ensures
            final(self).data@ == old(self).data@,
            final(self).cursor == old(self).cursor - len,
    {
        self.cursor = self.cursor - len;
    }

    /// Move the cursor forward by `len` bytes without reading.
    pub fn roll_down(&mut self, len: usize)
        requires
            old(self).cursor + len <= old(self).data@.len(),
        ensures
            final(self).data@ == old(self).data@,
            final(self).cursor == old(self).cursor + len,
    {
        proof {
            vstd::std_specs::vec::axiom_spec_len(&self.data);
        }
        self.cursor = self.cursor + len;
    }

    pub fn read_u8(&mut self) -> (r: u8)
        requires
            old(self).cursor < old(self).data@.len(),
        ensures
            final(self).data@ == old(self).data@,
            final(self).cursor == old(self).cursor + 1,
            r == old(self).data@[old(self).cursor as int],
    {
        proof {
            vstd::std_specs::vec::axiom_spec_len(&self.data);
        }
        let value = self.data[self.cursor];
        self.cursor = self.cursor + 1;
        value
    }

    pub fn read_i8(&mut self) -> (r: i8)
        requires
            old(self).cursor < old(self).data@.len(),
        ensures
            final(self).data@ == old(self).data@,
            final(self).cursor == old(self).cursor + 1,
            r == old(self).data@[old(self).cursor as int] as i8,
    {
        self.read_u8() as i8
    }

    /// Read the `n`-byte word at the cursor, big-endian when `big` holds
    /// and little-endian otherwise.  This is the one primitive every
    /// multi-byte read below goes through.
    pub fn read_word(&mut self, n: usize, big: bool) -> (r: u64)
        requires
            1 <= n <= 8,
            old(self).cursor + n <= old(self).data@.len(),
        ensures
            final(self).data@ == old(self).data@,
            final(self).cursor == old(self).cursor + n,
            big ==> r as nat == be_val(
                old(self).data@.subrange(old(self).cursor as int, old(self).cursor + n as int),
            ),
            !big ==> r as nat == le_val(
                old(self).data@.subrange(old(self).cursor as int, old(self).cursor + n as int),
            ),
            (r as nat) < pow256(n as nat),
    {
        proof {
            lemma_pow256_values();
            vstd::std_specs::vec::axiom_spec_len(&self.data);
        }
        let c = self.cursor;
        let mut acc: u64 = 0;
        if big {
            let mut k: usize = 0;
            while k < n
                invariant
                    0 <= k <= n <= 8,
                    c + n <= self.data@.len(),
                    self.data@ == old(self).data@,
                    self.cursor == c,
                    acc as nat == be_val(self.data@.subrange(c as int, c + k as int)),
                    (acc as nat) < pow256(k as nat),
                decreases n - k,
            {
                proof {
                    vstd::std_specs::vec::axiom_spec_len(&self.data);
                    lemma_pow256_values();
                    lemma_pow256_increases((k + 1) as nat, 8);
                    assert(pow256((k + 1) as nat) == 256 * pow256(k as nat));
                    assert(acc as nat * 256 + self.data@[c + k as int] < pow256((k + 1) as nat))
                        by (nonlinear_arith)
                        requires
                            (acc as nat) < pow256(k as nat),
                            self.data@[c + k as int] < 256,
                            pow256((k + 1) as nat) == 256 * pow256(k as nat),
                    ;
                    let s1 = self.data@.subrange(c as int, c + (k + 1) as int);
                    assert(s1.drop_last() =~= self.data@.subrange(c as int, c + k as int));
                    assert(s1.last() == self.data@[c + k as int]);
                }
                acc = acc * 256 + self.data[c + k] as u64;
                k = k + 1;
            }
        } else {
            let mut k: usize = n;
            while k > 0
                invariant
                    0 <= k <= n <= 8,
                    c + n <= self.data@.len(),
                    self.data@ == old(self).data@,
                    self.cursor == c,
                    acc as nat == le_val(self.data@.subrange(c + k as int, c + n as int)),
                    (acc as nat) < pow256((n - k) as nat),
                decreases k,
            {
                proof {
                    vstd::std_specs::vec::axiom_spec_len(&self.data);
                    lemma_pow256_values();
                    lemma_pow256_increases((n - k + 1) as nat, 8);
                    assert(pow256((n - k + 1) as nat) == 256 * pow256((n - k) as nat));
                    assert(acc as nat * 256 + self.data@[c + (k - 1) as int] < pow256(
                        (n - k + 1) as nat,
                    )) by (nonlinear_arith)
                        requires
                            (acc as nat) < pow256((n - k) as nat),
                            self.data@[c + (k - 1) as int] < 256,
                            pow256((n - k + 1) as nat) == 256 * pow256((n - k) as nat),
                    ;
                    let s1 = self.data@.subrange(c + (k - 1) as int, c + n as int);
                    assert(s1.drop_first() =~= self.data@.subrange(c + k as int, c + n as int));
                    assert(s1.first() == self.data@[c + (k - 1) as int]);
                }
                acc = acc * 256 + self.data[c + k - 1] as u64;
                k = k - 1;
            }
        }
        self.cursor = c + n;
        acc
    }

    /// The checked form of `read_word`: tests the bound at run time and
    /// fails with `UnexpectedEof` instead of demanding it, returning the
    /// same value and advancing the cursor identically when it succeeds.
    pub fn try_read_word(&mut self, n: usize, big: bool) -> (r: Result<u64, DecodeError>)
        requires
            1 <= n <= 8,
        ensures
            final(self).data@ == old(self).data@,
            old(self).cursor + n <= old(self).data@.len() ==> {
                &&& r is Ok
                &&& final(self).cursor == old(self).cursor + n
                &&& big ==> r->Ok_0 as nat == be_val(
                    old(self).data@.subrange(old(self).cursor as int, old(self).cursor + n as int),
                )
                &&& !big ==> r->Ok_0 as nat == le_val(
                    old(self).data@.subrange(old(self).cursor as int, old(self).cursor + n as int),
                )
                &&& (r->Ok_0 as nat) < pow256(n as nat)
            },
            old(self).cursor + n > old(self).data@.len() ==> {
                &&& r == Err::<u64, DecodeError>(DecodeError::UnexpectedEof)
                &&& final(self).cursor == old(self).cursor
            },
    {
        if self.cursor <= self.data.len() && n <= self.data.len() - self.cursor {
            Ok(self.read_word(n, big))
        } else {
            Err(DecodeError::UnexpectedEof)
        }
    }

    pub fn read_be_u16(&mut self) -> (r: u16)
        requires
            old(self).cursor + 2 <= old(self).data@.len(),
        ensures
            final(self).data@ == old(self).data@,
            final(self).cursor == old(self).cursor + 2,
            r as nat == be_val(
                old(self).data@.subrange(old(self).cursor as int, old(self).cursor + 2),
            ),
    {
        proof {
            lemma_pow256_values();
            lemma_pow256_increases(2, 2);
        }
        self.read_word(2, true) as u16
    }

    pub fn read_be_i16(&mut self) -> (r: i16)
        requires
            old(self).cursor + 2 <= old(self).data@.len(),
        ensures
            final(self).data@ == old(self).data@,
            final(self).cursor == old(self).cursor + 2,
            r == be_val(old(self).data@.subrange(old(self).cursor as int, old(self).cursor + 2))
                as u16 as i16,
    {
        self.read_be_u16() as i16
    }

    pub fn read_le_u16(&mut self) -> (r: u16)
        requires
            old(self).cursor + 2 <= old(self).data@.len(),
        ensures
            final(self).data@ == old(self).data@,
            final(self).cursor == old(self).cursor + 2,
            r as nat == le_val(
                old(self).data@.subrange(old(self).cursor as int, old(self).cursor + 2),
            ),
    {
        proof {
            lemma_pow256_values();
        }
        self.read_word(2, false) as u16
    }

    pub fn read_le_i16(&mut self) -> (r: i16)
        requires
            old(self).cursor + 2 <= old(self).data@.len(),
        ensures
            final(self).data@ == old(self).data@,
            final(self).cursor == old(self).cursor + 2,
            r == le_val(old(self).data@.subrange(old(self).cursor as int, old(self).cursor + 2))
                as u16 as i16,
    {
        self.read_le_u16() as i16
    }

    pub fn read_be_u32(&mut self) -> (r: u32)
        requires
            old(self).cursor + 4 <= old(self).data@.len(),
        ensures
            final(self).data@ == old(self).data@,
            final(self).cursor == old(self).cursor + 4,
            r as nat == be_val(
                old(self).data@.subrange(old(self).cursor as int, old(self).cursor + 4),
            ),
    {
        proof {
            lemma_pow256_values();
        }
        self.read_word(4, true) as u32
    }

    pub fn read_be_i32(&mut self) -> (r: i32)
        requires
            old(self).cursor + 4 <= old(self).data@.len(),
        ensures
            final(self).data@ == old(self).data@,
            final(self).cursor == old(self).cursor + 4,
            r == be_val(old(self).data@.subrange(old(self).cursor as int, old(self).cursor + 4))
                as u32 as i32,
    {
        self.read_be_u32() as i32
    }

    pub fn read_le_u32(&mut self) -> (r: u32)
        requires
            old(self).cursor + 4 <= old(self).data@.len(),
        ensures
            final(self).data@ == old(self).data@,
            final(self).cursor == old(self).cursor + 4,
            r as nat == le_val(
                old(self).data@.subrange(old(self).cursor as int, old(self).cursor + 4),
            ),
    {
        proof {
            lemma_pow256_values();
        }
        self.read_word(4, false) as u32
    }

    pub fn read_le_i32(&mut self) -> (r: i32)
        requires
            old(self).cursor + 4 <= old(self).data@.len(),
        ensures
            final(self).data@ == old(self).data@,
            final(self).cursor == old(self).cursor + 4,
            r == le_val(old(self).data@.subrange(old(self).cursor as int, old(self).cursor + 4))
                as u32 as i32,
    {
        self.read_le_u32() as i32
    }

    pub fn read_be_u64(&mut self) -> (r: u64)
        requires
            old(self).cursor + 8 <= old(self).data@.len(),
        ensures
            final(self).data@ == old(self).data@,
            final(self).cursor == old(self).cursor + 8,
            r as nat == be_val(
                old(self).data@.subrange(old(self).cursor as int, old(self).cursor + 8),
            ),
    {
        self.read_word(8, true)
    }

    pub fn read_be_i64(&mut self) -> (r: i64)
        requires
            old(self).cursor + 8 <= old(self).data@.len(),
        ensures
            final(self).data@ == old(self).data@,
            final(self).cursor == old(self).cursor + 8,
            r == be_val(old(self).data@.subrange(old(self).cursor as int, old(self).cursor + 8))
                as u64 as i64,
    {
        self.read_be_u64() as i64
    }

    pub fn read_le_u64(&mut self) -> (r: u64)
        requires
            old(self).cursor + 8 <= old(self).data@.len(),
        ensures
            final(self).data@ == old(self).data@,
            final(self).cursor == old(self).cursor + 8,
            r as nat == le_val(
                old(self).data@.subrange(old(self).cursor as int, old(self).cursor + 8),
            ),
    {
        self.read_word(8, false)
    }

    pub fn read_le_i64(&mut self) -> (r: i64)
        requires
            old(self).cursor + 8 <= old(self).data@.len(),
        ensures
            final(self).data@ == old(self).data@,
            final(self).cursor == old(self).cursor + 8,
            r == le_val(old(self).data@.subrange(old(self).cursor as int, old(self).cursor + 8))
                as u64 as i64,
    {
        self.read_le_u64() as i64
    }

    /// Big-endian read; the short name fixes this byte order.
    pub fn read_u16(&mut self) -> (r: u16)
        requires
            old(self).cursor + 2 <= old(self).data@.len(),
        ensures
            final(self).data@ == old(self).data@,
            final(self).cursor == old(self).cursor + 2,
            r as nat == be_val(
                old(self).data@.subrange(old(self).cursor as int, old(self).cursor + 2),
            ),
    {
        self.read_be_u16()
    }

    /// Big-endian read; the short name fixes this byte order.
    pub fn read_i16(&mut self) -> (r: i16)
        requires
            old(self).cursor + 2 <= old(self).data@.len(),
        ensures
            final(self).data@ == old(self).data@,
            final(self).cursor == old(self).cursor + 2,
            r == be_val(old(self).data@.subrange(old(self).cursor as int, old(self).cursor + 2))
                as u16 as i16,
    {
        self.read_be_i16()
    }

    /// Big-endian read; the short name fixes this byte order.
    pub fn read_u32(&mut self) -> (r: u32)
        requires
            old(self).cursor + 4 <= old(self).data@.len(),
        ensures
            final(self).data@ == old(self).data@,
            final(self).cursor == old(self).cursor + 4,
            r as nat == be_val(
                old(self).data@.subrange(old(self).cursor as int, old(self).cursor + 4),
            ),
    {
        self.read_be_u32()
    }

    /// Big-endian read; the short name fixes this byte order.
    pub fn read_i32(&mut self) -> (r: i32)
        requires
            old(self).cursor + 4 <= old(self).data@.len(),
        ensures
            final(self).data@ == old(self).data@,
            final(self).cursor == old(self).cursor + 4,
            r == be_val(old(self).data@.subrange(old(self).cursor as int, old(self).cursor + 4))
                as u32 as i32,
    {
        self.read_be_i32()
    }

    /// Big-endian read; the short name fixes this byte order.
    pub fn read_u64(&mut self) -> (r: u64)
        requires
            old(self).cursor + 8 <= old(self).data@.len(),
        ensures
            final(self).data@ == old(self).data@,
            final(self).cursor == old(self).cursor + 8,
            r as nat == be_val(
                old(self).data@.subrange(old(self).cursor as int, old(self).cursor + 8),
            ),
    {
        self.read_be_u64()
    }

    /// Big-endian read; the short name fixes this byte order.
    pub fn read_i64(&mut self) -> (r: i64)
        requires
            old(self).cursor + 8 <= old(self).data@.len(),
        ensures
            final(self).data@ == old(self).data@,
            final(self).cursor == old(self).cursor + 8,
            r == be_val(old(self).data@.subrange(old(self).cursor as int, old(self).cursor + 8))
                as u64 as i64,
    {
        self.read_be_i64()
    }

    /// The unchecked read path.  Its bounds precondition is discharged
    /// statically, so no runtime check remains to elide.
    pub fn read_be_i16_unsafe(&mut self) -> (r: i16)
        requires
            old(self).cursor + 2 <= old(self).data@.len(),
        ensures
            final(self).data@ == old(self).data@,
            final(self).cursor == old(self).cursor + 2,
            r == be_val(old(self).data@.subrange(old(self).cursor as int, old(self).cursor + 2)) as u16 as i16,
    {
        self.read_be_i16()
    }

    /// The unchecked read path.  Its bounds precondition is discharged
    /// statically, so no runtime check remains to elide.
    pub fn read_be_u16_unsafe(&mut self) -> (r: u16)
        requires
            old(self).cursor + 2 <= old(self).data@.len(),
        ensures
            final(self).data@ == old(self).data@,
            final(self).cursor == old(self).cursor + 2,
            r as nat == be_val(old(self).data@.subrange(old(self).cursor as int, old(self).cursor + 2)),
    {
        self.read_be_u16()
    }

    /// The unchecked read path.  Its bounds precondition is discharged
    /// statically, so no runtime check remains to elide.
    pub fn read_be_i32_unsafe(&mut self) -> (r: i32)
        requires
            old(self).cursor + 4 <= old(self).data@.len(),
        ensures
            final(self).data@ == old(self).data@,
            final(self).cursor == old(self).cursor + 4,
            r == be_val(old(self).data@.subrange(old(self).cursor as int, old(self).cursor + 4)) as u32 as i32,
    {
        self.read_be_i32()
    }

    /// The unchecked read path.  Its bounds precondition is discharged
    /// statically, so no runtime check remains to elide.
    pub fn read_be_u32_unsafe(&mut self) -> (r: u32)
        requires
            old(self).cursor + 4 <= old(self).data@.len(),
        ensures
            final(self).data@ == old(self).data@,
            final(self).cursor == old(self).cursor + 4,
            r as nat == be_val(old(self).data@.subrange(old(self).cursor as int, old(self).cursor + 4)),
    {
        self.read_be_u32()
    }

    /// The unchecked read path.  Its bounds precondition is discharged
    /// statically, so no runtime check remains to elide.
    pub fn read_be_i64_unsafe(&mut self) -> (r: i64)
        requires
            old(self).cursor + 8 <= old(self).data@.len(),
        ensures
            final(self).data@ == old(self).data@,
            final(self).cursor == old(self).cursor + 8,
            r == be_val(old(self).data@.subrange(old(self).cursor as int, old(self).cursor + 8)) as u64 as i64,
    {
        self.read_be_i64()
    }

    /// The unchecked read path.  Its bounds precondition is discharged
    /// statically, so no runtime check remains to elide.
    pub fn read_be_u64_unsafe(&mut self) -> (r: u64)
        requires
            old(self).cursor + 8 <= old(self).data@.len(),
        ensures
            final(self).data@ == old(self).data@,
            final(self).cursor == old(self).cursor + 8,
            r as nat == be_val(old(self).data@.subrange(old(self).cursor as int, old(self).cursor + 8)),
    {
        self.read_be_u64()
    }

    /// The unchecked read path.  Its bounds precondition is discharged
    /// statically, so no runtime check remains to elide.
    pub fn read_le_i16_unsafe(&mut self) -> (r: i16)
        requires
            old(self).cursor + 2 <= old(self).data@.len(),
        ensures
            final(self).data@ == old(self).data@,
            final(self).cursor == old(self).cursor + 2,
            r == le_val(old(self).data@.subrange(old(self).cursor as int, old(self).cursor + 2)) as u16 as i16,
    {
        self.read_le_i16()
    }

    /// The unchecked read path.  Its bounds precondition is discharged
    /// statically, so no runtime check remains to elide.
    pub fn read_le_u16_unsafe(&mut self) -> (r: u16)
        requires
            old(self).cursor + 2 <= old(self).data@.len(),
        ensures
            final(self).data@ == old(self).data@,
            final(self).cursor == old(self).cursor + 2,
            r as nat == le_val(old(self).data@.subrange(old(self).cursor as int, old(self).cursor + 2)),
    {
        self.read_le_u16()
    }

    /// The unchecked read path.  Its bounds precondition is discharged
    /// statically, so no runtime check remains to elide.
    pub fn read_le_i32_unsafe(&mut self) -> (r: i32)
        requires
            old(self).cursor + 4 <= old(self).data@.len(),
        ensures
            final(self).data@ == old(self).data@,
            final(self).cursor == old(self).cursor + 4,
            r == le_val(old(self).data@.subrange(old(self).cursor as int, old(self).cursor + 4)) as u32 as i32,
    {
        self.read_le_i32()
    }

    /// The unchecked read path.  Its bounds precondition is discharged
    /// statically, so no runtime check remains to elide.
    pub fn read_le_u32_unsafe(&mut self) -> (r: u32)
        requires
            old(self).cursor + 4 <= old(self).data@.len(),
        ensures
            final(self).data@ == old(self).data@,
            final(self).cursor == old(self).cursor + 4,
            r as nat == le_val(old(self).data@.subrange(old(self).cursor as int, old(self).cursor + 4)),
    {
        self.read_le_u32()
    }

    /// The unchecked read path.  Its bounds precondition is discharged
    /// statically, so no runtime check remains to elide.
    pub fn read_le_i64_unsafe(&mut self) -> (r: i64)
        requires
            old(self).cursor + 8 <= old(self).data@.len(),
        ensures
            final(self).data@ == old(self).data@,
            final(self).cursor == old(self).cursor + 8,
            r == le_val(old(self).data@.subrange(old(self).cursor as int, old(self).cursor + 8)) as u64 as i64,
    {
        self.read_le_i64()
    }

    /// The unchecked read path.  Its bounds precondition is discharged
    /// statically, so no runtime check remains to elide.
    pub fn read_le_u64_unsafe(&mut self) -> (r: u64)
        requires
            old(self).cursor + 8 <= old(self).data@.len(),
        ensures
            final(self).data@ == old(self).data@,
            final(self).cursor == old(self).cursor + 8,
            r as nat == le_val(old(self).data@.subrange(old(self).cursor as int, old(self).cursor + 8)),
    {
        self.read_le_u64()
    }

    /// The raw IEEE-754 bits of a 32-bit floating-point payload, big-endian.
    /// The value model carries these bits as they stand, so the read is
    /// exact.
    pub fn read_be_f32_bits(&mut self) -> (r: u32)
        requires
            old(self).cursor + 4 <= old(self).data@.len(),
        ensures
            final(self).data@ == old(self).data@,
            final(self).cursor == old(self).cursor + 4,
            r as nat == be_val(old(self).data@.subrange(old(self).cursor as int, old(self).cursor + 4)),
    {
        self.read_be_u32()
    }

    /// The unchecked read path for 32-bit floating-point bits.
    pub fn read_be_f32_bits_unsafe(&mut self) -> (r: u32)
        requires
            old(self).cursor + 4 <= old(self).data@.len(),
        ensures
            final(self).data@ == old(self).data@,
            final(self).cursor == old(self).cursor + 4,
            r as nat == be_val(old(self).data@.subrange(old(self).cursor as int, old(self).cursor + 4)),
    {
        self.read_be_f32_bits()
    }

    /// The raw IEEE-754 bits of a 64-bit floating-point payload, big-endian.
    /// The value model carries these bits as they stand, so the read is
    /// exact.
    pub fn read_be_f64_bits(&mut self) -> (r: u64)
        requires
            old(self).cursor + 8 <= old(self).data@.len(),
        ensures
            final(self).data@ == old(self).data@,
            final(self).cursor == old(self).cursor + 8,
            r as nat == be_val(old(self).data@.subrange(old(self).cursor as int, old(self).cursor + 8)),
    {
        self.read_be_u64()
    }

    /// The unchecked read path for 64-bit floating-point bits.
    pub fn read_be_f64_bits_unsafe(&mut self) -> (r: u64)
        requires
            old(self).cursor + 8 <= old(self).data@.len(),
        ensures
            final(self).data@ == old(self).data@,
            final(self).cursor == old(self).cursor + 8,
            r as nat == be_val(old(self).data@.subrange(old(self).cursor as int, old(self).cursor + 8)),
    {
        self.read_be_f64_bits()
    }

    /// The raw IEEE-754 bits of a 32-bit floating-point payload, little-endian.
    /// The value model carries these bits as they stand, so the read is
    /// exact.
    pub fn read_le_f32_bits(&mut self) -> (r: u32)
        requires
            old(self).cursor + 4 <= old(self).data@.len(),
        ensures
            final(self).data@ == old(self).data@,
            final(self).cursor == old(self).cursor + 4,
            r as nat == le_val(old(self).data@.subrange(old(self).cursor as int, old(self).cursor + 4)),
    {
        self.read_le_u32()
    }

    /// The unchecked read path for 32-bit floating-point bits.
    pub fn read_le_f32_bits_unsafe(&mut self) -> (r: u32)
        requires
            old(self).cursor + 4 <= old(self).data@.len(),
        ensures
            final(self).data@ == old(self).data@,
            final(self).cursor == old(self).cursor + 4,
            r as nat == le_val(old(self).data@.subrange(old(self).cursor as int, old(self).cursor + 4)),
    {
        self.read_le_f32_bits()
    }

    /// The raw IEEE-754 bits of a 64-bit floating-point payload, little-endian.
    /// The value model carries these bits as they stand, so the read is
    /// exact.
    pub fn read_le_f64_bits(&mut self) -> (r: u64)
        requires
            old(self).cursor + 8 <= old(self).data@.len(),
        ensures
            final(self).data@ == old(self).data@,
            final(self).cursor == old(self).cursor + 8,
            r as nat == le_val(old(self).data@.subrange(old(self).cursor as int, old(self).cursor + 8)),
    {
        self.read_le_u64()
    }

    /// The unchecked read path for 64-bit floating-point bits.
    pub fn read_le_f64_bits_unsafe(&mut self) -> (r: u64)
        requires
            old(self).cursor + 8 <= old(self).data@.len(),
        ensures
            final(self).data@ == old(self).data@,
            final(self).cursor == old(self).cursor + 8,
            r as nat == le_val(old(self).data@.subrange(old(self).cursor as int, old(self).cursor + 8)),
    {
        self.read_le_f64_bits()
    }

    /// Read `len` raw bytes.
    pub fn read_u8_array(&mut self, len: usize) -> (r: Vec<u8>)
        requires
            old(self).cursor + len <= old(self).data@.len(),
        ensures
            final(self).data@ == old(self).data@,
            final(self).cursor == old(self).cursor + len,
            r@ == old(self).data@.subrange(old(self).cursor as int, old(self).cursor + len as int),
    {
        proof {
            vstd::std_specs::vec::axiom_spec_len(&self.data);
        }
        let c = self.cursor;
        let mut out: Vec<u8> = Vec::new();
        let mut k: usize = 0;
        while k < len
            invariant
                0 <= k <= len,
                c + len <= self.data@.len(),
                self.data@ == old(self).data@,
                self.cursor == c,
                out@ == self.data@.subrange(c as int, c + k as int),
            decreases len - k,
        {
            proof {
                vstd::std_specs::vec::axiom_spec_len(&self.data);
            }
            out.push(self.data[c + k]);
            k = k + 1;
            proof {
                assert(out@ =~= self.data@.subrange(c as int, c + k as int));
            }
        }
        self.cursor = c + len;
        out
    }

    /// Read `len` signed bytes.
    pub fn read_i8_array(&mut self, len: usize) -> (r: Vec<i8>)
        requires
            old(self).cursor + len <= old(self).data@.len(),
        ensures
            final(self).data@ == old(self).data@,
            final(self).cursor == old(self).cursor + len,
            r@ == old(self).data@.subrange(
                old(self).cursor as int,
                old(self).cursor + len as int,
            ).map_values(|x: u8| x as i8),
    {
        proof {
            vstd::std_specs::vec::axiom_spec_len(&self.data);
        }
        let c = self.cursor;
        let mut out: Vec<i8> = Vec::new();
        let mut k: usize = 0;
        while k < len
            invariant
                0 <= k <= len,
                c + len <= self.data@.len(),
                self.data@ == old(self).data@,
                self.cursor == c,
                out@ == self.data@.subrange(c as int, c + k as int).map_values(|x: u8| x as i8),
            decreases len - k,
        {
            proof {
                vstd::std_specs::vec::axiom_spec_len(&self.data);
            }
            out.push(self.data[c + k] as i8);
            k = k + 1;
            proof {
                assert(out@ =~= self.data@.subrange(c as int, c + k as int).map_values(
                    |x: u8| x as i8,
                ));
            }
        }
        self.cursor = c + len;
        out
    }

    /// The unchecked read path for a signed byte array.
    pub fn read_i8_array_unsafe(&mut self, len: usize) -> (r: Vec<i8>)
        requires
            old(self).cursor + len <= old(self).data@.len(),
        ensures
            final(self).data@ == old(self).data@,
            final(self).cursor == old(self).cursor + len,
            r@ == old(self).data@.subrange(
                old(self).cursor as int,
                old(self).cursor + len as int,
            ).map_values(|x: u8| x as i8),
    {
        self.read_i8_array(len)
    }

    /// Read `len` big-endian signed 32-bit values.
    pub fn read_i32_array(&mut self, len: usize) -> (r: Vec<i32>)
        requires
            old(self).cursor + 4 * len <= old(self).data@.len(),
        ensures
            final(self).data@ == old(self).data@,
            final(self).cursor == old(self).cursor + 4 * len,
            r@ == Seq::new(
                len as nat,
                |j: int|
                    be_val(
                        old(self).data@.subrange(
                            old(self).cursor + 4 * j,
                            old(self).cursor + 4 * j + 4,
                        ),
                    ) as u32 as i32,
            ),
    {
        proof {
            vstd::std_specs::vec::axiom_spec_len(&self.data);
        }
        let c = self.cursor;
        let mut out: Vec<i32> = Vec::new();
        let mut k: usize = 0;
        while k < len
            invariant
                0 <= k <= len,
                c + 4 * len <= self.data@.len(),
                self.data@ == old(self).data@,
                self.cursor == c + 4 * k,
                out@ == Seq::new(
                    k as nat,
                    |j: int|
                        be_val(
                            self.data@.subrange(c + 4 * j, c + 4 * j + 4),
                        ) as u32 as i32,
                ),
            decreases len - k,
        {
            proof {
                vstd::std_specs::vec::axiom_spec_len(&self.data);
            }
            let w = self.read_word(4, true);
            out.push(w as u32 as i32);
            k = k + 1;
            proof {
                assert(out@ =~= Seq::new(
                    k as nat,
                    |j: int|
                        be_val(
                            self.data@.subrange(c + 4 * j, c + 4 * j + 4),
                        ) as u32 as i32,
                ));
            }
        }
        out
    }

    /// The unchecked read path for a signed 32-bit array.
    pub fn read_i32_array_unsafe(&mut self, len: usize) -> (r: Vec<i32>)
        requires
            old(self).cursor + 4 * len <= old(self).data@.len(),
        ensures
            final(self).data@ == old(self).data@,
            final(self).cursor == old(self).cursor + 4 * len,
            r@ == Seq::new(
                len as nat,
                |j: int|
                    be_val(
                        old(self).data@.subrange(
                            old(self).cursor + 4 * j,
                            old(self).cursor + 4 * j + 4,
                        ),
                    ) as u32 as i32,
            ),
    {
        self.read_i32_array(len)
    }

    /// Read `len` big-endian signed 64-bit values.
    pub fn read_i64_array(&mut self, len: usize) -> (r: Vec<i64>)
        requires
            old(self).cursor + 8 * len <= old(self).data@.len(),
        ensures
            final(self).data@ == old(self).data@,
            final(self).cursor == old(self).cursor + 8 * len,
            r@ == Seq::new(
                len as nat,
                |j: int|
                    be_val(
                        old(self).data@.subrange(
                            old(self).cursor + 8 * j,
                            old(self).cursor + 8 * j + 8,
                        ),
                    ) as u64 as i64,
            ),
    {
        proof {
            vstd::std_specs::vec::axiom_spec_len(&self.data);
        }
        let c = self.cursor;
        let mut out: Vec<i64> = Vec::new();
        let mut k: usize = 0;
        while k < len
            invariant
                0 <= k <= len,
                c + 8 * len <= self.data@.len(),
                self.data@ == old(self).data@,
                self.cursor == c + 8 * k,
                out@ == Seq::new(
                    k as nat,
                    |j: int|
                        be_val(
                            self.data@.subrange(c + 8 * j, c + 8 * j + 8),
                        ) as u64 as i64,
                ),
            decreases len - k,
        {
            proof {
                vstd::std_specs::vec::axiom_spec_len(&self.data);
            }
            let w = self.read_word(8, true);
            out.push(w as i64);
            k = k + 1;
            proof {
                assert(out@ =~= Seq::new(
                    k as nat,
                    |j: int|
                        be_val(
                            self.data@.subrange(c + 8 * j, c + 8 * j + 8),
                        ) as u64 as i64,
                ));
            }
        }
        out
    }

    /// The unchecked read path for a signed 64-bit array.
    pub fn read_i64_array_unsafe(&mut self, len: usize) -> (r: Vec<i64>)
        requires
            old(self).cursor + 8 * len <= old(self).data@.len(),
        ensures
            final(self).data@ == old(self).data@,
            final(self).cursor == old(self).cursor + 8 * len,
            r@ == Seq::new(
                len as nat,
                |j: int|
                    be_val(
                        old(self).data@.subrange(
                            old(self).cursor + 8 * j,
                            old(self).cursor + 8 * j + 8,
                        ),
                    ) as u64 as i64,
            ),
    {
        self.read_i64_array(len)
    }

    /// Read `len` bytes as text, repairing invalid UTF-8 rather than
    /// failing; the checked form, which fails with `UnexpectedEof` when
    /// fewer than `len` bytes remain.
    pub fn read_string(&mut self, len: usize) -> (r: Result<String, DecodeError>)
        ensures
            final(self).data@ == old(self).data@,
            old(self).cursor + len <= old(self).data@.len() ==> {
                &&& r is Ok
                &&& r->Ok_0@ == chars_of_bytes(
                    old(self).data@.subrange(old(self).cursor as int, old(self).cursor + len as int),
                )
                &&& final(self).cursor == old(self).cursor + len
            },
            old(self).cursor + len > old(self).data@.len() ==> {
                &&& r == Err::<String, DecodeError>(DecodeError::UnexpectedEof)
                &&& final(self).cursor == old(self).cursor
            },
    {
        if self.cursor <= self.data.len() && len <= self.data.len() - self.cursor {
            let bytes = self.read_u8_array(len);
            Ok(lossy_string(&bytes))
        } else {
            Err(DecodeError::UnexpectedEof)
        }
    }

    /// Read one variable-width integer, looking at most `k` bytes ahead.
    fn read_varint_bounded(&mut self, k: usize) -> (r: Result<u64, DecodeError>)
        requires
            1 <= k <= 5,
        ensures
            final(self).data@ == old(self).data@,
            match varint_val(old(self).data@, old(self).cursor as int, k as nat) {
                Some((v, c)) => r is Ok && r->Ok_0 == v && final(self).cursor == old(self).cursor
                    + c,
                None => r is Err && r->Err_0 == DecodeError::UnexpectedEof,
            },
        decreases k,
    {
        proof {
            vstd::std_specs::vec::axiom_spec_len(&self.data);
        }
        if self.cursor >= self.data.len() {
            return Err(DecodeError::UnexpectedEof);
        }
        let byte = self.read_u8();
        if byte < 128 || k == 1 {
            Ok((byte % 128) as u64)
        } else {
            let ghost b = self.data@;
            let ghost i = self.cursor as int;
            match self.read_varint_bounded(k - 1) {
                Ok(v) => {
                    proof {
                        lemma_varint_val_bound(b, i, (k - 1) as nat);
                        lemma_pow128_increases((k - 1) as nat, 4);
                        lemma_pow128_values();
                    }
                    Ok((byte - 128) as u64 + 128 * v)
                },
                Err(e) => Err(e),
            }
        }
    }

    /// Read one variable-width integer: the checked form, failing with
    /// `UnexpectedEof` when the buffer ends inside the number.
    pub fn read_varint(&mut self) -> (r: Result<u64, DecodeError>)
        ensures
            final(self).data@ == old(self).data@,
            match varint_val(old(self).data@, old(self).cursor as int, 5) {
                Some((v, c)) => r is Ok && r->Ok_0 == v && final(self).cursor == old(self).cursor
                    + c,
                None => r is Err && r->Err_0 == DecodeError::UnexpectedEof,
            },
    {
        self.read_varint_bounded(5)
    }

    /// Read one length-prefixed string under dialect `version`: the length
    /// field in the dialect's width and byte order, then that many bytes of
    /// text; the checked form.
    pub fn read_nbt_string(&mut self, version: NbtVersion) -> (r: Result<String, DecodeError>)
        ensures
            final(self).data@ == old(self).data@,
            match dec_str(old(self).data@, old(self).cursor as int, version) {
                Ok((s, c)) => r is Ok && r->Ok_0@ == s && final(self).cursor == old(self).cursor
                    + c,
                Err(e) => r is Err && r->Err_0 == e,
            },
    {
        proof {
            vstd::std_specs::vec::axiom_spec_len(&self.data);
        }
        let n: u64;
        if version.varint_lengths() {
            match self.read_varint() {
                Ok(v) => {
                    n = v;
                },
                Err(e) => {
                    return Err(e);
                },
            }
        } else {
            match self.try_read_word(2, version.big_endian()) {
                Ok(w) => {
                    n = w;
                },
                Err(e) => {
                    return Err(e);
                },
            }
        }
        proof {
            vstd::std_specs::vec::axiom_spec_len(&self.data);
        }
        if self.cursor <= self.data.len() && n <= (self.data.len() - self.cursor) as u64 {
            self.read_string(n as usize)
        } else {
            Err(DecodeError::UnexpectedEof)
        }
    }
}

} // verus!
