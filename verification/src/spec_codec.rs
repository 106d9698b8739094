//! The wire format, stated mathematically: `enc_*` gives the exact byte
//! sequence a tree denotes under a dialect, and `dec_*` gives the exact
//! result of decoding a buffer — the tree and the bytes consumed, or the
//! error.  The executable decoder and encoder are verified against these
//! functions, and the round-trip and truncation laws are proved about them.

use vstd::prelude::*;
use vstd::utf8::decode_utf8;
use vstd::utf8::encode_utf8;
use vstd::utf8::valid_utf8;

use crate::model::DecodeError;
use crate::model::NbtTree;
use crate::model::NbtVersion;
use crate::words::be_bytes;
use crate::words::be_val;
use crate::words::le_bytes;
use crate::words::le_val;
use crate::words::varint_bytes;
use crate::words::varint_val;

verus! {

/// What `String::from_utf8_lossy` returns on bytes that are not valid
/// UTF-8: some fixed sequence of characters determined by the bytes alone.
pub uninterp spec fn lossy_chars(b: Seq<u8>) -> Seq<char>;

/// The characters a byte sequence decodes to: the UTF-8 reading where the
/// bytes are valid UTF-8, and the lossy repair otherwise.  Malformed text
/// never fails a decode.
pub open spec fn chars_of_bytes(b: Seq<u8>) -> Seq<char> {
    if valid_utf8(b) {
        decode_utf8(b)
    } else {
        lossy_chars(b)
    }
}

/// The value of the `n`-byte word at position `i`, in the dialect's byte
/// order.
pub open spec fn word_at(b: Seq<u8>, i: int, n: int, d: NbtVersion) -> nat {
    if d.spec_big_endian() {
        be_val(b.subrange(i, i + n))
    } else {
        le_val(b.subrange(i, i + n))
    }
}

/// The `n`-byte encoding of word `v` in the dialect's byte order.
pub open spec fn enc_word(v: nat, n: nat, d: NbtVersion) -> Seq<u8> {
    if d.spec_big_endian() {
        be_bytes(v, n)
    } else {
        le_bytes(v, n)
    }
}

/// The encoding of an array or list count.
pub open spec fn enc_count(n: nat, d: NbtVersion) -> Seq<u8> {
    if d.spec_varint_lengths() {
        varint_bytes(n)
    } else {
        enc_word(n, 4, d)
    }
}

/// The encoding of a string's byte length.
pub open spec fn enc_strlen(n: nat, d: NbtVersion) -> Seq<u8> {
    if d.spec_varint_lengths() {
        varint_bytes(n)
    } else {
        enc_word(n, 2, d)
    }
}

/// The encoding of a string: its byte length, then its UTF-8 bytes.
pub open spec fn enc_str(s: Seq<char>, d: NbtVersion) -> Seq<u8> {
    enc_strlen(encode_utf8(s).len(), d) + encode_utf8(s)
}

/// Reading an array or list count at position `i`: the count (negative
/// values are possible under fixed-width dialects, where the field is a
/// signed 32-bit integer) and the bytes consumed.
pub open spec fn dec_count(b: Seq<u8>, i: int, d: NbtVersion) -> Result<(int, nat), DecodeError> {
    if d.spec_varint_lengths() {
        match varint_val(b, i, 5) {
            Some((v, c)) => Ok((v as int, c)),
            None => Err(DecodeError::UnexpectedEof),
        }
    } else if 0 <= i && i + 4 <= b.len() {
        Ok(((word_at(b, i, 4, d) as u32 as i32) as int, 4))
    } else {
        Err(DecodeError::UnexpectedEof)
    }
}

/// Reading a string's byte length at position `i`: the length and the bytes
/// consumed.
pub open spec fn dec_strlen(b: Seq<u8>, i: int, d: NbtVersion) -> Result<(nat, nat), DecodeError> {
    if d.spec_varint_lengths() {
        match varint_val(b, i, 5) {
            Some((v, c)) => Ok((v, c)),
            None => Err(DecodeError::UnexpectedEof),
        }
    } else if 0 <= i && i + 2 <= b.len() {
        Ok((word_at(b, i, 2, d), 2))
    } else {
        Err(DecodeError::UnexpectedEof)
    }
}

/// Reading a length-prefixed string at position `i`: the characters and the
/// bytes consumed.
pub open spec fn dec_str(b: Seq<u8>, i: int, d: NbtVersion) -> Result<
    (Seq<char>, nat),
    DecodeError,
> {
    match dec_strlen(b, i, d) {
        Err(e) => Err(e),
        Ok((n, c)) => if i + c + n <= b.len() {
            Ok((chars_of_bytes(b.subrange(i + c, i + c + n)), (c + n) as nat))
        } else {
            Err(DecodeError::UnexpectedEof)
        },
    }
}

/// How many bytes of the buffer lie at or after position `i`; the
/// termination measure of the mutually recursive readers.
pub open spec fn room(b: Seq<u8>, i: int) -> nat {
    if i <= b.len() {
        (b.len() - i) as nat
    } else {
        0
    }
}

/// Reading the payload of a value with tag id `tag` at position `i`, with
/// `depth` nesting levels left: the tree and the bytes consumed.  A `depth`
/// of zero fails with `NestingTooDeep`; a tag id outside 1..=12 fails with
/// `UnknownTag`; a buffer too short for any field fails with
/// `UnexpectedEof`, as does a negative fixed-width count.
pub open spec fn dec_payload(b: Seq<u8>, i: int, tag: u8, d: NbtVersion, depth: nat) -> Result<
    (NbtTree, nat),
    DecodeError,
>
    decreases 3 * room(b, i) + 1, 0nat,
{
    if depth == 0 {
        Err(DecodeError::NestingTooDeep)
    } else if tag == 1 {
        if 0 <= i && i + 1 <= b.len() {
            Ok((NbtTree::Byte(b[i] as i8), 1))
        } else {
            Err(DecodeError::UnexpectedEof)
        }
    } else if tag == 2 {
        if 0 <= i && i + 2 <= b.len() {
            Ok((NbtTree::Short(word_at(b, i, 2, d) as u16 as i16), 2))
        } else {
            Err(DecodeError::UnexpectedEof)
        }
    } else if tag == 3 {
        if 0 <= i && i + 4 <= b.len() {
            Ok((NbtTree::Int(word_at(b, i, 4, d) as u32 as i32), 4))
        } else {
            Err(DecodeError::UnexpectedEof)
        }
    } else if tag == 4 {
        if 0 <= i && i + 8 <= b.len() {
            Ok((NbtTree::Long(word_at(b, i, 8, d) as u64 as i64), 8))
        } else {
            Err(DecodeError::UnexpectedEof)
        }
    } else if tag == 5 {
        if 0 <= i && i + 4 <= b.len() {
            Ok((NbtTree::Float(word_at(b, i, 4, d) as u32), 4))
        } else {
            Err(DecodeError::UnexpectedEof)
        }
    } else if tag == 6 {
        if 0 <= i && i + 8 <= b.len() {
            Ok((NbtTree::Double(word_at(b, i, 8, d) as u64), 8))
        } else {
            Err(DecodeError::UnexpectedEof)
        }
    } else if tag == 7 {
        match dec_count(b, i, d) {
            Err(e) => Err(e),
            Ok((n, c)) => if 0 <= n && i + c + n <= b.len() {
                Ok(
                    (
                        NbtTree::ByteArray(
                            b.subrange(i + c, i + c + n).map_values(|x: u8| x as i8),
                        ),
                        (c + n) as nat,
                    ),
                )
            } else {
                Err(DecodeError::UnexpectedEof)
            },
        }
    } else if tag == 8 {
        match dec_str(b, i, d) {
            Err(e) => Err(e),
            Ok((s, c)) => Ok((NbtTree::String(s), c)),
        }
    } else if tag == 9 {
        if 0 <= i && i + 1 <= b.len() {
            let etag = b[i];
            match dec_count(b, i + 1, d) {
                Err(e) => Err(e),
                Ok((n, c)) => if 0 <= n {
                    match dec_elems(b, i + 1 + c, etag, n as nat, d, (depth - 1) as nat) {
                        Err(e) => Err(e),
                        Ok((es, c2)) => Ok((NbtTree::List(es), (1 + c + c2) as nat)),
                    }
                } else {
                    Err(DecodeError::UnexpectedEof)
                },
            }
        } else {
            Err(DecodeError::UnexpectedEof)
        }
    } else if tag == 10 {
        match dec_entries(b, i, d, depth) {
            Err(e) => Err(e),
            Ok((entries, c)) => Ok((NbtTree::Compound(None, entries), c)),
        }
    } else if tag == 11 {
        match dec_count(b, i, d) {
            Err(e) => Err(e),
            Ok((n, c)) => if 0 <= n && i + c + 4 * n <= b.len() {
                Ok(
                    (
                        NbtTree::IntArray(
                            Seq::new(n as nat, |j: int| word_at(b, i + c + 4 * j, 4, d) as u32 as i32),
                        ),
                        (c + 4 * n) as nat,
                    ),
                )
            } else {
                Err(DecodeError::UnexpectedEof)
            },
        }
    } else if tag == 12 {
        match dec_count(b, i, d) {
            Err(e) => Err(e),
            Ok((n, c)) => if 0 <= n && i + c + 8 * n <= b.len() {
                Ok(
                    (
                        NbtTree::LongArray(
                            Seq::new(n as nat, |j: int| word_at(b, i + c + 8 * j, 8, d) as u64 as i64),
                        ),
                        (c + 8 * n) as nat,
                    ),
                )
            } else {
                Err(DecodeError::UnexpectedEof)
            },
        }
    } else {
        Err(DecodeError::UnknownTag)
    }
}

/// Reading the pairs of a compound body at position `i`, up to and
/// including the end sentinel: the pairs and the bytes consumed.
pub open spec fn dec_entries(b: Seq<u8>, i: int, d: NbtVersion, depth: nat) -> Result<
    (Seq<(Seq<char>, NbtTree)>, nat),
    DecodeError,
>
    decreases 3 * room(b, i), 0nat,
{
    if !(0 <= i && i + 1 <= b.len()) {
        Err(DecodeError::UnexpectedEof)
    } else {
        let tag = b[i];
        if tag == 0 {
            Ok((Seq::empty(), 1))
        } else if tag > 12 {
            Err(DecodeError::UnknownTag)
        } else {
            match dec_str(b, i + 1, d) {
                Err(e) => Err(e),
                Ok((name, c1)) => match dec_payload(b, i + 1 + c1, tag, d, (depth - 1) as nat) {
                    Err(e) => Err(e),
                    Ok((t, c2)) => match dec_entries(b, i + 1 + c1 + c2, d, depth) {
                        Err(e) => Err(e),
                        Ok((rest, c3)) => Ok(
                            (seq![(name, t)] + rest, (1 + c1 + c2 + c3) as nat),
                        ),
                    },
                },
            }
        }
    }
}

/// Reading `n` list elements, all of tag id `etag`, at position `i`: the
/// elements and the bytes consumed.
pub open spec fn dec_elems(
    b: Seq<u8>,
    i: int,
    etag: u8,
    n: nat,
    d: NbtVersion,
    depth: nat,
) -> Result<(Seq<NbtTree>, nat), DecodeError>
    decreases 3 * room(b, i) + 2, n,
{
    if n == 0 {
        Ok((Seq::empty(), 0))
    } else {
        match dec_payload(b, i, etag, d, depth) {
            Err(e) => Err(e),
            Ok((t, c)) => match dec_elems(b, i + c, etag, (n - 1) as nat, d, depth) {
                Err(e) => Err(e),
                Ok((rest, c2)) => Ok((seq![t] + rest, (c + c2) as nat)),
            },
        }
    }
}

/// The tree a root compound decodes to once its wire name is known.
pub open spec fn with_root_name(t: NbtTree, name: Seq<char>) -> NbtTree {
    match t {
        NbtTree::Compound(_, entries) => NbtTree::Compound(Some(name), entries),
        _ => t,
    }
}

/// Decoding a whole value starting at position `i` under dialect `d`: one
/// tag id, then (under named-root dialects) the root's name, then the root
/// payload.  Bytes after the root value are ignored.
pub open spec fn dec_root(b: Seq<u8>, i: int, d: NbtVersion, depth: nat) -> Result<
    NbtTree,
    DecodeError,
> {
    if !(0 <= i && i + 1 <= b.len()) {
        Err(DecodeError::UnexpectedEof)
    } else {
        let tag = b[i];
        if tag == 0 {
            Err(DecodeError::InvalidRootTag)
        } else if tag > 12 {
            Err(DecodeError::UnknownTag)
        } else if d.spec_root_named() {
            match dec_str(b, i + 1, d) {
                Err(e) => Err(e),
                Ok((name, c)) => match dec_payload(b, i + 1 + c as int, tag, d, depth) {
                    Err(e) => Err(e),
                    Ok((t, _)) => Ok(with_root_name(t, name)),
                },
            }
        } else {
            match dec_payload(b, i + 1, tag, d, depth) {
                Err(e) => Err(e),
                Ok((t, _)) => Ok(t),
            }
        }
    }
}

/// The element tag id a list writes: its first element's tag, or the end
/// sentinel for an empty list.
pub open spec fn elem_tag(es: Seq<NbtTree>) -> u8 {
    if es.len() == 0 {
        0
    } else {
        es[0].tag()
    }
}

/// The payload bytes of a tree under dialect `d`.
pub open spec fn enc_payload(t: NbtTree, d: NbtVersion) -> Seq<u8>
    decreases t, 0int,
{
    match t {
        NbtTree::Byte(x) => seq![x as u8],
        NbtTree::Short(x) => enc_word(x as u16 as nat, 2, d),
        NbtTree::Int(x) => enc_word(x as u32 as nat, 4, d),
        NbtTree::Long(x) => enc_word(x as u64 as nat, 8, d),
        NbtTree::Float(bits) => enc_word(bits as nat, 4, d),
        NbtTree::Double(bits) => enc_word(bits as nat, 8, d),
        NbtTree::ByteArray(a) => enc_count(a.len(), d) + a.map_values(|x: i8| x as u8),
        NbtTree::String(s) => enc_str(s, d),
        NbtTree::List(es) => seq![elem_tag(es)] + enc_count(es.len(), d) + enc_elems(es, 0, d),
        NbtTree::Compound(_, entries) => enc_entries(entries, 0, d) + seq![0u8],
        NbtTree::IntArray(a) => enc_count(a.len(), d) + enc_i32s(a, 0, d),
        NbtTree::LongArray(a) => enc_count(a.len(), d) + enc_i64s(a, 0, d),
    }
}

/// The concatenated payloads of the list elements from index `k` on.
pub open spec fn enc_elems(es: Seq<NbtTree>, k: int, d: NbtVersion) -> Seq<u8>
    decreases es, 1int, es.len() - k,
{
    if !(0 <= k && k < es.len()) {
        Seq::empty()
    } else {
        enc_payload(es[k], d) + enc_elems(es, k + 1, d)
    }
}

/// The concatenated wire form of the compound pairs from index `k` on:
/// each pair is the value's tag id, the name, then the value's payload.
pub open spec fn enc_entries(entries: Seq<(Seq<char>, NbtTree)>, k: int, d: NbtVersion) -> Seq<u8>
    decreases entries, 1int, entries.len() - k,
{
    if !(0 <= k && k < entries.len()) {
        Seq::empty()
    } else {
        seq![entries[k].1.tag()] + enc_str(entries[k].0, d) + enc_payload(entries[k].1, d)
            + enc_entries(entries, k + 1, d)
    }
}

/// The concatenated encodings of the 32-bit array elements from index `k`
/// on.
pub open spec fn enc_i32s(a: Seq<i32>, k: int, d: NbtVersion) -> Seq<u8>
    decreases a.len() - k,
{
    if !(0 <= k && k < a.len()) {
        Seq::empty()
    } else {
        enc_word(a[k] as u32 as nat, 4, d) + enc_i32s(a, k + 1, d)
    }
}

/// The concatenated encodings of the 64-bit array elements from index `k`
/// on.
pub open spec fn enc_i64s(a: Seq<i64>, k: int, d: NbtVersion) -> Seq<u8>
    decreases a.len() - k,
{
    if !(0 <= k && k < a.len()) {
        Seq::empty()
    } else {
        enc_word(a[k] as u64 as nat, 8, d) + enc_i64s(a, k + 1, d)
    }
}

/// The name written after the root tag under named-root dialects: a root
/// compound's own name, or the empty name for any other root value.
pub open spec fn root_name(t: NbtTree) -> Seq<char> {
    match t {
        NbtTree::Compound(Some(name), _) => name,
        _ => Seq::empty(),
    }
}

/// The whole buffer a tree encodes to under dialect `d`.
pub open spec fn enc_root(t: NbtTree, d: NbtVersion) -> Seq<u8> {
    seq![t.tag()] + (if d.spec_root_named() {
        enc_str(root_name(t), d)
    } else {
        Seq::empty()
    }) + enc_payload(t, d)
}

} // verus!
