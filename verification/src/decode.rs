//! The recursive decoder: drives a byte cursor according to a dialect
//! descriptor to build a value tree, enforcing the format's invariants.
//! Every function is verified to return exactly what the mathematical
//! decoder (`dec_root` and its helpers) says the buffer holds.

use vstd::prelude::*;

use crate::model::DecodeError;
use crate::model::NbtTree;
use crate::model::NbtVersion;
use crate::model::MAX_DEPTH;
use crate::reader::NbtReader;
use crate::spec_codec::dec_count;
use crate::spec_codec::dec_elems;
use crate::spec_codec::dec_entries;
use crate::spec_codec::dec_payload;
use crate::spec_codec::dec_root;
use crate::spec_codec::dec_str;
use crate::spec_codec::room;
use crate::spec_codec::word_at;
use crate::value::lemma_view_entries_push;
use crate::value::lemma_view_list_push;
use crate::value::view_entries;
use crate::value::view_list;
use crate::value::NbtValue;
use crate::words::lemma_pow128_values;
use crate::words::lemma_pow256_values;
use crate::words::lemma_varint_val_bound;

verus! {

broadcast use vstd::seq::group_seq_axioms;

/// A partial run of the compound-body reader, continued: the pairs already
/// read and the bytes already consumed, composed with what reading on from
/// the current position returns.
pub open spec fn entries_step(
    pre: Result<(Seq<(Seq<char>, NbtTree)>, nat), DecodeError>,
    acc: Seq<(Seq<char>, NbtTree)>,
    delta: nat,
) -> Result<(Seq<(Seq<char>, NbtTree)>, nat), DecodeError> {
    match pre {
        Ok((rest, c)) => Ok((acc + rest, (delta + c) as nat)),
        Err(e) => Err(e),
    }
}

/// A partial run of the list-element reader, continued.
pub open spec fn elems_step(
    pre: Result<(Seq<NbtTree>, nat), DecodeError>,
    acc: Seq<NbtTree>,
    delta: nat,
) -> Result<(Seq<NbtTree>, nat), DecodeError> {
    match pre {
        Ok((rest, c)) => Ok((acc + rest, (delta + c) as nat)),
        Err(e) => Err(e),
    }
}

/// Read one array or list count in the dialect's length encoding, mapping a
/// negative fixed-width count to `UnexpectedEof` as the payload readers
/// demand.  A returned count is below `2^35`.
fn read_count(reader: &mut NbtReader, version: NbtVersion) -> (r: Result<u64, DecodeError>)
    ensures
        final(reader).data@ == old(reader).data@,
        (match dec_count(old(reader).data@, old(reader).cursor as int, version) {
            Ok((n, c)) => if n >= 0 {
                &&& r is Ok
                &&& r->Ok_0 == n
                &&& r->Ok_0 < 0x8_0000_0000u64
                &&& final(reader).cursor == old(reader).cursor + c
                &&& final(reader).cursor <= final(reader).data@.len()
            } else {
                r == Err::<u64, DecodeError>(DecodeError::UnexpectedEof)
            },
            Err(e) => r is Err && r->Err_0 == e,
        }),
{
    if version.varint_lengths() {
        let ghost b = reader.data@;
        let ghost i = reader.cursor as int;
        match reader.read_varint() {
            Ok(v) => {
                proof {
                    lemma_varint_val_bound(b, i, 5);
                    lemma_pow128_values();
                }
                Ok(v)
            },
            Err(e) => Err(e),
        }
    } else {
        match reader.try_read_word(4, version.big_endian()) {
            Ok(w) => {
                proof {
                    lemma_pow256_values();
                }
                let sv = (w as u32) as i32;
                if sv >= 0 {
                    Ok(sv as u64)
                } else {
                    Err(DecodeError::UnexpectedEof)
                }
            },
            Err(e) => Err(e),
        }
    }
}

/// Read `cnt` 32-bit words in the dialect's byte order.
fn read_i32s(reader: &mut NbtReader, cnt: u64, version: NbtVersion) -> (r: Vec<i32>)
    requires
        old(reader).cursor + 4 * cnt <= old(reader).data@.len(),
    ensures
        final(reader).data@ == old(reader).data@,
        final(reader).cursor == old(reader).cursor + 4 * cnt,
        r@ == Seq::new(
            cnt as nat,
            |j: int|
                word_at(
                    old(reader).data@,
                    old(reader).cursor + 4 * j,
                    4,
                    version,
                ) as u32 as i32,
        ),
{
    proof {
        vstd::std_specs::vec::axiom_spec_len(&reader.data);
    }
    let big = version.big_endian();
    let ghost c = reader.cursor as int;
    let ghost b = reader.data@;
    let cntu = cnt as usize;
    let mut out: Vec<i32> = Vec::new();
    let mut k: usize = 0;
    while k < cntu
        invariant
            0 <= k <= cntu,
            cntu == cnt,
            big == version.spec_big_endian(),
            c + 4 * cnt <= b.len(),
            b == old(reader).data@,
            c == old(reader).cursor,
            reader.data@ == b,
            reader.cursor == c + 4 * k,
            out@ == Seq::new(k as nat, |j: int| word_at(b, c + 4 * j, 4, version) as u32 as i32),
        decreases cntu - k,
    {
        let w = reader.read_word(4, big);
        out.push(w as u32 as i32);
        k = k + 1;
        proof {
            assert(out@ =~= Seq::new(
                k as nat,
                |j: int| word_at(b, c + 4 * j, 4, version) as u32 as i32,
            ));
        }
    }
    out
}

/// Read `cnt` 64-bit words in the dialect's byte order.
fn read_i64s(reader: &mut NbtReader, cnt: u64, version: NbtVersion) -> (r: Vec<i64>)
    requires
        old(reader).cursor + 8 * cnt <= old(reader).data@.len(),
    ensures
        final(reader).data@ == old(reader).data@,
        final(reader).cursor == old(reader).cursor + 8 * cnt,
        r@ == Seq::new(
            cnt as nat,
            |j: int|
                word_at(
                    old(reader).data@,
                    old(reader).cursor + 8 * j,
                    8,
                    version,
                ) as u64 as i64,
        ),
{
    proof {
        vstd::std_specs::vec::axiom_spec_len(&reader.data);
    }
    let big = version.big_endian();
    let ghost c = reader.cursor as int;
    let ghost b = reader.data@;
    let cntu = cnt as usize;
    let mut out: Vec<i64> = Vec::new();
    let mut k: usize = 0;
    while k < cntu
        invariant
            0 <= k <= cntu,
            cntu == cnt,
            big == version.spec_big_endian(),
            c + 8 * cnt <= b.len(),
            b == old(reader).data@,
            c == old(reader).cursor,
            reader.data@ == b,
            reader.cursor == c + 8 * k,
            out@ == Seq::new(k as nat, |j: int| word_at(b, c + 8 * j, 8, version) as u64 as i64),
        decreases cntu - k,
    {
        let w = reader.read_word(8, big);
        out.push(w as i64);
        k = k + 1;
        proof {
            assert(out@ =~= Seq::new(
                k as nat,
                |j: int| word_at(b, c + 8 * j, 8, version) as u64 as i64,
            ));
        }
    }
    out
}

/// Read the elements of a list whose element tag and count were already
/// consumed, with `depth` levels left for the elements themselves.
fn read_list_elems(
    reader: &mut NbtReader,
    etag: u8,
    cnt: u64,
    version: NbtVersion,
    depth: u32,
) -> (r: Result<Vec<NbtValue>, DecodeError>)
    ensures
        final(reader).data@ == old(reader).data@,
        (match dec_elems(
            old(reader).data@,
            old(reader).cursor as int,
            etag,
            cnt as nat,
            version,
            depth as nat,
        ) {
            Ok((es, c)) => {
                &&& r is Ok
                &&& view_list(r->Ok_0@) == es
                &&& final(reader).cursor == old(reader).cursor + c
                &&& (cnt > 0 ==> final(reader).cursor <= final(reader).data@.len())
            },
            Err(e) => r is Err && r->Err_0 == e,
        }),
    decreases depth, 2int,
{
    let ghost b = reader.data@;
    let ghost q0 = reader.cursor as int;
    let mut elems: Vec<NbtValue> = Vec::new();
    let mut k: u64 = 0;
    while k < cnt
        invariant
            0 <= k <= cnt,
            b == old(reader).data@,
            q0 == old(reader).cursor,
            reader.data@ == b,
            q0 <= reader.cursor as int,
            k > 0 ==> reader.cursor <= b.len(),
            view_list(elems@).len() == k,
            dec_elems(b, q0, etag, cnt as nat, version, depth as nat) == elems_step(
                dec_elems(b, reader.cursor as int, etag, (cnt - k) as nat, version, depth as nat),
                view_list(elems@),
                (reader.cursor - q0) as nat,
            ),
        decreases cnt - k,
    {
        let ghost p = reader.cursor as int;
        let ghost acc = view_list(elems@);
        let v = match read_payload(reader, etag, version, depth) {
            Ok(v) => v,
            Err(e) => {
                return Err(e);
            },
        };
        proof {
            crate::value::lemma_view_list(elems@);
            lemma_view_list_push(elems@, v);
        }
        elems.push(v);
        k = k + 1;
        proof {
            if let Ok((t, c)) = dec_payload(b, p, etag, version, depth as nat) {
                if let Ok((rest, c2)) = dec_elems(
                    b,
                    p + c,
                    etag,
                    (cnt - k) as nat,
                    version,
                    depth as nat,
                ) {
                    assert((acc + seq![t]) + rest =~= acc + (seq![t] + rest));
                }
            }
        }
    }
    proof {
        assert(view_list(elems@) + Seq::<NbtTree>::empty() =~= view_list(elems@));
    }
    Ok(elems)
}

/// Read the pairs of a compound body up to and including the end sentinel,
/// with `depth` levels left for the compound itself (its children sit one
/// level deeper).
fn read_compound_body(reader: &mut NbtReader, version: NbtVersion, depth: u32) -> (r: Result<
    Vec<(String, NbtValue)>,
    DecodeError,
>)
    requires
        depth >= 1,
    ensures
        final(reader).data@ == old(reader).data@,
        (match dec_entries(old(reader).data@, old(reader).cursor as int, version, depth as nat) {
            Ok((ens, c)) => {
                &&& r is Ok
                &&& view_entries(r->Ok_0@) == ens
                &&& final(reader).cursor == old(reader).cursor + c
                &&& final(reader).cursor <= final(reader).data@.len()
            },
            Err(e) => r is Err && r->Err_0 == e,
        }),
    decreases depth, 0int,
{
    let ghost b = reader.data@;
    let ghost i0 = reader.cursor as int;
    let mut entries: Vec<(String, NbtValue)> = Vec::new();
    loop
        invariant
            depth >= 1,
            b == old(reader).data@,
            i0 == old(reader).cursor,
            reader.data@ == b,
            i0 <= reader.cursor as int,
            dec_entries(b, i0, version, depth as nat) == entries_step(
                dec_entries(b, reader.cursor as int, version, depth as nat),
                view_entries(entries@),
                (reader.cursor - i0) as nat,
            ),
        decreases room(b, reader.cursor as int),
    {
        proof {
            vstd::std_specs::vec::axiom_spec_len(&reader.data);
        }
        let ghost p = reader.cursor as int;
        let ghost acc = view_entries(entries@);
        if reader.cursor >= reader.data.len() {
            return Err(DecodeError::UnexpectedEof);
        }
        let etag = reader.read_u8();
        if etag == 0 {
            proof {
                assert(view_entries(entries@) + Seq::<(Seq<char>, NbtTree)>::empty()
                    =~= view_entries(entries@));
            }
            return Ok(entries);
        }
        if etag > 12 {
            return Err(DecodeError::UnknownTag);
        }
        let name = match reader.read_nbt_string(version) {
            Ok(s) => s,
            Err(e) => {
                return Err(e);
            },
        };
        let v = match read_payload(reader, etag, version, depth - 1) {
            Ok(v) => v,
            Err(e) => {
                return Err(e);
            },
        };
        proof {
            lemma_view_entries_push(entries@, name, v);
        }
        entries.push((name, v));
        proof {
            if let Ok((name_s, c1)) = dec_str(b, p + 1, version) {
                if let Ok((t, c2)) = dec_payload(
                    b,
                    p + 1 + c1 as int,
                    etag,
                    version,
                    (depth - 1) as nat,
                ) {
                    if let Ok((rest, c3)) = dec_entries(
                        b,
                        p + 1 + c1 + c2,
                        version,
                        depth as nat,
                    ) {
                        assert((acc + seq![(name_s, t)]) + rest =~= acc + (seq![(name_s, t)]
                            + rest));
                    }
                }
            }
        }
    }
}

/// Read a scalar payload (tag ids 1 through 6).
fn read_scalar_payload(
    reader: &mut NbtReader,
    tag: u8,
    version: NbtVersion,
    Ghost(depth): Ghost<nat>,
) -> (r: Result<NbtValue, DecodeError>)
    requires
        1 <= tag <= 6,
        depth >= 1,
    ensures
        final(reader).data@ == old(reader).data@,
        (match dec_payload(old(reader).data@, old(reader).cursor as int, tag, version, depth) {
            Ok((t, c)) => {
                &&& r is Ok
                &&& r->Ok_0@ == t
                &&& final(reader).cursor == old(reader).cursor + c
                &&& final(reader).cursor <= final(reader).data@.len()
            },
            Err(e) => r is Err && r->Err_0 == e,
        }),
{
    proof {
        vstd::std_specs::vec::axiom_spec_len(&reader.data);
        lemma_pow256_values();
    }
    let ghost b = reader.data@;
    let ghost i = reader.cursor as int;
    if tag == 1 {
        match reader.try_read_word(1, true) {
            Ok(w) => {
                proof {
                    assert(b.subrange(i, i + 1).drop_last() =~= Seq::<u8>::empty());
                    assert(b.subrange(i, i + 1).last() == b[i]);
                }
                Ok(NbtValue::Byte(w as u8 as i8))
            },
            Err(e) => Err(e),
        }
    } else if tag == 2 {
        match reader.try_read_word(2, version.big_endian()) {
            Ok(w) => Ok(NbtValue::Short(w as u16 as i16)),
            Err(e) => Err(e),
        }
    } else if tag == 3 {
        match reader.try_read_word(4, version.big_endian()) {
            Ok(w) => Ok(NbtValue::Int(w as u32 as i32)),
            Err(e) => Err(e),
        }
    } else if tag == 4 {
        match reader.try_read_word(8, version.big_endian()) {
            Ok(w) => Ok(NbtValue::Long(w as i64)),
            Err(e) => Err(e),
        }
    } else if tag == 5 {
        match reader.try_read_word(4, version.big_endian()) {
            Ok(w) => Ok(NbtValue::Float(w as u32)),
            Err(e) => Err(e),
        }
    } else {
        match reader.try_read_word(8, version.big_endian()) {
            Ok(w) => Ok(NbtValue::Double(w)),
            Err(e) => Err(e),
        }
    }
}

/// Read an array payload (tag ids 7, 11 and 12): a count, then that many
/// elements of the tag's width.
fn read_array_payload(
    reader: &mut NbtReader,
    tag: u8,
    version: NbtVersion,
    Ghost(depth): Ghost<nat>,
) -> (r: Result<NbtValue, DecodeError>)
    requires
        tag == 7 || tag == 11 || tag == 12,
        depth >= 1,
    ensures
        final(reader).data@ == old(reader).data@,
        (match dec_payload(old(reader).data@, old(reader).cursor as int, tag, version, depth) {
            Ok((t, c)) => {
                &&& r is Ok
                &&& r->Ok_0@ == t
                &&& final(reader).cursor == old(reader).cursor + c
                &&& final(reader).cursor <= final(reader).data@.len()
            },
            Err(e) => r is Err && r->Err_0 == e,
        }),
{
    let cnt = match read_count(reader, version) {
        Ok(n) => n,
        Err(e) => {
            return Err(e);
        },
    };
    proof {
        vstd::std_specs::vec::axiom_spec_len(&reader.data);
    }
    if tag == 7 {
        if reader.cursor <= reader.data.len() && cnt <= (reader.data.len() - reader.cursor)
            as u64 {
            let bytes = reader.read_i8_array(cnt as usize);
            Ok(NbtValue::ByteArray(bytes))
        } else {
            Err(DecodeError::UnexpectedEof)
        }
    } else if tag == 11 {
        if reader.cursor <= reader.data.len() && 4 * cnt <= (reader.data.len() - reader.cursor)
            as u64 {
            let vals = read_i32s(reader, cnt, version);
            Ok(NbtValue::IntArray(vals))
        } else {
            Err(DecodeError::UnexpectedEof)
        }
    } else {
        if reader.cursor <= reader.data.len() && 8 * cnt <= (reader.data.len() - reader.cursor)
            as u64 {
            let vals = read_i64s(reader, cnt, version);
            Ok(NbtValue::LongArray(vals))
        } else {
            Err(DecodeError::UnexpectedEof)
        }
    }
}


/// Read the payload of a value with tag id `tag` at the cursor, with
/// `depth` nesting levels left: exactly what `dec_payload` says the buffer
/// holds there, as a value tree.
fn read_payload(reader: &mut NbtReader, tag: u8, version: NbtVersion, depth: u32) -> (r: Result<
    NbtValue,
    DecodeError,
>)
    ensures
        final(reader).data@ == old(reader).data@,
        (match dec_payload(
            old(reader).data@,
            old(reader).cursor as int,
            tag,
            version,
            depth as nat,
        ) {
            Ok((t, c)) => {
                &&& r is Ok
                &&& r->Ok_0@ == t
                &&& final(reader).cursor == old(reader).cursor + c
                &&& final(reader).cursor <= final(reader).data@.len()
            },
            Err(e) => r is Err && r->Err_0 == e,
        }),
    decreases depth, 1int,
{
    proof {
        vstd::std_specs::vec::axiom_spec_len(&reader.data);
    }
    if depth == 0 {
        return Err(DecodeError::NestingTooDeep);
    }
    if 1 <= tag && tag <= 6 {
        read_scalar_payload(reader, tag, version, Ghost(depth as nat))
    } else if tag == 7 || tag == 11 || tag == 12 {
        read_array_payload(reader, tag, version, Ghost(depth as nat))
    } else if tag == 8 {
        match reader.read_nbt_string(version) {
            Ok(s) => Ok(NbtValue::String(s)),
            Err(e) => Err(e),
        }
    } else if tag == 9 {
        if reader.cursor >= reader.data.len() {
            return Err(DecodeError::UnexpectedEof);
        }
        let etag = reader.read_u8();
        let cnt = match read_count(reader, version) {
            Ok(n) => n,
            Err(e) => {
                return Err(e);
            },
        };
        match read_list_elems(reader, etag, cnt, version, depth - 1) {
            Ok(elems) => Ok(NbtValue::List(elems)),
            Err(e) => Err(e),
        }
    } else if tag == 10 {
        match read_compound_body(reader, version, depth) {
            Ok(entries) => Ok(NbtValue::Compound(None, entries)),
            Err(e) => Err(e),
        }
    } else {
        Err(DecodeError::UnknownTag)
    }
}

impl NbtValue {
    /// Decode one value from the reader's position under dialect `version`:
    /// a tag id, the root's name where the dialect writes one, then the
    /// payload.  Bytes after the value are ignored.  The result is exactly
    /// what the mathematical decoder says: the tree the buffer holds, or
    /// the first error the format demands.
    pub fn from_reader(reader: NbtReader, version: NbtVersion) -> (r: Result<
        NbtValue,
        DecodeError,
    >)
        ensures
            (match dec_root(reader.data@, reader.cursor as int, version, MAX_DEPTH as nat) {
                Ok(t) => r is Ok && r->Ok_0@ == t,
                Err(e) => r is Err && r->Err_0 == e,
            }),
    {
        let mut reader = reader;
        proof {
            vstd::std_specs::vec::axiom_spec_len(&reader.data);
        }
        if reader.cursor >= reader.data.len() {
            return Err(DecodeError::UnexpectedEof);
        }
        let tag = reader.read_u8();
        if tag == 0 {
            return Err(DecodeError::InvalidRootTag);
        }
        if tag > 12 {
            return Err(DecodeError::UnknownTag);
        }
        if version.root_named() {
            let name = match reader.read_nbt_string(version) {
                Ok(s) => s,
                Err(e) => {
                    return Err(e);
                },
            };
            let v = match read_payload(&mut reader, tag, version, MAX_DEPTH) {
                Ok(v) => v,
                Err(e) => {
                    return Err(e);
                },
            };
            match v {
                NbtValue::Compound(_, entries) => Ok(NbtValue::Compound(Some(name), entries)),
                other => Ok(other),
            }
        } else {
            match read_payload(&mut reader, tag, version, MAX_DEPTH) {
                Ok(v) => Ok(v),
                Err(e) => Err(e),
            }
        }
    }

    /// Decode a whole buffer under dialect `version`.
    pub fn from_binary(data: Vec<u8>, version: NbtVersion) -> (r: Result<NbtValue, DecodeError>)
        ensures
            (match dec_root(data@, 0, version, MAX_DEPTH as nat) {
                Ok(t) => r is Ok && r->Ok_0@ == t,
                Err(e) => r is Err && r->Err_0 == e,
            }),
    {
        NbtValue::from_reader(NbtReader::new(data), version)
    }
}

} // verus!
