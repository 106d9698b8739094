//! The laws of the codec, proved about the mathematical encoder and
//! decoder: decoding an encoding returns the original tree under every
//! dialect, decoding is deterministic, and nesting beyond the depth bound
//! fails with `NestingTooDeep`.

use vstd::prelude::*;
use vstd::utf8::encode_utf8;
use vstd::utf8::encode_utf8_decode_utf8;
use vstd::utf8::encode_utf8_valid_utf8;

use crate::model::depth_ok;
use crate::model::elems_depth_ok;
use crate::model::entries_depth_ok;
use crate::model::strip_root_name;
use crate::model::wf_elems;
use crate::model::wf_entries;
use crate::model::wf_nbt;
use crate::model::wf_payload;
use crate::model::DecodeError;
use crate::model::NbtTree;
use crate::model::NbtVersion;
use crate::model::MAX_DEPTH;
use crate::spec_codec::chars_of_bytes;
use crate::spec_codec::dec_count;
use crate::spec_codec::dec_elems;
use crate::spec_codec::dec_entries;
use crate::spec_codec::dec_payload;
use crate::spec_codec::dec_root;
use crate::spec_codec::dec_str;
use crate::spec_codec::dec_strlen;
use crate::spec_codec::elem_tag;
use crate::spec_codec::enc_count;
use crate::spec_codec::enc_elems;
use crate::spec_codec::enc_entries;
use crate::spec_codec::enc_i32s;
use crate::spec_codec::enc_i64s;
use crate::spec_codec::enc_payload;
use crate::spec_codec::enc_root;
use crate::spec_codec::enc_str;
use crate::spec_codec::enc_strlen;
use crate::spec_codec::enc_word;
use crate::spec_codec::root_name;
use crate::spec_codec::with_root_name;
use crate::spec_codec::word_at;
use crate::words::lemma_be_bytes_len;
use crate::words::lemma_be_round_trip;
use crate::words::lemma_le_bytes_len;
use crate::words::lemma_le_round_trip;
use crate::words::lemma_pow128_values;
use crate::words::lemma_pow256_values;
use crate::words::lemma_varint_len;
use crate::words::lemma_varint_round_trip;
use crate::words::pow256;
use crate::words::varint_bytes;
use crate::words::varint_val;

verus! {

broadcast use vstd::seq::group_seq_axioms;

/// A buffer region equal to a concatenation splits into regions equal to
/// the parts.
proof fn lemma_split_chunk(b: Seq<u8>, i: int, x: Seq<u8>, y: Seq<u8>)
    requires
        0 <= i,
        i + x.len() + y.len() <= b.len(),
        b.subrange(i, i + x.len() + y.len()) == x + y,
    ensures
        b.subrange(i, i + x.len() as int) == x,
        b.subrange(i + x.len() as int, i + x.len() + y.len()) == y,
{
    let whole = b.subrange(i, i + x.len() + y.len());
    assert forall|j: int| 0 <= j < x.len() implies b.subrange(i, i + x.len() as int)[j] == x[j] by {
        assert(whole[j] == (x + y)[j]);
    }
    assert(b.subrange(i, i + x.len() as int) =~= x);
    assert forall|j: int|
        0 <= j < y.len() implies b.subrange(i + x.len() as int, i + x.len() + y.len())[j]
        == y[j] by {
        assert(whole[x.len() + j] == (x + y)[x.len() + j]);
    }
    assert(b.subrange(i + x.len() as int, i + x.len() + y.len()) =~= y);
}

/// The first byte of a matched region is the chunk's first byte.
proof fn lemma_chunk_first(b: Seq<u8>, i: int, x: Seq<u8>)
    requires
        0 <= i,
        i + x.len() <= b.len(),
        x.len() >= 1,
        b.subrange(i, i + x.len() as int) == x,
    ensures
        b[i] == x[0],
{
    assert(b.subrange(i, i + x.len() as int)[0] == x[0]);
}

/// A region equal to a three-part concatenation splits into its parts.
proof fn lemma_split_chunk3(b: Seq<u8>, i: int, x: Seq<u8>, y: Seq<u8>, z: Seq<u8>)
    requires
        0 <= i,
        i + x.len() + y.len() + z.len() <= b.len(),
        b.subrange(i, i + x.len() + y.len() + z.len()) == x + y + z,
    ensures
        b.subrange(i, i + x.len() as int) == x,
        b.subrange(i + x.len() as int, i + x.len() + y.len()) == y,
        b.subrange(i + x.len() + y.len(), i + x.len() + y.len() + z.len()) == z,
{
    lemma_split_chunk(b, i, x + y, z);
    lemma_split_chunk(b, i, x, y);
}

/// A region equal to a four-part concatenation splits into its parts.
proof fn lemma_split_chunk4(b: Seq<u8>, i: int, x: Seq<u8>, y: Seq<u8>, z: Seq<u8>, w: Seq<u8>)
    requires
        0 <= i,
        i + x.len() + y.len() + z.len() + w.len() <= b.len(),
        b.subrange(i, i + x.len() + y.len() + z.len() + w.len()) == x + y + z + w,
    ensures
        b.subrange(i, i + x.len() as int) == x,
        b.subrange(i + x.len() as int, i + x.len() + y.len()) == y,
        b.subrange(i + x.len() + y.len(), i + x.len() + y.len() + z.len()) == z,
        b.subrange(i + x.len() + y.len() + z.len(), i + x.len() + y.len() + z.len() + w.len())
            == w,
{
    lemma_split_chunk(b, i, x + y + z, w);
    lemma_split_chunk3(b, i, x, y, z);
}

/// The `n`-byte word written at position `i` reads back as its value.
proof fn lemma_read_enc_word(b: Seq<u8>, i: int, v: nat, n: nat, d: NbtVersion)
    requires
        v < pow256(n),
        0 <= i,
        i + n <= b.len(),
        b.subrange(i, i + enc_word(v, n, d).len() as int) == enc_word(v, n, d),
        enc_word(v, n, d).len() == n,
    ensures
        word_at(b, i, n as int, d) == v,
{
    if d.spec_big_endian() {
        lemma_be_round_trip(v, n);
    } else {
        lemma_le_round_trip(v, n);
    }
}

/// The length of an encoded word field.
proof fn lemma_enc_word_len(v: nat, n: nat, d: NbtVersion)
    ensures
        enc_word(v, n, d).len() == n,
{
    lemma_be_bytes_len(v, n);
    lemma_le_bytes_len(v, n);
}

/// A count written at position `i` reads back as itself, consuming exactly
/// the count field.
proof fn lemma_dec_enc_count(b: Seq<u8>, i: int, n: nat, d: NbtVersion)
    requires
        n <= d.max_count(),
        0 <= i,
        i + enc_count(n, d).len() <= b.len(),
        b.subrange(i, i + enc_count(n, d).len() as int) == enc_count(n, d),
    ensures
        dec_count(b, i, d) == Ok::<(int, nat), DecodeError>((n as int, enc_count(n, d).len() as nat)),
        enc_count(n, d).len() >= 1,
{
    lemma_pow128_values();
    lemma_pow256_values();
    if d.spec_varint_lengths() {
        lemma_varint_len(n, 5);
        lemma_varint_round_trip(b, i, n, 5);
    } else {
        lemma_enc_word_len(n, 4, d);
        lemma_read_enc_word(b, i, n, 4, d);
        assert(word_at(b, i, 4, d) as u32 == n);
        assert((n as u32 as i32) as int == n as int);
    }
}

/// A string length written at position `i` reads back as itself.
proof fn lemma_dec_enc_strlen(b: Seq<u8>, i: int, n: nat, d: NbtVersion)
    requires
        n <= d.max_str_bytes(),
        0 <= i,
        i + enc_strlen(n, d).len() <= b.len(),
        b.subrange(i, i + enc_strlen(n, d).len() as int) == enc_strlen(n, d),
    ensures
        dec_strlen(b, i, d) == Ok::<(nat, nat), DecodeError>((n, enc_strlen(n, d).len() as nat)),
        enc_strlen(n, d).len() >= 1,
{
    lemma_pow128_values();
    lemma_pow256_values();
    if d.spec_varint_lengths() {
        lemma_varint_len(n, 5);
        lemma_varint_round_trip(b, i, n, 5);
    } else {
        lemma_enc_word_len(n, 2, d);
        lemma_read_enc_word(b, i, n, 2, d);
    }
}

/// A string written at position `i` reads back as its characters,
/// consuming exactly its wire form.
proof fn lemma_dec_enc_str(b: Seq<u8>, i: int, s: Seq<char>, d: NbtVersion)
    requires
        encode_utf8(s).len() <= d.max_str_bytes(),
        0 <= i,
        i + enc_str(s, d).len() <= b.len(),
        b.subrange(i, i + enc_str(s, d).len() as int) == enc_str(s, d),
    ensures
        dec_str(b, i, d) == Ok::<(Seq<char>, nat), DecodeError>((s, enc_str(s, d).len() as nat)),
{
    let u = encode_utf8(s);
    let lenf = enc_strlen(u.len(), d);
    lemma_split_chunk(b, i, lenf, u);
    lemma_dec_enc_strlen(b, i, u.len(), d);
    let j = i + lenf.len();
    assert(b.subrange(j, j + u.len() as int) == u);
    encode_utf8_valid_utf8(s);
    encode_utf8_decode_utf8(s);
    assert(chars_of_bytes(u) == s);
}


/// The length of an encoded 32-bit array body.
proof fn lemma_enc_i32s_len(a: Seq<i32>, k: int, d: NbtVersion)
    requires
        0 <= k <= a.len(),
    ensures
        enc_i32s(a, k, d).len() == 4 * (a.len() - k),
    decreases a.len() - k,
{
    if k < a.len() {
        lemma_enc_word_len(a[k] as u32 as nat, 4, d);
        lemma_enc_i32s_len(a, k + 1, d);
    }
}

/// The length of an encoded 64-bit array body.
proof fn lemma_enc_i64s_len(a: Seq<i64>, k: int, d: NbtVersion)
    requires
        0 <= k <= a.len(),
    ensures
        enc_i64s(a, k, d).len() == 8 * (a.len() - k),
    decreases a.len() - k,
{
    if k < a.len() {
        lemma_enc_word_len(a[k] as u64 as nat, 8, d);
        lemma_enc_i64s_len(a, k + 1, d);
    }
}

/// Each element of a 32-bit array body written at `i` reads back as itself.
proof fn lemma_read_enc_i32s(b: Seq<u8>, i: int, a: Seq<i32>, k: int, d: NbtVersion)
    requires
        0 <= k <= a.len(),
        0 <= i,
        i + 4 * (a.len() - k) <= b.len(),
        b.subrange(i, i + 4 * (a.len() - k)) == enc_i32s(a, k, d),
    ensures
        forall|j: int|
            k <= j < a.len() ==> word_at(b, i + 4 * (j - k), 4, d) == (#[trigger] a[j]) as u32
                as nat,
    decreases a.len() - k,
{
    if k < a.len() {
        let w = enc_word(a[k] as u32 as nat, 4, d);
        lemma_enc_word_len(a[k] as u32 as nat, 4, d);
        lemma_enc_i32s_len(a, k + 1, d);
        lemma_split_chunk(b, i, w, enc_i32s(a, k + 1, d));
        lemma_pow256_values();
        lemma_read_enc_word(b, i, a[k] as u32 as nat, 4, d);
        lemma_read_enc_i32s(b, i + 4, a, k + 1, d);
        assert forall|j: int|
            k <= j < a.len() implies word_at(b, i + 4 * (j - k), 4, d) == (#[trigger] a[j]) as u32
            as nat by {
            if j > k {
                assert(word_at(b, i + 4 + 4 * (j - (k + 1)), 4, d) == a[j] as u32 as nat);
                assert(i + 4 + 4 * (j - (k + 1)) == i + 4 * (j - k));
            }
        }
    }
}

/// Each element of a 64-bit array body written at `i` reads back as itself.
proof fn lemma_read_enc_i64s(b: Seq<u8>, i: int, a: Seq<i64>, k: int, d: NbtVersion)
    requires
        0 <= k <= a.len(),
        0 <= i,
        i + 8 * (a.len() - k) <= b.len(),
        b.subrange(i, i + 8 * (a.len() - k)) == enc_i64s(a, k, d),
    ensures
        forall|j: int|
            k <= j < a.len() ==> word_at(b, i + 8 * (j - k), 8, d) == (#[trigger] a[j]) as u64
                as nat,
    decreases a.len() - k,
{
    if k < a.len() {
        let w = enc_word(a[k] as u64 as nat, 8, d);
        lemma_enc_word_len(a[k] as u64 as nat, 8, d);
        lemma_enc_i64s_len(a, k + 1, d);
        lemma_split_chunk(b, i, w, enc_i64s(a, k + 1, d));
        lemma_pow256_values();
        lemma_read_enc_word(b, i, a[k] as u64 as nat, 8, d);
        lemma_read_enc_i64s(b, i + 8, a, k + 1, d);
        assert forall|j: int|
            k <= j < a.len() implies word_at(b, i + 8 * (j - k), 8, d) == (#[trigger] a[j]) as u64
            as nat by {
            if j > k {
                assert(word_at(b, i + 8 + 8 * (j - (k + 1)), 8, d) == a[j] as u64 as nat);
                assert(i + 8 + 8 * (j - (k + 1)) == i + 8 * (j - k));
            }
        }
    }
}

/// Reading back the payload a well-formed tree was written as returns that
/// tree, consuming exactly its wire form, at any position of any buffer.
#[verifier::rlimit(100)]
proof fn lemma_dec_enc_payload(b: Seq<u8>, i: int, t: NbtTree, d: NbtVersion, depth: nat)
    requires
        wf_payload(t, d),
        depth_ok(t, depth),
        0 <= i,
        i + enc_payload(t, d).len() <= b.len(),
        b.subrange(i, i + enc_payload(t, d).len() as int) == enc_payload(t, d),
    ensures
        dec_payload(b, i, t.tag(), d, depth) == Ok::<(NbtTree, nat), DecodeError>(
            (t, enc_payload(t, d).len() as nat),
        ),
    decreases t, 2int, 0int,
{
    lemma_pow256_values();
    match t {
        NbtTree::Byte(x) => {
            lemma_chunk_first(b, i, enc_payload(t, d));
            assert(b[i] == (x as u8));
            assert((x as u8) as i8 == x) by (bit_vector);
        },
        NbtTree::Short(x) => {
            lemma_enc_word_len(x as u16 as nat, 2, d);
            lemma_read_enc_word(b, i, x as u16 as nat, 2, d);
            assert((x as u16) as i16 == x) by (bit_vector);
        },
        NbtTree::Int(x) => {
            lemma_enc_word_len(x as u32 as nat, 4, d);
            lemma_read_enc_word(b, i, x as u32 as nat, 4, d);
            assert((x as u32) as i32 == x) by (bit_vector);
        },
        NbtTree::Long(x) => {
            lemma_enc_word_len(x as u64 as nat, 8, d);
            lemma_read_enc_word(b, i, x as u64 as nat, 8, d);
            assert((x as u64) as i64 == x) by (bit_vector);
        },
        NbtTree::Float(bits) => {
            lemma_enc_word_len(bits as nat, 4, d);
            lemma_read_enc_word(b, i, bits as nat, 4, d);
        },
        NbtTree::Double(bits) => {
            lemma_enc_word_len(bits as nat, 8, d);
            lemma_read_enc_word(b, i, bits as nat, 8, d);
        },
        NbtTree::ByteArray(a) => {
            let cf = enc_count(a.len(), d);
            let body = a.map_values(|x: i8| x as u8);
            lemma_split_chunk(b, i, cf, body);
            lemma_dec_enc_count(b, i, a.len(), d);
            let j = i + cf.len();
            let got = b.subrange(j, j + a.len() as int).map_values(|x: u8| x as i8);
            assert forall|m: int| 0 <= m < a.len() implies got[m] == a[m] by {
                assert(b.subrange(j, j + a.len() as int)[m] == body[m]);
                let am = a[m];
                assert((am as u8) as i8 == am) by (bit_vector);
            }
            assert(got =~= a);
        },
        NbtTree::String(s) => {
            lemma_dec_enc_str(b, i, s, d);
        },
        NbtTree::List(es) => {
            let cf = enc_count(es.len(), d);
            let body = enc_elems(es, 0, d);
            lemma_split_chunk3(b, i, seq![elem_tag(es)], cf, body);
            lemma_chunk_first(b, i, seq![elem_tag(es)]);
            assert(b[i] == elem_tag(es));
            lemma_dec_enc_count(b, i + 1, es.len(), d);
            lemma_dec_enc_elems(b, i + 1 + cf.len() as int, es, 0, d, (depth - 1) as nat);
            assert(es.subrange(0, es.len() as int) =~= es);
        },
        NbtTree::Compound(name, entries) => {
            let body = enc_entries(entries, 0, d);
            lemma_split_chunk(b, i, body, seq![0u8]);
            lemma_chunk_first(b, i + body.len() as int, seq![0u8]);
            assert(b[i + body.len() as int] == 0);
            lemma_dec_enc_entries(b, i, entries, 0, d, depth);
            assert(entries.subrange(0, entries.len() as int) =~= entries);
        },
        NbtTree::IntArray(a) => {
            let cf = enc_count(a.len(), d);
            let body = enc_i32s(a, 0, d);
            lemma_enc_i32s_len(a, 0, d);
            lemma_split_chunk(b, i, cf, body);
            lemma_dec_enc_count(b, i, a.len(), d);
            let j = i + cf.len();
            lemma_read_enc_i32s(b, j, a, 0, d);
            let got = Seq::new(a.len(), |m: int| word_at(b, j + 4 * m, 4, d) as u32 as i32);
            assert forall|m: int| 0 <= m < a.len() implies got[m] == a[m] by {
                assert(word_at(b, j + 4 * (m - 0), 4, d) == a[m] as u32 as nat);
                let am = a[m];
                assert((am as u32) as i32 == am) by (bit_vector);
            }
            assert(got =~= a);
        },
        NbtTree::LongArray(a) => {
            let cf = enc_count(a.len(), d);
            let body = enc_i64s(a, 0, d);
            lemma_enc_i64s_len(a, 0, d);
            lemma_split_chunk(b, i, cf, body);
            lemma_dec_enc_count(b, i, a.len(), d);
            let j = i + cf.len();
            lemma_read_enc_i64s(b, j, a, 0, d);
            let got = Seq::new(a.len(), |m: int| word_at(b, j + 8 * m, 8, d) as u64 as i64);
            assert forall|m: int| 0 <= m < a.len() implies got[m] == a[m] by {
                assert(word_at(b, j + 8 * (m - 0), 8, d) == a[m] as u64 as nat);
                let am = a[m];
                assert((am as u64) as i64 == am) by (bit_vector);
            }
            assert(got =~= a);
        },
    }
}

/// Reading back the written elements of a well-formed list, from index `k`
/// on, returns exactly those elements.
proof fn lemma_dec_enc_elems(b: Seq<u8>, i: int, es: Seq<NbtTree>, k: int, d: NbtVersion, depth: nat)
    requires
        0 <= k <= es.len(),
        wf_elems(es, k, d),
        elems_depth_ok(es, k, depth),
        0 <= i,
        i + enc_elems(es, k, d).len() <= b.len(),
        b.subrange(i, i + enc_elems(es, k, d).len() as int) == enc_elems(es, k, d),
    ensures
        dec_elems(b, i, elem_tag(es), (es.len() - k) as nat, d, depth) == Ok::<
            (Seq<NbtTree>, nat),
            DecodeError,
        >((es.subrange(k, es.len() as int), enc_elems(es, k, d).len() as nat)),
    decreases es, 2int, es.len() - k,
{
    if k == es.len() {
        assert(enc_elems(es, k, d) =~= Seq::<u8>::empty());
        assert(es.subrange(k, es.len() as int) =~= Seq::<NbtTree>::empty());
    } else {
        let head = enc_payload(es[k], d);
        let rest = enc_elems(es, k + 1, d);
        lemma_split_chunk(b, i, head, rest);
        lemma_dec_enc_payload(b, i, es[k], d, depth);
        assert(es[k].tag() == elem_tag(es));
        lemma_dec_enc_elems(b, i + head.len(), es, k + 1, d, depth);
        assert(seq![es[k]] + es.subrange(k + 1, es.len() as int) =~= es.subrange(
            k,
            es.len() as int,
        ));
    }
}

/// Reading back the written pairs of a well-formed compound body, from
/// index `k` on, returns exactly those pairs and consumes the end sentinel.
proof fn lemma_dec_enc_entries(
    b: Seq<u8>,
    i: int,
    entries: Seq<(Seq<char>, NbtTree)>,
    k: int,
    d: NbtVersion,
    depth: nat,
)
    requires
        0 <= k <= entries.len(),
        wf_entries(entries, k, d),
        entries_depth_ok(entries, k, (depth - 1) as nat),
        depth >= 1,
        0 <= i,
        i + enc_entries(entries, k, d).len() + 1 <= b.len(),
        b.subrange(i, i + enc_entries(entries, k, d).len() as int) == enc_entries(entries, k, d),
        b[i + enc_entries(entries, k, d).len() as int] == 0,
    ensures
        dec_entries(b, i, d, depth) == Ok::<(Seq<(Seq<char>, NbtTree)>, nat), DecodeError>(
            (entries.subrange(k, entries.len() as int), (enc_entries(entries, k, d).len() + 1) as nat),
        ),
    decreases entries, 2int, entries.len() - k,
{
    if k == entries.len() {
        assert(enc_entries(entries, k, d) =~= Seq::<u8>::empty());
        assert(b[i] == 0);
        assert(entries.subrange(k, entries.len() as int) =~= Seq::<(Seq<char>, NbtTree)>::empty());
    } else {
        let name = entries[k].0;
        let child = entries[k].1;
        let sname = enc_str(name, d);
        let pay = enc_payload(child, d);
        let rest = enc_entries(entries, k + 1, d);
        let whole = enc_entries(entries, k, d);
        assert(whole == seq![child.tag()] + sname + pay + rest);
        lemma_split_chunk4(b, i, seq![child.tag()], sname, pay, rest);
        lemma_chunk_first(b, i, seq![child.tag()]);
        assert(b[i] == child.tag());
        lemma_dec_enc_str(b, i + 1, name, d);
        lemma_dec_enc_payload(b, i + 1 + sname.len() as int, child, d, (depth - 1) as nat);
        lemma_dec_enc_entries(b, i + 1 + sname.len() + pay.len(), entries, k + 1, d, depth);
        assert(seq![(name, child)] + entries.subrange(k + 1, entries.len() as int)
            =~= entries.subrange(k, entries.len() as int));
    }
}

/// Round trip: decoding the encoding of a well-formed tree under the same
/// dialect returns that tree, for every tree and every dialect.
#[verifier::rlimit(100)]
pub proof fn lemma_round_trip(t: NbtTree, d: NbtVersion)
    requires
        wf_nbt(t, d),
    ensures
        dec_root(enc_root(t, d), 0, d, MAX_DEPTH as nat) == Ok::<NbtTree, DecodeError>(t),
{
    let b = enc_root(t, d);
    let st = strip_root_name(t);
    let namepart = if d.spec_root_named() {
        enc_str(root_name(t), d)
    } else {
        Seq::<u8>::empty()
    };
    let pay = enc_payload(t, d);
    assert(enc_payload(st, d) == pay);
    assert(wf_payload(st, d));
    assert(st.tag() == t.tag());
    assert(b == seq![t.tag()] + namepart + pay);
    assert(b.subrange(0, b.len() as int) =~= b);
    lemma_split_chunk3(b, 0, seq![t.tag()], namepart, pay);
    lemma_chunk_first(b, 0, seq![t.tag()]);
    assert(b[0] == t.tag());
    assert(1 <= t.tag() <= 12);
    if d.spec_root_named() {
        assert(encode_utf8(root_name(t)).len() <= d.max_str_bytes()) by {
            match t {
                NbtTree::Compound(name, _) => {
                    assert(name is Some);
                },
                _ => {
                    assert(root_name(t) == Seq::<char>::empty());
                    assert(encode_utf8(Seq::<char>::empty()) =~= Seq::<u8>::empty());
                },
            }
        }
        lemma_dec_enc_str(b, 1, root_name(t), d);
        lemma_dec_enc_payload(b, 1 + namepart.len() as int, st, d, MAX_DEPTH as nat);
        assert(with_root_name(st, root_name(t)) == t);
    } else {
        lemma_dec_enc_payload(b, 1, st, d, MAX_DEPTH as nat);
        assert(st == t);
    }
}

/// Decoding is deterministic: the decoder's result is a function of the
/// buffer and the dialect alone, so two decodes of one immutable buffer
/// return structurally equal trees.  The executable decoder inherits this
/// through its contract, which pins its result to `dec_root`.
pub proof fn lemma_decode_deterministic(b: Seq<u8>, d: NbtVersion, t1: NbtTree, t2: NbtTree)
    requires
        dec_root(b, 0, d, MAX_DEPTH as nat) == Ok::<NbtTree, DecodeError>(t1),
        dec_root(b, 0, d, MAX_DEPTH as nat) == Ok::<NbtTree, DecodeError>(t2),
    ensures
        t1 == t2,
{
}

/// A compound nested `n` levels deep: the chain that exercises the depth
/// bound.
pub open spec fn nested_chain(n: nat) -> NbtTree
    decreases n,
{
    if n == 0 {
        NbtTree::Compound(None, Seq::empty())
    } else {
        NbtTree::Compound(None, seq![(Seq::<char>::empty(), nested_chain((n - 1) as nat))])
    }
}

/// Reading a chain that nests deeper than the remaining budget fails with
/// `NestingTooDeep`.
proof fn lemma_chain_too_deep(b: Seq<u8>, i: int, n: nat, k: nat, d: NbtVersion)
    requires
        k < n,
        0 <= i,
        i + enc_payload(nested_chain(n), d).len() <= b.len(),
        b.subrange(i, i + enc_payload(nested_chain(n), d).len() as int) == enc_payload(
            nested_chain(n),
            d,
        ),
    ensures
        dec_payload(b, i, 10, d, k) == Err::<(NbtTree, nat), DecodeError>(
            DecodeError::NestingTooDeep,
        ),
    decreases k,
{
    if k > 0 {
        let t = nested_chain(n);
        let child = nested_chain((n - 1) as nat);
        let entries = seq![(Seq::<char>::empty(), child)];
        assert(t == NbtTree::Compound(None::<Seq<char>>, entries));
        let sname = enc_str(Seq::<char>::empty(), d);
        let pay = enc_payload(child, d);
        assert(enc_entries(entries, 1, d) =~= Seq::<u8>::empty());
        let body = enc_entries(entries, 0, d);
        assert(child.tag() == 10);
        assert(body =~= seq![10u8] + sname + pay);
        assert(enc_payload(t, d) == body + seq![0u8]);
        lemma_split_chunk(b, i, body, seq![0u8]);
        assert(b.subrange(i, i + 1 + sname.len() + pay.len()) == seq![10u8] + sname + pay);
        lemma_split_chunk3(b, i, seq![10u8], sname, pay);
        lemma_chunk_first(b, i, seq![10u8]);
        assert(b[i] == 10);
        assert(encode_utf8(Seq::<char>::empty()) =~= Seq::<u8>::empty());
        lemma_dec_enc_str(b, i + 1, Seq::<char>::empty(), d);
        lemma_chain_too_deep(b, i + 1 + sname.len(), (n - 1) as nat, (k - 1) as nat, d);
        assert(dec_payload(b, i + 1 + sname.len(), 10, d, (k - 1) as nat) == Err::<
            (NbtTree, nat),
            DecodeError,
        >(DecodeError::NestingTooDeep));
        assert(dec_entries(b, i, d, k) == Err::<(Seq<(Seq<char>, NbtTree)>, nat), DecodeError>(
            DecodeError::NestingTooDeep,
        ));
    }
}

/// Depth bound: a compound chain nested deeper than `MAX_DEPTH` fails to
/// decode with `NestingTooDeep`, under every dialect.
#[verifier::rlimit(100)]
pub proof fn lemma_nesting_too_deep(n: nat, d: NbtVersion)
    requires
        n > MAX_DEPTH,
    ensures
        dec_root(enc_root(nested_chain(n), d), 0, d, MAX_DEPTH as nat) == Err::<
            NbtTree,
            DecodeError,
        >(DecodeError::NestingTooDeep),
{
    let t = nested_chain(n);
    let b = enc_root(t, d);
    let namepart = if d.spec_root_named() {
        enc_str(root_name(t), d)
    } else {
        Seq::<u8>::empty()
    };
    let pay = enc_payload(t, d);
    assert(t.tag() == 10);
    assert(root_name(t) == Seq::<char>::empty());
    assert(b == seq![10u8] + namepart + pay);
    assert(b.subrange(0, b.len() as int) =~= b);
    lemma_split_chunk3(b, 0, seq![10u8], namepart, pay);
    lemma_chunk_first(b, 0, seq![10u8]);
    assert(b[0] == 10);
    if d.spec_root_named() {
        assert(encode_utf8(Seq::<char>::empty()) =~= Seq::<u8>::empty());
        lemma_dec_enc_str(b, 1, Seq::<char>::empty(), d);
        lemma_chain_too_deep(b, 1 + namepart.len() as int, n, MAX_DEPTH as nat, d);
    } else {
        lemma_chain_too_deep(b, 1, n, MAX_DEPTH as nat, d);
    }
}


/// A region that holds only a prefix of `x + y` either holds a prefix of
/// `x`, or holds all of `x` followed by a prefix of `y`.
proof fn lemma_split_partial(b: Seq<u8>, i: int, x: Seq<u8>, y: Seq<u8>)
    requires
        0 <= i <= b.len(),
        b.len() - i <= x.len() + y.len(),
        b.subrange(i, b.len() as int) == (x + y).take(b.len() - i),
    ensures
        b.len() - i < x.len() ==> b.subrange(i, b.len() as int) == x.take(b.len() - i),
        b.len() - i >= x.len() ==> b.subrange(i, i + x.len() as int) == x && b.subrange(
            i + x.len() as int,
            b.len() as int,
        ) == y.take(b.len() - i - x.len()),
{
    let avail = b.len() - i;
    if avail < x.len() {
        assert forall|j: int| 0 <= j < avail implies b.subrange(i, b.len() as int)[j] == x.take(
            avail,
        )[j] by {
            assert((x + y).take(avail)[j] == (x + y)[j]);
        }
        assert(b.subrange(i, b.len() as int) =~= x.take(avail));
    } else {
        assert forall|j: int| 0 <= j < x.len() implies b.subrange(i, i + x.len() as int)[j]
            == x[j] by {
            assert(b.subrange(i, b.len() as int)[j] == (x + y).take(avail)[j]);
            assert((x + y)[j] == x[j]);
        }
        assert(b.subrange(i, i + x.len() as int) =~= x);
        assert forall|j: int|
            0 <= j < avail - x.len() implies #[trigger] b.subrange(
            i + x.len() as int,
            b.len() as int,
        )[j] == y.take(avail - x.len())[j] by {
            assert(b.subrange(i, b.len() as int)[x.len() + j] == (x + y).take(avail)[x.len() + j]);
            assert((x + y)[x.len() + j] == y[j]);
        }
        assert(b.subrange(i + x.len() as int, b.len() as int) =~= y.take(avail - x.len()));
    }
}

/// Every byte of a variable-width encoding except the last carries the
/// continuation bit.
proof fn lemma_varint_bytes_continuation(n: nat)
    ensures
        forall|j: int|
            0 <= j < varint_bytes(n).len() - 1 ==> #[trigger] varint_bytes(n)[j] >= 128,
    decreases n,
{
    if n >= 128 {
        lemma_varint_bytes_continuation(n / 128);
        let e = varint_bytes(n);
        let rest = varint_bytes(n / 128);
        assert forall|j: int| 0 <= j < e.len() - 1 implies #[trigger] e[j] >= 128 by {
            if j > 0 {
                assert(e[j] == rest[j - 1]);
                assert(rest[j - 1] >= 128);
            }
        }
    }
}

/// Reading a variable-width integer where every remaining byte carries the
/// continuation bit and the budget outlasts the buffer runs out of bytes.
proof fn lemma_varint_trunc(b: Seq<u8>, i: int, k: nat)
    requires
        0 <= i <= b.len(),
        forall|j: int| i <= j < b.len() ==> b[j] >= 128,
        b.len() - i < k,
    ensures
        varint_val(b, i, k) == None::<(nat, nat)>,
    decreases k,
{
    if i < b.len() {
        assert(b[i] >= 128);
        lemma_varint_trunc(b, i + 1, (k - 1) as nat);
    }
}

/// A count field cut off by the end of the buffer fails with
/// `UnexpectedEof`.
proof fn lemma_trunc_count(b: Seq<u8>, i: int, n: nat, d: NbtVersion)
    requires
        n <= d.max_count(),
        0 <= i <= b.len(),
        b.len() - i < enc_count(n, d).len(),
        b.subrange(i, b.len() as int) == enc_count(n, d).take(b.len() - i),
    ensures
        dec_count(b, i, d) == Err::<(int, nat), DecodeError>(DecodeError::UnexpectedEof),
{
    lemma_pow128_values();
    lemma_pow256_values();
    if d.spec_varint_lengths() {
        lemma_varint_len(n, 5);
        lemma_varint_bytes_continuation(n);
        let e = varint_bytes(n);
        assert forall|j: int| i <= j < b.len() implies #[trigger] b[j] >= 128 by {
            assert(b.subrange(i, b.len() as int)[j - i] == e.take(b.len() - i)[j - i]);
            assert(e[j - i] >= 128);
        }
        lemma_varint_trunc(b, i, 5);
    } else {
        lemma_enc_word_len(n, 4, d);
    }
}

/// A string length field cut off by the end of the buffer fails with
/// `UnexpectedEof`.
proof fn lemma_trunc_strlen(b: Seq<u8>, i: int, n: nat, d: NbtVersion)
    requires
        n <= d.max_str_bytes(),
        0 <= i <= b.len(),
        b.len() - i < enc_strlen(n, d).len(),
        b.subrange(i, b.len() as int) == enc_strlen(n, d).take(b.len() - i),
    ensures
        dec_strlen(b, i, d) == Err::<(nat, nat), DecodeError>(DecodeError::UnexpectedEof),
{
    lemma_pow128_values();
    lemma_pow256_values();
    if d.spec_varint_lengths() {
        lemma_varint_len(n, 5);
        lemma_varint_bytes_continuation(n);
        let e = varint_bytes(n);
        assert forall|j: int| i <= j < b.len() implies #[trigger] b[j] >= 128 by {
            assert(b.subrange(i, b.len() as int)[j - i] == e.take(b.len() - i)[j - i]);
            assert(e[j - i] >= 128);
        }
        lemma_varint_trunc(b, i, 5);
    } else {
        lemma_enc_word_len(n, 2, d);
    }
}

/// A string cut off by the end of the buffer fails with `UnexpectedEof`.
proof fn lemma_trunc_str(b: Seq<u8>, i: int, s: Seq<char>, d: NbtVersion)
    requires
        encode_utf8(s).len() <= d.max_str_bytes(),
        0 <= i <= b.len(),
        b.len() - i < enc_str(s, d).len(),
        b.subrange(i, b.len() as int) == enc_str(s, d).take(b.len() - i),
    ensures
        dec_str(b, i, d) == Err::<(Seq<char>, nat), DecodeError>(DecodeError::UnexpectedEof),
{
    let u = encode_utf8(s);
    let lenf = enc_strlen(u.len(), d);
    lemma_split_partial(b, i, lenf, u);
    if b.len() - i < lenf.len() {
        lemma_trunc_strlen(b, i, u.len(), d);
    } else {
        lemma_dec_enc_strlen(b, i, u.len(), d);
    }
}


/// A payload cut off by the end of the buffer fails with `UnexpectedEof`:
/// the buffer holds a strict prefix of the wire form of `t` at `i` and
/// nothing after it.
#[verifier::rlimit(100)]
proof fn lemma_trunc_payload(b: Seq<u8>, i: int, t: NbtTree, d: NbtVersion, depth: nat)
    requires
        wf_payload(t, d),
        depth_ok(t, depth),
        0 <= i <= b.len(),
        b.len() - i < enc_payload(t, d).len(),
        b.subrange(i, b.len() as int) == enc_payload(t, d).take(b.len() - i),
    ensures
        dec_payload(b, i, t.tag(), d, depth) == Err::<(NbtTree, nat), DecodeError>(
            DecodeError::UnexpectedEof,
        ),
    decreases t, 2int, 0int,
{
    lemma_pow256_values();
    let avail = b.len() - i;
    match t {
        NbtTree::Byte(_) => {},
        NbtTree::Short(x) => {
            lemma_enc_word_len(x as u16 as nat, 2, d);
        },
        NbtTree::Int(x) => {
            lemma_enc_word_len(x as u32 as nat, 4, d);
        },
        NbtTree::Long(x) => {
            lemma_enc_word_len(x as u64 as nat, 8, d);
        },
        NbtTree::Float(bits) => {
            lemma_enc_word_len(bits as nat, 4, d);
        },
        NbtTree::Double(bits) => {
            lemma_enc_word_len(bits as nat, 8, d);
        },
        NbtTree::ByteArray(a) => {
            let cf = enc_count(a.len(), d);
            let body = a.map_values(|x: i8| x as u8);
            lemma_split_partial(b, i, cf, body);
            if avail < cf.len() {
                lemma_trunc_count(b, i, a.len(), d);
            } else {
                lemma_dec_enc_count(b, i, a.len(), d);
            }
        },
        NbtTree::String(sv) => {
            lemma_trunc_str(b, i, sv, d);
        },
        NbtTree::List(es) => {
            let cf = enc_count(es.len(), d);
            let body = enc_elems(es, 0, d);
            assert(enc_payload(t, d) =~= seq![elem_tag(es)] + (cf + body));
            lemma_split_partial(b, i, seq![elem_tag(es)], cf + body);
            if avail >= 1 {
                lemma_chunk_first(b, i, seq![elem_tag(es)]);
                lemma_split_partial(b, i + 1, cf, body);
                if avail - 1 < cf.len() {
                    lemma_trunc_count(b, i + 1, es.len(), d);
                } else {
                    lemma_dec_enc_count(b, i + 1, es.len(), d);
                    lemma_trunc_elems(b, i + 1 + cf.len() as int, es, 0, d, (depth - 1) as nat);
                }
            }
        },
        NbtTree::Compound(name, entries) => {
            let body = enc_entries(entries, 0, d);
            lemma_split_partial(b, i, body, seq![0u8]);
            assert(b.subrange(i, b.len() as int) == body.take(avail)) by {
                if avail >= body.len() {
                    assert(body.take(avail) =~= body);
                }
            }
            lemma_trunc_entries(b, i, entries, 0, d, depth);
        },
        NbtTree::IntArray(a) => {
            let cf = enc_count(a.len(), d);
            let body = enc_i32s(a, 0, d);
            lemma_enc_i32s_len(a, 0, d);
            lemma_split_partial(b, i, cf, body);
            if avail < cf.len() {
                lemma_trunc_count(b, i, a.len(), d);
            } else {
                lemma_dec_enc_count(b, i, a.len(), d);
            }
        },
        NbtTree::LongArray(a) => {
            let cf = enc_count(a.len(), d);
            let body = enc_i64s(a, 0, d);
            lemma_enc_i64s_len(a, 0, d);
            lemma_split_partial(b, i, cf, body);
            if avail < cf.len() {
                lemma_trunc_count(b, i, a.len(), d);
            } else {
                lemma_dec_enc_count(b, i, a.len(), d);
            }
        },
    }
}

/// A run of list elements cut off by the end of the buffer fails with
/// `UnexpectedEof`.
proof fn lemma_trunc_elems(b: Seq<u8>, i: int, es: Seq<NbtTree>, k: int, d: NbtVersion, depth: nat)
    requires
        0 <= k <= es.len(),
        wf_elems(es, k, d),
        elems_depth_ok(es, k, depth),
        0 <= i <= b.len(),
        b.len() - i < enc_elems(es, k, d).len(),
        b.subrange(i, b.len() as int) == enc_elems(es, k, d).take(b.len() - i),
    ensures
        dec_elems(b, i, elem_tag(es), (es.len() - k) as nat, d, depth) == Err::<
            (Seq<NbtTree>, nat),
            DecodeError,
        >(DecodeError::UnexpectedEof),
    decreases es, 2int, es.len() - k,
{
    let avail = b.len() - i;
    if k == es.len() {
        assert(enc_elems(es, k, d).len() == 0);
    } else {
        let head = enc_payload(es[k], d);
        let rest = enc_elems(es, k + 1, d);
        lemma_split_partial(b, i, head, rest);
        assert(es[k].tag() == elem_tag(es));
        if avail < head.len() {
            lemma_trunc_payload(b, i, es[k], d, depth);
        } else {
            lemma_dec_enc_payload(b, i, es[k], d, depth);
            lemma_trunc_elems(b, i + head.len() as int, es, k + 1, d, depth);
        }
    }
}

/// A compound body cut off by the end of the buffer — anywhere up to and
/// including its end sentinel — fails with `UnexpectedEof`.
proof fn lemma_trunc_entries(
    b: Seq<u8>,
    i: int,
    entries: Seq<(Seq<char>, NbtTree)>,
    k: int,
    d: NbtVersion,
    depth: nat,
)
    requires
        0 <= k <= entries.len(),
        wf_entries(entries, k, d),
        entries_depth_ok(entries, k, (depth - 1) as nat),
        depth >= 1,
        0 <= i <= b.len(),
        b.len() - i <= enc_entries(entries, k, d).len(),
        b.subrange(i, b.len() as int) == enc_entries(entries, k, d).take(b.len() - i),
    ensures
        dec_entries(b, i, d, depth) == Err::<(Seq<(Seq<char>, NbtTree)>, nat), DecodeError>(
            DecodeError::UnexpectedEof,
        ),
    decreases entries, 2int, entries.len() - k,
{
    let avail = b.len() - i;
    if k == entries.len() {
        assert(enc_entries(entries, k, d).len() == 0);
    } else {
        let name = entries[k].0;
        let child = entries[k].1;
        let sname = enc_str(name, d);
        let pay = enc_payload(child, d);
        let rest = enc_entries(entries, k + 1, d);
        assert(enc_entries(entries, k, d) =~= seq![child.tag()] + (sname + pay + rest));
        lemma_split_partial(b, i, seq![child.tag()], sname + pay + rest);
        if avail >= 1 {
            lemma_chunk_first(b, i, seq![child.tag()]);
            assert(b[i] == child.tag());
            assert(1 <= child.tag() <= 12);
            assert(sname + pay + rest =~= sname + (pay + rest));
            lemma_split_partial(b, i + 1, sname, pay + rest);
            if avail - 1 < sname.len() {
                lemma_trunc_str(b, i + 1, name, d);
            } else {
                lemma_dec_enc_str(b, i + 1, name, d);
                lemma_split_partial(b, i + 1 + sname.len() as int, pay, rest);
                if avail - 1 - sname.len() < pay.len() {
                    lemma_trunc_payload(b, i + 1 + sname.len() as int, child, d, (depth - 1) as nat);
                } else {
                    lemma_dec_enc_payload(b, i + 1 + sname.len() as int, child, d, (depth - 1) as nat);
                    lemma_trunc_entries(
                        b,
                        i + 1 + sname.len() + pay.len(),
                        entries,
                        k + 1,
                        d,
                        depth,
                    );
                }
            }
        }
    }
}

/// Truncation: cutting the encoding of a well-formed tree at any byte
/// boundary strictly before its end makes decoding fail with
/// `UnexpectedEof` — never with a panic or a partial tree.
#[verifier::rlimit(100)]
pub proof fn lemma_truncation(t: NbtTree, d: NbtVersion, m: int)
    requires
        wf_nbt(t, d),
        0 <= m < enc_root(t, d).len(),
    ensures
        dec_root(enc_root(t, d).take(m), 0, d, MAX_DEPTH as nat) == Err::<NbtTree, DecodeError>(
            DecodeError::UnexpectedEof,
        ),
{
    let bf = enc_root(t, d);
    let b = bf.take(m);
    let st = strip_root_name(t);
    let namepart = if d.spec_root_named() {
        enc_str(root_name(t), d)
    } else {
        Seq::<u8>::empty()
    };
    let pay = enc_payload(t, d);
    assert(enc_payload(st, d) == pay);
    assert(wf_payload(st, d));
    assert(st.tag() == t.tag());
    assert(bf == seq![t.tag()] + namepart + pay);
    assert(b.subrange(0, b.len() as int) =~= b);
    assert(bf =~= seq![t.tag()] + (namepart + pay));
    lemma_split_partial(b, 0, seq![t.tag()], namepart + pay);
    if m >= 1 {
        lemma_chunk_first(b, 0, seq![t.tag()]);
        assert(b[0] == t.tag());
        assert(1 <= t.tag() <= 12);
        lemma_split_partial(b, 1, namepart, pay);
        if d.spec_root_named() {
            assert(encode_utf8(root_name(t)).len() <= d.max_str_bytes()) by {
                match t {
                    NbtTree::Compound(name, _) => {
                        assert(name is Some);
                    },
                    _ => {
                        assert(root_name(t) == Seq::<char>::empty());
                        assert(encode_utf8(Seq::<char>::empty()) =~= Seq::<u8>::empty());
                    },
                }
            }
            if m - 1 < namepart.len() {
                lemma_trunc_str(b, 1, root_name(t), d);
            } else {
                lemma_dec_enc_str(b, 1, root_name(t), d);
                lemma_trunc_payload(b, 1 + namepart.len() as int, st, d, MAX_DEPTH as nat);
            }
        } else {
            lemma_trunc_payload(b, 1, st, d, MAX_DEPTH as nat);
        }
    }
}

} // verus!
