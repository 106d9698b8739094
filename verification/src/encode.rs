//! The encoder: walks a value tree in compound-insertion and list-index
//! order, writing tag ids, names, lengths and payloads under a dialect.
//! Encoding is total for well-formed trees, and its output is proved to be
//! exactly the mathematical encoding `enc_root`; a runtime well-formedness
//! check is offered for callers that cannot establish well-formedness
//! statically.

use vstd::prelude::*;
use vstd::string::StrSliceExecFns;
use vstd::utf8::encode_utf8;

use crate::model::depth_ok;
use crate::model::lemma_elems_depth_ok_elim;
use crate::model::lemma_entries_depth_ok_elim;
use crate::model::lemma_wf_elems_elim;
use crate::model::lemma_wf_entries_elim;
use crate::model::strip_root_name;
use crate::model::wf_nbt;
use crate::model::wf_payload;
use crate::model::NbtTree;
use crate::model::NbtVersion;
use crate::model::MAX_DEPTH;
use crate::spec_codec::enc_count;
use crate::spec_codec::enc_elems;
use crate::spec_codec::enc_entries;
use crate::spec_codec::enc_i32s;
use crate::spec_codec::enc_i64s;
use crate::spec_codec::enc_payload;
use crate::spec_codec::enc_root;
use crate::spec_codec::enc_str;
use crate::spec_codec::enc_strlen;
use crate::spec_codec::enc_word;
use crate::value::lemma_view_entries;
use crate::value::lemma_view_list;
use crate::value::view_entries;
use crate::value::view_list;
use crate::value::NbtValue;
use crate::words::be_bytes;
use crate::words::le_bytes;
use crate::words::varint_bytes;

verus! {

broadcast use vstd::seq::group_seq_axioms, vstd::std_specs::vec::group_vec_axioms;

/// Append the `n`-byte big-endian encoding of `v`.
fn push_word_be(out: &mut Vec<u8>, v: u64, n: usize)
    ensures
        final(out)@ == old(out)@ + be_bytes(v as nat, n as nat),
    decreases n,
{
    if n == 0 {
        proof {
            assert(old(out)@ + be_bytes(v as nat, 0) =~= old(out)@);
        }
    } else {
        push_word_be(out, v / 256, n - 1);
        out.push((v % 256) as u8);
        proof {
            assert((old(out)@ + be_bytes((v / 256) as nat, (n - 1) as nat)).push((v % 256) as u8)
                =~= old(out)@ + be_bytes(v as nat, n as nat));
        }
    }
}

/// Append the `n`-byte little-endian encoding of `v`.
fn push_word_le(out: &mut Vec<u8>, v: u64, n: usize)
    ensures
        final(out)@ == old(out)@ + le_bytes(v as nat, n as nat),
    decreases n,
{
    if n == 0 {
        proof {
            assert(old(out)@ + le_bytes(v as nat, 0) =~= old(out)@);
        }
    } else {
        out.push((v % 256) as u8);
        push_word_le(out, v / 256, n - 1);
        proof {
            assert((old(out)@.push((v % 256) as u8)) + le_bytes((v / 256) as nat, (n - 1) as nat)
                =~= old(out)@ + le_bytes(v as nat, n as nat));
        }
    }
}

/// Append the `n`-byte encoding of `v` in the dialect's byte order.
fn push_word(out: &mut Vec<u8>, v: u64, n: usize, version: NbtVersion)
    ensures
        final(out)@ == old(out)@ + enc_word(v as nat, n as nat, version),
{
    if version.big_endian() {
        push_word_be(out, v, n);
    } else {
        push_word_le(out, v, n);
    }
}

/// Append the variable-width encoding of `v`.
fn push_varint(out: &mut Vec<u8>, v: u64)
    ensures
        final(out)@ == old(out)@ + varint_bytes(v as nat),
    decreases v,
{
    if v < 128 {
        out.push(v as u8);
        proof {
            assert(old(out)@.push(v as u8) =~= old(out)@ + varint_bytes(v as nat));
        }
    } else {
        out.push((v % 128 + 128) as u8);
        push_varint(out, v / 128);
        proof {
            assert((old(out)@.push((v % 128 + 128) as u8)) + varint_bytes((v / 128) as nat)
                =~= old(out)@ + varint_bytes(v as nat));
        }
    }
}

/// Append an array or list count in the dialect's length encoding.
fn push_count(out: &mut Vec<u8>, n: u64, version: NbtVersion)
    requires
        n <= version.max_count(),
    ensures
        final(out)@ == old(out)@ + enc_count(n as nat, version),
{
    if version.varint_lengths() {
        push_varint(out, n);
    } else {
        push_word(out, n, 4, version);
    }
}

/// Append a string's byte length in the dialect's length encoding.
fn push_strlen(out: &mut Vec<u8>, n: u64, version: NbtVersion)
    requires
        n <= version.max_str_bytes(),
    ensures
        final(out)@ == old(out)@ + enc_strlen(n as nat, version),
{
    if version.varint_lengths() {
        push_varint(out, n);
    } else {
        push_word(out, n, 2, version);
    }
}

/// Append a length-prefixed string: its UTF-8 byte length, then its bytes.
fn push_str(out: &mut Vec<u8>, s: &String, version: NbtVersion)
    requires
        encode_utf8(s@).len() <= version.max_str_bytes(),
    ensures
        final(out)@ == old(out)@ + enc_str(s@, version),
{
    let mut bytes = s.as_str().as_bytes_vec();
    push_strlen(out, bytes.len() as u64, version);
    out.append(&mut bytes);
    proof {
        assert((old(out)@ + enc_strlen(encode_utf8(s@).len(), version)) + encode_utf8(s@)
            =~= old(out)@ + enc_str(s@, version));
    }
}

/// Append the concatenated payloads of the list elements.
fn push_list_elems(out: &mut Vec<u8>, es: &Vec<NbtValue>, version: NbtVersion)
    requires
        crate::model::wf_elems(view_list(es@), 0, version),
    ensures
        final(out)@ == old(out)@ + enc_elems(view_list(es@), 0, version),
    decreases es, 1int,
{
    proof {
        lemma_view_list(es@);
        lemma_wf_elems_elim(view_list(es@), 0, version);
    }
    let ghost vs = view_list(es@);
    let mut k: usize = 0;
    while k < es.len()
        invariant
            0 <= k <= es@.len(),
            vs == view_list(es@),
            vs.len() == es@.len(),
            forall|j: int| 0 <= j < es@.len() ==> vs[j] == #[trigger] es@[j]@,
            forall|j: int|
                0 <= j < vs.len() ==> (#[trigger] vs[j].tag()) == vs[0].tag() && wf_payload(
                    vs[j],
                    version,
                ),
            old(out)@ + enc_elems(vs, 0, version) == out@ + enc_elems(vs, k as int, version),
        decreases es@.len() - k,
    {
        let ghost pre = out@;
        let child = &es[k];
        proof {
            assert(vs[k as int].tag() == vs[0].tag() && wf_payload(vs[k as int], version));
            assert(strip_root_name(child@) == child@);
            assert(decreases_to!(*es => es@));
            assert(decreases_to!(es@ => es@[k as int]));
        }
        push_payload(out, child, version);
        proof {
            assert(enc_elems(vs, k as int, version) == enc_payload(vs[k as int], version)
                + enc_elems(vs, k + 1, version));
            assert((pre + enc_payload(vs[k as int], version)) + enc_elems(vs, k + 1, version)
                =~= pre + (enc_payload(vs[k as int], version) + enc_elems(vs, k + 1, version)));
        }
        k = k + 1;
    }
    proof {
        assert(enc_elems(vs, vs.len() as int, version) =~= Seq::<u8>::empty());
        assert(out@ + Seq::<u8>::empty() =~= out@);
    }
}

/// Append the concatenated wire form of the compound pairs, without the
/// end sentinel.
fn push_compound_entries(out: &mut Vec<u8>, entries: &Vec<(String, NbtValue)>, version: NbtVersion)
    requires
        crate::model::wf_entries(view_entries(entries@), 0, version),
    ensures
        final(out)@ == old(out)@ + enc_entries(view_entries(entries@), 0, version),
    decreases entries, 1int,
{
    proof {
        lemma_view_entries(entries@);
        lemma_wf_entries_elim(view_entries(entries@), 0, version);
    }
    let ghost ens = view_entries(entries@);
    let mut k: usize = 0;
    while k < entries.len()
        invariant
            0 <= k <= entries@.len(),
            ens == view_entries(entries@),
            ens.len() == entries@.len(),
            forall|j: int|
                0 <= j < entries@.len() ==> ens[j] == (
                    #[trigger] entries@[j].0@,
                    entries@[j].1@,
                ),
            forall|j: int|
                0 <= j < ens.len() ==> encode_utf8(#[trigger] ens[j].0).len()
                    <= version.max_str_bytes() && wf_payload(ens[j].1, version),
            old(out)@ + enc_entries(ens, 0, version) == out@ + enc_entries(ens, k as int, version),
        decreases entries@.len() - k,
    {
        let ghost pre = out@;
        let pair = &entries[k];
        proof {
            assert(ens[k as int] == (pair.0@, pair.1@));
            assert(encode_utf8(ens[k as int].0).len() <= version.max_str_bytes());
            assert(wf_payload(ens[k as int].1, version));
            assert(strip_root_name(pair.1@) == pair.1@);
            assert(decreases_to!(*entries => entries@));
            assert(decreases_to!(entries@ => entries@[k as int]));
            assert(decreases_to!(entries@[k as int] => entries@[k as int].1));
        }
        let tag = pair.1.tag();
        out.push(tag);
        push_str(out, &pair.0, version);
        push_payload(out, &pair.1, version);
        proof {
            let head = seq![ens[k as int].1.tag()] + enc_str(ens[k as int].0, version)
                + enc_payload(ens[k as int].1, version);
            assert(enc_entries(ens, k as int, version) == head + enc_entries(
                ens,
                k + 1,
                version,
            ));
            assert(out@ =~= pre + head);
            assert((pre + head) + enc_entries(ens, k + 1, version) =~= pre + (head + enc_entries(
                ens,
                k + 1,
                version,
            )));
        }
        k = k + 1;
    }
    proof {
        assert(enc_entries(ens, ens.len() as int, version) =~= Seq::<u8>::empty());
        assert(out@ + Seq::<u8>::empty() =~= out@);
    }
}

/// Append the encodings of the 32-bit array elements.
fn push_i32s(out: &mut Vec<u8>, a: &Vec<i32>, version: NbtVersion)
    ensures
        final(out)@ == old(out)@ + enc_i32s(a@, 0, version),
{
    let ghost av = a@;
    let mut k: usize = 0;
    while k < a.len()
        invariant
            0 <= k <= av.len(),
            av == a@,
            old(out)@ + enc_i32s(av, 0, version) == out@ + enc_i32s(av, k as int, version),
        decreases av.len() - k,
    {
        let ghost pre = out@;
        push_word(out, a[k] as u32 as u64, 4, version);
        proof {
            assert(enc_i32s(av, k as int, version) == enc_word(av[k as int] as u32 as nat, 4, version)
                + enc_i32s(av, k + 1, version));
            assert((pre + enc_word(av[k as int] as u32 as nat, 4, version)) + enc_i32s(
                av,
                k + 1,
                version,
            ) =~= pre + (enc_word(av[k as int] as u32 as nat, 4, version) + enc_i32s(
                av,
                k + 1,
                version,
            )));
        }
        k = k + 1;
    }
    proof {
        assert(enc_i32s(av, av.len() as int, version) =~= Seq::<u8>::empty());
        assert(out@ + Seq::<u8>::empty() =~= out@);
    }
}

/// Append the encodings of the 64-bit array elements.
fn push_i64s(out: &mut Vec<u8>, a: &Vec<i64>, version: NbtVersion)
    ensures
        final(out)@ == old(out)@ + enc_i64s(a@, 0, version),
{
    let ghost av = a@;
    let mut k: usize = 0;
    while k < a.len()
        invariant
            0 <= k <= av.len(),
            av == a@,
            old(out)@ + enc_i64s(av, 0, version) == out@ + enc_i64s(av, k as int, version),
        decreases av.len() - k,
    {
        let ghost pre = out@;
        push_word(out, a[k] as u64, 8, version);
        proof {
            assert(enc_i64s(av, k as int, version) == enc_word(av[k as int] as u64 as nat, 8, version)
                + enc_i64s(av, k + 1, version));
            assert((pre + enc_word(av[k as int] as u64 as nat, 8, version)) + enc_i64s(
                av,
                k + 1,
                version,
            ) =~= pre + (enc_word(av[k as int] as u64 as nat, 8, version) + enc_i64s(
                av,
                k + 1,
                version,
            )));
        }
        k = k + 1;
    }
    proof {
        assert(enc_i64s(av, av.len() as int, version) =~= Seq::<u8>::empty());
        assert(out@ + Seq::<u8>::empty() =~= out@);
    }
}

/// Append the payload of `v`.  A compound's own name is not written here:
/// the root's name travels before the payload, and a nested compound's
/// name is written by its parent as the pair name.
#[verifier::rlimit(100)]
fn push_payload(out: &mut Vec<u8>, v: &NbtValue, version: NbtVersion)
    requires
        wf_payload(strip_root_name(v@), version),
    ensures
        final(out)@ == old(out)@ + enc_payload(v@, version),
    decreases v, 2int,
{
    match v {
        NbtValue::Byte(x) => {
            out.push(*x as u8);
            proof {
                assert(old(out)@.push(*x as u8) =~= old(out)@ + enc_payload(v@, version));
            }
        },
        NbtValue::Short(x) => {
            push_word(out, *x as u16 as u64, 2, version);
        },
        NbtValue::Int(x) => {
            push_word(out, *x as u32 as u64, 4, version);
        },
        NbtValue::Long(x) => {
            push_word(out, *x as u64, 8, version);
        },
        NbtValue::Float(bits) => {
            push_word(out, *bits as u64, 4, version);
        },
        NbtValue::Double(bits) => {
            push_word(out, *bits, 8, version);
        },
        NbtValue::ByteArray(a) => {
            push_count(out, a.len() as u64, version);
            let ghost mid = out@;
            let mut k: usize = 0;
            while k < a.len()
                invariant
                    0 <= k <= a@.len(),
                    out@ == mid + a@.subrange(0, k as int).map_values(|x: i8| x as u8),
                decreases a@.len() - k,
            {
                out.push(a[k] as u8);
                k = k + 1;
                proof {
                    assert(out@ =~= mid + a@.subrange(0, k as int).map_values(|x: i8| x as u8));
                }
            }
            proof {
                assert(a@.subrange(0, a@.len() as int) =~= a@);
                assert(out@ =~= old(out)@ + enc_payload(v@, version));
            }
        },
        NbtValue::String(s) => {
            push_str(out, s, version);
        },
        NbtValue::List(es) => {
            proof {
                lemma_view_list(es@);
            }
            let etag = if es.len() == 0 {
                0u8
            } else {
                es[0].tag()
            };
            out.push(etag);
            push_count(out, es.len() as u64, version);
            let ghost mid = out@;
            push_list_elems(out, es, version);
            proof {
                assert(mid =~= old(out)@ + seq![etag] + enc_count(view_list(es@).len(), version));
                assert(out@ =~= old(out)@ + (seq![etag] + enc_count(view_list(es@).len(), version)
                    + enc_elems(view_list(es@), 0, version)));
            }
        },
        NbtValue::Compound(_, entries) => {
            let ghost mid = out@;
            push_compound_entries(out, entries, version);
            out.push(0u8);
            proof {
                assert(out@ =~= old(out)@ + (enc_entries(view_entries(entries@), 0, version)
                    + seq![0u8]));
            }
        },
        NbtValue::IntArray(a) => {
            push_count(out, a.len() as u64, version);
            push_i32s(out, a, version);
            proof {
                assert(out@ =~= old(out)@ + (enc_count(a@.len(), version) + enc_i32s(
                    a@,
                    0,
                    version,
                )));
            }
        },
        NbtValue::LongArray(a) => {
            push_count(out, a.len() as u64, version);
            push_i64s(out, a, version);
            proof {
                assert(out@ =~= old(out)@ + (enc_count(a@.len(), version) + enc_i64s(
                    a@,
                    0,
                    version,
                )));
            }
        },
    }
}

/// Whether an element count fits the dialect's count field.
fn count_fits(n: usize, version: NbtVersion) -> (r: bool)
    ensures
        r == (n as nat <= version.max_count()),
{
    if version.varint_lengths() {
        (n as u64) <= 0xffff_ffffu64
    } else {
        (n as u64) <= 0x7fff_ffffu64
    }
}

/// Whether a string's UTF-8 byte length fits the dialect's length field.
fn str_fits(s: &String, version: NbtVersion) -> (r: bool)
    ensures
        r == (encode_utf8(s@).len() <= version.max_str_bytes()),
{
    let bytes = s.as_str().as_bytes_vec();
    proof {
        vstd::std_specs::vec::axiom_spec_len(&bytes);
    }
    let l = bytes.len();
    if version.varint_lengths() {
        (l as u64) <= 0xffff_ffffu64
    } else {
        (l as u64) <= 0xffffu64
    }
}

/// Whether every list element shares the first element's tag, is
/// well-formed, and nests within `budget` levels.  Walks the elements from
/// the back, so that the suffix already checked is exactly what the
/// well-formedness predicates describe.
fn elems_within(es: &Vec<NbtValue>, version: NbtVersion, budget: u32) -> (r: bool)
    ensures
        r == (crate::model::wf_elems(view_list(es@), 0, version) && crate::model::elems_depth_ok(
            view_list(es@),
            0,
            budget as nat,
        )),
    decreases es, 1int,
{
    proof {
        lemma_view_list(es@);
    }
    let ghost vs = view_list(es@);
    if es.len() == 0 {
        return true;
    }
    let ft = es[0].tag();
    let mut k: usize = es.len();
    while k > 0
        invariant
            0 <= k <= es@.len(),
            vs == view_list(es@),
            vs.len() == es@.len(),
            es@.len() >= 1,
            forall|j: int| 0 <= j < es@.len() ==> vs[j] == #[trigger] es@[j]@,
            ft == vs[0].tag(),
            crate::model::wf_elems(vs, k as int, version),
            crate::model::elems_depth_ok(vs, k as int, budget as nat),
        decreases k,
    {
        k = k - 1;
        let child = &es[k];
        proof {
            assert(es@[k as int]@ == vs[k as int]);
            assert(decreases_to!(*es => es@));
            assert(decreases_to!(es@ => es@[k as int]));
        }
        if child.tag() != ft {
            proof {
                if crate::model::wf_elems(vs, 0, version) {
                    lemma_wf_elems_elim(vs, 0, version);
                    assert(vs[k as int].tag() == vs[0].tag() && wf_payload(vs[k as int], version));
                }
            }
            return false;
        }
        if !payload_within(child, version, budget) {
            proof {
                if crate::model::wf_elems(vs, 0, version) && crate::model::elems_depth_ok(
                    vs,
                    0,
                    budget as nat,
                ) {
                    lemma_wf_elems_elim(vs, 0, version);
                    lemma_elems_depth_ok_elim(vs, 0, budget as nat);
                    assert(vs[k as int].tag() == vs[0].tag() && wf_payload(vs[k as int], version));
                    assert(depth_ok(vs[k as int], budget as nat));
                }
            }
            return false;
        }
    }
    true
}

/// Whether every compound pair has a name that fits the wire and a value
/// that is well-formed and nests within `budget` levels.  Walks the pairs
/// from the back, like `elems_within`.
fn entries_within(entries: &Vec<(String, NbtValue)>, version: NbtVersion, budget: u32) -> (r: bool)
    ensures
        r == (crate::model::wf_entries(view_entries(entries@), 0, version)
            && crate::model::entries_depth_ok(view_entries(entries@), 0, budget as nat)),
    decreases entries, 1int,
{
    proof {
        lemma_view_entries(entries@);
    }
    let ghost ens = view_entries(entries@);
    let mut k: usize = entries.len();
    while k > 0
        invariant
            0 <= k <= entries@.len(),
            ens == view_entries(entries@),
            ens.len() == entries@.len(),
            forall|j: int|
                0 <= j < entries@.len() ==> ens[j] == (#[trigger] entries@[j].0@, entries@[j].1@),
            crate::model::wf_entries(ens, k as int, version),
            crate::model::entries_depth_ok(ens, k as int, budget as nat),
        decreases k,
    {
        k = k - 1;
        let pair = &entries[k];
        proof {
            assert(ens[k as int] == (pair.0@, pair.1@));
            assert(decreases_to!(*entries => entries@));
            assert(decreases_to!(entries@ => entries@[k as int]));
            assert(decreases_to!(entries@[k as int] => entries@[k as int].1));
        }
        if !str_fits(&pair.0, version) {
            proof {
                if crate::model::wf_entries(ens, 0, version) {
                    lemma_wf_entries_elim(ens, 0, version);
                    assert(encode_utf8(ens[k as int].0).len() <= version.max_str_bytes()
                        && wf_payload(ens[k as int].1, version));
                }
            }
            return false;
        }
        if !payload_within(&pair.1, version, budget) {
            proof {
                if crate::model::wf_entries(ens, 0, version) && crate::model::entries_depth_ok(
                    ens,
                    0,
                    budget as nat,
                ) {
                    lemma_wf_entries_elim(ens, 0, version);
                    lemma_entries_depth_ok_elim(ens, 0, budget as nat);
                    assert(encode_utf8(ens[k as int].0).len() <= version.max_str_bytes()
                        && wf_payload(ens[k as int].1, version));
                    assert(depth_ok(ens[k as int].1, budget as nat));
                }
            }
            return false;
        }
    }
    true
}

/// Whether `v` is well-formed below the root and nests within `budget`
/// levels.
fn payload_within(v: &NbtValue, version: NbtVersion, budget: u32) -> (r: bool)
    ensures
        r == (wf_payload(v@, version) && depth_ok(v@, budget as nat)),
    decreases v, 2int,
{
    if budget == 0 {
        return false;
    }
    match v {
        NbtValue::Byte(_) => true,
        NbtValue::Short(_) => true,
        NbtValue::Int(_) => true,
        NbtValue::Long(_) => true,
        NbtValue::Float(_) => true,
        NbtValue::Double(_) => true,
        NbtValue::ByteArray(a) => count_fits(a.len(), version),
        NbtValue::String(s) => str_fits(s, version),
        NbtValue::IntArray(a) => count_fits(a.len(), version),
        NbtValue::LongArray(a) => count_fits(a.len(), version),
        NbtValue::List(es) => {
            proof {
                lemma_view_list(es@);
            }
            if !count_fits(es.len(), version) {
                return false;
            }
            elems_within(es, version, budget - 1)
        },
        NbtValue::Compound(name, entries) => {
            if name.is_some() {
                return false;
            }
            entries_within(entries, version, budget - 1)
        },
    }
}
impl NbtValue {
    /// Serialize this tree to bytes under dialect `version`: the root tag
    /// id, then the root's name where the dialect writes one (a non-compound
    /// root gets the empty name), then the payload.  Total for every
    /// well-formed tree, and the output is exactly the mathematical
    /// encoding.
    pub fn to_binary(&self, version: NbtVersion) -> (r: Vec<u8>)
        requires
            wf_nbt(self@, version),
        ensures
            r@ == enc_root(self@, version),
    {
        let mut out: Vec<u8> = Vec::new();
        let tag = self.tag();
        out.push(tag);
        if version.root_named() {
            match self {
                NbtValue::Compound(Some(name), _) => {
                    push_str(&mut out, name, version);
                },
                _ => {
                    let empty = String::new();
                    push_str(&mut out, &empty, version);
                },
            }
        }
        push_payload(&mut out, self, version);
        proof {
            assert(out@ =~= enc_root(self@, version));
        }
        out
    }

    /// Whether this tree is well-formed under dialect `version`: every
    /// length fits its wire field, lists are homogeneous, only the root
    /// compound carries a name and only where the dialect writes one, and
    /// the nesting stays within the decoder's depth bound.
    pub fn is_well_formed(&self, version: NbtVersion) -> (r: bool)
        ensures
            r == wf_nbt(self@, version),
    {
        match self {
            NbtValue::Compound(name, entries) => {
                proof {
                    lemma_view_entries(entries@);
                }
                let ghost ens = view_entries(entries@);
                let name_ok: bool = if version.root_named() {
                    match name {
                        Some(nm) => str_fits(nm, version),
                        None => false,
                    }
                } else {
                    name.is_none()
                };
                if !name_ok {
                    return false;
                }
                let r = entries_within(entries, version, MAX_DEPTH - 1);
                proof {
                    assert(strip_root_name(self@) == NbtTree::Compound(None::<Seq<char>>, ens));
                }
                r
            },
            _ => {
                proof {
                    assert(strip_root_name(self@) == self@);
                }
                payload_within(self, version, MAX_DEPTH)
            },
        }
    }

    /// Serialize this tree if it is well-formed under dialect `version`,
    /// checking well-formedness at run time; `None` exactly when the tree
    /// is not well-formed.
    pub fn try_to_binary(&self, version: NbtVersion) -> (r: Option<Vec<u8>>)
        ensures
            wf_nbt(self@, version) ==> (r matches Some(bytes) && bytes@ == enc_root(
                self@,
                version,
            )),
            !wf_nbt(self@, version) ==> r is None,
    {
        if self.is_well_formed(version) {
            Some(self.to_binary(version))
        } else {
            None
        }
    }
}

} // verus!
