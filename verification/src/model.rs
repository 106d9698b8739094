//! The data model: the dialect descriptor, the mathematical tree that a
//! decoded buffer denotes, the error kinds, and well-formedness of trees.

use vstd::prelude::*;
use vstd::utf8::encode_utf8;

verus! {

/// Byte order of multi-byte fields on the wire.
#[derive(Clone, Copy, Debug, PartialEq, Eq, Structural)]
pub enum Endian {
    Big,
    Little,
}

/// The recognized dialects.  Each one fixes three orthogonal knobs:
/// endianness, whether the root tag carries a name, and whether length
/// fields are fixed-width or variable-width integers.
///
/// - `Java`: big-endian, named root, fixed-width lengths (the on-disk
///   reference format).
/// - `JavaNetAfter1_20_2`: big-endian, unnamed root, fixed-width lengths
///   (the network format that elides the redundant root name).
/// - `BedrockDisk`: little-endian, named root, fixed-width lengths.
/// - `BedrockNetVarInt`: little-endian, named root, variable-width lengths.
#[derive(Clone, Copy, Debug, PartialEq, Eq, Structural)]
pub enum NbtVersion {
    Java,
    JavaNetAfter1_20_2,
    BedrockDisk,
    BedrockNetVarInt,
}

/// The decoder aborts once a value sits this deep in the tree, rather than
/// risking the call stack on adversarial nesting.
pub const MAX_DEPTH: u32 = 512;

impl NbtVersion {
    /// Whether multi-byte fields are big-endian under this dialect.
    pub open spec fn spec_big_endian(self) -> bool {
        match self {
            NbtVersion::Java => true,
            NbtVersion::JavaNetAfter1_20_2 => true,
            NbtVersion::BedrockDisk => false,
            NbtVersion::BedrockNetVarInt => false,
        }
    }

    #[verifier::when_used_as_spec(spec_big_endian)]
    pub fn big_endian(self) -> (r: bool)
        ensures
            r == self.spec_big_endian(),
    {
        match self {
            NbtVersion::Java => true,
            NbtVersion::JavaNetAfter1_20_2 => true,
            NbtVersion::BedrockDisk => false,
            NbtVersion::BedrockNetVarInt => false,
        }
    }

    pub open spec fn spec_endianness(self) -> Endian {
        if self.spec_big_endian() {
            Endian::Big
        } else {
            Endian::Little
        }
    }

    #[verifier::when_used_as_spec(spec_endianness)]
    pub fn endianness(self) -> (r: Endian)
        ensures
            r == self.spec_endianness(),
    {
        if self.big_endian() {
            Endian::Big
        } else {
            Endian::Little
        }
    }

    /// Whether a name follows the root tag id on the wire.
    pub open spec fn spec_root_named(self) -> bool {
        match self {
            NbtVersion::Java => true,
            NbtVersion::JavaNetAfter1_20_2 => false,
            NbtVersion::BedrockDisk => true,
            NbtVersion::BedrockNetVarInt => true,
        }
    }

    #[verifier::when_used_as_spec(spec_root_named)]
    pub fn root_named(self) -> (r: bool)
        ensures
            r == self.spec_root_named(),
    {
        match self {
            NbtVersion::Java => true,
            NbtVersion::JavaNetAfter1_20_2 => false,
            NbtVersion::BedrockDisk => true,
            NbtVersion::BedrockNetVarInt => true,
        }
    }

    /// Whether length and count fields are variable-width integers.
    pub open spec fn spec_varint_lengths(self) -> bool {
        match self {
            NbtVersion::Java => false,
            NbtVersion::JavaNetAfter1_20_2 => false,
            NbtVersion::BedrockDisk => false,
            NbtVersion::BedrockNetVarInt => true,
        }
    }

    #[verifier::when_used_as_spec(spec_varint_lengths)]
    pub fn varint_lengths(self) -> (r: bool)
        ensures
            r == self.spec_varint_lengths(),
    {
        match self {
            NbtVersion::Java => false,
            NbtVersion::JavaNetAfter1_20_2 => false,
            NbtVersion::BedrockDisk => false,
            NbtVersion::BedrockNetVarInt => true,
        }
    }

    /// The largest element count an array or list may carry under this
    /// dialect: fixed-width counts are signed 32-bit, variable-width counts
    /// are unsigned 32-bit.
    pub open spec fn max_count(self) -> nat {
        if self.spec_varint_lengths() {
            0xffff_ffff
        } else {
            0x7fff_ffff
        }
    }

    /// The largest byte length a string may carry under this dialect:
    /// fixed-width string lengths are unsigned 16-bit, variable-width ones
    /// unsigned 32-bit.
    pub open spec fn max_str_bytes(self) -> nat {
        if self.spec_varint_lengths() {
            0xffff_ffff
        } else {
            0xffff
        }
    }
}

/// What a decode call can fail with.  Every failure aborts the whole
/// decode; no partial tree is returned.
#[derive(Clone, Copy, Debug, PartialEq, Eq, Structural)]
pub enum DecodeError {
    /// The buffer ended before a read the format demands.
    UnexpectedEof,
    /// A tag id outside 0..=12 stood where a content tag is expected.
    UnknownTag,
    /// A value sits deeper than `MAX_DEPTH` levels of nesting.
    NestingTooDeep,
    /// The tag id at the very start of the buffer is the end sentinel 0.
    InvalidRootTag,
}

/// The mathematical value of a decoded NBT node, one variant per content
/// tag id 1..=12.  Strings are sequences of characters; the two
/// floating-point kinds are carried as their raw IEEE-754 bit patterns, so
/// that the codec is exact.  A compound holds its pairs in wire order;
/// duplicate names are legal and preserved.
pub enum NbtTree {
    Byte(i8),
    Short(i16),
    Int(i32),
    Long(i64),
    Float(u32),
    Double(u64),
    ByteArray(Seq<i8>),
    String(Seq<char>),
    List(Seq<NbtTree>),
    Compound(Option<Seq<char>>, Seq<(Seq<char>, NbtTree)>),
    IntArray(Seq<i32>),
    LongArray(Seq<i64>),
}

impl NbtTree {
    /// The content tag id written on the wire for this node.
    pub open spec fn tag(self) -> u8 {
        match self {
            NbtTree::Byte(_) => 1,
            NbtTree::Short(_) => 2,
            NbtTree::Int(_) => 3,
            NbtTree::Long(_) => 4,
            NbtTree::Float(_) => 5,
            NbtTree::Double(_) => 6,
            NbtTree::ByteArray(_) => 7,
            NbtTree::String(_) => 8,
            NbtTree::List(_) => 9,
            NbtTree::Compound(_, _) => 10,
            NbtTree::IntArray(_) => 11,
            NbtTree::LongArray(_) => 12,
        }
    }
}

/// Well-formedness of a node standing anywhere below the root: lengths fit
/// their wire fields, list elements are homogeneous, and a nested compound
/// carries no name of its own (its name lives in the parent's pair).
pub open spec fn wf_payload(t: NbtTree, d: NbtVersion) -> bool
    decreases t, 1int, 0int,
{
    match t {
        NbtTree::Byte(_) => true,
        NbtTree::Short(_) => true,
        NbtTree::Int(_) => true,
        NbtTree::Long(_) => true,
        NbtTree::Float(_) => true,
        NbtTree::Double(_) => true,
        NbtTree::ByteArray(a) => a.len() <= d.max_count(),
        NbtTree::String(s) => encode_utf8(s).len() <= d.max_str_bytes(),
        NbtTree::List(es) => es.len() <= d.max_count() && wf_elems(es, 0, d),
        NbtTree::Compound(name, entries) => name is None && wf_entries(entries, 0, d),
        NbtTree::IntArray(a) => a.len() <= d.max_count(),
        NbtTree::LongArray(a) => a.len() <= d.max_count(),
    }
}

/// Well-formedness of the elements of a list from index `k` on: each shares
/// the first element's tag and is itself well-formed.
pub open spec fn wf_elems(es: Seq<NbtTree>, k: int, d: NbtVersion) -> bool
    decreases es, 0int, es.len() - k,
{
    if !(0 <= k && k < es.len()) {
        true
    } else {
        &&& es[k].tag() == es[0].tag()
        &&& wf_payload(es[k], d)
        &&& wf_elems(es, k + 1, d)
    }
}

/// Well-formedness of the pairs of a compound from index `k` on: each name
/// fits its wire length field and each value is well-formed.
pub open spec fn wf_entries(entries: Seq<(Seq<char>, NbtTree)>, k: int, d: NbtVersion) -> bool
    decreases entries, 0int, entries.len() - k,
{
    if !(0 <= k && k < entries.len()) {
        true
    } else {
        &&& encode_utf8(entries[k].0).len() <= d.max_str_bytes()
        &&& wf_payload(entries[k].1, d)
        &&& wf_entries(entries, k + 1, d)
    }
}

/// Whether every node of `t` sits within `depth` levels of nesting, the
/// bound the decoder enforces.  `t` itself takes one level; the children of
/// a list or compound sit one level deeper.
pub open spec fn depth_ok(t: NbtTree, depth: nat) -> bool
    decreases t, 1int, 0int,
{
    depth >= 1 && match t {
        NbtTree::List(es) => elems_depth_ok(es, 0, (depth - 1) as nat),
        NbtTree::Compound(_, entries) => entries_depth_ok(entries, 0, (depth - 1) as nat),
        _ => true,
    }
}

pub open spec fn elems_depth_ok(es: Seq<NbtTree>, k: int, depth: nat) -> bool
    decreases es, 0int, es.len() - k,
{
    if !(0 <= k && k < es.len()) {
        true
    } else {
        depth_ok(es[k], depth) && elems_depth_ok(es, k + 1, depth)
    }
}

pub open spec fn entries_depth_ok(entries: Seq<(Seq<char>, NbtTree)>, k: int, depth: nat) -> bool
    decreases entries, 0int, entries.len() - k,
{
    if !(0 <= k && k < entries.len()) {
        true
    } else {
        depth_ok(entries[k].1, depth) && entries_depth_ok(entries, k + 1, depth)
    }
}

/// Everything `wf_elems` demands of each element from `k` on.
pub proof fn lemma_wf_elems_elim(es: Seq<NbtTree>, k: int, d: NbtVersion)
    requires
        0 <= k,
        wf_elems(es, k, d),
    ensures
        forall|j: int|
            k <= j < es.len() ==> (#[trigger] es[j].tag()) == es[0].tag() && wf_payload(es[j], d),
    decreases es.len() - k,
{
    if k < es.len() {
        lemma_wf_elems_elim(es, k + 1, d);
        assert forall|j: int|
            k <= j < es.len() implies (#[trigger] es[j].tag()) == es[0].tag() && wf_payload(
            es[j],
            d,
        ) by {
            if j > k {
                assert(wf_elems(es, k + 1, d));
            }
        }
    }
}

/// `wf_elems` follows once each element from `k` on matches the first
/// element's tag and is well-formed.
pub proof fn lemma_wf_elems_intro(es: Seq<NbtTree>, k: int, d: NbtVersion)
    requires
        0 <= k,
        forall|j: int|
            k <= j < es.len() ==> (#[trigger] es[j].tag()) == es[0].tag() && wf_payload(es[j], d),
    ensures
        wf_elems(es, k, d),
    decreases es.len() - k,
{
    if k < es.len() {
        assert(es[k].tag() == es[0].tag() && wf_payload(es[k], d));
        lemma_wf_elems_intro(es, k + 1, d);
    }
}

/// Everything `wf_entries` demands of each pair from `k` on.
pub proof fn lemma_wf_entries_elim(entries: Seq<(Seq<char>, NbtTree)>, k: int, d: NbtVersion)
    requires
        0 <= k,
        wf_entries(entries, k, d),
    ensures
        forall|j: int|
            k <= j < entries.len() ==> encode_utf8(#[trigger] entries[j].0).len()
                <= d.max_str_bytes() && wf_payload(entries[j].1, d),
    decreases entries.len() - k,
{
    if k < entries.len() {
        lemma_wf_entries_elim(entries, k + 1, d);
        assert forall|j: int|
            k <= j < entries.len() implies encode_utf8(#[trigger] entries[j].0).len()
            <= d.max_str_bytes() && wf_payload(entries[j].1, d) by {
            if j > k {
                assert(wf_entries(entries, k + 1, d));
            }
        }
    }
}

/// `wf_entries` follows once each pair from `k` on has a fitting name and a
/// well-formed value.
pub proof fn lemma_wf_entries_intro(entries: Seq<(Seq<char>, NbtTree)>, k: int, d: NbtVersion)
    requires
        0 <= k,
        forall|j: int|
            k <= j < entries.len() ==> encode_utf8(#[trigger] entries[j].0).len()
                <= d.max_str_bytes() && wf_payload(entries[j].1, d),
    ensures
        wf_entries(entries, k, d),
    decreases entries.len() - k,
{
    if k < entries.len() {
        assert(encode_utf8(entries[k].0).len() <= d.max_str_bytes() && wf_payload(entries[k].1, d));
        lemma_wf_entries_intro(entries, k + 1, d);
    }
}

/// Everything `elems_depth_ok` demands of each element from `k` on.
pub proof fn lemma_elems_depth_ok_elim(es: Seq<NbtTree>, k: int, depth: nat)
    requires
        0 <= k,
        elems_depth_ok(es, k, depth),
    ensures
        forall|j: int| k <= j < es.len() ==> depth_ok(#[trigger] es[j], depth),
    decreases es.len() - k,
{
    if k < es.len() {
        lemma_elems_depth_ok_elim(es, k + 1, depth);
        assert forall|j: int| k <= j < es.len() implies depth_ok(#[trigger] es[j], depth) by {
            if j > k {
                assert(elems_depth_ok(es, k + 1, depth));
            }
        }
    }
}

/// `elems_depth_ok` follows once each element from `k` on sits within
/// `depth` levels.
pub proof fn lemma_elems_depth_ok_intro(es: Seq<NbtTree>, k: int, depth: nat)
    requires
        0 <= k,
        forall|j: int| k <= j < es.len() ==> depth_ok(#[trigger] es[j], depth),
    ensures
        elems_depth_ok(es, k, depth),
    decreases es.len() - k,
{
    if k < es.len() {
        lemma_elems_depth_ok_intro(es, k + 1, depth);
    }
}

/// Everything `entries_depth_ok` demands of each pair's value from `k` on.
pub proof fn lemma_entries_depth_ok_elim(entries: Seq<(Seq<char>, NbtTree)>, k: int, depth: nat)
    requires
        0 <= k,
        entries_depth_ok(entries, k, depth),
    ensures
        forall|j: int| k <= j < entries.len() ==> depth_ok(#[trigger] entries[j].1, depth),
    decreases entries.len() - k,
{
    if k < entries.len() {
        lemma_entries_depth_ok_elim(entries, k + 1, depth);
        assert forall|j: int|
            k <= j < entries.len() implies depth_ok(#[trigger] entries[j].1, depth) by {
            if j > k {
                assert(entries_depth_ok(entries, k + 1, depth));
            }
        }
    }
}

/// `entries_depth_ok` follows once each pair's value from `k` on sits
/// within `depth` levels.
pub proof fn lemma_entries_depth_ok_intro(entries: Seq<(Seq<char>, NbtTree)>, k: int, depth: nat)
    requires
        0 <= k,
        forall|j: int| k <= j < entries.len() ==> depth_ok(#[trigger] entries[j].1, depth),
    ensures
        entries_depth_ok(entries, k, depth),
    decreases entries.len() - k,
{
    if k < entries.len() {
        lemma_entries_depth_ok_intro(entries, k + 1, depth);
    }
}

/// Well-formedness of a whole tree under dialect `d`: the root compound's
/// name is present exactly when the dialect writes one, everything below is
/// well-formed, and the nesting depth stays within the decoder's bound.
pub open spec fn wf_nbt(t: NbtTree, d: NbtVersion) -> bool {
    &&& match t {
        NbtTree::Compound(name, entries) => {
            &&& if d.spec_root_named() {
                name is Some && encode_utf8(name->0).len() <= d.max_str_bytes()
            } else {
                name is None
            }
            &&& wf_entries(entries, 0, d)
        },
        _ => wf_payload(t, d),
    }
    &&& depth_ok(strip_root_name(t), MAX_DEPTH as nat)
}

/// The same tree with a root compound's own name removed; the name travels
/// separately on the wire, before the payload.
pub open spec fn strip_root_name(t: NbtTree) -> NbtTree {
    match t {
        NbtTree::Compound(_, entries) => NbtTree::Compound(None, entries),
        _ => t,
    }
}

} // verus!
