//! The executable value model: one variant per content tag id, mirrored in
//! specifications by the mathematical tree `NbtTree` through `deep_view`.

use vstd::prelude::*;
use vstd::string::StringExecFns;

use crate::model::NbtTree;

verus! {

broadcast use vstd::seq::group_seq_axioms;

/// A decoded NBT node.  The two floating-point kinds carry their raw
/// IEEE-754 bit patterns, which keeps every decode/encode round trip exact;
/// a caller that wants the numeric reading applies `f32::from_bits` /
/// `f64::from_bits` to these payloads.
#[derive(Debug, PartialEq)]
pub enum NbtValue {
    /// Tag id 1: a signed byte.
    Byte(i8),
    /// Tag id 2: a signed 16-bit integer.
    Short(i16),
    /// Tag id 3: a signed 32-bit integer.
    Int(i32),
    /// Tag id 4: a signed 64-bit integer.
    Long(i64),
    /// Tag id 5: the bits of a 32-bit IEEE-754 number.
    Float(u32),
    /// Tag id 6: the bits of a 64-bit IEEE-754 number.
    Double(u64),
    /// Tag id 7: a counted sequence of signed bytes.
    ByteArray(Vec<i8>),
    /// Tag id 8: UTF-8 text, length-prefixed in bytes.
    String(String),
    /// Tag id 9: a counted homogeneous sequence of nodes.
    List(Vec<NbtValue>),
    /// Tag id 10: named pairs in wire order, with the optional name the
    /// root compound carries under named-root dialects.
    Compound(Option<String>, Vec<(String, NbtValue)>),
    /// Tag id 11: a counted sequence of signed 32-bit integers.
    IntArray(Vec<i32>),
    /// Tag id 12: a counted sequence of signed 64-bit integers.
    LongArray(Vec<i64>),
}

impl View for NbtValue {
    type V = NbtTree;

    /// The mathematical tree this value denotes.
    open spec fn view(&self) -> NbtTree
        decreases self, 0int,
    {
        match self {
            NbtValue::Byte(x) => NbtTree::Byte(*x),
            NbtValue::Short(x) => NbtTree::Short(*x),
            NbtValue::Int(x) => NbtTree::Int(*x),
            NbtValue::Long(x) => NbtTree::Long(*x),
            NbtValue::Float(bits) => NbtTree::Float(*bits),
            NbtValue::Double(bits) => NbtTree::Double(*bits),
            NbtValue::ByteArray(a) => NbtTree::ByteArray(a@),
            NbtValue::String(s) => NbtTree::String(s@),
            NbtValue::List(es) => NbtTree::List(view_list(es@)),
            NbtValue::Compound(name, entries) => NbtTree::Compound(
                match name {
                    Some(s) => Some(s@),
                    None => None,
                },
                view_entries(entries@),
            ),
            NbtValue::IntArray(a) => NbtTree::IntArray(a@),
            NbtValue::LongArray(a) => NbtTree::LongArray(a@),
        }
    }
}

/// The trees a sequence of values denotes, in order.
pub open spec fn view_list(es: Seq<NbtValue>) -> Seq<NbtTree>
    decreases es, 1int,
{
    if es.len() == 0 {
        Seq::empty()
    } else {
        seq![es[0]@] + view_list(es.drop_first())
    }
}

/// The (name, tree) pairs a sequence of compound entries denotes, in order.
pub open spec fn view_entries(entries: Seq<(String, NbtValue)>) -> Seq<(Seq<char>, NbtTree)>
    decreases entries, 1int,
{
    if entries.len() == 0 {
        Seq::empty()
    } else {
        seq![(entries[0].0@, entries[0].1@)] + view_entries(entries.drop_first())
    }
}

/// `view_list` maps the sequence pointwise.
pub proof fn lemma_view_list(es: Seq<NbtValue>)
    ensures
        view_list(es).len() == es.len(),
        forall|i: int| 0 <= i < es.len() ==> view_list(es)[i] == #[trigger] es[i]@,
    decreases es,
{
    if es.len() > 0 {
        lemma_view_list(es.drop_first());
        assert(view_list(es) == seq![es[0]@] + view_list(es.drop_first()));
        assert forall|i: int| 0 <= i < es.len() implies view_list(es)[i] == #[trigger] es[i]@ by {
            if i > 0 {
                assert(view_list(es)[i] == view_list(es.drop_first())[i - 1]);
                assert(es.drop_first()[i - 1] == es[i]);
            }
        }
    }
}

/// `view_entries` maps the sequence pointwise.
pub proof fn lemma_view_entries(entries: Seq<(String, NbtValue)>)
    ensures
        view_entries(entries).len() == entries.len(),
        forall|i: int| 0 <= i < entries.len() ==> view_entries(entries)[i] == (
            #[trigger] entries[i].0@,
            entries[i].1@,
        ),
    decreases entries,
{
    if entries.len() > 0 {
        lemma_view_entries(entries.drop_first());
        assert(view_entries(entries) == seq![(entries[0].0@, entries[0].1@)] + view_entries(
            entries.drop_first(),
        ));
        assert forall|i: int| 0 <= i < entries.len() implies view_entries(entries)[i] == (
            #[trigger] entries[i].0@,
            entries[i].1@,
        ) by {
            if i > 0 {
                assert(view_entries(entries)[i] == view_entries(entries.drop_first())[i - 1]);
                assert(entries.drop_first()[i - 1] == entries[i]);
            }
        }
    }
}

impl NbtValue {
    /// The content tag id this node is written with.
    pub fn tag(&self) -> (r: u8)
        ensures
            r == self@.tag(),
    {
        match self {
            NbtValue::Byte(_) => 1,
            NbtValue::Short(_) => 2,
            NbtValue::Int(_) => 3,
            NbtValue::Long(_) => 4,
            NbtValue::Float(_) => 5,
            NbtValue::Double(_) => 6,
            NbtValue::ByteArray(_) => 7,
            NbtValue::String(_) => 8,
            NbtValue::List(_) => 9,
            NbtValue::Compound(_, _) => 10,
            NbtValue::IntArray(_) => 11,
            NbtValue::LongArray(_) => 12,
        }
    }
}

/// The decimal digit `d` as a character sequence.
pub open spec fn digit_chars(d: u8) -> Seq<char> {
    if d == 0 {
        "0"@
    } else if d == 1 {
        "1"@
    } else if d == 2 {
        "2"@
    } else if d == 3 {
        "3"@
    } else if d == 4 {
        "4"@
    } else if d == 5 {
        "5"@
    } else if d == 6 {
        "6"@
    } else if d == 7 {
        "7"@
    } else if d == 8 {
        "8"@
    } else {
        "9"@
    }
}

/// The decimal digits of `n`, without leading zeroes.
pub open spec fn decimal_chars(n: u8) -> Seq<char> {
    if n < 10 {
        digit_chars(n)
    } else if n < 100 {
        digit_chars(n / 10) + digit_chars(n % 10)
    } else {
        digit_chars(n / 100) + digit_chars((n / 10) % 10) + digit_chars(n % 10)
    }
}

/// The printable name of tag id `n`: the tag kind for ids 0..=12, and an
/// unknown-type marker carrying the id itself for anything else.
pub open spec fn type_name_chars(n: u8) -> Seq<char> {
    if n == 0 {
        "End"@
    } else if n == 1 {
        "Byte"@
    } else if n == 2 {
        "Short"@
    } else if n == 3 {
        "Int"@
    } else if n == 4 {
        "Long"@
    } else if n == 5 {
        "Float"@
    } else if n == 6 {
        "Double"@
    } else if n == 7 {
        "ByteArray"@
    } else if n == 8 {
        "String"@
    } else if n == 9 {
        "List"@
    } else if n == 10 {
        "Compound"@
    } else if n == 11 {
        "IntArray"@
    } else if n == 12 {
        "LongArray"@
    } else {
        "\u{672a}\u{77e5}\u{7c7b}\u{578b}("@ + decimal_chars(n) + ")"@
    }
}

fn digit_str(d: u8) -> (r: &'static str)
    requires
        d < 10,
    ensures
        r@ == digit_chars(d),
{
    if d == 0 {
        "0"
    } else if d == 1 {
        "1"
    } else if d == 2 {
        "2"
    } else if d == 3 {
        "3"
    } else if d == 4 {
        "4"
    } else if d == 5 {
        "5"
    } else if d == 6 {
        "6"
    } else if d == 7 {
        "7"
    } else if d == 8 {
        "8"
    } else {
        "9"
    }
}

/// Appending a value appends its tree.
pub proof fn lemma_view_list_push(es: Seq<NbtValue>, v: NbtValue)
    ensures
        view_list(es.push(v)) == view_list(es) + seq![v@],
{
    lemma_view_list(es);
    lemma_view_list(es.push(v));
    assert forall|i: int| 0 <= i < es.len() + 1 implies view_list(es.push(v))[i] == (view_list(es)
        + seq![v@])[i] by {
        assert(view_list(es.push(v))[i] == es.push(v)[i]@);
        if i < es.len() {
            assert(es.push(v)[i] == es[i]);
            assert(view_list(es)[i] == es[i]@);
        } else {
            assert(es.push(v)[i] == v);
        }
    }
    assert(view_list(es.push(v)) =~= view_list(es) + seq![v@]);
}

/// Appending an entry appends its (name, tree) pair.
pub proof fn lemma_view_entries_push(entries: Seq<(String, NbtValue)>, name: String, v: NbtValue)
    ensures
        view_entries(entries.push((name, v))) == view_entries(entries) + seq![(name@, v@)],
{
    lemma_view_entries(entries);
    lemma_view_entries(entries.push((name, v)));
    assert forall|i: int| 0 <= i < entries.len() + 1 implies view_entries(entries.push((name, v)))[i]
        == (view_entries(entries) + seq![(name@, v@)])[i] by {
        assert(view_entries(entries.push((name, v)))[i] == (
            entries.push((name, v))[i].0@,
            entries.push((name, v))[i].1@,
        ));
        if i < entries.len() {
            assert(entries.push((name, v))[i] == entries[i]);
            assert(view_entries(entries)[i] == (entries[i].0@, entries[i].1@));
        } else {
            assert(entries.push((name, v))[i] == (name, v));
        }
    }
    assert(view_entries(entries.push((name, v))) =~= view_entries(entries) + seq![(name@, v@)]);
}

/// Printable names for tag ids.
pub trait NbtTypeConversion {
    fn as_nbt_type_name(&self) -> String;
}

impl NbtTypeConversion for u8 {
    /// The name of the tag kind `self` denotes, or an unknown-type marker.
    fn as_nbt_type_name(&self) -> (r: String)
        ensures
            r@ == type_name_chars(*self),
    {
        let n = *self;
        if n == 0 {
            "End".to_owned()
        } else if n == 1 {
            "Byte".to_owned()
        } else if n == 2 {
            "Short".to_owned()
        } else if n == 3 {
            "Int".to_owned()
        } else if n == 4 {
            "Long".to_owned()
        } else if n == 5 {
            "Float".to_owned()
        } else if n == 6 {
            "Double".to_owned()
        } else if n == 7 {
            "ByteArray".to_owned()
        } else if n == 8 {
            "String".to_owned()
        } else if n == 9 {
            "List".to_owned()
        } else if n == 10 {
            "Compound".to_owned()
        } else if n == 11 {
            "IntArray".to_owned()
        } else if n == 12 {
            "LongArray".to_owned()
        } else {
            let mut s = "\u{672a}\u{77e5}\u{7c7b}\u{578b}(".to_owned();
            if n >= 100 {
                s.append(digit_str(n / 100));
                s.append(digit_str((n / 10) % 10));
            } else if n >= 10 {
                s.append(digit_str(n / 10));
            }
            s.append(digit_str(n % 10));
            s.append(")");
            proof {
                assert(s@ =~= type_name_chars(n));
            }
            s
        }
    }
}

} // verus!
