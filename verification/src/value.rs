//! The two value worlds the conversion engine mediates between: the
//! host's dynamic values and the bus's signature-tagged wire values,
//! each with its mathematical model.  Float payloads are carried as raw
//! 64-bit patterns so that every conversion stays exact.

use vstd::prelude::*;

use crate::signature::Signature;
use crate::signature::SigModel;
use crate::signature::sig_view;
use crate::signature::sigs_view;

verus! {

broadcast use vstd::std_specs::vec::group_vec_axioms, vstd::seq::group_seq_axioms;

/// A dynamic value of the hosting environment: untyped, recursively
/// structured.  `Float` carries the bit pattern of a 64-bit
/// floating-point value; `Duration` counts nanoseconds.
#[derive(Debug, PartialEq, Eq)]
pub enum DynValue {
    Nothing,
    Bool(bool),
    Int(i64),
    Float(u64),
    Str(String),
    Binary(Vec<u8>),
    List(Vec<DynValue>),
    Record(Vec<(String, DynValue)>),
    Duration(i64),
}

/// The model of a dynamic value.
#[verifier::ext_equal]
pub enum DynModel {
    Nothing,
    Bool(bool),
    Int(i64),
    Float(u64),
    Str(Seq<char>),
    Binary(Seq<u8>),
    List(Seq<DynModel>),
    Record(Seq<(Seq<char>, DynModel)>),
    Duration(i64),
}

/// A wire value: a payload tagged by exactly one signature shape.
/// Arrays and dictionaries carry their element signatures so that an
/// empty one still knows its type; a variant carries its inner value's
/// signature.
#[derive(Debug, PartialEq, Eq)]
pub enum WireValue {
    Byte(u8),
    Bool(bool),
    Int16(i16),
    UInt16(u16),
    Int32(i32),
    UInt32(u32),
    Int64(i64),
    UInt64(u64),
    Double(u64),
    Str(String),
    ObjectPath(String),
    Sig(String),
    Array(Signature, Vec<WireValue>),
    Struct(Vec<WireValue>),
    Dict(Signature, Signature, Vec<(WireValue, WireValue)>),
    Variant(Signature, Box<WireValue>),
    UnixFd(u32),
}

/// The model of a wire value.
#[verifier::ext_equal]
pub enum WireModel {
    Byte(u8),
    Bool(bool),
    Int16(i16),
    UInt16(u16),
    Int32(i32),
    UInt32(u32),
    Int64(i64),
    UInt64(u64),
    Double(u64),
    Str(Seq<char>),
    ObjectPath(Seq<char>),
    Sig(Seq<char>),
    Array(SigModel, Seq<WireModel>),
    Struct(Seq<WireModel>),
    Dict(SigModel, SigModel, Seq<(WireModel, WireModel)>),
    Variant(SigModel, Box<WireModel>),
    UnixFd(u32),
}

/// The models of a sequence of dynamic values, elementwise.
pub open spec fn dyns_view(s: Seq<DynValue>) -> Seq<DynModel>
    decreases s,
{
    if s.len() == 0 {
        Seq::empty()
    } else {
        seq![dyn_view(s[0])] + dyns_view(s.drop_first())
    }
}

/// The models of a sequence of record fields, elementwise.
pub open spec fn fields_view(s: Seq<(String, DynValue)>) -> Seq<(Seq<char>, DynModel)>
    decreases s,
{
    if s.len() == 0 {
        Seq::empty()
    } else {
        seq![(s[0].0@, dyn_view(s[0].1))] + fields_view(s.drop_first())
    }
}

pub open spec fn dyn_view(v: DynValue) -> DynModel
    decreases v,
{
    match v {
        DynValue::Nothing => DynModel::Nothing,
        DynValue::Bool(b) => DynModel::Bool(b),
        DynValue::Int(i) => DynModel::Int(i),
        DynValue::Float(f) => DynModel::Float(f),
        DynValue::Str(s) => DynModel::Str(s@),
        DynValue::Binary(b) => DynModel::Binary(b@),
        DynValue::List(es) => DynModel::List(dyns_view(es@)),
        DynValue::Record(fs) => DynModel::Record(fields_view(fs@)),
        DynValue::Duration(d) => DynModel::Duration(d),
    }
}

impl View for DynValue {
    type V = DynModel;

    open spec fn view(&self) -> DynModel {
        dyn_view(*self)
    }
}

/// The models of a sequence of wire values, elementwise.
pub open spec fn wires_view(s: Seq<WireValue>) -> Seq<WireModel>
    decreases s,
{
    if s.len() == 0 {
        Seq::empty()
    } else {
        seq![wire_view(s[0])] + wires_view(s.drop_first())
    }
}

/// The models of a sequence of dictionary entries, elementwise.
pub open spec fn pairs_view(s: Seq<(WireValue, WireValue)>) -> Seq<(WireModel, WireModel)>
    decreases s,
{
    if s.len() == 0 {
        Seq::empty()
    } else {
        seq![(wire_view(s[0].0), wire_view(s[0].1))] + pairs_view(s.drop_first())
    }
}

pub open spec fn wire_view(w: WireValue) -> WireModel
    decreases w,
{
    match w {
        WireValue::Byte(x) => WireModel::Byte(x),
        WireValue::Bool(x) => WireModel::Bool(x),
        WireValue::Int16(x) => WireModel::Int16(x),
        WireValue::UInt16(x) => WireModel::UInt16(x),
        WireValue::Int32(x) => WireModel::Int32(x),
        WireValue::UInt32(x) => WireModel::UInt32(x),
        WireValue::Int64(x) => WireModel::Int64(x),
        WireValue::UInt64(x) => WireModel::UInt64(x),
        WireValue::Double(x) => WireModel::Double(x),
        WireValue::Str(s) => WireModel::Str(s@),
        WireValue::ObjectPath(s) => WireModel::ObjectPath(s@),
        WireValue::Sig(s) => WireModel::Sig(s@),
        WireValue::Array(e, ws) => WireModel::Array(sig_view(e), wires_view(ws@)),
        WireValue::Struct(ws) => WireModel::Struct(wires_view(ws@)),
        WireValue::Dict(k, v, ps) => WireModel::Dict(
            sig_view(k),
            sig_view(v),
            pairs_view(ps@),
        ),
        WireValue::Variant(s, w) => WireModel::Variant(
            sig_view(s),
            Box::new(wire_view(*w)),
        ),
        WireValue::UnixFd(x) => WireModel::UnixFd(x),
    }
}

impl View for WireValue {
    type V = WireModel;

    open spec fn view(&self) -> WireModel {
        wire_view(*self)
    }
}

/// `dyns_view` is the elementwise image of `dyn_view`.
pub proof fn lemma_dyns_view_pointwise(s: Seq<DynValue>)
    ensures
        dyns_view(s).len() == s.len(),
        forall|i: int| 0 <= i < s.len()
            ==> dyns_view(s)[i] == dyn_view(#[trigger] s[i]),
    decreases s.len(),
{
    if s.len() > 0 {
        lemma_dyns_view_pointwise(s.drop_first());
        assert forall|i: int| 0 <= i < s.len()
            implies dyns_view(s)[i] == dyn_view(#[trigger] s[i]) by {
            if i > 0 {
                assert(s.drop_first()[i - 1] == s[i]);
                assert(dyns_view(s.drop_first())[i - 1]
                    == dyn_view(s.drop_first()[i - 1]));
            }
        }
    }
}

/// `fields_view` is the elementwise image of the field view.
pub proof fn lemma_fields_view_pointwise(s: Seq<(String, DynValue)>)
    ensures
        fields_view(s).len() == s.len(),
        forall|i: int| 0 <= i < s.len()
            ==> fields_view(s)[i] == ((#[trigger] s[i]).0@, dyn_view(s[i].1)),
    decreases s.len(),
{
    if s.len() > 0 {
        lemma_fields_view_pointwise(s.drop_first());
        assert forall|i: int| 0 <= i < s.len()
            implies fields_view(s)[i] == ((#[trigger] s[i]).0@, dyn_view(s[i].1)) by {
            if i > 0 {
                assert(s.drop_first()[i - 1] == s[i]);
                assert(fields_view(s.drop_first())[i - 1]
                    == (s.drop_first()[i - 1].0@, dyn_view(s.drop_first()[i - 1].1)));
            }
        }
    }
}

/// `wires_view` is the elementwise image of `wire_view`.
pub proof fn lemma_wires_view_pointwise(s: Seq<WireValue>)
    ensures
        wires_view(s).len() == s.len(),
        forall|i: int| 0 <= i < s.len()
            ==> wires_view(s)[i] == wire_view(#[trigger] s[i]),
    decreases s.len(),
{
    if s.len() > 0 {
        lemma_wires_view_pointwise(s.drop_first());
        assert forall|i: int| 0 <= i < s.len()
            implies wires_view(s)[i] == wire_view(#[trigger] s[i]) by {
            if i > 0 {
                assert(s.drop_first()[i - 1] == s[i]);
                assert(wires_view(s.drop_first())[i - 1]
                    == wire_view(s.drop_first()[i - 1]));
            }
        }
    }
}

/// `pairs_view` is the elementwise image of the entry view.
pub proof fn lemma_pairs_view_pointwise(s: Seq<(WireValue, WireValue)>)
    ensures
        pairs_view(s).len() == s.len(),
        forall|i: int| 0 <= i < s.len()
            ==> pairs_view(s)[i]
                == (wire_view((#[trigger] s[i]).0), wire_view(s[i].1)),
    decreases s.len(),
{
    if s.len() > 0 {
        lemma_pairs_view_pointwise(s.drop_first());
        assert forall|i: int| 0 <= i < s.len()
            implies pairs_view(s)[i]
                == (wire_view((#[trigger] s[i]).0), wire_view(s[i].1)) by {
            if i > 0 {
                assert(s.drop_first()[i - 1] == s[i]);
                assert(pairs_view(s.drop_first())[i - 1]
                    == (wire_view(s.drop_first()[i - 1].0),
                        wire_view(s.drop_first()[i - 1].1)));
            }
        }
    }
}

/// Appending a dynamic value appends its model.
pub proof fn lemma_dyns_view_push(s: Seq<DynValue>, x: DynValue)
    ensures
        dyns_view(s.push(x)) =~= dyns_view(s).push(dyn_view(x)),
{
    lemma_dyns_view_pointwise(s.push(x));
    lemma_dyns_view_pointwise(s);
    assert forall|i: int| 0 <= i < s.push(x).len()
        implies dyns_view(s.push(x))[i] == dyns_view(s).push(dyn_view(x))[i] by {
        if i < s.len() {
            assert(s.push(x)[i] == s[i]);
        } else {
            assert(s.push(x)[i] == x);
        }
    }
}

/// Appending a record field appends its model.
pub proof fn lemma_fields_view_push(s: Seq<(String, DynValue)>, x: (String, DynValue))
    ensures
        fields_view(s.push(x)) =~= fields_view(s).push((x.0@, dyn_view(x.1))),
{
    lemma_fields_view_pointwise(s.push(x));
    lemma_fields_view_pointwise(s);
    assert forall|i: int| 0 <= i < s.push(x).len()
        implies fields_view(s.push(x))[i]
            == fields_view(s).push((x.0@, dyn_view(x.1)))[i] by {
        if i < s.len() {
            assert(s.push(x)[i] == s[i]);
        } else {
            assert(s.push(x)[i] == x);
        }
    }
}

/// Appending a wire value appends its model.
pub proof fn lemma_wires_view_push(s: Seq<WireValue>, x: WireValue)
    ensures
        wires_view(s.push(x)) =~= wires_view(s).push(wire_view(x)),
{
    lemma_wires_view_pointwise(s.push(x));
    lemma_wires_view_pointwise(s);
    assert forall|i: int| 0 <= i < s.push(x).len()
        implies wires_view(s.push(x))[i] == wires_view(s).push(wire_view(x))[i] by {
        if i < s.len() {
            assert(s.push(x)[i] == s[i]);
        } else {
            assert(s.push(x)[i] == x);
        }
    }
}

/// Appending a dictionary entry appends its model.
pub proof fn lemma_pairs_view_push(s: Seq<(WireValue, WireValue)>, x: (WireValue, WireValue))
    ensures
        pairs_view(s.push(x)) =~= pairs_view(s).push((wire_view(x.0), wire_view(x.1))),
{
    lemma_pairs_view_pointwise(s.push(x));
    lemma_pairs_view_pointwise(s);
    assert forall|i: int| 0 <= i < s.push(x).len()
        implies pairs_view(s.push(x))[i]
            == pairs_view(s).push((wire_view(x.0), wire_view(x.1)))[i] by {
        if i < s.len() {
            assert(s.push(x)[i] == s[i]);
        } else {
            assert(s.push(x)[i] == x);
        }
    }
}

} // verus!
