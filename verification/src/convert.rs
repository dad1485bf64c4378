//! The value conversion engine: encodes a dynamic value against a
//! signature into a wire value, with exact numeric coercion, and decodes
//! any wire value back into a dynamic value, totally.

use vstd::prelude::*;

use crate::error::Error;
use crate::error::ValueKind;
use crate::floatbits::double_bits_int;
use crate::floatbits::double_magnitude;
use crate::floatbits::int_to_double_bits;
use crate::floatbits::i64_to_double_bits;
use crate::numtext::dec_digits;
use crate::numtext::dec_text_signed;
use crate::numtext::push_dec_i64;
use crate::numtext::push_dec_u64;
use crate::numtext::sp_parse_dec;
use crate::numtext::scan_dec;
use crate::numtext::DecScan;
use crate::numtext::clone_string;
use crate::signature::Signature;
use crate::signature::SigModel;
use crate::signature::sig_view;
use crate::signature::sigs_view;
use crate::signature::lemma_sigs_view_pointwise;
use crate::value::DynValue;
use crate::value::DynModel;
use crate::value::WireValue;
use crate::value::WireModel;
use crate::value::dyns_view;
use crate::value::fields_view;
use crate::value::wire_view;
use crate::value::wires_view;
use crate::value::pairs_view;
use crate::value::lemma_dyns_view_pointwise;
use crate::value::lemma_fields_view_pointwise;
use crate::value::lemma_wires_view_pointwise;
use crate::value::lemma_pairs_view_pointwise;

verus! {

broadcast use vstd::std_specs::vec::group_vec_axioms, vstd::seq::group_seq_axioms;

/// The leading type code of a signature, named in errors.
pub open spec fn sig_code(s: SigModel) -> char {
    match s {
        SigModel::Byte => 'y',
        SigModel::Bool => 'b',
        SigModel::Int16 => 'n',
        SigModel::UInt16 => 'q',
        SigModel::Int32 => 'i',
        SigModel::UInt32 => 'u',
        SigModel::Int64 => 'x',
        SigModel::UInt64 => 't',
        SigModel::Double => 'd',
        SigModel::Str => 's',
        SigModel::ObjectPath => 'o',
        SigModel::Sig => 'g',
        SigModel::Array(_) => 'a',
        SigModel::Struct(_) => '(',
        SigModel::Dict(_, _) => '{',
        SigModel::Variant => 'v',
        SigModel::UnixFd => 'h',
    }
}

/// The kind of a dynamic value, named in errors.
pub open spec fn kind_of(v: DynModel) -> ValueKind {
    match v {
        DynModel::Nothing => ValueKind::Nothing,
        DynModel::Bool(_) => ValueKind::Bool,
        DynModel::Int(_) => ValueKind::Int,
        DynModel::Float(_) => ValueKind::Float,
        DynModel::Str(_) => ValueKind::Text,
        DynModel::Binary(_) => ValueKind::Binary,
        DynModel::List(_) => ValueKind::List,
        DynModel::Record(_) => ValueKind::Record,
        DynModel::Duration(_) => ValueKind::Duration,
    }
}

pub open spec fn tm_err(s: SigModel, v: DynModel) -> Error {
    Error::TypeMismatch { expected: sig_code(s), found: kind_of(v) }
}

pub open spec fn oor_err(s: SigModel) -> Error {
    Error::OutOfRange { target: sig_code(s) }
}

/// Whether a signature is one of the integer wire types.
pub open spec fn is_int_target(s: SigModel) -> bool {
    match s {
        SigModel::Byte | SigModel::Int16 | SigModel::UInt16 | SigModel::Int32
            | SigModel::UInt32 | SigModel::Int64 | SigModel::UInt64
            | SigModel::UnixFd => true,
        _ => false,
    }
}

/// Whether `val` is representable in the integer target `s`.
pub open spec fn int_fits(s: SigModel, val: int) -> bool {
    match s {
        SigModel::Byte => 0 <= val <= u8::MAX,
        SigModel::Int16 => i16::MIN <= val <= i16::MAX,
        SigModel::UInt16 => 0 <= val <= u16::MAX,
        SigModel::Int32 => i32::MIN <= val <= i32::MAX,
        SigModel::UInt32 => 0 <= val <= u32::MAX,
        SigModel::Int64 => i64::MIN <= val <= i64::MAX,
        SigModel::UInt64 => 0 <= val <= u64::MAX,
        SigModel::UnixFd => 0 <= val <= u32::MAX,
        _ => false,
    }
}

/// The wire value holding `val` in the integer target `s`.
pub open spec fn make_int_wire(s: SigModel, val: int) -> WireModel
    recommends
        int_fits(s, val),
{
    match s {
        SigModel::Byte => WireModel::Byte(val as u8),
        SigModel::Int16 => WireModel::Int16(val as i16),
        SigModel::UInt16 => WireModel::UInt16(val as u16),
        SigModel::Int32 => WireModel::Int32(val as i32),
        SigModel::UInt32 => WireModel::UInt32(val as u32),
        SigModel::Int64 => WireModel::Int64(val as i64),
        SigModel::UInt64 => WireModel::UInt64(val as u64),
        SigModel::UnixFd => WireModel::UnixFd(val as u32),
        _ => WireModel::Byte(0),
    }
}

/// Numeric coercion into an integer target: any numeric dynamic value is
/// accepted, with an exact range check; a float must denote an integer.
pub open spec fn sp_encode_int(v: DynModel, s: SigModel) -> Result<WireModel, Error> {
    match v {
        DynModel::Int(i) => if int_fits(s, i as int) {
            Ok(make_int_wire(s, i as int))
        } else {
            Err(oor_err(s))
        },
        DynModel::Duration(d) => if int_fits(s, d as int) {
            Ok(make_int_wire(s, d as int))
        } else {
            Err(oor_err(s))
        },
        DynModel::Float(b) => match double_bits_int(b) {
            None => Err(oor_err(s)),
            Some(val) => if int_fits(s, val) {
                Ok(make_int_wire(s, val))
            } else {
                Err(oor_err(s))
            },
        },
        _ => Err(tm_err(s, v)),
    }
}

/// Numeric coercion into the floating-point target: a float passes its
/// bits through; an integer must be exactly representable.
pub open spec fn sp_encode_double(v: DynModel) -> Result<WireModel, Error> {
    match v {
        DynModel::Float(b) => Ok(WireModel::Double(b)),
        DynModel::Int(i) => match int_to_double_bits(i as int) {
            Some(bits) => Ok(WireModel::Double(bits)),
            None => Err(oor_err(SigModel::Double)),
        },
        DynModel::Duration(d) => match int_to_double_bits(d as int) {
            Some(bits) => Ok(WireModel::Double(bits)),
            None => Err(oor_err(SigModel::Double)),
        },
        _ => Err(tm_err(SigModel::Double, v)),
    }
}

pub open spec fn true_text() -> Seq<char> {
    seq!['t', 'r', 'u', 'e']
}

pub open spec fn false_text() -> Seq<char> {
    seq!['f', 'a', 'l', 's', 'e']
}

/// How a record's string key is converted to a dictionary's key type:
/// text keys pass through; boolean and numeric keys are read from their
/// canonical text form, numeric ones with an exact range check.
pub open spec fn sp_encode_key(t: Seq<char>, ks: SigModel) -> Result<WireModel, Error> {
    if ks is Str {
        Ok(WireModel::Str(t))
    } else if ks is ObjectPath {
        Ok(WireModel::ObjectPath(t))
    } else if ks is Sig {
        Ok(WireModel::Sig(t))
    } else if ks is Bool {
        if t == true_text() {
            Ok(WireModel::Bool(true))
        } else if t == false_text() {
            Ok(WireModel::Bool(false))
        } else {
            Err(Error::TypeMismatch { expected: 'b', found: ValueKind::Text })
        }
    } else if is_int_target(ks) {
        match sp_parse_dec(t) {
            None => Err(Error::TypeMismatch {
                expected: sig_code(ks),
                found: ValueKind::Text,
            }),
            Some((neg, mag)) => {
                let val: int = if neg { -mag } else { mag };
                if int_fits(ks, val) {
                    Ok(make_int_wire(ks, val))
                } else {
                    Err(oor_err(ks))
                }
            },
        }
    } else if ks is Double {
        match sp_parse_dec(t) {
            None => Err(Error::TypeMismatch {
                expected: 'd',
                found: ValueKind::Text,
            }),
            Some((neg, mag)) => {
                let val: int = if neg { -mag } else { mag };
                match int_to_double_bits(val) {
                    Some(bits) => Ok(WireModel::Double(bits)),
                    None => Err(oor_err(SigModel::Double)),
                }
            },
        }
    } else {
        Err(Error::TypeMismatch { expected: sig_code(ks), found: ValueKind::Text })
    }
}

/// The signature inferred from a dynamic value's own shape, used for
/// variants without an explicit inner signature and for guessing.
pub open spec fn sp_infer(v: DynModel) -> Result<SigModel, Error>
    decreases v, 0int,
{
    match v {
        DynModel::Nothing => Err(Error::TypeMismatch {
            expected: 'v',
            found: ValueKind::Nothing,
        }),
        DynModel::Bool(_) => Ok(SigModel::Bool),
        DynModel::Int(_) => Ok(SigModel::Int64),
        DynModel::Float(_) => Ok(SigModel::Double),
        DynModel::Str(_) => Ok(SigModel::Str),
        DynModel::Binary(_) => Ok(SigModel::Array(Box::new(SigModel::Byte))),
        DynModel::Duration(_) => Ok(SigModel::Int64),
        DynModel::List(es) => if es.len() == 0 {
            Ok(SigModel::Array(Box::new(SigModel::Variant)))
        } else {
            match sp_infer_list(es) {
                Ok(e) => Ok(SigModel::Array(Box::new(e))),
                Err(e) => Err(e),
            }
        },
        DynModel::Record(fs) => if fs.len() == 0 {
            Ok(SigModel::Dict(Box::new(SigModel::Str), Box::new(SigModel::Variant)))
        } else {
            match sp_infer_fields(fs) {
                Ok(u) => Ok(SigModel::Dict(Box::new(SigModel::Str), Box::new(u))),
                Err(e) => Err(e),
            }
        },
    }
}

/// The single signature all elements of a list infer to; ambiguous where
/// two elements disagree.
pub open spec fn sp_infer_list(es: Seq<DynModel>) -> Result<SigModel, Error>
    decreases es, 1int,
{
    if es.len() == 0 {
        Err(Error::AmbiguousVariant)
    } else if es.len() == 1 {
        sp_infer(es.last())
    } else {
        match sp_infer_list(es.drop_last()) {
            Err(e) => Err(e),
            Ok(u) => match sp_infer(es.last()) {
                Err(e) => Err(e),
                Ok(t) => if t == u {
                    Ok(u)
                } else {
                    Err(Error::AmbiguousVariant)
                },
            },
        }
    }
}

/// The single signature all values of a record infer to.
pub open spec fn sp_infer_fields(fs: Seq<(Seq<char>, DynModel)>) -> Result<SigModel, Error>
    decreases fs, 1int,
{
    if fs.len() == 0 {
        Err(Error::AmbiguousVariant)
    } else if fs.len() == 1 {
        sp_infer(fs.last().1)
    } else {
        match sp_infer_fields(fs.drop_last()) {
            Err(e) => Err(e),
            Ok(u) => match sp_infer(fs.last().1) {
                Err(e) => Err(e),
                Ok(t) => if t == u {
                    Ok(u)
                } else {
                    Err(Error::AmbiguousVariant)
                },
            },
        }
    }
}

/// The bytes of a binary value as byte wire values.
pub open spec fn bytes_wires(bs: Seq<u8>) -> Seq<WireModel> {
    Seq::new(bs.len(), |i: int| WireModel::Byte(bs[i]))
}

/// Rank used only to order the conversion engine's recursion.
pub open spec fn enc_rank(s: SigModel) -> int {
    if s is Variant {
        2
    } else {
        0
    }
}

/// What encoding a dynamic value against a signature yields: the wire
/// value on success, and the exact error otherwise.
pub open spec fn sp_encode(v: DynModel, s: SigModel) -> Result<WireModel, Error>
    decreases v, enc_rank(s),
{
    match s {
        SigModel::Byte | SigModel::Int16 | SigModel::UInt16 | SigModel::Int32
            | SigModel::UInt32 | SigModel::Int64 | SigModel::UInt64
            | SigModel::UnixFd => sp_encode_int(v, s),
        SigModel::Double => sp_encode_double(v),
        SigModel::Bool => match v {
            DynModel::Bool(b) => Ok(WireModel::Bool(b)),
            _ => Err(tm_err(s, v)),
        },
        SigModel::Str => match v {
            DynModel::Str(t) => Ok(WireModel::Str(t)),
            _ => Err(tm_err(s, v)),
        },
        SigModel::ObjectPath => match v {
            DynModel::Str(t) => Ok(WireModel::ObjectPath(t)),
            _ => Err(tm_err(s, v)),
        },
        SigModel::Sig => match v {
            DynModel::Str(t) => Ok(WireModel::Sig(t)),
            _ => Err(tm_err(s, v)),
        },
        SigModel::Variant => match sp_encode_variant(v) {
            Ok((vs, w)) => Ok(WireModel::Variant(vs, Box::new(w))),
            Err(e) => Err(e),
        },
        SigModel::Array(e) => match v {
            DynModel::List(es) => match sp_encode_list(es, *e) {
                Ok(ws) => Ok(WireModel::Array(*e, ws)),
                Err(err) => Err(err),
            },
            DynModel::Binary(bs) => if *e is Byte {
                Ok(WireModel::Array(SigModel::Byte, bytes_wires(bs)))
            } else {
                Err(tm_err(s, v))
            },
            _ => Err(tm_err(s, v)),
        },
        SigModel::Struct(ms) => match v {
            DynModel::List(es) => if es.len() != ms.len() {
                Err(Error::ArityMismatch {
                    expected_arity: ms.len() as usize,
                    actual_arity: es.len() as usize,
                })
            } else {
                match sp_encode_struct(es, ms) {
                    Ok(ws) => Ok(WireModel::Struct(ws)),
                    Err(err) => Err(err),
                }
            },
            _ => Err(tm_err(s, v)),
        },
        SigModel::Dict(k, val) => match v {
            DynModel::Record(fs) => match sp_encode_fields(fs, *k, *val) {
                Ok(ps) => Ok(WireModel::Dict(*k, *val, ps)),
                Err(err) => Err(err),
            },
            _ => Err(tm_err(s, v)),
        },
    }
}

/// Encodes every element against the array's element signature; the
/// leftmost failure wins.
pub open spec fn sp_encode_list(es: Seq<DynModel>, e: SigModel) -> Result<
    Seq<WireModel>,
    Error,
>
    decreases es, 3int,
{
    if es.len() == 0 {
        Ok(Seq::empty())
    } else {
        match sp_encode_list(es.drop_last(), e) {
            Err(err) => Err(err),
            Ok(ws) => match sp_encode(es.last(), e) {
                Err(err) => Err(err),
                Ok(w) => Ok(ws.push(w)),
            },
        }
    }
}

/// Encodes element `i` against member signature `i`.
pub open spec fn sp_encode_struct(es: Seq<DynModel>, ms: Seq<SigModel>) -> Result<
    Seq<WireModel>,
    Error,
>
    recommends
        es.len() == ms.len(),
    decreases es, 3int,
{
    if es.len() == 0 {
        Ok(Seq::empty())
    } else {
        match sp_encode_struct(es.drop_last(), ms.drop_last()) {
            Err(err) => Err(err),
            Ok(ws) => match sp_encode(es.last(), ms.last()) {
                Err(err) => Err(err),
                Ok(w) => Ok(ws.push(w)),
            },
        }
    }
}

/// Encodes every record field into a dictionary entry: the key from its
/// string form, the value against the dictionary's value signature.
pub open spec fn sp_encode_fields(
    fs: Seq<(Seq<char>, DynModel)>,
    k: SigModel,
    val: SigModel,
) -> Result<Seq<(WireModel, WireModel)>, Error>
    decreases fs, 3int,
{
    if fs.len() == 0 {
        Ok(Seq::empty())
    } else {
        match sp_encode_fields(fs.drop_last(), k, val) {
            Err(err) => Err(err),
            Ok(ps) => match sp_encode_key(fs.last().0, k) {
                Err(err) => Err(err),
                Ok(kw) => match sp_encode(fs.last().1, val) {
                    Err(err) => Err(err),
                    Ok(vw) => Ok(ps.push((kw, vw))),
                },
            },
        }
    }
}

/// Encoding against the variant type: the inner signature is inferred
/// from the value's own shape and attached to the produced wire value.
pub open spec fn sp_encode_variant(v: DynModel) -> Result<(SigModel, WireModel), Error>
    decreases v, 1int,
{
    match sp_infer(v) {
        Err(e) => Err(e),
        Ok(sig) => if sig is Variant {
            Err(Error::AmbiguousVariant)
        } else {
            match sp_encode(v, sig) {
                Ok(w) => Ok((sig, w)),
                Err(e) => Err(e),
            }
        },
    }
}

/// The string form a dictionary key decodes to.
pub open spec fn key_text(k: WireModel) -> Seq<char> {
    match k {
        WireModel::Str(t) => t,
        WireModel::ObjectPath(t) => t,
        WireModel::Sig(t) => t,
        WireModel::Bool(b) => if b {
            true_text()
        } else {
            false_text()
        },
        WireModel::Byte(x) => dec_digits(x as int),
        WireModel::Int16(x) => dec_text_signed(x as int),
        WireModel::Int32(x) => dec_text_signed(x as int),
        WireModel::Int64(x) => dec_text_signed(x as int),
        WireModel::UInt16(x) => dec_digits(x as int),
        WireModel::UInt32(x) => dec_digits(x as int),
        WireModel::UInt64(x) => dec_digits(x as int),
        WireModel::UnixFd(x) => dec_digits(x as int),
        WireModel::Double(b) => match double_bits_int(b) {
            Some(v) => dec_text_signed(v),
            None => Seq::empty(),
        },
        _ => Seq::empty(),
    }
}

/// What any wire value decodes to.  Total: every wire value has a
/// dynamic counterpart.  Wide unsigned values wrap into the dynamic
/// integer; a variant is transparent; structs decode to lists and
/// dictionaries to records with stringified keys.
pub open spec fn sp_decode(w: WireModel) -> DynModel
    decreases w, 0int,
{
    match w {
        WireModel::Byte(x) => DynModel::Int(x as i64),
        WireModel::Bool(b) => DynModel::Bool(b),
        WireModel::Int16(x) => DynModel::Int(x as i64),
        WireModel::UInt16(x) => DynModel::Int(x as i64),
        WireModel::Int32(x) => DynModel::Int(x as i64),
        WireModel::UInt32(x) => DynModel::Int(x as i64),
        WireModel::Int64(x) => DynModel::Int(x),
        WireModel::UInt64(x) => DynModel::Int(x as i64),
        WireModel::Double(b) => DynModel::Float(b),
        WireModel::Str(t) => DynModel::Str(t),
        WireModel::ObjectPath(t) => DynModel::Str(t),
        WireModel::Sig(t) => DynModel::Str(t),
        WireModel::UnixFd(x) => DynModel::Int(x as i64),
        WireModel::Array(_, ws) => DynModel::List(sp_decode_list(ws)),
        WireModel::Struct(ws) => DynModel::List(sp_decode_list(ws)),
        WireModel::Dict(_, _, ps) => DynModel::Record(sp_decode_entries(ps)),
        WireModel::Variant(_, w) => sp_decode(*w),
    }
}

pub open spec fn sp_decode_list(ws: Seq<WireModel>) -> Seq<DynModel>
    decreases ws, 1int,
{
    if ws.len() == 0 {
        Seq::empty()
    } else {
        sp_decode_list(ws.drop_last()).push(sp_decode(ws.last()))
    }
}

pub open spec fn sp_decode_entries(ps: Seq<(WireModel, WireModel)>) -> Seq<
    (Seq<char>, DynModel),
>
    decreases ps, 1int,
{
    if ps.len() == 0 {
        Seq::empty()
    } else {
        sp_decode_entries(ps.drop_last()).push(
            (key_text(ps.last().0), sp_decode(ps.last().1)),
        )
    }
}

/// Shape equality between a dynamic value and its decoded counterpart:
/// equal up to the numeric widening the wire type forced (an integer may
/// come back as the float that holds it exactly, and the other way
/// round), with binary data coming back as a list of its bytes.
pub open spec fn shape_eq(a: DynModel, b: DynModel) -> bool
    decreases a, 0int,
{
    match (a, b) {
        (DynModel::Nothing, DynModel::Nothing) => true,
        (DynModel::Bool(x), DynModel::Bool(y)) => x == y,
        (DynModel::Int(i), DynModel::Int(j)) => i == j,
        (DynModel::Int(i), DynModel::Float(bb)) => int_to_double_bits(i as int)
            == Some(bb),
        (DynModel::Float(x), DynModel::Float(y)) => x == y,
        (DynModel::Float(bb), DynModel::Int(j)) => double_bits_int(bb)
            == Some(j as int),
        (DynModel::Duration(d), DynModel::Int(j)) => d == j,
        (DynModel::Duration(d), DynModel::Float(bb)) => int_to_double_bits(d as int)
            == Some(bb),
        (DynModel::Str(x), DynModel::Str(y)) => x == y,
        (DynModel::Binary(bs), DynModel::List(ys)) => ys.len() == bs.len()
            && (forall|i: int| 0 <= i < bs.len()
                ==> ys[i] == DynModel::Int((#[trigger] bs[i]) as i64)),
        (DynModel::List(xs), DynModel::List(ys)) => shape_eq_list(xs, ys),
        (DynModel::Record(fs), DynModel::Record(gs)) => shape_eq_entries(fs, gs),
        _ => false,
    }
}

pub open spec fn shape_eq_list(xs: Seq<DynModel>, ys: Seq<DynModel>) -> bool
    decreases xs, 1int,
{
    if xs.len() != ys.len() {
        false
    } else if xs.len() == 0 {
        true
    } else {
        shape_eq_list(xs.drop_last(), ys.drop_last())
            && shape_eq(xs.last(), ys.last())
    }
}

pub open spec fn shape_eq_entries(
    fs: Seq<(Seq<char>, DynModel)>,
    gs: Seq<(Seq<char>, DynModel)>,
) -> bool
    decreases fs, 1int,
{
    if fs.len() != gs.len() {
        false
    } else if fs.len() == 0 {
        true
    } else {
        shape_eq_entries(fs.drop_last(), gs.drop_last())
            && fs.last().0 == gs.last().0
            && shape_eq(fs.last().1, gs.last().1)
    }
}

/// Wire values on which decoding is faithful: none of the unsigned
/// 64-bit payloads would wrap into a negative dynamic integer.
pub open spec fn wire_fits(w: WireModel) -> bool
    decreases w, 0int,
{
    match w {
        WireModel::UInt64(x) => x <= i64::MAX as u64,
        WireModel::Array(_, ws) => wire_fits_list(ws),
        WireModel::Struct(ws) => wire_fits_list(ws),
        WireModel::Dict(_, _, ps) => wire_fits_pairs(ps),
        WireModel::Variant(_, inner) => wire_fits(*inner),
        _ => true,
    }
}

pub open spec fn wire_fits_list(ws: Seq<WireModel>) -> bool
    decreases ws, 1int,
{
    if ws.len() == 0 {
        true
    } else {
        wire_fits_list(ws.drop_last()) && wire_fits(ws.last())
    }
}

pub open spec fn wire_fits_pairs(ps: Seq<(WireModel, WireModel)>) -> bool
    decreases ps, 1int,
{
    if ps.len() == 0 {
        true
    } else {
        wire_fits_pairs(ps.drop_last()) && wire_fits(ps.last().1)
    }
}

/// The signature a wire value carries.
pub open spec fn wire_sig(w: WireModel) -> SigModel
    decreases w, 0int,
{
    match w {
        WireModel::Byte(_) => SigModel::Byte,
        WireModel::Bool(_) => SigModel::Bool,
        WireModel::Int16(_) => SigModel::Int16,
        WireModel::UInt16(_) => SigModel::UInt16,
        WireModel::Int32(_) => SigModel::Int32,
        WireModel::UInt32(_) => SigModel::UInt32,
        WireModel::Int64(_) => SigModel::Int64,
        WireModel::UInt64(_) => SigModel::UInt64,
        WireModel::Double(_) => SigModel::Double,
        WireModel::Str(_) => SigModel::Str,
        WireModel::ObjectPath(_) => SigModel::ObjectPath,
        WireModel::Sig(_) => SigModel::Sig,
        WireModel::Array(e, _) => SigModel::Array(Box::new(e)),
        WireModel::Struct(ws) => SigModel::Struct(wire_sigs(ws)),
        WireModel::Dict(k, v, _) => SigModel::Dict(Box::new(k), Box::new(v)),
        WireModel::Variant(_, _) => SigModel::Variant,
        WireModel::UnixFd(_) => SigModel::UnixFd,
    }
}

pub open spec fn wire_sigs(ws: Seq<WireModel>) -> Seq<SigModel>
    decreases ws, 1int,
{
    if ws.len() == 0 {
        Seq::empty()
    } else {
        wire_sigs(ws.drop_last()).push(wire_sig(ws.last()))
    }
}

/// Well-formedness of a wire value: every array element carries the
/// array's element signature, every dictionary entry's key and value
/// conform to the declared key and value signatures with a basic key,
/// and a variant's inner value carries the attached signature.
pub open spec fn wire_wf(w: WireModel) -> bool
    decreases w, 0int,
{
    match w {
        WireModel::Array(e, ws) => wire_wf_list(ws, e),
        WireModel::Struct(ws) => wire_wf_elems(ws),
        WireModel::Dict(k, v, ps) => crate::signature::is_basic(k)
            && wire_wf_pairs(ps, k, v),
        WireModel::Variant(s, inner) => wire_sig(*inner) == s && wire_wf(*inner),
        _ => true,
    }
}

pub open spec fn wire_wf_list(ws: Seq<WireModel>, e: SigModel) -> bool
    decreases ws, 1int,
{
    if ws.len() == 0 {
        true
    } else {
        wire_wf_list(ws.drop_last(), e) && wire_sig(ws.last()) == e
            && wire_wf(ws.last())
    }
}

pub open spec fn wire_wf_elems(ws: Seq<WireModel>) -> bool
    decreases ws, 1int,
{
    if ws.len() == 0 {
        true
    } else {
        wire_wf_elems(ws.drop_last()) && wire_wf(ws.last())
    }
}

pub open spec fn wire_wf_pairs(ps: Seq<(WireModel, WireModel)>, k: SigModel, v: SigModel) -> bool
    decreases ps, 1int,
{
    if ps.len() == 0 {
        true
    } else {
        wire_wf_pairs(ps.drop_last(), k, v) && wire_sig(ps.last().0) == k
            && wire_wf(ps.last().0) && wire_sig(ps.last().1) == v
            && wire_wf(ps.last().1)
    }
}

/// An inferred signature is well-formed.
proof fn lemma_infer_wf(v: DynModel)
    requires
        sp_infer(v) is Ok,
    ensures
        crate::signature::sig_wf(sp_infer(v)->Ok_0),
    decreases v, 0int,
{
    match v {
        DynModel::List(es) => {
            if es.len() > 0 {
                lemma_infer_list_wf(es);
            } else {
                assert(crate::signature::sig_wf(SigModel::Variant));
            }
        },
        DynModel::Record(fs) => {
            if fs.len() > 0 {
                lemma_infer_fields_wf(fs);
            } else {
                assert(crate::signature::sig_wf(SigModel::Variant));
                assert(crate::signature::is_basic(SigModel::Str));
            }
            assert(crate::signature::is_basic(SigModel::Str));
        },
        DynModel::Binary(_) => {
            assert(crate::signature::sig_wf(SigModel::Byte));
        },
        _ => {},
    }
}

proof fn lemma_infer_list_wf(es: Seq<DynModel>)
    requires
        sp_infer_list(es) is Ok,
    ensures
        crate::signature::sig_wf(sp_infer_list(es)->Ok_0),
    decreases es, 1int,
{
    if es.len() == 1 {
        lemma_infer_wf(es.last());
    } else if es.len() > 1 {
        lemma_infer_list_wf(es.drop_last());
    }
}

proof fn lemma_infer_fields_wf(fs: Seq<(Seq<char>, DynModel)>)
    requires
        sp_infer_fields(fs) is Ok,
    ensures
        crate::signature::sig_wf(sp_infer_fields(fs)->Ok_0),
    decreases fs, 1int,
{
    if fs.len() == 1 {
        lemma_infer_wf(fs.last().1);
    } else if fs.len() > 1 {
        lemma_infer_fields_wf(fs.drop_last());
    }
}

/// An encoded key carries the dictionary's key signature.
proof fn lemma_key_sig(t: Seq<char>, ks: SigModel)
    requires
        sp_encode_key(t, ks) is Ok,
        crate::signature::is_basic(ks),
    ensures
        wire_sig(sp_encode_key(t, ks)->Ok_0) == ks,
        wire_wf(sp_encode_key(t, ks)->Ok_0),
{
}

/// What encoding produces is well-formed and carries the very signature
/// it was encoded against: the wire-value invariant of the model.
pub proof fn lemma_encode_wf(v: DynModel, s: SigModel)
    requires
        sp_encode(v, s) is Ok,
        crate::signature::sig_wf(s),
    ensures
        wire_wf(sp_encode(v, s)->Ok_0),
        wire_sig(sp_encode(v, s)->Ok_0) == s,
    decreases v, enc_rank(s),
{
    let w = sp_encode(v, s)->Ok_0;
    match s {
        SigModel::Variant => {
            let (vs, inner) = sp_encode_variant(v)->Ok_0;
            lemma_encode_variant_wf(v);
        },
        SigModel::Array(e) => {
            match v {
                DynModel::List(es) => {
                    lemma_encode_list_wf(es, *e);
                },
                DynModel::Binary(bs) => {
                    lemma_bytes_wires_wf(bs);
                },
                _ => {},
            }
        },
        SigModel::Struct(ms) => {
            match v {
                DynModel::List(es) => {
                    lemma_encode_struct_wf(es, ms);
                    assert(s =~= SigModel::Struct(
                        wire_sigs(sp_encode_struct(es, ms)->Ok_0)));
                },
                _ => {},
            }
        },
        SigModel::Dict(k, val) => {
            match v {
                DynModel::Record(fs) => {
                    lemma_encode_fields_wf(fs, *k, *val);
                },
                _ => {},
            }
        },
        _ => {},
    }
}

proof fn lemma_encode_variant_wf(v: DynModel)
    requires
        sp_encode_variant(v) is Ok,
    ensures
        ({
            let (vs, inner) = sp_encode_variant(v)->Ok_0;
            wire_sig(inner) == vs && wire_wf(inner)
        }),
    decreases v, 1int,
{
    let sig = sp_infer(v)->Ok_0;
    lemma_infer_wf(v);
    lemma_encode_wf(v, sig);
}

proof fn lemma_encode_list_wf(es: Seq<DynModel>, e: SigModel)
    requires
        sp_encode_list(es, e) is Ok,
        crate::signature::sig_wf(e),
    ensures
        wire_wf_list(sp_encode_list(es, e)->Ok_0, e),
    decreases es, 3int,
{
    let ws = sp_encode_list(es, e)->Ok_0;
    if es.len() > 0 {
        let ws0 = sp_encode_list(es.drop_last(), e)->Ok_0;
        let w = sp_encode(es.last(), e)->Ok_0;
        assert(ws == ws0.push(w));
        assert(ws.drop_last() =~= ws0);
        lemma_encode_list_wf(es.drop_last(), e);
        lemma_encode_wf(es.last(), e);
    }
}

proof fn lemma_bytes_wires_wf(bs: Seq<u8>)
    ensures
        wire_wf_list(bytes_wires(bs), SigModel::Byte),
    decreases bs.len(),
{
    if bs.len() > 0 {
        lemma_bytes_wires_wf(bs.drop_last());
        assert(bytes_wires(bs).drop_last() =~= bytes_wires(bs.drop_last()));
        assert(bytes_wires(bs).last() == WireModel::Byte(bs.last()));
        assert(wire_sig(WireModel::Byte(bs.last())) == SigModel::Byte);
        assert(wire_wf(WireModel::Byte(bs.last())));
    }
}

proof fn lemma_encode_struct_wf(es: Seq<DynModel>, ms: Seq<SigModel>)
    requires
        es.len() == ms.len(),
        sp_encode_struct(es, ms) is Ok,
        forall|i: int| 0 <= i < ms.len() ==> crate::signature::sig_wf(#[trigger] ms[i]),
    ensures
        wire_wf_elems(sp_encode_struct(es, ms)->Ok_0),
        wire_sigs(sp_encode_struct(es, ms)->Ok_0) =~= ms,
    decreases es, 3int,
{
    let ws = sp_encode_struct(es, ms)->Ok_0;
    if es.len() > 0 {
        let ws0 = sp_encode_struct(es.drop_last(), ms.drop_last())->Ok_0;
        let w = sp_encode(es.last(), ms.last())->Ok_0;
        assert(ws == ws0.push(w));
        assert(ws.drop_last() =~= ws0);
        assert(forall|i: int| 0 <= i < ms.len() - 1
            ==> crate::signature::sig_wf(#[trigger] ms.drop_last()[i]));
        lemma_encode_struct_wf(es.drop_last(), ms.drop_last());
        lemma_encode_wf(es.last(), ms.last());
        assert(wire_sigs(ws) =~= wire_sigs(ws0).push(wire_sig(w)));
        assert(ms =~= ms.drop_last().push(ms.last()));
    }
}

proof fn lemma_encode_fields_wf(fs: Seq<(Seq<char>, DynModel)>, k: SigModel, val: SigModel)
    requires
        sp_encode_fields(fs, k, val) is Ok,
        crate::signature::is_basic(k),
        crate::signature::sig_wf(val),
    ensures
        wire_wf_pairs(sp_encode_fields(fs, k, val)->Ok_0, k, val),
    decreases fs, 3int,
{
    let ps = sp_encode_fields(fs, k, val)->Ok_0;
    if fs.len() > 0 {
        let ps0 = sp_encode_fields(fs.drop_last(), k, val)->Ok_0;
        let kw = sp_encode_key(fs.last().0, k)->Ok_0;
        let vw = sp_encode(fs.last().1, val)->Ok_0;
        assert(ps == ps0.push((kw, vw)));
        assert(ps.drop_last() =~= ps0);
        lemma_encode_fields_wf(fs.drop_last(), k, val);
        lemma_key_sig(fs.last().0, k);
        lemma_encode_wf(fs.last().1, val);
    }
}

/// An encoded dictionary key decodes back to the key text it came from.
proof fn lemma_key_roundtrip(t: Seq<char>, ks: SigModel)
    requires
        sp_encode_key(t, ks) is Ok,
    ensures
        key_text(sp_encode_key(t, ks)->Ok_0) == t,
{
    let kw = sp_encode_key(t, ks)->Ok_0;
    if ks is Str || ks is ObjectPath || ks is Sig || ks is Bool {
    } else if is_int_target(ks) {
        let (neg, mag) = sp_parse_dec(t)->Some_0;
        let val: int = if neg { -mag } else { mag };
        crate::numtext::lemma_parse_dec_roundtrip(t);
        assert(dec_text_signed(val) == t);
        assert(key_text(make_int_wire(ks, val)) == t);
    } else if ks is Double {
        let (neg, mag) = sp_parse_dec(t)->Some_0;
        let val: int = if neg { -mag } else { mag };
        crate::numtext::lemma_parse_dec_roundtrip(t);
        crate::floatbits::lemma_double_bits_roundtrip(val);
        assert(key_text(kw) == dec_text_signed(val));
    }
}

/// Every byte of an encoded binary decodes to its integer.
proof fn lemma_decode_bytes(bs: Seq<u8>)
    ensures
        sp_decode_list(bytes_wires(bs)).len() == bs.len(),
        forall|i: int| 0 <= i < bs.len()
            ==> sp_decode_list(bytes_wires(bs))[i]
                == DynModel::Int((#[trigger] bs[i]) as i64),
    decreases bs.len(),
{
    if bs.len() > 0 {
        lemma_decode_bytes(bs.drop_last());
        assert(bytes_wires(bs).drop_last() =~= bytes_wires(bs.drop_last()));
        assert(bytes_wires(bs).last() == WireModel::Byte(bs.last()));
        assert(sp_decode_list(bytes_wires(bs))
            == sp_decode_list(bytes_wires(bs).drop_last()).push(
                sp_decode(bytes_wires(bs).last())));
        assert forall|i: int| 0 <= i < bs.len()
            implies sp_decode_list(bytes_wires(bs))[i]
                == DynModel::Int((#[trigger] bs[i]) as i64) by {
            if i < bs.len() - 1 {
                assert(bs.drop_last()[i] == bs[i]);
                assert(sp_decode_list(bytes_wires(bs.drop_last()))[i]
                    == DynModel::Int(bs.drop_last()[i] as i64));
            }
        }
    }
}

/// Decoding what encoding produced gives back a value of the same shape:
/// the round trip loses nothing but the numeric representation the wire
/// type forced, provided no unsigned 64-bit payload would wrap.
pub proof fn lemma_encode_then_decode(v: DynModel, s: SigModel)
    requires
        sp_encode(v, s) is Ok,
        wire_fits(sp_encode(v, s)->Ok_0),
    ensures
        shape_eq(v, sp_decode(sp_encode(v, s)->Ok_0)),
    decreases v, enc_rank(s),
{
    let w = sp_encode(v, s)->Ok_0;
    match s {
        SigModel::Byte | SigModel::Int16 | SigModel::UInt16 | SigModel::Int32
            | SigModel::UInt32 | SigModel::Int64 | SigModel::UInt64
            | SigModel::UnixFd => {
        },
        SigModel::Double => {
        },
        SigModel::Bool | SigModel::Str | SigModel::ObjectPath | SigModel::Sig => {
        },
        SigModel::Variant => {
            lemma_encode_then_decode_variant(v);
        },
        SigModel::Array(e) => {
            match v {
                DynModel::List(es) => {
                    lemma_encode_then_decode_list(es, *e);
                },
                DynModel::Binary(bs) => {
                    lemma_decode_bytes(bs);
                },
                _ => {},
            }
        },
        SigModel::Struct(ms) => {
            match v {
                DynModel::List(es) => {
                    lemma_encode_then_decode_struct(es, ms);
                },
                _ => {},
            }
        },
        SigModel::Dict(k, val) => {
            match v {
                DynModel::Record(fs) => {
                    lemma_encode_then_decode_fields(fs, *k, *val);
                },
                _ => {},
            }
        },
    }
}

/// The variant case of the round trip.
proof fn lemma_encode_then_decode_variant(v: DynModel)
    requires
        sp_encode_variant(v) is Ok,
        wire_fits(sp_encode_variant(v)->Ok_0.1),
    ensures
        shape_eq(v, sp_decode(sp_encode_variant(v)->Ok_0.1)),
    decreases v, 1int,
{
    let sig = sp_infer(v)->Ok_0;
    lemma_encode_then_decode(v, sig);
}

/// The array case of the round trip, element by element.
proof fn lemma_encode_then_decode_list(es: Seq<DynModel>, e: SigModel)
    requires
        sp_encode_list(es, e) is Ok,
        wire_fits_list(sp_encode_list(es, e)->Ok_0),
    ensures
        shape_eq_list(es, sp_decode_list(sp_encode_list(es, e)->Ok_0)),
    decreases es, 3int,
{
    let ws = sp_encode_list(es, e)->Ok_0;
    if es.len() == 0 {
        assert(sp_decode_list(ws) =~= Seq::<DynModel>::empty());
    } else {
        let head = es.drop_last();
        let ws0 = sp_encode_list(head, e)->Ok_0;
        let w = sp_encode(es.last(), e)->Ok_0;
        assert(ws == ws0.push(w));
        assert(ws.drop_last() =~= ws0);
        assert(ws.last() == w);
        lemma_encode_then_decode_list(head, e);
        lemma_encode_then_decode(es.last(), e);
        assert(sp_decode_list(ws)
            == sp_decode_list(ws0).push(sp_decode(w)));
        let dec = sp_decode_list(ws);
        assert(dec.drop_last() =~= sp_decode_list(ws0));
        assert(dec.last() == sp_decode(w));
    }
}

/// The struct case of the round trip, member by member.
proof fn lemma_encode_then_decode_struct(es: Seq<DynModel>, ms: Seq<SigModel>)
    requires
        es.len() == ms.len(),
        sp_encode_struct(es, ms) is Ok,
        wire_fits_list(sp_encode_struct(es, ms)->Ok_0),
    ensures
        shape_eq_list(es, sp_decode_list(sp_encode_struct(es, ms)->Ok_0)),
    decreases es, 3int,
{
    let ws = sp_encode_struct(es, ms)->Ok_0;
    if es.len() == 0 {
        assert(sp_decode_list(ws) =~= Seq::<DynModel>::empty());
    } else {
        let head = es.drop_last();
        let ws0 = sp_encode_struct(head, ms.drop_last())->Ok_0;
        let w = sp_encode(es.last(), ms.last())->Ok_0;
        assert(ws == ws0.push(w));
        assert(ws.drop_last() =~= ws0);
        assert(ws.last() == w);
        lemma_encode_then_decode_struct(head, ms.drop_last());
        lemma_encode_then_decode(es.last(), ms.last());
        assert(sp_decode_list(ws)
            == sp_decode_list(ws0).push(sp_decode(w)));
        let dec = sp_decode_list(ws);
        assert(dec.drop_last() =~= sp_decode_list(ws0));
        assert(dec.last() == sp_decode(w));
    }
}

/// The dictionary case of the round trip, entry by entry: each key comes
/// back as the very text it was written as, each value up to shape.
proof fn lemma_encode_then_decode_fields(
    fs: Seq<(Seq<char>, DynModel)>,
    k: SigModel,
    val: SigModel,
)
    requires
        sp_encode_fields(fs, k, val) is Ok,
        wire_fits_pairs(sp_encode_fields(fs, k, val)->Ok_0),
    ensures
        shape_eq_entries(fs, sp_decode_entries(sp_encode_fields(fs, k, val)->Ok_0)),
    decreases fs, 3int,
{
    let ps = sp_encode_fields(fs, k, val)->Ok_0;
    if fs.len() == 0 {
        assert(sp_decode_entries(ps) =~= Seq::<(Seq<char>, DynModel)>::empty());
    } else {
        let head = fs.drop_last();
        let ps0 = sp_encode_fields(head, k, val)->Ok_0;
        let kw = sp_encode_key(fs.last().0, k)->Ok_0;
        let vw = sp_encode(fs.last().1, val)->Ok_0;
        assert(ps == ps0.push((kw, vw)));
        assert(ps.drop_last() =~= ps0);
        assert(ps.last() == (kw, vw));
        lemma_encode_then_decode_fields(head, k, val);
        lemma_key_roundtrip(fs.last().0, k);
        lemma_encode_then_decode(fs.last().1, val);
        assert(sp_decode_entries(ps)
            == sp_decode_entries(ps0).push((key_text(kw), sp_decode(vw))));
        let dec = sp_decode_entries(ps);
        assert(dec.drop_last() =~= sp_decode_entries(ps0));
        assert(dec.last() == (key_text(kw), sp_decode(vw)));
    }
}

/// The leading type code of a signature.
pub fn sig_code_of(s: &Signature) -> (r: char)
    ensures
        r == sig_code(s@),
{
    match s {
        Signature::Byte => 'y',
        Signature::Bool => 'b',
        Signature::Int16 => 'n',
        Signature::UInt16 => 'q',
        Signature::Int32 => 'i',
        Signature::UInt32 => 'u',
        Signature::Int64 => 'x',
        Signature::UInt64 => 't',
        Signature::Double => 'd',
        Signature::Str => 's',
        Signature::ObjectPath => 'o',
        Signature::Sig => 'g',
        Signature::Array(_) => 'a',
        Signature::Struct(_) => '(',
        Signature::Dict(_, _) => '{',
        Signature::Variant => 'v',
        Signature::UnixFd => 'h',
    }
}

/// The kind of a dynamic value.
pub fn kind_of_value(v: &DynValue) -> (r: ValueKind)
    ensures
        r == kind_of(v@),
{
    match v {
        DynValue::Nothing => ValueKind::Nothing,
        DynValue::Bool(_) => ValueKind::Bool,
        DynValue::Int(_) => ValueKind::Int,
        DynValue::Float(_) => ValueKind::Float,
        DynValue::Str(_) => ValueKind::Text,
        DynValue::Binary(_) => ValueKind::Binary,
        DynValue::List(_) => ValueKind::List,
        DynValue::Record(_) => ValueKind::Record,
        DynValue::Duration(_) => ValueKind::Duration,
    }
}

fn type_mismatch(s: &Signature, v: &DynValue) -> (r: Error)
    ensures
        r == tm_err(s@, v@),
{
    Error::TypeMismatch { expected: sig_code_of(s), found: kind_of_value(v) }
}

/// The string form of a dictionary key.
fn key_string(k: &WireValue) -> (r: String)
    ensures
        r@ == key_text(k@),
{
    match k {
        WireValue::Str(t) => clone_string(t),
        WireValue::ObjectPath(t) => clone_string(t),
        WireValue::Sig(t) => clone_string(t),
        WireValue::Bool(b) => {
            let mut s = String::new();
            if *b {
                s.push('t');
                s.push('r');
                s.push('u');
                s.push('e');
                proof {
                    assert(s@ =~= true_text());
                }
            } else {
                s.push('f');
                s.push('a');
                s.push('l');
                s.push('s');
                s.push('e');
                proof {
                    assert(s@ =~= false_text());
                }
            }
            s
        },
        WireValue::Byte(x) => {
            let mut s = String::new();
            push_dec_u64(&mut s, *x as u64);
            proof {
                assert(s@ =~= dec_digits(*x as int));
            }
            s
        },
        WireValue::UInt16(x) => {
            let mut s = String::new();
            push_dec_u64(&mut s, *x as u64);
            proof {
                assert(s@ =~= dec_digits(*x as int));
            }
            s
        },
        WireValue::UInt32(x) => {
            let mut s = String::new();
            push_dec_u64(&mut s, *x as u64);
            proof {
                assert(s@ =~= dec_digits(*x as int));
            }
            s
        },
        WireValue::UInt64(x) => {
            let mut s = String::new();
            push_dec_u64(&mut s, *x);
            proof {
                assert(s@ =~= dec_digits(*x as int));
            }
            s
        },
        WireValue::UnixFd(x) => {
            let mut s = String::new();
            push_dec_u64(&mut s, *x as u64);
            proof {
                assert(s@ =~= dec_digits(*x as int));
            }
            s
        },
        WireValue::Int16(x) => {
            let mut s = String::new();
            push_dec_i64(&mut s, *x as i64);
            proof {
                assert(s@ =~= dec_text_signed(*x as int));
            }
            s
        },
        WireValue::Int32(x) => {
            let mut s = String::new();
            push_dec_i64(&mut s, *x as i64);
            proof {
                assert(s@ =~= dec_text_signed(*x as int));
            }
            s
        },
        WireValue::Int64(x) => {
            let mut s = String::new();
            push_dec_i64(&mut s, *x);
            proof {
                assert(s@ =~= dec_text_signed(*x as int));
            }
            s
        },
        WireValue::Double(b) => {
            match double_magnitude(*b) {
                None => String::new(),
                Some((neg, mag)) => {
                    let mut s = String::new();
                    if neg && mag > 0 {
                        s.push('-');
                        push_dec_u64(&mut s, mag);
                        proof {
                            assert(s@ =~= dec_text_signed(-(mag as int)));
                        }
                    } else {
                        push_dec_u64(&mut s, mag);
                        proof {
                            assert(s@ =~= dec_text_signed(mag as int));
                        }
                    }
                    s
                },
            }
        },
        WireValue::Array(_, _) => String::new(),
        WireValue::Struct(_) => String::new(),
        WireValue::Dict(_, _, _) => String::new(),
        WireValue::Variant(_, _) => String::new(),
    }
}

/// Decodes any wire value into a dynamic value.  Total: no wire value is
/// rejected.
pub fn decode(w: &WireValue) -> (r: DynValue)
    ensures
        r@ == sp_decode(w@),
    decreases *w, 0int,
{
    match w {
        WireValue::Byte(x) => DynValue::Int(*x as i64),
        WireValue::Bool(b) => DynValue::Bool(*b),
        WireValue::Int16(x) => DynValue::Int(*x as i64),
        WireValue::UInt16(x) => DynValue::Int(*x as i64),
        WireValue::Int32(x) => DynValue::Int(*x as i64),
        WireValue::UInt32(x) => DynValue::Int(*x as i64),
        WireValue::Int64(x) => DynValue::Int(*x),
        WireValue::UInt64(x) => DynValue::Int(#[verifier::truncate] (*x as i64)),
        WireValue::Double(b) => DynValue::Float(*b),
        WireValue::Str(t) => DynValue::Str(clone_string(t)),
        WireValue::ObjectPath(t) => DynValue::Str(clone_string(t)),
        WireValue::Sig(t) => DynValue::Str(clone_string(t)),
        WireValue::UnixFd(x) => DynValue::Int(*x as i64),
        WireValue::Array(_, ws) => DynValue::List(decode_items(ws)),
        WireValue::Struct(ws) => DynValue::List(decode_items(ws)),
        WireValue::Dict(_, _, ps) => DynValue::Record(decode_pairs(ps)),
        WireValue::Variant(_, inner) => decode(&**inner),
    }
}

/// Decodes every element of an array or struct.
#[verifier::loop_isolation(false)]
fn decode_items(ws: &Vec<WireValue>) -> (r: Vec<DynValue>)
    ensures
        dyns_view(r@) == sp_decode_list(wires_view(ws@)),
    decreases *ws, 1int,
{
    let ghost wm = wires_view(ws@);
    proof {
        lemma_wires_view_pointwise(ws@);
        assert(wm.take(0) =~= Seq::<WireModel>::empty());
    }
    let mut out: Vec<DynValue> = Vec::new();
    let mut i: usize = 0;
    while i < ws.len()
        invariant
            i <= ws@.len(),
            dyns_view(out@) == sp_decode_list(wm.take(i as int)),
        decreases ws@.len() - i,
    {
        let ghost prev = out@;
        let d = decode(&ws[i]);
        out.push(d);
        proof {
            crate::value::lemma_dyns_view_push(prev, d);
            assert(wm.take(i + 1).drop_last() =~= wm.take(i as int));
            assert(wm.take(i + 1).last() == wm[i as int]);
            assert(sp_decode_list(wm.take(i + 1))
                == sp_decode_list(wm.take(i as int)).push(sp_decode(wm[i as int])));
            assert(dyns_view(out@) =~= sp_decode_list(wm.take(i + 1)));
        }
        i = i + 1;
    }
    proof {
        assert(wm.take(ws@.len() as int) =~= wm);
    }
    out
}

/// Decodes every entry of a dictionary, stringifying the keys.
#[verifier::loop_isolation(false)]
fn decode_pairs(ps: &Vec<(WireValue, WireValue)>) -> (r: Vec<(String, DynValue)>)
    ensures
        fields_view(r@) == sp_decode_entries(pairs_view(ps@)),
    decreases *ps, 1int,
{
    let ghost pm = pairs_view(ps@);
    proof {
        lemma_pairs_view_pointwise(ps@);
        assert(pm.take(0) =~= Seq::<(WireModel, WireModel)>::empty());
    }
    let mut out: Vec<(String, DynValue)> = Vec::new();
    let mut i: usize = 0;
    while i < ps.len()
        invariant
            i <= ps@.len(),
            fields_view(out@) == sp_decode_entries(pm.take(i as int)),
        decreases ps@.len() - i,
    {
        let ghost prev = out@;
        let kt = key_string(&ps[i].0);
        let dv = decode(&ps[i].1);
        let ghost entry = (kt, dv);
        out.push((kt, dv));
        proof {
            crate::value::lemma_fields_view_push(prev, entry);
            assert(pm.take(i + 1).drop_last() =~= pm.take(i as int));
            assert(pm.take(i + 1).last() == pm[i as int]);
            assert(sp_decode_entries(pm.take(i + 1))
                == sp_decode_entries(pm.take(i as int)).push(
                    (key_text(pm[i as int].0), sp_decode(pm[i as int].1))));
            assert(fields_view(out@) =~= sp_decode_entries(pm.take(i + 1)));
        }
        i = i + 1;
    }
    proof {
        assert(pm.take(ps@.len() as int) =~= pm);
    }
    out
}

/// An inference failure on a prefix settles the whole list.
proof fn lemma_infer_list_prefix_err(es: Seq<DynModel>, j: int)
    requires
        1 <= j <= es.len(),
        sp_infer_list(es.take(j)) is Err,
    ensures
        sp_infer_list(es) == sp_infer_list(es.take(j)),
    decreases es.len() - j,
{
    if j == es.len() {
        assert(es.take(j) =~= es);
    } else {
        assert(es.take(j + 1).drop_last() =~= es.take(j));
        lemma_infer_list_prefix_err(es, j + 1);
    }
}

/// An inference failure on a prefix of the fields settles the record.
proof fn lemma_infer_fields_prefix_err(fs: Seq<(Seq<char>, DynModel)>, j: int)
    requires
        1 <= j <= fs.len(),
        sp_infer_fields(fs.take(j)) is Err,
    ensures
        sp_infer_fields(fs) == sp_infer_fields(fs.take(j)),
    decreases fs.len() - j,
{
    if j == fs.len() {
        assert(fs.take(j) =~= fs);
    } else {
        assert(fs.take(j + 1).drop_last() =~= fs.take(j));
        lemma_infer_fields_prefix_err(fs, j + 1);
    }
}

/// An encoding failure on a prefix settles the whole list.
proof fn lemma_encode_list_prefix_err(es: Seq<DynModel>, e: SigModel, j: int)
    requires
        0 <= j <= es.len(),
        sp_encode_list(es.take(j), e) is Err,
    ensures
        sp_encode_list(es, e) == sp_encode_list(es.take(j), e),
    decreases es.len() - j,
{
    if j == es.len() {
        assert(es.take(j) =~= es);
    } else {
        assert(es.take(j + 1).drop_last() =~= es.take(j));
        lemma_encode_list_prefix_err(es, e, j + 1);
    }
}

/// An encoding failure on a prefix settles the whole struct.
proof fn lemma_encode_struct_prefix_err(es: Seq<DynModel>, ms: Seq<SigModel>, j: int)
    requires
        es.len() == ms.len(),
        0 <= j <= es.len(),
        sp_encode_struct(es.take(j), ms.take(j)) is Err,
    ensures
        sp_encode_struct(es, ms) == sp_encode_struct(es.take(j), ms.take(j)),
    decreases es.len() - j,
{
    if j == es.len() {
        assert(es.take(j) =~= es);
        assert(ms.take(j) =~= ms);
    } else {
        assert(es.take(j + 1).drop_last() =~= es.take(j));
        assert(ms.take(j + 1).drop_last() =~= ms.take(j));
        lemma_encode_struct_prefix_err(es, ms, j + 1);
    }
}

/// An encoding failure on a prefix settles the whole dictionary.
proof fn lemma_encode_fields_prefix_err(
    fs: Seq<(Seq<char>, DynModel)>,
    k: SigModel,
    val: SigModel,
    j: int,
)
    requires
        0 <= j <= fs.len(),
        sp_encode_fields(fs.take(j), k, val) is Err,
    ensures
        sp_encode_fields(fs, k, val) == sp_encode_fields(fs.take(j), k, val),
    decreases fs.len() - j,
{
    if j == fs.len() {
        assert(fs.take(j) =~= fs);
    } else {
        assert(fs.take(j + 1).drop_last() =~= fs.take(j));
        lemma_encode_fields_prefix_err(fs, k, val, j + 1);
    }
}

/// Infers the signature a dynamic value's shape suggests.
#[verifier::loop_isolation(false)]
pub fn infer_signature(v: &DynValue) -> (r: Result<Signature, Error>)
    ensures
        match r {
            Ok(sig) => sp_infer(v@) == Ok::<SigModel, Error>(sig@),
            Err(e) => sp_infer(v@) == Err::<SigModel, Error>(e),
        },
    decreases *v, 0int,
{
    match v {
        DynValue::Nothing => Err(Error::TypeMismatch {
            expected: 'v',
            found: ValueKind::Nothing,
        }),
        DynValue::Bool(_) => Ok(Signature::Bool),
        DynValue::Int(_) => Ok(Signature::Int64),
        DynValue::Float(_) => Ok(Signature::Double),
        DynValue::Str(_) => Ok(Signature::Str),
        DynValue::Binary(_) => {
            proof {
                assert(sig_view(Signature::Byte) == SigModel::Byte);
            }
            Ok(Signature::Array(Box::new(Signature::Byte)))
        },
        DynValue::Duration(_) => Ok(Signature::Int64),
        DynValue::List(es) => {
            let ghost em = dyns_view(es@);
            proof {
                lemma_dyns_view_pointwise(es@);
            }
            if es.len() == 0 {
                proof {
                    assert(v@ == DynModel::List(em));
                    assert(em.len() == 0);
                    assert(sig_view(Signature::Variant) == SigModel::Variant);
                    assert(sp_infer(v@) == Ok::<SigModel, Error>(
                        SigModel::Array(Box::new(SigModel::Variant))));
                }
                return Ok(Signature::Array(Box::new(Signature::Variant)));
            }
            let first = match infer_signature(&es[0]) {
                Ok(sig) => sig,
                Err(e) => {
                    proof {
                        assert(em.take(1).last() == em[0]);
                        assert(sp_infer_list(em.take(1)) == sp_infer(em[0]));
                        lemma_infer_list_prefix_err(em, 1);
                    }
                    return Err(e);
                },
            };
            let mut i: usize = 1;
            while i < es.len()
                invariant
                    1 <= i <= es@.len(),
                    sp_infer_list(em.take(i as int)) == Ok::<SigModel, Error>(first@),
                decreases es@.len() - i,
            {
                proof {
                    assert(em.take(i + 1).drop_last() =~= em.take(i as int));
                    assert(em.take(i + 1).last() == em[i as int]);
                }
                match infer_signature(&es[i]) {
                    Err(e) => {
                        proof {
                            lemma_infer_list_prefix_err(em, i + 1);
                        }
                        return Err(e);
                    },
                    Ok(t) => {
                        if !crate::signature::sig_eq(&t, &first) {
                            proof {
                                lemma_infer_list_prefix_err(em, i + 1);
                            }
                            return Err(Error::AmbiguousVariant);
                        }
                    },
                }
                i = i + 1;
            }
            proof {
                assert(em.take(es@.len() as int) =~= em);
            }
            Ok(Signature::Array(Box::new(first)))
        },
        DynValue::Record(fs) => {
            let ghost fm = fields_view(fs@);
            proof {
                lemma_fields_view_pointwise(fs@);
            }
            if fs.len() == 0 {
                proof {
                    assert(v@ == DynModel::Record(fm));
                    assert(fm.len() == 0);
                    assert(sig_view(Signature::Variant) == SigModel::Variant);
                    assert(sig_view(Signature::Str) == SigModel::Str);
                    assert(sp_infer(v@) == Ok::<SigModel, Error>(SigModel::Dict(
                        Box::new(SigModel::Str), Box::new(SigModel::Variant))));
                }
                return Ok(Signature::Dict(
                    Box::new(Signature::Str),
                    Box::new(Signature::Variant),
                ));
            }
            let first = match infer_signature(&fs[0].1) {
                Ok(sig) => sig,
                Err(e) => {
                    proof {
                        assert(fm.take(1).last() == fm[0]);
                        assert(sp_infer_fields(fm.take(1)) == sp_infer(fm[0].1));
                        lemma_infer_fields_prefix_err(fm, 1);
                    }
                    return Err(e);
                },
            };
            let mut i: usize = 1;
            while i < fs.len()
                invariant
                    1 <= i <= fs@.len(),
                    sp_infer_fields(fm.take(i as int)) == Ok::<SigModel, Error>(first@),
                decreases fs@.len() - i,
            {
                proof {
                    assert(fm.take(i + 1).drop_last() =~= fm.take(i as int));
                    assert(fm.take(i + 1).last() == fm[i as int]);
                }
                match infer_signature(&fs[i].1) {
                    Err(e) => {
                        proof {
                            lemma_infer_fields_prefix_err(fm, i + 1);
                        }
                        return Err(e);
                    },
                    Ok(t) => {
                        if !crate::signature::sig_eq(&t, &first) {
                            proof {
                                lemma_infer_fields_prefix_err(fm, i + 1);
                            }
                            return Err(Error::AmbiguousVariant);
                        }
                    },
                }
                i = i + 1;
            }
            proof {
                assert(fm.take(fs@.len() as int) =~= fm);
                assert(sig_view(Signature::Str) == SigModel::Str);
            }
            Ok(Signature::Dict(Box::new(Signature::Str), Box::new(first)))
        },
    }
}

/// Maps an encoding result to its model.
pub open spec fn enc_res(r: Result<WireValue, Error>) -> Result<WireModel, Error> {
    match r {
        Ok(w) => Ok(wire_view(w)),
        Err(e) => Err(e),
    }
}

/// The wire value holding `val` in the integer target `s`, after an
/// exact range check.
fn make_int_value(s: &Signature, val: i128) -> (r: Result<WireValue, Error>)
    requires
        is_int_target(s@),
    ensures
        enc_res(r) == (if int_fits(s@, val as int) {
            Ok::<WireModel, Error>(make_int_wire(s@, val as int))
        } else {
            Err::<WireModel, Error>(oor_err(s@))
        }),
{
    match s {
        Signature::Byte => if 0 <= val && val <= u8::MAX as i128 {
            Ok(WireValue::Byte(val as u8))
        } else {
            Err(Error::OutOfRange { target: 'y' })
        },
        Signature::Int16 => if i16::MIN as i128 <= val && val <= i16::MAX as i128 {
            Ok(WireValue::Int16(val as i16))
        } else {
            Err(Error::OutOfRange { target: 'n' })
        },
        Signature::UInt16 => if 0 <= val && val <= u16::MAX as i128 {
            Ok(WireValue::UInt16(val as u16))
        } else {
            Err(Error::OutOfRange { target: 'q' })
        },
        Signature::Int32 => if i32::MIN as i128 <= val && val <= i32::MAX as i128 {
            Ok(WireValue::Int32(val as i32))
        } else {
            Err(Error::OutOfRange { target: 'i' })
        },
        Signature::UInt32 => if 0 <= val && val <= u32::MAX as i128 {
            Ok(WireValue::UInt32(val as u32))
        } else {
            Err(Error::OutOfRange { target: 'u' })
        },
        Signature::Int64 => if i64::MIN as i128 <= val && val <= i64::MAX as i128 {
            Ok(WireValue::Int64(val as i64))
        } else {
            Err(Error::OutOfRange { target: 'x' })
        },
        Signature::UInt64 => if 0 <= val && val <= u64::MAX as i128 {
            Ok(WireValue::UInt64(val as u64))
        } else {
            Err(Error::OutOfRange { target: 't' })
        },
        Signature::UnixFd => if 0 <= val && val <= u32::MAX as i128 {
            Ok(WireValue::UnixFd(val as u32))
        } else {
            Err(Error::OutOfRange { target: 'h' })
        },
        _ => {
            proof {
                assert(false);
            }
            Err(Error::OutOfRange { target: 'y' })
        },
    }
}

/// Numeric coercion into an integer target.
fn encode_int_target(v: &DynValue, s: &Signature) -> (r: Result<WireValue, Error>)
    requires
        is_int_target(s@),
    ensures
        enc_res(r) == sp_encode_int(v@, s@),
{
    let val: i128 = match v {
        DynValue::Int(i) => *i as i128,
        DynValue::Duration(d) => *d as i128,
        DynValue::Float(b) => match double_magnitude(*b) {
            None => {
                return Err(Error::OutOfRange { target: sig_code_of(s) });
            },
            Some((neg, mag)) => if neg {
                -(mag as i128)
            } else {
                mag as i128
            },
        },
        _ => {
            return Err(type_mismatch(s, v));
        },
    };
    make_int_value(s, val)
}

/// How a record's string key is encoded into the dictionary's key type.
fn encode_key(t: &String, ks: &Signature) -> (r: Result<WireValue, Error>)
    ensures
        enc_res(r) == sp_encode_key(t@, ks@),
{
    match ks {
        Signature::Str => Ok(WireValue::Str(clone_string(t))),
        Signature::ObjectPath => Ok(WireValue::ObjectPath(clone_string(t))),
        Signature::Sig => Ok(WireValue::Sig(clone_string(t))),
        Signature::Bool => {
            if text_eq_true(t) {
                Ok(WireValue::Bool(true))
            } else if text_eq_false(t) {
                Ok(WireValue::Bool(false))
            } else {
                Err(Error::TypeMismatch { expected: 'b', found: ValueKind::Text })
            }
        },
        Signature::Byte | Signature::Int16 | Signature::UInt16 | Signature::Int32
            | Signature::UInt32 | Signature::Int64 | Signature::UInt64
            | Signature::UnixFd => {
            match scan_dec(t.as_str()) {
                DecScan::NotDecimal => Err(Error::TypeMismatch {
                    expected: sig_code_of(ks),
                    found: ValueKind::Text,
                }),
                DecScan::TooBig => Err(Error::OutOfRange { target: sig_code_of(ks) }),
                DecScan::Num(neg, mag) => {
                    let val: i128 = if neg {
                        -(mag as i128)
                    } else {
                        mag as i128
                    };
                    make_int_value(ks, val)
                },
            }
        },
        Signature::Double => {
            match scan_dec(t.as_str()) {
                DecScan::NotDecimal => Err(Error::TypeMismatch {
                    expected: 'd',
                    found: ValueKind::Text,
                }),
                DecScan::TooBig => {
                    proof {
                        let pd = sp_parse_dec(t@)->Some_0;
                        let huge: int = if pd.0 { -pd.1 } else { pd.1 };
                        crate::floatbits::lemma_int_to_double_bits_huge(huge);
                    }
                    Err(Error::OutOfRange { target: 'd' })
                },
                DecScan::Num(neg, mag) => {
                    if mag == 0 {
                        Ok(WireValue::Double(0))
                    } else {
                        match crate::floatbits::mag_to_double_bits(neg, mag) {
                            Some(bits) => Ok(WireValue::Double(bits)),
                            None => Err(Error::OutOfRange { target: 'd' }),
                        }
                    }
                },
            }
        },
        _ => Err(Error::TypeMismatch {
            expected: sig_code_of(ks),
            found: ValueKind::Text,
        }),
    }
}

/// Whether the string is exactly the word `true`.
fn text_eq_true(t: &String) -> (r: bool)
    ensures
        r == (t@ == true_text()),
{
    let s = t.as_str();
    let n = s.unicode_len();
    if n != 4 {
        proof {
            assert(t@ != true_text());
        }
        return false;
    }
    let r = s.get_char(0) == 't' && s.get_char(1) == 'r' && s.get_char(2) == 'u'
        && s.get_char(3) == 'e';
    proof {
        if r {
            assert(t@ =~= true_text());
        }
    }
    r
}

/// Whether the string is exactly the word `false`.
fn text_eq_false(t: &String) -> (r: bool)
    ensures
        r == (t@ == false_text()),
{
    let s = t.as_str();
    let n = s.unicode_len();
    if n != 5 {
        proof {
            assert(t@ != false_text());
        }
        return false;
    }
    let r = s.get_char(0) == 'f' && s.get_char(1) == 'a' && s.get_char(2) == 'l'
        && s.get_char(3) == 's' && s.get_char(4) == 'e';
    proof {
        if r {
            assert(t@ =~= false_text());
        }
    }
    r
}

/// Whether a signature is the variant type.
fn is_variant_sig(s: &Signature) -> (r: bool)
    ensures
        r == (s@ is Variant),
{
    match s {
        Signature::Variant => true,
        _ => false,
    }
}

/// Encodes a dynamic value against a signature, recursively.  Returns
/// exactly what the conversion model prescribes: the coerced wire value,
/// or the leftmost error.
#[verifier::loop_isolation(false)]
#[verifier::rlimit(100)]
pub fn encode(v: &DynValue, s: &Signature) -> (r: Result<WireValue, Error>)
    ensures
        enc_res(r) == sp_encode(v@, s@),
    decreases *v, enc_rank(s@),
{
    match s {
        Signature::Byte | Signature::Int16 | Signature::UInt16 | Signature::Int32
            | Signature::UInt32 | Signature::Int64 | Signature::UInt64
            | Signature::UnixFd => encode_int_target(v, s),
        Signature::Double => match v {
            DynValue::Float(b) => Ok(WireValue::Double(*b)),
            DynValue::Int(i) => match i64_to_double_bits(*i) {
                Some(bits) => Ok(WireValue::Double(bits)),
                None => Err(Error::OutOfRange { target: 'd' }),
            },
            DynValue::Duration(d) => match i64_to_double_bits(*d) {
                Some(bits) => Ok(WireValue::Double(bits)),
                None => Err(Error::OutOfRange { target: 'd' }),
            },
            _ => Err(type_mismatch(s, v)),
        },
        Signature::Bool => match v {
            DynValue::Bool(b) => Ok(WireValue::Bool(*b)),
            _ => Err(type_mismatch(s, v)),
        },
        Signature::Str => match v {
            DynValue::Str(t) => Ok(WireValue::Str(clone_string(t))),
            _ => Err(type_mismatch(s, v)),
        },
        Signature::ObjectPath => match v {
            DynValue::Str(t) => Ok(WireValue::ObjectPath(clone_string(t))),
            _ => Err(type_mismatch(s, v)),
        },
        Signature::Sig => match v {
            DynValue::Str(t) => Ok(WireValue::Sig(clone_string(t))),
            _ => Err(type_mismatch(s, v)),
        },
        Signature::Variant => match encode_variant(v) {
            Ok((vs, w)) => Ok(WireValue::Variant(vs, Box::new(w))),
            Err(e) => Err(e),
        },
        Signature::Array(e) => match v {
            DynValue::List(es) => {
                let ghost em = dyns_view(es@);
                let ghost esig = sig_view(**e);
                proof {
                    lemma_dyns_view_pointwise(es@);
                    assert(em.take(0) =~= Seq::<DynModel>::empty());
                }
                let mut out: Vec<WireValue> = Vec::new();
                let mut i: usize = 0;
                while i < es.len()
                    invariant
                        i <= es@.len(),
                        sp_encode_list(em.take(i as int), esig)
                            == Ok::<Seq<WireModel>, Error>(wires_view(out@)),
                    decreases es@.len() - i,
                {
                    proof {
                        assert(em.take(i + 1).drop_last() =~= em.take(i as int));
                        assert(em.take(i + 1).last() == em[i as int]);
                    }
                    match encode(&es[i], &**e) {
                        Err(err) => {
                            proof {
                                lemma_encode_list_prefix_err(em, esig, i + 1);
                            }
                            return Err(err);
                        },
                        Ok(w) => {
                            let ghost prev = out@;
                            let ghost gw = w;
                            out.push(w);
                            proof {
                                crate::value::lemma_wires_view_push(prev, gw);
                            }
                        },
                    }
                    i = i + 1;
                }
                proof {
                    assert(em.take(es@.len() as int) =~= em);
                }
                Ok(WireValue::Array((**e).clone(), out))
            },
            DynValue::Binary(bs) => match &**e {
                Signature::Byte => {
                    let mut out: Vec<WireValue> = Vec::new();
                    let mut i: usize = 0;
                    while i < bs.len()
                        invariant
                            i <= bs@.len(),
                            wires_view(out@) == bytes_wires(bs@.take(i as int)),
                        decreases bs@.len() - i,
                    {
                        let ghost prev = out@;
                        out.push(WireValue::Byte(bs[i]));
                        proof {
                            crate::value::lemma_wires_view_push(prev,
                                WireValue::Byte(bs@[i as int]));
                            assert(wires_view(out@) =~= bytes_wires(bs@.take(i + 1)));
                        }
                        i = i + 1;
                    }
                    proof {
                        assert(bs@.take(bs@.len() as int) =~= bs@);
                        assert(wires_view(out@) =~= bytes_wires(bs@));
                    }
                    Ok(WireValue::Array(Signature::Byte, out))
                },
                _ => Err(type_mismatch(s, v)),
            },
            _ => Err(type_mismatch(s, v)),
        },
        Signature::Struct(ms) => match v {
            DynValue::List(es) => {
                let ghost em = dyns_view(es@);
                let ghost mm = sigs_view(ms@);
                proof {
                    lemma_dyns_view_pointwise(es@);
                    lemma_sigs_view_pointwise(ms@);
                }
                if es.len() != ms.len() {
                    return Err(Error::ArityMismatch {
                        expected_arity: ms.len(),
                        actual_arity: es.len(),
                    });
                }
                proof {
                    assert(em.take(0) =~= Seq::<DynModel>::empty());
                    assert(mm.take(0) =~= Seq::<SigModel>::empty());
                }
                let mut out: Vec<WireValue> = Vec::new();
                let mut i: usize = 0;
                while i < es.len()
                    invariant
                        i <= es@.len(),
                        es@.len() == ms@.len(),
                        sp_encode_struct(em.take(i as int), mm.take(i as int))
                            == Ok::<Seq<WireModel>, Error>(wires_view(out@)),
                    decreases es@.len() - i,
                {
                    proof {
                        assert(em.take(i + 1).drop_last() =~= em.take(i as int));
                        assert(em.take(i + 1).last() == em[i as int]);
                        assert(mm.take(i + 1).drop_last() =~= mm.take(i as int));
                        assert(mm.take(i + 1).last() == mm[i as int]);
                    }
                    match encode(&es[i], &ms[i]) {
                        Err(err) => {
                            proof {
                                lemma_encode_struct_prefix_err(em, mm, i + 1);
                            }
                            return Err(err);
                        },
                        Ok(w) => {
                            let ghost prev = out@;
                            let ghost gw = w;
                            out.push(w);
                            proof {
                                crate::value::lemma_wires_view_push(prev, gw);
                            }
                        },
                    }
                    i = i + 1;
                }
                proof {
                    assert(em.take(es@.len() as int) =~= em);
                    assert(mm.take(ms@.len() as int) =~= mm);
                }
                Ok(WireValue::Struct(out))
            },
            _ => Err(type_mismatch(s, v)),
        },
        Signature::Dict(k, val) => match v {
            DynValue::Record(fs) => {
                let ghost fm = fields_view(fs@);
                let ghost km = sig_view(**k);
                let ghost vm = sig_view(**val);
                proof {
                    lemma_fields_view_pointwise(fs@);
                    assert(fm.take(0) =~= Seq::<(Seq<char>, DynModel)>::empty());
                }
                let mut out: Vec<(WireValue, WireValue)> = Vec::new();
                let mut i: usize = 0;
                while i < fs.len()
                    invariant
                        i <= fs@.len(),
                        sp_encode_fields(fm.take(i as int), km, vm)
                            == Ok::<Seq<(WireModel, WireModel)>, Error>(pairs_view(out@)),
                    decreases fs@.len() - i,
                {
                    proof {
                        assert(fm.take(i + 1).drop_last() =~= fm.take(i as int));
                        assert(fm.take(i + 1).last() == fm[i as int]);
                    }
                    let kw = match encode_key(&fs[i].0, &**k) {
                        Err(err) => {
                            proof {
                                lemma_encode_fields_prefix_err(fm, km, vm, i + 1);
                            }
                            return Err(err);
                        },
                        Ok(kw) => kw,
                    };
                    let vw = match encode(&fs[i].1, &**val) {
                        Err(err) => {
                            proof {
                                lemma_encode_fields_prefix_err(fm, km, vm, i + 1);
                            }
                            return Err(err);
                        },
                        Ok(vw) => vw,
                    };
                    let ghost pair = (kw, vw);
                    let ghost prev = out@;
                    out.push((kw, vw));
                    proof {
                        crate::value::lemma_pairs_view_push(prev, pair);
                    }
                    i = i + 1;
                }
                proof {
                    assert(fm.take(fs@.len() as int) =~= fm);
                }
                Ok(WireValue::Dict((**k).clone(), (**val).clone(), out))
            },
            _ => Err(type_mismatch(s, v)),
        },
    }
}

/// Encodes a dynamic value into a variant, inferring the inner signature
/// from the value's own shape.
pub fn encode_variant(v: &DynValue) -> (r: Result<(Signature, WireValue), Error>)
    ensures
        match r {
            Ok((sig, w)) => sp_encode_variant(v@)
                == Ok::<(SigModel, WireModel), Error>((sig@, wire_view(w))),
            Err(e) => sp_encode_variant(v@) == Err::<(SigModel, WireModel), Error>(e),
        },
    decreases *v, 1int,
{
    match infer_signature(v) {
        Err(e) => Err(e),
        Ok(sig) => {
            if is_variant_sig(&sig) {
                Err(Error::AmbiguousVariant)
            } else {
                match encode(v, &sig) {
                    Ok(w) => Ok((sig, w)),
                    Err(e) => Err(e),
                }
            }
        },
    }
}

/// The per-argument signatures guessed from the values' shapes, used
/// only when introspection is disabled and none was given; the leftmost
/// failure wins.
pub open spec fn sp_guess(args: Seq<DynModel>) -> Result<Seq<SigModel>, Error>
    decreases args,
{
    if args.len() == 0 {
        Ok(Seq::empty())
    } else {
        match sp_guess(args.drop_last()) {
            Err(e) => Err(e),
            Ok(sigs) => match sp_infer(args.last()) {
                Err(e) => Err(e),
                Ok(s) => Ok(sigs.push(s)),
            },
        }
    }
}

/// A guessing failure on a prefix settles the whole argument list.
proof fn lemma_guess_prefix_err(args: Seq<DynModel>, j: int)
    requires
        0 <= j <= args.len(),
        sp_guess(args.take(j)) is Err,
    ensures
        sp_guess(args) == sp_guess(args.take(j)),
    decreases args.len() - j,
{
    if j == args.len() {
        assert(args.take(j) =~= args);
    } else {
        assert(args.take(j + 1).drop_last() =~= args.take(j));
        lemma_guess_prefix_err(args, j + 1);
    }
}

/// Guesses one signature per argument from the values' shapes alone.
/// Best effort by design: the shapes cannot distinguish every wire type.
#[verifier::loop_isolation(false)]
pub fn guess_signature(args: &Vec<DynValue>) -> (r: Result<Vec<Signature>, Error>)
    ensures
        match r {
            Ok(sigs) => sp_guess(dyns_view(args@))
                == Ok::<Seq<SigModel>, Error>(sigs_view(sigs@)),
            Err(e) => sp_guess(dyns_view(args@)) == Err::<Seq<SigModel>, Error>(e),
        },
{
    let ghost am = dyns_view(args@);
    proof {
        lemma_dyns_view_pointwise(args@);
        assert(am.take(0) =~= Seq::<DynModel>::empty());
    }
    let mut out: Vec<Signature> = Vec::new();
    let mut i: usize = 0;
    while i < args.len()
        invariant
            i <= args@.len(),
            sp_guess(am.take(i as int)) == Ok::<Seq<SigModel>, Error>(sigs_view(out@)),
        decreases args@.len() - i,
    {
        proof {
            assert(am.take(i + 1).drop_last() =~= am.take(i as int));
            assert(am.take(i + 1).last() == am[i as int]);
        }
        match infer_signature(&args[i]) {
            Err(e) => {
                proof {
                    lemma_guess_prefix_err(am, i + 1);
                }
                return Err(e);
            },
            Ok(sig) => {
                let ghost prev = out@;
                let ghost gs = sig;
                out.push(sig);
                proof {
                    crate::signature::lemma_sigs_view_push(prev, gs);
                }
            },
        }
        i = i + 1;
    }
    proof {
        assert(am.take(args@.len() as int) =~= am);
    }
    Ok(out)
}

} // verus!
