//! The value conversion engine: coercions, inference, errors, and the
//! encode/decode round trip on concrete values.

use dbus_core::convert::decode;
use dbus_core::convert::encode;
use dbus_core::convert::encode_variant;
use dbus_core::convert::guess_signature;
use dbus_core::error::Error;
use dbus_core::error::ValueKind;
use dbus_core::signature::parse_single;
use dbus_core::signature::to_text;
use dbus_core::signature::Signature;
use dbus_core::value::DynValue;
use dbus_core::value::WireValue;

fn sig(text: &str) -> Signature {
    parse_single(text).unwrap()
}

#[test]
fn numeric_range_checks_are_exact() {
    assert_eq!(
        encode(&DynValue::Int(255), &sig("y")),
        Ok(WireValue::Byte(255))
    );
    assert_eq!(
        encode(&DynValue::Int(256), &sig("y")),
        Err(Error::OutOfRange { target: 'y' })
    );
    assert_eq!(
        encode(&DynValue::Int(-1), &sig("t")),
        Err(Error::OutOfRange { target: 't' })
    );
    assert_eq!(
        encode(&DynValue::Int(-32768), &sig("n")),
        Ok(WireValue::Int16(-32768))
    );
}

#[test]
fn no_string_to_number_coercion() {
    let five = DynValue::Str(String::from("5"));
    assert_eq!(
        encode(&five, &sig("i")),
        Err(Error::TypeMismatch { expected: 'i', found: ValueKind::Text })
    );
    assert_eq!(
        encode(&DynValue::Int(1), &sig("b")),
        Err(Error::TypeMismatch { expected: 'b', found: ValueKind::Int })
    );
}

#[test]
fn float_coercion_is_exact() {
    let half = DynValue::Float(0.5f64.to_bits());
    assert_eq!(
        encode(&half, &sig("d")),
        Ok(WireValue::Double(0.5f64.to_bits()))
    );
    // an integral float value fits an integer target
    let three = DynValue::Float(3.0f64.to_bits());
    assert_eq!(encode(&three, &sig("i")), Ok(WireValue::Int32(3)));
    let neg = DynValue::Float((-7.0f64).to_bits());
    assert_eq!(encode(&neg, &sig("x")), Ok(WireValue::Int64(-7)));
    // a fractional value does not
    let frac = DynValue::Float(3.5f64.to_bits());
    assert_eq!(
        encode(&frac, &sig("i")),
        Err(Error::OutOfRange { target: 'i' })
    );
    // an integer becomes the double that holds it exactly
    assert_eq!(
        encode(&DynValue::Int(7), &sig("d")),
        Ok(WireValue::Double(7.0f64.to_bits()))
    );
    assert_eq!(
        encode(&DynValue::Int(-2), &sig("d")),
        Ok(WireValue::Double((-2.0f64).to_bits()))
    );
    // 2^53 + 1 has no exact double
    assert_eq!(
        encode(&DynValue::Int(9007199254740993), &sig("d")),
        Err(Error::OutOfRange { target: 'd' })
    );
    assert_eq!(
        encode(&DynValue::Int(9007199254740992), &sig("d")),
        Ok(WireValue::Double(9007199254740992.0f64.to_bits()))
    );
}

#[test]
fn struct_arity_must_match() {
    let five = DynValue::List(vec![
        DynValue::Int(1),
        DynValue::Int(2),
        DynValue::Int(3),
        DynValue::Int(4),
        DynValue::Int(5),
    ]);
    assert_eq!(
        encode(&five, &sig("(iii)")),
        Err(Error::ArityMismatch { expected_arity: 3, actual_arity: 5 })
    );
    let three = DynValue::List(vec![
        DynValue::Int(1),
        DynValue::Int(2),
        DynValue::Int(3),
    ]);
    assert_eq!(
        encode(&three, &sig("(iii)")),
        Ok(WireValue::Struct(vec![
            WireValue::Int32(1),
            WireValue::Int32(2),
            WireValue::Int32(3),
        ]))
    );
}

#[test]
fn heterogeneous_variant_is_ambiguous() {
    let mixed = DynValue::List(vec![
        DynValue::Str(String::from("a")),
        DynValue::Int(1),
    ]);
    assert_eq!(
        encode(&mixed, &sig("v")),
        Err(Error::AmbiguousVariant)
    );
    assert_eq!(encode_variant(&mixed).err(), Some(Error::AmbiguousVariant));
}

#[test]
fn variant_inference_follows_the_shape() {
    let (vsig, w) = encode_variant(&DynValue::Bool(true)).unwrap();
    assert_eq!(vsig, Signature::Bool);
    assert_eq!(w, WireValue::Bool(true));
    let (vsig, _) = encode_variant(&DynValue::List(vec![
        DynValue::Int(1),
        DynValue::Int(2),
    ]))
    .unwrap();
    assert_eq!(to_text(&vsig).as_str(), "ax");
    // an empty list infers an array of variants
    let (vsig, _) = encode_variant(&DynValue::List(vec![])).unwrap();
    assert_eq!(to_text(&vsig).as_str(), "av");
    let (vsig, _) = encode_variant(&DynValue::Record(vec![(
        String::from("k"),
        DynValue::Int(1),
    )]))
    .unwrap();
    assert_eq!(to_text(&vsig).as_str(), "a{sx}");
    assert!(encode_variant(&DynValue::Nothing).is_err());
}

#[test]
fn guessing_is_per_argument() {
    let sigs = guess_signature(&vec![
        DynValue::Int(1),
        DynValue::Str(String::from("x")),
        DynValue::Float(1.5f64.to_bits()),
        DynValue::Binary(vec![1, 2]),
    ])
    .unwrap();
    let texts: Vec<String> = sigs.iter().map(|s| to_text(s)).collect();
    assert_eq!(texts, vec!["x", "s", "d", "ay"]);
    let bad = guess_signature(&vec![DynValue::List(vec![
        DynValue::Int(1),
        DynValue::Bool(true),
    ])]);
    assert_eq!(bad.err(), Some(Error::AmbiguousVariant));
}

#[test]
fn dict_keys_travel_through_their_text_form() {
    let rec = DynValue::Record(vec![
        (String::from("42"), DynValue::Int(1)),
        (String::from("7"), DynValue::Int(2)),
    ]);
    let w = encode(&rec, &sig("a{ui}")).unwrap();
    match &w {
        WireValue::Dict(_, _, entries) => {
            assert_eq!(entries[0].0, WireValue::UInt32(42));
            assert_eq!(entries[1].0, WireValue::UInt32(7));
        },
        _ => panic!("expected a dict"),
    }
    // and come back as the same text
    assert_eq!(decode(&w), rec);
    // a non-canonical or non-numeric key is refused
    let bad = DynValue::Record(vec![(String::from("007"), DynValue::Int(1))]);
    assert_eq!(
        encode(&bad, &sig("a{ui}")),
        Err(Error::TypeMismatch { expected: 'u', found: ValueKind::Text })
    );
    let big = DynValue::Record(vec![(String::from("70000"), DynValue::Int(1))]);
    assert_eq!(
        encode(&big, &sig("a{qi}")),
        Err(Error::OutOfRange { target: 'q' })
    );
    // boolean keys use the words true and false
    let brec = DynValue::Record(vec![(String::from("true"), DynValue::Int(1))]);
    let bw = encode(&brec, &sig("a{bi}")).unwrap();
    assert_eq!(decode(&bw), brec);
}

#[test]
fn encode_decode_round_trip_on_nested_values() {
    let v = DynValue::List(vec![
        DynValue::List(vec![DynValue::Int(1), DynValue::Int(2)]),
        DynValue::List(vec![]),
    ]);
    let w = encode(&v, &sig("aai")).unwrap();
    assert_eq!(decode(&w), v);

    let rec = DynValue::Record(vec![
        (String::from("a"), DynValue::Str(String::from("x"))),
        (String::from("b"), DynValue::Str(String::from("y"))),
    ]);
    let w = encode(&rec, &sig("a{ss}")).unwrap();
    assert_eq!(decode(&w), rec);

    // binary encodes as an array of bytes and decodes to their integers
    let bin = DynValue::Binary(vec![7, 8]);
    let w = encode(&bin, &sig("ay")).unwrap();
    assert_eq!(
        decode(&w),
        DynValue::List(vec![DynValue::Int(7), DynValue::Int(8)])
    );

    // a variant is transparent on the way out
    let w = encode(&DynValue::Int(5), &sig("v")).unwrap();
    assert_eq!(decode(&w), DynValue::Int(5));
}

#[test]
fn decode_is_total_on_odd_wire_values() {
    // a zero-length array decodes to an empty list
    let w = WireValue::Array(Signature::Byte, vec![]);
    assert_eq!(decode(&w), DynValue::List(vec![]));
    // nested empty containers
    let w = WireValue::Array(
        Signature::Array(Box::new(Signature::Int32)),
        vec![
            WireValue::Array(Signature::Int32, vec![]),
            WireValue::Array(Signature::Int32, vec![]),
        ],
    );
    assert_eq!(
        decode(&w),
        DynValue::List(vec![DynValue::List(vec![]), DynValue::List(vec![])])
    );
    // an arity-one struct decodes to a one-element list
    let w = WireValue::Struct(vec![WireValue::Bool(false)]);
    assert_eq!(decode(&w), DynValue::List(vec![DynValue::Bool(false)]));
    // an empty dict decodes to an empty record
    let w = WireValue::Dict(Signature::Str, Signature::Variant, vec![]);
    assert_eq!(decode(&w), DynValue::Record(vec![]));
    // a wide unsigned payload wraps into the dynamic integer
    assert_eq!(decode(&WireValue::UInt64(u64::MAX)), DynValue::Int(-1));
    // numeric keys are stringified
    let w = WireValue::Dict(
        Signature::Int16,
        Signature::Bool,
        vec![(WireValue::Int16(-3), WireValue::Bool(true))],
    );
    assert_eq!(
        decode(&w),
        DynValue::Record(vec![(String::from("-3"), DynValue::Bool(true))])
    );
    // object paths and signatures decode to their text
    assert_eq!(
        decode(&WireValue::ObjectPath(String::from("/org"))),
        DynValue::Str(String::from("/org"))
    );
    assert_eq!(
        decode(&WireValue::Sig(String::from("a{sv}"))),
        DynValue::Str(String::from("a{sv}"))
    );
}

#[test]
fn duration_counts_as_numeric() {
    assert_eq!(
        encode(&DynValue::Duration(1500), &sig("x")),
        Ok(WireValue::Int64(1500))
    );
    assert_eq!(
        encode(&DynValue::Duration(2), &sig("d")),
        Ok(WireValue::Double(2.0f64.to_bits()))
    );
}
