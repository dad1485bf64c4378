//! The introspection parser and resolvers, and the client's pure
//! decision logic.

use dbus_core::client::decode_get_all;
use dbus_core::client::decode_reply;
use dbus_core::client::encode_args;
use dbus_core::client::filter_names;
use dbus_core::client::next_stage;
use dbus_core::client::plan_call_signature;
use dbus_core::client::require_writable;
use dbus_core::client::OpStage;
use dbus_core::client::SignaturePlan;
use dbus_core::error::Error;
use dbus_core::introspect::parse_introspection;
use dbus_core::introspect::Access;
use dbus_core::introspect::Node;
use dbus_core::pattern::Pattern;
use dbus_core::signature::to_text_all;
use dbus_core::signature::Signature;
use dbus_core::value::DynValue;
use dbus_core::value::WireValue;

const SAMPLE: &str = r#"<?xml version="1.0"?>
<!DOCTYPE node PUBLIC "-//freedesktop//DTD D-BUS Object Introspection 1.0//EN"
 "http://www.freedesktop.org/standards/dbus/1.0/introspect.dtd">
<node>
  <!-- a child object -->
  <node name="child_a"/>
  <node name="child_b"/>
  <interface name="org.example.Player">
    <method name="Seek">
      <arg name="offset" type="x" direction="in"/>
      <arg name="track" type="s" direction="in"/>
      <arg name="broken" direction="in"/>
      <arg name="ok" type="b" direction="out"/>
    </method>
    <method/>
    <method name="Stop"/>
    <signal name="Seeked">
      <arg name="position" type="x"/>
    </signal>
    <property name="Volume" type="d" access="readwrite"/>
    <property name="Position" type="x" access="read"/>
    <property name="Broken" type="x" access="banana"/>
    <property name="AlsoBroken" access="read"/>
    <unknown-element keep="ignored"/>
  </interface>
</node>"#;

#[test]
fn introspection_is_parsed_into_the_tree() {
    let node = parse_introspection(SAMPLE).unwrap();
    assert_eq!(node.children, vec![String::from("child_a"), String::from("child_b")]);
    assert_eq!(node.interfaces.len(), 1);
    let iface = &node.interfaces[0];
    assert_eq!(iface.name, "org.example.Player");
    assert_eq!(iface.methods.len(), 2);
    assert_eq!(iface.signals.len(), 1);
    assert_eq!(iface.properties.len(), 2);
    assert_eq!(iface.methods[0].in_args.len(), 2);
    assert_eq!(iface.methods[0].out_args.len(), 1);
}

#[test]
fn method_signatures_resolve_in_declared_order() {
    let node = parse_introspection(SAMPLE).unwrap();
    let sigs = node
        .resolve_method_signature("org.example.Player", "Seek")
        .unwrap();
    assert_eq!(to_text_all(&sigs).as_str(), "xs");
    let none = node
        .resolve_method_signature("org.example.Player", "Stop")
        .unwrap();
    assert_eq!(none.len(), 0);
}

#[test]
fn absent_names_resolve_to_not_found() {
    let node = parse_introspection(SAMPLE).unwrap();
    assert_eq!(
        node.resolve_method_signature("org.example.Absent", "Seek").err(),
        Some(Error::NotFound)
    );
    assert_eq!(
        node.resolve_method_signature("org.example.Player", "Absent").err(),
        Some(Error::NotFound)
    );
    assert_eq!(
        node.resolve_property_signature("org.example.Player", "Absent").err(),
        Some(Error::NotFound)
    );
}

#[test]
fn properties_resolve_with_their_access() {
    let node = parse_introspection(SAMPLE).unwrap();
    let (sig, access) = node
        .resolve_property_signature("org.example.Player", "Volume")
        .unwrap();
    assert_eq!(sig, Signature::Double);
    assert_eq!(access, Access::ReadWrite);
    let (_, access) = node
        .resolve_property_signature("org.example.Player", "Position")
        .unwrap();
    assert_eq!(access, Access::Read);
    assert!(require_writable(Access::ReadWrite).is_ok());
    assert!(require_writable(Access::Write).is_ok());
    assert_eq!(
        require_writable(Access::Read).err(),
        Some(Error::PropertyNotWritable)
    );
}

#[test]
fn unknown_elements_never_change_the_tree() {
    let plain = "<node><node name=\"c\"/><interface name=\"i\">\
                 <method name=\"M\"><arg type=\"i\"/></method>\
                 </interface></node>";
    let noisy = "<node><mystery x=\"1\"/><node name=\"c\"/>\
                 <!-- a comment --><interface name=\"i\">\
                 <annotation name=\"a\" value=\"b\"/>\
                 <method name=\"M\"><arg type=\"i\"/><bogus/></method>\
                 </interface><other/></node>";
    assert_eq!(
        parse_introspection(plain).unwrap(),
        parse_introspection(noisy).unwrap()
    );
}

#[test]
fn malformed_documents_are_rejected() {
    assert_eq!(
        parse_introspection("<node><interface></node>").err(),
        Some(Error::MalformedIntrospection)
    );
    assert_eq!(
        parse_introspection("no xml here").err(),
        Some(Error::MalformedIntrospection)
    );
    assert_eq!(
        parse_introspection("<node").err(),
        Some(Error::MalformedIntrospection)
    );
    assert_eq!(
        parse_introspection("<interface name=\"x\"/>").err(),
        Some(Error::MalformedIntrospection)
    );
}

#[test]
fn the_tree_converts_to_a_record() {
    let node = parse_introspection(SAMPLE).unwrap();
    match node.to_value() {
        DynValue::Record(fields) => {
            assert_eq!(fields.len(), 2);
            assert_eq!(fields[0].0, "children");
            assert_eq!(
                fields[0].1,
                DynValue::List(vec![
                    DynValue::Str(String::from("child_a")),
                    DynValue::Str(String::from("child_b")),
                ])
            );
            assert_eq!(fields[1].0, "interfaces");
            match &fields[1].1 {
                DynValue::List(ifaces) => assert_eq!(ifaces.len(), 1),
                other => panic!("expected a list, got {:?}", other),
            }
        },
        other => panic!("expected a record, got {:?}", other),
    }
}

#[test]
fn signature_plans_follow_the_flags() {
    let explicit = String::from("ii");
    match plan_call_signature(Some(&explicit), false).unwrap() {
        SignaturePlan::Explicit(sigs) => {
            assert_eq!(sigs, vec![Signature::Int32, Signature::Int32]);
        },
        other => panic!("expected an explicit plan, got {:?}", other),
    }
    let bad = String::from("(");
    assert_eq!(
        plan_call_signature(Some(&bad), false).err(),
        Some(Error::MalformedSignature)
    );
    assert!(matches!(
        plan_call_signature(None, false).unwrap(),
        SignaturePlan::Introspect
    ));
    assert!(matches!(
        plan_call_signature(None, true).unwrap(),
        SignaturePlan::Guess
    ));
}

#[test]
fn argument_counts_are_checked_before_encoding() {
    let args = vec![DynValue::Int(1), DynValue::Int(2)];
    let sigs = vec![Signature::Int32];
    assert_eq!(
        encode_args(&args, &sigs).err(),
        Some(Error::ArgumentCountMismatch { expected_count: 1, actual_count: 2 })
    );
    let sigs = vec![Signature::Int32, Signature::Str];
    assert_eq!(
        encode_args(&args, &sigs).err(),
        Some(Error::TypeMismatch {
            expected: 's',
            found: dbus_core::error::ValueKind::Int,
        })
    );
    let sigs = vec![Signature::Int32, Signature::Int64];
    assert_eq!(
        encode_args(&args, &sigs).unwrap(),
        vec![WireValue::Int32(1), WireValue::Int64(2)]
    );
}

#[test]
fn replies_decode_independently() {
    let outs = vec![WireValue::Int32(5), WireValue::Str(String::from("x"))];
    assert_eq!(
        decode_reply(&outs),
        vec![DynValue::Int(5), DynValue::Str(String::from("x"))]
    );
    assert_eq!(decode_reply(&vec![]), Vec::<DynValue>::new());
}

#[test]
fn get_all_requires_the_dictionary_envelope() {
    let reply = WireValue::Dict(
        Signature::Str,
        Signature::Variant,
        vec![(
            WireValue::Str(String::from("Volume")),
            WireValue::Variant(Signature::Double, Box::new(WireValue::Double(0))),
        )],
    );
    assert_eq!(
        decode_get_all(&reply).unwrap(),
        DynValue::Record(vec![(String::from("Volume"), DynValue::Float(0))])
    );
    assert_eq!(
        decode_get_all(&WireValue::Int32(3)).err(),
        Some(Error::BusError)
    );
}

#[test]
fn name_listings_filter_in_order() {
    let names = vec![
        String::from("org.freedesktop.DBus"),
        String::from("org.freedesktop.Management.Inhibit"),
        String::from("org.freedesktop.Notifications"),
        String::from("com.example"),
    ];
    assert_eq!(filter_names(names.clone(), None), names);
    let p = Pattern::compile("org.freedesktop.*").unwrap();
    assert_eq!(
        filter_names(names, Some(&p)),
        vec![
            String::from("org.freedesktop.DBus"),
            String::from("org.freedesktop.Notifications"),
        ]
    );
}

#[test]
fn operations_advance_stage_by_stage() {
    assert_eq!(next_stage(OpStage::Idle, true), OpStage::Resolving);
    assert_eq!(next_stage(OpStage::Resolving, true), OpStage::Encoding);
    assert_eq!(next_stage(OpStage::Encoding, true), OpStage::InFlight);
    assert_eq!(next_stage(OpStage::InFlight, true), OpStage::Decoding);
    assert_eq!(next_stage(OpStage::Decoding, true), OpStage::Done);
    assert_eq!(next_stage(OpStage::InFlight, false), OpStage::Failed);
}

#[test]
fn empty_tree_resolves_nothing() {
    let node = Node { children: vec![], interfaces: vec![] };
    assert_eq!(
        node.resolve_method_signature("any", "thing").err(),
        Some(Error::NotFound)
    );
}
