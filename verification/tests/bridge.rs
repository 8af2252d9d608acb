use vimdow::neovim::codec::encode;
use vimdow::neovim::ext_types::{rmpv_ext_to_godot, Buffer, Tabpage, Window};
use vimdow::neovim::msgpack::{godot_to_rmpv, host_eq, rmpv_to_godot, rpc_array_to_vararray, HostValue};
use vimdow::neovim::value::TaggedValue;

fn assert_projects_to(v: TaggedValue, expected: HostValue) {
    let got = rmpv_to_godot(&v).expect("the value must project");
    assert!(host_eq(&got, &expected));
}

#[test]
fn scalars_project_both_ways() {
    assert_projects_to(TaggedValue::Nil, HostValue::Nil);
    assert_projects_to(TaggedValue::Bool(true), HostValue::Bool(true));
    assert_projects_to(TaggedValue::Int(-9), HostValue::Int(-9));
    assert_projects_to(TaggedValue::UInt(9), HostValue::Int(9));
    assert_projects_to(TaggedValue::F32(1.0f32.to_bits()), HostValue::F32(1.0f32.to_bits()));
    assert_projects_to(TaggedValue::Str("hi".to_string()), HostValue::Str("hi".to_string()));
}

#[test]
fn an_oversized_unsigned_integer_surfaces_as_nil() {
    assert_projects_to(TaggedValue::UInt(u64::MAX), HostValue::Nil);
}

#[test]
fn binary_payloads_are_rejected() {
    assert!(rmpv_to_godot(&TaggedValue::Bin(vec![1])).is_none());
    assert!(rmpv_to_godot(&TaggedValue::Array(vec![TaggedValue::Bin(vec![1])])).is_none());
}

#[test]
fn the_window_extension_dispatches_to_a_window_handle() {
    let payload = encode(&TaggedValue::Int(42));
    let got = rmpv_ext_to_godot(1, &payload);
    assert!(host_eq(&got, &HostValue::WindowHandle(Window(42))));
}

#[test]
fn all_three_extension_tags_dispatch() {
    let payload = encode(&TaggedValue::Int(7));
    assert!(host_eq(&rmpv_ext_to_godot(0, &payload), &HostValue::BufferHandle(Buffer(7))));
    assert!(host_eq(&rmpv_ext_to_godot(1, &payload), &HostValue::WindowHandle(Window(7))));
    assert!(host_eq(&rmpv_ext_to_godot(2, &payload), &HostValue::TabpageHandle(Tabpage(7))));
}

#[test]
fn a_zero_handle_id_is_permitted() {
    let payload = encode(&TaggedValue::Int(0));
    assert!(host_eq(&rmpv_ext_to_godot(0, &payload), &HostValue::BufferHandle(Buffer(0))));
}

#[test]
fn an_unknown_extension_tag_surfaces_as_nil() {
    let payload = encode(&TaggedValue::Int(42));
    assert!(host_eq(&rmpv_ext_to_godot(9, &payload), &HostValue::Nil));
}

#[test]
fn a_non_integer_extension_payload_surfaces_as_nil() {
    let payload = encode(&TaggedValue::Str("x".to_string()));
    assert!(host_eq(&rmpv_ext_to_godot(1, &payload), &HostValue::Nil));
    assert!(host_eq(&rmpv_ext_to_godot(1, &vec![0xc1]), &HostValue::Nil));
}

#[test]
fn duplicate_map_keys_keep_the_last_value() {
    let m = TaggedValue::Dict(vec![
        (TaggedValue::Str("a".to_string()), TaggedValue::Int(1)),
        (TaggedValue::Str("b".to_string()), TaggedValue::Int(2)),
        (TaggedValue::Str("a".to_string()), TaggedValue::Int(3)),
    ]);
    let expected = HostValue::Dict(vec![
        (HostValue::Str("a".to_string()), HostValue::Int(3)),
        (HostValue::Str("b".to_string()), HostValue::Int(2)),
    ]);
    assert_projects_to(m, expected);
}

#[test]
fn signed_and_unsigned_map_keys_collide() {
    // The two key forms denote the same integer, so the later value wins.
    let m = TaggedValue::Dict(vec![
        (TaggedValue::Int(5), TaggedValue::Int(1)),
        (TaggedValue::UInt(5), TaggedValue::Int(2)),
    ]);
    let expected = HostValue::Dict(vec![(HostValue::Int(5), HostValue::Int(2))]);
    assert_projects_to(m, expected);
}

fn host_samples() -> Vec<HostValue> {
    vec![
        HostValue::Nil,
        HostValue::Bool(false),
        HostValue::Int(-3),
        HostValue::F32(9.75f32.to_bits()),
        HostValue::F64(1e100f64.to_bits()),
        HostValue::Str("text".to_string()),
        HostValue::BufferHandle(Buffer(3)),
        HostValue::WindowHandle(Window(0)),
        HostValue::TabpageHandle(Tabpage(-1)),
        HostValue::Array(vec![HostValue::Int(1), HostValue::Str("two".to_string())]),
        HostValue::Dict(vec![(HostValue::Str("k".to_string()), HostValue::Bool(true))]),
    ]
}

#[test]
fn host_values_survive_the_round_trip() {
    for h in host_samples() {
        let wire = godot_to_rmpv(&h);
        let back = rmpv_to_godot(&wire).expect("a projected value must project back");
        assert!(host_eq(&back, &h));
    }
}

#[test]
fn a_string_name_comes_back_as_a_plain_string() {
    let wire = godot_to_rmpv(&HostValue::StrName("name".to_string()));
    let back = rmpv_to_godot(&wire).unwrap();
    assert!(host_eq(&back, &HostValue::Str("name".to_string())));
}

#[test]
fn handles_keep_id_and_variant_across_the_wire() {
    let wire = godot_to_rmpv(&HostValue::WindowHandle(Window(42)));
    match &wire {
        TaggedValue::Ext(1, payload) => {
            assert_eq!(*payload, encode(&TaggedValue::Int(42)));
        }
        _ => panic!("expected a window extension value"),
    }
    let back = rmpv_to_godot(&wire).unwrap();
    assert!(host_eq(&back, &HostValue::WindowHandle(Window(42))));
}

#[test]
fn rpc_arrays_project_element_by_element() {
    let arr = vec![
        TaggedValue::Str("flush".to_string()),
        TaggedValue::Array(vec![]),
    ];
    let hs = rpc_array_to_vararray(&arr).unwrap();
    assert_eq!(hs.len(), 2);
    assert!(host_eq(&hs[0], &HostValue::Str("flush".to_string())));
    assert!(host_eq(&hs[1], &HostValue::Array(vec![])));
}

#[test]
fn wire_values_survive_the_round_trip_back_to_the_wire() {
    // to_tagged(from_tagged(v)) for values inside the mapped set.
    let samples = vec![
        TaggedValue::Nil,
        TaggedValue::Int(11),
        TaggedValue::Str("s".to_string()),
        TaggedValue::Ext(2, encode(&TaggedValue::Int(5))),
        TaggedValue::Array(vec![TaggedValue::Bool(true)]),
    ];
    for v in samples {
        let original = encode(&v);
        let host = rmpv_to_godot(&v).unwrap();
        let back = godot_to_rmpv(&host);
        assert_eq!(encode(&back), original);
    }
}
