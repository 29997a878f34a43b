use actor_params::CodecError;
use actor_params::ParamMap;
use actor_params::ParametersType;
use actor_params::actor_function_request;
use actor_params::add_actor_function_request;
use actor_params::add_message_to_user;
use actor_params::add_parameters_map_to_json;
use actor_params::add_virtual_parameters_map_to_json;
use actor_params::arguments_json_to_map;
use actor_params::get_actor_name;
use actor_params::message_to_user;
use actor_params::parameters_json_to_map;
use actor_params::parameters_map_to_json;
use actor_params::virtual_parameters_json_to_map;
use actor_params::virtual_parameters_map_to_json;

#[test]
fn actor_name_get() {
    let request = r#"{
            "actor_name" : "channel_A",
            "parameters" : {
                "a" : 0,
                "b" : "c"
            }
        }"#;

    let actor_name = get_actor_name(request).unwrap();
    println!("{}", actor_name);
}

#[test]
fn actor_name_value() {
    let request = r#"{"actor_name":"channel_A","parameters":{"a":0,"b":"c"}}"#;
    assert_eq!(get_actor_name(request).unwrap(), "channel_A");
    let map = parameters_json_to_map(request).unwrap();
    assert_eq!(map.len(), 2);
    assert_eq!(map.get("a"), Some(&ParametersType::U64(0)));
    assert_eq!(map.get("b"), Some(&ParametersType::Text("c".to_string())));
}

#[test]
fn actor_name_missing_is_empty() {
    assert_eq!(get_actor_name(r#"{"parameters":{"a":1}}"#).unwrap(), "");
    assert_eq!(get_actor_name(r#"[1, 2]"#).unwrap(), "");
}

#[test]
fn actor_name_non_string_is_serialized() {
    assert_eq!(get_actor_name(r#"{"actor_name": 5}"#).unwrap(), "5");
}

#[test]
fn actor_name_malformed_fails() {
    assert_eq!(get_actor_name("{"), Err(CodecError::MalformedJson));
}

#[test]
fn null_member_is_dropped() {
    let map = parameters_json_to_map(r#"{"parameters": {"x": null}}"#).unwrap();
    assert_eq!(map.len(), 0);
}

#[test]
fn unsupported_members_are_dropped() {
    let map = parameters_json_to_map(
        r#"{"parameters": {"a": {"nested": 1}, "b": [1.5], "c": [1, "x"], "d": 2}}"#,
    )
    .unwrap();
    assert_eq!(map.len(), 1);
    assert_eq!(map.get("d"), Some(&ParametersType::U64(2)));
}

#[test]
fn missing_or_non_object_section_is_empty() {
    assert_eq!(parameters_json_to_map(r#"{"a":1}"#).unwrap().len(), 0);
    assert_eq!(parameters_json_to_map(r#"{"parameters": 3}"#).unwrap().len(), 0);
    assert_eq!(parameters_json_to_map(r#"[1]"#).unwrap().len(), 0);
}

#[test]
fn decode_malformed_fails() {
    assert_eq!(parameters_json_to_map("not json"), Err(CodecError::MalformedJson));
}

#[test]
fn numbers_decode_by_kind() {
    let map = parameters_json_to_map(r#"{"parameters":{"a": 7, "b": -5, "c": 1.5, "d": true}}"#)
        .unwrap();
    assert_eq!(map.get("a"), Some(&ParametersType::U64(7)));
    assert_eq!(map.get("b"), Some(&ParametersType::I64(-5)));
    assert_eq!(map.get("c"), Some(&ParametersType::F64(1.5f64.to_bits())));
    assert_eq!(map.get("d"), Some(&ParametersType::Bool(true)));
}

#[test]
fn nonneg_array_decodes_as_vecu32() {
    let map = parameters_json_to_map(r#"{"parameters":{"v": [1, 2, 3]}}"#).unwrap();
    assert_eq!(map.get("v"), Some(&ParametersType::VecU32(vec![1, 2, 3])));
}

#[test]
fn mixed_sign_array_decodes_as_veci32() {
    let map = parameters_json_to_map(r#"{"parameters":{"v": [1, -1]}}"#).unwrap();
    assert_eq!(map.get("v"), Some(&ParametersType::VecI32(vec![1, -1])));
}

#[test]
fn array_elements_narrow_by_truncation() {
    let map = parameters_json_to_map(r#"{"parameters":{"v": [4294967297]}}"#).unwrap();
    assert_eq!(map.get("v"), Some(&ParametersType::VecU32(vec![1])));
}

#[test]
fn virtual_and_function_sections_decode_alike() {
    let map = virtual_parameters_json_to_map(r#"{"virtual_parameters":{"a": 1}}"#).unwrap();
    assert_eq!(map.get("a"), Some(&ParametersType::U64(1)));
    let map = arguments_json_to_map(r#"{"function_parameters":{"a": "x"}}"#).unwrap();
    assert_eq!(map.get("a"), Some(&ParametersType::Text("x".to_string())));
}

#[test]
fn encode_standalone_parameters() {
    let map = ParamMap::new()
        .insert("b", ParametersType::U64(2))
        .insert("a", ParametersType::U64(1));
    let text = parameters_map_to_json(map).unwrap();
    assert_eq!(text, r#"{"parameters":{"a":1,"b":2}}"#);
}

#[test]
fn encode_standalone_virtual_parameters() {
    let map = ParamMap::new().insert("a", ParametersType::Bool(false));
    let text = virtual_parameters_map_to_json(map).unwrap();
    assert_eq!(text, r#"{"virtual_parameters":{"a":false}}"#);
}

#[test]
fn encode_every_variant() {
    let map = ParamMap::new()
        .insert("a", ParametersType::I16(-3))
        .insert("b", ParametersType::I32(12))
        .insert("c", ParametersType::I64(-9))
        .insert("d", ParametersType::U8(7))
        .insert("e", ParametersType::U16(8))
        .insert("f", ParametersType::U32(9))
        .insert("g", ParametersType::U64(18446744073709551615))
        .insert("h", ParametersType::F32((0.5f32 as f64).to_bits()))
        .insert("i", ParametersType::F64(1.5f64.to_bits()))
        .insert("j", ParametersType::VecI32(vec![-1, 2]))
        .insert("k", ParametersType::VecU32(vec![4]))
        .insert("l", ParametersType::Usize(11))
        .insert("m", ParametersType::Text("s".to_string()));
    let text = parameters_map_to_json(map).unwrap();
    let expected = r#"{"parameters":{"a":-3,"b":12,"c":-9,"d":7,"e":8,"f":9,"g":18446744073709551615,"h":0.5,"i":1.5,"j":[-1,2],"k":[4],"l":11,"m":"s"}}"#;
    assert_eq!(text, expected);
}

#[test]
fn encode_nan_fails() {
    let map = ParamMap::new().insert("x", ParametersType::F64(f64::NAN.to_bits()));
    assert_eq!(parameters_map_to_json(map), Err(CodecError::NonFiniteNumber));
}

#[test]
fn encode_infinity_fails() {
    let map = ParamMap::new().insert("x", ParametersType::F32((f32::INFINITY as f64).to_bits()));
    assert_eq!(parameters_map_to_json(map), Err(CodecError::NonFiniteNumber));
}

#[test]
fn round_trip_reconstructs_map() {
    let map = ParamMap::new()
        .insert("n", ParametersType::U64(42))
        .insert("s", ParametersType::Text("hello".to_string()))
        .insert("u", ParametersType::VecU32(vec![1, 2]))
        .insert("v", ParametersType::VecI32(vec![-7, 3]));
    let text = parameters_map_to_json(map.clone()).unwrap();
    let back = parameters_json_to_map(&text).unwrap();
    assert_eq!(back, map);
}

#[test]
fn awkward_float_bits_survive_round_trip() {
    let bits: u64 = 0x1e2feb89414c343c;
    let map = ParamMap::new()
        .insert("b", ParametersType::Bool(true))
        .insert("f", ParametersType::F64(bits))
        .insert("n", ParametersType::I64(-3));
    let text = parameters_map_to_json(map.clone()).unwrap();
    let back = parameters_json_to_map(&text).unwrap();
    assert_eq!(back, map);
}

#[test]
fn round_trip_does_not_keep_narrow_tags() {
    let map = ParamMap::new().insert("n", ParametersType::U8(5));
    let text = parameters_map_to_json(map).unwrap();
    let back = parameters_json_to_map(&text).unwrap();
    assert_eq!(back.get("n"), Some(&ParametersType::U64(5)));
}

#[test]
fn merge_into_object_inserts_section() {
    let map = ParamMap::new().insert("a", ParametersType::U64(1));
    let text = add_parameters_map_to_json(map, r#"{"actor_name":"x"}"#).unwrap();
    assert_eq!(text, r#"{"actor_name":"x","parameters":{"a":1}}"#);
}

#[test]
fn merge_overwrites_existing_section() {
    let map = ParamMap::new().insert("a", ParametersType::U64(1));
    let text = add_parameters_map_to_json(map, r#"{"parameters":{"z":9},"x":2}"#).unwrap();
    assert_eq!(text, r#"{"parameters":{"a":1},"x":2}"#);
}

#[test]
fn merge_virtual_parameters() {
    let map = ParamMap::new().insert("a", ParametersType::U64(1));
    let text = add_virtual_parameters_map_to_json(map, r#"{"b":true}"#).unwrap();
    assert_eq!(text, r#"{"b":true,"virtual_parameters":{"a":1}}"#);
}

#[test]
fn merge_into_array_root_is_a_no_op() {
    let map = ParamMap::new().insert("a", ParametersType::U64(1));
    assert_eq!(add_parameters_map_to_json(map.clone(), "[1, 2]").unwrap(), "[1, 2]");
    assert_eq!(add_virtual_parameters_map_to_json(map.clone(), "[1, 2]").unwrap(), "[1, 2]");
    assert_eq!(add_message_to_user("hi", "[1, 2]").unwrap(), "[1, 2]");
    assert_eq!(
        add_actor_function_request("a", "f", map, "[1, 2]").unwrap(),
        "[1, 2]"
    );
}

#[test]
fn merge_malformed_fails() {
    let map = ParamMap::new().insert("a", ParametersType::U64(1));
    assert_eq!(add_parameters_map_to_json(map, "{"), Err(CodecError::MalformedJson));
}

#[test]
fn user_message_is_formatted_verbatim() {
    assert_eq!(message_to_user("hello"), r#"{"to_user_message" : "hello"}"#);
    assert_eq!(message_to_user(""), r#"{"to_user_message" : ""}"#);
}

#[test]
fn add_user_message_escapes_properly() {
    let text = add_message_to_user("hi", r#"{"a":1}"#).unwrap();
    assert_eq!(text, r#"{"a":1,"to_user_message":"hi"}"#);
    let text = add_message_to_user("say \"hi\"", r#"{}"#).unwrap();
    assert_eq!(text, r#"{"to_user_message":"say \"hi\""}"#);
}

#[test]
fn function_request_document() {
    let map = ParamMap::new().insert("n", ParametersType::U64(5));
    let text = actor_function_request("channel_A", "start", map).unwrap();
    let expected = r#"{"function_component":{"actor_name":"channel_A","function_name":"start","function_parameters":{"n":5}}}"#;
    assert_eq!(text, expected);
}

#[test]
fn function_request_nan_fails() {
    let map = ParamMap::new().insert("n", ParametersType::F64(f64::NAN.to_bits()));
    assert_eq!(
        actor_function_request("a", "f", map),
        Err(CodecError::NonFiniteNumber)
    );
}

#[test]
fn add_function_request_to_document() {
    let map = ParamMap::new().insert("n", ParametersType::U64(5));
    let text = add_actor_function_request("channel_A", "start", map, r#"{"z":1}"#).unwrap();
    let expected = r#"{"function_component":{"actor_name":"channel_A","function_name":"start","function_parameters":{"n":5}},"z":1}"#;
    assert_eq!(text, expected);
}

#[test]
fn insert_overwrites_by_name() {
    let map = ParamMap::new()
        .insert("a", ParametersType::U64(1))
        .insert("a", ParametersType::U64(2));
    assert_eq!(map.len(), 1);
    assert_eq!(map.get("a"), Some(&ParametersType::U64(2)));
}

#[test]
fn decoded_map_is_name_ordered() {
    let map = parameters_json_to_map(r#"{"parameters":{"b":2,"a":1,"c":3}}"#).unwrap();
    let names: Vec<String> = map.entries().iter().map(|e| e.0.clone()).collect();
    assert_eq!(names, vec!["a".to_string(), "b".to_string(), "c".to_string()]);
}

#[test]
fn large_uint_array_prefers_unsigned() {
    let map = parameters_json_to_map(r#"{"parameters":{"v": [1, 9223372036854775808]}}"#).unwrap();
    assert_eq!(map.get("v"), Some(&ParametersType::VecU32(vec![1, 0])));
}
