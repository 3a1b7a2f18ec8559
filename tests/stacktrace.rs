use event_schema::stacktrace::{address_string, parse_address, Addr, Frame, RegVal, Stacktrace};
use event_schema::value::{Annotated, Object, Val};

#[test]
fn test_frame_roundtrip() {
    let json = r#"{
  "function": "main",
  "symbol": "_main",
  "module": "app",
  "package": "/my/app",
  "filename": "myfile.rs",
  "abs_path": "/path/to",
  "lineno": 2,
  "colno": 42,
  "pre_context": [
    "fn main() {"
  ],
  "context_line": "unimplemented!()",
  "post_context": [
    "}"
  ],
  "in_app": true,
  "vars": {
    "variable": "value"
  },
  "image_addr": "0x400",
  "instruction_addr": "0x404",
  "symbol_addr": "0x404",
  "trust": "69",
  "other": "value"
}"#;
    let frame = Annotated::new(Frame {
        function: Annotated::new("main".to_string()),
        symbol: Annotated::new("_main".to_string()),
        module: Annotated::new("app".to_string()),
        package: Annotated::new("/my/app".to_string()),
        filename: Annotated::new("myfile.rs".to_string()),
        abs_path: Annotated::new("/path/to".to_string()),
        line: Annotated::new(2),
        column: Annotated::new(42),
        pre_lines: Annotated::new(vec![Annotated::new("fn main() {".to_string())]),
        current_line: Annotated::new("unimplemented!()".to_string()),
        post_lines: Annotated::new(vec![Annotated::new("}".to_string())]),
        in_app: Annotated::new(true),
        vars: {
            let mut map = Object::new();
            map.insert("variable".to_string(), Annotated::new(Val::String("value".to_string())));
            Annotated::new(map)
        },
        image_addr: Annotated::new(Addr(0x400)),
        instruction_addr: Annotated::new(Addr(0x404)),
        symbol_addr: Annotated::new(Addr(0x404)),
        trust: Annotated::new("69".into()),
        other: {
            let mut map = Object::new();
            map.insert("other".to_string(), Annotated::new(Val::String("value".to_string())));
            map
        },
    });

    assert_eq!(frame, Annotated::from_json(json).unwrap());
    assert_eq!(json, frame.to_json_pretty());
}

#[test]
fn test_frame_default_values() {
    let json = "{}";
    let frame = Annotated::new(Frame::default());

    assert_eq!(frame, Annotated::from_json(json).unwrap());
    assert_eq!(json, frame.to_json_pretty());
}

#[test]
fn test_stacktrace_roundtrip() {
    let json = r#"{
  "frames": [
    {}
  ],
  "registers": {
    "cspr": "0x20000000",
    "lr": "0x18a31aadc",
    "pc": "0x18a310ea4",
    "sp": "0x16fd75060"
  },
  "other": "value"
}"#;
    let stack = Annotated::new(Stacktrace {
        frames: Annotated::new(vec![Annotated::new(Default::default())]),
        registers: {
            let mut map = Object::new();
            map.insert("cspr".to_string(), Annotated::new(RegVal(0x2000_0000)));
            map.insert("lr".to_string(), Annotated::new(RegVal(0x1_8a31_aadc)));
            map.insert("pc".to_string(), Annotated::new(RegVal(0x1_8a31_0ea4)));
            map.insert("sp".to_string(), Annotated::new(RegVal(0x1_6fd7_5060)));
            Annotated::new(map)
        },
        other: {
            let mut map = Object::new();
            map.insert("other".to_string(), Annotated::new(Val::String("value".to_string())));
            map
        },
    });

    assert_eq!(stack, Annotated::from_json(json).unwrap());
    assert_eq!(json, stack.to_json_pretty());
}

#[test]
fn test_stacktrace_default_values() {
    let json = r#"{
  "frames": [
    {}
  ]
}"#;
    let stack = Annotated::new(Stacktrace {
        frames: Annotated::new(vec![Annotated::new(Default::default())]),
        registers: Annotated::empty(),
        other: Default::default(),
    });

    assert_eq!(stack, Annotated::from_json(json).unwrap());
    assert_eq!(json, stack.to_json_pretty());
}

#[test]
fn test_stacktrace_invalid() {
    let stack = Annotated::new(Stacktrace {
        frames: Annotated::from_error("value required", None),
        registers: Annotated::empty(),
        other: Default::default(),
    });

    assert_eq!(stack, Annotated::from_json("{}").unwrap());
}

#[test]
fn empty_frames_are_required_too() {
    let stack = Annotated::<Stacktrace>::from_json(r#"{"frames": []}"#).unwrap();
    let s = stack.0.unwrap();
    assert_eq!(s.frames, Annotated::from_error("value required", None));
}

#[test]
fn addresses_are_lowercase_hex() {
    assert_eq!(address_string(0), "0x0");
    assert_eq!(address_string(0x18a31aadc), "0x18a31aadc");
    assert_eq!(address_string(u64::MAX), "0xffffffffffffffff");
    assert_eq!(parse_address("0X1F"), Some(31));
    assert_eq!(parse_address("0x"), None);
    assert_eq!(parse_address("400"), None);
    assert_eq!(parse_address("0x10000000000000000"), None);
    assert_eq!(parse_address("0xffffffffffffffff"), Some(u64::MAX));
}

#[test]
fn mismatched_field_keeps_its_neighbours() {
    let frame = Annotated::<Frame>::from_json(r#"{"lineno": "two", "function": "f"}"#).unwrap();
    let f = frame.0.unwrap();
    assert_eq!(f.function, Annotated::new("f".to_string()));
    assert_eq!(f.line, Annotated::from_error("expected an unsigned integer", None));
    assert!(f.line.1.original_value == Some(Val::String("two".to_string())));
    assert_eq!(f.line.1.errors.len(), 1);
}

#[test]
fn frame_with_numeric_address_serializes_as_hex() {
    let frame = Annotated::<Frame>::from_json(r#"{"image_addr": 1024}"#).unwrap();
    assert_eq!(frame.to_json(), r#"{"image_addr":"0x400"}"#);
}
