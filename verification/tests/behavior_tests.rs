use bencode::value::{BencodeError, Value};

#[test]
fn scenario_byte_string_spam() {
    let input = b"4:spam";
    let (v, next) = Value::parse_bytes(input, 0).unwrap();
    assert_eq!(next, 6);
    assert_eq!(v.bytes_of(input).unwrap(), b"spam");
}

#[test]
fn scenario_zero_length_is_fatal() {
    let e = Value::parse_bytes(b"0:", 0).unwrap_err();
    assert!(e.is_fatal());
    assert!(matches!(e, BencodeError::InvalidByteStringLength(_)));
}

#[test]
fn scenario_list_spam_42() {
    let input = b"l4:spami42ee";
    let (v, next) = Value::parse_list(input, 0).unwrap();
    assert_eq!(next, 12);
    if let Value::List(items) = &v {
        assert_eq!(items.len(), 2);
        assert_eq!(items[0].bytes_of(input).unwrap(), b"spam");
        assert!(matches!(items[1], Value::Integer(42)));
    } else {
        panic!("expected a list");
    }
}

#[test]
fn scenario_dict_bar_foo() {
    let input = b"d3:bar4:spam3:fooi42ee";
    let (v, next) = Value::parse_dict(input, 0).unwrap();
    assert_eq!(next, input.len());
    let bar = v.lookup(input, b"bar").unwrap();
    assert_eq!(bar.bytes_of(input).unwrap(), b"spam");
    let foo = v.lookup(input, b"foo").unwrap();
    assert!(matches!(foo, Value::Integer(42)));
}

#[test]
fn empty_buffer_yields_empty_sequence() {
    let vs = Value::parse(b"").unwrap();
    assert_eq!(vs.len(), 0);
}

#[test]
fn trailing_bytes_reject_the_whole_buffer() {
    let e = Value::parse(b"i5ex").unwrap_err();
    assert!(!e.is_fatal());
    assert!(matches!(e, BencodeError::StructuralMismatch(3)));
}

#[test]
fn byte_string_consumes_exactly_declared_length() {
    let input = b"3:abc1:f";
    let (v, next) = Value::parse_bytes(input, 0).unwrap();
    assert_eq!(next, 5);
    assert_eq!(v.bytes_of(input).unwrap(), b"abc");

    // the next token begins right after the payload
    let (v, next) = Value::parse_bytes(input, next).unwrap();
    assert_eq!(next, 8);
    assert_eq!(v.bytes_of(input).unwrap(), b"f");
}

#[test]
fn integer_bounds_of_sixty_four_bits() {
    let (v, _) = Value::parse_integer(b"i9223372036854775807e", 0).unwrap();
    assert!(matches!(v, Value::Integer(i64::MAX)));

    let (v, _) = Value::parse_integer(b"i-9223372036854775808e", 0).unwrap();
    assert!(matches!(v, Value::Integer(i64::MIN)));

    let e = Value::parse_integer(b"i9223372036854775808e", 0).unwrap_err();
    assert!(e.is_fatal());
    assert!(matches!(e, BencodeError::IntegerOverflow(_)));

    let e = Value::parse_integer(b"i-9223372036854775809e", 0).unwrap_err();
    assert!(e.is_fatal());
    assert!(matches!(e, BencodeError::IntegerOverflow(_)));
}

#[test]
fn plus_sign_is_accepted() {
    let (v, _) = Value::parse_integer(b"i+5e", 0).unwrap();
    assert!(matches!(v, Value::Integer(5)));

    let (v, _) = Value::parse_integer(b"i+0e", 0).unwrap();
    assert!(matches!(v, Value::Integer(0)));

    // the leading-zero rejection applies to `-` and to unsigned digit runs
    let (v, _) = Value::parse_integer(b"i+05e", 0).unwrap();
    assert!(matches!(v, Value::Integer(5)));
}

#[test]
fn declared_length_beyond_u64_is_fatal() {
    let e = Value::parse_bytes(b"99999999999999999999:x", 0).unwrap_err();
    assert!(e.is_fatal());
    assert!(matches!(e, BencodeError::IntegerOverflow(_)));
}

#[test]
fn dict_key_must_be_byte_string() {
    let e = Value::parse_dict(b"di1ei2ee", 0).unwrap_err();
    assert!(!e.is_fatal());
    assert!(matches!(e, BencodeError::StructuralMismatch(1)));
}

#[test]
fn duplicate_keys_keep_the_last_value() {
    let input = b"d1:ai1e1:ai2ee";
    let (v, _) = Value::parse_dict(input, 0).unwrap();
    let a = v.lookup(input, b"a").unwrap();
    assert!(matches!(a, Value::Integer(2)));
    if let Value::Dictionary(entries) = &v {
        assert_eq!(entries.len(), 1);
    } else {
        panic!("expected a dictionary");
    }
}

#[test]
fn fatal_error_inside_a_list_aborts() {
    let e = Value::parse_list(b"li-0ee", 0).unwrap_err();
    assert!(e.is_fatal());
    assert!(matches!(e, BencodeError::InvalidInteger(_)));

    let e = Value::parse(b"l0:e").unwrap_err();
    assert!(e.is_fatal());
    assert!(matches!(e, BencodeError::InvalidByteStringLength(_)));
}

#[test]
fn redecoding_a_span_reproduces_the_tree() {
    let input = b"l4:spami42ee";
    let (v, end) = Value::parse_value(input, 0).unwrap();
    let (w, wend) = Value::parse_value(&input[..end], 0).unwrap();
    assert_eq!(wend, end);
    assert_eq!(w, v);

    // a value decoded in the middle of a buffer, re-decoded on its own span
    let input = b"i7e4:spam";
    let (v, end) = Value::parse_value(input, 3).unwrap();
    assert_eq!(end, 9);
    let span = &input[3..end];
    let (w, wend) = Value::parse_value(span, 0).unwrap();
    assert_eq!(wend, span.len());
    assert_eq!(v.bytes_of(input).unwrap(), w.bytes_of(span).unwrap());
}

#[test]
fn lookup_misses() {
    let input = b"d1:ai1ee";
    let (v, _) = Value::parse_dict(input, 0).unwrap();
    assert!(v.lookup(input, b"b").is_none());

    let (v, _) = Value::parse_integer(b"i1e", 0).unwrap();
    assert!(v.lookup(b"i1e", b"a").is_none());
    assert!(v.bytes_of(b"i1e").is_none());
}

#[test]
fn error_classes() {
    assert!(!BencodeError::StructuralMismatch(0).is_fatal());
    assert!(BencodeError::InvalidInteger(0).is_fatal());
    assert!(BencodeError::IntegerOverflow(0).is_fatal());
    assert!(BencodeError::InvalidByteStringLength(0).is_fatal());
}

#[test]
fn nested_structures_round_out() {
    let input = b"d4:infod6:lengthi655360000e4:name8:demo.isoee";
    let vs = Value::parse(input).unwrap();
    assert_eq!(vs.len(), 1);
    let top = vs.first().unwrap();
    let info = top.lookup(input, b"info").unwrap();
    let length = info.lookup(input, b"length").unwrap();
    assert!(matches!(length, Value::Integer(655_360_000)));
    let name = info.lookup(input, b"name").unwrap();
    assert_eq!(name.bytes_of(input).unwrap(), b"demo.iso");
}
