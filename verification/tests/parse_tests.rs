use bencode::value::{BencodeError, Value};

#[test]
fn parse_integer() {
    let (v, _) = Value::parse_integer(b"i5e", 0).unwrap();
    assert!(matches!(v, Value::Integer(5)));

    let (v, _) = Value::parse_integer(b"i1337e1:a", 0).unwrap();
    assert!(matches!(v, Value::Integer(1337)));

    let (v, _) = Value::parse_integer(b"i-9e", 0).unwrap();
    assert!(matches!(v, Value::Integer(-9)));

    let (v, _) = Value::parse_integer(b"i123123e", 0).unwrap();
    assert!(matches!(v, Value::Integer(123_123)));
}

#[test]
fn parse_integer_errors() {
    let e = Value::parse_integer(b"i-0e", 0).unwrap_err();
    assert!(e.is_fatal());
    assert!(matches!(e, BencodeError::InvalidInteger(_)));

    let e = Value::parse_integer(b"i00e", 0).unwrap_err();
    assert!(e.is_fatal());
    assert!(matches!(e, BencodeError::InvalidInteger(_)));

    let e = Value::parse_integer(b"i-00e", 0).unwrap_err();
    assert!(e.is_fatal());
    assert!(matches!(e, BencodeError::InvalidInteger(_)));

    let e = Value::parse_integer(b"i01e", 0).unwrap_err();
    assert!(e.is_fatal());
    assert!(matches!(e, BencodeError::InvalidInteger(_)));

    let e = Value::parse_integer(b"i0123e", 0).unwrap_err();
    assert!(e.is_fatal());
    assert!(matches!(e, BencodeError::InvalidInteger(_)));

    let e = Value::parse_integer(b"l1i2ee", 0).unwrap_err();
    assert!(!e.is_fatal());
    assert!(matches!(e, BencodeError::StructuralMismatch(_)));
}

#[test]
fn parse_bytes() {
    let input = b"2:qt";
    let (v, _) = Value::parse_bytes(input, 0).unwrap();
    assert_eq!(v.bytes_of(input).unwrap(), b"qt");

    let input = b"2:rust";
    let (v, _) = Value::parse_bytes(input, 0).unwrap();
    assert_eq!(v.bytes_of(input).unwrap(), b"ru");

    let input = b"3:joker";
    let (v, _) = Value::parse_bytes(input, 0).unwrap();
    assert_eq!(v.bytes_of(input).unwrap(), b"jok");

    let input = b"4:forest";
    let (v, _) = Value::parse_bytes(input, 0).unwrap();
    assert_eq!(v.bytes_of(input).unwrap(), b"fore");
}

#[test]
fn parse_bytes_errors() {
    let e = Value::parse_bytes(b"error", 0).unwrap_err();
    assert!(matches!(e, BencodeError::StructuralMismatch(_)));

    let e = Value::parse_bytes(b"x:error", 0).unwrap_err();
    assert!(matches!(e, BencodeError::StructuralMismatch(_)));

    let e = Value::parse_bytes(b"7:error", 0).unwrap_err();
    assert!(matches!(e, BencodeError::StructuralMismatch(_)));

    let e = Value::parse_bytes(b"-1:error", 0).unwrap_err();
    assert!(matches!(e, BencodeError::StructuralMismatch(_)));

    let e = Value::parse_bytes(b"-0:error", 0).unwrap_err();
    assert!(matches!(e, BencodeError::StructuralMismatch(_)));

    let e = Value::parse_bytes(b"00:error", 0).unwrap_err();
    assert!(e.is_fatal());
    assert!(matches!(e, BencodeError::InvalidByteStringLength(_)));

    let e = Value::parse_bytes(b"0:error", 0).unwrap_err();
    assert!(e.is_fatal());
    assert!(matches!(e, BencodeError::InvalidByteStringLength(_)));
}

#[test]
fn parse_dict() {
    let input = b"d3:bar4:spam3:fooli42eee";
    let (v, _) = Value::parse_dict(input, 0).unwrap();
    assert!(matches!(v, Value::Dictionary(_)));

    let bar = v.lookup(input, b"bar").unwrap();
    assert_eq!(bar.bytes_of(input).unwrap(), b"spam");

    let foo = v.lookup(input, b"foo").unwrap();
    assert!(matches!(foo, Value::List(_)));

    if let Value::List(items) = foo {
        assert!(matches!(items[0], Value::Integer(42)));
    }
}

#[test]
fn parse_dict_errors() {
    let e = Value::parse_dict(b"123", 0).unwrap_err();
    assert!(matches!(e, BencodeError::StructuralMismatch(_)));

    let e = Value::parse_dict(b"d123", 0).unwrap_err();
    assert!(matches!(e, BencodeError::StructuralMismatch(_)));

    let e = Value::parse_dict(b"d3:bar4:spam3:fooi42e", 0).unwrap_err();
    assert!(matches!(e, BencodeError::StructuralMismatch(_)));

    let e = Value::parse_dict(b"d:bar4:spam3:fooi42e", 0).unwrap_err();
    assert!(matches!(e, BencodeError::StructuralMismatch(_)));
}

#[test]
fn parse_list() {
    let input = b"l4:spami42eli9ei50eed3:bar4:spameee";
    let (v, _) = Value::parse_list(input, 0).unwrap();
    assert!(matches!(v, Value::List(_)));

    if let Value::List(list) = &v {
        let mut it = list.iter();

        let x = it.next().unwrap();
        assert_eq!(x.bytes_of(input).unwrap(), b"spam");

        let x = it.next().unwrap();
        assert!(matches!(x, Value::Integer(42)));

        let x = it.next().unwrap();
        assert!(matches!(x, Value::List(_)));

        if let Value::List(inner) = x {
            let mut it = inner.iter();

            let y = it.next().unwrap();
            assert!(matches!(y, Value::Integer(9)));

            let y = it.next().unwrap();
            assert!(matches!(y, Value::Integer(50)));
        }

        let x = it.next().unwrap();
        assert!(matches!(x, Value::Dictionary(_)));

        if let Value::Dictionary(_) = x {
            let bar = x.lookup(input, b"bar").unwrap();
            assert_eq!(bar.bytes_of(input).unwrap(), b"spam");
        }
    }

    // empty list should be parsable
    let (v, _) = Value::parse_list(b"le", 0).unwrap();
    assert!(matches!(v, Value::List(_)));
}

#[test]
fn parse_list_errors() {
    let e = Value::parse_list(b"123", 0).unwrap_err();
    assert!(matches!(e, BencodeError::StructuralMismatch(_)));

    let e = Value::parse_list(b"l123", 0).unwrap_err();
    assert!(matches!(e, BencodeError::StructuralMismatch(_)));

    let e = Value::parse_list(b"li1e", 0).unwrap_err();
    assert!(matches!(e, BencodeError::StructuralMismatch(_)));
}

#[test]
fn parse() {
    let input = b"d3:foo3:bar5:hello5:worlde";
    let vs = Value::parse(input).unwrap();
    let v = vs.first().unwrap();
    assert!(matches!(v, Value::Dictionary(_)));

    let foo = v.lookup(input, b"foo").unwrap();
    assert_eq!(foo.bytes_of(input).unwrap(), b"bar");

    let hello = v.lookup(input, b"hello").unwrap();
    assert_eq!(hello.bytes_of(input).unwrap(), b"world");

    let input = b"d4:spaml1:a1:bee";
    let (v, _) = Value::parse_dict(input, 0).unwrap();
    assert!(matches!(v, Value::Dictionary(_)));

    let spam = v.lookup(input, b"spam").unwrap();
    assert!(matches!(spam, Value::List(_)));
}

#[test]
fn parse_errors() {
    let e = Value::parse(b"123").unwrap_err();
    assert!(!e.is_fatal());
    assert!(matches!(e, BencodeError::StructuralMismatch(_)));

    let e = Value::parse(b"d3:foo3:bar5:hello5:world").unwrap_err();
    assert!(!e.is_fatal());
    assert!(matches!(e, BencodeError::StructuralMismatch(_)));
}
