use serir::error::SerirError;
use serir::resp::{Parser, Resp};

#[test]
fn parses_bulk_string() {
    let result = Resp::deserialize(&b"$5\r\nSerir\r\n"[..]).unwrap();
    assert_eq!(result.len(), 1);
    if let Resp::BulkString(Some(result)) = &result[0] {
        assert_eq!(*result, b"Serir".to_vec());
    } else {
        panic!("Parsing error");
    }
}

#[test]
fn parses_nil_bulk_string() {
    let result = &Resp::deserialize(&b"$-1\r\n"[..]).unwrap()[0];
    assert!(matches!(*result, Resp::BulkString(None)));
}

#[test]
fn parses_arrays() {
    let parsed = Resp::deserialize(&b"*2\r\n$2\r\nOK\r\n$5\r\nSerir\r\n"[..]).unwrap();
    assert_eq!(parsed.len(), 1);
    let result = &parsed[0];
    if let Resp::Array(Some(result)) = result {
        if let Resp::BulkString(Some(s)) = &result[0] {
            assert_eq!(*s, b"OK".to_vec());
        } else {
            panic!("Parsing error: not a bulk string");
        }

        if let Resp::BulkString(Some(s)) = &result[1] {
            assert_eq!(*s, b"Serir".to_vec());
        } else {
            panic!("Parsing error: not a bulk string");
        }
    } else {
        panic!("Parsing error");
    }
}

#[test]
fn parses_empty_arrays() {
    let result = &Resp::deserialize(&b"*0\r\n"[..]).unwrap()[0];
    if let Resp::Array(Some(val)) = result {
        assert_eq!(val.len(), 0);
    } else {
        panic!("Error parsing empty array");
    }
}

#[test]
fn parses_integers() {
    let result = &Resp::deserialize(&b":42\r\n"[..]).unwrap()[0];
    if let Resp::Integer(result) = result {
        assert_eq!(*result, 42);
    } else {
        panic!("Error parsing integer");
    }
}

#[test]
fn parses_simple_strings() {
    let result = &Resp::deserialize(&b"+OK - seems good.\r\n"[..]).unwrap()[0];
    if let Resp::SimpleString(result) = result {
        assert_eq!(*result, b"OK - seems good.".to_vec());
    } else {
        panic!("Error parsing integer");
    }
}

#[test]
fn parses_errors() {
    let result = &Resp::deserialize(&b"-Error message\r\n"[..]).unwrap()[0];
    if let Resp::Error(result) = result {
        assert_eq!(*result, b"Error message".to_vec());
    } else {
        panic!("Error parsing integer");
    }
}

#[test]
fn parses_multiple_objects_sent_at_once() {
    let result = Resp::deserialize(&b"$1\r\nA\r\n$1\r\nB\r\n"[..]);
    assert_eq!(result.unwrap().len(), 2);
}

#[test]
fn parses_multiple_objects_with_arrays_sent_at_once() {
    let result = Resp::deserialize(&b"*1\r\n$1\r\nA\r\n*1\r\n$1\r\nB\r\n"[..]);
    assert_eq!(result.unwrap().len(), 2);
}

fn bulk(bytes: &[u8]) -> Resp {
    Resp::BulkString(Some(bytes.to_vec()))
}

fn samples() -> Vec<Resp> {
    vec![
        Resp::SimpleString(b"OK".to_vec()),
        Resp::SimpleString(Vec::new()),
        Resp::Error(b"ERR unknown command".to_vec()),
        Resp::Integer(0),
        Resp::Integer(42),
        Resp::Integer(-7),
        Resp::Integer(1000),
        Resp::Integer(i64::MAX),
        Resp::Integer(i64::MIN),
        Resp::BulkString(None),
        bulk(b""),
        bulk(b"Serir"),
        bulk(b"line\r\nbreak"),
        bulk(&[0u8, 255, 13, 10, 36, 42]),
        Resp::Array(None),
        Resp::Array(Some(Vec::new())),
        Resp::Array(Some(vec![bulk(b"GET"), bulk(b"key")])),
        Resp::Array(Some(vec![
            Resp::Integer(1),
            Resp::Array(Some(vec![Resp::SimpleString(b"in".to_vec()), Resp::Array(None)])),
            Resp::BulkString(None),
            Resp::Error(b"no".to_vec()),
        ])),
    ]
}

#[test]
fn encodes_each_type_byte_for_byte() {
    assert_eq!(Resp::SimpleString(b"OK".to_vec()).serialize(), b"+OK\r\n".to_vec());
    assert_eq!(Resp::Error(b"ERR no".to_vec()).serialize(), b"-ERR no\r\n".to_vec());
    assert_eq!(Resp::Integer(42).serialize(), b":42\r\n".to_vec());
    assert_eq!(Resp::Integer(0).serialize(), b":0\r\n".to_vec());
    assert_eq!(Resp::Integer(-15).serialize(), b":-15\r\n".to_vec());
    assert_eq!(Resp::Integer(1000).serialize(), b":1000\r\n".to_vec());
    assert_eq!(bulk(b"Serir").serialize(), b"$5\r\nSerir\r\n".to_vec());
    assert_eq!(bulk(b"").serialize(), b"$0\r\n\r\n".to_vec());
    assert_eq!(bulk(b"0123456789ab").serialize(), b"$12\r\n0123456789ab\r\n".to_vec());
    assert_eq!(Resp::BulkString(None).serialize(), b"$-1\r\n".to_vec());
    assert_eq!(Resp::Array(None).serialize(), b"*-1\r\n".to_vec());
    assert_eq!(Resp::Array(Some(Vec::new())).serialize(), b"*0\r\n".to_vec());
    assert_eq!(
        Resp::Array(Some(vec![bulk(b"OK"), bulk(b"Serir")])).serialize(),
        b"*2\r\n$2\r\nOK\r\n$5\r\nSerir\r\n".to_vec()
    );
    assert_eq!(
        Resp::Array(Some(vec![Resp::Integer(1), Resp::Array(Some(vec![Resp::Integer(2)]))]))
            .serialize(),
        b"*2\r\n:1\r\n*1\r\n:2\r\n".to_vec()
    );
}

#[test]
fn encodes_the_extremes_of_the_integers() {
    assert_eq!(
        Resp::Integer(i64::MAX).serialize(),
        b":9223372036854775807\r\n".to_vec()
    );
    assert_eq!(
        Resp::Integer(i64::MIN).serialize(),
        b":-9223372036854775808\r\n".to_vec()
    );
}

#[test]
fn write_to_appends_behind_what_is_there() {
    let mut out = b"+OK\r\n".to_vec();
    Resp::Integer(5).write_to(&mut out);
    bulk(b"v").write_to(&mut out);
    assert_eq!(out, b"+OK\r\n:5\r\n$1\r\nv\r\n".to_vec());
}

#[test]
fn decoding_an_encoding_gives_the_value_back() {
    for value in samples() {
        let bytes = value.serialize();
        assert_eq!(Resp::deserialize(&bytes), Ok(vec![value]));
    }
}

#[test]
fn decoding_joined_encodings_gives_the_values_in_order() {
    let mut bytes = Vec::new();
    for value in samples() {
        bytes.extend(value.serialize());
    }
    assert_eq!(Resp::deserialize(&bytes), Ok(samples()));
    assert_eq!(Resp::deserialize(b""), Ok(Vec::new()));
}

#[test]
fn empty_buffer_holds_no_value() {
    assert_eq!(Resp::deserialize(&[]), Ok(Vec::new()));
    let mut parser = Parser::new(&[]);
    assert_eq!(parser.parse_single_resp_object(), Ok(None));
    assert_eq!(parser.consumed(), 0);
}

#[test]
fn decodes_the_extremes_of_the_integers() {
    assert_eq!(
        Resp::deserialize(b":9223372036854775807\r\n"),
        Ok(vec![Resp::Integer(i64::MAX)])
    );
    assert_eq!(
        Resp::deserialize(b":-9223372036854775808\r\n"),
        Ok(vec![Resp::Integer(i64::MIN)])
    );
    assert_eq!(
        Resp::deserialize(b":9223372036854775808\r\n"),
        Err(SerirError::ParseError { offset: 1 })
    );
    assert_eq!(
        Resp::deserialize(b":-9223372036854775809\r\n"),
        Err(SerirError::ParseError { offset: 1 })
    );
    assert_eq!(
        Resp::deserialize(b":99999999999999999999999\r\n"),
        Err(SerirError::ParseError { offset: 1 })
    );
}

#[test]
fn decodes_signs_and_leading_zeros() {
    assert_eq!(Resp::deserialize(b":+42\r\n"), Ok(vec![Resp::Integer(42)]));
    assert_eq!(Resp::deserialize(b":-0\r\n"), Ok(vec![Resp::Integer(0)]));
    assert_eq!(Resp::deserialize(b":007\r\n"), Ok(vec![Resp::Integer(7)]));
    assert_eq!(
        Resp::deserialize(b":0000000000000000000000000000012\r\n"),
        Ok(vec![Resp::Integer(12)])
    );
    assert_eq!(Resp::deserialize(b"$+1\r\nA\r\n"), Ok(vec![bulk(b"A")]));
}

#[test]
fn any_negative_length_is_nil() {
    assert_eq!(Resp::deserialize(b"$-5\r\n"), Ok(vec![Resp::BulkString(None)]));
    assert_eq!(Resp::deserialize(b"*-1\r\n"), Ok(vec![Resp::Array(None)]));
    assert_eq!(Resp::deserialize(b"*-12\r\n"), Ok(vec![Resp::Array(None)]));
    assert_eq!(
        Resp::deserialize(b"*-1\r\n$-1\r\n"),
        Ok(vec![Resp::Array(None), Resp::BulkString(None)])
    );
}

#[test]
fn line_runs_to_the_first_line_break() {
    assert_eq!(
        Resp::deserialize(b"+a\rb\nc\r\n"),
        Ok(vec![Resp::SimpleString(b"a\rb\nc".to_vec())])
    );
    assert_eq!(
        Resp::deserialize(b"+a\r\r\n"),
        Ok(vec![Resp::SimpleString(b"a\r".to_vec())])
    );
    assert_eq!(Resp::deserialize(b"+\r\n"), Ok(vec![Resp::SimpleString(Vec::new())]));
    assert_eq!(
        Resp::deserialize(b"-x \r\n+y\r\n"),
        Ok(vec![Resp::Error(b"x ".to_vec()), Resp::SimpleString(b"y".to_vec())])
    );
}

#[test]
fn bulk_string_payload_may_hold_line_breaks() {
    assert_eq!(Resp::deserialize(b"$4\r\na\r\nb\r\n"), Ok(vec![bulk(b"a\r\nb")]));
    assert_eq!(Resp::deserialize(b"$0\r\n\r\n"), Ok(vec![bulk(b"")]));
}

#[test]
fn malformed_number_is_a_parse_error() {
    assert_eq!(Resp::deserialize(b":abc\r\n"), Err(SerirError::ParseError { offset: 1 }));
    assert_eq!(Resp::deserialize(b":\r\n"), Err(SerirError::ParseError { offset: 1 }));
    assert_eq!(Resp::deserialize(b":-\r\n"), Err(SerirError::ParseError { offset: 1 }));
    assert_eq!(Resp::deserialize(b":+\r\n"), Err(SerirError::ParseError { offset: 1 }));
    assert_eq!(Resp::deserialize(b":4 2\r\n"), Err(SerirError::ParseError { offset: 1 }));
    assert_eq!(Resp::deserialize(b":42 \r\n"), Err(SerirError::ParseError { offset: 1 }));
    assert_eq!(Resp::deserialize(b":--1\r\n"), Err(SerirError::ParseError { offset: 1 }));
    assert_eq!(Resp::deserialize(b"$x\r\nA\r\n"), Err(SerirError::ParseError { offset: 1 }));
    assert_eq!(Resp::deserialize(b"*1x\r\n:1\r\n"), Err(SerirError::ParseError { offset: 1 }));
    assert_eq!(
        Resp::deserialize(b"+OK\r\n:1.5\r\n"),
        Err(SerirError::ParseError { offset: 6 })
    );
}

#[test]
fn unknown_type_byte_is_reported_with_its_place() {
    assert_eq!(
        Resp::deserialize(b"?\r\n"),
        Err(SerirError::UnknownType { offset: 0, tag: b'?' })
    );
    assert_eq!(
        Resp::deserialize(b"+OK\r\nGET k\r\n"),
        Err(SerirError::UnknownType { offset: 5, tag: b'G' })
    );
    assert_eq!(
        Resp::deserialize(b"*1\r\n!\r\n"),
        Err(SerirError::UnknownType { offset: 4, tag: b'!' })
    );
    assert_eq!(
        Resp::deserialize(b"\r\n"),
        Err(SerirError::UnknownType { offset: 0, tag: 13 })
    );
}

#[test]
fn line_without_its_break_is_too_short() {
    assert_eq!(Resp::deserialize(b"+OK"), Err(SerirError::UnexpectedEnd { offset: 1 }));
    assert_eq!(Resp::deserialize(b"+OK\r"), Err(SerirError::UnexpectedEnd { offset: 1 }));
    assert_eq!(Resp::deserialize(b"+OK\n"), Err(SerirError::UnexpectedEnd { offset: 1 }));
    assert_eq!(Resp::deserialize(b"-"), Err(SerirError::UnexpectedEnd { offset: 1 }));
    assert_eq!(Resp::deserialize(b":42"), Err(SerirError::UnexpectedEnd { offset: 1 }));
    assert_eq!(Resp::deserialize(b":abc"), Err(SerirError::UnexpectedEnd { offset: 1 }));
    assert_eq!(Resp::deserialize(b"$5"), Err(SerirError::UnexpectedEnd { offset: 1 }));
    assert_eq!(Resp::deserialize(b"*"), Err(SerirError::UnexpectedEnd { offset: 1 }));
    assert_eq!(
        Resp::deserialize(b":1\r\n+OK"),
        Err(SerirError::UnexpectedEnd { offset: 5 })
    );
}

#[test]
fn payload_without_its_line_break_is_reported() {
    assert_eq!(
        Resp::deserialize(b"$5\r\nSerirXY"),
        Err(SerirError::MissingTerminator { offset: 9 })
    );
    assert_eq!(
        Resp::deserialize(b"$1\r\nAB\r\n"),
        Err(SerirError::MissingTerminator { offset: 5 })
    );
    assert_eq!(
        Resp::deserialize(b"$0\r\n\n\r"),
        Err(SerirError::MissingTerminator { offset: 4 })
    );
}

#[test]
fn declared_length_beyond_the_buffer_is_reported() {
    assert_eq!(Resp::deserialize(b"$5\r\nSer"), Err(SerirError::UnexpectedEnd { offset: 4 }));
    assert_eq!(
        Resp::deserialize(b"$5\r\nSerir"),
        Err(SerirError::UnexpectedEnd { offset: 4 })
    );
    assert_eq!(
        Resp::deserialize(b"$5\r\nSerir\r"),
        Err(SerirError::UnexpectedEnd { offset: 4 })
    );
    assert_eq!(Resp::deserialize(b"$1\r\n"), Err(SerirError::UnexpectedEnd { offset: 4 }));
    assert_eq!(
        Resp::deserialize(b"$9223372036854775807\r\nA\r\n"),
        Err(SerirError::UnexpectedEnd { offset: 22 })
    );
}

#[test]
fn array_shorter_than_its_count_is_reported() {
    assert_eq!(
        Resp::deserialize(b"*2\r\n$1\r\nA\r\n"),
        Err(SerirError::UnexpectedEnd { offset: 11 })
    );
    assert_eq!(Resp::deserialize(b"*1\r\n"), Err(SerirError::UnexpectedEnd { offset: 4 }));
    assert_eq!(
        Resp::deserialize(b"*9223372036854775807\r\n"),
        Err(SerirError::UnexpectedEnd { offset: 22 })
    );
    assert_eq!(
        Resp::deserialize(b"*2\r\n*1\r\n:1\r\n"),
        Err(SerirError::UnexpectedEnd { offset: 12 })
    );
}

#[test]
fn failure_inside_an_array_fails_the_whole_buffer() {
    assert_eq!(
        Resp::deserialize(b"+OK\r\n*2\r\n:1\r\n:x\r\n"),
        Err(SerirError::ParseError { offset: 14 })
    );
    assert_eq!(
        Resp::deserialize(b"*1\r\n$3\r\nab\r\n"),
        Err(SerirError::UnexpectedEnd { offset: 8 })
    );
}

#[test]
fn parser_reads_one_value_at_a_time() {
    let buffer = b"+OK\r\n:7\r\n$1\r\nv\r\n";
    let mut parser = Parser::new(buffer);
    assert_eq!(parser.consumed(), 0);
    assert_eq!(
        parser.parse_single_resp_object(),
        Ok(Some(Resp::SimpleString(b"OK".to_vec())))
    );
    assert_eq!(parser.consumed(), 5);
    assert_eq!(parser.parse_single_resp_object(), Ok(Some(Resp::Integer(7))));
    assert_eq!(parser.consumed(), 9);
    assert_eq!(parser.parse(), Ok(vec![bulk(b"v")]));
    assert_eq!(parser.consumed(), buffer.len());
    assert_eq!(parser.parse_single_resp_object(), Ok(None));
    assert_eq!(parser.parse(), Ok(Vec::new()));
    assert_eq!(parser.consumed(), buffer.len());
}

#[test]
fn parser_stays_in_place_on_failure() {
    let buffer = b":1\r\n*2\r\n:2\r\n$9\r\nshort\r\n";
    let mut parser = Parser::new(buffer);
    assert_eq!(parser.parse_single_resp_object(), Ok(Some(Resp::Integer(1))));
    assert_eq!(parser.consumed(), 4);
    assert_eq!(
        parser.parse_single_resp_object(),
        Err(SerirError::UnexpectedEnd { offset: 16 })
    );
    assert_eq!(parser.consumed(), 4);
    assert_eq!(parser.parse(), Err(SerirError::UnexpectedEnd { offset: 16 }));
    assert_eq!(parser.consumed(), 4);
}

#[test]
fn value_read_does_not_depend_on_what_follows() {
    let whole = b"*2\r\n$3\r\nGET\r\n$1\r\nk\r\n+partial";
    let mut parser = Parser::new(&whole[..20]);
    let first = parser.parse_single_resp_object();
    assert_eq!(first, Ok(Some(Resp::Array(Some(vec![bulk(b"GET"), bulk(b"k")])))));
    assert_eq!(parser.consumed(), 20);
    let mut longer = Parser::new(whole);
    assert_eq!(longer.parse_single_resp_object(), first);
    assert_eq!(longer.consumed(), 20);
    assert_eq!(
        longer.parse_single_resp_object(),
        Err(SerirError::UnexpectedEnd { offset: 21 })
    );
    assert_eq!(longer.consumed(), 20);
}

#[test]
fn failure_that_is_not_of_length_stays_with_more_input() {
    let cases: [(&[u8], SerirError); 3] = [
        (b":x\r\n", SerirError::ParseError { offset: 1 }),
        (b"$1\r\nABC", SerirError::MissingTerminator { offset: 5 }),
        (b"*1\r\n?", SerirError::UnknownType { offset: 4, tag: b'?' }),
    ];
    for (input, failure) in cases {
        assert_eq!(Resp::deserialize(input), Err(failure));
        let mut longer = input.to_vec();
        longer.extend_from_slice(b"\r\n:1\r\n");
        let mut parser = Parser::new(&longer);
        let again = parser.parse_single_resp_object();
        assert_eq!(again.err(), Resp::deserialize(input).err());
    }
}

#[test]
fn only_a_buffer_too_short_is_incomplete() {
    assert!(SerirError::UnexpectedEnd { offset: 4 }.is_incomplete());
    assert!(Resp::deserialize(b"$5\r\nSer").unwrap_err().is_incomplete());
    assert!(Resp::deserialize(b"+OK").unwrap_err().is_incomplete());
    assert!(Resp::deserialize(b"*2\r\n:1\r\n").unwrap_err().is_incomplete());
    assert!(!Resp::deserialize(b":x\r\n").unwrap_err().is_incomplete());
    assert!(!Resp::deserialize(b"$1\r\nABC").unwrap_err().is_incomplete());
    assert!(!Resp::deserialize(b"?").unwrap_err().is_incomplete());
    assert!(!SerirError::MalformedCommand.is_incomplete());
    assert!(!SerirError::NilArgument { index: 1 }.is_incomplete());
    assert!(!SerirError::WrongArity { expected: 1, actual: 2 }.is_incomplete());
    assert!(!SerirError::UnknownCommand { name: b"x".to_vec() }.is_incomplete());
    assert!(!SerirError::OutOfTurn.is_incomplete());
}

#[test]
fn too_short_a_buffer_can_be_made_whole() {
    assert_eq!(Resp::deserialize(b"$5\r\nSer"), Err(SerirError::UnexpectedEnd { offset: 4 }));
    assert_eq!(Resp::deserialize(b"$5\r\nSerir\r\n"), Ok(vec![bulk(b"Serir")]));
    assert_eq!(Resp::deserialize(b"*2\r\n:1\r\n"), Err(SerirError::UnexpectedEnd { offset: 8 }));
    assert_eq!(
        Resp::deserialize(b"*2\r\n:1\r\n:2\r\n"),
        Ok(vec![Resp::Array(Some(vec![Resp::Integer(1), Resp::Integer(2)]))])
    );
}

#[test]
fn decoded_values_encode_to_what_decodes_the_same() {
    let input = b"$+3\r\nabc\r\n:007\r\n*-9\r\n$-2\r\n+a\rb\r\n";
    let values = Resp::deserialize(input).unwrap();
    let mut canonical = Vec::new();
    for value in &values {
        value.write_to(&mut canonical);
    }
    assert_eq!(canonical, b"$3\r\nabc\r\n:7\r\n*-1\r\n$-1\r\n+a\rb\r\n".to_vec());
    assert_eq!(Resp::deserialize(&canonical), Ok(values));
}
