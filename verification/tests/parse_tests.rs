use resp_server::message::parse::{
    parse_array, parse_bulk_string, parse_double, parse_error, parse_integer,
    parse_simple_string,
};
use resp_server::message::{DecodeError, Message};

fn parse_double_helper(input: &[u8]) -> Result<(&[u8], Message<'_>), DecodeError> {
    parse_double(input)
}

fn parse_array_helper(input: &[u8]) -> Result<(&[u8], Message<'_>), DecodeError> {
    parse_array(input)
}

/// The number that a decoded double stands for.
fn double_value(message: &Message) -> f64 {
    match message {
        Message::Double(literal) => std::str::from_utf8(literal).unwrap().parse::<f64>().unwrap(),
        other => panic!("not a double: {:?}", other),
    }
}

fn print_error(input: &[u8], error: DecodeError) {
    let readable_input = String::from_utf8_lossy(input);
    println!(
        "Parsing Error: Error {{ input: {:?}, code: {:?} }}",
        readable_input, error
    );
}

#[test]
fn test_parse_double() {
    // Valid double with no sign, no exponent
    let input = b",123.456\r\n";
    let result = parse_double_helper(input);
    match result {
        Ok((remaining, parsed)) => {
            assert_eq!(double_value(&parsed), 123.456);
            assert_eq!(parsed, Message::Double(&b"123.456"[..]));
            assert_eq!(remaining, &[] as &[u8]); // No remaining input
        }
        Err(e) => panic!("Failed to parse valid double: {:?}", e),
    }

    // Valid double with positive sign
    let input = b",+123.456\r\n";
    let result = parse_double_helper(input);
    match result {
        Ok((remaining, parsed)) => {
            assert_eq!(double_value(&parsed), 123.456);
            assert_eq!(remaining, &[] as &[u8]);
        }
        Err(e) => panic!("Failed to parse double with positive sign: {:?}", e),
    }

    // Valid double with negative sign
    let input = b",-123.456\r\n";
    let result = parse_double_helper(input);
    match result {
        Ok((remaining, parsed)) => {
            assert_eq!(double_value(&parsed), -123.456);
            assert_eq!(remaining, &[] as &[u8]);
        }
        Err(e) => panic!("Failed to parse double with negative sign: {:?}", e),
    }

    // Valid double with exponent (positive)
    let input = b",123.456e+7\r\n";
    let result = parse_double_helper(input);
    match result {
        Ok((remaining, parsed)) => {
            assert_eq!(double_value(&parsed), 123.456e+7);
            assert_eq!(remaining, &[] as &[u8]);
        }
        Err(e) => panic!("Failed to parse double with exponent: {:?}", e),
    }

    // Valid double with exponent (negative)
    let input = b",123.456e-7\r\n";
    let result = parse_double_helper(input);
    match result {
        Ok((remaining, parsed)) => {
            assert_eq!(double_value(&parsed), 123.456e-7);
            assert_eq!(remaining, &[] as &[u8]);
        }
        Err(e) => panic!("Failed to parse double with negative exponent: {:?}", e),
    }

    // Valid double with fractional part but no exponent
    let input = b",123.456\r\n";
    let result = parse_double_helper(input);
    match result {
        Ok((remaining, parsed)) => {
            assert_eq!(double_value(&parsed), 123.456);
            assert_eq!(remaining, &[] as &[u8]);
        }
        Err(e) => panic!("Failed to parse double with fractional part: {:?}", e),
    }

    // Valid double with just integral part
    let input = b",123\r\n";
    let result = parse_double_helper(input);
    match result {
        Ok((remaining, parsed)) => {
            assert_eq!(double_value(&parsed), 123.0);
            assert_eq!(remaining, &[] as &[u8]);
        }
        Err(e) => panic!("Failed to parse integer as double: {:?}", e),
    }

    // Invalid double, non-numeric
    let input = b",abc\r\n";
    let result = parse_double_helper(input);
    match result {
        Ok((_remaining, parsed)) => panic!("Expected error, but parsed: {:?}", parsed),
        Err(e) => {
            println!("Expected error: {:?}", e);
            assert_eq!(e, DecodeError::InvalidFloat);
        }
    }

    // Invalid double, missing CRLF terminator
    let input = b",123.456";
    let result = parse_double_helper(input);
    match result {
        Ok((_remaining, parsed)) => panic!("Expected error, but parsed: {:?}", parsed),
        Err(e) => {
            println!("Expected error: {:?}", e);
            assert_eq!(e, DecodeError::Incomplete);
        }
    }

    // Invalid double, missing comma
    let input = b"123.456\r\n"; // Missing leading comma
    let result = parse_double_helper(input);
    match result {
        Ok((_remaining, parsed)) => panic!("Expected error, but parsed: {:?}", parsed),
        Err(e) => {
            println!("Expected error: {:?}", e);
            assert_eq!(e, DecodeError::UnknownType);
        }
    }

    // Valid double with scientific notation (upper case 'E')
    let input = b",1.23E+4\r\n";
    let result = parse_double_helper(input);
    match result {
        Ok((remaining, parsed)) => {
            assert_eq!(double_value(&parsed), 1.23E+4);
            assert_eq!(remaining, &[] as &[u8]);
        }
        Err(e) => panic!("Failed to parse double with uppercase 'E': {:?}", e),
    }

    // Valid double with scientific notation (lower case 'e')
    let input = b",1.23e+4\r\n";
    let result = parse_double_helper(input);
    match result {
        Ok((remaining, parsed)) => {
            assert_eq!(double_value(&parsed), 1.23e+4);
            assert_eq!(remaining, &[] as &[u8]);
        }
        Err(e) => panic!("Failed to parse double with lowercase 'e': {:?}", e),
    }
}

#[test]
fn test_parse_array_with_single_strings() {
    let input = b"*1\r\n+hello\r\n";
    let result = parse_array_helper(input);

    match result {
        Ok((_remaining, parsed)) => {
            println!("Parsed: {:?}", parsed);
            assert_eq!(
                parsed,
                Message::Array(Some(vec![Message::SimpleString(&b"hello"[..]),]))
            );
        }
        Err(e) => {
            print_error(input, e);
            panic!("Failed to parse array");
        }
    }
}

#[test]
fn test_simple_string() {
    let test_string = "+some string\r\n";
    assert_eq!(
        Ok((
            "".as_bytes(),
            Message::SimpleString("some string".as_bytes())
        )),
        parse_simple_string(test_string.as_bytes())
    );

    let test_string = "-some error\r\n";
    assert!(parse_simple_string(test_string.as_bytes()).is_err());

    let test_string = "bad\r\n";
    assert!(parse_simple_string(test_string.as_bytes()).is_err());

    let test_string = "+bad";
    assert!(parse_simple_string(test_string.as_bytes()).is_err());
}

#[test]
fn test_error() {
    let test_string = "-some string\r\n";
    assert_eq!(
        Ok(("".as_bytes(), Message::Error("some string".as_bytes()))),
        parse_error(test_string.as_bytes())
    );

    let test_string = "+some error\r\n";
    assert!(parse_error(test_string.as_bytes()).is_err());

    let test_string = "bad\r\n";
    assert!(parse_error(test_string.as_bytes()).is_err());

    let test_string = "+bad";
    assert!(parse_error(test_string.as_bytes()).is_err());
}

#[test]
fn test_parse_integer() {
    // Test valid positive integer
    let input = b":123\r\n";
    let result = parse_integer(input);
    assert_eq!(result, Ok((&[][..], Message::Integer(123))));

    // Test valid negative integer
    let input = b":-123\r\n";
    let result = parse_integer(input);
    assert_eq!(result, Ok((&[][..], Message::Integer(-123))));

    // Test integer with no sign
    let input = b":456\r\n";
    let result = parse_integer(input);
    assert_eq!(result, Ok((&[][..], Message::Integer(456))));

    // Test invalid integer (non-numeric characters)
    let input = b":abc\r\n";
    let result = parse_integer(input);
    assert!(result.is_err());

    // Test invalid format (missing CRLF)
    let input = b":123\r";
    let result = parse_integer(input);
    assert!(result.is_err());

    // Test invalid integer (empty)
    let input = b":\r\n";
    let result = parse_integer(input);
    assert!(result.is_err());
}

#[test]
fn test_parse_bulk_string() {
    // Test valid bulk string with data
    let input = b"$5\r\nhello\r\n";
    let result = parse_bulk_string(input);
    assert_eq!(
        result,
        Ok((&[][..], Message::BulkString(Some("hello".as_bytes()))))
    );

    // Test valid bulk string with zero length
    let input = b"$0\r\n\r\n";
    let result = parse_bulk_string(input);
    assert_eq!(
        result,
        Ok((&[][..], Message::BulkString(Some("".as_bytes()))))
    );

    // Test invalid bulk string (non-digit length)
    let input = b"$abc\r\nhello\r\n";
    let result = parse_bulk_string(input);
    assert!(result.is_err());

    // Test bulk string with invalid length (too short)
    let input = b"$5\r\nhell\r\n";
    let result = parse_bulk_string(input);
    assert!(result.is_err());

    // Test bulk string with missing CRLF terminator
    let input = b"$5\r\nhello";
    let result = parse_bulk_string(input);
    assert!(result.is_err());
}

#[test]
fn test_parse_array_with_simple_strings() {
    let input = b"*3\r\n+hello\r\n:123\r\n$5\r\nworld\r\n";
    let result = parse_array_helper(input);

    match result {
        Ok((_remaining, parsed)) => {
            println!("Parsed: {:?}", parsed);
            assert_eq!(
                parsed,
                Message::Array(Some(vec![
                    Message::SimpleString("hello".as_bytes()),
                    Message::Integer(123),
                    Message::BulkString(Some("world".as_bytes())),
                ]))
            );
        }
        Err(e) => {
            print_error(input, e);
            panic!("Failed to parse array");
        }
    }
}

#[test]
fn test_parse_empty_array() {
    let input = b"*0\r\n";
    let result = parse_array_helper(input);

    match result {
        Ok((_remaining, parsed)) => {
            println!("Parsed: {:?}", parsed);
            assert_eq!(parsed, Message::Array(Some(vec![])));
        }
        Err(e) => {
            print_error(input, e);
            panic!("Failed to parse empty array");
        }
    }
}

#[test]
fn test_parse_array_with_null() {
    let input = b"*1\r\n$-1\r\n";
    let result = parse_array_helper(input);

    match result {
        Ok((_remaining, parsed)) => {
            println!("Parsed: {:?}", parsed);
            assert_eq!(
                parsed,
                Message::Array(Some(vec![Message::BulkString(None)]))
            );
        }
        Err(e) => {
            print_error(input, e);
            panic!("Failed to parse null array");
        }
    }
}

#[test]
fn test_parse_invalid_array_length() {
    let input = b"*abc\r\n";
    let result = parse_array_helper(input);

    match result {
        Ok((_remaining, parsed)) => {
            println!("Parsed: {:?}", parsed);
            panic!("Expected error, but parsed: {:?}", parsed);
        }
        Err(e) => {
            print_error(input, e);
            assert_eq!(e, DecodeError::InvalidInteger);
        }
    }
}

#[test]
fn test_parse_invalid_array_format() {
    let input = b"*3\r\n+hello\r\n:123\r\n";
    let result = parse_array_helper(input);

    match result {
        Ok((_remaining, parsed)) => {
            println!("Parsed: {:?}", parsed);
            panic!("Expected error, but parsed: {:?}", parsed);
        }
        Err(e) => {
            print_error(input, e);
            assert_eq!(e, DecodeError::UnknownType);
        }
    }
}

#[test]
fn test_parse_array_with_mixed_messages() {
    let input = b"*4\r\n+simple\r\n$5\r\nbulk1\r\n:456\r\n-Error\r\n";
    let result = parse_array_helper(input);

    match result {
        Ok((_remaining, parsed)) => {
            println!("Parsed: {:?}", parsed);
            assert_eq!(
                parsed,
                Message::Array(Some(vec![
                    Message::SimpleString("simple".as_bytes()),
                    Message::BulkString(Some("bulk1".as_bytes())),
                    Message::Integer(456),
                    Message::Error("Error".as_bytes())
                ]))
            );
        }
        Err(e) => {
            print_error(input, e);
            panic!("Failed to parse mixed array");
        }
    }
}

#[test]
fn test_parse_array_with_mixed_elements() {
    let input = b"*3\r\n$5\r\nhello\r\n$-1\r\n$5\r\nworld\r\n";

    let result = parse_array_helper(input);

    match result {
        Ok((_remaining, parsed)) => {
            println!("Parsed: {:?}", parsed);
            assert_eq!(
                parsed,
                Message::Array(Some(vec![
                    Message::BulkString(Some("hello".as_bytes())),
                    Message::BulkString(None),
                    Message::BulkString(Some("world".as_bytes())),
                ]))
            );
        }
        Err(e) => {
            println!("Parsing Error: {:?}", e);
            panic!("Failed to parse array");
        }
    }
}
