use mankalla_rl::codec::{
    format_entry, parse_entry, parse_params, split_fields, split_first_line, split_lines,
    Deserialize, DeserializeError, Serialize,
};
use mankalla_rl::explore::choose_random;

#[test]
fn action_text() {
    assert_eq!(0u8.serialize(), "0");
    assert_eq!(7u8.serialize(), "7");
    assert_eq!(42u8.serialize(), "42");
    assert_eq!(100u8.serialize(), "100");
    assert_eq!(255u8.serialize(), "255");
}

#[test]
fn action_parse() {
    assert_eq!(u8::deserialize("5"), Ok(5));
    assert_eq!(u8::deserialize("+5"), Ok(5));
    assert_eq!(u8::deserialize("007"), Ok(7));
    assert_eq!(u8::deserialize("255"), Ok(255));
    assert_eq!(u8::deserialize("256"), Err(DeserializeError));
    assert_eq!(u8::deserialize("99999999999"), Err(DeserializeError));
    assert_eq!(u8::deserialize(""), Err(DeserializeError));
    assert_eq!(u8::deserialize("+"), Err(DeserializeError));
    assert_eq!(u8::deserialize("-1"), Err(DeserializeError));
    assert_eq!(u8::deserialize("1a"), Err(DeserializeError));
    assert_eq!(u8::deserialize(" 1"), Err(DeserializeError));
}

#[test]
fn key_text() {
    let k: [u8; 12] = [6, 6, 6, 6, 6, 6, 6, 6, 6, 6, 6, 6];
    assert_eq!(k.serialize(), "6 6 6 6 6 6 6 6 6 6 6 6");
    let m: [u8; 12] = [0, 1, 10, 255, 3, 4, 5, 6, 7, 8, 9, 12];
    assert_eq!(m.serialize(), "0 1 10 255 3 4 5 6 7 8 9 12");
}

#[test]
fn key_round_trip() {
    let m: [u8; 12] = [0, 1, 10, 255, 3, 4, 5, 6, 7, 8, 9, 12];
    assert_eq!(<[u8; 12]>::deserialize(&m.serialize()), Ok(m));
}

#[test]
fn key_parse_errors() {
    assert_eq!(<[u8; 12]>::deserialize("1 2 3 4 5 6 7 8 9 10 11"), Err(DeserializeError));
    assert_eq!(<[u8; 12]>::deserialize("1 2 3 4 5 6 7 8 9 10 11 12 13"), Err(DeserializeError));
    assert_eq!(<[u8; 12]>::deserialize("1 2 3 4 5 6 7 8 9 10 11  12"), Err(DeserializeError));
    assert_eq!(<[u8; 12]>::deserialize("1 2 3 4 5 6 7 8 9 10 11 x"), Err(DeserializeError));
    assert_eq!(<[u8; 12]>::deserialize(""), Err(DeserializeError));
    assert_eq!(
        <[u8; 12]>::deserialize("1 2 3 4 5 6 7 8 9 10 11 +12"),
        Ok([1, 2, 3, 4, 5, 6, 7, 8, 9, 10, 11, 12])
    );
}

#[test]
fn error_message() {
    assert_eq!(DeserializeError.message(), "Error deserializing input");
}

#[test]
fn fields_split() {
    assert_eq!(split_fields("a;b;;c", ';'), vec!["a", "b", "", "c"]);
    assert_eq!(split_fields("", ';'), vec![""]);
    assert_eq!(split_fields(";", ';'), vec!["", ""]);
}

#[test]
fn entry_round_trip() {
    let k: [u8; 12] = [1, 2, 3, 4, 5, 6, 7, 8, 9, 10, 11, 12];
    let line = format_entry(&k, 3, "-0.25");
    assert_eq!(line, "1 2 3 4 5 6 7 8 9 10 11 12;3;-0.25\n");
    let (k2, a2, v2) = parse_entry(line.trim_end_matches('\n')).unwrap();
    assert_eq!(k2, k);
    assert_eq!(a2, 3);
    assert_eq!(v2, "-0.25");
}

#[test]
fn entry_errors() {
    assert_eq!(parse_entry("1 2 3 4 5 6 7 8 9 10 11 12;3"), Err(DeserializeError));
    assert_eq!(parse_entry("1 2 3 4 5 6 7 8 9 10 11 12;3;0.5;1"), Err(DeserializeError));
    assert_eq!(parse_entry("1 2 3 4 5 6 7 8 9 10 11;3;0.5"), Err(DeserializeError));
    assert_eq!(parse_entry("1 2 3 4 5 6 7 8 9 10 11 12;x;0.5"), Err(DeserializeError));
}

#[test]
fn params_split() {
    assert_eq!(parse_params("1;0.2", 2), Ok(vec!["1", "0.2"]));
    assert_eq!(parse_params("1;0.2;3", 2), Err(DeserializeError));
    assert_eq!(parse_params("0.1;1;0.01;0", 4), Ok(vec!["0.1", "1", "0.01", "0"]));
}

#[test]
fn lines_split() {
    assert_eq!(split_lines("a\nb\r\nc\n"), vec!["a", "b", "c"]);
    assert_eq!(split_lines("a\nb"), vec!["a", "b"]);
    assert_eq!(split_lines(""), Vec::<&str>::new());
    assert_eq!(split_lines("\n"), vec![""]);
    assert_eq!(split_lines("x\r"), vec!["x\r"]);
    let text = "p\nq\r\n\nr";
    assert_eq!(split_lines(text), text.lines().collect::<Vec<_>>());
}

#[test]
fn first_line_split() {
    assert_eq!(split_first_line("a;b\nrest\nmore"), Some(("a;b", "rest\nmore")));
    assert_eq!(split_first_line("\n"), Some(("", "")));
    assert_eq!(split_first_line("no newline"), None);
}

#[test]
fn random_choice_is_a_member() {
    let items = vec![2u8, 4, 5];
    for _ in 0..50 {
        let x = choose_random(&items).unwrap();
        assert!(items.contains(&x));
    }
    assert_eq!(choose_random::<u8>(&[]), None);
    assert_eq!(choose_random(&[9u8]), Some(9));
}
