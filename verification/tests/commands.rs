use serir::commands::Command;
use serir::error::SerirError;
use serir::resp::Resp;

fn bulk(bytes: &[u8]) -> Resp {
    Resp::BulkString(Some(bytes.to_vec()))
}

fn request(words: &[&[u8]]) -> Resp {
    Resp::Array(Some(words.iter().map(|word| bulk(word)).collect()))
}

#[test]
fn parses_get_command() {
    let resp = Resp::Array(Some(vec![
        Resp::BulkString(Some(b"GET".to_vec())),
        Resp::BulkString(Some(b"key".to_vec())),
    ]));
    let command = Command::from(resp).unwrap();

    if let Command::Get(key) = command {
        assert_eq!(key, b"key".to_vec());
    } else {
        panic!("Error parsing GET command.");
    }
}

#[test]
fn parses_lowercase_get_command() {
    let resp = Resp::Array(Some(vec![
        Resp::BulkString(Some(b"get".to_vec())),
        Resp::BulkString(Some(b"key".to_vec())),
    ]));
    let command = Command::from(resp).unwrap();

    if let Command::Get(key) = command {
        assert_eq!(key, b"key".to_vec());
    } else {
        panic!("Error parsing GET command.");
    }
}

#[test]
#[should_panic]
fn panics_get_parsing_with_wrong_num_args() {
    let resp = Resp::Array(Some(vec![
        Resp::BulkString(Some(b"get".to_vec())),
        Resp::BulkString(Some(b"key".to_vec())),
        Resp::BulkString(Some(b"value".to_vec())),
    ]));
    Command::from(resp).unwrap();
}

#[test]
fn parses_set_command() {
    let resp = Resp::Array(Some(vec![
        Resp::BulkString(Some(b"SET".to_vec())),
        Resp::BulkString(Some(b"key".to_vec())),
        Resp::BulkString(Some(b"value".to_vec())),
    ]));
    let command = Command::from(resp).unwrap();

    if let Command::SetValue((key, value)) = command {
        assert_eq!(key, b"key".to_vec());
        assert_eq!(value, b"value".to_vec());
    } else {
        panic!("Error parsing SET command.");
    }
}

#[test]
fn parses_lowercase_set_command() {
    let resp = Resp::Array(Some(vec![
        Resp::BulkString(Some(b"set".to_vec())),
        Resp::BulkString(Some(b"key".to_vec())),
        Resp::BulkString(Some(b"value".to_vec())),
    ]));
    let command = Command::from(resp).unwrap();

    if let Command::SetValue((key, value)) = command {
        assert_eq!(key, b"key".to_vec());
        assert_eq!(value, b"value".to_vec());
    } else {
        panic!("Error parsing SET command.");
    }
}

#[test]
#[should_panic]
fn panics_set_parsing_with_wrong_num_args() {
    let resp = Resp::Array(Some(vec![
        Resp::BulkString(Some(b"set".to_vec())),
        Resp::BulkString(Some(b"key".to_vec())),
    ]));
    Command::from(resp).unwrap();
}

#[test]
fn get_takes_exactly_one_argument() {
    assert_eq!(
        Command::from(request(&[b"GET"])),
        Err(SerirError::WrongArity { expected: 1, actual: 0 })
    );
    assert_eq!(
        Command::from(request(&[b"GET", b"a", b"b"])),
        Err(SerirError::WrongArity { expected: 1, actual: 2 })
    );
    assert_eq!(
        Command::from(request(&[b"get", b"a", b"b", b"c"])),
        Err(SerirError::WrongArity { expected: 1, actual: 3 })
    );
    assert_eq!(Command::from(request(&[b"GET", b"a"])), Ok(Command::Get(b"a".to_vec())));
}

#[test]
fn set_takes_exactly_two_arguments() {
    assert_eq!(
        Command::from(request(&[b"SET"])),
        Err(SerirError::WrongArity { expected: 2, actual: 0 })
    );
    assert_eq!(
        Command::from(request(&[b"SET", b"k"])),
        Err(SerirError::WrongArity { expected: 2, actual: 1 })
    );
    assert_eq!(
        Command::from(request(&[b"SET", b"k", b"v", b"x"])),
        Err(SerirError::WrongArity { expected: 2, actual: 3 })
    );
    assert_eq!(
        Command::from(request(&[b"SET", b"k", b"v"])),
        Ok(Command::SetValue((b"k".to_vec(), b"v".to_vec())))
    );
}

#[test]
fn command_word_is_read_in_either_case() {
    assert_eq!(Command::from(request(&[b"gEt", b"k"])), Ok(Command::Get(b"k".to_vec())));
    assert_eq!(
        Command::from(request(&[b"sEt", b"k", b"v"])),
        Ok(Command::SetValue((b"k".to_vec(), b"v".to_vec())))
    );
    assert_eq!(Command::from(request(&[b"CoMmAnD"])), Ok(Command::Command));
    assert_eq!(
        Command::from(request(&[b"Config", b"GET", b"save"])),
        Ok(Command::Config("save".to_string()))
    );
}

#[test]
fn keys_and_values_need_not_be_text() {
    let key: &[u8] = &[0xff, 0x00, 0x80];
    let value: &[u8] = &[0xc3, 0x28, 13, 10];
    assert_eq!(
        Command::from(request(&[b"SET", key, value])),
        Ok(Command::SetValue((key.to_vec(), value.to_vec())))
    );
}

#[test]
fn command_ignores_its_arguments() {
    assert_eq!(Command::from(request(&[b"COMMAND"])), Ok(Command::Command));
    assert_eq!(Command::from(request(&[b"COMMAND", b"DOCS"])), Ok(Command::Command));
    let with_nil = Resp::Array(Some(vec![bulk(b"command"), Resp::BulkString(None)]));
    assert_eq!(Command::from(with_nil), Ok(Command::Command));
}

#[test]
fn config_names_the_parameter_with_its_second_argument() {
    assert_eq!(
        Command::from(request(&[b"CONFIG", b"GET", b"appendonly"])),
        Ok(Command::Config("appendonly".to_string()))
    );
    assert_eq!(
        Command::from(request(&[b"CONFIG", b"GET", b"save", b"more"])),
        Ok(Command::Config("save".to_string()))
    );
    assert_eq!(
        Command::from(request(&[b"CONFIG", b"GET"])),
        Err(SerirError::WrongArity { expected: 2, actual: 1 })
    );
    assert_eq!(
        Command::from(request(&[b"CONFIG"])),
        Err(SerirError::WrongArity { expected: 2, actual: 0 })
    );
}

#[test]
fn config_reads_the_name_as_lossy_text() {
    let name: &[u8] = &[b's', 0xff, b'v'];
    assert_eq!(
        Command::from(request(&[b"CONFIG", b"GET", name])),
        Ok(Command::Config("s\u{fffd}v".to_string()))
    );
    assert_ne!(
        Command::from(request(&[b"CONFIG", b"GET", b"save"])),
        Ok(Command::Config("GET".to_string()))
    );
}

#[test]
fn plain_name_is_read_as_it_stands() {
    let name: Vec<u8> = (0u8..128).collect();
    let text: String = (0u8..128).map(char::from).collect();
    assert_eq!(
        Command::from(request(&[b"CONFIG", b"GET", &name])),
        Ok(Command::Config(text))
    );
    assert_eq!(
        Command::from(request(&[b"CONFIG", b"GET", b""])),
        Ok(Command::Config(String::new()))
    );
}

#[test]
fn unknown_command_is_named() {
    assert_eq!(
        Command::from(request(&[b"DEL", b"k"])),
        Err(SerirError::UnknownCommand { name: b"DEL".to_vec() })
    );
    assert_eq!(
        Command::from(request(&[b"GETS", b"k"])),
        Err(SerirError::UnknownCommand { name: b"GETS".to_vec() })
    );
    assert_eq!(
        Command::from(request(&[b""])),
        Err(SerirError::UnknownCommand { name: Vec::new() })
    );
}

#[test]
fn only_an_array_of_bulk_strings_is_a_command() {
    assert_eq!(Command::from(Resp::Integer(1)), Err(SerirError::MalformedCommand));
    assert_eq!(Command::from(bulk(b"GET")), Err(SerirError::MalformedCommand));
    assert_eq!(
        Command::from(Resp::SimpleString(b"GET".to_vec())),
        Err(SerirError::MalformedCommand)
    );
    assert_eq!(Command::from(Resp::Array(None)), Err(SerirError::MalformedCommand));
    assert_eq!(Command::from(Resp::Array(Some(Vec::new()))), Err(SerirError::MalformedCommand));
    let with_integer = Resp::Array(Some(vec![bulk(b"GET"), Resp::Integer(7)]));
    assert_eq!(Command::from(with_integer), Err(SerirError::MalformedCommand));
    let with_simple = Resp::Array(Some(vec![
        Resp::SimpleString(b"GET".to_vec()),
        bulk(b"k"),
    ]));
    assert_eq!(Command::from(with_simple), Err(SerirError::MalformedCommand));
    let command_with_array =
        Resp::Array(Some(vec![bulk(b"COMMAND"), Resp::Array(Some(Vec::new()))]));
    assert_eq!(Command::from(command_with_array), Err(SerirError::MalformedCommand));
}

#[test]
fn nil_bulk_string_is_no_argument() {
    let nil_word = Resp::Array(Some(vec![Resp::BulkString(None), bulk(b"k")]));
    assert_eq!(Command::from(nil_word), Err(SerirError::NilArgument { index: 0 }));
    let nil_key = Resp::Array(Some(vec![bulk(b"GET"), Resp::BulkString(None)]));
    assert_eq!(Command::from(nil_key), Err(SerirError::NilArgument { index: 1 }));
    let nil_value = Resp::Array(Some(vec![bulk(b"SET"), bulk(b"k"), Resp::BulkString(None)]));
    assert_eq!(Command::from(nil_value), Err(SerirError::NilArgument { index: 2 }));
    let nil_both =
        Resp::Array(Some(vec![bulk(b"SET"), Resp::BulkString(None), Resp::BulkString(None)]));
    assert_eq!(Command::from(nil_both), Err(SerirError::NilArgument { index: 1 }));
    let nil_name =
        Resp::Array(Some(vec![bulk(b"CONFIG"), bulk(b"GET"), Resp::BulkString(None)]));
    assert_eq!(Command::from(nil_name), Err(SerirError::NilArgument { index: 2 }));
}
