use valkey_resp::parser::RespParser;
use valkey_resp::parser::RespValue;
use valkey_resp::valkey::handle_command;
use valkey_resp::valkey::handle_read_command;
use valkey_resp::valkey::wants_write;
use valkey_resp::valkey::Store;

fn simple(s: &str) -> RespValue {
    RespValue::SimpleString(s.to_owned())
}

fn arr(items: Vec<RespValue>) -> RespValue {
    RespValue::Array(items)
}

#[test]
fn echo_replies_argument() {
    let mut store = Store::new();
    let resp = handle_command(&mut store, arr(vec![simple("ECHO"), simple("hi")]));
    assert_eq!(resp, "+hi\r\n");
}

#[test]
fn ping_replies_pong() {
    let mut store = Store::new();
    let resp = handle_command(&mut store, arr(vec![simple("PING")]));
    assert_eq!(resp, "+PONG\r\n");
}

#[test]
fn set_then_get_returns_stored_encoding() {
    let mut store = Store::new();
    let resp = handle_command(
        &mut store,
        arr(vec![simple("set"), simple("name"), simple("jim")]),
    );
    assert_eq!(resp, "+CHEESE\r\n");
    let resp = handle_command(&mut store, arr(vec![simple("get"), simple("name")]));
    assert_eq!(resp, "+jim\r\n");
}

#[test]
fn set_overwrites_previous_value() {
    let mut store = Store::new();
    handle_command(
        &mut store,
        arr(vec![simple("set"), simple("k"), simple("one")]),
    );
    handle_command(
        &mut store,
        arr(vec![
            simple("set"),
            simple("k"),
            RespValue::BulkString("two".to_owned()),
        ]),
    );
    let resp = handle_command(&mut store, arr(vec![simple("get"), simple("k")]));
    assert_eq!(resp, "$3\r\ntwo\r\n");
}

#[test]
fn get_missing_replies_null_bulk() {
    let mut store = Store::new();
    let resp = handle_command(&mut store, arr(vec![simple("get"), simple("missing")]));
    assert_eq!(resp, "$-1\r\n");
}

#[test]
fn unknown_command_replies_ok() {
    let mut store = Store::new();
    let resp = handle_command(&mut store, arr(vec![simple("unknown")]));
    assert_eq!(resp, "+OK\r\n");
}

#[test]
fn non_array_replies_ok() {
    let mut store = Store::new();
    let resp = handle_command(&mut store, simple("PING"));
    assert_eq!(resp, "+OK\r\n");
}

#[test]
fn command_casing_is_exact() {
    let mut store = Store::new();
    // the command table is case-sensitive: these fall to the default reply
    assert_eq!(
        handle_command(&mut store, arr(vec![simple("echo"), simple("x")])),
        "+OK\r\n"
    );
    assert_eq!(
        handle_command(&mut store, arr(vec![simple("SET"), simple("a"), simple("b")])),
        "+OK\r\n"
    );
}

#[test]
fn empty_array_draws_error_reply() {
    let mut store = Store::new();
    let resp = handle_command(&mut store, arr(vec![]));
    assert_eq!(resp, "-ERR wrong number of arguments\r\n");
}

#[test]
fn echo_without_argument_draws_error_reply() {
    let mut store = Store::new();
    let resp = handle_command(&mut store, arr(vec![simple("ECHO")]));
    assert_eq!(resp, "-ERR wrong number of arguments\r\n");
}

#[test]
fn set_without_value_draws_error_reply() {
    let mut store = Store::new();
    let resp = handle_command(&mut store, arr(vec![simple("set"), simple("k")]));
    assert_eq!(resp, "-ERR wrong number of arguments\r\n");
}

#[test]
fn get_without_key_draws_error_reply() {
    let mut store = Store::new();
    let resp = handle_command(&mut store, arr(vec![simple("get")]));
    assert_eq!(resp, "-ERR wrong number of arguments\r\n");
}

#[test]
fn set_and_get_key_is_the_raw_elements_text() {
    let mut store = Store::new();
    // the key is the display text of the raw second element: a nested
    // array key becomes its elements' text joined with spaces
    let nested_key = RespValue::Array(vec![simple("na"), simple("me")]);
    handle_command(
        &mut store,
        arr(vec![simple("set"), nested_key, simple("jim")]),
    );
    let nested_key = RespValue::Array(vec![simple("na"), simple("me")]);
    let resp = handle_command(&mut store, arr(vec![simple("get"), nested_key]));
    assert_eq!(resp, "+jim\r\n");
    let resp = handle_command(&mut store, arr(vec![simple("get"), simple("na me")]));
    assert_eq!(resp, "+jim\r\n");
    let resp = handle_command(&mut store, arr(vec![simple("get"), simple("na")]));
    assert_eq!(resp, "$-1\r\n");
}

#[test]
fn get_underflow_is_judged_by_the_raw_element_count() {
    let mut store = Store::new();
    // one raw element whose flattening happens to spell a whole command
    let only = arr(vec![simple("get"), simple("x")]);
    let resp = handle_command(&mut store, arr(vec![only]));
    assert_eq!(resp, "-ERR wrong number of arguments\r\n");
}

#[test]
fn wants_write_only_for_well_formed_set() {
    assert!(wants_write(&arr(vec![
        simple("set"),
        simple("k"),
        simple("v"),
    ])));
    assert!(!wants_write(&arr(vec![simple("set"), simple("k")])));
    assert!(!wants_write(&arr(vec![simple("get"), simple("k")])));
    assert!(!wants_write(&simple("set")));
}

#[test]
fn read_path_answers_reads_and_short_sets() {
    let mut store = Store::new();
    handle_command(
        &mut store,
        arr(vec![simple("set"), simple("k"), simple("v")]),
    );
    assert_eq!(
        handle_read_command(&store, arr(vec![simple("get"), simple("k")])),
        "+v\r\n"
    );
    assert_eq!(
        handle_read_command(&store, arr(vec![simple("PING")])),
        "+PONG\r\n"
    );
    assert_eq!(
        handle_read_command(&store, arr(vec![simple("set"), simple("k")])),
        "-ERR wrong number of arguments\r\n"
    );
}

#[test]
fn wire_to_reply_end_to_end() {
    // one decoded request driven through the dispatcher, as the connection
    // loop does
    let mut store = Store::new();
    let mut p = RespParser::new(b"*2\r\n+ECHO\r\n\r\n+hi\r\n".to_vec());
    let v = p.parse_input();
    let resp = handle_command(&mut store, v);
    assert_eq!(resp, "+hi\r\n");
}

#[test]
fn closed_stream_decodes_to_nothing() {
    // the connection loop ends when the decoder reports the sentinel
    let mut p = RespParser::new(Vec::new());
    assert_eq!(p.parse_input(), RespValue::Nothing);
}

#[test]
fn store_get_and_set_directly() {
    let mut store = Store::new();
    assert!(store.get(&"k".to_owned()).is_none());
    store.set("k".to_owned(), RespValue::Integer(5));
    match store.get(&"k".to_owned()) {
        Some(RespValue::Integer(5)) => {}
        other => panic!("unexpected entry {:?}", other),
    }
}
