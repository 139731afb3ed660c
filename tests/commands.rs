use kagikachi::commands::{del_cmd, dump_cmd, get_cmd, load_cmd, message_handler, ping_cmd, set_cmd};
use kagikachi::frame::{DataFrame, Opcode, Payload};
use kagikachi::store::Store;

fn run(store: &mut Store, msg: &str) -> String {
    store.handle(msg)
}

#[test]
fn set_then_get() {
    let mut s = Store::new();
    assert_eq!(run(&mut s, "SET a 1"), "OK");
    assert_eq!(run(&mut s, "GET a"), "1");
    assert_eq!(run(&mut s, "get missing"), "Key not found");
}

#[test]
fn nested_set_needs_existing_key() {
    let mut s = Store::new();
    assert_eq!(run(&mut s, "SET user.name \"Ann\""), "Key not found");
    assert_eq!(run(&mut s, "SET user {\"name\": \"Ann\"}"), "OK");
    assert_eq!(run(&mut s, "SET user.name \"Bob\""), "OK");
    assert_eq!(run(&mut s, "GET user.name"), "\"Bob\"");
}

#[test]
fn delete_array_item() {
    let mut s = Store::new();
    assert_eq!(run(&mut s, "SET arr [1,2,3]"), "OK");
    assert_eq!(run(&mut s, "DEL arr.1"), "OK");
    assert_eq!(run(&mut s, "GET arr"), "[1, 3]");
}

#[test]
fn delete_then_get_is_missing() {
    let mut s = Store::new();
    assert_eq!(run(&mut s, "SET k \"v\""), "OK");
    assert_eq!(run(&mut s, "DEL k"), "OK");
    assert_eq!(run(&mut s, "GET k"), "Key not found");
    assert_eq!(run(&mut s, "DEL k"), "OK");
}

#[test]
fn delete_nested_key_and_errors() {
    let mut s = Store::new();
    assert_eq!(run(&mut s, "SET u {\"name\": \"Ann\", \"age\": 3}"), "OK");
    assert_eq!(run(&mut s, "DEL u.name"), "OK");
    assert_eq!(run(&mut s, "GET u"), "{\"age\": 3}");
    assert_eq!(run(&mut s, "DEL u.name"), "Key not found");
    assert_eq!(run(&mut s, "DEL v.name"), "Key not found");
    assert_eq!(run(&mut s, "SET a [1]"), "OK");
    assert_eq!(run(&mut s, "DEL a.4"), "Index out of range");
    assert_eq!(run(&mut s, "DEL a.x"), "Invalid index");
    assert_eq!(run(&mut s, "DEL u.age.x"), "Invalid type");
}

#[test]
fn dump_after_sets_keeps_last_values() {
    let mut s = Store::new();
    assert_eq!(run(&mut s, "SET a 1"), "OK");
    assert_eq!(run(&mut s, "SET b [true]"), "OK");
    assert_eq!(run(&mut s, "SET a \"z\""), "OK");
    assert_eq!(run(&mut s, "DUMP"), "{\"a\": \"z\", \"b\": [true]}");
}

#[test]
fn load_then_get_and_dump() {
    let mut s = Store::new();
    assert_eq!(run(&mut s, "LOAD {\"a\": 1, \"b\": 2}"), "OK");
    assert_eq!(run(&mut s, "GET a"), "1");
    let dump = run(&mut s, "DUMP");
    assert!(dump.contains("\"a\": 1"));
    assert!(dump.contains("\"b\": 2"));
    assert_eq!(run(&mut s, "LOAD [1]"), "Invalid type");
    assert_eq!(run(&mut s, "LOAD {"), "Invalid value: \"Invalid data\"");
}

#[test]
fn reply_texts() {
    let mut s = Store::new();
    assert_eq!(run(&mut s, "PING"), "PONG");
    assert_eq!(run(&mut s, "PiNg whatever"), "PONG");
    assert_eq!(run(&mut s, "FOO"), "Unknown command");
    assert_eq!(run(&mut s, "SET a"), "Invalid arguments");
    assert_eq!(run(&mut s, "SET a x"), "Invalid value: \"Invalid value\"");
    assert_eq!(run(&mut s, "SET a 1"), "OK");
    assert_eq!(run(&mut s, "GET a.b"), "Invalid type: expected Object, got Integer");
}

fn reply_text(r: kagikachi::response::Response) -> String {
    match r.payload {
        Payload::Text(t) => t,
        Payload::Binary(_) => panic!("binary reply"),
    }
}

#[test]
fn command_functions_give_text_frames() {
    let mut s = Store::new();
    let r = set_cmd("x {\"y\": 1}", &mut s);
    assert!(r.opcode == Opcode::Text);
    assert_eq!(r.length, 2);
    assert_eq!(reply_text(r), "OK");
    assert_eq!(reply_text(get_cmd("x.y", &s)), "1");
    assert_eq!(reply_text(dump_cmd(&s)), "{\"x\": {\"y\": 1}}");
    assert_eq!(reply_text(load_cmd("{\"z\": null}", &mut s)), "OK");
    assert_eq!(reply_text(del_cmd("x", &mut s)), "OK");
    assert_eq!(reply_text(dump_cmd(&s)), "{\"z\": null}");
    assert_eq!(reply_text(ping_cmd()), "PONG");
}

#[test]
fn handler_refuses_binary_frames() {
    let mut s = Store::new();
    let f = DataFrame { flags: 0x80, opcode: Opcode::Binary, length: 1, mask: None, payload: Payload::Binary(vec![1]) };
    assert_eq!(reply_text(message_handler(f, &mut s)), "Invalid message type");
    let f = DataFrame { flags: 0x80, opcode: Opcode::Text, length: 4, mask: None, payload: Payload::Text("PING".to_string()) };
    assert_eq!(reply_text(message_handler(f, &mut s)), "PONG");
}
