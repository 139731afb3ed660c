use vstd::prelude::*;
use vstd::string::StringExecFns;
use vstd::utf8::encode_utf8;
use crate::frame::{DataFrame, Opcode, Payload};
use crate::parser::unique_keys;
use crate::response::Response;
use crate::store::{
    Store, del_result, dump_result, get_result, load_result, run_command, set_result,
};
use crate::text::chars_of;

verus! {

/// `r` is a text frame, final and unmasked, that carries `reply`.
pub open spec fn is_text_reply(r: Response, reply: Seq<char>) -> bool {
    &&& r.flags == 0x80
    &&& r.opcode == Opcode::Text
    &&& r.mask is None
    &&& r.payload matches Payload::Text(s) && s@ == reply
    &&& r.length == encode_utf8(reply).len()
}

fn text_reply(s: String) -> (r: Response)
    ensures
        is_text_reply(r, s@),
{
    Response::builder().set_body(Payload::Text(s))
}

/// `SET key value` / `SET key.path value`.
pub fn set_cmd(args: &str, storage: &mut Store) -> (r: Response)
    ensures
        final(storage)@ == set_result(old(storage)@, args@).0,
        unique_keys(old(storage)@),
        unique_keys(final(storage)@),
        is_text_reply(r, set_result(old(storage)@, args@).1),
{
    let a = chars_of(args);
    text_reply(storage.set_text(&a))
}

/// `GET key` / `GET key.path`.
pub fn get_cmd(args: &str, storage: &Store) -> (r: Response)
    ensures
        is_text_reply(r, get_result(storage@, args@)),
        unique_keys(storage@),
{
    let a = chars_of(args);
    text_reply(storage.get_text(&a))
}

/// `DEL key` / `DEL key.path`.
pub fn del_cmd(args: &str, storage: &mut Store) -> (r: Response)
    ensures
        final(storage)@ == del_result(old(storage)@, args@).0,
        unique_keys(old(storage)@),
        unique_keys(final(storage)@),
        is_text_reply(r, del_result(old(storage)@, args@).1),
{
    let a = chars_of(args);
    text_reply(storage.del_text(&a))
}

/// `DUMP`.
pub fn dump_cmd(storage: &Store) -> (r: Response)
    ensures
        is_text_reply(r, dump_result(storage@)),
        unique_keys(storage@),
{
    text_reply(storage.dump_text())
}

/// `LOAD object`.
pub fn load_cmd(args: &str, storage: &mut Store) -> (r: Response)
    ensures
        final(storage)@ == load_result(old(storage)@, args@).0,
        unique_keys(old(storage)@),
        unique_keys(final(storage)@),
        is_text_reply(r, load_result(old(storage)@, args@).1),
{
    let a = chars_of(args);
    text_reply(storage.load_text(&a))
}

/// `PING`.
pub fn ping_cmd() -> (r: Response)
    ensures
        is_text_reply(r, "PONG"@),
{
    text_reply(String::from_str("PONG"))
}

/// What a data frame does to the store, and the reply: a text frame runs
/// its command; any other frame is refused.
pub open spec fn handler_result(st: crate::store::Entries, msg: DataFrame) -> (crate::store::Entries, Seq<char>) {
    if msg.opcode == Opcode::Text && msg.payload is Text {
        run_command(st, msg.payload->Text_0@)
    } else {
        (st, "Invalid message type"@)
    }
}

/// Runs the command that a data frame carries.
pub fn message_handler(msg: DataFrame, storage: &mut Store) -> (r: Response)
    ensures
        final(storage)@ == handler_result(old(storage)@, msg).0,
        is_text_reply(r, handler_result(old(storage)@, msg).1),
{
    if msg.opcode != Opcode::Text {
        return text_reply(String::from_str("Invalid message type"));
    }
    match msg.payload {
        Payload::Text(s) => text_reply(storage.handle(s.as_str())),
        Payload::Binary(_) => text_reply(String::from_str("Invalid message type")),
    }
}

} // verus!
