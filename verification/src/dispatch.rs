//! The dispatcher: what a request makes of the store, and the reply to it.

use crate::command::{command_of, Command, CommandView};
use crate::db::Db;
use crate::frame::{Frame, FrameView};
use crate::text::{bytes_of, decode_text};
use vstd::pervasive::unreached;
use vstd::prelude::*;
use vstd::utf8::*;

verus! {

/// The model of the store: the map from each bound key to its value.
pub type Store = Map<Seq<char>, Seq<u8>>;

/// The request binds a key.
pub open spec fn writes_spec(request: FrameView) -> bool {
    command_of(request) matches Ok(CommandView::SetValue { .. })
}

/// The request has a reply: it asks for no value, for that of a key that is
/// not bound, or for one that is text.
pub open spec fn answerable(store: Store, request: FrameView) -> bool {
    command_of(request) matches Ok(CommandView::GetValue { key }) ==> (store.contains_key(key)
        ==> valid_utf8(store[key]))
}

/// Every value of the store is text. The store that was made empty and
/// that only requests have changed is such a store.
pub open spec fn holds_text(store: Store) -> bool {
    forall|key: Seq<char>| store.contains_key(key) ==> valid_utf8(#[trigger] store[key])
}

/// The reply to a request.
pub open spec fn reply(store: Store, request: FrameView) -> FrameView {
    match command_of(request) {
        Ok(CommandView::Ping) => FrameView::SimpleString("PONG"@),
        Ok(CommandView::SetValue { .. }) => FrameView::SimpleString("OK"@),
        Ok(CommandView::GetValue { key }) => if store.contains_key(key) {
            FrameView::BulkString(Some(decode_utf8(store[key])))
        } else {
            FrameView::BulkString(None)
        },
        Err(e) => FrameView::Error(e.message_spec()),
    }
}

/// The store after a request: `SET` binds its key to the bytes of its
/// value, and nothing else changes the store.
pub open spec fn store_after(store: Store, request: FrameView) -> Store {
    match command_of(request) {
        Ok(CommandView::SetValue { key, value }) => store.insert(key, encode_utf8(value)),
        _ => store,
    }
}

/// Whether the request binds a key, so that it needs the store for itself.
pub fn writes(request: &Frame) -> (yes: bool)
    ensures
        yes == writes_spec(request@),
{
    match Command::parse(request) {
        Ok(Command::SetValue { .. }) => true,
        _ => false,
    }
}

/// Whether the request has a reply.
pub fn can_answer(db: &Db, request: &Frame) -> (yes: bool)
    ensures
        yes == answerable(db@, request@),
{
    match Command::parse(request) {
        Ok(Command::GetValue { key }) => match db.get(key) {
            Some(value) => decode_text(value.as_slice()).is_ok(),
            None => true,
        },
        _ => true,
    }
}

/// Replies to a request that leaves the store as it is.
pub fn dispatch_shared(db: &Db, request: &Frame) -> (answer: Frame)
    requires
        answerable(db@, request@),
        !writes_spec(request@),
    ensures
        answer@ == reply(db@, request@),
{
    match Command::parse(request) {
        Ok(Command::Ping) => Frame::SimpleString("PONG".to_owned()),
        Ok(Command::SetValue { .. }) => unreached(),
        Ok(Command::GetValue { key }) => match db.get(key) {
            Some(value) => match decode_text(value.as_slice()) {
                Ok(text) => Frame::BulkString(Some(text)),
                Err(_) => unreached(),
            },
            None => Frame::BulkString(None),
        },
        Err(e) => Frame::Error(e.message()),
    }
}

/// Carries out a request on the store and replies to it.
pub fn dispatch(db: &mut Db, request: &Frame) -> (answer: Frame)
    requires
        answerable(old(db)@, request@),
    ensures
        answer@ == reply(old(db)@, request@),
        final(db)@ == store_after(old(db)@, request@),
{
    match Command::parse(request) {
        Ok(Command::SetValue { key, value }) => {
            let bytes = bytes_of(value.as_str());
            db.set(key, bytes);
            Frame::SimpleString("OK".to_owned())
        },
        _ => dispatch_shared(db, request),
    }
}

/// Carries out a request on the store and replies to it, where it has a
/// reply; where it has none, the store stays as it is. A store that holds
/// text only always has a reply, and holds text only afterwards.
pub fn try_dispatch(db: &mut Db, request: &Frame) -> (answer: Option<Frame>)
    ensures
        match answer {
            Some(frame) => answerable(old(db)@, request@) && frame@ == reply(
                old(db)@,
                request@,
            ) && final(db)@ == store_after(old(db)@, request@),
            None => !answerable(old(db)@, request@) && final(db)@ == old(db)@,
        },
        holds_text(old(db)@) ==> answer is Some && holds_text(final(db)@),
{
    proof {
        if holds_text(db@) {
            lemma_text_store_answers(db@, request@);
        }
    }
    if can_answer(db, request) {
        Some(dispatch(db, request))
    } else {
        None
    }
}

/// The request `PING`.
pub open spec fn ping_request() -> FrameView {
    FrameView::Array(seq![FrameView::BulkString(Some("PING"@))])
}

/// The request `GET key`.
pub open spec fn get_request(key: Seq<char>) -> FrameView {
    FrameView::Array(
        seq![FrameView::BulkString(Some("GET"@)), FrameView::BulkString(Some(key))],
    )
}

/// The request `SET key value`.
pub open spec fn set_request(key: Seq<char>, value: Seq<char>) -> FrameView {
    FrameView::Array(
        seq![
            FrameView::BulkString(Some("SET"@)),
            FrameView::BulkString(Some(key)),
            FrameView::BulkString(Some(value)),
        ],
    )
}

/// The names of the commands differ.
proof fn lemma_names_differ()
    ensures
        "PING"@ != "SET"@,
        "PING"@ != "GET"@,
        "SET"@ != "GET"@,
{
    reveal_strlit("PING");
    reveal_strlit("SET");
    reveal_strlit("GET");
    assert("PING"@.len() == 4);
    assert("SET"@[0] == 'S');
    assert("GET"@[0] == 'G');
}

/// Whatever the store holds and whatever follows the name, a request that
/// begins with `PING` is answered with `PONG` and leaves the store as it is.
pub proof fn lemma_ping(store: Store, request: FrameView)
    requires
        request matches FrameView::Array(values) && values.len() > 0 && values[0]
            == FrameView::BulkString(Some("PING"@)),
    ensures
        answerable(store, request),
        reply(store, request) == FrameView::SimpleString("PONG"@),
        store_after(store, request) == store,
{
}

/// The request `PING` is answered with `PONG`, whatever the store holds.
pub proof fn lemma_ping_request(store: Store)
    ensures
        answerable(store, ping_request()),
        reply(store, ping_request()) == FrameView::SimpleString("PONG"@),
        store_after(store, ping_request()) == store,
{
    lemma_ping(store, ping_request());
}

/// The empty store holds text only.
pub proof fn lemma_empty_store_holds_text()
    ensures
        holds_text(Map::<Seq<char>, Seq<u8>>::empty()),
{
}

/// A store that holds text only has a reply to every request, and holds
/// text only after it: a store that only requests have filled never fails
/// to answer.
pub proof fn lemma_text_store_answers(store: Store, request: FrameView)
    requires
        holds_text(store),
    ensures
        answerable(store, request),
        holds_text(store_after(store, request)),
{
    match command_of(request) {
        Ok(CommandView::SetValue { key, value }) => {
            encode_utf8_valid_utf8(value);
            let after = store.insert(key, encode_utf8(value));
            assert forall|k: Seq<char>| after.contains_key(k) implies valid_utf8(
                #[trigger] after[k],
            ) by {
                if k != key {
                    assert(store.contains_key(k));
                }
            }
        },
        _ => {},
    }
}

/// A value that is no array is answered with an error, whatever the store
/// holds, and leaves the store as it is.
pub proof fn lemma_not_an_array(store: Store, request: FrameView)
    requires
        !(request is Array),
    ensures
        answerable(store, request),
        reply(store, request) == FrameView::Error("ERR Not Supported"@),
        store_after(store, request) == store,
{
}

/// `GET` of a key that is not bound is answered with the null bulk string.
pub proof fn lemma_get_unbound(store: Store, key: Seq<char>)
    requires
        !store.contains_key(key),
    ensures
        answerable(store, get_request(key)),
        reply(store, get_request(key)) == FrameView::BulkString(None),
        store_after(store, get_request(key)) == store,
{
    lemma_names_differ();
}

/// `SET` is answered with `OK`, and a `GET` of the same key that follows it
/// is answered with the value that was set.
pub proof fn lemma_set_then_get(store: Store, key: Seq<char>, value: Seq<char>)
    ensures
        answerable(store, set_request(key, value)),
        reply(store, set_request(key, value)) == FrameView::SimpleString("OK"@),
        answerable(store_after(store, set_request(key, value)), get_request(key)),
        reply(store_after(store, set_request(key, value)), get_request(key))
            == FrameView::BulkString(Some(value)),
{
    lemma_names_differ();
    encode_utf8_valid_utf8(value);
    encode_utf8_decode_utf8(value);
}

} // verus!
