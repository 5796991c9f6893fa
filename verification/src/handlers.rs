//! The replies of the game information endpoint.

use serde_json::Value;
use vstd::prelude::*;

use crate::decimal::{decimal_text, u64_text};
use crate::json::{json_as_bool, json_as_i64, json_as_str, json_bool, json_get, json_i64, json_member, json_str};
use crate::text::{concat, owned};
use crate::cache::version::VersionEntry;

verus! {

/// The optional request body: the client's UUID (empty when not sent).
pub struct GameInfoInput {
    pub uuid: String,
}

/// The UUID that a request carries: the body's, or the empty text when
/// there is no body.
pub fn request_uuid(body: Option<GameInfoInput>) -> (u: String)
    ensures
        u@ == match body {
            Some(b) => b.uuid@,
            None => Seq::<char>::empty(),
        },
{
    match body {
        Some(b) => b.uuid,
        None => String::new(),
    }
}

/// The text of member `key` of `v`, or the empty text when it is absent or no string.
pub open spec fn str_field(v: Value, key: Seq<char>) -> Seq<char> {
    match json_member(v, key) {
        Some(m) => match json_str(m) {
            Some(s) => s,
            None => Seq::empty(),
        },
        None => Seq::empty(),
    }
}

/// The integer member `key` of `v`, or 0 when it is absent or no `i64`.
pub open spec fn int_field(v: Value, key: Seq<char>) -> i64 {
    match json_member(v, key) {
        Some(m) => match json_i64(m) {
            Some(n) => n,
            None => 0,
        },
        None => 0,
    }
}

/// The boolean member `key` of `v`, or `true` when it is absent or no boolean.
pub open spec fn bool_field(v: Value, key: Seq<char>) -> bool {
    match json_member(v, key) {
        Some(m) => match json_bool(m) {
            Some(b) => b,
            None => true,
        },
        None => true,
    }
}

/// The string member `key` of `v` (see [`str_field`]).
pub fn str_val(v: &Value, key: &str) -> (r: String)
    ensures
        r@ == str_field(*v, key@),
{
    match json_get(v, key) {
        Some(m) => match json_as_str(m) {
            Some(s) => s,
            None => String::new(),
        },
        None => String::new(),
    }
}

/// The integer member `key` of `v` (see [`int_field`]).
pub fn int_val(v: &Value, key: &str) -> (r: i64)
    ensures
        r == int_field(*v, key@),
{
    match json_get(v, key) {
        Some(m) => match json_as_i64(m) {
            Some(n) => n,
            None => 0,
        },
        None => 0,
    }
}

/// The boolean member `key` of `v` (see [`bool_field`]).
pub fn bool_val(v: &Value, key: &str) -> (r: bool)
    ensures
        r == bool_field(*v, key@),
{
    match json_get(v, key) {
        Some(m) => match json_as_bool(m) {
            Some(b) => b,
            None => true,
        },
        None => true,
    }
}

/// The game information returned for a game.
pub struct GameInfo {
    pub game_name: String,
    pub kind_name: String,
    pub version_name: String,
    pub game_id: i64,
    pub version_id: i64,
    pub custom_id: u32,
    pub custom_version_id: i64,
    pub custom: bool,
    pub description: String,
    pub link: String,
}

/// `g` is the game information for the game `custom_id` whose served
/// version is `entry`: the version name, the requested id, and the members
/// of the version's data.
pub open spec fn is_game_info_of(g: GameInfo, entry: VersionEntry, custom_id: u32) -> bool {
    &&& g.game_name@ == str_field(entry.data, "game_name"@)
    &&& g.kind_name@ == str_field(entry.data, "kind_name"@)
    &&& g.version_name@ == entry.version_name@
    &&& g.game_id == int_field(entry.data, "game_id"@)
    &&& g.version_id == int_field(entry.data, "version_id"@)
    &&& g.custom_id == custom_id
    &&& g.custom_version_id == int_field(entry.data, "custom_version_id"@)
    &&& g.custom == bool_field(entry.data, "custom"@)
    &&& g.description@ == str_field(entry.data, "description"@)
    &&& g.link@ == str_field(entry.data, "link"@)
}

/// The game information for the game `custom_id` whose served version is `entry`.
pub fn game_info(entry: &VersionEntry, custom_id: u32) -> (g: GameInfo)
    ensures
        is_game_info_of(g, *entry, custom_id),
{
    let d = &entry.data;
    GameInfo {
        game_name: str_val(d, "game_name"),
        kind_name: str_val(d, "kind_name"),
        version_name: entry.version_name.clone(),
        game_id: int_val(d, "game_id"),
        version_id: int_val(d, "version_id"),
        custom_id,
        custom_version_id: int_val(d, "custom_version_id"),
        custom: bool_val(d, "custom"),
        description: str_val(d, "description"),
        link: str_val(d, "link"),
    }
}

/// What the endpoint answers: the game information, or a message.
pub enum ReplyBody {
    GameInfo(GameInfo),
    Message(String),
}

/// An answer of the endpoint: the HTTP status (also sent as `code`) and the body.
pub struct ApiReply {
    pub status: u16,
    pub body: ReplyBody,
}

/// The message for a game without data.
pub open spec fn not_found_text(custom_id: u32) -> Seq<char> {
    "Game data not found for custom_id: "@ + decimal_text(custom_id as nat)
}

/// The answer to a request for the game `custom_id`: 200 with the game
/// information when a version is served, 404 with a message otherwise.
pub fn game_info_reply(entry: Option<&VersionEntry>, custom_id: u32) -> (r: ApiReply)
    ensures
        match entry {
            Some(e) => r.status == 200 && (r.body matches ReplyBody::GameInfo(g) && is_game_info_of(
                g,
                *e,
                custom_id,
            )),
            None => r.status == 404 && (r.body matches ReplyBody::Message(m) && m@ == not_found_text(
                custom_id,
            )),
        },
{
    match entry {
        Some(e) => ApiReply { status: 200, body: ReplyBody::GameInfo(game_info(e, custom_id)) },
        None => {
            let id = u64_text(custom_id as u64);
            let m = concat("Game data not found for custom_id: ", id.as_str());
            ApiReply { status: 404, body: ReplyBody::Message(m) }
        },
    }
}

/// The answer to any other request: 404 with `Not Found`.
pub fn not_found_reply() -> (r: ApiReply)
    ensures
        r.status == 404,
        r.body matches ReplyBody::Message(m) && m@ == "Not Found"@,
{
    ApiReply { status: 404, body: ReplyBody::Message(owned("Not Found")) }
}

/// The string that member `key` of `v` is, if it is one.
pub open spec fn string_member(v: Value, key: Seq<char>) -> Option<Seq<char>> {
    match json_member(v, key) {
        Some(m) => json_str(m),
        None => None,
    }
}

/// A member is read whole: a string member gives its whole text, whatever
/// its length; an integer member its number; a boolean member its value.
/// An absent member gives the empty text, 0 and `true`.
pub proof fn law_members_are_read_whole(v: Value, key: Seq<char>)
    ensures
        string_member(v, key) matches Some(t) ==> str_field(v, key) == t,
        json_member(v, key) is Some && json_i64(json_member(v, key)->0) is Some ==> int_field(v, key)
            == json_i64(json_member(v, key)->0)->0,
        json_member(v, key) is Some && json_bool(json_member(v, key)->0) is Some ==> bool_field(
            v,
            key,
        ) == json_bool(json_member(v, key)->0)->0,
        json_member(v, key) is None ==> str_field(v, key) == Seq::<char>::empty() && int_field(v, key)
            == 0 && bool_field(v, key),
{
}

/// The game information repeats the texts of the served version's data
/// whole: its name, kind, description and download link are the string
/// members `game_name`, `kind_name`, `description` and `link`, whatever
/// their length.
pub proof fn law_game_info_texts_are_whole(g: GameInfo, entry: VersionEntry, custom_id: u32)
    requires
        is_game_info_of(g, entry, custom_id),
    ensures
        string_member(entry.data, "description"@) matches Some(t) ==> g.description@ == t,
        string_member(entry.data, "link"@) matches Some(t) ==> g.link@ == t,
        string_member(entry.data, "game_name"@) matches Some(t) ==> g.game_name@ == t,
        string_member(entry.data, "kind_name"@) matches Some(t) ==> g.kind_name@ == t,
{
    law_members_are_read_whole(entry.data, "description"@);
    law_members_are_read_whole(entry.data, "link"@);
    law_members_are_read_whole(entry.data, "game_name"@);
    law_members_are_read_whole(entry.data, "kind_name"@);
}

} // verus!
