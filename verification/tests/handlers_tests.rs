use game_info_server::cache::version::VersionEntry;
use game_info_server::handlers::{
    bool_val, game_info, game_info_reply, int_val, not_found_reply, request_uuid, str_val,
    GameInfoInput, ReplyBody,
};

fn json(bytes: &[u8]) -> Option<serde_json::Value> {
    serde_json::from_slice(bytes).ok()
}

fn entry(text: &str) -> VersionEntry {
    VersionEntry {
        version_name: "1.2.3".to_string(),
        data: json(text.as_bytes()).unwrap(),
        dir_mtime: 1,
    }
}

#[test]
fn member_reads_with_defaults() {
    let v = json(b"{\"s\":\"x\",\"n\":-5,\"b\":false,\"f\":1.5,\"big\":18446744073709551615}").unwrap();
    assert_eq!(str_val(&v, "s"), "x");
    assert_eq!(str_val(&v, "n"), "");
    assert_eq!(str_val(&v, "missing"), "");
    assert_eq!(int_val(&v, "n"), -5);
    assert_eq!(int_val(&v, "f"), 0);
    assert_eq!(int_val(&v, "big"), 0);
    assert_eq!(int_val(&v, "s"), 0);
    assert!(!bool_val(&v, "b"));
    assert!(bool_val(&v, "missing"));
    assert!(bool_val(&v, "s"));
    let arr = json(b"[1,2]").unwrap();
    assert_eq!(str_val(&arr, "s"), "");
}

#[test]
fn game_information() {
    let e = entry(
        "{\"game_name\":\"Demo\",\"kind_name\":\"Kind\",\"game_id\":1001,\"version_id\":2001,\
         \"custom_version_id\":3001,\"custom\":true,\"description\":\"d\",\"link\":\"https://example.com\"}",
    );
    let g = game_info(&e, 10);
    assert_eq!(g.game_name, "Demo");
    assert_eq!(g.kind_name, "Kind");
    assert_eq!(g.version_name, "1.2.3");
    assert_eq!(g.game_id, 1001);
    assert_eq!(g.version_id, 2001);
    assert_eq!(g.custom_id, 10);
    assert_eq!(g.custom_version_id, 3001);
    assert!(g.custom);
    assert_eq!(g.description, "d");
    assert_eq!(g.link, "https://example.com");
}

#[test]
fn missing_members_default() {
    let g = game_info(&entry("{}"), 3);
    assert_eq!(g.game_name, "");
    assert_eq!(g.game_id, 0);
    assert!(g.custom);
}

#[test]
fn replies() {
    let e = entry("{\"game_name\":\"Demo\"}");
    let r = game_info_reply(Some(&e), 10);
    assert_eq!(r.status, 200);
    assert!(matches!(r.body, ReplyBody::GameInfo(ref g) if g.game_name == "Demo" && g.custom_id == 10));
    let r = game_info_reply(None, 10);
    assert_eq!(r.status, 404);
    assert!(matches!(r.body, ReplyBody::Message(ref m) if m == "Game data not found for custom_id: 10"));
    let r = not_found_reply();
    assert_eq!(r.status, 404);
    assert!(matches!(r.body, ReplyBody::Message(ref m) if m == "Not Found"));
}

#[test]
fn uuid_from_body() {
    assert_eq!(request_uuid(None), "");
    assert_eq!(request_uuid(Some(GameInfoInput { uuid: "abc".to_string() })), "abc");
}
