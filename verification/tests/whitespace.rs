use tic_pack::whitespace::lua_ws::{next_token, Input, WsTokenType};
use tic_pack::whitespace::strip_whitespace;

#[test]
fn whitespace_multiline_strings() {
    let mut input = Input::new(b"[==[foo[=[bar]=]baz]==]...");
    let (tpe, bytes) = next_token(&mut input);
    assert_eq!(tpe, WsTokenType::Other);
    assert_eq!(bytes, b"[==[foo[=[bar]=]baz]==]".to_vec());
}

#[test]
fn whitespace_strings() {
    let mut input = Input::new(b"\"test\\\"a\\\"\"  'foo\\''");
    let (tpe, bytes) = next_token(&mut input);
    assert_eq!(tpe, WsTokenType::Other);
    assert_eq!(bytes, b"\"test\\\"a\\\"\"".to_vec());
    let (tpe, bytes) = next_token(&mut input);
    assert_eq!(tpe, WsTokenType::Other);
    assert_eq!(bytes, b"'foo\\''".to_vec());
}

#[test]
fn strip_drops_comments_and_spaces() {
    assert_eq!(strip_whitespace(b"a = 1 -- note\nb = 2"), b"a=1 b=2".to_vec());
    assert_eq!(strip_whitespace(b"a=1 e=2"), b"a=1 e=2".to_vec());
}
