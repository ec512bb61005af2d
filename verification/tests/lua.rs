use tic_pack::program::Program;
use tic_pack::token::TokenType;
use tic_pack::tokenizer::next_token;

fn transform(code: &[u8]) -> Vec<u8> {
    let mut p = Program::parse(code);
    p.serialize(b' ')
}

#[test]
fn lua_multiline_strings() {
    let input: &[u8] = b"[==[foo[=[bar]=]baz]==]...";
    let mut offset = 0;
    let (tpe, bytes, _) = next_token(&input, &mut offset);
    assert_eq!(tpe, TokenType::Other);
    assert_eq!(bytes, b"[==[foo[=[bar]=]baz]==]".to_vec());
}

#[test]
fn lua_strings() {
    let input: &[u8] = b"\"test\\\"a\\\"\"  'foo\\''";
    let mut offset = 0;
    let (tpe, bytes, _) = next_token(&input, &mut offset);
    assert_eq!(tpe, TokenType::Str);
    assert_eq!(bytes, b"\"test\\\"a\\\"\"".to_vec());
    let (tpe, bytes, _) = next_token(&input, &mut offset);
    assert_eq!(tpe, TokenType::Str);
    assert_eq!(bytes, b"'foo\\''".to_vec());
}

#[test]
fn number_spaces() {
    assert_eq!(
        transform(b"ad=0x3FF9 poke(ad,r)"),
        b"ad=0x3FF9 poke(ad,r)".to_vec()
    );
    assert_eq!(transform(b"ad=0x3FF9 x=1"), b"ad=0x3FF9x=1".to_vec());
    assert_eq!(transform(b"ad=0x3FF9 f=1"), b"ad=0x3FF9 f=1".to_vec());
    assert_eq!(transform(b"ad=0x3FF9.2 p=1"), b"ad=0x3FF9.2 p=1".to_vec());
    assert_eq!(transform(b"ad=0x3FF9.2p4 p=1"), b"ad=0x3FF9.2p4 p=1".to_vec());
    assert_eq!(transform(b"ad=0x3FF9.2p-4 p=1"), b"ad=0x3FF9.2p-4 p=1".to_vec());

    assert_eq!(transform(b"a=1 p=2"), b"a=1p=2".to_vec());
    assert_eq!(transform(b"a=1 e=2"), b"a=1 e=2".to_vec());
    assert_eq!(transform(b"a=0 x=2"), b"a=0 x=2".to_vec());
    assert_eq!(transform(b"a=.0 x=2"), b"a=.0 x=2".to_vec());
}

#[test]
fn strings_spaces() {
    assert_eq!(
        transform(b"a=\" a=2 b=3 \\\" \\ c=4 d=5 \" b=2"),
        b"a=\" a=2 b=3 \\\" \\ c=4 d=5 \"b=2".to_vec()
    );
    assert_eq!(
        transform(b"a=' a=2 b=3 \\' \\ c=4 d=5 ' b=2"),
        b"a=' a=2 b=3 \\' \\ c=4 d=5 'b=2".to_vec()
    );
    assert_eq!(
        transform(b"a=[==[ this is ]=] fun ]==] b = 2"),
        b"a=[==[ this is ]=] fun ]==]b=2".to_vec()
    );
}

#[test]
fn multiline_comments() {
    assert_eq!(transform(b"a = --[=[ blah \n blub ]=] 4"), b"a=4".to_vec());
}

#[test]
fn rename_inside_load() {
    assert_eq!(
        transform(b"--rename a->b\nA=load\"a=2\""),
        b"A=load\"b=2\"".to_vec()
    );
}

#[test]
fn serialize_twice_is_stable() {
    let mut p = Program::parse(b"function foo() local_x=1 end foo()");
    let once = p.serialize(b' ');
    let twice = p.serialize(b' ');
    assert_eq!(once, twice);
}

#[test]
fn transform_to_load_rewrites_function() {
    assert_eq!(
        transform(b"--transform to load\nfunction F() a=1 end"),
        b"F=load\"a=1\"".to_vec()
    );
}

#[test]
fn rename_candidates_basic() {
    let mut p = Program::parse(b"abc=1 TIC=2 poke(abc)");
    let _ = p.serialize(b' ');
    let rc = p.get_rename_candidates();
    let names: Vec<Vec<u8>> = rc.renameable.iter().map(|e| e.0.clone()).collect();
    assert!(names.contains(&b"abc".to_vec()));
    assert!(!names.contains(&b"TIC".to_vec()));
    assert!(rc.fixed.contains(&b"TIC".to_vec()));
    assert!(rc.fixed.contains(&b"poke".to_vec()));
}

#[test]
fn offsets_point_at_token_text() {
    let mut p = Program::parse(b"abc = 1 if x then poke(abc) end");
    let out = p.serialize(b' ');
    // Every top-level token's recorded offset addresses exactly its text.
    fn walk(tt: &[tic_pack::token::TreeToken], out: &[u8]) {
        for t in tt {
            match t {
                tic_pack::token::TreeToken::Token { type_, offset, text } => {
                    if *type_ != TokenType::Comment {
                        assert_eq!(&out[*offset..*offset + text.len()], &text[..]);
                    }
                }
                tic_pack::token::TreeToken::SubTree(sub) => walk(sub, out),
                tic_pack::token::TreeToken::CodeString { .. } => {}
            }
        }
    }
    walk(&p.tt, &out);
}
