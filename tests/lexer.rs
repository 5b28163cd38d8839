use flk::error::EditError;
use flk::lexer::{
    attribute_path, identifier, inline_comment, multiline_string, multiws, opt_inline_comment,
    string_literal, ws,
};

#[test]
fn test_identifier() {
    assert_eq!(identifier("rust-analyzer").unwrap().1, "rust-analyzer");
    assert_eq!(identifier("my_var").unwrap().1, "my_var");
}

#[test]
fn test_attribute_path() {
    assert_eq!(
        attribute_path("rust-bin.stable.latest.default").unwrap().1,
        "rust-bin.stable.latest.default"
    );
}

#[test]
fn test_string_literal() {
    assert_eq!(string_literal("\"hello world\"").unwrap().1, "hello world");
}

#[test]
fn test_inline_comment() {
    assert_eq!(
        inline_comment("# This is a comment").unwrap().1,
        " This is a comment"
    );
}

#[test]
fn lexer_rests_and_failures() {
    assert_eq!(ws(" \t x").unwrap(), ("x".to_string(), " \t ".to_string()));
    assert_eq!(multiws(" \n\tx ").unwrap(), ("x ".to_string(), " \n\t".to_string()));
    assert_eq!(identifier("a-b = 1").unwrap().0, " = 1");
    assert_eq!(identifier("=x"), Err(EditError::Malformed));
    assert_eq!(attribute_path(" x"), Err(EditError::Malformed));
    assert_eq!(string_literal("\"a\\\"b\" rest").unwrap(), (" rest".to_string(), "a\\\"b".to_string()));
    assert_eq!(string_literal("\"open"), Err(EditError::Malformed));
    assert_eq!(multiline_string("''\n  x\n'';").unwrap(), (";".to_string(), "\n  x\n".to_string()));
    assert_eq!(inline_comment("git"), Err(EditError::Malformed));
    assert_eq!(
        opt_inline_comment("  # c\nnext").unwrap(),
        ("\nnext".to_string(), Some(" c".to_string()))
    );
    assert_eq!(opt_inline_comment("git").unwrap(), ("git".to_string(), None));
}
