use fixdpr::pas_lex::{
    is_ident_continue, is_ident_start, parse_include_directive, read_ident, read_ident_with_dots,
    read_string_literal, skip_brace_comment, skip_line_comment, skip_paren_comment, skip_string,
    skip_ws_and_comments,
};

#[test]
fn comments_end_behind_their_closing_token() {
    assert_eq!(skip_brace_comment(b"{ab}cd", 1), 4);
    assert_eq!(skip_brace_comment(b"{ab", 1), 3);
    assert_eq!(skip_brace_comment(b"{ab", 9), 3);
    assert_eq!(skip_paren_comment(b"(*a*)b", 2), 5);
    assert_eq!(skip_paren_comment(b"(*a*", 2), 4);
    assert_eq!(skip_paren_comment(b"(*a)*)", 2), 6);
    assert_eq!(skip_line_comment(b"//a\nb", 2), 4);
    assert_eq!(skip_line_comment(b"//a", 2), 3);
}

#[test]
fn strings_take_doubled_quotes_as_one() {
    assert_eq!(skip_string(b"'a''b'c", 1), 6);
    assert_eq!(skip_string(b"'abc", 1), 4);
    assert_eq!(read_string_literal(b"'a''b'c", 0), Some(("a'b".to_string(), 6)));
    assert_eq!(read_string_literal(b"x'a'", 1), Some(("a".to_string(), 4)));
    assert_eq!(read_string_literal(b"''", 0), Some((String::new(), 2)));
    assert_eq!(read_string_literal(b"'abc", 0), None);
    assert_eq!(read_string_literal(b"abc", 0), None);
    assert_eq!(read_string_literal(b"'a'", 7), None);
    assert_eq!(read_string_literal(b"'\xff'", 0), Some(("\u{fffd}".to_string(), 3)));
}

#[test]
fn identifiers_take_letters_digits_underscores_and_dots() {
    assert!(is_ident_start(b'a') && is_ident_start(b'Z') && is_ident_start(b'_'));
    assert!(!is_ident_start(b'1') && !is_ident_start(b'.') && !is_ident_start(b'$'));
    assert!(is_ident_continue(b'1') && is_ident_continue(b'.') && is_ident_continue(b'_'));
    assert!(!is_ident_continue(b'-') && !is_ident_continue(b' '));
    assert_eq!(read_ident(b"Foo.Bar9_x;", 0), ("Foo.Bar9_x".to_string(), 10));
    assert_eq!(read_ident_with_dots(b" ab c", 1), ("ab".to_string(), 3));
    assert_eq!(read_ident(b"x", 0), ("x".to_string(), 1));
}

#[test]
fn blanks_comments_and_literals_are_passed_over() {
    assert_eq!(skip_ws_and_comments(b" \t\r\n{c}(*d*)//e\n'f'x", 0), 19);
    assert_eq!(skip_ws_and_comments(b"  (x", 0), 2);
    assert_eq!(skip_ws_and_comments(b"  /x", 0), 2);
    assert_eq!(skip_ws_and_comments(b"x", 5), 5);
    assert_eq!(skip_ws_and_comments(b"  {open", 0), 7);
}

#[test]
fn include_directives_are_told_from_comments() {
    assert_eq!(parse_include_directive(b"{$I Uses.inc}", 0), Some(("Uses.inc".to_string(), 13)));
    assert_eq!(
        parse_include_directive(b"x{ $include  'My File.inc' }y", 1),
        Some(("My File.inc".to_string(), 28))
    );
    assert_eq!(parse_include_directive(b"(*$I a.inc*)", 0), Some(("a.inc".to_string(), 12)));
    assert_eq!(parse_include_directive(b"(*$I a.inc *) ", 0), Some(("a.inc".to_string(), 13)));
    assert_eq!(parse_include_directive(b"{$I+}", 0), None);
    assert_eq!(parse_include_directive(b"{$I -}", 0), None);
    assert_eq!(parse_include_directive(b"{$IFDEF X}", 0), None);
    assert_eq!(parse_include_directive(b"{$I}", 0), None);
    assert_eq!(parse_include_directive(b"{$I ' '}", 0), None);
    assert_eq!(parse_include_directive(b"{$I a.inc", 0), None);
    assert_eq!(parse_include_directive(b"{I a.inc}", 0), None);
    assert_eq!(parse_include_directive(b"($I a.inc)", 0), None);
    assert_eq!(parse_include_directive(b"{$I a.inc}", 3), None);
    assert_eq!(parse_include_directive(b"{$I a.inc}", 99), None);
    assert_eq!(parse_include_directive(b"{$I a b}", 0), Some(("a".to_string(), 8)));
}
