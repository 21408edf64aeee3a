use analysis_core::grammar::{fn_item, item, item_first, struct_field, struct_fields, struct_item};
use analysis_core::parser::{Event, Parser};
use analysis_core::syntax::SyntaxKind;
use analysis_core::syntax::SyntaxKind::{
    Colon, Comma, Eof, FnDef, FnKw, Ident, LCurly, LParen, NamedFieldDef, RCurly, RParen,
    StructDef, StructKw,
};

fn parser(tokens: &[SyntaxKind]) -> Parser {
    Parser::new(tokens.to_vec()).unwrap()
}

fn start(kind: SyntaxKind) -> Event {
    Event::Start { kind }
}

fn token(kind: SyntaxKind) -> Event {
    Event::Token { kind }
}

fn error(expected: SyntaxKind) -> Event {
    Event::Error { expected }
}

const FINISH: Event = Event::Finish;

#[test]
fn an_item_starts_with_struct_or_fn() {
    assert!(item_first(&parser(&[StructKw])));
    assert!(item_first(&parser(&[FnKw, Ident])));
    assert!(!item_first(&parser(&[Ident])));
    assert!(!item_first(&parser(&[LCurly])));
    assert!(!item_first(&parser(&[])));
}

#[test]
fn a_function_is_a_name_and_two_empty_pairs_of_brackets() {
    let mut p = parser(&[FnKw, Ident, LParen, RParen, LCurly, RCurly, StructKw]);
    item(&mut p);
    assert_eq!(
        p.events(),
        &vec![
            start(FnDef),
            token(FnKw),
            token(Ident),
            token(LParen),
            token(RParen),
            token(LCurly),
            token(RCurly),
            FINISH
        ]
    );
    assert_eq!(p.pos(), 6);
    assert_eq!(p.current(), StructKw);
    assert!(!p.is_eof());
}

#[test]
fn a_struct_is_a_name_and_fields_in_brackets() {
    let mut p = parser(&[
        StructKw, Ident, LCurly, Ident, Colon, Ident, Comma, Ident, Colon, Ident, RCurly,
    ]);
    item(&mut p);
    let field = [start(NamedFieldDef), token(Ident), token(Colon), token(Ident), FINISH];
    let mut expected = vec![start(StructDef), token(StructKw), token(Ident), token(LCurly)];
    expected.extend(field);
    expected.push(token(Comma));
    expected.extend(field);
    expected.extend([token(RCurly), FINISH]);
    assert_eq!(p.events(), &expected);
    assert!(p.is_eof());
    assert_eq!(p.current(), Eof);
}

#[test]
fn a_trailing_comma_and_no_fields_are_fine() {
    let mut p = parser(&[Ident, LCurly, Ident, Colon, Ident, Comma, RCurly]);
    struct_item(&mut p);
    assert_eq!(
        p.events(),
        &vec![
            token(Ident),
            token(LCurly),
            start(NamedFieldDef),
            token(Ident),
            token(Colon),
            token(Ident),
            FINISH,
            token(Comma),
            token(RCurly)
        ]
    );
    let mut p = parser(&[Ident, LCurly, RCurly]);
    struct_item(&mut p);
    assert_eq!(p.events(), &vec![token(Ident), token(LCurly), token(RCurly)]);
}

#[test]
fn nothing_changes_where_no_item_starts() {
    let mut p = parser(&[Ident, FnKw]);
    item(&mut p);
    assert!(p.events().is_empty());
    assert_eq!(p.pos(), 0);
    let mut p = parser(&[Colon]);
    assert!(!struct_field(&mut p));
    assert!(p.events().is_empty());
}

#[test]
fn what_is_missing_is_recorded() {
    let mut p = parser(&[LParen]);
    fn_item(&mut p);
    assert_eq!(p.events(), &vec![error(Ident)]);
    assert_eq!(p.pos(), 0);

    let mut p = parser(&[Ident, RParen]);
    fn_item(&mut p);
    assert_eq!(p.events(), &vec![token(Ident), error(LParen)]);

    let mut p = parser(&[Ident, LParen, LCurly]);
    fn_item(&mut p);
    assert_eq!(p.events(), &vec![token(Ident), token(LParen), error(RParen)]);

    let mut p = parser(&[Ident, LParen, RParen]);
    fn_item(&mut p);
    assert_eq!(p.events(), &vec![token(Ident), token(LParen), token(RParen), error(LCurly)]);

    let mut p = parser(&[Ident, Ident]);
    assert!(struct_field(&mut p));
    assert_eq!(p.events(), &vec![start(NamedFieldDef), token(Ident), error(Colon), FINISH]);
    assert_eq!(p.pos(), 1);

    let mut p = parser(&[Ident, Colon, Comma]);
    assert!(struct_field(&mut p));
    assert_eq!(
        p.events(),
        &vec![start(NamedFieldDef), token(Ident), token(Colon), error(Ident), FINISH]
    );

    let mut p = parser(&[StructKw, LCurly]);
    item(&mut p);
    assert_eq!(p.events(), &vec![start(StructDef), token(StructKw), error(Ident), FINISH]);
}

#[test]
fn a_missing_comma_is_recorded_and_the_list_goes_on() {
    let mut p = parser(&[Ident, Colon, Ident, Ident, Colon, Ident]);
    struct_fields(&mut p);
    let field = [start(NamedFieldDef), token(Ident), token(Colon), token(Ident), FINISH];
    let mut expected = field.to_vec();
    expected.push(error(Comma));
    expected.extend(field);
    assert_eq!(p.events(), &expected);
    assert!(p.is_eof());
}

#[test]
fn what_does_not_fit_in_a_block_is_skipped_as_an_error() {
    // `fn f() { x { y } z } fn`: the body should be empty.
    let mut p = parser(&[
        FnKw, Ident, LParen, RParen, LCurly, Ident, LCurly, Ident, RCurly, Ident, RCurly, FnKw,
    ]);
    item(&mut p);
    assert_eq!(
        p.events(),
        &vec![
            start(FnDef),
            token(FnKw),
            token(Ident),
            token(LParen),
            token(RParen),
            token(LCurly),
            error(RCurly),
            start(SyntaxKind::Error),
            token(Ident),
            token(LCurly),
            token(Ident),
            token(RCurly),
            token(Ident),
            token(RCurly),
            FINISH,
            FINISH
        ]
    );
    assert_eq!(p.current(), FnKw);
    assert_eq!(p.pos(), 11);
}

#[test]
fn a_block_that_is_never_closed_is_skipped_to_the_end() {
    let mut p = parser(&[Ident, LCurly, Ident, Colon, Ident, LParen]);
    struct_item(&mut p);
    assert_eq!(
        p.events(),
        &vec![
            token(Ident),
            token(LCurly),
            start(NamedFieldDef),
            token(Ident),
            token(Colon),
            token(Ident),
            FINISH,
            error(Comma),
            error(RCurly),
            start(SyntaxKind::Error),
            token(LParen),
            FINISH
        ]
    );
    assert!(p.is_eof());
}

#[test]
fn the_bracket_that_closes_a_block_ends_the_tokens_inside_it() {
    let mut p = parser(&[LCurly, Ident, RCurly, Ident]);
    let block = p.open_block().unwrap();
    assert_eq!(p.current(), Ident);
    assert_eq!(p.bump(), Ident);
    assert!(p.is_eof());
    assert_eq!(p.current(), Eof);
    assert_eq!(p.bump(), Eof);
    assert_eq!(p.pos(), 2);
    assert!(!p.expect(Ident));
    p.close_block(block);
    assert!(!p.is_eof());
    assert_eq!(p.current(), Ident);
    assert_eq!(
        p.events(),
        &vec![token(LCurly), token(Ident), error(Ident), token(RCurly)]
    );
    p.start(FnDef);
    p.finish();
    assert!(p.expect(Ident));
    assert!(p.is_eof());
    assert!(parser(&[Ident]).open_block().is_none());
}
