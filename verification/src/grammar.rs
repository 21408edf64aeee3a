//! The rules for items: structs with named fields, and functions without
//! parameters and with an empty body.
//!
//! Each rule is a change of the state of the parser. A rule that starts
//! with a fixed token looks at the next token, and leaves the parser as it is
//! where that token is another.

use crate::parser::{Event, Parser, ParserView};
use crate::syntax::SyntaxKind;
use vstd::prelude::*;

verus! {

/// Whether an item can start at the next token.
pub open spec fn item_starts(p: ParserView) -> bool {
    p.current() == SyntaxKind::StructKw || p.current() == SyntaxKind::FnKw
}

/// A field of a struct: a name, a colon and the name of a type. Without a
/// name at the start there is no field and nothing changes.
pub open spec fn field_rule(p: ParserView) -> (ParserView, bool) {
    if p.current() == SyntaxKind::Ident {
        let q1 = p.event(Event::Start { kind: SyntaxKind::NamedFieldDef }).bump();
        let (q2, colon) = q1.expect(SyntaxKind::Colon);
        let q3 = if colon {
            q2.expect(SyntaxKind::Ident).0
        } else {
            q2
        };
        (q3.event(Event::Finish), true)
    } else {
        (p, false)
    }
}

/// The fields of a struct, with a comma after each but the last, for which
/// the comma is optional. The list ends where no field follows or the block
/// ends; a missing comma is recorded and the list goes on.
pub open spec fn fields_rule(p: ParserView) -> ParserView
    decreases p.tokens.len() - p.pos,
{
    let (q1, found) = field_rule(p);
    if !found || q1.current() == SyntaxKind::Eof {
        q1
    } else {
        fields_rule(q1.expect(SyntaxKind::Comma).0)
    }
}

/// A block in curly brackets around `body`. Without an opening bracket an
/// error is recorded and that is all.
pub open spec fn block_rule(p: ParserView, body: spec_fn(ParserView) -> ParserView) -> ParserView {
    let (q1, opened) = p.expect(SyntaxKind::LCurly);
    if opened {
        body(ParserView { curly_limit: Some(q1.curly_level), ..q1 }).close_block(
            p.curly_level,
            p.curly_limit,
        )
    } else {
        q1
    }
}

/// A struct after its keyword: a name, and the fields in curly brackets.
pub open spec fn struct_rule(p: ParserView) -> ParserView {
    let (q1, named) = p.expect(SyntaxKind::Ident);
    if named {
        block_rule(q1, |q: ParserView| fields_rule(q))
    } else {
        q1
    }
}

/// A function after its keyword: a name, an empty pair of round brackets
/// and an empty pair of curly brackets.
pub open spec fn fn_rule(p: ParserView) -> ParserView {
    let (q1, named) = p.expect(SyntaxKind::Ident);
    let (q2, opened) = q1.expect(SyntaxKind::LParen);
    let (q3, closed) = q2.expect(SyntaxKind::RParen);
    if !named {
        q1
    } else if !opened {
        q2
    } else if !closed {
        q3
    } else {
        block_rule(q3, |q: ParserView| q)
    }
}

/// An item: a struct or a function, as a node that starts with the
/// keyword. Where the next token is neither keyword nothing changes.
pub open spec fn item_rule(p: ParserView) -> ParserView {
    if p.current() == SyntaxKind::StructKw {
        struct_rule(p.event(Event::Start { kind: SyntaxKind::StructDef }).bump()).event(
            Event::Finish,
        )
    } else if p.current() == SyntaxKind::FnKw {
        fn_rule(p.event(Event::Start { kind: SyntaxKind::FnDef }).bump()).event(Event::Finish)
    } else {
        p
    }
}

/// The rules for fields take no curly bracket: the level stays, and so do
/// the tokens and the limit.
pub proof fn lemma_fields_rule(p: ParserView)
    requires
        p.wf(),
    ensures
        fields_rule(p).wf(),
        fields_rule(p).tokens == p.tokens,
        fields_rule(p).curly_level == p.curly_level,
        fields_rule(p).curly_limit == p.curly_limit,
        fields_rule(p).pos >= p.pos,
    decreases p.tokens.len() - p.pos,
{
    let (q1, found) = field_rule(p);
    if !found || q1.current() == SyntaxKind::Eof {
    } else {
        lemma_fields_rule(q1.expect(SyntaxKind::Comma).0);
    }
}

/// Whether the tokens from the next one on are of the kinds `kinds`.
pub open spec fn next_are(p: ParserView, kinds: Seq<SyntaxKind>) -> bool {
    &&& 0 <= p.pos
    &&& p.pos + kinds.len() <= p.tokens.len()
    &&& forall|i: int| 0 <= i < kinds.len() ==> p.tokens[p.pos + i] == #[trigger] kinds[i]
}

/// The tokens from the next one on, `n` of them, as the events that take
/// them.
pub open spec fn taken(p: ParserView, n: nat) -> Seq<Event> {
    Seq::new(n, |i: int| Event::Token { kind: p.tokens[p.pos + i] })
}

/// A function that is written in full is taken whole: its five tokens
/// become five events, and nothing else changes. This holds outside of
/// blocks and in a block whose closing bracket is not the one of the
/// function.
pub proof fn lemma_fn_rule_accepts(p: ParserView)
    requires
        p.wf(),
        next_are(
            p,
            seq![
                SyntaxKind::Ident,
                SyntaxKind::LParen,
                SyntaxKind::RParen,
                SyntaxKind::LCurly,
                SyntaxKind::RCurly,
            ],
        ),
        p.curly_limit != Some(p.curly_level + 1),
    ensures
        fn_rule(p) == (ParserView {
            pos: p.pos + 5,
            events: p.events + taken(p, 5),
            ..p
        }),
{
    let kinds = seq![
        SyntaxKind::Ident,
        SyntaxKind::LParen,
        SyntaxKind::RParen,
        SyntaxKind::LCurly,
        SyntaxKind::RCurly,
    ];
    assert(kinds[0] == SyntaxKind::Ident && kinds[1] == SyntaxKind::LParen && kinds[2]
        == SyntaxKind::RParen && kinds[3] == SyntaxKind::LCurly && kinds[4] == SyntaxKind::RCurly);
    let q1 = p.expect(SyntaxKind::Ident).0;
    let q2 = q1.expect(SyntaxKind::LParen).0;
    let q3 = q2.expect(SyntaxKind::RParen).0;
    let q4 = q3.expect(SyntaxKind::LCurly).0;
    let inner = ParserView { curly_limit: Some(q4.curly_level), ..q4 };
    let q5 = inner.close_block(q3.curly_level, q3.curly_limit);
    assert(q1.pos == p.pos + 1);
    assert(q2.pos == p.pos + 2);
    assert(q3.pos == p.pos + 3);
    assert(q4.pos == p.pos + 4);
    assert(q5.pos == p.pos + 5);
    assert(fn_rule(p) == q5);
    assert(q5.events =~= p.events + taken(p, 5));
}

/// A field that is written in full is taken whole, as a node of its own.
pub proof fn lemma_field_rule_accepts(p: ParserView)
    requires
        p.wf(),
        next_are(p, seq![SyntaxKind::Ident, SyntaxKind::Colon, SyntaxKind::Ident]),
    ensures
        field_rule(p) == (
            ParserView {
                pos: p.pos + 3,
                events: p.events + seq![Event::Start { kind: SyntaxKind::NamedFieldDef }] + taken(
                    p,
                    3,
                ) + seq![Event::Finish],
                ..p
            },
            true,
        ),
{
    let kinds = seq![SyntaxKind::Ident, SyntaxKind::Colon, SyntaxKind::Ident];
    assert(kinds[0] == SyntaxKind::Ident && kinds[1] == SyntaxKind::Colon && kinds[2]
        == SyntaxKind::Ident);
    let q1 = p.event(Event::Start { kind: SyntaxKind::NamedFieldDef }).bump();
    let q2 = q1.expect(SyntaxKind::Colon).0;
    let q3 = q2.expect(SyntaxKind::Ident).0;
    assert(q1.pos == p.pos + 1);
    assert(q2.pos == p.pos + 2);
    assert(q3.pos == p.pos + 3);
    assert(field_rule(p).0.events =~= p.events + seq![
        Event::Start { kind: SyntaxKind::NamedFieldDef },
    ] + taken(p, 3) + seq![Event::Finish]);
}

/// Whether an item can start at the next token.
pub fn item_first(p: &Parser) -> (r: bool)
    requires
        p@.wf(),
    ensures
        r == item_starts(p@),
{
    match p.current() {
        SyntaxKind::StructKw | SyntaxKind::FnKw => true,
        _ => false,
    }
}

/// Parses an item, if one starts at the next token: see [`item_rule`].
pub fn item(p: &mut Parser)
    requires
        old(p)@.wf(),
    ensures
        final(p)@ == item_rule(old(p)@),
        final(p)@.wf(),
{
    let kind = p.current();
    if kind == SyntaxKind::StructKw {
        p.start(SyntaxKind::StructDef);
        p.bump();
        struct_item(p);
        p.finish();
    } else if kind == SyntaxKind::FnKw {
        p.start(SyntaxKind::FnDef);
        p.bump();
        fn_item(p);
        p.finish();
    }
}

/// Parses a struct after its keyword: see [`struct_rule`].
pub fn struct_item(p: &mut Parser)
    requires
        old(p)@.wf(),
    ensures
        final(p)@ == struct_rule(old(p)@),
        final(p)@.wf(),
{
    if p.expect(SyntaxKind::Ident) {
        if let Some(start) = p.open_block() {
            proof {
                lemma_fields_rule(p@);
            }
            struct_fields(p);
            p.close_block(start);
        }
    }
}

/// Parses the fields of a struct: see [`fields_rule`].
pub fn struct_fields(p: &mut Parser)
    requires
        old(p)@.wf(),
    ensures
        final(p)@ == fields_rule(old(p)@),
        final(p)@.wf(),
{
    loop
        invariant
            p@.wf(),
            fields_rule(p@) == fields_rule(old(p)@),
        ensures
            p@.wf(),
            p@ == fields_rule(old(p)@),
        decreases p@.tokens.len() - p@.pos,
    {
        if !struct_field(p) || p.current() == SyntaxKind::Eof {
            break ;
        }
        p.expect(SyntaxKind::Comma);
    }
}

/// Parses a field of a struct, if one starts at the next token: see
/// [`field_rule`].
pub fn struct_field(p: &mut Parser) -> (r: bool)
    requires
        old(p)@.wf(),
    ensures
        (final(p)@, r) == field_rule(old(p)@),
        final(p)@.wf(),
{
    if p.current() == SyntaxKind::Ident {
        p.start(SyntaxKind::NamedFieldDef);
        p.bump();
        if p.expect(SyntaxKind::Colon) {
            p.expect(SyntaxKind::Ident);
        }
        p.finish();
        true
    } else {
        false
    }
}

/// Parses a function after its keyword: see [`fn_rule`].
pub fn fn_item(p: &mut Parser)
    requires
        old(p)@.wf(),
    ensures
        final(p)@ == fn_rule(old(p)@),
        final(p)@.wf(),
{
    if p.expect(SyntaxKind::Ident) && p.expect(SyntaxKind::LParen) && p.expect(SyntaxKind::RParen) {
        if let Some(start) = p.open_block() {
            p.close_block(start);
        }
    }
}

} // verus!
