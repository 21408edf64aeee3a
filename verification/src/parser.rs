//! A parser that records events.
//!
//! The parser walks over the tokens of a file and records where a node
//! starts, which tokens it takes and where the node ends. Inside a block in
//! curly brackets the closing bracket of the block counts as the end of the
//! tokens, so that a rule cannot read past the block it is in.

use crate::syntax::SyntaxKind;
use vstd::prelude::*;

verus! {

/// What the parser records.
#[derive(Clone, Copy, Debug, PartialEq, Eq, Structural, Hash)]
pub enum Event {
    /// A node of this kind starts.
    Start { kind: SyntaxKind },
    /// The node that started last and is still open ends.
    Finish,
    /// The next token, which is of this kind, belongs to the open node.
    Token { kind: SyntaxKind },
    /// A token of this kind was expected and is not there.
    Error { expected: SyntaxKind },
}

/// The most tokens that a parser takes.
pub const MAX_TOKENS: usize = 0x7fff_ffff;

/// The state of a parser as a value.
#[verifier::ext_equal]
pub struct ParserView {
    pub tokens: Seq<SyntaxKind>,
    pub pos: int,
    pub events: Seq<Event>,
    /// How many curly brackets are open.
    pub curly_level: int,
    /// The level of the block that is being parsed, if any.
    pub curly_limit: Option<int>,
}

impl ParserView {
    /// Whether the tokens are at their end: there is no token left, or the
    /// next token closes the block that is being parsed.
    pub open spec fn is_eof(self) -> bool {
        if self.pos >= self.tokens.len() || self.pos < 0 {
            true
        } else {
            match self.curly_limit {
                Some(limit) => limit == self.curly_level && self.tokens[self.pos]
                    == SyntaxKind::RCurly,
                None => false,
            }
        }
    }

    /// The kind of the next token, `Eof` at the end.
    pub open spec fn current(self) -> SyntaxKind {
        if self.is_eof() {
            SyntaxKind::Eof
        } else {
            self.tokens[self.pos]
        }
    }

    pub open spec fn event(self, event: Event) -> ParserView {
        ParserView { events: self.events.push(event), ..self }
    }

    /// Takes the next token. At the end nothing happens.
    pub open spec fn bump(self) -> ParserView {
        let kind = self.current();
        if kind == SyntaxKind::Eof {
            self
        } else {
            ParserView {
                pos: self.pos + 1,
                events: self.events.push(Event::Token { kind }),
                curly_level: if kind == SyntaxKind::LCurly {
                    self.curly_level + 1
                } else if kind == SyntaxKind::RCurly {
                    self.curly_level - 1
                } else {
                    self.curly_level
                },
                ..self
            }
        }
    }

    /// Takes the next token where it is of kind `kind`, and records an error
    /// where it is not.
    pub open spec fn expect(self, kind: SyntaxKind) -> (ParserView, bool) {
        if self.current() == kind {
            (self.bump(), true)
        } else {
            (self.event(Event::Error { expected: kind }), false)
        }
    }

    /// The tokens up to the bracket that closes the level `level`, as one
    /// error node that is still open.
    pub open spec fn skip_block(self, level: int) -> ParserView
        decreases self.tokens.len() - self.pos,
    {
        if self.curly_level > level && self.current() != SyntaxKind::Eof {
            self.bump().skip_block(level)
        } else {
            self
        }
    }

    /// The end of a block that was opened at level `level` under the limit
    /// `limit`: the closing bracket, or else an error and, in an error node,
    /// the tokens up to the bracket that closes the block.
    pub open spec fn close_block(self, level: int, limit: Option<int>) -> ParserView {
        let p = ParserView { curly_limit: limit, ..self };
        let (q1, closed) = p.expect(SyntaxKind::RCurly);
        if closed {
            q1
        } else {
            q1.event(Event::Start { kind: SyntaxKind::Error }).skip_block(level).event(Event::Finish)
        }
    }

    /// The counters fit the machine: the position is within the tokens, and
    /// no more brackets are open or closed than tokens were taken.
    pub open spec fn wf(self) -> bool {
        &&& 0 <= self.pos <= self.tokens.len() <= MAX_TOKENS
        &&& -self.pos <= self.curly_level <= self.pos
    }
}

/// A parser over the kinds of the tokens of a file, without white space and
/// comments.
pub struct Parser {
    tokens: Vec<SyntaxKind>,
    pos: usize,
    events: Vec<Event>,
    curly_level: i32,
    curly_limit: Option<i32>,
}

impl View for Parser {
    type V = ParserView;

    closed spec fn view(&self) -> ParserView {
        ParserView {
            tokens: self.tokens@,
            pos: self.pos as int,
            events: self.events@,
            curly_level: self.curly_level as int,
            curly_limit: match self.curly_limit {
                Some(limit) => Some(limit as int),
                None => None,
            },
        }
    }
}

/// What a block needs to know at its end of the state at its start.
pub struct BlockStart {
    pub level: i32,
    pub limit: Option<i32>,
}

impl Parser {
    /// A parser at the start of `tokens`; `None` where there are more
    /// tokens than a parser takes.
    pub fn new(tokens: Vec<SyntaxKind>) -> (r: Option<Parser>)
        ensures
            match r {
                Some(p) => p@ == (ParserView {
                    tokens: tokens@,
                    pos: 0,
                    events: Seq::empty(),
                    curly_level: 0,
                    curly_limit: None,
                }) && p@.wf(),
                None => tokens@.len() > MAX_TOKENS,
            },
    {
        if tokens.len() > MAX_TOKENS {
            return None;
        }
        Some(Parser { tokens, pos: 0, events: Vec::new(), curly_level: 0, curly_limit: None })
    }

    /// The events recorded so far.
    pub fn events(&self) -> (r: &Vec<Event>)
        ensures
            r@ == self@.events,
    {
        &self.events
    }

    /// The number of tokens taken so far.
    pub fn pos(&self) -> (r: usize)
        ensures
            r == self@.pos,
    {
        self.pos
    }

    /// Whether the tokens are at their end.
    pub fn is_eof(&self) -> (r: bool)
        requires
            self@.wf(),
        ensures
            r == self@.is_eof(),
    {
        if self.pos == self.tokens.len() {
            return true;
        }
        match self.curly_limit {
            Some(limit) => limit == self.curly_level && self.tokens[self.pos] == SyntaxKind::RCurly,
            None => false,
        }
    }

    /// The kind of the next token, `Eof` at the end.
    pub fn current(&self) -> (r: SyntaxKind)
        requires
            self@.wf(),
        ensures
            r == self@.current(),
    {
        if self.is_eof() {
            return SyntaxKind::Eof;
        }
        self.tokens[self.pos]
    }

    /// Records that a node of kind `kind` starts.
    pub fn start(&mut self, kind: SyntaxKind)
        ensures
            final(self)@ == old(self)@.event(Event::Start { kind }),
    {
        self.events.push(Event::Start { kind });
    }

    /// Records that the open node ends.
    pub fn finish(&mut self)
        ensures
            final(self)@ == old(self)@.event(Event::Finish),
    {
        self.events.push(Event::Finish);
    }

    /// Takes the next token and returns its kind. At the end nothing
    /// happens.
    pub fn bump(&mut self) -> (r: SyntaxKind)
        requires
            old(self)@.wf(),
        ensures
            final(self)@ == old(self)@.bump(),
            r == old(self)@.current(),
            final(self)@.wf(),
    {
        let kind = self.current();
        match kind {
            SyntaxKind::LCurly => {
                self.curly_level = self.curly_level + 1;
            },
            SyntaxKind::RCurly => {
                self.curly_level = self.curly_level - 1;
            },
            SyntaxKind::Eof => {
                return SyntaxKind::Eof;
            },
            _ => {},
        }
        self.pos = self.pos + 1;
        self.events.push(Event::Token { kind });
        kind
    }

    /// Takes the next token where it is of kind `kind`, and records an error
    /// where it is not. Returns whether the token was there.
    pub fn expect(&mut self, kind: SyntaxKind) -> (r: bool)
        requires
            old(self)@.wf(),
        ensures
            (final(self)@, r) == old(self)@.expect(kind),
            final(self)@.wf(),
    {
        if self.current() == kind {
            self.bump();
            true
        } else {
            self.events.push(Event::Error { expected: kind });
            false
        }
    }

    /// Opens a block in curly brackets: takes the opening bracket and makes
    /// the level inside it the limit. `None`, with an error recorded, where
    /// there is no opening bracket.
    pub fn open_block(&mut self) -> (r: Option<BlockStart>)
        requires
            old(self)@.wf(),
        ensures
            final(self)@.wf(),
            match r {
                Some(start) => {
                    &&& old(self)@.expect(SyntaxKind::LCurly).1
                    &&& final(self)@ == (ParserView {
                        curly_limit: Some(old(self)@.curly_level + 1),
                        ..old(self)@.expect(SyntaxKind::LCurly).0
                    })
                    &&& start.level == old(self)@.curly_level
                    &&& start.limit matches Some(l) ==> old(self)@.curly_limit == Some(l as int)
                    &&& start.limit is None ==> old(self)@.curly_limit is None
                },
                None => !old(self)@.expect(SyntaxKind::LCurly).1 && final(self)@ == old(
                    self,
                )@.expect(SyntaxKind::LCurly).0,
            },
    {
        let start = BlockStart { level: self.curly_level, limit: self.curly_limit };
        if !self.expect(SyntaxKind::LCurly) {
            return None;
        }
        self.curly_limit = Some(self.curly_level);
        Some(start)
    }

    /// Closes the block that was opened at `start`: see
    /// [`ParserView::close_block`].
    pub fn close_block(&mut self, start: BlockStart)
        requires
            old(self)@.wf(),
            old(self)@.curly_level > start.level,
        ensures
            final(self)@.wf(),
            final(self)@ == old(self)@.close_block(
                start.level as int,
                match start.limit {
                    Some(l) => Some(l as int),
                    None => None,
                },
            ),
    {
        self.curly_limit = start.limit;
        if !self.expect(SyntaxKind::RCurly) {
            self.start(SyntaxKind::Error);
            let ghost target = self@.skip_block(start.level as int);
            while self.curly_level > start.level
                invariant
                    self@.wf(),
                    self@.skip_block(start.level as int) == target,
                ensures
                    self@.wf(),
                    self@ == target,
                decreases self@.tokens.len() - self@.pos,
            {
                if self.bump() == SyntaxKind::Eof {
                    break ;
                }
            }
            self.finish();
        }
    }
}

} // verus!
