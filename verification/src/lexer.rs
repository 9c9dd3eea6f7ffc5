//! Turns a raw byte source into a stream of position-tagged tokens, silently
//! discarding every byte outside the language alphabet `< > + - . , [ ]`.
use vstd::prelude::*;

verus! {

/// A 1-indexed line/column pair; the column resets and the line advances on
/// newline bytes.
#[derive(Debug, Clone, Copy, PartialEq, Eq, Structural)]
pub struct Location {
    pub line: usize,
    pub column: usize,
}

impl Default for Location {
    fn default() -> (r: Self)
        ensures
            r == start_location(),
    {
        Self { line: 1, column: 1 }
    }
}

/// One recognized symbol together with the location of the byte it came from.
#[derive(Debug, Clone, Copy, PartialEq, Eq, Structural)]
pub struct Token {
    pub symbol: u8,
    pub location: Location,
}

/// The byte value of `<`.
pub const SYM_LEFT: u8 = 60;

/// The byte value of `>`.
pub const SYM_RIGHT: u8 = 62;

/// The byte value of `+`.
pub const SYM_PLUS: u8 = 43;

/// The byte value of `-`.
pub const SYM_MINUS: u8 = 45;

/// The byte value of `.`.
pub const SYM_DOT: u8 = 46;

/// The byte value of `,`.
pub const SYM_COMMA: u8 = 44;

/// The byte value of `[`.
pub const SYM_OPEN: u8 = 91;

/// The byte value of `]`.
pub const SYM_CLOSE: u8 = 93;

/// The byte value of a line feed.
pub const NEWLINE: u8 = 10;

/// The eight bytes of the language alphabet.
pub open spec fn is_symbol_byte(b: u8) -> bool {
    b == SYM_LEFT || b == SYM_RIGHT || b == SYM_PLUS || b == SYM_MINUS || b == SYM_DOT
        || b == SYM_COMMA || b == SYM_OPEN || b == SYM_CLOSE
}

/// The location of the first byte of a source.
pub open spec fn start_location() -> Location {
    Location { line: 1, column: 1 }
}

/// How consuming one byte moves the current location.
pub open spec fn advance_location(loc: Location, b: u8) -> Location {
    if b == NEWLINE {
        Location { line: (loc.line + 1) as usize, column: 1 }
    } else {
        Location { line: loc.line, column: (loc.column + 1) as usize }
    }
}

/// The token stream produced from `bytes[i..]` when the byte at index `i`
/// sits at location `loc`.
pub open spec fn tokens_from(bytes: Seq<u8>, i: int, loc: Location) -> Seq<Token>
    decreases bytes.len() - i,
    when 0 <= i <= bytes.len()
{
    if i >= bytes.len() {
        Seq::empty()
    } else if is_symbol_byte(bytes[i]) {
        seq![Token { symbol: bytes[i], location: loc }] + tokens_from(
            bytes,
            i + 1,
            advance_location(loc, bytes[i]),
        )
    } else {
        tokens_from(bytes, i + 1, advance_location(loc, bytes[i]))
    }
}

/// There are never more tokens left than bytes left.
pub proof fn lemma_tokens_from_len(bytes: Seq<u8>, i: int, loc: Location)
    requires
        0 <= i <= bytes.len(),
    ensures
        tokens_from(bytes, i, loc).len() <= bytes.len() - i,
    decreases bytes.len() - i,
{
    if i < bytes.len() {
        lemma_tokens_from_len(bytes, i + 1, advance_location(loc, bytes[i]));
    }
}

/// Every token of the stream carries a symbol of the alphabet.
pub proof fn lemma_tokens_from_symbols(bytes: Seq<u8>, i: int, loc: Location)
    requires
        0 <= i <= bytes.len(),
    ensures
        forall|j: int|
            0 <= j < tokens_from(bytes, i, loc).len() ==> is_symbol_byte(
                #[trigger] tokens_from(bytes, i, loc)[j].symbol,
            ),
    decreases bytes.len() - i,
{
    if i < bytes.len() {
        lemma_tokens_from_symbols(bytes, i + 1, advance_location(loc, bytes[i]));
        let s = tokens_from(bytes, i, loc);
        let rest = tokens_from(bytes, i + 1, advance_location(loc, bytes[i]));
        if is_symbol_byte(bytes[i]) {
            assert forall|j: int| 0 <= j < s.len() implies is_symbol_byte(s[j].symbol) by {
                if j > 0 {
                    assert(s[j] == rest[j - 1]);
                }
            }
        }
    }
}

/// The length of the longest prefix of `toks` made of tokens whose symbol is
/// `symbol`.
pub open spec fn run_len(toks: Seq<Token>, symbol: u8) -> nat
    decreases toks.len(),
{
    if toks.len() == 0 || toks[0].symbol != symbol {
        0
    } else {
        1 + run_len(toks.drop_first(), symbol)
    }
}

/// A run is never longer than the stream, and every token in it carries the
/// run's symbol.
pub proof fn lemma_run_len_prefix(toks: Seq<Token>, symbol: u8)
    ensures
        run_len(toks, symbol) <= toks.len(),
        forall|j: int| 0 <= j < run_len(toks, symbol) ==> toks[j].symbol == symbol,
    decreases toks.len(),
{
    if toks.len() > 0 && toks[0].symbol == symbol {
        lemma_run_len_prefix(toks.drop_first(), symbol);
        assert forall|j: int| 0 <= j < run_len(toks, symbol) implies toks[j].symbol == symbol by {
            if j > 0 {
                assert(toks[j] == toks.drop_first()[j - 1]);
            }
        }
    }
}

/// A stream of identical symbols is one single run.
pub proof fn lemma_run_len_uniform(toks: Seq<Token>, symbol: u8)
    requires
        forall|j: int| 0 <= j < toks.len() ==> toks[j].symbol == symbol,
    ensures
        run_len(toks, symbol) == toks.len(),
    decreases toks.len(),
{
    if toks.len() > 0 {
        lemma_run_len_uniform(toks.drop_first(), symbol);
    }
}

/// Reads bytes one at a time, skips everything outside the alphabet, and
/// keeps at most one produced-but-unconsumed token in a lookahead slot.
pub struct Lexer {
    pub source: Vec<u8>,
    pub cursor: usize,
    pub location: Location,
    pub nxt_token: Option<Token>,
}

impl Lexer {
    /// Internal consistency: the cursor stays inside the source, the tracked
    /// location cannot outrun the bytes consumed, and a buffered token always
    /// carries an alphabet symbol read from the source.
    pub open spec fn wf(&self) -> bool {
        &&& self.cursor <= self.source@.len()
        &&& self.source@.len() < usize::MAX
        &&& 1 <= self.location.line <= self.cursor + 1
        &&& 1 <= self.location.column <= self.cursor + 1
        &&& (self.nxt_token matches Some(t) ==> is_symbol_byte(t.symbol) && self.cursor >= 1)
    }

    /// The tokens not yet handed out: the lookahead slot, if filled, followed
    /// by the tokens of the unread bytes.
    pub open spec fn remaining(&self) -> Seq<Token> {
        match self.nxt_token {
            Some(t) => seq![t] + tokens_from(self.source@, self.cursor as int, self.location),
            None => tokens_from(self.source@, self.cursor as int, self.location),
        }
    }

    /// There are never more tokens left than the source holds bytes.
    pub proof fn lemma_remaining_le_source(&self)
        requires
            self.wf(),
        ensures
            self.remaining().len() <= self.source@.len(),
    {
        lemma_tokens_from_len(self.source@, self.cursor as int, self.location);
    }

    /// Every remaining token carries a symbol of the alphabet.
    pub proof fn lemma_remaining_symbols(&self)
        requires
            self.wf(),
        ensures
            forall|j: int|
                0 <= j < self.remaining().len() ==> is_symbol_byte(
                    #[trigger] self.remaining()[j].symbol,
                ),
    {
        lemma_tokens_from_symbols(self.source@, self.cursor as int, self.location);
    }

    pub fn new(source: Vec<u8>) -> (r: Self)
        requires
            source@.len() < usize::MAX,
        ensures
            r.wf(),
            r.remaining() == tokens_from(source@, 0, start_location()),
    {
        Self { source, cursor: 0, location: Location::default(), nxt_token: None }
    }

    /// Whether a byte belongs to the language alphabet.
    pub fn is_char_in_language(candidate: u8) -> (r: bool)
        ensures
            r == is_symbol_byte(candidate),
    {
        candidate == SYM_LEFT || candidate == SYM_RIGHT || candidate == SYM_PLUS || candidate
            == SYM_MINUS || candidate == SYM_DOT || candidate == SYM_COMMA || candidate == SYM_OPEN
            || candidate == SYM_CLOSE
    }

    /// Returns and consumes the next token, draining the lookahead slot if it
    /// was filled, and otherwise reading fresh bytes until a symbol or the
    /// end of the source is met.
    pub fn slice_token(&mut self) -> (r: Option<Token>)
        requires
            old(self).wf(),
        ensures
            final(self).wf(),
            final(self).source@ == old(self).source@,
            final(self).nxt_token is None,
            match r {
                Some(t) => old(self).remaining().len() > 0 && t == old(self).remaining()[0]
                    && final(self).remaining() == old(self).remaining().drop_first()
                    && final(self).cursor >= 1,
                None => old(self).remaining().len() == 0 && final(self).remaining()
                    == old(self).remaining(),
            },
    {
        if self.nxt_token.is_some() {
            let token = self.nxt_token.take().unwrap();
            proof {
                assert(old(self).remaining().drop_first() =~= self.remaining());
            }
            return Some(token);
        }
        loop
            invariant
                self.wf(),
                self.nxt_token is None,
                self.source@ == old(self).source@,
                self.remaining() == old(self).remaining(),
            decreases self.source@.len() - self.cursor,
        {
            if self.cursor == self.source.len() {
                return None;
            }
            let b = self.source[self.cursor];
            let ghost before = *self;
            let location = self.location;
            self.cursor = self.cursor + 1;
            self.location.column = self.location.column + 1;
            if b == NEWLINE {
                self.location.column = 1;
                self.location.line = self.location.line + 1;
            }
            proof {
                assert(self.location == advance_location(before.location, b));
            }
            if Self::is_char_in_language(b) {
                proof {
                    assert(old(self).remaining() =~= seq![
                        Token { symbol: b, location: before.location },
                    ] + self.remaining());
                    assert(self.remaining() =~= old(self).remaining().drop_first());
                }
                return Some(Token { symbol: b, location });
            }
        }
    }

    /// Returns the next token without consuming it, filling the lookahead
    /// slot if it was empty; repeated calls return the same token.
    pub fn nxt_token(&mut self) -> (r: Option<Token>)
        requires
            old(self).wf(),
        ensures
            final(self).wf(),
            final(self).source@ == old(self).source@,
            final(self).remaining() == old(self).remaining(),
            r == (if old(self).remaining().len() > 0 {
                Some(old(self).remaining()[0])
            } else {
                None::<Token>
            }),
    {
        proof {
            self.lemma_remaining_symbols();
        }
        if let Some(token) = self.nxt_token {
            return Some(token);
        }
        let t = self.slice_token();
        self.nxt_token = t;
        proof {
            if t is Some {
                assert(self.remaining() =~= old(self).remaining());
            }
        }
        t
    }

    /// Consumes the tokens of the maximal run of `token`'s symbol at the head
    /// of the stream and returns how many it consumed; a token of a different
    /// symbol is left in place.
    pub fn count_while(&mut self, token: &Token) -> (count: usize)
        requires
            old(self).wf(),
        ensures
            final(self).wf(),
            final(self).source@ == old(self).source@,
            count == run_len(old(self).remaining(), token.symbol),
            final(self).remaining() == old(self).remaining().skip(count as int),
    {
        let mut count: usize = 0;
        proof {
            self.lemma_remaining_le_source();
            assert(self.remaining() =~= old(self).remaining().skip(0));
        }
        loop
            invariant
                self.wf(),
                self.source@ == old(self).source@,
                count <= old(self).remaining().len(),
                self.remaining() == old(self).remaining().skip(count as int),
                run_len(old(self).remaining(), token.symbol) == count + run_len(
                    self.remaining(),
                    token.symbol,
                ),
            decreases self.remaining().len(),
        {
            let nxt = self.nxt_token();
            match nxt {
                Some(candidate) => {
                    if candidate.symbol == token.symbol {
                        proof {
                            self.lemma_remaining_le_source();
                        }
                        let _ = self.slice_token();
                        count = count + 1;
                        proof {
                            assert(self.remaining() =~= old(self).remaining().skip(count as int));
                        }
                    } else {
                        return count;
                    }
                },
                None => {
                    return count;
                },
            }
        }
    }
}

} // verus!
