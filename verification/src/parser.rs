//! Builds the instruction sequence: merges runs of identical symbols into
//! counted instructions and resolves loop boundaries with a pending-jump
//! stack and backpatching.
use crate::lexer::is_symbol_byte;
use crate::lexer::run_len;
use crate::lexer::Lexer;
use crate::lexer::Location;
use crate::lexer::Token;
use crate::lexer::SYM_CLOSE;
use crate::lexer::SYM_COMMA;
use crate::lexer::SYM_DOT;
use crate::lexer::SYM_LEFT;
use crate::lexer::SYM_MINUS;
use crate::lexer::SYM_OPEN;
use crate::lexer::SYM_PLUS;
use crate::lexer::SYM_RIGHT;
use vstd::prelude::*;

verus! {

/// One executable instruction. Movement, arithmetic and byte-transfer
/// instructions carry the length of the symbol run they were compressed
/// from; jump instructions carry an index into the program.
#[derive(Debug, Clone, Copy, PartialEq, Eq, Structural)]
pub enum Instruction {
    AddressRight(usize),
    AddressLeft(usize),
    Inc(usize),
    Dec(usize),
    Output(usize),
    Input(usize),
    JmpForward(usize),
    JmpBackward(usize),
}

/// A parse failure: a `]` with no open bracket pending, or open brackets
/// still pending when the source ends.
#[derive(Debug, PartialEq, Eq)]
pub enum ParseError {
    UnmatchedCloseBracket { position: Location },
    UnmatchedOpenBracket { positions: Vec<Location> },
}

/// The instruction sequence produced by the parser, immutable once built.
pub type Program = Vec<Instruction>;

/// What parsing a token stream yields: a finished program, or the location
/// data of the offending brackets.
#[verifier::ext_equal]
pub enum ParseOutcome {
    Parsed { program: Seq<Instruction> },
    UnmatchedClose { position: Location },
    UnmatchedOpen { positions: Seq<Location> },
}

/// The counted instruction a run of `count` repetitions of a movement,
/// arithmetic or byte-transfer symbol compresses to.
pub open spec fn instruction_of(symbol: u8, count: usize) -> Instruction
    recommends
        is_symbol_byte(symbol),
        symbol != SYM_OPEN,
        symbol != SYM_CLOSE,
{
    if symbol == SYM_RIGHT {
        Instruction::AddressRight(count)
    } else if symbol == SYM_LEFT {
        Instruction::AddressLeft(count)
    } else if symbol == SYM_PLUS {
        Instruction::Inc(count)
    } else if symbol == SYM_MINUS {
        Instruction::Dec(count)
    } else if symbol == SYM_DOT {
        Instruction::Output(count)
    } else if symbol == SYM_COMMA {
        Instruction::Input(count)
    } else {
        arbitrary()
    }
}

/// The source locations of a pending-jump stack, bottom first.
pub open spec fn pending_positions(pending: Seq<(usize, Location)>) -> Seq<Location> {
    pending.map_values(|p: (usize, Location)| p.1)
}

/// What the single-pass parse does with the token stream `toks`, starting
/// from an already-built prefix `program` and a stack `pending` of indices
/// of `JmpForward` placeholders awaiting their matching `]`, each paired
/// with the location of its `[`.
pub open spec fn parse_from(
    toks: Seq<Token>,
    program: Seq<Instruction>,
    pending: Seq<(usize, Location)>,
) -> ParseOutcome
    decreases toks.len(),
    via parse_from_decreases
{
    if toks.len() == 0 {
        if pending.len() == 0 {
            ParseOutcome::Parsed { program }
        } else {
            ParseOutcome::UnmatchedOpen { positions: pending_positions(pending) }
        }
    } else {
        let t = toks[0];
        if t.symbol == SYM_OPEN {
            parse_from(
                toks.drop_first(),
                program.push(Instruction::JmpForward(0)),
                pending.push((program.len() as usize, t.location)),
            )
        } else if t.symbol == SYM_CLOSE {
            if pending.len() == 0 {
                ParseOutcome::UnmatchedClose { position: t.location }
            } else {
                let target = pending.last().0;
                parse_from(
                    toks.drop_first(),
                    program.update(
                        target as int,
                        Instruction::JmpForward(program.len() as usize),
                    ).push(Instruction::JmpBackward((target + 1) as usize)),
                    pending.drop_last(),
                )
            }
        } else {
            let n = 1 + run_len(toks.drop_first(), t.symbol);
            parse_from(toks.skip(n as int), program.push(instruction_of(t.symbol, n as usize)), pending)
        }
    }
}

#[via_fn]
proof fn parse_from_decreases(
    toks: Seq<Token>,
    program: Seq<Instruction>,
    pending: Seq<(usize, Location)>,
) {
    if toks.len() > 0 && toks[0].symbol != SYM_OPEN && toks[0].symbol != SYM_CLOSE {
        crate::lexer::lemma_run_len_prefix(toks.drop_first(), toks[0].symbol);
    }
}

/// Every token of the stream carries a symbol of the alphabet; true of every
/// stream a lexer produces.
pub open spec fn only_symbol_tokens(toks: Seq<Token>) -> bool {
    forall|j: int| 0 <= j < toks.len() ==> is_symbol_byte(#[trigger] toks[j].symbol)
}

/// The brackets of `toks` are properly nested and balanced, starting with
/// `depth` brackets already open: no prefix closes more than it has open,
/// and everything open is closed by the end.
pub open spec fn balanced_from(toks: Seq<Token>, depth: int) -> bool
    decreases toks.len(),
{
    if toks.len() == 0 {
        depth == 0
    } else if toks[0].symbol == SYM_OPEN {
        balanced_from(toks.drop_first(), depth + 1)
    } else if toks[0].symbol == SYM_CLOSE {
        depth > 0 && balanced_from(toks.drop_first(), depth - 1)
    } else {
        balanced_from(toks.drop_first(), depth)
    }
}

/// The brackets of `toks` are properly nested and balanced.
pub open spec fn balanced(toks: Seq<Token>) -> bool {
    balanced_from(toks, 0)
}

/// The location of the first `]` met with no unmatched `[` before it, when
/// scanning `toks` with `depth` brackets already open.
pub open spec fn first_unmatched_close(toks: Seq<Token>, depth: int) -> Option<Location>
    decreases toks.len(),
{
    if toks.len() == 0 {
        None
    } else if toks[0].symbol == SYM_OPEN {
        first_unmatched_close(toks.drop_first(), depth + 1)
    } else if toks[0].symbol == SYM_CLOSE {
        if depth <= 0 {
            Some(toks[0].location)
        } else {
            first_unmatched_close(toks.drop_first(), depth - 1)
        }
    } else {
        first_unmatched_close(toks.drop_first(), depth)
    }
}

/// Every jump instruction's target lies within `[0, len(program))`.
pub open spec fn jump_targets_in_bounds(program: Seq<Instruction>) -> bool {
    forall|i: int|
        0 <= i < program.len() ==> match #[trigger] program[i] {
            Instruction::JmpForward(target) => target < program.len(),
            Instruction::JmpBackward(target) => target < program.len(),
            _ => true,
        }
}

proof fn lemma_balanced_from_skip(toks: Seq<Token>, depth: int, k: int)
    requires
        0 <= k <= toks.len(),
        forall|j: int|
            0 <= j < k ==> (#[trigger] toks[j]).symbol != SYM_OPEN && toks[j].symbol != SYM_CLOSE,
    ensures
        balanced_from(toks.skip(k), depth) == balanced_from(toks, depth),
    decreases k,
{
    if k > 0 {
        assert forall|j: int| 0 <= j < k - 1 implies (#[trigger] toks.drop_first()[j]).symbol
            != SYM_OPEN && toks.drop_first()[j].symbol != SYM_CLOSE by {
            assert(toks.drop_first()[j] == toks[j + 1]);
        }
        lemma_balanced_from_skip(toks.drop_first(), depth, k - 1);
        assert(toks.drop_first().skip(k - 1) =~= toks.skip(k));
    } else {
        assert(toks.skip(0) =~= toks);
    }
}

proof fn lemma_first_unmatched_close_skip(toks: Seq<Token>, depth: int, k: int)
    requires
        0 <= k <= toks.len(),
        forall|j: int|
            0 <= j < k ==> (#[trigger] toks[j]).symbol != SYM_OPEN && toks[j].symbol != SYM_CLOSE,
    ensures
        first_unmatched_close(toks.skip(k), depth) == first_unmatched_close(toks, depth),
    decreases k,
{
    if k > 0 {
        assert forall|j: int| 0 <= j < k - 1 implies (#[trigger] toks.drop_first()[j]).symbol
            != SYM_OPEN && toks.drop_first()[j].symbol != SYM_CLOSE by {
            assert(toks.drop_first()[j] == toks[j + 1]);
        }
        lemma_first_unmatched_close_skip(toks.drop_first(), depth, k - 1);
        assert(toks.drop_first().skip(k - 1) =~= toks.skip(k));
    } else {
        assert(toks.skip(0) =~= toks);
    }
}

proof fn lemma_parse_from_balanced(
    toks: Seq<Token>,
    program: Seq<Instruction>,
    pending: Seq<(usize, Location)>,
)
    requires
        only_symbol_tokens(toks),
        balanced_from(toks, pending.len() as int),
        jump_targets_in_bounds(program),
        forall|i: int| 0 <= i < pending.len() ==> (#[trigger] pending[i]).0 < program.len(),
    ensures
        parse_from(toks, program, pending) is Parsed,
        jump_targets_in_bounds(parse_from(toks, program, pending)->program),
    decreases toks.len(),
{
    if toks.len() == 0 {
    } else {
        let t = toks[0];
        assert(is_symbol_byte(t.symbol));
        assert forall|j: int| 0 <= j < toks.drop_first().len() implies is_symbol_byte(
            (#[trigger] toks.drop_first()[j]).symbol,
        ) by {
            assert(toks.drop_first()[j] == toks[j + 1]);
        }
        if t.symbol == SYM_OPEN {
            let program2 = program.push(Instruction::JmpForward(0));
            let pending2 = pending.push((program.len() as usize, t.location));
            assert(jump_targets_in_bounds(program2)) by {
                assert forall|i: int| 0 <= i < program2.len() implies match #[trigger] program2[i] {
                    Instruction::JmpForward(target) => target < program2.len(),
                    Instruction::JmpBackward(target) => target < program2.len(),
                    _ => true,
                } by {
                    if i < program.len() {
                        assert(program2[i] == program[i]);
                    }
                }
            }
            lemma_parse_from_balanced(toks.drop_first(), program2, pending2);
        } else if t.symbol == SYM_CLOSE {
            assert(pending.len() > 0);
            let target = pending.last().0;
            let program2 = program.update(
                target as int,
                Instruction::JmpForward(program.len() as usize),
            ).push(Instruction::JmpBackward((target + 1) as usize));
            assert(jump_targets_in_bounds(program2)) by {
                assert forall|i: int| 0 <= i < program2.len() implies match #[trigger] program2[i] {
                    Instruction::JmpForward(target2) => target2 < program2.len(),
                    Instruction::JmpBackward(target2) => target2 < program2.len(),
                    _ => true,
                } by {
                    if i < program.len() && i != target {
                        assert(program2[i] == program[i]);
                    }
                }
            }
            lemma_parse_from_balanced(toks.drop_first(), program2, pending.drop_last());
        } else {
            let n = 1 + run_len(toks.drop_first(), t.symbol);
            crate::lexer::lemma_run_len_prefix(toks.drop_first(), t.symbol);
            assert forall|j: int| 0 <= j < n implies (#[trigger] toks[j]).symbol != SYM_OPEN
                && toks[j].symbol != SYM_CLOSE by {
                if j > 0 {
                    assert(toks.drop_first()[j - 1] == toks[j]);
                    assert(toks[j].symbol == t.symbol);
                }
            }
            lemma_balanced_from_skip(toks, pending.len() as int, n as int);
            let program2 = program.push(instruction_of(t.symbol, n as usize));
            assert(jump_targets_in_bounds(program2)) by {
                assert forall|i: int| 0 <= i < program2.len() implies match #[trigger] program2[i] {
                    Instruction::JmpForward(target) => target < program2.len(),
                    Instruction::JmpBackward(target) => target < program2.len(),
                    _ => true,
                } by {
                    if i < program.len() {
                        assert(program2[i] == program[i]);
                    }
                }
            }
            assert forall|j: int| 0 <= j < toks.skip(n as int).len() implies is_symbol_byte(
                (#[trigger] toks.skip(n as int)[j]).symbol,
            ) by {
                assert(toks.skip(n as int)[j] == toks[j + n]);
            }
            lemma_parse_from_balanced(toks.skip(n as int), program2, pending);
        }
    }
}

/// Law: for any token stream whose brackets are properly nested and
/// balanced, parsing succeeds, and every jump instruction's target in the
/// resulting program lies within `[0, len(program))`.
pub proof fn lemma_balanced_parse_succeeds(toks: Seq<Token>)
    requires
        only_symbol_tokens(toks),
        balanced(toks),
    ensures
        parse_from(toks, Seq::empty(), Seq::empty()) is Parsed,
        jump_targets_in_bounds(parse_from(toks, Seq::empty(), Seq::empty())->program),
{
    lemma_parse_from_balanced(toks, Seq::empty(), Seq::empty());
}

proof fn lemma_parse_from_unmatched_close(
    toks: Seq<Token>,
    program: Seq<Instruction>,
    pending: Seq<(usize, Location)>,
    position: Location,
)
    requires
        first_unmatched_close(toks, pending.len() as int) == Some(position),
    ensures
        parse_from(toks, program, pending) == (ParseOutcome::UnmatchedClose { position }),
    decreases toks.len(),
{
    let t = toks[0];
    if t.symbol == SYM_OPEN {
        lemma_parse_from_unmatched_close(
            toks.drop_first(),
            program.push(Instruction::JmpForward(0)),
            pending.push((program.len() as usize, t.location)),
            position,
        );
    } else if t.symbol == SYM_CLOSE {
        if pending.len() > 0 {
            let target = pending.last().0;
            lemma_parse_from_unmatched_close(
                toks.drop_first(),
                program.update(
                    target as int,
                    Instruction::JmpForward(program.len() as usize),
                ).push(Instruction::JmpBackward((target + 1) as usize)),
                pending.drop_last(),
                position,
            );
        }
    } else {
        let n = 1 + run_len(toks.drop_first(), t.symbol);
        crate::lexer::lemma_run_len_prefix(toks.drop_first(), t.symbol);
        assert forall|j: int| 0 <= j < n implies (#[trigger] toks[j]).symbol != SYM_OPEN
            && toks[j].symbol != SYM_CLOSE by {
            if j > 0 {
                assert(toks.drop_first()[j - 1] == toks[j]);
                assert(toks[j].symbol == t.symbol);
            }
        }
        lemma_first_unmatched_close_skip(toks, pending.len() as int, n as int);
        lemma_parse_from_unmatched_close(
            toks.skip(n as int),
            program.push(instruction_of(t.symbol, n as usize)),
            pending,
            position,
        );
    }
}

/// Law: a `]` met while no `[` is unmatched makes the parse fail with an
/// unmatched-close-bracket error carrying exactly that token's line and
/// column.
pub proof fn lemma_unmatched_close_reported(toks: Seq<Token>, position: Location)
    requires
        first_unmatched_close(toks, 0) == Some(position),
    ensures
        parse_from(toks, Seq::empty(), Seq::empty()) == (ParseOutcome::UnmatchedClose {
            position,
        }),
{
    lemma_parse_from_unmatched_close(toks, Seq::empty(), Seq::empty(), position);
}

proof fn lemma_parse_from_unmatched_open(
    toks: Seq<Token>,
    program: Seq<Instruction>,
    pending: Seq<(usize, Location)>,
)
    requires
        first_unmatched_close(toks, pending.len() as int) is None,
        !balanced_from(toks, pending.len() as int),
    ensures
        parse_from(toks, program, pending) is UnmatchedOpen,
        parse_from(toks, program, pending)->positions.len() > 0,
    decreases toks.len(),
{
    if toks.len() == 0 {
        assert(pending.len() > 0);
    } else {
        let t = toks[0];
        if t.symbol == SYM_OPEN {
            lemma_parse_from_unmatched_open(
                toks.drop_first(),
                program.push(Instruction::JmpForward(0)),
                pending.push((program.len() as usize, t.location)),
            );
        } else if t.symbol == SYM_CLOSE {
            assert(pending.len() > 0);
            let target = pending.last().0;
            lemma_parse_from_unmatched_open(
                toks.drop_first(),
                program.update(
                    target as int,
                    Instruction::JmpForward(program.len() as usize),
                ).push(Instruction::JmpBackward((target + 1) as usize)),
                pending.drop_last(),
            );
        } else {
            let n = 1 + run_len(toks.drop_first(), t.symbol);
            crate::lexer::lemma_run_len_prefix(toks.drop_first(), t.symbol);
            assert forall|j: int| 0 <= j < n implies (#[trigger] toks[j]).symbol != SYM_OPEN
                && toks[j].symbol != SYM_CLOSE by {
                if j > 0 {
                    assert(toks.drop_first()[j - 1] == toks[j]);
                    assert(toks[j].symbol == t.symbol);
                }
            }
            lemma_first_unmatched_close_skip(toks, pending.len() as int, n as int);
            lemma_balanced_from_skip(toks, pending.len() as int, n as int);
            lemma_parse_from_unmatched_open(
                toks.skip(n as int),
                program.push(instruction_of(t.symbol, n as usize)),
                pending,
            );
        }
    }
}

/// Law: a stream that leaves open brackets unresolved at its end — none of
/// its `]` is unmatched, yet its brackets do not balance — makes the parse
/// fail with an unmatched-open-bracket error listing at least one position.
pub proof fn lemma_unmatched_open_reported(toks: Seq<Token>)
    requires
        first_unmatched_close(toks, 0) is None,
        !balanced(toks),
    ensures
        parse_from(toks, Seq::empty(), Seq::empty()) is UnmatchedOpen,
        parse_from(toks, Seq::empty(), Seq::empty())->positions.len() > 0,
{
    lemma_parse_from_unmatched_open(toks, Seq::empty(), Seq::empty());
}

/// Law: a stream of `n` consecutive identical movement, arithmetic or
/// byte-transfer symbols compiles to exactly one instruction carrying count
/// `n`, not `n` separate instructions.
pub proof fn lemma_run_compresses_to_one_instruction(toks: Seq<Token>, symbol: u8, n: usize)
    requires
        1 <= n,
        toks.len() == n,
        forall|j: int| 0 <= j < toks.len() ==> (#[trigger] toks[j]).symbol == symbol,
        is_symbol_byte(symbol),
        symbol != SYM_OPEN,
        symbol != SYM_CLOSE,
    ensures
        parse_from(toks, Seq::empty(), Seq::empty()) == (ParseOutcome::Parsed {
            program: seq![instruction_of(symbol, n)],
        }),
{
    assert forall|j: int| 0 <= j < toks.drop_first().len() implies (#[trigger] toks.drop_first()[
        j
    ]).symbol == symbol by {
        assert(toks.drop_first()[j] == toks[j + 1]);
    }
    crate::lexer::lemma_run_len_uniform(toks.drop_first(), symbol);
    assert(1 + run_len(toks.drop_first(), symbol) == n);
    assert(toks.skip(n as int) =~= Seq::<Token>::empty());
    reveal_with_fuel(parse_from, 2);
    assert(Seq::<Instruction>::empty().push(instruction_of(symbol, n)) =~= seq![
        instruction_of(symbol, n),
    ]);
}

/// Single pass over the token stream: a pending-jump stack of placeholder
/// indices and the program built so far.
pub struct Parser {
    pub forward_jmps: Vec<(usize, Location)>,
    pub program: Program,
}

impl Default for Parser {
    fn default() -> (r: Self)
        ensures
            r.forward_jmps@ == Seq::<(usize, Location)>::empty(),
            r.program@ == Seq::<Instruction>::empty(),
    {
        Self { forward_jmps: Vec::new(), program: Vec::new() }
    }
}

impl Parser {
    /// Every pending placeholder index lies inside the program built so far.
    pub open spec fn wf(&self) -> bool {
        forall|i: int|
            0 <= i < self.forward_jmps@.len() ==> (#[trigger] self.forward_jmps@[i]).0
                < self.program@.len()
    }

    /// Handles one token whose run, if any, still sits in the lexer: emits
    /// the counted instruction for a movement/arithmetic/byte-transfer
    /// symbol, records a placeholder for `[`, and pops and backpatches the
    /// pending placeholder for `]`. The caller appends the returned
    /// instruction to the program.
    pub fn parse_instruction(&mut self, lexer: &mut Lexer, token: &Token) -> (r: Result<
        Instruction,
        ParseError,
    >)
        requires
            old(self).wf(),
            old(lexer).wf(),
            is_symbol_byte(token.symbol),
        ensures
            final(lexer).wf(),
            final(lexer).source@ == old(lexer).source@,
            ({
                let sym = token.symbol;
                let toks = old(lexer).remaining();
                if sym == SYM_OPEN {
                    &&& r == Ok::<Instruction, ParseError>(Instruction::JmpForward(0))
                    &&& final(self).program@ == old(self).program@
                    &&& final(self).forward_jmps@ == old(self).forward_jmps@.push(
                        (old(self).program@.len() as usize, token.location),
                    )
                    &&& final(lexer).remaining() == toks
                } else if sym == SYM_CLOSE {
                    if old(self).forward_jmps@.len() == 0 {
                        &&& r == Err::<Instruction, ParseError>(
                            ParseError::UnmatchedCloseBracket { position: token.location },
                        )
                        &&& final(self).program@ == old(self).program@
                        &&& final(self).forward_jmps@ == old(self).forward_jmps@
                        &&& final(lexer).remaining() == toks
                    } else {
                        let target = old(self).forward_jmps@.last().0;
                        &&& r == Ok::<Instruction, ParseError>(
                            Instruction::JmpBackward((target + 1) as usize),
                        )
                        &&& final(self).program@ == old(self).program@.update(
                            target as int,
                            Instruction::JmpForward(old(self).program@.len() as usize),
                        )
                        &&& final(self).forward_jmps@ == old(self).forward_jmps@.drop_last()
                        &&& final(lexer).remaining() == toks
                    }
                } else {
                    let n = 1 + run_len(toks, sym);
                    &&& r == Ok::<Instruction, ParseError>(instruction_of(sym, n as usize))
                    &&& final(self).program@ == old(self).program@
                    &&& final(self).forward_jmps@ == old(self).forward_jmps@
                    &&& final(lexer).remaining() == toks.skip(run_len(toks, sym) as int)
                }
            }),
    {
        let symbol = token.symbol;
        if symbol == SYM_OPEN {
            self.forward_jmps.push((self.program.len(), token.location));
            Ok(Instruction::JmpForward(0))
        } else if symbol == SYM_CLOSE {
            match self.forward_jmps.pop() {
                Some(entry) => {
                    let len = self.program.len();
                    self.program.set(entry.0, Instruction::JmpForward(len));
                    Ok(Instruction::JmpBackward(entry.0 + 1))
                },
                None => Err(ParseError::UnmatchedCloseBracket { position: token.location }),
            }
        } else {
            proof {
                lexer.lemma_remaining_le_source();
                crate::lexer::lemma_run_len_prefix(lexer.remaining(), token.symbol);
            }
            let count = lexer.count_while(token);
            let total = 1 + count;
            if symbol == SYM_LEFT {
                Ok(Instruction::AddressLeft(total))
            } else if symbol == SYM_RIGHT {
                Ok(Instruction::AddressRight(total))
            } else if symbol == SYM_PLUS {
                Ok(Instruction::Inc(total))
            } else if symbol == SYM_MINUS {
                Ok(Instruction::Dec(total))
            } else if symbol == SYM_DOT {
                Ok(Instruction::Output(total))
            } else {
                Ok(Instruction::Input(total))
            }
        }
    }

    /// Consumes the lexer fully and builds the program, or reports the first
    /// `]` met with nothing pending, or the locations of the `[`s still
    /// pending when the stream ends.
    pub fn parse_program(&mut self, lexer: &mut Lexer) -> (r: Result<Program, ParseError>)
        requires
            old(lexer).wf(),
        ensures
            final(lexer).wf(),
            final(lexer).source@ == old(lexer).source@,
            match r {
                Ok(program) => parse_from(old(lexer).remaining(), Seq::empty(), Seq::empty())
                    == (ParseOutcome::Parsed { program: program@ })
                    && final(lexer).remaining().len() == 0,
                Err(e) => match e {
                    ParseError::UnmatchedCloseBracket { position } => parse_from(
                        old(lexer).remaining(),
                        Seq::empty(),
                        Seq::empty(),
                    ) == (ParseOutcome::UnmatchedClose { position }),
                    ParseError::UnmatchedOpenBracket { positions } => parse_from(
                        old(lexer).remaining(),
                        Seq::empty(),
                        Seq::empty(),
                    ) == (ParseOutcome::UnmatchedOpen { positions: positions@ })
                        && final(lexer).remaining().len() == 0,
                },
            },
    {
        self.program = Vec::new();
        self.forward_jmps = Vec::new();
        loop
            invariant
                self.wf(),
                lexer.wf(),
                lexer.source@ == old(lexer).source@,
                parse_from(old(lexer).remaining(), Seq::empty(), Seq::empty()) == parse_from(
                    lexer.remaining(),
                    self.program@,
                    self.forward_jmps@,
                ),
            decreases lexer.remaining().len(),
        {
            proof {
                lexer.lemma_remaining_symbols();
            }
            let ghost pre_toks = lexer.remaining();
            let t_opt = lexer.slice_token();
            match t_opt {
                None => {
                    if self.forward_jmps.len() == 0 {
                        return Ok(self.program.clone());
                    } else {
                        let mut positions: Vec<Location> = Vec::new();
                        let mut i: usize = 0;
                        while i < self.forward_jmps.len()
                            invariant
                                i <= self.forward_jmps@.len(),
                                positions@ == pending_positions(self.forward_jmps@.take(i as int)),
                            decreases self.forward_jmps@.len() - i,
                        {
                            let entry = self.forward_jmps[i];
                            positions.push(entry.1);
                            i = i + 1;
                            proof {
                                assert(pending_positions(self.forward_jmps@.take(i as int))
                                    =~= pending_positions(
                                    self.forward_jmps@.take(i - 1),
                                ).push(self.forward_jmps@[i - 1].1));
                            }
                        }
                        proof {
                            assert(self.forward_jmps@.take(i as int) =~= self.forward_jmps@);
                        }
                        return Err(ParseError::UnmatchedOpenBracket { positions });
                    }
                },
                Some(token) => {
                    proof {
                        assert(pre_toks =~= seq![token] + lexer.remaining());
                    }
                    let ghost pre_prog = self.program@;
                    let ghost pre_pend = self.forward_jmps@;
                    let ghost mid_toks = lexer.remaining();
                    let result = self.parse_instruction(lexer, &token);
                    match result {
                        Ok(instruction) => {
                            self.program.push(instruction);
                            proof {
                                if token.symbol == SYM_OPEN || token.symbol == SYM_CLOSE {
                                    assert(lexer.remaining() =~= pre_toks.drop_first());
                                } else {
                                    let k = run_len(mid_toks, token.symbol);
                                    crate::lexer::lemma_run_len_prefix(mid_toks, token.symbol);
                                    assert(lexer.remaining() =~= pre_toks.skip(1 + k as int));
                                }
                            }
                        },
                        Err(e) => {
                            return Err(e);
                        },
                    }
                },
            }
        }
    }
}

} // verus!
