//! The escape-sequence state machine.
//!
//! [`step`] says what one byte does to the machine, [`run`] folds it over a
//! chunk, and [`emitted`] is what a call of [`AnsiParser::push`] hands out.

use crate::ansi::{
    csi_intermediate, csi_param, csi_terminator, extract_param, is_csi_intermediate, is_csi_param,
    is_csi_terminator, ops_view, param_at, param_of, params_of, parse_param_as_usize, sgr_of,
    split_params_into_semicolon_delimited_usize, Operation, SelectGraphicRendition, TerminalOutput,
};
use vstd::prelude::*;

verus! {

/// Where the CSI sub-machine stands within one sequence.
#[derive(Clone, Copy, Debug, PartialEq, Eq, Structural)]
pub enum CsiParserState {
    Params,
    Intermediates,
    Finished(u8),
    Invalid,
    InvalidFinished,
}

/// Whether the sub-machine has reached the end of its sequence.
pub open spec fn csi_done(state: CsiParserState) -> bool {
    state is Finished || state is InvalidFinished
}

/// Accumulates the bytes of one CSI sequence.
pub struct CsiParser {
    pub state: CsiParserState,
    pub params: Vec<u8>,
    pub intermediates: Vec<u8>,
}

/// The mathematical value of a [`CsiParser`].
pub struct CsiView {
    pub state: CsiParserState,
    pub params: Seq<u8>,
    pub intermediates: Seq<u8>,
}

impl View for CsiParser {
    type V = CsiView;

    open spec fn view(&self) -> CsiView {
        CsiView { state: self.state, params: self.params@, intermediates: self.intermediates@ }
    }
}

/// The sub-machine at the start of a sequence.
pub open spec fn csi_start() -> CsiView {
    CsiView {
        state: CsiParserState::Params,
        params: Seq::<u8>::empty(),
        intermediates: Seq::<u8>::empty(),
    }
}

/// What one byte does to a sub-machine that has not finished.
pub open spec fn csi_step(p: CsiView, b: u8) -> CsiView {
    match p.state {
        CsiParserState::Params => {
            if csi_param(b) {
                CsiView { params: p.params.push(b), ..p }
            } else if csi_intermediate(b) {
                CsiView {
                    state: CsiParserState::Intermediates,
                    intermediates: p.intermediates.push(b),
                    ..p
                }
            } else if csi_terminator(b) {
                CsiView { state: CsiParserState::Finished(b), ..p }
            } else {
                CsiView { state: CsiParserState::Invalid, ..p }
            }
        },
        CsiParserState::Intermediates => {
            if csi_param(b) {
                CsiView { state: CsiParserState::Invalid, ..p }
            } else if csi_intermediate(b) {
                CsiView { intermediates: p.intermediates.push(b), ..p }
            } else if csi_terminator(b) {
                CsiView { state: CsiParserState::Finished(b), ..p }
            } else {
                CsiView { state: CsiParserState::Invalid, ..p }
            }
        },
        CsiParserState::Invalid => {
            if csi_terminator(b) {
                CsiView { state: CsiParserState::InvalidFinished, ..p }
            } else {
                p
            }
        },
        _ => p,
    }
}

impl CsiParser {
    /// A sub-machine at the start of a sequence.
    pub fn new() -> (r: CsiParser)
        ensures
            r@ == csi_start(),
    {
        CsiParser { state: CsiParserState::Params, params: Vec::new(), intermediates: Vec::new() }
    }

    /// Feeds one byte to a sub-machine that has not finished its sequence.
    pub fn push(&mut self, b: u8)
        requires
            !csi_done(old(self).state),
        ensures
            final(self)@ == csi_step(old(self)@, b),
    {
        match self.state {
            CsiParserState::Params => {
                if is_csi_param(b) {
                    self.params.push(b);
                } else if is_csi_intermediate(b) {
                    self.intermediates.push(b);
                    self.state = CsiParserState::Intermediates;
                } else if is_csi_terminator(b) {
                    self.state = CsiParserState::Finished(b);
                } else {
                    self.state = CsiParserState::Invalid;
                }
            },
            CsiParserState::Intermediates => {
                if is_csi_param(b) {
                    self.state = CsiParserState::Invalid;
                } else if is_csi_intermediate(b) {
                    self.intermediates.push(b);
                } else if is_csi_terminator(b) {
                    self.state = CsiParserState::Finished(b);
                } else {
                    self.state = CsiParserState::Invalid;
                }
            },
            CsiParserState::Invalid => {
                if is_csi_terminator(b) {
                    self.state = CsiParserState::InvalidFinished;
                }
            },
            CsiParserState::Finished(_) | CsiParserState::InvalidFinished => {
                vstd::pervasive::unreached::<()>();
            },
        }
    }
}

// ---------------------------------------------------------------------------
// What a finished sequence means
// ---------------------------------------------------------------------------

/// `H`: set the cursor's position.
pub const CURSOR_POSITION: u8 = 0x48;

/// `G`: set the cursor's column.
pub const CURSOR_COLUMN: u8 = 0x47;

/// `J`: erase in display.
pub const ERASE_IN_DISPLAY: u8 = 0x4a;

/// `m`: select graphic rendition.
pub const GRAPHIC_RENDITION: u8 = 0x6d;

/// `[`: after ESC, introduces a CSI sequence.
pub const CSI_INTRODUCER: u8 = 0x5b;

/// A parameter's value, or `default` where the field is absent.
pub open spec fn or_default(p: Option<usize>, default: usize) -> usize {
    match p {
        Some(v) => v,
        None => default,
    }
}

/// The operation that an erase-in-display code selects.
pub open spec fn erase_op(code: usize) -> Operation {
    if code == 0 {
        Operation::ClearForwards
    } else if code == 1 {
        Operation::ClearBackwards
    } else if code == 2 || code == 3 {
        Operation::ClearAll
    } else {
        Operation::Invalid
    }
}

/// The parameter list of an `m` sequence: a lone empty field stands for `0`.
pub open spec fn sgr_params(ps: Seq<Option<usize>>) -> Seq<Option<usize>> {
    if ps.len() == 1 && ps[0] is None {
        seq![Some(0usize)]
    } else {
        ps
    }
}

/// One `Sgr` operation for each parameter that is present, in order.
pub open spec fn sgr_ops(ps: Seq<Option<usize>>) -> Seq<Operation>
    decreases ps.len(),
{
    if ps.len() == 0 {
        Seq::<Operation>::empty()
    } else {
        match ps.last() {
            Some(v) => sgr_ops(ps.drop_last()).push(Operation::Sgr(sgr_of(v))),
            None => sgr_ops(ps.drop_last()),
        }
    }
}

/// The operations of a sequence that ended with `term` after the parameter
/// bytes `params`.
pub open spec fn finish_ops(term: u8, params: Seq<u8>) -> Seq<Operation> {
    if term == CURSOR_POSITION {
        match params_of(params) {
            Ok(ps) => seq![
                Operation::SetCursorPos {
                    x: Some(or_default(param_at(0, ps), 1)),
                    y: Some(or_default(param_at(1, ps), 1)),
                },
            ],
            Err(_) => seq![Operation::Invalid],
        }
    } else if term == CURSOR_COLUMN {
        match param_of(params) {
            Ok(p) => seq![Operation::SetCursorPos { x: Some(or_default(p, 1)), y: None }],
            Err(_) => seq![Operation::Invalid],
        }
    } else if term == ERASE_IN_DISPLAY {
        match param_of(params) {
            Ok(p) => seq![erase_op(or_default(p, 0))],
            Err(_) => seq![Operation::Invalid],
        }
    } else if term == GRAPHIC_RENDITION {
        match params_of(params) {
            Ok(ps) => sgr_ops(sgr_params(ps)),
            Err(_) => seq![Operation::Invalid],
        }
    } else {
        seq![Operation::Invalid]
    }
}

fn emit(output: &mut Vec<TerminalOutput>, op: TerminalOutput)
    ensures
        ops_view(final(output)@) == ops_view(old(output)@).push(op@),
{
    output.push(op);
    proof {
        assert(ops_view(output@) =~= ops_view(old(output)@).push(op@));
    }
}

fn unwrap_or(p: Option<usize>, default: usize) -> (r: usize)
    ensures
        r == or_default(p, default),
{
    match p {
        Some(v) => v,
        None => default,
    }
}

/// Appends to `output` the operations of a sequence that ended with `term`.
fn finish_csi(term: u8, params: &Vec<u8>, output: &mut Vec<TerminalOutput>)
    ensures
        ops_view(final(output)@) == ops_view(old(output)@) + finish_ops(term, params@),
{
    let ghost before = ops_view(output@);
    if term == CURSOR_POSITION {
        match split_params_into_semicolon_delimited_usize(params.as_slice()) {
            Ok(ps) => {
                let x = unwrap_or(extract_param(0, ps.as_slice()), 1);
                let y = unwrap_or(extract_param(1, ps.as_slice()), 1);
                emit(output, TerminalOutput::SetCursorPos { x: Some(x), y: Some(y) });
            },
            Err(_) => {
                emit(output, TerminalOutput::Invalid);
            },
        }
    } else if term == CURSOR_COLUMN {
        match parse_param_as_usize(params.as_slice()) {
            Ok(p) => {
                emit(output, TerminalOutput::SetCursorPos { x: Some(unwrap_or(p, 1)), y: None });
            },
            Err(_) => {
                emit(output, TerminalOutput::Invalid);
            },
        }
    } else if term == ERASE_IN_DISPLAY {
        match parse_param_as_usize(params.as_slice()) {
            Ok(p) => {
                let code = unwrap_or(p, 0);
                let op = if code == 0 {
                    TerminalOutput::ClearForwards
                } else if code == 1 {
                    TerminalOutput::ClearBackwards
                } else if code == 2 || code == 3 {
                    TerminalOutput::ClearAll
                } else {
                    TerminalOutput::Invalid
                };
                emit(output, op);
            },
            Err(_) => {
                emit(output, TerminalOutput::Invalid);
            },
        }
    } else if term == GRAPHIC_RENDITION {
        match split_params_into_semicolon_delimited_usize(params.as_slice()) {
            Ok(ps) => {
                let mut ps = ps;
                if ps.len() == 1 && ps[0].is_none() {
                    ps.set(0, Some(0));
                }
                assert(ps@ =~= sgr_params(params_of(params@).unwrap()));
                let mut j: usize = 0;
                while j < ps.len()
                    invariant
                        j <= ps.len(),
                        ops_view(output@) == before + sgr_ops(ps@.take(j as int)),
                    decreases ps.len() - j,
                {
                    proof {
                        assert(ps@.take(j + 1).drop_last() =~= ps@.take(j as int));
                    }
                    match ps[j] {
                        Some(v) => {
                            emit(output, TerminalOutput::Sgr(SelectGraphicRendition::from_usize(v)));
                        },
                        None => {},
                    }
                    j += 1;
                }
                proof {
                    assert(ps@.take(ps@.len() as int) =~= ps@);
                }
            },
            Err(_) => {
                emit(output, TerminalOutput::Invalid);
            },
        }
    } else {
        emit(output, TerminalOutput::Invalid);
    }
}

// ---------------------------------------------------------------------------
// The outer machine
// ---------------------------------------------------------------------------

enum AnsiParserInner {
    Empty,
    Escape,
    Csi(CsiParser),
}

/// The state of the outer machine between two bytes.
pub enum ParserState {
    /// Outside any escape sequence.
    Empty,
    /// Just after an ESC byte.
    Escape,
    /// Inside a CSI sequence.
    Csi(CsiView),
}

/// A CSI sub-machine kept by the outer machine has never finished: the outer
/// machine consumes a finished sequence in the step that finishes it.
pub open spec fn state_ok(s: ParserState) -> bool {
    match s {
        ParserState::Csi(p) => !csi_done(p.state),
        _ => true,
    }
}

/// The machine in the middle of a chunk: its state, the literal bytes not yet
/// handed out, and the operations decoded so far.
pub struct Trace {
    pub state: ParserState,
    pub pending: Seq<u8>,
    pub ops: Seq<Operation>,
}

/// The byte that starts an escape sequence.
pub const ESC: u8 = 0x1b;

/// The pending literal bytes as one `Data` operation, or nothing if there are none.
pub open spec fn flush(pending: Seq<u8>) -> Seq<Operation> {
    if pending.len() > 0 {
        seq![Operation::Data(pending)]
    } else {
        Seq::<Operation>::empty()
    }
}

/// What one byte does to the machine.
pub open spec fn step(t: Trace, b: u8) -> Trace {
    match t.state {
        ParserState::Empty => {
            if b == ESC {
                Trace { state: ParserState::Escape, ..t }
            } else {
                Trace { pending: t.pending.push(b), ..t }
            }
        },
        ParserState::Escape => {
            let next = if b == CSI_INTRODUCER {
                ParserState::Csi(csi_start())
            } else {
                ParserState::Empty
            };
            Trace { state: next, pending: Seq::<u8>::empty(), ops: t.ops + flush(t.pending) }
        },
        ParserState::Csi(p) => {
            let q = csi_step(p, b);
            match q.state {
                CsiParserState::Finished(term) => Trace {
                    state: ParserState::Empty,
                    ops: t.ops + finish_ops(term, q.params),
                    ..t
                },
                CsiParserState::InvalidFinished => Trace {
                    state: ParserState::Empty,
                    ops: t.ops.push(Operation::Invalid),
                    ..t
                },
                _ => Trace { state: ParserState::Csi(q), ..t },
            }
        },
    }
}

/// The machine after the bytes of `bytes`, one after the other.
pub open spec fn run(t: Trace, bytes: Seq<u8>) -> Trace
    decreases bytes.len(),
{
    if bytes.len() == 0 {
        t
    } else {
        step(run(t, bytes.drop_last()), bytes.last())
    }
}

/// The machine at the start of a chunk.
pub open spec fn start_of_chunk(state: ParserState) -> Trace {
    Trace { state, pending: Seq::<u8>::empty(), ops: Seq::<Operation>::empty() }
}

/// The machine at the end of a chunk that it began in `state`.
pub open spec fn parse(state: ParserState, bytes: Seq<u8>) -> Trace {
    run(start_of_chunk(state), bytes)
}

/// The operations handed out for a chunk: those decoded, then the literal
/// bytes still pending at its end.
pub open spec fn emitted(state: ParserState, bytes: Seq<u8>) -> Seq<Operation> {
    parse(state, bytes).ops + flush(parse(state, bytes).pending)
}

/// Decodes a byte stream, chunk by chunk, into terminal operations.
pub struct AnsiParser {
    inner: AnsiParserInner,
}

impl View for AnsiParser {
    type V = ParserState;

    closed spec fn view(&self) -> ParserState {
        match self.inner {
            AnsiParserInner::Empty => ParserState::Empty,
            AnsiParserInner::Escape => ParserState::Escape,
            AnsiParserInner::Csi(p) => ParserState::Csi(p@),
        }
    }
}

impl AnsiParser {
    /// The invariant of a parser between two calls.
    pub open spec fn wf(&self) -> bool {
        state_ok(self@)
    }

    /// A parser outside any sequence.
    pub fn new() -> (r: AnsiParser)
        ensures
            r@ == ParserState::Empty,
            r.wf(),
    {
        AnsiParser { inner: AnsiParserInner::Empty }
    }

    /// Decodes one chunk.  The parser keeps its state, so a sequence may be
    /// split over two chunks.
    pub fn push(&mut self, incoming: &[u8]) -> (out: Vec<TerminalOutput>)
        requires
            old(self).wf(),
        ensures
            final(self).wf(),
            final(self)@ == parse(old(self)@, incoming@).state,
            ops_view(out@) == emitted(old(self)@, incoming@),
    {
        let mut output: Vec<TerminalOutput> = Vec::new();
        let mut data_output: Vec<u8> = Vec::new();
        let ghost init = start_of_chunk(self@);
        let n = incoming.len();
        let mut i: usize = 0;
        proof {
            assert(ops_view(output@) =~= Seq::<Operation>::empty());
        }
        while i < n
            invariant
                n == incoming@.len(),
                i <= n,
                self.wf(),
                self@ == run(init, incoming@.take(i as int)).state,
                data_output@ == run(init, incoming@.take(i as int)).pending,
                ops_view(output@) == run(init, incoming@.take(i as int)).ops,
            decreases n - i,
        {
            let b = incoming[i];
            let ghost before = run(init, incoming@.take(i as int));
            proof {
                assert(incoming@.take(i + 1).drop_last() =~= incoming@.take(i as int));
                assert(run(init, incoming@.take(i + 1)) == step(before, b));
            }
            match &mut self.inner {
                AnsiParserInner::Empty => {
                    if b == ESC {
                        self.inner = AnsiParserInner::Escape;
                    } else {
                        data_output.push(b);
                    }
                },
                AnsiParserInner::Escape => {
                    if data_output.len() > 0 {
                        let data = data_output;
                        data_output = Vec::new();
                        emit(&mut output, TerminalOutput::Data(data));
                    }
                    proof {
                        assert(ops_view(output@) =~= before.ops + flush(before.pending));
                        assert(data_output@ =~= Seq::<u8>::empty());
                    }
                    if b == CSI_INTRODUCER {
                        self.inner = AnsiParserInner::Csi(CsiParser::new());
                    } else {
                        self.inner = AnsiParserInner::Empty;
                    }
                },
                AnsiParserInner::Csi(parser) => {
                    parser.push(b);
                    match parser.state {
                        CsiParserState::Finished(term) => {
                            finish_csi(term, &parser.params, &mut output);
                            self.inner = AnsiParserInner::Empty;
                        },
                        CsiParserState::InvalidFinished => {
                            emit(&mut output, TerminalOutput::Invalid);
                            self.inner = AnsiParserInner::Empty;
                        },
                        _ => {},
                    }
                },
            }
            i += 1;
        }
        proof {
            assert(incoming@.take(n as int) =~= incoming@);
        }
        if data_output.len() > 0 {
            emit(&mut output, TerminalOutput::Data(data_output));
        }
        proof {
            assert(ops_view(output@) =~= emitted(old(self)@, incoming@));
        }
        output
    }
}

} // verus!
