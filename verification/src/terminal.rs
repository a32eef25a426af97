//! The terminal state model: a text buffer, a cursor and the colours of the
//! buffer, changed by the operations that the parser decodes.

use crate::ansi::{ops_view, Operation, TerminalOutput};
use crate::color::{color_of, overwritten, shown_end, ColorTag, ColorTracker, TerminalColor};
use crate::parser::{emitted, parse, AnsiParser, ParserState};
use std::ops::Range;
use vstd::prelude::*;

verus! {

/// Where the next byte goes, and in which colour.
#[derive(Clone, Copy, Debug, PartialEq, Eq, Structural)]
pub struct CursorState {
    pub x: usize,
    pub y: usize,
    pub color: TerminalColor,
}

/// The byte that ends a row of the buffer.
pub const NEWLINE: u8 = 0x0a;

// ---------------------------------------------------------------------------
// Cursor movement
// ---------------------------------------------------------------------------

/// The column of a cursor that stood in column `x` before `bytes` were
/// written: a newline goes back to column 0, any other byte moves one column on.
pub open spec fn column_after(x: int, bytes: Seq<u8>) -> int
    decreases bytes.len(),
{
    if bytes.len() == 0 {
        x
    } else if bytes.last() == NEWLINE {
        0
    } else {
        column_after(x, bytes.drop_last()) + 1
    }
}

/// The row of a cursor that stood in row `y` before `bytes` were written:
/// each newline moves one row down.
pub open spec fn row_after(y: int, bytes: Seq<u8>) -> int
    decreases bytes.len(),
{
    if bytes.len() == 0 {
        y
    } else if bytes.last() == NEWLINE {
        row_after(y, bytes.drop_last()) + 1
    } else {
        row_after(y, bytes.drop_last())
    }
}

/// Whether a cursor at column `x` of row `y` can move over `bytes` without
/// its column or its row ever leaving the range of `usize`.
pub open spec fn cursor_fits(x: int, y: int, bytes: Seq<u8>) -> bool {
    &&& row_after(y, bytes) <= usize::MAX
    &&& forall|k: int|
        0 <= k <= bytes.len() ==> #[trigger] column_after(x, bytes.take(k)) <= usize::MAX
}

proof fn lemma_row_prefix(y: int, bytes: Seq<u8>, k: int)
    requires
        0 <= k <= bytes.len(),
    ensures
        row_after(y, bytes.take(k)) <= row_after(y, bytes),
    decreases bytes.len() - k,
{
    if k < bytes.len() {
        lemma_row_prefix(y, bytes, k + 1);
        assert(bytes.take(k + 1).drop_last() =~= bytes.take(k));
    } else {
        assert(bytes.take(k) =~= bytes);
    }
}

proof fn lemma_cursor_bounds(x: int, y: int, bytes: Seq<u8>)
    requires
        0 <= x,
    ensures
        0 <= column_after(x, bytes) <= x + bytes.len(),
        y <= row_after(y, bytes) <= y + bytes.len(),
    decreases bytes.len(),
{
    if bytes.len() > 0 {
        lemma_cursor_bounds(x, y, bytes.drop_last());
    }
}

/// A cursor whose column and row would stay in range even if every byte
/// moved both can move over the bytes.
proof fn lemma_cursor_fits(x: int, y: int, bytes: Seq<u8>)
    requires
        0 <= x,
        x + bytes.len() <= usize::MAX,
        y + bytes.len() <= usize::MAX,
    ensures
        cursor_fits(x, y, bytes),
{
    lemma_cursor_bounds(x, y, bytes);
    assert forall|k: int| 0 <= k <= bytes.len() implies #[trigger] column_after(x, bytes.take(k))
        <= usize::MAX by {
        lemma_cursor_bounds(x, y, bytes.take(k));
    }
}

/// Moves the cursor over the bytes of `incoming`.
pub fn update_cursor(incoming: &[u8], cursor: &mut CursorState)
    requires
        cursor_fits(old(cursor).x as int, old(cursor).y as int, incoming@),
    ensures
        final(cursor).x == column_after(old(cursor).x as int, incoming@),
        final(cursor).y == row_after(old(cursor).y as int, incoming@),
        final(cursor).color == old(cursor).color,
{
    let n = incoming.len();
    let mut i: usize = 0;
    while i < n
        invariant
            n == incoming@.len(),
            i <= n,
            cursor_fits(old(cursor).x as int, old(cursor).y as int, incoming@),
            cursor.x == column_after(old(cursor).x as int, incoming@.take(i as int)),
            cursor.y == row_after(old(cursor).y as int, incoming@.take(i as int)),
            cursor.color == old(cursor).color,
        decreases n - i,
    {
        proof {
            assert(incoming@.take(i + 1).drop_last() =~= incoming@.take(i as int));
            lemma_row_prefix(old(cursor).y as int, incoming@, i + 1);
            assert(column_after(old(cursor).x as int, incoming@.take(i + 1)) <= usize::MAX);
        }
        if incoming[i] == NEWLINE {
            cursor.x = 0;
            cursor.y += 1;
        } else {
            cursor.x += 1;
        }
        i += 1;
    }
    proof {
        assert(incoming@.take(n as int) =~= incoming@);
    }
}

// ---------------------------------------------------------------------------
// From cursor to buffer offset
// ---------------------------------------------------------------------------

/// The offset at which row `y` starts: each of the first `y` rows of the
/// buffer counts with its length and one more for its newline.  A buffer
/// with fewer rows counts in full, its last row too.
pub open spec fn line_start(buf: Seq<u8>, y: nat) -> int
    decreases buf.len(),
{
    if y == 0 {
        0
    } else if buf.len() == 0 {
        1
    } else if buf[0] == NEWLINE {
        1 + line_start(buf.skip(1), (y - 1) as nat)
    } else {
        1 + line_start(buf.skip(1), y)
    }
}

/// The buffer offset that the cursor points at.
pub open spec fn cursor_offset(cursor: CursorState, buf: Seq<u8>) -> int {
    line_start(buf, cursor.y as nat) + cursor.x
}

proof fn lemma_line_start_bounds(buf: Seq<u8>, y: nat)
    ensures
        line_start(buf, y) <= buf.len() + 1,
        line_start(buf, y) >= 0,
        line_start(buf, y) <= buf.len() ==> y <= line_start(buf, y),
    decreases buf.len(),
{
    if y != 0 && buf.len() != 0 {
        if buf[0] == NEWLINE {
            lemma_line_start_bounds(buf.skip(1), (y - 1) as nat);
        } else {
            lemma_line_start_bounds(buf.skip(1), y);
        }
    }
}

/// The cursor's buffer offset, or `None` where it does not fit a `usize`.
pub fn checked_buffer_position(cursor_pos: &CursorState, buf: &[u8]) -> (r: Option<usize>)
    ensures
        match r {
            Some(pos) => pos == cursor_offset(*cursor_pos, buf@),
            None => cursor_offset(*cursor_pos, buf@) > usize::MAX,
        },
{
    let n = buf.len();
    let mut rows: usize = cursor_pos.y;
    let mut i: usize = 0;
    proof {
        assert(buf@.skip(0) =~= buf@);
    }
    while i < n && rows > 0
        invariant
            n == buf@.len(),
            i <= n,
            line_start(buf@, cursor_pos.y as nat) == i + line_start(buf@.skip(i as int), rows as nat),
        decreases n - i,
    {
        proof {
            assert(buf@.skip(i as int).skip(1) =~= buf@.skip(i + 1));
            assert(buf@.skip(i as int)[0] == buf@[i as int]);
        }
        if buf[i] == NEWLINE {
            rows -= 1;
        }
        i += 1;
    }
    let start = if rows == 0 {
        i
    } else if n == usize::MAX {
        return None;
    } else {
        n + 1
    };
    if cursor_pos.x > usize::MAX - start {
        None
    } else {
        Some(start + cursor_pos.x)
    }
}

/// The buffer offset that the cursor points at.
pub fn cursor_to_buffer_position(cursor_pos: &CursorState, buf: &[u8]) -> (pos: usize)
    requires
        cursor_offset(*cursor_pos, buf@) <= usize::MAX,
    ensures
        pos == cursor_offset(*cursor_pos, buf@),
{
    match checked_buffer_position(cursor_pos, buf) {
        Some(pos) => pos,
        None => vstd::pervasive::unreached(),
    }
}

// ---------------------------------------------------------------------------
// Writing into the buffer
// ---------------------------------------------------------------------------

/// The buffer after `data` was written at `pos`: the bytes before `pos` stay,
/// then comes `data`, then whatever of the buffer lay beyond the written span.
pub open spec fn inserted(buf: Seq<u8>, pos: int, data: Seq<u8>) -> Seq<u8> {
    buf.take(pos) + data + (if pos + data.len() < buf.len() {
        buf.skip(pos + data.len())
    } else {
        Seq::<u8>::empty()
    })
}

/// Writes `data` at `pos`, over the bytes that are there and beyond the end
/// of the buffer where it is longer.
pub fn insert_data_at_position(data: &[u8], pos: usize, buf: &mut Vec<u8>)
    requires
        pos <= old(buf)@.len(),
    ensures
        final(buf)@ == inserted(old(buf)@, pos as int, data@),
        pos == old(buf)@.len() ==> final(buf)@ == old(buf)@ + data@,
        final(buf)@.len() == if pos + data@.len() < old(buf)@.len() {
            old(buf)@.len() as int
        } else {
            pos + data@.len()
        },
{
    let n = data.len();
    if pos > buf.len() {
        vstd::pervasive::unreached::<()>();
    }
    let amount_that_fits = buf.len() - pos;
    let mut j: usize = 0;
    proof {
        assert(buf@ =~= inserted(old(buf)@, pos as int, data@.take(0)));
    }
    while j < n
        invariant
            n == data@.len(),
            j <= n,
            pos <= old(buf)@.len() <= usize::MAX,
            amount_that_fits == old(buf)@.len() - pos,
            buf@ == inserted(old(buf)@, pos as int, data@.take(j as int)),
        decreases n - j,
    {
        let ghost cur = buf@;
        assert(buf@.len() >= pos + j);
        if j < amount_that_fits {
            buf.set(pos + j, data[j]);
        } else {
            buf.push(data[j]);
        }
        proof {
            assert(buf@ =~= inserted(old(buf)@, pos as int, data@.take(j + 1)));
        }
        j += 1;
    }
    proof {
        assert(data@.take(n as int) =~= data@);
        if pos == old(buf)@.len() {
            assert(buf@ =~= old(buf)@ + data@);
        }
    }
}

// ---------------------------------------------------------------------------
// The emulator
// ---------------------------------------------------------------------------

/// Buffer, cursor, colours and parser of one terminal.
pub struct TerminalEmulator {
    output_buf: AnsiParser,
    buf: Vec<u8>,
    color_tracker: ColorTracker,
    cursor_pos: CursorState,
}

/// The mathematical value of a [`TerminalEmulator`].
pub struct TerminalView {
    pub parser: ParserState,
    pub buf: Seq<u8>,
    pub colors: Seq<ColorTag>,
    pub cursor: CursorState,
}

/// A 1-based coordinate as the 0-based one that the cursor keeps.
pub open spec fn zero_based(v: usize) -> usize {
    if v > 0 {
        (v - 1) as usize
    } else {
        0
    }
}

/// Whether the terminal can take the operation.  Literal bytes can only be
/// written at or before the end of the buffer.
pub open spec fn accepts(v: TerminalView, op: Operation) -> bool {
    op is Data ==> cursor_offset(v.cursor, v.buf) <= v.buf.len()
}

/// The terminal after one operation.
pub open spec fn applied(v: TerminalView, op: Operation) -> TerminalView {
    let pos = cursor_offset(v.cursor, v.buf);
    match op {
        Operation::Data(data) => TerminalView {
            buf: inserted(v.buf, pos, data),
            colors: overwritten(
                v.colors,
                v.cursor.color,
                Range { start: pos as usize, end: (pos + data.len()) as usize },
            ),
            cursor: CursorState {
                x: column_after(v.cursor.x as int, data) as usize,
                y: row_after(v.cursor.y as int, data) as usize,
                color: v.cursor.color,
            },
            ..v
        },
        Operation::SetCursorPos { x, y } => TerminalView {
            cursor: CursorState {
                x: match x {
                    Some(x) => zero_based(x),
                    None => v.cursor.x,
                },
                y: match y {
                    Some(y) => zero_based(y),
                    None => v.cursor.y,
                },
                color: v.cursor.color,
            },
            ..v
        },
        Operation::ClearForwards => TerminalView {
            buf: if pos < v.buf.len() {
                v.buf.take(pos)
            } else {
                v.buf
            },
            colors: if pos <= usize::MAX {
                overwritten(
                    v.colors,
                    v.cursor.color,
                    Range { start: pos as usize, end: usize::MAX },
                )
            } else {
                v.colors
            },
            ..v
        },
        Operation::ClearBackwards => TerminalView {
            buf: if pos < v.buf.len() {
                v.buf.skip(pos)
            } else {
                Seq::<u8>::empty()
            },
            ..v
        },
        Operation::ClearAll => TerminalView {
            buf: Seq::<u8>::empty(),
            colors: overwritten(v.colors, v.cursor.color, Range { start: 0, end: usize::MAX }),
            ..v
        },
        Operation::Sgr(sgr) => TerminalView {
            cursor: CursorState {
                color: match color_of(sgr) {
                    Some(color) => color,
                    None => v.cursor.color,
                },
                ..v.cursor
            },
            ..v
        },
        Operation::Invalid => v,
    }
}

/// Whether the terminal can take every operation of `ops`, one after the other.
pub open spec fn all_accepted(v: TerminalView, ops: Seq<Operation>) -> bool
    decreases ops.len(),
{
    ops.len() == 0 || (accepts(v, ops[0]) && all_accepted(applied(v, ops[0]), ops.skip(1)))
}

/// The terminal after the operations of `ops`, up to the first one that it
/// cannot take.
pub open spec fn settled(v: TerminalView, ops: Seq<Operation>) -> TerminalView
    decreases ops.len(),
{
    if ops.len() == 0 || !accepts(v, ops[0]) {
        v
    } else {
        settled(applied(v, ops[0]), ops.skip(1))
    }
}

impl View for TerminalEmulator {
    type V = TerminalView;

    closed spec fn view(&self) -> TerminalView {
        TerminalView {
            parser: self.output_buf@,
            buf: self.buf@,
            colors: self.color_tracker@,
            cursor: self.cursor_pos,
        }
    }
}

impl TerminalEmulator {
    /// The invariant of a terminal: those of its parser and of its colours.
    pub closed spec fn wf(&self) -> bool {
        self.output_buf.wf() && self.color_tracker.wf()
    }

    /// An empty terminal: no text, the cursor in the first column of the
    /// first row, everything in the default colour.
    pub fn new() -> (r: TerminalEmulator)
        ensures
            r.wf(),
            r@ == (TerminalView {
                parser: ParserState::Empty,
                buf: Seq::<u8>::empty(),
                colors: seq![
                    ColorTag { start: 0, end: usize::MAX, color: TerminalColor::Default },
                ],
                cursor: CursorState { x: 0, y: 0, color: TerminalColor::Default },
            }),
    {
        TerminalEmulator {
            output_buf: AnsiParser::new(),
            buf: Vec::new(),
            color_tracker: ColorTracker::new(),
            cursor_pos: CursorState { x: 0, y: 0, color: TerminalColor::Default },
        }
    }

    /// Whether the terminal can take `op`.
    pub fn can_apply(&self, op: &TerminalOutput) -> (r: bool)
        ensures
            r == accepts(self@, op@),
    {
        match op {
            TerminalOutput::Data(_) => {
                let len = self.buf.len();
                match checked_buffer_position(&self.cursor_pos, self.buf.as_slice()) {
                    Some(pos) => pos <= len,
                    None => false,
                }
            },
            _ => true,
        }
    }

    /// Applies one operation.
    pub fn apply(&mut self, op: &TerminalOutput)
        requires
            old(self).wf(),
            accepts(old(self)@, op@),
        ensures
            final(self).wf(),
            final(self)@ == applied(old(self)@, op@),
    {
        let len = self.buf.len();
        match op {
            TerminalOutput::Data(data) => {
                assert(op@ == Operation::Data(data@));
                assert(cursor_offset(self.cursor_pos, self.buf@) <= len);
                let output_start = cursor_to_buffer_position(&self.cursor_pos, self.buf.as_slice());
                proof {
                    lemma_line_start_bounds(self.buf@, self.cursor_pos.y as nat);
                }
                insert_data_at_position(data.as_slice(), output_start, &mut self.buf);
                let grown = self.buf.len();
                assert(output_start + data@.len() <= grown);
                self.color_tracker.push_range(
                    self.cursor_pos.color,
                    Range { start: output_start, end: output_start + data.len() },
                );
                proof {
                    lemma_cursor_fits(self.cursor_pos.x as int, self.cursor_pos.y as int, data@);
                }
                update_cursor(data.as_slice(), &mut self.cursor_pos);
            },
            TerminalOutput::SetCursorPos { x, y } => {
                if let Some(x) = x {
                    self.cursor_pos.x = if *x > 0 {
                        *x - 1
                    } else {
                        0
                    };
                }
                if let Some(y) = y {
                    self.cursor_pos.y = if *y > 0 {
                        *y - 1
                    } else {
                        0
                    };
                }
            },
            TerminalOutput::ClearForwards => {
                match checked_buffer_position(&self.cursor_pos, self.buf.as_slice()) {
                    Some(buf_pos) => {
                        self.color_tracker.push_range(
                            self.cursor_pos.color,
                            Range { start: buf_pos, end: usize::MAX },
                        );
                        self.buf.truncate(buf_pos);
                        proof {
                            if buf_pos < old(self).buf@.len() {
                                assert(self.buf@ =~= old(self).buf@.take(buf_pos as int));
                            } else if buf_pos == old(self).buf@.len() {
                                assert(self.buf@ =~= old(self).buf@);
                            }
                        }
                    },
                    None => {},
                }
            },
            TerminalOutput::ClearBackwards => {
                let kept = match checked_buffer_position(&self.cursor_pos, self.buf.as_slice()) {
                    Some(buf_pos) => {
                        if buf_pos < len {
                            let rest = vstd::slice::slice_subrange(
                                self.buf.as_slice(),
                                buf_pos,
                                len,
                            );
                            proof {
                                assert(rest@ =~= self.buf@.skip(buf_pos as int));
                            }
                            vstd::slice::slice_to_vec(rest)
                        } else {
                            Vec::new()
                        }
                    },
                    None => Vec::new(),
                };
                proof {
                    let pos = cursor_offset(self.cursor_pos, self.buf@);
                    if pos < self.buf@.len() {
                        assert(kept@ =~= self.buf@.skip(pos));
                    } else {
                        assert(kept@ =~= Seq::<u8>::empty());
                    }
                }
                self.buf = kept;
            },
            TerminalOutput::ClearAll => {
                self.color_tracker.push_range(
                    self.cursor_pos.color,
                    Range { start: 0, end: usize::MAX },
                );
                self.buf.clear();
                proof {
                    assert(self.buf@ =~= Seq::<u8>::empty());
                }
            },
            TerminalOutput::Sgr(sgr) => {
                if let Some(color) = TerminalColor::from_sgr(*sgr) {
                    self.cursor_pos.color = color;
                }
            },
            TerminalOutput::Invalid => {},
        }
    }

    /// Applies `op` if the terminal can take it, and says whether it did.
    pub fn try_apply(&mut self, op: &TerminalOutput) -> (done: bool)
        requires
            old(self).wf(),
        ensures
            final(self).wf(),
            done == accepts(old(self)@, op@),
            done ==> final(self)@ == applied(old(self)@, op@),
            !done ==> final(self)@ == old(self)@,
    {
        if self.can_apply(op) {
            self.apply(op);
            true
        } else {
            false
        }
    }

    /// Decodes a chunk of the shell's output and applies its operations in
    /// order, up to the first one that the terminal cannot take.  Returns
    /// whether all of them were applied.
    pub fn read_bytes(&mut self, incoming: &[u8]) -> (done: bool)
        requires
            old(self).wf(),
        ensures
            final(self).wf(),
            done == all_accepted(
                TerminalView { parser: parse(old(self)@.parser, incoming@).state, ..old(self)@ },
                emitted(old(self)@.parser, incoming@),
            ),
            final(self)@ == settled(
                TerminalView { parser: parse(old(self)@.parser, incoming@).state, ..old(self)@ },
                emitted(old(self)@.parser, incoming@),
            ),
    {
        let parsed = self.output_buf.push(incoming);
        let ghost ops = ops_view(parsed@);
        let ghost begin = self@;
        let n = parsed.len();
        let mut i: usize = 0;
        proof {
            assert(ops.skip(0) =~= ops);
        }
        while i < n
            invariant
                n == parsed@.len(),
                i <= n,
                ops == ops_view(parsed@),
                ops == emitted(old(self)@.parser, incoming@),
                begin == (TerminalView {
                    parser: parse(old(self)@.parser, incoming@).state,
                    ..old(self)@
                }),
                self.wf(),
                all_accepted(begin, ops) == all_accepted(self@, ops.skip(i as int)),
                settled(begin, ops) == settled(self@, ops.skip(i as int)),
            decreases n - i,
        {
            proof {
                assert(ops.skip(i as int)[0] == parsed@[i as int]@);
                assert(ops.skip(i as int).skip(1) =~= ops.skip(i + 1));
            }
            if !self.try_apply(&parsed[i]) {
                return false;
            }
            i += 1;
        }
        true
    }

    /// The text of the buffer.
    pub fn data(&self) -> (r: &[u8])
        ensures
            r@ == self@.buf,
    {
        self.buf.as_slice()
    }

    /// The coloured ranges of the buffer, in order and without gaps.
    pub fn colored_data(&self) -> (out: Vec<(Range<usize>, TerminalColor)>)
        ensures
            out@.len() == self@.colors.len(),
            forall|i: int|
                0 <= i < self@.colors.len() ==> {
                    &&& (#[trigger] out@[i]).0.start == self@.colors[i].start
                    &&& out@[i].0.end == shown_end(self@.colors, i)
                    &&& out@[i].1 == self@.colors[i].color
                },
    {
        self.color_tracker.colors()
    }

    /// The cursor.
    pub fn cursor_pos(&self) -> (r: CursorState)
        ensures
            r == self@.cursor,
    {
        self.cursor_pos
    }
}

} // verus!
