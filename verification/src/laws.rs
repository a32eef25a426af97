//! Properties of the parser and of the colour list that hold for every input.

use crate::ansi::{csi_terminator, Operation};
use crate::color::{above, below, color_at, covers, overwritten, shown_end, ColorTag, TerminalColor};
use crate::parser::{
    emitted, finish_ops, flush, parse, run, sgr_ops, start_of_chunk, step, ParserState, Trace,
    CSI_INTRODUCER, ESC,
};
use std::ops::Range;
use vstd::prelude::*;

verus! {

// ---------------------------------------------------------------------------
// Chunks
// ---------------------------------------------------------------------------

/// `t` with the operations `o` decoded before its own.
pub open spec fn with_ops_before(o: Seq<Operation>, t: Trace) -> Trace {
    Trace { ops: o + t.ops, ..t }
}

proof fn lemma_step_frame(o: Seq<Operation>, t: Trace, b: u8)
    ensures
        step(with_ops_before(o, t), b) == with_ops_before(o, step(t, b)),
{
    let l = step(with_ops_before(o, t), b);
    let r = with_ops_before(o, step(t, b));
    assert(l.state == r.state);
    assert(l.pending == r.pending);
    assert(l.ops =~= r.ops);
}

proof fn lemma_run_frame(o: Seq<Operation>, t: Trace, bytes: Seq<u8>)
    ensures
        run(with_ops_before(o, t), bytes) == with_ops_before(o, run(t, bytes)),
    decreases bytes.len(),
{
    if bytes.len() > 0 {
        lemma_run_frame(o, t, bytes.drop_last());
        lemma_step_frame(o, run(t, bytes.drop_last()), bytes.last());
    }
}

proof fn lemma_run_concat(t: Trace, a: Seq<u8>, b: Seq<u8>)
    ensures
        run(t, a + b) == run(run(t, a), b),
    decreases b.len(),
{
    if b.len() == 0 {
        assert(a + b =~= a);
    } else {
        lemma_run_concat(t, a, b.drop_last());
        assert((a + b).drop_last() =~= a + b.drop_last());
        assert((a + b).last() == b.last());
    }
}

proof fn lemma_run_state(t: Trace, u: Trace, bytes: Seq<u8>)
    requires
        t.state == u.state,
    ensures
        run(t, bytes).state == run(u, bytes).state,
    decreases bytes.len(),
{
    if bytes.len() > 0 {
        lemma_run_state(t, u, bytes.drop_last());
    }
}

proof fn lemma_pending_only_outside_csi(t: Trace, bytes: Seq<u8>)
    requires
        t.state is Csi ==> t.pending.len() == 0,
    ensures
        run(t, bytes).state is Csi ==> run(t, bytes).pending.len() == 0,
    decreases bytes.len(),
{
    if bytes.len() > 0 {
        lemma_pending_only_outside_csi(t, bytes.drop_last());
    }
}

proof fn lemma_pending_flushes(s: ParserState, p: Seq<u8>, b: Seq<u8>)
    requires
        s is Escape || (s is Empty && (b.len() > 0 ==> b[0] == ESC)),
    ensures
        ({
            let t = run(Trace { state: s, pending: p, ops: Seq::<Operation>::empty() }, b);
            let u = run(start_of_chunk(s), b);
            ||| {
                &&& t.state == u.state
                &&& (t.state is Escape || b.len() == 0)
                &&& t.pending == p
                &&& u.pending == Seq::<u8>::empty()
                &&& t.ops == Seq::<Operation>::empty()
                &&& u.ops == Seq::<Operation>::empty()
            }
            ||| t == with_ops_before(flush(p), u)
        }),
    decreases b.len(),
{
    if b.len() > 0 {
        let front = b.drop_last();
        if front.len() > 0 {
            assert(front[0] == b[0]);
        }
        lemma_pending_flushes(s, p, front);
        let t = run(Trace { state: s, pending: p, ops: Seq::<Operation>::empty() }, front);
        let u = run(start_of_chunk(s), front);
        if t == with_ops_before(flush(p), u) {
            lemma_step_frame(flush(p), u, b.last());
        } else {
            let t2 = step(t, b.last());
            let u2 = step(u, b.last());
            if front.len() == 0 && s is Empty {
                assert(b.last() == b[0]);
            } else {
                assert(t2.ops =~= flush(p) + u2.ops);
                assert(t2 == with_ops_before(flush(p), u2));
            }
        }
    }
}

/// Whether cutting the stream between `a` and `b` cuts a run of literal
/// bytes in two: `a` ends in literal bytes and `b` begins with one.
pub open spec fn splits_literal_run(state: ParserState, a: Seq<u8>, b: Seq<u8>) -> bool {
    &&& parse(state, a).state is Empty
    &&& parse(state, a).pending.len() > 0
    &&& b.len() > 0
    &&& b[0] != ESC
}

/// The parser's state after a stream does not depend on how the stream was
/// cut into chunks.
pub proof fn chunk_state_independence(state: ParserState, a: Seq<u8>, b: Seq<u8>)
    ensures
        parse(state, a + b).state == parse(parse(state, a).state, b).state,
{
    lemma_run_concat(start_of_chunk(state), a, b);
    lemma_run_state(parse(state, a), start_of_chunk(parse(state, a).state), b);
}

/// Pushing a stream in two chunks yields the operations of pushing it in
/// one, unless the cut falls inside a run of literal bytes (a run is handed
/// out when its chunk ends, so such a cut yields the run in two pieces).
pub proof fn chunk_independence(state: ParserState, a: Seq<u8>, b: Seq<u8>)
    requires
        !splits_literal_run(state, a, b),
    ensures
        parse(state, a + b).state == parse(parse(state, a).state, b).state,
        emitted(state, a + b) == emitted(state, a) + emitted(parse(state, a).state, b),
{
    chunk_state_independence(state, a, b);
    let t1 = parse(state, a);
    let bare = Trace { state: t1.state, pending: t1.pending, ops: Seq::<Operation>::empty() };
    lemma_run_concat(start_of_chunk(state), a, b);
    assert(t1.ops =~= t1.ops + bare.ops);
    assert(t1 == with_ops_before(t1.ops, bare));
    lemma_run_frame(t1.ops, bare, b);
    let t = run(bare, b);
    let u = parse(t1.state, b);
    assert(parse(state, a + b) == with_ops_before(t1.ops, t));
    if t1.pending.len() == 0 {
        assert(t1.pending =~= Seq::<u8>::empty());
        assert(bare == start_of_chunk(t1.state));
    } else {
        lemma_pending_only_outside_csi(start_of_chunk(state), a);
        lemma_pending_flushes(t1.state, t1.pending, b);
    }
    assert(t.ops + flush(t.pending) =~= flush(t1.pending) + (u.ops + flush(u.pending)));
    assert((t1.ops + t.ops) + flush(t.pending) =~= (t1.ops + flush(t1.pending)) + (u.ops + flush(
        u.pending,
    )));
}

/// The literal bytes of a `Data` operation; nothing for any other operation.
pub open spec fn data_of(op: Operation) -> Seq<u8> {
    match op {
        Operation::Data(d) => d,
        _ => Seq::<u8>::empty(),
    }
}

/// The operations of two chunks with the run of literal bytes that the cut
/// went through made whole again: the last operation of `x` and the first of
/// `y` become one `Data`.
pub open spec fn rejoined(x: Seq<Operation>, y: Seq<Operation>) -> Seq<Operation> {
    x.drop_last().push(Operation::Data(data_of(x.last()) + data_of(y[0]))) + y.skip(1)
}

proof fn lemma_pending_joins(p: Seq<u8>, b: Seq<u8>)
    requires
        b.len() > 0,
        b[0] != ESC,
    ensures
        ({
            let t = run(
                Trace { state: ParserState::Empty, pending: p, ops: Seq::<Operation>::empty() },
                b,
            );
            let u = run(start_of_chunk(ParserState::Empty), b);
            &&& t.state == u.state
            &&& {
                ||| {
                    &&& u.ops.len() == 0
                    &&& t.ops.len() == 0
                    &&& u.pending.len() > 0
                    &&& t.pending == p + u.pending
                    &&& (t.state is Empty || t.state is Escape)
                }
                ||| {
                    &&& u.ops.len() > 0
                    &&& u.ops[0] is Data
                    &&& t.ops == seq![Operation::Data(p + data_of(u.ops[0]))] + u.ops.skip(1)
                    &&& t.pending == u.pending
                }
            }
        }),
    decreases b.len(),
{
    let t0 = Trace { state: ParserState::Empty, pending: p, ops: Seq::<Operation>::empty() };
    let u0 = start_of_chunk(ParserState::Empty);
    let front = b.drop_last();
    if front.len() == 0 {
        assert(b.last() == b[0]);
        let t = run(t0, b);
        let u = run(u0, b);
        assert(run(t0, front) == t0);
        assert(run(u0, front) == u0);
        assert(t.pending =~= p + u.pending);
    } else {
        assert(front[0] == b[0]);
        lemma_pending_joins(p, front);
        let t = run(t0, front);
        let u = run(u0, front);
        let t2 = step(t, b.last());
        let u2 = step(u, b.last());
        if u.ops.len() == 0 {
            if t.state is Empty {
                assert(t2.pending =~= p + u2.pending);
            } else {
                assert(u2.ops =~= seq![Operation::Data(u.pending)]);
                assert(t2.ops =~= seq![Operation::Data(p + data_of(u2.ops[0]))] + u2.ops.skip(1));
            }
        } else {
            assert(u2.ops[0] == u.ops[0]);
            assert(t2.ops =~= seq![Operation::Data(p + data_of(u2.ops[0]))] + u2.ops.skip(1));
        }
    }
}

/// Where the cut between two chunks falls inside a run of literal bytes, the
/// two chunks yield the operations of the whole stream but for that run,
/// which comes in two pieces: the last operation of the first chunk and the
/// first operation of the second.
pub proof fn chunk_cut_splits_one_run(state: ParserState, a: Seq<u8>, b: Seq<u8>)
    requires
        splits_literal_run(state, a, b),
    ensures
        emitted(state, a).len() > 0,
        emitted(state, a).last() is Data,
        emitted(parse(state, a).state, b).len() > 0,
        emitted(parse(state, a).state, b)[0] is Data,
        emitted(state, a + b) == rejoined(
            emitted(state, a),
            emitted(parse(state, a).state, b),
        ),
{
    let t1 = parse(state, a);
    let bare = Trace { state: t1.state, pending: t1.pending, ops: Seq::<Operation>::empty() };
    lemma_run_concat(start_of_chunk(state), a, b);
    assert(t1.ops =~= t1.ops + bare.ops);
    assert(t1 == with_ops_before(t1.ops, bare));
    lemma_run_frame(t1.ops, bare, b);
    lemma_pending_joins(t1.pending, b);
    let t = run(bare, b);
    let u = parse(t1.state, b);
    let x = emitted(state, a);
    let y = emitted(t1.state, b);
    assert(x =~= t1.ops.push(Operation::Data(t1.pending)));
    assert(x.drop_last() =~= t1.ops);
    if u.ops.len() == 0 {
        assert(y =~= seq![Operation::Data(u.pending)]);
    } else {
        assert(y[0] == u.ops[0]);
    }
    assert(emitted(state, a + b) =~= rejoined(x, y));
}

/// A chunk without an escape byte, pushed outside any sequence, comes back
/// as a single `Data` operation that holds the chunk.
pub proof fn literal_text_is_one_run(bytes: Seq<u8>)
    requires
        bytes.len() > 0,
        forall|i: int| 0 <= i < bytes.len() ==> bytes[i] != ESC,
    ensures
        parse(ParserState::Empty, bytes).state == ParserState::Empty,
        emitted(ParserState::Empty, bytes) == seq![Operation::Data(bytes)],
{
    lemma_literal_text(bytes);
    assert(emitted(ParserState::Empty, bytes) =~= seq![Operation::Data(bytes)]);
}

proof fn lemma_literal_text(bytes: Seq<u8>)
    requires
        forall|i: int| 0 <= i < bytes.len() ==> bytes[i] != ESC,
    ensures
        parse(ParserState::Empty, bytes) == (Trace {
            state: ParserState::Empty,
            pending: bytes,
            ops: Seq::<Operation>::empty(),
        }),
    decreases bytes.len(),
{
    if bytes.len() > 0 {
        lemma_literal_text(bytes.drop_last());
        assert(bytes.drop_last().push(bytes.last()) =~= bytes);
    } else {
        assert(bytes =~= Seq::<u8>::empty());
    }
}

/// The parser cannot get stuck inside a sequence: whatever state it is in,
/// one terminator byte other than `[` brings it back outside any sequence.
pub proof fn terminator_resynchronizes(state: ParserState, b: u8)
    requires
        csi_terminator(b),
        b != CSI_INTRODUCER,
    ensures
        parse(state, seq![b]).state == ParserState::Empty,
{
    let bytes = seq![b];
    assert(bytes.drop_last() =~= Seq::<u8>::empty());
    assert(bytes.last() == b);
    assert(run(start_of_chunk(state), bytes.drop_last()) == start_of_chunk(state));
}

/// Every `Data` operation of the list holds at least one byte.
pub open spec fn no_empty_data(ops: Seq<Operation>) -> bool {
    forall|i: int| 0 <= i < ops.len() ==> ((#[trigger] ops[i]) is Data ==> data_of(ops[i]).len() > 0)
}

proof fn lemma_sgr_ops_no_data(ps: Seq<Option<usize>>)
    ensures
        forall|i: int| 0 <= i < sgr_ops(ps).len() ==> !((#[trigger] sgr_ops(ps)[i]) is Data),
    decreases ps.len(),
{
    if ps.len() > 0 {
        lemma_sgr_ops_no_data(ps.drop_last());
    }
}

proof fn lemma_finish_ops_no_data(term: u8, params: Seq<u8>)
    ensures
        forall|i: int|
            0 <= i < finish_ops(term, params).len() ==> !((#[trigger] finish_ops(
                term,
                params,
            )[i]) is Data),
{
    if term == crate::parser::GRAPHIC_RENDITION {
        match crate::ansi::params_of(params) {
            Ok(ps) => {
                lemma_sgr_ops_no_data(crate::parser::sgr_params(ps));
            },
            Err(_) => {},
        }
    }
}

proof fn lemma_step_no_empty_data(t: Trace, b: u8)
    requires
        no_empty_data(t.ops),
    ensures
        no_empty_data(step(t, b).ops),
{
    match t.state {
        ParserState::Csi(p) => {
            let q = crate::parser::csi_step(p, b);
            match q.state {
                crate::parser::CsiParserState::Finished(term) => {
                    lemma_finish_ops_no_data(term, q.params);
                },
                _ => {},
            }
        },
        _ => {},
    }
}

proof fn lemma_run_no_empty_data(t: Trace, bytes: Seq<u8>)
    requires
        no_empty_data(t.ops),
    ensures
        no_empty_data(run(t, bytes).ops),
    decreases bytes.len(),
{
    if bytes.len() > 0 {
        lemma_run_no_empty_data(t, bytes.drop_last());
        lemma_step_no_empty_data(run(t, bytes.drop_last()), bytes.last());
    }
}

/// The parser never hands out a `Data` operation without bytes.
pub proof fn data_is_never_empty(state: ParserState, bytes: Seq<u8>)
    ensures
        no_empty_data(emitted(state, bytes)),
{
    lemma_run_no_empty_data(start_of_chunk(state), bytes);
}

// ---------------------------------------------------------------------------
// Colours
// ---------------------------------------------------------------------------

proof fn lemma_color_at_concat(a: Seq<ColorTag>, b: Seq<ColorTag>, p: int)
    ensures
        color_at(a + b, p) == match color_at(b, p) {
            Some(c) => Some(c),
            None => color_at(a, p),
        },
    decreases b.len(),
{
    if b.len() == 0 {
        assert(a + b =~= a);
    } else {
        lemma_color_at_concat(a, b.drop_last(), p);
        assert((a + b).drop_last() =~= a + b.drop_last());
        assert((a + b).last() == b.last());
    }
}

proof fn lemma_color_at_below(tags: Seq<ColorTag>, s: usize, p: int)
    ensures
        color_at(below(tags, s), p) == if p < s {
            color_at(tags, p)
        } else {
            None
        },
    decreases tags.len(),
{
    if tags.len() > 0 {
        lemma_color_at_below(tags.drop_last(), s, p);
        if tags.last().start < s {
            assert(below(tags, s).drop_last() =~= below(tags.drop_last(), s));
        }
    }
}

proof fn lemma_color_at_above(tags: Seq<ColorTag>, e: usize, p: int)
    ensures
        color_at(above(tags, e), p) == if p >= e {
            color_at(tags, p)
        } else {
            None
        },
    decreases tags.len(),
{
    if tags.len() > 0 {
        lemma_color_at_above(tags.drop_last(), e, p);
        if tags.last().end > e {
            assert(above(tags, e).drop_last() =~= above(tags.drop_last(), e));
        }
    }
}

/// Declaring a range gives its offsets the declared colour and leaves the
/// colour of every other offset as it was.
pub proof fn declared_range_colors(tags: Seq<ColorTag>, color: TerminalColor, r: Range<usize>, p: int)
    ensures
        color_at(overwritten(tags, color, r), p) == if r.start <= p < r.end {
            Some(color)
        } else {
            color_at(tags, p)
        },
{
    if r.start < r.end {
        let new_tag = ColorTag { start: r.start, end: r.end, color };
        let low = below(tags, r.start).push(new_tag);
        lemma_color_at_concat(low, above(tags, r.end), p);
        lemma_color_at_above(tags, r.end, p);
        assert(low.drop_last() =~= below(tags, r.start));
        lemma_color_at_below(tags, r.start, p);
    }
}

/// A list that covers `[from, to)` gives every offset in it a colour.
pub proof fn covered_offsets_have_color(tags: Seq<ColorTag>, from: int, to: int, p: int)
    requires
        covers(tags, from, to),
        from <= p < to,
    ensures
        color_at(tags, p) is Some,
    decreases tags.len(),
{
    if tags.len() > 0 && p < tags.last().start {
        covered_offsets_have_color(tags.drop_last(), from, tags.last().start as int, p);
    }
}

/// In a list that covers `[from, to)` the tags are sorted and adjacent: each
/// tag ends where the next one starts, so the range shown for a tag is the
/// range that it stores.
pub proof fn covering_tags_are_adjacent(tags: Seq<ColorTag>, from: int, i: int)
    requires
        covers(tags, from, usize::MAX as int),
        0 <= i < tags.len(),
    ensures
        tags[i].start < tags[i].end,
        tags[i].end == shown_end(tags, i),
        tags[0].start == from,
{
    lemma_covers_index(tags, from, usize::MAX as int, i);
}

proof fn lemma_covers_index(tags: Seq<ColorTag>, from: int, to: int, i: int)
    requires
        covers(tags, from, to),
        0 <= i < tags.len(),
    ensures
        tags[i].start < tags[i].end,
        tags[i].end == if i + 1 < tags.len() {
            tags[i + 1].start as int
        } else {
            to
        },
        tags[0].start == from,
    decreases tags.len(),
{
    let rest = tags.drop_last();
    if rest.len() > 0 {
        if i < rest.len() {
            lemma_covers_index(rest, from, tags.last().start as int, i);
        } else {
            lemma_covers_index(rest, from, tags.last().start as int, 0);
        }
    } else {
        assert(covers(rest, from, tags.last().start as int));
    }
}

} // verus!
