//! Colours of the text buffer: an ordered list of tags that partitions the
//! offsets `[0, usize::MAX)` into coloured ranges.

use crate::ansi::SelectGraphicRendition;
use crate::ranges::{
    fully_contains, overlap, range_ends_overlapping, range_fully_conatins,
    range_starts_overlapping, ranges_overlap, starts_overlapping,
};
use std::ops::Range;
use vstd::prelude::*;

verus! {

/// A colour that text can be drawn in.
#[derive(Clone, Copy, Debug, PartialEq, Eq, Structural)]
pub enum TerminalColor {
    Default,
    Black,
    Red,
    Green,
    Yellow,
    Blue,
    Magenta,
    Cyan,
    White,
}

/// The colour that a rendition selects, if it selects one.
pub open spec fn color_of(sgr: SelectGraphicRendition) -> Option<TerminalColor> {
    match sgr {
        SelectGraphicRendition::Reset => Some(TerminalColor::Default),
        SelectGraphicRendition::Black => Some(TerminalColor::Black),
        SelectGraphicRendition::Red => Some(TerminalColor::Red),
        SelectGraphicRendition::Green => Some(TerminalColor::Green),
        SelectGraphicRendition::Yellow => Some(TerminalColor::Yellow),
        SelectGraphicRendition::Blue => Some(TerminalColor::Blue),
        SelectGraphicRendition::Magenta => Some(TerminalColor::Magenta),
        SelectGraphicRendition::Cyan => Some(TerminalColor::Cyan),
        SelectGraphicRendition::White => Some(TerminalColor::White),
        _ => None,
    }
}

impl TerminalColor {
    /// The colour that a rendition selects.  Bright and unknown renditions
    /// select none.
    pub fn from_sgr(sgr: SelectGraphicRendition) -> (r: Option<TerminalColor>)
        ensures
            r == color_of(sgr),
    {
        let ret = match sgr {
            SelectGraphicRendition::Reset => TerminalColor::Default,
            SelectGraphicRendition::Black => TerminalColor::Black,
            SelectGraphicRendition::Red => TerminalColor::Red,
            SelectGraphicRendition::Green => TerminalColor::Green,
            SelectGraphicRendition::Yellow => TerminalColor::Yellow,
            SelectGraphicRendition::Blue => TerminalColor::Blue,
            SelectGraphicRendition::Magenta => TerminalColor::Magenta,
            SelectGraphicRendition::Cyan => TerminalColor::Cyan,
            SelectGraphicRendition::White => TerminalColor::White,
            _ => return None,
        };
        Some(ret)
    }
}

/// The half-open range `[start, end)` drawn in `color`.
#[derive(Clone, Copy, Debug, PartialEq, Eq, Structural)]
pub struct ColorTag {
    pub start: usize,
    pub end: usize,
    pub color: TerminalColor,
}

impl ColorTag {
    /// The offsets that the tag covers.
    pub open spec fn range(self) -> Range<usize> {
        Range { start: self.start, end: self.end }
    }
}

/// What has to happen to a tag's place in the list after a new range was
/// declared over part of it.
pub struct ColorRangeAdjustment {
    /// The tag has nothing left and leaves the list.
    pub should_delete: bool,
    /// The part of the tag beyond the new range, to be added to the list.
    pub to_insert: Option<ColorTag>,
}

/// What is left of the tag `t` in place once `r` has been declared over it.
pub open spec fn adjusted_tag(t: ColorTag, r: Range<usize>) -> ColorTag {
    if fully_contains(r, t.range()) {
        t
    } else if fully_contains(t.range(), r) {
        ColorTag { end: r.start, ..t }
    } else if starts_overlapping(r, t.range()) {
        ColorTag { end: r.start, ..t }
    } else {
        ColorTag { start: r.end, ..t }
    }
}

/// Whether the tag `t` leaves the list once `r` has been declared over it:
/// it does when nothing of it is left below `r`, that is, when `r` covers it
/// whole or starts where it starts.
pub open spec fn adjusted_delete(t: ColorTag, r: Range<usize>) -> bool {
    fully_contains(r, t.range()) || (fully_contains(t.range(), r) && t.start == r.start)
}

/// The part of the tag `t` that lies beyond `r` when `t` reaches over `r` on
/// both sides.
pub open spec fn adjusted_insert(t: ColorTag, r: Range<usize>) -> Option<ColorTag> {
    if !fully_contains(r, t.range()) && fully_contains(t.range(), r) && r.end != t.end {
        Some(ColorTag { start: r.end, end: t.end, color: t.color })
    } else {
        None
    }
}

/// Trims `existing_elem` so that it no longer covers any offset of `range`.
///
/// The four ways in which two ranges can lie leave no other case, so the
/// function has no precondition.
pub fn adjust_existing_color_range(existing_elem: &mut ColorTag, range: &Range<usize>) -> (ret:
    ColorRangeAdjustment)
    ensures
        *final(existing_elem) == adjusted_tag(*old(existing_elem), *range),
        ret.should_delete == adjusted_delete(*old(existing_elem), *range),
        ret.to_insert == adjusted_insert(*old(existing_elem), *range),
{
    let mut ret = ColorRangeAdjustment { should_delete: false, to_insert: None };
    let existing_range = Range { start: existing_elem.start, end: existing_elem.end };
    if range_fully_conatins(range, &existing_range) {
        ret.should_delete = true;
    } else if range_fully_conatins(&existing_range, range) {
        if existing_elem.start == range.start {
            ret.should_delete = true;
        }
        if range.end != existing_elem.end {
            ret.to_insert = Some(
                ColorTag { start: range.end, end: existing_elem.end, color: existing_elem.color },
            );
        }
        existing_elem.end = range.start;
    } else if range_starts_overlapping(range, &existing_range) {
        existing_elem.end = range.start;
        if existing_elem.start == existing_elem.end {
            ret.should_delete = true;
        }
    } else if range_ends_overlapping(range, &existing_range) {
        existing_elem.start = range.end;
        if existing_elem.start == existing_elem.end {
            ret.should_delete = true;
        }
    } else {
        vstd::pervasive::unreached::<()>();
    }
    ret
}

// ---------------------------------------------------------------------------
// The list of tags
// ---------------------------------------------------------------------------

/// The parts of the tags that lie below the offset `s`, in order: a tag that
/// starts at or after `s` is left out, one that reaches beyond `s` is cut
/// off there.
pub open spec fn below(tags: Seq<ColorTag>, s: usize) -> Seq<ColorTag>
    decreases tags.len(),
{
    if tags.len() == 0 {
        Seq::<ColorTag>::empty()
    } else {
        let t = tags.last();
        let rest = below(tags.drop_last(), s);
        if t.start < s {
            rest.push(
                ColorTag {
                    end: if t.end < s {
                        t.end
                    } else {
                        s
                    },
                    ..t
                },
            )
        } else {
            rest
        }
    }
}

/// The parts of the tags that lie at or above the offset `e`, in order: a tag
/// that ends at or before `e` is left out, one that starts before `e` is
/// made to start there.
pub open spec fn above(tags: Seq<ColorTag>, e: usize) -> Seq<ColorTag>
    decreases tags.len(),
{
    if tags.len() == 0 {
        Seq::<ColorTag>::empty()
    } else {
        let t = tags.last();
        let rest = above(tags.drop_last(), e);
        if t.end > e {
            rest.push(
                ColorTag {
                    start: if t.start > e {
                        t.start
                    } else {
                        e
                    },
                    ..t
                },
            )
        } else {
            rest
        }
    }
}

/// The list after `r` has been declared to be `color`: what lay below the
/// range, the range itself, what lay above it.  An empty range declares
/// nothing.
pub open spec fn overwritten(tags: Seq<ColorTag>, color: TerminalColor, r: Range<usize>) -> Seq<
    ColorTag,
> {
    if r.start < r.end {
        below(tags, r.start).push(ColorTag { start: r.start, end: r.end, color }) + above(
            tags,
            r.end,
        )
    } else {
        tags
    }
}

/// The tags are non-empty ranges, each starting where the one before it
/// ends, and together they cover exactly `[from, to)`.
pub open spec fn covers(tags: Seq<ColorTag>, from: int, to: int) -> bool
    decreases tags.len(),
{
    if tags.len() == 0 {
        from == to
    } else {
        let t = tags.last();
        t.start < t.end && t.end == to && covers(tags.drop_last(), from, t.start as int)
    }
}

/// The colour of offset `p`: that of the tag that covers it.
pub open spec fn color_at(tags: Seq<ColorTag>, p: int) -> Option<TerminalColor>
    decreases tags.len(),
{
    if tags.len() == 0 {
        None
    } else if tags.last().start <= p < tags.last().end {
        Some(tags.last().color)
    } else {
        color_at(tags.drop_last(), p)
    }
}

/// Every tag is a non-empty range.
pub open spec fn all_nonempty(tags: Seq<ColorTag>) -> bool {
    forall|i: int| 0 <= i < tags.len() ==> (#[trigger] tags[i]).start < tags[i].end
}

/// Removes the offsets of `range` from every tag of the list: a tag that lies
/// within the range leaves, one that reaches into it is trimmed, and one that
/// reaches over it on both sides is split in two.  The result keeps the tags
/// in order; the returned index is where a tag for `range` itself belongs.
pub(crate) fn adjust_existing_color_ranges(existing: &mut Vec<ColorTag>, range: &Range<usize>) -> (at:
    usize)
    requires
        all_nonempty(old(existing)@),
        range.start < range.end,
    ensures
        final(existing)@ == below(old(existing)@, range.start) + above(old(existing)@, range.end),
        at == below(old(existing)@, range.start).len(),
{
    let mut lower: Vec<ColorTag> = Vec::new();
    let mut upper: Vec<ColorTag> = Vec::new();
    let n = existing.len();
    let mut i: usize = 0;
    while i < n
        invariant
            n == existing@.len(),
            i <= n,
            existing@ == old(existing)@,
            all_nonempty(existing@),
            range.start < range.end,
            lower@ == below(existing@.take(i as int), range.start),
            upper@ == above(existing@.take(i as int), range.end),
        decreases n - i,
    {
        let mut tag = existing[i];
        proof {
            assert(existing@.take(i + 1).drop_last() =~= existing@.take(i as int));
            assert(existing@.take(i + 1).last() == tag);
        }
        if ranges_overlap(
            Range { start: tag.start, end: tag.end },
            Range { start: range.start, end: range.end },
        ) {
            let adjustment = adjust_existing_color_range(&mut tag, range);
            if !adjustment.should_delete {
                if tag.end <= range.start {
                    lower.push(tag);
                } else {
                    upper.push(tag);
                }
            }
            if let Some(rest) = adjustment.to_insert {
                upper.push(rest);
            }
        } else if tag.end <= range.start {
            lower.push(tag);
        } else {
            upper.push(tag);
        }
        i += 1;
    }
    proof {
        assert(existing@.take(n as int) =~= existing@);
    }
    let at = lower.len();
    lower.append(&mut upper);
    *existing = lower;
    at
}

/// Keeps the colour of every offset of the buffer.
pub struct ColorTracker {
    color_info: Vec<ColorTag>,
}

impl View for ColorTracker {
    type V = Seq<ColorTag>;

    closed spec fn view(&self) -> Seq<ColorTag> {
        self.color_info@
    }
}

impl ColorTracker {
    /// The tags are sorted, leave no gap and cover `[0, usize::MAX)`.
    pub open spec fn wf(&self) -> bool {
        covers(self@, 0, usize::MAX as int)
    }

    /// A tracker in which every offset has the default colour.
    pub fn new() -> (r: ColorTracker)
        ensures
            r.wf(),
            r@ == seq![ColorTag { start: 0, end: usize::MAX, color: TerminalColor::Default }],
    {
        let r = ColorTracker {
            color_info: vec![
                ColorTag { start: 0, end: usize::MAX, color: TerminalColor::Default },
            ],
        };
        proof {
            assert(r.color_info@.drop_last() =~= Seq::<ColorTag>::empty());
            assert(covers(r.color_info@.drop_last(), 0, 0));
        }
        r
    }

    /// Declares that the offsets of `range` now have the colour `cursor_color`.
    pub fn push_range(&mut self, cursor_color: TerminalColor, range: Range<usize>)
        requires
            old(self).wf(),
        ensures
            final(self).wf(),
            final(self)@ == overwritten(old(self)@, cursor_color, range),
    {
        if range.start >= range.end {
            return ;
        }
        proof {
            lemma_covers_nonempty(self@, 0, usize::MAX as int);
            overwritten_covers(self@, cursor_color, range);
        }
        let at = adjust_existing_color_ranges(&mut self.color_info, &range);
        self.color_info.insert(
            at,
            ColorTag { start: range.start, end: range.end, color: cursor_color },
        );
        proof {
            assert(self.color_info@ =~= overwritten(old(self)@, cursor_color, range));
        }
    }

    /// The coloured ranges in order.  Each range ends where the next one
    /// starts, the last one at `usize::MAX`.
    pub fn colors(&self) -> (out: Vec<(Range<usize>, TerminalColor)>)
        ensures
            out@.len() == self@.len(),
            forall|i: int|
                0 <= i < self@.len() ==> {
                    &&& (#[trigger] out@[i]).0.start == self@[i].start
                    &&& out@[i].0.end == shown_end(self@, i)
                    &&& out@[i].1 == self@[i].color
                },
    {
        let mut output: Vec<(Range<usize>, TerminalColor)> = Vec::new();
        let n = self.color_info.len();
        let mut i: usize = 0;
        while i < n
            invariant
                n == self.color_info@.len(),
                i <= n,
                output@.len() == i,
                forall|j: int|
                    0 <= j < i ==> {
                        &&& (#[trigger] output@[j]).0.start == self@[j].start
                        &&& output@[j].0.end == shown_end(self@, j)
                        &&& output@[j].1 == self@[j].color
                    },
            decreases n - i,
        {
            let end = if i + 1 < n {
                self.color_info[i + 1].start
            } else {
                usize::MAX
            };
            let item = self.color_info[i];
            output.push((Range { start: item.start, end }, item.color));
            i += 1;
        }
        output
    }
}

/// Where the range shown for the tag at `i` ends: at the start of the next
/// tag, or at `usize::MAX` for the last one.
pub open spec fn shown_end(tags: Seq<ColorTag>, i: int) -> usize {
    if i + 1 < tags.len() {
        tags[i + 1].start
    } else {
        usize::MAX
    }
}

// ---------------------------------------------------------------------------
// Proofs
// ---------------------------------------------------------------------------

proof fn lemma_covers_order(tags: Seq<ColorTag>, from: int, to: int)
    requires
        covers(tags, from, to),
    ensures
        from <= to,
        tags.len() > 0 ==> from < to,
    decreases tags.len(),
{
    if tags.len() > 0 {
        lemma_covers_order(tags.drop_last(), from, tags.last().start as int);
    }
}

proof fn lemma_covers_nonempty(tags: Seq<ColorTag>, from: int, to: int)
    requires
        covers(tags, from, to),
    ensures
        all_nonempty(tags),
    decreases tags.len(),
{
    if tags.len() > 0 {
        lemma_covers_nonempty(tags.drop_last(), from, tags.last().start as int);
        assert forall|i: int| 0 <= i < tags.len() implies (#[trigger] tags[i]).start
            < tags[i].end by {
            if i < tags.len() - 1 {
                assert(tags[i] == tags.drop_last()[i]);
            }
        }
    }
}

proof fn lemma_covers_concat(a: Seq<ColorTag>, b: Seq<ColorTag>, from: int, mid: int, to: int)
    requires
        covers(a, from, mid),
        covers(b, mid, to),
    ensures
        covers(a + b, from, to),
    decreases b.len(),
{
    if b.len() == 0 {
        assert(a + b =~= a);
    } else {
        lemma_covers_concat(a, b.drop_last(), from, mid, b.last().start as int);
        assert((a + b).drop_last() =~= a + b.drop_last());
        assert((a + b).last() == b.last());
    }
}

proof fn lemma_below_covers(tags: Seq<ColorTag>, from: int, to: int, s: usize)
    requires
        covers(tags, from, to),
        from <= s,
    ensures
        covers(below(tags, s), from, if s < to { s as int } else { to }),
    decreases tags.len(),
{
    if tags.len() > 0 {
        let t = tags.last();
        lemma_covers_order(tags.drop_last(), from, t.start as int);
        lemma_below_covers(tags.drop_last(), from, t.start as int, s);
        if t.start < s {
            let cut = ColorTag { end: if t.end < s { t.end } else { s }, ..t };
            assert(below(tags, s).drop_last() =~= below(tags.drop_last(), s));
            assert(below(tags, s).last() == cut);
        }
    }
}

proof fn lemma_above_empty(tags: Seq<ColorTag>, from: int, to: int, e: usize)
    requires
        covers(tags, from, to),
        to <= e,
    ensures
        above(tags, e).len() == 0,
    decreases tags.len(),
{
    if tags.len() > 0 {
        lemma_above_empty(tags.drop_last(), from, tags.last().start as int, e);
    }
}

proof fn lemma_above_covers(tags: Seq<ColorTag>, from: int, to: int, e: usize)
    requires
        covers(tags, from, to),
        e <= to,
    ensures
        covers(above(tags, e), if from > e { from } else { e as int }, to),
    decreases tags.len(),
{
    let lo = if from > e { from } else { e as int };
    lemma_covers_order(tags, from, to);
    if tags.len() == 0 {
        assert(covers(above(tags, e), lo, to));
    } else {
        let t = tags.last();
        let rest = tags.drop_last();
        lemma_covers_order(rest, from, t.start as int);
        if t.end > e {
            assert(above(tags, e).drop_last() =~= above(rest, e));
            if e <= t.start {
                lemma_above_covers(rest, from, t.start as int, e);
            } else {
                lemma_above_empty(rest, from, t.start as int, e);
                assert(covers(above(rest, e), lo, e as int));
            }
        } else {
            lemma_above_empty(rest, from, t.start as int, e);
            assert(covers(above(tags, e), lo, to));
        }
    }
}

/// Declaring a range over a list that covers `[0, usize::MAX)` leaves a list
/// that covers `[0, usize::MAX)`.
pub proof fn overwritten_covers(tags: Seq<ColorTag>, color: TerminalColor, r: Range<usize>)
    requires
        covers(tags, 0, usize::MAX as int),
    ensures
        covers(overwritten(tags, color, r), 0, usize::MAX as int),
{
    if r.start < r.end {
        let new_tag = ColorTag { start: r.start, end: r.end, color };
        let low = below(tags, r.start).push(new_tag);
        lemma_below_covers(tags, 0, usize::MAX as int, r.start);
        assert(low.drop_last() =~= below(tags, r.start));
        assert(covers(low, 0, r.end as int));
        lemma_above_covers(tags, 0, usize::MAX as int, r.end);
        lemma_covers_concat(low, above(tags, r.end), 0, r.end as int, usize::MAX as int);
    }
}

} // verus!
