//! Decoder for the ANSI/CSI escape sequences found in a shell's output.
//!
//! The decoder is a byte-level state machine.  Its behaviour is defined by the
//! spec function [`step`], folded over the input by [`run`]; the executable
//! [`AnsiParser::push`] is proved to compute exactly that fold.

use vstd::prelude::*;

verus! {

/// A graphic-rendition selector carried by an `m` sequence.
#[derive(Clone, Copy, Debug, PartialEq, Eq, Structural)]
pub enum SelectGraphicRendition {
    Reset,
    Black,
    Red,
    Green,
    Yellow,
    Blue,
    Magenta,
    Cyan,
    White,
    BrightBlack,
    BrightRed,
    BrightGreen,
    BrightYellow,
    BrightBlue,
    BrightMagenta,
    BrightCyan,
    BrightWhite,
    Unknown(usize),
}

/// The rendition that a numeric code selects.
pub open spec fn sgr_of(val: usize) -> SelectGraphicRendition {
    if val == 0 {
        SelectGraphicRendition::Reset
    } else if val == 30 {
        SelectGraphicRendition::Black
    } else if val == 31 {
        SelectGraphicRendition::Red
    } else if val == 32 {
        SelectGraphicRendition::Green
    } else if val == 33 {
        SelectGraphicRendition::Yellow
    } else if val == 34 {
        SelectGraphicRendition::Blue
    } else if val == 35 {
        SelectGraphicRendition::Magenta
    } else if val == 36 {
        SelectGraphicRendition::Cyan
    } else if val == 37 {
        SelectGraphicRendition::White
    } else if val == 90 {
        SelectGraphicRendition::BrightBlack
    } else if val == 91 {
        SelectGraphicRendition::BrightRed
    } else if val == 92 {
        SelectGraphicRendition::BrightGreen
    } else if val == 93 {
        SelectGraphicRendition::BrightYellow
    } else if val == 94 {
        SelectGraphicRendition::BrightBlue
    } else if val == 95 {
        SelectGraphicRendition::BrightMagenta
    } else if val == 96 {
        SelectGraphicRendition::BrightCyan
    } else if val == 97 {
        SelectGraphicRendition::BrightWhite
    } else {
        SelectGraphicRendition::Unknown(val)
    }
}

impl SelectGraphicRendition {
    /// Maps a numeric code to its rendition; codes without a name are kept
    /// as `Unknown(code)`.
    pub fn from_usize(val: usize) -> (r: SelectGraphicRendition)
        ensures
            r == sgr_of(val),
    {
        match val {
            0 => SelectGraphicRendition::Reset,
            30 => SelectGraphicRendition::Black,
            31 => SelectGraphicRendition::Red,
            32 => SelectGraphicRendition::Green,
            33 => SelectGraphicRendition::Yellow,
            34 => SelectGraphicRendition::Blue,
            35 => SelectGraphicRendition::Magenta,
            36 => SelectGraphicRendition::Cyan,
            37 => SelectGraphicRendition::White,
            90 => SelectGraphicRendition::BrightBlack,
            91 => SelectGraphicRendition::BrightRed,
            92 => SelectGraphicRendition::BrightGreen,
            93 => SelectGraphicRendition::BrightYellow,
            94 => SelectGraphicRendition::BrightBlue,
            95 => SelectGraphicRendition::BrightMagenta,
            96 => SelectGraphicRendition::BrightCyan,
            97 => SelectGraphicRendition::BrightWhite,
            _ => SelectGraphicRendition::Unknown(val),
        }
    }
}

/// One decoded terminal operation.
#[derive(Debug, Eq, PartialEq)]
pub enum TerminalOutput {
    SetCursorPos { x: Option<usize>, y: Option<usize> },
    ClearForwards,
    ClearBackwards,
    ClearAll,
    Sgr(SelectGraphicRendition),
    Data(Vec<u8>),
    Invalid,
}

/// The mathematical value of a [`TerminalOutput`].
pub enum Operation {
    SetCursorPos { x: Option<usize>, y: Option<usize> },
    ClearForwards,
    ClearBackwards,
    ClearAll,
    Sgr(SelectGraphicRendition),
    Data(Seq<u8>),
    Invalid,
}

impl View for TerminalOutput {
    type V = Operation;

    open spec fn view(&self) -> Operation {
        match *self {
            TerminalOutput::SetCursorPos { x, y } => Operation::SetCursorPos { x, y },
            TerminalOutput::ClearForwards => Operation::ClearForwards,
            TerminalOutput::ClearBackwards => Operation::ClearBackwards,
            TerminalOutput::ClearAll => Operation::ClearAll,
            TerminalOutput::Sgr(s) => Operation::Sgr(s),
            TerminalOutput::Data(d) => Operation::Data(d@),
            TerminalOutput::Invalid => Operation::Invalid,
        }
    }
}

/// The operations of a list, each by its view.
pub open spec fn ops_view(v: Seq<TerminalOutput>) -> Seq<Operation> {
    v.map_values(|o: TerminalOutput| o@)
}

/// Bytes `0x40..=0x7d` end a CSI sequence.
pub open spec fn csi_terminator(b: u8) -> bool {
    0x40 <= b <= 0x7d
}

/// Bytes `0x30..=0x3f` are CSI parameter bytes.
pub open spec fn csi_param(b: u8) -> bool {
    0x30 <= b <= 0x3f
}

/// Bytes `0x20..=0x2f` are CSI intermediate bytes.
pub open spec fn csi_intermediate(b: u8) -> bool {
    0x20 <= b <= 0x2f
}

/// Whether `b` ends a CSI sequence.
pub fn is_csi_terminator(b: u8) -> (r: bool)
    ensures
        r == csi_terminator(b),
{
    0x40 <= b && b <= 0x7d
}

/// Whether `b` is a CSI parameter byte.
pub fn is_csi_param(b: u8) -> (r: bool)
    ensures
        r == csi_param(b),
{
    0x30 <= b && b <= 0x3f
}

/// Whether `b` is a CSI intermediate byte.
pub fn is_csi_intermediate(b: u8) -> (r: bool)
    ensures
        r == csi_intermediate(b),
{
    0x20 <= b && b <= 0x2f
}

// ---------------------------------------------------------------------------
// Parameters
// ---------------------------------------------------------------------------

/// `;`: separates the parameter fields of a sequence.
pub const SEPARATOR: u8 = 0x3b;

/// Whether `b` is an ASCII decimal digit.
pub open spec fn is_digit(b: u8) -> bool {
    0x30 <= b <= 0x39
}

/// Whether every byte of `s` is an ASCII decimal digit.
pub open spec fn all_digits(s: Seq<u8>) -> bool {
    forall|i: int| 0 <= i < s.len() ==> is_digit(#[trigger] s[i])
}

/// The number that the digits of `s` write in base ten.
pub open spec fn decimal(s: Seq<u8>) -> nat
    decreases s.len(),
{
    if s.len() == 0 {
        0
    } else {
        let d: nat = if is_digit(s.last()) {
            (s.last() - 0x30) as nat
        } else {
            0
        };
        decimal(s.drop_last()) * 10 + d
    }
}

/// The meaning of one parameter field: an empty field is absent, a run of
/// digits that fits a `usize` is that number, anything else is malformed.
pub open spec fn param_of(s: Seq<u8>) -> Result<Option<usize>, ()> {
    if s.len() == 0 {
        Ok(None)
    } else if all_digits(s) && decimal(s) <= usize::MAX {
        Ok(Some(decimal(s) as usize))
    } else {
        Err(())
    }
}

/// The `;`-delimited fields of `s`.  There is always at least one field, and
/// `n` separators make `n + 1` fields.
pub open spec fn fields(s: Seq<u8>) -> Seq<Seq<u8>>
    decreases s.len(),
{
    if s.len() == 0 {
        seq![Seq::<u8>::empty()]
    } else {
        let prev = fields(s.drop_last());
        if s.last() == SEPARATOR {
            prev.push(Seq::<u8>::empty())
        } else {
            prev.update(prev.len() - 1, prev.last().push(s.last()))
        }
    }
}

/// Whether every field of `s` is a well-formed parameter.
pub open spec fn fields_ok(fs: Seq<Seq<u8>>) -> bool {
    forall|i: int| 0 <= i < fs.len() ==> (#[trigger] param_of(fs[i])) is Ok
}

/// The value of each field of a well-formed list.
pub open spec fn field_values(fs: Seq<Seq<u8>>) -> Seq<Option<usize>> {
    fs.map_values(|f: Seq<u8>| param_of(f).unwrap())
}

/// The meaning of a whole parameter string: the values of its fields, or an
/// error when any field is malformed.
pub open spec fn params_of(s: Seq<u8>) -> Result<Seq<Option<usize>>, ()> {
    if fields_ok(fields(s)) {
        Ok(field_values(fields(s)))
    } else {
        Err(())
    }
}

/// The parameter at `idx`, if the list is that long and the field is not empty.
pub open spec fn param_at(idx: int, params: Seq<Option<usize>>) -> Option<usize> {
    if 0 <= idx < params.len() {
        params[idx]
    } else {
        None
    }
}

/// The parameter at `idx`, if the list is that long and the field is not empty.
pub fn extract_param(idx: usize, params: &[Option<usize>]) -> (r: Option<usize>)
    ensures
        r == param_at(idx as int, params@),
{
    if idx < params.len() {
        params[idx]
    } else {
        None
    }
}

proof fn lemma_decimal_prefix(s: Seq<u8>, k: int)
    requires
        0 <= k <= s.len(),
    ensures
        decimal(s.take(k)) <= decimal(s),
    decreases s.len() - k,
{
    if k < s.len() {
        lemma_decimal_prefix(s, k + 1);
        assert(s.take(k + 1).drop_last() =~= s.take(k));
    } else {
        assert(s.take(k) =~= s);
    }
}

/// Reads one parameter field: nothing for an empty field, the number that a
/// run of decimal digits writes, an error for anything else and for a number
/// too large for a `usize`.
pub fn parse_param_as_usize(param_bytes: &[u8]) -> (r: Result<Option<usize>, ()>)
    ensures
        r == param_of(param_bytes@),
{
    let n = param_bytes.len();
    if n == 0 {
        return Ok(None);
    }
    let mut acc: usize = 0;
    let mut i: usize = 0;
    while i < n
        invariant
            n == param_bytes@.len(),
            n > 0,
            i <= n,
            all_digits(param_bytes@.take(i as int)),
            decimal(param_bytes@.take(i as int)) == acc,
        decreases n - i,
    {
        let b = param_bytes[i];
        if b < 0x30 || b > 0x39 {
            proof {
                assert(!is_digit(param_bytes@[i as int]));
            }
            return Err(());
        }
        let d: usize = (b - 0x30) as usize;
        proof {
            assert(param_bytes@.take(i + 1).drop_last() =~= param_bytes@.take(i as int));
            assert(param_bytes@.take(i + 1).last() == b);
            assert(decimal(param_bytes@.take(i + 1)) == acc * 10 + d);
            lemma_decimal_prefix(param_bytes@, i + 1);
        }
        if acc > (usize::MAX - d) / 10 {
            return Err(());
        }
        acc = acc * 10 + d;
        i += 1;
    }
    proof {
        assert(param_bytes@.take(n as int) =~= param_bytes@);
    }
    Ok(Some(acc))
}

proof fn lemma_fields_ok_push(done: Seq<Seq<u8>>, f: Seq<u8>)
    ensures
        fields_ok(done.push(f)) == (fields_ok(done) && param_of(f) is Ok),
        field_values(done.push(f)) == field_values(done).push(param_of(f).unwrap()),
{
    let next = done.push(f);
    if fields_ok(done) && param_of(f) is Ok {
        assert forall|j: int| 0 <= j < next.len() implies (#[trigger] param_of(next[j])) is Ok by {
            if j < done.len() {
                assert(next[j] == done[j]);
            }
        }
    } else if !fields_ok(done) {
        let j = choose|j: int| 0 <= j < done.len() && !((#[trigger] param_of(done[j])) is Ok);
        assert(next[j] == done[j]);
    } else {
        assert(next[next.len() - 1] == f);
    }
    assert(field_values(next) =~= field_values(done).push(param_of(f).unwrap()));
}

/// Reads a `;`-delimited parameter string, field by field.  One malformed
/// field makes the whole string malformed.
pub fn split_params_into_semicolon_delimited_usize(params: &[u8]) -> (r: Result<
    Vec<Option<usize>>,
    (),
>)
    ensures
        match r {
            Ok(v) => params_of(params@) == Ok::<Seq<Option<usize>>, ()>(v@),
            Err(_) => params_of(params@) is Err,
        },
{
    let n = params.len();
    let mut out: Vec<Option<usize>> = Vec::new();
    let mut failed = false;
    let mut start: usize = 0;
    let mut i: usize = 0;
    let ghost mut done: Seq<Seq<u8>> = Seq::empty();
    proof {
        assert(params@.take(0).len() == 0);
        assert(params@.subrange(0, 0) =~= Seq::<u8>::empty());
        assert(seq![Seq::<u8>::empty()] =~= done.push(Seq::<u8>::empty()));
    }
    while i < n
        invariant
            n == params@.len(),
            start <= i <= n,
            fields(params@.take(i as int)) == done.push(params@.subrange(start as int, i as int)),
            failed == !fields_ok(done),
            !failed ==> out@ == field_values(done),
        decreases n - i,
    {
        let b = params[i];
        proof {
            assert(params@.take(i + 1).drop_last() =~= params@.take(i as int));
            assert(params@.take(i + 1).last() == b);
        }
        if b == SEPARATOR {
            let field = vstd::slice::slice_subrange(params, start, i);
            let parsed = parse_param_as_usize(field);
            proof {
                lemma_fields_ok_push(done, field@);
                assert(params@.subrange(i + 1, i + 1) =~= Seq::<u8>::empty());
                done = done.push(field@);
            }
            match parsed {
                Ok(p) => {
                    if !failed {
                        out.push(p);
                    }
                },
                Err(_) => {
                    failed = true;
                },
            }
            start = i + 1;
        } else {
            proof {
                let prev = done.push(params@.subrange(start as int, i as int));
                assert(params@.subrange(start as int, i as int).push(b) =~= params@.subrange(
                    start as int,
                    i + 1,
                ));
                assert(prev.update(prev.len() - 1, prev.last().push(b)) =~= done.push(
                    params@.subrange(start as int, i + 1),
                ));
            }
        }
        i += 1;
    }
    let field = vstd::slice::slice_subrange(params, start, n);
    let parsed = parse_param_as_usize(field);
    proof {
        assert(params@.take(n as int) =~= params@);
        lemma_fields_ok_push(done, field@);
    }
    if failed {
        return Err(());
    }
    match parsed {
        Ok(p) => {
            out.push(p);
            Ok(out)
        },
        Err(_) => Err(()),
    }
}

} // verus!
