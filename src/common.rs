//! Source locations, located values and byte classes.
use vstd::prelude::*;

verus! {

pub const NEWLINE: u8 = 10;
pub const TAB: u8 = 9;
pub const SPACE: u8 = 32;
pub const DIGIT_0: u8 = 48;
pub const DIGIT_9: u8 = 57;
pub const LOWER_A: u8 = 97;
pub const LOWER_Z: u8 = 122;
pub const UPPER_A: u8 = 65;
pub const UPPER_Z: u8 = 90;

/// A cursor position as numbers: 1-based line and column, 0-based byte offset.
pub ghost struct Position {
    pub line: nat,
    pub column: nat,
    pub offset: nat,
}

/// The position of the very first byte of a buffer.
pub open spec fn start_position() -> Position {
    Position { line: 1, column: 1, offset: 0 }
}

/// The position reached from `p` once `byte` has been consumed.
pub open spec fn step(p: Position, byte: u8) -> Position {
    if byte == 10u8 {
        Position { line: p.line + 1, column: 1, offset: p.offset + 1 }
    } else {
        Position { line: p.line, column: p.column + 1, offset: p.offset + 1 }
    }
}

/// The position reached after consuming the first `n` bytes of `s`, one by one.
pub open spec fn position_after(s: Seq<u8>, n: int) -> Position
    decreases n,
{
    if n <= 0 {
        start_position()
    } else {
        step(position_after(s, n - 1), s[n - 1])
    }
}

/// How many newline bytes `s` holds.
pub open spec fn newline_count(s: Seq<u8>) -> nat
    decreases s.len(),
{
    if s.len() == 0 {
        0
    } else {
        newline_count(s.drop_last()) + if s.last() == 10u8 { 1nat } else { 0nat }
    }
}

/// How many bytes `s` holds after its last newline (all of them if it has none).
pub open spec fn bytes_since_newline(s: Seq<u8>) -> nat
    decreases s.len(),
{
    if s.len() == 0 {
        0
    } else if s.last() == 10u8 {
        0
    } else {
        bytes_since_newline(s.drop_last()) + 1
    }
}

/// After consuming the first `n` bytes of `s`, the line is one more than the
/// number of newlines consumed, the column is one more than the number of bytes
/// consumed since the last newline (or since the start), and the offset is `n`.
pub proof fn lemma_position_after(s: Seq<u8>, n: int)
    requires
        0 <= n <= s.len(),
    ensures
        position_after(s, n).line == 1 + newline_count(s.take(n)),
        position_after(s, n).column == 1 + bytes_since_newline(s.take(n)),
        position_after(s, n).offset == n,
    decreases n,
{
    if n > 0 {
        lemma_position_after(s, n - 1);
        assert(s.take(n).drop_last() =~= s.take(n - 1));
    }
}

/// Line and column together grow no faster than the offset.
pub proof fn lemma_position_bounds(s: Seq<u8>, n: int)
    requires
        0 <= n,
    ensures
        position_after(s, n).line >= 1,
        position_after(s, n).column >= 1,
        position_after(s, n).line + position_after(s, n).column <= n + 2,
        position_after(s, n).offset == n,
    decreases n,
{
    if n > 0 {
        lemma_position_bounds(s, n - 1);
    }
}

#[derive(Debug, Clone, Copy, PartialEq, Eq, Structural)]
pub struct Loc {
    pub lin: usize,
    pub col: usize,
    pub abs: usize,
}

impl View for Loc {
    type V = Position;

    open spec fn view(&self) -> Position {
        Position { line: self.lin as nat, column: self.col as nat, offset: self.abs as nat }
    }
}

impl Loc {
    pub fn new() -> (r: Self)
        ensures
            r@ == start_position(),
    {
        Loc { lin: 1, col: 1, abs: 0 }
    }

    pub fn advance(&mut self, byte: u8)
        requires
            old(self).lin < usize::MAX,
            old(self).col < usize::MAX,
            old(self).abs < usize::MAX,
        ensures
            final(self)@ == step(old(self)@, byte),
    {
        self.abs += 1;
        if byte == NEWLINE {
            self.lin += 1;
            self.col = 1;
        } else {
            self.col += 1;
        }
    }
}

/// A value paired with the location where it begins.
#[derive(Debug, PartialEq, Eq)]
pub struct Annot<T> {
    pub val: T,
    pub loc: Loc,
}

impl<T: View> View for Annot<T> {
    type V = (T::V, Position);

    open spec fn view(&self) -> (T::V, Position) {
        (self.val@, self.loc@)
    }
}

impl<T> Annot<T> {
    pub fn new(val: T, loc: Loc) -> (r: Self)
        ensures
            r.val == val,
            r.loc == loc,
    {
        Self { val, loc }
    }
}

pub open spec fn spec_is_whitespace(byte: u8) -> bool {
    byte == 10u8 || byte == 9u8 || byte == 32u8
}

pub open spec fn spec_is_alphabetic(byte: u8) -> bool {
    (97u8 <= byte && byte <= 122u8) || (65u8 <= byte && byte <= 90u8)
}

pub open spec fn spec_is_numeric(byte: u8) -> bool {
    48u8 <= byte && byte <= 57u8
}

pub open spec fn spec_is_alphanumeric(byte: u8) -> bool {
    spec_is_alphabetic(byte) || spec_is_numeric(byte)
}

/// Space, tab and newline.
pub fn is_whitespace(byte: u8) -> (r: bool)
    ensures
        r == spec_is_whitespace(byte),
{
    byte == NEWLINE || byte == TAB || byte == SPACE
}

/// ASCII letters only.
pub fn is_alphabetic(byte: u8) -> (r: bool)
    ensures
        r == spec_is_alphabetic(byte),
{
    (LOWER_A <= byte && byte <= LOWER_Z) || (UPPER_A <= byte && byte <= UPPER_Z)
}

/// ASCII decimal digits only.
pub fn is_numeric(byte: u8) -> (r: bool)
    ensures
        r == spec_is_numeric(byte),
{
    DIGIT_0 <= byte && byte <= DIGIT_9
}

pub fn is_alphanumeric(byte: u8) -> (r: bool)
    ensures
        r == spec_is_alphanumeric(byte),
{
    is_alphabetic(byte) || is_numeric(byte)
}

} // verus!
