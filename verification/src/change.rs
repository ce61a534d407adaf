//! How one side of the picture is to change: to an absolute length, by a
//! difference, or through a range of lengths, and the notation for each.

use vstd::arithmetic::div_mod::lemma_fundamental_div_mod_converse;
use vstd::prelude::*;
use vstd::string::StringSliceAdditionalSpecFns;

verus! {

/// A change of one side.
#[derive(Clone, Copy, Debug, PartialEq, Eq)]
pub enum Change {
    /// The side gets this length.
    Absolute(usize),
    /// The side grows by this difference, or shrinks where it is negative.
    Delta(isize),
    /// The side gets, in turn, each length from `lo` up to but not including
    /// `hi`, `offset` apart.
    Range { lo: isize, hi: isize, offset: isize },
}

/// Why a change cannot be used or read.
#[derive(Clone, Copy, Debug, PartialEq, Eq)]
pub enum ChangeError {
    /// The absolute length `value` is not below `bound`.
    OutOfRange { value: usize, bound: usize },
    /// A part of the notation is not a number of its type.
    InvalidNumber,
    /// The step of a range leads away from its end.
    NeverTerminates,
    /// The notation of a size has no change for the width.
    MissingWidth,
    /// The notation of a size has no change for the height.
    MissingHeight,
    /// Neither a width nor a height was asked for.
    NoDimensions,
}

/// The number of values of `usize`.
pub open spec fn modulus() -> int {
    usize::MAX + 1
}

/// `value` as `usize`, counted around the ends of its range.
pub open spec fn wrapped(value: int) -> usize {
    (value % modulus()) as usize
}

/// The lengths `next`, `next + offset`, ... below `end`, each wrapped.
pub open spec fn steps(next: int, end: int, offset: int) -> Seq<usize>
    decreases
            (if next < end {
                end - next
            } else {
                0
            }),
{
    if next < end && offset > 0 {
        seq![wrapped(next)] + steps(next + offset, end, offset)
    } else {
        Seq::empty()
    }
}

proof fn lemma_wrapped(value: int)
    ensures
        0 <= value < modulus() ==> wrapped(value) == value,
        -modulus() <= value < 0 ==> wrapped(value) == value + modulus(),
        modulus() <= value < 2 * modulus() ==> wrapped(value) == value - modulus(),
{
    if 0 <= value < modulus() {
        lemma_fundamental_div_mod_converse(value, modulus(), 0, value);
    } else if -modulus() <= value < 0 {
        lemma_fundamental_div_mod_converse(value, modulus(), -1, value + modulus());
    } else if modulus() <= value < 2 * modulus() {
        lemma_fundamental_div_mod_converse(value, modulus(), 1, value - modulus());
    }
}

/// A signed length as `usize`, as a cast does it.
fn to_unsigned(value: isize) -> (length: usize)
    ensures
        length == wrapped(value as int),
{
    proof {
        lemma_wrapped(value as int);
    }
    if value >= 0 {
        value as usize
    } else {
        usize::MAX - ((-(value + 1)) as usize)
    }
}

/// `bound + delta` as `usize`, counted around the ends of its range.
fn shifted(bound: usize, delta: isize) -> (length: usize)
    ensures
        length == wrapped(bound + delta),
{
    proof {
        lemma_wrapped(bound + delta);
    }
    if delta >= 0 {
        let up = delta as usize;
        if bound <= usize::MAX - up {
            bound + up
        } else {
            bound - (usize::MAX - up) - 1
        }
    } else {
        let down = (-(delta + 1)) as usize;
        if bound > down {
            bound - down - 1
        } else {
            usize::MAX - (down - bound)
        }
    }
}

impl Change {
    /// Whether the lengths of the change can be listed: a range whose step is
    /// not positive must not end below its start.
    pub open spec fn terminates(&self) -> bool {
        match *self {
            Change::Range { lo, hi, offset } => offset > 0 || lo <= hi,
            _ => true,
        }
    }

    /// Whether the lengths of the change can be listed.
    pub fn is_terminating(&self) -> (terminating: bool)
        ensures
            terminating == self.terminates(),
    {
        match *self {
            Change::Range { lo, hi, offset } => offset > 0 || lo <= hi,
            _ => true,
        }
    }

    /// The lengths that the change asks for, for a side that is `bound` long.
    pub open spec fn spec_to_absolutes(&self, bound: usize) -> Result<Seq<usize>, ChangeError> {
        match *self {
            Change::Absolute(i) => if i < bound {
                Ok(seq![i])
            } else {
                Err(ChangeError::OutOfRange { value: i, bound })
            },
            Change::Delta(i) => Ok(seq![wrapped(bound + i)]),
            Change::Range { lo, hi, offset } => if offset > 0 {
                Ok(steps(lo as int, hi as int, offset as int))
            } else {
                Ok(Seq::empty())
            },
        }
    }

    /// The lengths that the change asks for, for a side that is `bound` long. An
    /// absolute length must be below `bound`. A range with a step that is not
    /// positive gives no length; it must not end below its start.
    pub fn to_absolutes(&self, bound: usize) -> (lengths: Result<Vec<usize>, ChangeError>)
        requires
            self.terminates(),
        ensures
            match lengths {
                Ok(found) => self.spec_to_absolutes(bound) == Ok::<Seq<usize>, ChangeError>(found@),
                Err(error) => self.spec_to_absolutes(bound) == Err::<Seq<usize>, ChangeError>(error),
            },
    {
        match *self {
            Change::Absolute(i) => {
                if i < bound {
                    let mut absolutes = Vec::new();
                    absolutes.push(i);
                    assert(absolutes@ =~= seq![i]);
                    Ok(absolutes)
                } else {
                    Err(ChangeError::OutOfRange { value: i, bound })
                }
            },
            Change::Delta(i) => {
                let mut absolutes = Vec::new();
                absolutes.push(shifted(bound, i));
                assert(absolutes@ =~= seq![wrapped(bound + i)]);
                Ok(absolutes)
            },
            Change::Range { lo, hi, offset } => {
                let mut absolutes: Vec<usize> = Vec::new();
                if offset > 0 {
                    // Normal loop from lo up to hi.
                    let mut next = lo;
                    while next < hi
                        invariant_except_break
                            absolutes@ + steps(next as int, hi as int, offset as int) == steps(
                                lo as int,
                                hi as int,
                                offset as int,
                            ),
                        invariant
                            offset > 0,
                        ensures
                            absolutes@ == steps(lo as int, hi as int, offset as int),
                        decreases
                                (if next < hi {
                                    hi - next
                                } else {
                                    0
                                }),
                    {
                        absolutes.push(to_unsigned(next));
                        proof {
                            assert(absolutes@ + steps(next + offset, hi as int, offset as int)
                                =~= absolutes@.drop_last() + steps(
                                next as int,
                                hi as int,
                                offset as int,
                            ));
                        }
                        if next > isize::MAX - offset {
                            proof {
                                assert(absolutes@ + Seq::<usize>::empty() =~= absolutes@);
                            }
                            break ;
                        }
                        next += offset;
                    }
                    proof {
                        assert(absolutes@ + Seq::<usize>::empty() =~= absolutes@);
                    }
                }
                Ok(absolutes)
            },
        }
    }
}

/// Whether `byte` is a decimal digit.
pub open spec fn is_digit(byte: u8) -> bool {
    48 <= byte <= 57
}

/// Whether `text` is one or more decimal digits.
pub open spec fn all_digits(text: Seq<u8>) -> bool {
    text.len() > 0 && forall|i: int| 0 <= i < text.len() ==> is_digit(#[trigger] text[i])
}

/// The number that the decimal digits `text` spell.
pub open spec fn digits_value(text: Seq<u8>) -> int
    decreases text.len(),
{
    if text.len() == 0 {
        0
    } else {
        10 * digits_value(text.drop_last()) + (text.last() - 48)
    }
}

/// The integer that `text` spells: decimal digits, after a `+` or, where
/// `signed`, a `-`, or after no sign.
pub open spec fn number(text: Seq<u8>, signed: bool) -> Option<int> {
    if text.len() > 0 && text[0] == 43 {
        if all_digits(text.skip(1)) {
            Some(digits_value(text.skip(1)))
        } else {
            None
        }
    } else if signed && text.len() > 0 && text[0] == 45 {
        if all_digits(text.skip(1)) {
            Some(-digits_value(text.skip(1)))
        } else {
            None
        }
    } else if all_digits(text) {
        Some(digits_value(text))
    } else {
        None
    }
}

/// The `isize` that `text` spells, if it spells one.
pub open spec fn signed_number(text: Seq<u8>) -> Option<isize> {
    match number(text, true) {
        Some(value) => if isize::MIN <= value <= isize::MAX {
            Some(value as isize)
        } else {
            None
        },
        None => None,
    }
}

/// The `usize` that `text` spells, if it spells one.
pub open spec fn unsigned_number(text: Seq<u8>) -> Option<usize> {
    match number(text, false) {
        Some(value) => if value <= usize::MAX {
            Some(value as usize)
        } else {
            None
        },
        None => None,
    }
}

/// Where, from `from` on, `text` first holds two dots in a row; the length of
/// `text` where it holds none.
pub open spec fn find_dots(text: Seq<u8>, from: int) -> int
    decreases text.len() - from,
{
    if from < 0 || from + 1 >= text.len() {
        text.len() as int
    } else if text[from] == 46 && text[from + 1] == 46 {
        from
    } else {
        find_dots(text, from + 1)
    }
}

/// Whether `text` holds a `+` or a `-`.
pub open spec fn has_sign(text: Seq<u8>) -> bool {
    exists|i: int| 0 <= i < text.len() && (#[trigger] text[i] == 43 || text[i] == 45)
}

/// The change that `text` writes down.
///
/// With two dots in it, `text` is a range: `lo..hi` steps by one, `hi..lo` by
/// minus one, and `lo..step..hi` or `hi..step..lo` by `step`, which has to lead
/// from the first number towards the last. What follows a third pair of dots
/// is not read. Without two dots, a text with a sign in it is a difference, and
/// any other text is an absolute length.
pub open spec fn parsed(text: Seq<u8>) -> Result<Change, ChangeError> {
    let first = find_dots(text, 0);
    if first < text.len() {
        let second = find_dots(text, first + 2);
        match (
            signed_number(text.subrange(0, first)),
            signed_number(text.subrange(first + 2, second)),
        ) {
            (Some(a), Some(b)) => if second >= text.len() {
                if a <= b {
                    Ok(Change::Range { lo: a, hi: b, offset: 1isize })
                } else {
                    Ok(Change::Range { lo: b, hi: a, offset: (-1) as isize })
                }
            } else {
                let third = find_dots(text, second + 2);
                match signed_number(text.subrange(second + 2, third)) {
                    Some(c) => if a <= c {
                        if b > 0 {
                            Ok(Change::Range { lo: a, hi: c, offset: b })
                        } else {
                            Err(ChangeError::NeverTerminates)
                        }
                    } else {
                        if b < 0 {
                            Ok(Change::Range { lo: c, hi: a, offset: b })
                        } else {
                            Err(ChangeError::NeverTerminates)
                        }
                    },
                    None => Err(ChangeError::InvalidNumber),
                }
            },
            _ => Err(ChangeError::InvalidNumber),
        }
    } else if has_sign(text) {
        match signed_number(text) {
            Some(value) => Ok(Change::Delta(value)),
            None => Err(ChangeError::InvalidNumber),
        }
    } else {
        match unsigned_number(text) {
            Some(value) => Ok(Change::Absolute(value)),
            None => Err(ChangeError::InvalidNumber),
        }
    }
}

/// More than any `usize` or the magnitude of any `isize`.
const CAP: u128 = 0x1_0000_0000_0000_0000;

/// The number that the digits `text[from..to]` spell, or `CAP` where that
/// number is `CAP` or more; `None` where they are not one or more digits.
fn read_digits(text: &[u8], from: usize, to: usize) -> (value: Option<u128>)
    requires
        from <= to <= text@.len(),
    ensures
        match value {
            Some(v) => {
                &&& all_digits(text@.subrange(from as int, to as int))
                &&& v <= CAP
                &&& v < CAP ==> v == digits_value(text@.subrange(from as int, to as int))
                &&& v == CAP ==> digits_value(text@.subrange(from as int, to as int)) >= CAP
            },
            None => !all_digits(text@.subrange(from as int, to as int)),
        },
{
    let ghost part = text@.subrange(from as int, to as int);
    if from == to {
        return None;
    }
    let mut value: u128 = 0;
    let mut i: usize = from;
    while i < to
        invariant
            from <= i <= to <= text@.len(),
            part == text@.subrange(from as int, to as int),
            forall|k: int| 0 <= k < i - from ==> is_digit(#[trigger] part[k]),
            value <= CAP,
            value < CAP ==> value == digits_value(part.take(i - from)),
            value == CAP ==> digits_value(part.take(i - from)) >= CAP,
        decreases to - i,
    {
        let byte = text[i];
        if byte < 48 || byte > 57 {
            proof {
                assert(part[i - from] == byte);
            }
            return None;
        }
        proof {
            assert(part[i - from] == byte);
            let next = part.take(i - from + 1);
            assert(next.drop_last() =~= part.take(i - from));
            assert(next.last() == byte);
        }
        if value < CAP {
            value = value * 10 + (byte - 48) as u128;
            if value > CAP {
                value = CAP;
            }
        }
        i += 1;
    }
    proof {
        assert(part.take(to - from) =~= part);
    }
    Some(value)
}

/// The `isize` that `text[from..to]` spells, if it spells one.
fn read_signed(text: &[u8], from: usize, to: usize) -> (value: Option<isize>)
    requires
        from <= to <= text@.len(),
    ensures
        value == signed_number(text@.subrange(from as int, to as int)),
{
    let ghost part = text@.subrange(from as int, to as int);
    if from < to && (text[from] == 43 || text[from] == 45) {
        proof {
            assert(part[0] == text@[from as int]);
            assert(part.skip(1) =~= text@.subrange(from + 1, to as int));
        }
        let negative = text[from] == 45;
        match read_digits(text, from + 1, to) {
            Some(magnitude) => {
                if negative {
                    if magnitude <= isize::MAX as u128 {
                        Some(-(magnitude as isize))
                    } else if magnitude == isize::MAX as u128 + 1 {
                        Some(isize::MIN)
                    } else {
                        None
                    }
                } else {
                    if magnitude <= isize::MAX as u128 {
                        Some(magnitude as isize)
                    } else {
                        None
                    }
                }
            },
            None => None,
        }
    } else {
        proof {
            if from < to {
                assert(part[0] == text@[from as int]);
            }
        }
        match read_digits(text, from, to) {
            Some(magnitude) => {
                if magnitude <= isize::MAX as u128 {
                    Some(magnitude as isize)
                } else {
                    None
                }
            },
            None => None,
        }
    }
}

/// The `usize` that `text` spells, if it spells one.
fn read_unsigned(text: &[u8]) -> (value: Option<usize>)
    ensures
        value == unsigned_number(text@),
{
    let to = text.len();
    proof {
        assert(text@.subrange(0, to as int) =~= text@);
    }
    if 0 < to && text[0] == 43 {
        proof {
            assert(text@.skip(1) =~= text@.subrange(1, to as int));
        }
        match read_digits(text, 1, to) {
            Some(magnitude) => {
                if magnitude <= usize::MAX as u128 {
                    Some(magnitude as usize)
                } else {
                    None
                }
            },
            None => None,
        }
    } else {
        match read_digits(text, 0, to) {
            Some(magnitude) => {
                if magnitude <= usize::MAX as u128 {
                    Some(magnitude as usize)
                } else {
                    None
                }
            },
            None => None,
        }
    }
}

/// Where, from `from` on, `text` first holds two dots in a row.
fn seek_dots(text: &[u8], from: usize) -> (at: usize)
    requires
        from <= text@.len() + 2,
    ensures
        at == find_dots(text@, from as int),
        at <= text@.len(),
        at < text@.len() ==> from <= at && at + 2 <= text@.len(),
{
    let mut i: usize = from;
    while i < text.len() && i + 1 < text.len()
        invariant
            from <= i,
            find_dots(text@, i as int) == find_dots(text@, from as int),
        decreases text@.len() - i,
    {
        if text[i] == 46 && text[i + 1] == 46 {
            return i;
        }
        i += 1;
    }
    text.len()
}

/// Whether `text` holds a `+` or a `-`.
fn seek_sign(text: &[u8]) -> (found: bool)
    ensures
        found == has_sign(text@),
{
    let mut i: usize = 0;
    while i < text.len()
        invariant
            i <= text@.len(),
            forall|k: int| 0 <= k < i ==> !(#[trigger] text@[k] == 43 || text@[k] == 45),
        decreases text@.len() - i,
    {
        if text[i] == 43 || text[i] == 45 {
            return true;
        }
        i += 1;
    }
    false
}

impl core::str::FromStr for Change {
    type Err = ChangeError;

    /// Reads a change from its notation, as `Change::parse` does.
    fn from_str(s: &str) -> (change: Result<Self, Self::Err>)
        ensures
            change == parsed(s.spec_bytes()),
    {
        Change::parse(s)
    }
}

/// The change that `text` writes down.
fn parse_text(text: &[u8]) -> (change: Result<Change, ChangeError>)
    ensures
        change == parsed(text@),
{
    let first = seek_dots(text, 0);
    if first < text.len() {
        // This is a range of changes of the forms:
        // lo..hi
        // hi..lo
        // lo..+i..hi
        // hi..-i..lo
        let second = seek_dots(text, first + 2);
        let a = match read_signed(text, 0, first) {
            Some(a) => a,
            None => {
                return Err(ChangeError::InvalidNumber);
            },
        };
        let b = match read_signed(text, first + 2, second) {
            Some(b) => b,
            None => {
                return Err(ChangeError::InvalidNumber);
            },
        };
        if second >= text.len() {
            if a <= b {
                Ok(Change::Range { lo: a, hi: b, offset: 1 })
            } else {
                Ok(Change::Range { lo: b, hi: a, offset: -1 })
            }
        } else {
            let third = seek_dots(text, second + 2);
            let c = match read_signed(text, second + 2, third) {
                Some(c) => c,
                None => {
                    return Err(ChangeError::InvalidNumber);
                },
            };
            if a <= c {
                if b > 0 {
                    Ok(Change::Range { lo: a, hi: c, offset: b })
                } else {
                    Err(ChangeError::NeverTerminates)
                }
            } else {
                if b < 0 {
                    Ok(Change::Range { lo: c, hi: a, offset: b })
                } else {
                    Err(ChangeError::NeverTerminates)
                }
            }
        }
    } else if seek_sign(text) {
        // This is a relative change of the forms:
        // +n
        // -n
        proof {
            assert(text@.subrange(0, text@.len() as int) =~= text@);
        }
        match read_signed(text, 0, text.len()) {
            Some(value) => Ok(Change::Delta(value)),
            None => Err(ChangeError::InvalidNumber),
        }
    } else {
        // A plain number is an absolute length.
        match read_unsigned(text) {
            Some(value) => Ok(Change::Absolute(value)),
            None => Err(ChangeError::InvalidNumber),
        }
    }
}

/// A change that was read from its notation can be listed.
pub proof fn lemma_parsed_terminates(text: Seq<u8>)
    ensures
        match parsed(text) {
            Ok(change) => change.terminates(),
            Err(_) => true,
        },
{
}

impl Change {
    /// Reads a change from its notation.
    pub fn parse(s: &str) -> (change: Result<Change, ChangeError>)
        ensures
            change == parsed(s.spec_bytes()),
            match change {
                Ok(read) => read.terminates(),
                Err(_) => true,
            },
    {
        proof {
            lemma_parsed_terminates(s.spec_bytes());
        }
        parse_text(s.as_bytes())
    }
}

/// Where, from `from` on, `text` first holds `byte`; the length of `text` where
/// it does not.
pub open spec fn find_byte(text: Seq<u8>, byte: u8, from: int) -> int
    decreases text.len() - from,
{
    if from < 0 || from >= text.len() {
        text.len() as int
    } else if text[from] == byte {
        from
    } else {
        find_byte(text, byte, from + 1)
    }
}

/// The two changes that a size `WxH` writes down: the change `W` of the width
/// before the first `x`, and the change `H` of the height up to the next `x` or
/// the end.
pub open spec fn parsed_dimensions(text: Seq<u8>) -> Result<(Change, Change), ChangeError> {
    let first = find_byte(text, 120, 0);
    match parsed(text.subrange(0, first)) {
        Ok(width) => if first >= text.len() {
            Err(ChangeError::MissingHeight)
        } else {
            let second = find_byte(text, 120, first + 1);
            match parsed(text.subrange(first + 1, second)) {
                Ok(height) => Ok((width, height)),
                Err(_) => Err(ChangeError::MissingHeight),
            }
        },
        Err(_) => Err(ChangeError::MissingWidth),
    }
}

/// Where, from `from` on, `text` first holds `byte`.
fn seek_byte(text: &[u8], byte: u8, from: usize) -> (at: usize)
    requires
        from <= text@.len(),
    ensures
        at == find_byte(text@, byte, from as int),
        from <= at <= text@.len(),
{
    let mut i: usize = from;
    while i < text.len()
        invariant
            from <= i <= text@.len(),
            find_byte(text@, byte, i as int) == find_byte(text@, byte, from as int),
        decreases text@.len() - i,
    {
        if text[i] == byte {
            return i;
        }
        i += 1;
    }
    text.len()
}

/// The bytes `text[from..to]`.
fn part(text: &[u8], from: usize, to: usize) -> (bytes: Vec<u8>)
    requires
        from <= to <= text@.len(),
    ensures
        bytes@ == text@.subrange(from as int, to as int),
{
    let mut bytes: Vec<u8> = Vec::new();
    let mut i: usize = from;
    while i < to
        invariant
            from <= i <= to <= text@.len(),
            bytes@ == text@.subrange(from as int, i as int),
        decreases to - i,
    {
        bytes.push(text[i]);
        proof {
            assert(bytes@ =~= text@.subrange(from as int, i + 1));
        }
        i += 1;
    }
    bytes
}

/// Reads the two changes of a size written as `WxH`.
pub fn parse_dimensions(s: &str) -> (changes: Result<(Change, Change), ChangeError>)
    ensures
        changes == parsed_dimensions(s.spec_bytes()),
        match changes {
            Ok((width, height)) => width.terminates() && height.terminates(),
            Err(_) => true,
        },
{
    let text = s.as_bytes();
    let first = seek_byte(text, 120, 0);
    proof {
        lemma_parsed_terminates(text@.subrange(0, first as int));
    }
    let x = match parse_text(part(text, 0, first).as_slice()) {
        Ok(x) => x,
        Err(_) => {
            return Err(ChangeError::MissingWidth);
        },
    };
    if first >= text.len() {
        return Err(ChangeError::MissingHeight);
    }
    let second = seek_byte(text, 120, first + 1);
    proof {
        lemma_parsed_terminates(text@.subrange(first + 1, second as int));
    }
    let y = match parse_text(part(text, first + 1, second).as_slice()) {
        Ok(y) => y,
        Err(_) => {
            return Err(ChangeError::MissingHeight);
        },
    };
    Ok((x, y))
}

/// Every pair of a width from `widths` and a height from `heights`, the widths
/// in their order and under each width the heights in theirs.
pub open spec fn pairs(widths: Seq<usize>, heights: Seq<usize>) -> Seq<(usize, usize)> {
    Seq::new(
        widths.len() * heights.len(),
        |k: int| (widths[k / (heights.len() as int)], heights[k % (heights.len() as int)]),
    )
}

/// The sizes that a change of the width and a change of the height ask for,
/// for a picture of the size `size`. An error of the height is met only under
/// a width.
pub open spec fn spec_collect_both_dimensions(
    width_change: Change,
    height_change: Change,
    size: (usize, usize),
) -> Result<Seq<(usize, usize)>, ChangeError> {
    match width_change.spec_to_absolutes(size.0) {
        Ok(widths) => if widths.len() == 0 {
            Ok(Seq::empty())
        } else {
            match height_change.spec_to_absolutes(size.1) {
                Ok(heights) => Ok(pairs(widths, heights)),
                Err(error) => Err(error),
            }
        },
        Err(error) => Err(error),
    }
}

/// The sizes that a change of the width and a change of the height ask for:
/// each width with each height.
pub fn collect_both_dimensions(
    width_change: &Change,
    height_change: &Change,
    size: (usize, usize),
) -> (sizes: Result<Vec<(usize, usize)>, ChangeError>)
    requires
        width_change.terminates(),
        height_change.terminates(),
    ensures
        match sizes {
            Ok(found) => spec_collect_both_dimensions(*width_change, *height_change, size) == Ok::<
                Seq<(usize, usize)>,
                ChangeError,
            >(found@),
            Err(error) => spec_collect_both_dimensions(*width_change, *height_change, size) == Err::<
                Seq<(usize, usize)>,
                ChangeError,
            >(error),
        },
{
    let (width, height) = size;
    let mut res: Vec<(usize, usize)> = Vec::new();
    let widths = match width_change.to_absolutes(width) {
        Ok(widths) => widths,
        Err(error) => {
            return Err(error);
        },
    };
    if widths.len() == 0 {
        return Ok(res);
    }
    let heights = match height_change.to_absolutes(height) {
        Ok(heights) => heights,
        Err(error) => {
            return Err(error);
        },
    };
    let ghost all = pairs(widths@, heights@);
    let count = heights.len();
    let mut i: usize = 0;
    while i < widths.len()
        invariant
            i <= widths@.len(),
            count == heights@.len(),
            all == pairs(widths@, heights@),
            res@.len() == i * count,
            forall|k: int| 0 <= k < res@.len() ==> res@[k] == all[k],
        decreases widths@.len() - i,
    {
        let mut j: usize = 0;
        while j < count
            invariant
                i < widths@.len(),
                j <= count,
                count == heights@.len(),
                all == pairs(widths@, heights@),
                res@.len() == i * count + j,
                forall|k: int| 0 <= k < res@.len() ==> res@[k] == all[k],
            decreases count - j,
        {
            proof {
                let k = i * count + j;
                let n = count as int;
                assert(k / n == i && k % n == j) by {
                    lemma_fundamental_div_mod_converse(k as int, n, i as int, j as int);
                }
                assert(k < widths@.len() * n) by (nonlinear_arith)
                    requires
                        k == i * n + j,
                        0 <= j < n,
                        0 <= i < widths@.len(),
                ;
            }
            res.push((widths[i], heights[j]));
            j += 1;
        }
        proof {
            assert((i + 1) * count == i * count + count) by (nonlinear_arith);
        }
        i += 1;
    }
    proof {
        assert(res@ =~= all);
    }
    Ok(res)
}

/// Each of `values` beside `fixed`: as the width of the pair where `first`, as
/// its height where not.
pub open spec fn beside(values: Seq<usize>, fixed: usize, first: bool) -> Seq<(usize, usize)> {
    Seq::new(
        values.len(),
        |k: int|
            if first {
                (values[k], fixed)
            } else {
                (fixed, values[k])
            },
    )
}

/// The sizes that the arguments ask for, for a picture of the size `size`: a
/// pair of changes `dimensions` goes before single changes; a single change
/// leaves the other side as it is; and with no change at all there is nothing
/// to do, which is an error.
pub open spec fn spec_target_dimensions(
    size: (usize, usize),
    dimensions: Option<(Change, Change)>,
    width: Option<Change>,
    height: Option<Change>,
) -> Result<Seq<(usize, usize)>, ChangeError> {
    match dimensions {
        Some((w, h)) => spec_collect_both_dimensions(w, h, size),
        None => match (width, height) {
            (None, None) => Err(ChangeError::NoDimensions),
            (None, Some(h)) => match h.spec_to_absolutes(size.1) {
                Ok(heights) => Ok(beside(heights, size.0, false)),
                Err(error) => Err(error),
            },
            (Some(w), None) => match w.spec_to_absolutes(size.0) {
                Ok(widths) => Ok(beside(widths, size.1, true)),
                Err(error) => Err(error),
            },
            (Some(w), Some(h)) => spec_collect_both_dimensions(w, h, size),
        },
    }
}

/// Each of `values` beside `fixed`.
fn pair_up(values: Vec<usize>, fixed: usize, first: bool) -> (sizes: Vec<(usize, usize)>)
    ensures
        sizes@ == beside(values@, fixed, first),
{
    let mut sizes: Vec<(usize, usize)> = Vec::new();
    let mut k: usize = 0;
    while k < values.len()
        invariant
            k <= values@.len(),
            sizes@.len() == k,
            forall|i: int| 0 <= i < k ==> sizes@[i] == beside(values@, fixed, first)[i],
        decreases values@.len() - k,
    {
        if first {
            sizes.push((values[k], fixed));
        } else {
            sizes.push((fixed, values[k]));
        }
        k += 1;
    }
    proof {
        assert(sizes@ =~= beside(values@, fixed, first));
    }
    sizes
}

/// The sizes to resize to, in order, for a picture of the size `size`.
pub fn get_target_dimensions(
    size: (usize, usize),
    dimensions: &Option<(Change, Change)>,
    width: &Option<Change>,
    height: &Option<Change>,
) -> (sizes: Result<Vec<(usize, usize)>, ChangeError>)
    requires
        match *dimensions {
            Some((w, h)) => w.terminates() && h.terminates(),
            None => true,
        },
        match *width {
            Some(w) => w.terminates(),
            None => true,
        },
        match *height {
            Some(h) => h.terminates(),
            None => true,
        },
    ensures
        match sizes {
            Ok(found) => spec_target_dimensions(size, *dimensions, *width, *height) == Ok::<
                Seq<(usize, usize)>,
                ChangeError,
            >(found@),
            Err(error) => spec_target_dimensions(size, *dimensions, *width, *height) == Err::<
                Seq<(usize, usize)>,
                ChangeError,
            >(error),
        },
{
    match dimensions {
        Some((w, h)) => {
            return collect_both_dimensions(w, h, size);
        },
        None => {},
    }

    match (width, height) {
        (None, None) => Err(ChangeError::NoDimensions),
        (None, Some(height_change)) => match height_change.to_absolutes(size.1) {
            Ok(heights) => Ok(pair_up(heights, size.0, false)),
            Err(error) => Err(error),
        },
        (Some(width_change), None) => match width_change.to_absolutes(size.0) {
            Ok(widths) => Ok(pair_up(widths, size.1, true)),
            Err(error) => Err(error),
        },
        (Some(width_change), Some(height_change)) => {
            collect_both_dimensions(width_change, height_change, size)
        },
    }
}

} // verus!
