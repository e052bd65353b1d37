//! The size of the terminal in pixels, worked out from what the terminal reports
//! about itself.

use vstd::prelude::*;
use vstd::slice::slice_subrange;

verus! {

/// The width in pixels that a column of text is taken to have.
pub const PIXELS_PER_COLUMN: usize = 9;

/// The size that is assumed when the terminal reports nothing usable.
pub open spec fn default_size() -> (usize, usize) {
    (1920, 1080)
}

/// Whether a byte is ASCII white space.
pub open spec fn is_space(b: u8) -> bool {
    b == 0x20 || (0x09 <= b <= 0x0d)
}

/// Whether a byte is an ASCII digit.
pub open spec fn is_digit(b: u8) -> bool {
    0x30 <= b <= 0x39
}

/// The text without the white space at its start.
pub open spec fn trim_start(text: Seq<u8>) -> Seq<u8>
    decreases text.len(),
{
    if text.len() > 0 && is_space(text[0]) {
        trim_start(text.skip(1))
    } else {
        text
    }
}

/// The text without the white space at its end.
pub open spec fn trim_end(text: Seq<u8>) -> Seq<u8>
    decreases text.len(),
{
    if text.len() > 0 && is_space(text.last()) {
        trim_end(text.drop_last())
    } else {
        text
    }
}

/// The text without the white space around it.
pub open spec fn trimmed(text: Seq<u8>) -> Seq<u8> {
    trim_end(trim_start(text))
}

/// Whether a text consists of digits only.
pub open spec fn all_digits(text: Seq<u8>) -> bool {
    forall|i: int| 0 <= i < text.len() ==> is_digit(#[trigger] text[i])
}

/// The number that a run of digits writes in base ten.
pub open spec fn digits_value(text: Seq<u8>) -> nat
    decreases text.len(),
{
    if text.len() == 0 {
        0
    } else {
        digits_value(text.drop_last()) * 10 + (text.last() - 0x30) as nat
    }
}

/// The number that a text writes: one digit or more, after a plus sign or none, with
/// a value that a `usize` can hold. Any other text writes no number.
pub open spec fn parsed_number(text: Seq<u8>) -> Option<usize> {
    let digits = if text.len() > 0 && text[0] == 0x2b {
        text.skip(1)
    } else {
        text
    };
    if digits.len() > 0 && all_digits(digits) && digits_value(digits) <= usize::MAX {
        Some(digits_value(digits) as usize)
    } else {
        None
    }
}

/// Whether `i` is the place of the first `x` of a text.
pub open spec fn is_first_x(text: Seq<u8>, i: int) -> bool {
    0 <= i < text.len() && text[i] == 0x78 && forall|k: int| 0 <= k < i ==> text[k] != 0x78
}

/// The size that a report of the form `WxH` states: two numbers with an `x` between
/// them and nothing else but white space around them.
pub open spec fn parsed_size(report: Seq<u8>) -> Option<(usize, usize)> {
    let text = trimmed(report);
    if exists|i: int| is_first_x(text, i) {
        let i = choose|i: int| is_first_x(text, i);
        match (parsed_number(text.take(i)), parsed_number(text.skip(i + 1))) {
            (Some(w), Some(h)) => Some((w, h)),
            _ => None,
        }
    } else {
        None
    }
}

/// The size that is estimated for a terminal of the given number of columns: nine
/// pixels per column, and three quarters of that width as the height. No size is
/// estimated where the width would not fit a `usize` three times over.
pub open spec fn estimated_size(columns: usize) -> Option<(usize, usize)> {
    if columns * PIXELS_PER_COLUMN * 3 <= usize::MAX {
        Some(
            (
                (columns * PIXELS_PER_COLUMN) as usize,
                (columns * PIXELS_PER_COLUMN * 3 / 4) as usize,
            ),
        )
    } else {
        None
    }
}

/// The size of the terminal: the size that the terminal's own report states if it
/// states one, else the size estimated from the reported number of columns if there
/// is one, else the default size.
pub open spec fn pixel_size(size_report: Option<Seq<u8>>, columns_report: Option<Seq<u8>>) -> (
    usize,
    usize,
) {
    if size_report is Some && parsed_size(size_report->0) is Some {
        parsed_size(size_report->0)->0
    } else if columns_report is Some && parsed_number(trimmed(columns_report->0)) is Some
        && estimated_size(parsed_number(trimmed(columns_report->0))->0) is Some {
        estimated_size(parsed_number(trimmed(columns_report->0))->0)->0
    } else {
        default_size()
    }
}

/// A report as a sequence.
pub open spec fn report_view(report: Option<&[u8]>) -> Option<Seq<u8>> {
    match report {
        Some(r) => Some(r@),
        None => None,
    }
}

/// Where the text without its surrounding white space starts and ends.
fn trim_bounds(text: &[u8]) -> (bounds: (usize, usize))
    ensures
        bounds.0 <= bounds.1 <= text@.len(),
        text@.subrange(bounds.0 as int, bounds.1 as int) == trimmed(text@),
{
    let mut start: usize = 0;
    proof {
        assert(text@.skip(0) =~= text@);
    }
    while start < text.len() && space(text[start])
        invariant
            start <= text@.len(),
            trim_start(text@) == trim_start(text@.skip(start as int)),
        decreases text.len() - start,
    {
        proof {
            assert(text@.skip(start as int).skip(1) =~= text@.skip(start + 1));
        }
        start += 1;
    }
    assert(trim_start(text@) == text@.skip(start as int));
    let mut end: usize = text.len();
    proof {
        assert(text@.subrange(start as int, end as int) =~= text@.skip(start as int));
    }
    while end > start && space(text[end - 1])
        invariant
            start <= end <= text@.len(),
            trimmed(text@) == trim_end(text@.subrange(start as int, end as int)),
        decreases end,
    {
        proof {
            assert(text@.subrange(start as int, end as int).drop_last() =~= text@.subrange(
                start as int,
                end - 1,
            ));
        }
        end -= 1;
    }
    (start, end)
}

/// Tests whether a byte is ASCII white space.
fn space(b: u8) -> (yes: bool)
    ensures
        yes == is_space(b),
{
    b == 0x20 || (0x09 <= b && b <= 0x0d)
}

/// A longer run of digits writes no smaller a number.
proof fn lemma_digits_grow(text: Seq<u8>, n: int)
    requires
        0 <= n <= text.len(),
        all_digits(text),
    ensures
        digits_value(text.take(n)) <= digits_value(text),
    decreases text.len() - n,
{
    if n < text.len() {
        lemma_digits_grow(text, n + 1);
        assert(text.take(n + 1).drop_last() =~= text.take(n));
        assert(is_digit(text[n]));
    } else {
        assert(text.take(n) =~= text);
    }
}

/// Reads the number that a run of digits writes, if a `usize` can hold it.
fn parse_digits(text: &[u8]) -> (r: Option<usize>)
    ensures
        r == if text@.len() > 0 && all_digits(text@) && digits_value(text@) <= usize::MAX {
            Some(digits_value(text@) as usize)
        } else {
            None
        },
{
    if text.len() == 0 {
        return None;
    }
    let mut value: usize = 0;
    let mut i: usize = 0;
    proof {
        assert(text@.take(0) =~= Seq::<u8>::empty());
    }
    while i < text.len()
        invariant
            i <= text@.len(),
            all_digits(text@.take(i as int)),
            value == digits_value(text@.take(i as int)),
        decreases text.len() - i,
    {
        let b = text[i];
        if b < 0x30 || b > 0x39 {
            assert(!is_digit(text@[i as int]));
            return None;
        }
        let d = (b - 0x30) as usize;
        proof {
            assert(text@.take(i + 1).drop_last() =~= text@.take(i as int));
            assert(all_digits(text@.take(i + 1))) by {
                assert forall|k: int| 0 <= k < i + 1 implies is_digit(
                    #[trigger] text@.take(i + 1)[k],
                ) by {
                    if k < i {
                        assert(text@.take(i as int)[k] == text@[k]);
                    }
                }
            }
        }
        if value > (usize::MAX - d) / 10 {
            proof {
                if all_digits(text@) {
                    lemma_digits_grow(text@, i + 1);
                }
            }
            return None;
        }
        value = value * 10 + d;
        i += 1;
    }
    proof {
        assert(text@.take(text@.len() as int) =~= text@);
    }
    Some(value)
}

/// Reads the number that a text writes, if it writes one.
pub fn parse_number(text: &[u8]) -> (r: Option<usize>)
    ensures
        r == parsed_number(text@),
{
    if text.len() > 0 && text[0] == 0x2b {
        let digits = slice_subrange(text, 1, text.len());
        assert(digits@ =~= text@.skip(1));
        parse_digits(digits)
    } else {
        parse_digits(text)
    }
}

/// Reads the size that a report of the form `WxH` states, if it states one.
pub fn parse_window_size(report: &[u8]) -> (r: Option<(usize, usize)>)
    ensures
        r == parsed_size(report@),
{
    let bounds = trim_bounds(report);
    let text = slice_subrange(report, bounds.0, bounds.1);
    let mut i: usize = 0;
    while i < text.len() && text[i] != 0x78
        invariant
            i <= text@.len(),
            forall|k: int| 0 <= k < i ==> text@[k] != 0x78,
        decreases text.len() - i,
    {
        i += 1;
    }
    if i == text.len() {
        assert(forall|j: int| !is_first_x(text@, j));
        return None;
    }
    proof {
        assert(is_first_x(text@, i as int));
        let chosen = choose|j: int| is_first_x(text@, j);
        assert(chosen == i) by {
            if chosen < i {
                assert(text@[chosen] != 0x78);
            }
            if i < chosen {
                assert(text@[i as int] != 0x78);
            }
        }
    }
    let left = slice_subrange(text, 0, i);
    let right = slice_subrange(text, i + 1, text.len());
    assert(left@ =~= text@.take(i as int));
    assert(right@ =~= text@.skip(i + 1));
    match parse_number(left) {
        None => None,
        Some(w) => match parse_number(right) {
            None => None,
            Some(h) => Some((w, h)),
        },
    }
}

/// Estimates the size of a terminal from its number of columns.
pub fn estimate_size(columns: usize) -> (r: Option<(usize, usize)>)
    ensures
        r == estimated_size(columns),
{
    if columns > usize::MAX / 27 {
        return None;
    }
    let width = columns * PIXELS_PER_COLUMN;
    Some((width, width * 3 / 4))
}

/// Works out the size of the terminal in pixels from the terminal's report of its
/// size, where there is one, and its report of its number of columns, where there is
/// one.
pub fn terminal_pixel_size(size_report: Option<&[u8]>, columns_report: Option<&[u8]>) -> (size: (
    usize,
    usize,
))
    ensures
        size == pixel_size(report_view(size_report), report_view(columns_report)),
{
    match size_report {
        Some(report) => match parse_window_size(report) {
            Some(size) => {
                return size;
            },
            None => {},
        },
        None => {},
    }
    match columns_report {
        Some(report) => {
            let bounds = trim_bounds(report);
            let text = slice_subrange(report, bounds.0, bounds.1);
            match parse_number(text) {
                Some(columns) => match estimate_size(columns) {
                    Some(size) => {
                        return size;
                    },
                    None => {},
                },
                None => {},
            }
        },
        None => {},
    }
    (1920, 1080)
}

} // verus!
