//! Render options: the image size, parsing of the textual forms of sizes and
//! colours, the default colour scheme, and the checks a request must pass
//! before any tile is rendered.
use crate::pixels::buffer_fits;
use vstd::prelude::*;
use vstd::string::StringSliceAdditionalSpecFns;

verus! {

/// The byte of `,`, between the channels of a colour.
pub const COMMA: u8 = 44;

/// The byte of `x`, between the width and the height of a size.
pub const TIMES: u8 = 120;

/// The byte of `+`, which may lead a number.
pub const PLUS: u8 = 43;

/// The byte of the digit `0`.
pub const ZERO: u8 = 48;

/// The byte of the digit `9`.
pub const NINE: u8 = 57;

/// Width and height of an image in pixels.
#[derive(Clone, Copy, Debug, PartialEq, Eq, Structural)]
pub struct ImageSize {
    pub x: u32,
    pub y: u32,
}

/// Why a size or colour given as text was refused.
#[derive(Clone, Copy, Debug, PartialEq, Eq, Structural)]
pub enum ParseError {
    /// A field is not a decimal number in range.
    InvalidNumber,
    /// The text has this many fields, which is not what was expected.
    WrongFieldCount(usize),
}

/// Why a render request was refused.
#[derive(Clone, Copy, Debug, PartialEq, Eq, Structural)]
pub enum ConfigError {
    /// The image has no pixels.
    EmptyImage,
    /// The iteration limit is zero.
    NoIterations,
    /// The colour scheme has no stops.
    NoColours,
    /// No worker was asked for.
    NoWorkers,
    /// The image's bytes would not fit in memory's address range.
    TooLarge,
}

/// The fields of `s` between the separators `sep`, as `str::split` gives
/// them: an empty `s` has one empty field.
pub open spec fn split_fields(s: Seq<u8>, sep: u8) -> Seq<Seq<u8>>
    decreases s.len(),
{
    if s.len() == 0 {
        seq![Seq::empty()]
    } else {
        let f = split_fields(s.drop_last(), sep);
        if s.last() == sep {
            f.push(Seq::empty())
        } else {
            f.update(f.len() - 1, f.last().push(s.last()))
        }
    }
}

/// Whether byte `b` is a decimal digit.
pub open spec fn is_digit(b: u8) -> bool {
    ZERO <= b <= NINE
}

/// The number the decimal digits `d` spell.
pub open spec fn digits_value(d: Seq<u8>) -> int
    decreases d.len(),
{
    if d.len() == 0 {
        0
    } else {
        digits_value(d.drop_last()) * 10 + (d.last() - ZERO)
    }
}

/// Field `s` without the `+` that may lead it.
pub open spec fn unsigned_part(s: Seq<u8>) -> Seq<u8> {
    if s.len() > 0 && s[0] == PLUS {
        s.drop_first()
    } else {
        s
    }
}

/// Whether `d` is one or more decimal digits.
pub open spec fn all_digits(d: Seq<u8>) -> bool {
    d.len() > 0 && forall|i: int| 0 <= i < d.len() ==> is_digit(#[trigger] d[i])
}

/// The number field `s` holds, read as `str::parse` reads an unsigned integer
/// no larger than `max`: an optional `+`, then one or more decimal digits.
pub open spec fn decimal_value(s: Seq<u8>, max: int) -> Option<int> {
    let d = unsigned_part(s);
    if all_digits(d) && digits_value(d) <= max {
        Some(digits_value(d))
    } else {
        None
    }
}

/// Every field of `fields` is a number no larger than `max`.
pub open spec fn all_numbers(fields: Seq<Seq<u8>>, max: int) -> bool {
    forall|i: int| 0 <= i < fields.len() ==> #[trigger] decimal_value(fields[i], max) is Some
}

/// The colour scheme used where fewer than two stops are given.
pub open spec fn default_colours() -> Seq<[u8; 3]> {
    seq![[2u8, 2u8, 11u8], [255u8, 97u8, 211u8], [0u8, 166u8, 166u8], [230u8, 170u8, 104u8], [140u8, 39u8, 30u8], [187u8, 222u8, 240u8]]
}

proof fn lemma_split_fields_nonempty(s: Seq<u8>, sep: u8)
    ensures
        split_fields(s, sep).len() >= 1,
    decreases s.len(),
{
    if s.len() > 0 {
        lemma_split_fields_nonempty(s.drop_last(), sep);
    }
}

proof fn lemma_digits_value_nonnegative(d: Seq<u8>)
    requires
        forall|i: int| 0 <= i < d.len() ==> is_digit(#[trigger] d[i]),
    ensures
        digits_value(d) >= 0,
    decreases d.len(),
{
    if d.len() > 0 {
        lemma_digits_value_nonnegative(d.drop_last());
    }
}

/// Splits `s` at every `sep`, as `str::split` does.
fn split_at_separator(s: &[u8], sep: u8) -> (r: Vec<Vec<u8>>)
    ensures
        r@.len() == split_fields(s@, sep).len(),
        forall|i: int| 0 <= i < r@.len() ==> #[trigger] r@[i]@ == split_fields(s@, sep)[i],
{
    let mut fields: Vec<Vec<u8>> = Vec::new();
    let mut cur: Vec<u8> = Vec::new();
    let mut j: usize = 0;
    assert(s@.subrange(0, 0) =~= Seq::<u8>::empty());
    while j < s.len()
        invariant
            j <= s@.len(),
            split_fields(s@.subrange(0, j as int), sep).len() == fields@.len() + 1,
            forall|i: int|
                0 <= i < fields@.len() ==> #[trigger] fields@[i]@ == split_fields(
                    s@.subrange(0, j as int),
                    sep,
                )[i],
            cur@ == split_fields(s@.subrange(0, j as int), sep).last(),
        decreases s@.len() - j,
    {
        let b = s[j];
        proof {
            assert(s@.subrange(0, j as int + 1).drop_last() =~= s@.subrange(0, j as int));
        }
        if b == sep {
            fields.push(cur);
            cur = Vec::new();
        } else {
            cur.push(b);
        }
        j = j + 1;
    }
    fields.push(cur);
    assert(s@.subrange(0, s@.len() as int) =~= s@);
    fields
}

/// Reads field `f` as a decimal number no larger than `max`, as `str::parse`
/// reads an unsigned integer.
fn parse_decimal(f: &[u8], max: u32) -> (r: Option<u32>)
    ensures
        r is Some <==> decimal_value(f@, max as int) is Some,
        r matches Some(v) ==> decimal_value(f@, max as int) == Some(v as int),
{
    let start: usize = if f.len() > 0 && f[0] == PLUS {
        1
    } else {
        0
    };
    let ghost d = unsigned_part(f@);
    assert(d =~= f@.subrange(start as int, f@.len() as int));
    if start == f.len() {
        return None;
    }
    let cap: u64 = max as u64 + 1;
    let mut acc: u64 = 0;
    let mut j: usize = start;
    assert(d.subrange(0, 0) =~= Seq::<u8>::empty());
    while j < f.len()
        invariant
            start <= j <= f@.len(),
            start == (if f@.len() > 0 && f@[0] == PLUS {
                1int
            } else {
                0int
            }),
            d == unsigned_part(f@),
            d == f@.subrange(start as int, f@.len() as int),
            cap == max + 1,
            forall|i: int| 0 <= i < j - start ==> is_digit(#[trigger] d[i]),
            acc == if digits_value(d.subrange(0, j - start)) <= max {
                digits_value(d.subrange(0, j - start))
            } else {
                cap as int
            },
        decreases f@.len() - j,
    {
        let b = f[j];
        if b < ZERO || b > NINE {
            assert(d[j - start] == b);
            return None;
        }
        proof {
            let prev = d.subrange(0, j - start);
            let next = d.subrange(0, j - start + 1);
            assert(next.drop_last() =~= prev);
            assert(forall|i: int| 0 <= i < prev.len() ==> #[trigger] prev[i] == d[i]);
            lemma_digits_value_nonnegative(prev);
        }
        let digit: u64 = (b - ZERO) as u64;
        let grown: u64 = acc * 10 + digit;
        acc = if grown > cap {
            cap
        } else {
            grown
        };
        j = j + 1;
    }
    assert(d.subrange(0, d.len() as int) =~= d);
    if acc <= max as u64 {
        Some(acc as u32)
    } else {
        None
    }
}

/// Reads a colour written as `<r>,<g>,<b>`, each channel a decimal number no
/// larger than 255.
pub fn parse_rgb(src: &str) -> (r: Result<[u8; 3], ParseError>)
    ensures
        ({
            let fields = split_fields(src.spec_bytes(), COMMA);
            match r {
                Ok(c) => all_numbers(fields, 255) && fields.len() == 3 && forall|k: int|
                    0 <= k < 3 ==> decimal_value(fields[k], 255) == Some(#[trigger] c@[k] as int),
                Err(ParseError::InvalidNumber) => !all_numbers(fields, 255),
                Err(ParseError::WrongFieldCount(n)) => all_numbers(fields, 255) && n == fields.len()
                    && n != 3,
            }
        }),
{
    let bytes = src.as_bytes();
    let fields = split_at_separator(bytes, COMMA);
    let ghost spec_fields = split_fields(src.spec_bytes(), COMMA);
    let mut channels: Vec<u8> = Vec::new();
    let mut i: usize = 0;
    while i < fields.len()
        invariant
            i <= fields@.len(),
            spec_fields == split_fields(src.spec_bytes(), COMMA),
            fields@.len() == spec_fields.len(),
            forall|k: int| 0 <= k < fields@.len() ==> #[trigger] fields@[k]@ == spec_fields[k],
            channels@.len() == i,
            forall|k: int|
                0 <= k < i ==> decimal_value(spec_fields[k], 255) == Some(
                    #[trigger] channels@[k] as int,
                ),
        decreases fields@.len() - i,
    {
        match parse_decimal(fields[i].as_slice(), 255) {
            None => {
                assert(fields[i as int]@ == spec_fields[i as int]);
                assert(decimal_value(spec_fields[i as int], 255) is None);
                return Err(ParseError::InvalidNumber);
            },
            Some(v) => {
                channels.push(v as u8);
            },
        }
        i = i + 1;
    }
    assert(all_numbers(spec_fields, 255)) by {
        assert forall|k: int| 0 <= k < spec_fields.len() implies #[trigger] decimal_value(
            spec_fields[k],
            255,
        ) is Some by {
            assert(decimal_value(spec_fields[k], 255) == Some(channels@[k] as int));
        }
    }
    if channels.len() != 3 {
        return Err(ParseError::WrongFieldCount(channels.len()));
    }
    let c = [channels[0], channels[1], channels[2]];
    assert(forall|k: int| 0 <= k < 3 ==> #[trigger] c@[k] == channels@[k]);
    Ok(c)
}

/// Reads an image size written as `<width>x<height>`; text after a second
/// `x` is ignored.
pub fn parse_size(src: &str) -> (r: Result<ImageSize, ParseError>)
    ensures
        ({
            let fields = split_fields(src.spec_bytes(), TIMES);
            let width = decimal_value(fields[0], u32::MAX as int);
            let height = decimal_value(fields[1], u32::MAX as int);
            match r {
                Ok(size) => fields.len() >= 2 && width == Some(size.x as int) && height == Some(
                    size.y as int,
                ),
                Err(ParseError::InvalidNumber) => width is None || (fields.len() >= 2
                    && height is None),
                Err(ParseError::WrongFieldCount(n)) => width is Some && fields.len() < 2 && n
                    == fields.len(),
            }
        }),
{
    let bytes = src.as_bytes();
    let fields = split_at_separator(bytes, TIMES);
    proof {
        lemma_split_fields_nonempty(src.spec_bytes(), TIMES);
    }
    let x = match parse_decimal(fields[0].as_slice(), u32::MAX) {
        None => {
            return Err(ParseError::InvalidNumber);
        },
        Some(v) => v,
    };
    if fields.len() < 2 {
        return Err(ParseError::WrongFieldCount(fields.len()));
    }
    let y = match parse_decimal(fields[1].as_slice(), u32::MAX) {
        None => {
            return Err(ParseError::InvalidNumber);
        },
        Some(v) => v,
    };
    Ok(ImageSize { x, y })
}

/// The colour scheme to render with: the given stops, or the default scheme
/// where fewer than two are given.
pub fn colour_scheme(colours: Vec<[u8; 3]>) -> (r: Vec<[u8; 3]>)
    ensures
        r@ == if colours@.len() <= 1 {
            default_colours()
        } else {
            colours@
        },
{
    if colours.len() <= 1 {
        let r = vec![[2, 2, 11], [255, 97, 211], [0, 166, 166], [230, 170, 104], [140, 39, 30], [187, 222, 240]];
        assert(r@ =~= default_colours());
        r
    } else {
        colours
    }
}

/// Checks a render request before any tile is dispatched: the image must
/// have pixels and fit in memory, and there must be iterations, colour stops
/// and workers. The first failing check names the error.
pub fn check_parameters(size: ImageSize, iterations: u32, threads: u32, colours: &[[u8; 3]]) -> (r:
    Result<(), ConfigError>)
    ensures
        r == if size.x == 0 || size.y == 0 {
            Err(ConfigError::EmptyImage)
        } else if iterations == 0 {
            Err(ConfigError::NoIterations)
        } else if colours@.len() == 0 {
            Err(ConfigError::NoColours)
        } else if threads == 0 {
            Err(ConfigError::NoWorkers)
        } else if !buffer_fits(size.x as int, size.y as int) {
            Err(ConfigError::TooLarge)
        } else {
            Ok(())
        },
{
    if size.x == 0 || size.y == 0 {
        return Err(ConfigError::EmptyImage);
    }
    if iterations == 0 {
        return Err(ConfigError::NoIterations);
    }
    if colours.len() == 0 {
        return Err(ConfigError::NoColours);
    }
    if threads == 0 {
        return Err(ConfigError::NoWorkers);
    }
    assert(size.x * size.y <= 0xffff_ffff * 0xffff_ffff) by (nonlinear_arith)
        requires
            size.x <= 0xffff_ffff,
            size.y <= 0xffff_ffff,
    ;
    let area = (size.x as u128) * (size.y as u128);
    assert(area * 3 == 3 * size.x * size.y) by (nonlinear_arith)
        requires
            area == size.x * size.y,
    ;
    if area * 3 > usize::MAX as u128 {
        return Err(ConfigError::TooLarge);
    }
    Ok(())
}

} // verus!
