//! Configuration values.
//!
//! The target resolution arrives as a `WxH` string; the iteration count of a
//! transition combines the frame rate with the transition duration; the
//! pacing of the still-image sink is the whole number of milliseconds each
//! frame is shown. Configuration errors are fatal at startup, so each parser
//! says exactly which inputs it accepts.
use vstd::prelude::*;
use vstd::string::StrSliceExecFns;
use vstd::string::StringExecFns;

verus! {

/// The numeric value of a decimal digit, with any other character marked by
/// a value of ten.
pub open spec fn digit_val(c: char) -> int {
    if c == '0' {
        0
    } else if c == '1' {
        1
    } else if c == '2' {
        2
    } else if c == '3' {
        3
    } else if c == '4' {
        4
    } else if c == '5' {
        5
    } else if c == '6' {
        6
    } else if c == '7' {
        7
    } else if c == '8' {
        8
    } else if c == '9' {
        9
    } else {
        10
    }
}

/// Whether a character is a decimal digit.
pub open spec fn is_digit(c: char) -> bool {
    digit_val(c) < 10
}

/// A nonempty run of decimal digits.
pub open spec fn all_digits(s: Seq<char>) -> bool {
    s.len() > 0 && forall|i: int| 0 <= i < s.len() ==> is_digit(#[trigger] s[i])
}

/// The number a run of decimal digits denotes.
pub open spec fn dec_value(s: Seq<char>) -> int
    decreases s.len(),
{
    if s.len() == 0 {
        0
    } else {
        dec_value(s.drop_last()) * 10 + digit_val(s.last())
    }
}

/// A digit run never denotes a negative number.
pub proof fn lemma_dec_value_nonneg(s: Seq<char>)
    requires
        forall|i: int| 0 <= i < s.len() ==> is_digit(#[trigger] s[i]),
    ensures
        dec_value(s) >= 0,
    decreases s.len(),
{
    if s.len() > 0 {
        lemma_dec_value_nonneg(s.drop_last());
        assert(dec_value(s.drop_last()) * 10 >= 0) by (nonlinear_arith)
            requires
                dec_value(s.drop_last()) >= 0,
        ;
    }
}

/// Appending digits never shrinks the denoted number, so a prefix already too
/// large condemns the whole run.
pub proof fn lemma_dec_value_prefix_le(s: Seq<char>, i: int)
    requires
        forall|k: int| 0 <= k < s.len() ==> is_digit(#[trigger] s[k]),
        0 <= i <= s.len(),
    ensures
        dec_value(s.take(i)) <= dec_value(s),
    decreases s.len() - i,
{
    if i < s.len() {
        lemma_dec_value_prefix_le(s, i + 1);
        let p = s.take(i);
        let q = s.take(i + 1);
        assert(q.drop_last() =~= p);
        lemma_dec_value_nonneg(p);
        assert(dec_value(q) == dec_value(p) * 10 + digit_val(q.last()));
        assert(dec_value(p) * 10 >= dec_value(p)) by (nonlinear_arith)
            requires
                dec_value(p) >= 0,
        ;
    } else {
        assert(s.take(i) =~= s);
    }
}

/// Why a configuration value was rejected; any of these ends the program at
/// startup.
#[derive(Debug, PartialEq, Eq, Structural)]
pub enum ConfigError {
    /// The resolution has no `x` separating width from height.
    MissingHeight,
    /// The width is empty or holds a character that is no decimal digit.
    InvalidWidth,
    /// The width does not fit the pixel-count range.
    WidthTooLarge,
    /// The height is empty or holds a character that is no decimal digit.
    InvalidHeight,
    /// The height does not fit the pixel-count range.
    HeightTooLarge,
    /// Frame rate times transition duration does not fit the iteration range.
    IterationOverflow,
    /// Neither a directory nor a fallback root was given.
    MissingDirectory,
}

/// Why a digit run was rejected.
#[derive(Debug, PartialEq, Eq, Structural)]
pub enum NumError {
    /// Empty, or holding a character that is no decimal digit.
    Invalid,
    /// A well-formed number beyond the requested range.
    TooLarge,
}

/// The value of a digit character.
fn digit_of(c: char) -> (r: u32)
    ensures
        r == digit_val(c),
{
    match c {
        '0' => 0,
        '1' => 1,
        '2' => 2,
        '3' => 3,
        '4' => 4,
        '5' => 5,
        '6' => 6,
        '7' => 7,
        '8' => 8,
        '9' => 9,
        _ => 10,
    }
}

/// Parses a nonempty run of decimal digits as an unsigned pixel count.
pub fn parse_u32(s: &str) -> (r: Result<u32, NumError>)
    ensures
        r is Ok <==> all_digits(s@) && dec_value(s@) <= u32::MAX as int,
        r matches Ok(v) ==> v == dec_value(s@),
        r == Err::<u32, NumError>(NumError::Invalid) <==> !all_digits(s@),
        r == Err::<u32, NumError>(NumError::TooLarge) <==> all_digits(s@) && dec_value(s@)
            > u32::MAX as int,
    {
    let n: usize = s.unicode_len();
    if n == 0 {
        return Err(NumError::Invalid);
    }
    let mut i: usize = 0;
    while i < n
        invariant
            n == s@.len(),
            i <= n,
            forall|k: int| 0 <= k < i ==> is_digit(#[trigger] s@[k]),
        decreases n - i,
    {
        if digit_of(s.get_char(i)) >= 10 {
            return Err(NumError::Invalid);
        }
        i = i + 1;
    }
    let mut acc: u64 = 0;
    let mut j: usize = 0;
    while j < n
        invariant
            n == s@.len(),
            all_digits(s@),
            j <= n,
            acc as int == dec_value(s@.take(j as int)),
            acc <= u32::MAX,
        decreases n - j,
    {
        let d = digit_of(s.get_char(j));
        proof {
            assert(is_digit(s@[j as int]));
            assert(s@.take(j + 1).drop_last() =~= s@.take(j as int));
            assert(s@.take(j + 1).last() == s@[j as int]);
        }
        acc = acc * 10 + (d as u64);
        if acc > u32::MAX as u64 {
            proof {
                lemma_dec_value_prefix_le(s@, j + 1);
            }
            return Err(NumError::TooLarge);
        }
        j = j + 1;
    }
    proof {
        assert(s@.take(n as int) =~= s@);
    }
    Ok(acc as u32)
}

/// The position of the first `x` in a string, or its length when it has none.
pub open spec fn first_x(s: Seq<char>) -> int
    decreases s.len(),
{
    if s.len() == 0 {
        0
    } else if s[0] == 'x' {
        0
    } else {
        1 + first_x(s.skip(1))
    }
}

/// A position with no `x` before it and an `x` at it (or the end behind it)
/// is the first `x`.
proof fn lemma_first_x_at(s: Seq<char>, i: int)
    requires
        0 <= i <= s.len(),
        forall|k: int| 0 <= k < i ==> s[k] != 'x',
        i < s.len() ==> s[i] == 'x',
    ensures
        first_x(s) == i,
    decreases i,
{
    if s.len() == 0 {
    } else if i == 0 {
    } else {
        assert(forall|k: int| 0 <= k < i - 1 ==> #[trigger] s.skip(1)[k] != 'x');
        assert(i - 1 < s.skip(1).len() ==> s.skip(1)[i - 1] == 'x');
        lemma_first_x_at(s.skip(1), i - 1);
    }
}

/// The width part of a `WxH` resolution string: everything before the first
/// `x`.
pub open spec fn width_part(s: Seq<char>) -> Seq<char> {
    s.take(first_x(s))
}

/// The height part of a `WxH` resolution string: everything between the
/// first `x` and the next one (or the end).
pub open spec fn height_part(s: Seq<char>) -> Seq<char> {
    let rest = s.skip(first_x(s) + 1);
    rest.take(first_x(rest))
}

/// Parses a `WxH` resolution string: the digits before the first `x` as the
/// width, the digits between the first `x` and the next one (or the end) as
/// the height.
pub fn parse_resolution(s: &str) -> (r: Result<(u32, u32), ConfigError>)
    ensures
        r matches Ok(d) ==> first_x(s@) < s@.len() && all_digits(width_part(s@)) && all_digits(
            height_part(s@),
        ) && d.0 == dec_value(width_part(s@)) && d.1 == dec_value(height_part(s@)),
        r == Err::<(u32, u32), ConfigError>(ConfigError::MissingHeight) <==> first_x(s@)
            == s@.len(),
        r == Err::<(u32, u32), ConfigError>(ConfigError::InvalidWidth) <==> first_x(s@)
            < s@.len() && !all_digits(width_part(s@)),
        r == Err::<(u32, u32), ConfigError>(ConfigError::WidthTooLarge) <==> first_x(s@)
            < s@.len() && all_digits(width_part(s@)) && dec_value(width_part(s@))
            > u32::MAX as int,
        r == Err::<(u32, u32), ConfigError>(ConfigError::InvalidHeight) <==> first_x(s@)
            < s@.len() && all_digits(width_part(s@)) && dec_value(width_part(s@))
            <= u32::MAX as int && !all_digits(height_part(s@)),
        r == Err::<(u32, u32), ConfigError>(ConfigError::HeightTooLarge) <==> first_x(s@)
            < s@.len() && all_digits(width_part(s@)) && dec_value(width_part(s@))
            <= u32::MAX as int && all_digits(height_part(s@)) && dec_value(height_part(s@))
            > u32::MAX as int,
{
    let n: usize = s.unicode_len();
    let mut i: usize = 0;
    while i < n
        invariant
            n == s@.len(),
            i <= n,
            forall|k: int| 0 <= k < i ==> s@[k] != 'x',
        ensures
            i <= n,
            forall|k: int| 0 <= k < i ==> s@[k] != 'x',
            i < n ==> s@[i as int] == 'x',
        decreases n - i,
    {
        if s.get_char(i) == 'x' {
            break;
        }
        i = i + 1;
    }
    proof {
        lemma_first_x_at(s@, i as int);
    }
    if i == n {
        return Err(ConfigError::MissingHeight);
    }
    let width_str = s.substring_char(0, i);
    proof {
        assert(width_str@ =~= width_part(s@));
    }
    let width = match parse_u32(width_str) {
        Ok(w) => w,
        Err(NumError::Invalid) => {
            return Err(ConfigError::InvalidWidth);
        },
        Err(NumError::TooLarge) => {
            return Err(ConfigError::WidthTooLarge);
        },
    };
    let rest = s.substring_char(i + 1, n);
    proof {
        assert(rest@ =~= s@.skip(first_x(s@) + 1));
    }
    let rest_len: usize = s.unicode_len() - i - 1;
    let mut j: usize = 0;
    while j < rest_len
        invariant
            rest_len == rest@.len(),
            j <= rest_len,
            forall|k: int| 0 <= k < j ==> rest@[k] != 'x',
        ensures
            j <= rest_len,
            forall|k: int| 0 <= k < j ==> rest@[k] != 'x',
            j < rest_len ==> rest@[j as int] == 'x',
        decreases rest_len - j,
    {
        if rest.get_char(j) == 'x' {
            break;
        }
        j = j + 1;
    }
    proof {
        lemma_first_x_at(rest@, j as int);
    }
    let height_str = rest.substring_char(0, j);
    proof {
        assert(height_str@ =~= height_part(s@));
    }
    match parse_u32(height_str) {
        Ok(h) => Ok((width, h)),
        Err(NumError::Invalid) => Err(ConfigError::InvalidHeight),
        Err(NumError::TooLarge) => Err(ConfigError::HeightTooLarge),
    }
}

/// The number of transition frames: frame rate times transition duration,
/// rejected when it leaves the frame-count range.
pub fn compute_iterations(fps: u16, transition_duration_seconds: u8) -> (r: Result<
    u16,
    ConfigError,
>)
    ensures
        r is Ok <==> fps as int * transition_duration_seconds as int <= u16::MAX as int,
        r matches Ok(v) ==> v as int == fps as int * transition_duration_seconds as int,
        r is Err ==> r == Err::<u16, ConfigError>(ConfigError::IterationOverflow),
{
    proof {
        assert(fps as int * transition_duration_seconds as int <= 65535 * 255)
            by (nonlinear_arith)
            requires
                0 <= fps as int <= 65535,
                0 <= transition_duration_seconds as int <= 255,
        ;
    }
    let product: u32 = (fps as u32) * (transition_duration_seconds as u32);
    if product > u16::MAX as u32 {
        Err(ConfigError::IterationOverflow)
    } else {
        Ok(product as u16)
    }
}

/// How long each frame of a transition is shown, in whole milliseconds.
pub fn frame_interval_ms(fps: u16) -> (r: u64)
    requires
        fps >= 1,
    ensures
        r == 1000int / fps as int,
{
    1000u64 / (fps as u64)
}

/// Picks the configured directory, or the conventional subdirectory of the
/// fallback root when none was given.
pub fn resolve_directory(path: Option<String>, alternative: Option<String>) -> (r: Result<
    String,
    ConfigError,
>)
    ensures
        path matches Some(p) ==> r == Ok::<String, ConfigError>(p),
        path is None ==> (alternative matches Some(a) ==> (r matches Ok(v) && v@ == a@
            + "/wall-cli"@)),
        path is None && alternative is None ==> r == Err::<String, ConfigError>(
            ConfigError::MissingDirectory,
        ),
{
    match path {
        Some(p) => Ok(p),
        None => match alternative {
            Some(a) => Ok(a.concat("/wall-cli")),
            None => Err(ConfigError::MissingDirectory),
        },
    }
}

} // verus!
