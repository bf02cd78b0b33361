//! Coordinate parsing and grid-cell key derivation.
//!
//! A tile filename stem such as `N78E030` encodes a signed latitude and
//! longitude. [`Coordinate`] holds that pair; [`Coordinate::to_grid_position`]
//! renders the key of the 10°×10° grid cell whose south-west corner the
//! coordinate falls in, e.g. `+70+030`.

use vstd::prelude::*;
use vstd::arithmetic::div_mod::{
    lemma_fundamental_div_mod, lemma_fundamental_div_mod_converse_div, lemma_mod_bound,
};
use vstd::math::abs;
use crate::text::{
    dec_digits, decimal_string, digit_char, padded_decimal, padded_decimal_string, signed_field,
};

verus! {

/// Errors raised while interpreting a tile filename stem.
#[derive(Debug)]
pub enum PathError {
    /// The stem's length differs from the required seven characters.
    InvalidLength(usize),
    /// A magnitude field is not an unsigned decimal fitting the signed
    /// 8-bit range.
    InvalidFileName(String),
    /// A hemisphere letter is none of `N`, `S`, `E`, `W`.
    InvalidHemisphere(char),
}

/// A parsed geographic coordinate: signed latitude and longitude in degrees.
#[derive(Clone, Copy, PartialEq, Eq, Structural, Debug)]
pub struct Coordinate {
    lat: i8,
    lon: i8,
}

/// Whether `c` is one of the four hemisphere letters.
pub open spec fn is_hemisphere_letter(c: char) -> bool {
    c == 'N' || c == 'S' || c == 'E' || c == 'W'
}

/// `+1` for the positive hemispheres `N`/`E`, `-1` for `S`/`W`.
pub open spec fn direction_sign(c: char) -> int {
    if c == 'N' || c == 'E' {
        1
    } else {
        -1
    }
}

/// The decimal value of an ASCII digit, `-1` for any other character.
pub open spec fn digit_value(c: char) -> int {
    if c == '0' {
        0
    } else if c == '1' {
        1
    } else if c == '2' {
        2
    } else if c == '3' {
        3
    } else if c == '4' {
        4
    } else if c == '5' {
        5
    } else if c == '6' {
        6
    } else if c == '7' {
        7
    } else if c == '8' {
        8
    } else if c == '9' {
        9
    } else {
        -1
    }
}

/// Whether `c` is an ASCII decimal digit.
pub open spec fn is_digit(c: char) -> bool {
    digit_value(c) >= 0
}

/// The unsigned decimal value of a digit sequence, most significant first
/// (meaningful when all characters are digits).
pub open spec fn digits_value(s: Seq<char>) -> int
    decreases s.len(),
{
    if s.len() == 0 {
        0
    } else {
        10 * digits_value(s.drop_last()) + digit_value(s.last())
    }
}

/// Whether every character of `s` is an ASCII decimal digit.
pub open spec fn all_digits(s: Seq<char>) -> bool {
    forall|i: int| 0 <= i < s.len() ==> is_digit(s[i])
}

/// Whether `s` is a well-formed magnitude field: non-empty, digits only, and
/// a value within the signed 8-bit range.
pub open spec fn magnitude_ok(s: Seq<char>) -> bool {
    s.len() > 0 && all_digits(s) && digits_value(s) <= 127
}

/// The latitude magnitude of a seven-character stem (positions 1 and 2).
pub open spec fn lat_magnitude(s: Seq<char>) -> int {
    digits_value(s.subrange(1, 3))
}

/// The longitude magnitude of a seven-character stem (positions 4 to 6).
pub open spec fn lon_magnitude(s: Seq<char>) -> int {
    digits_value(s.subrange(4, 7))
}

/// Whether a stem has the right length and two well-formed magnitude fields.
pub open spec fn stem_format_ok(s: Seq<char>) -> bool {
    s.len() == 7 && magnitude_ok(s.subrange(1, 3)) && magnitude_ok(s.subrange(4, 7))
}

/// Whether both hemisphere slots hold hemisphere letters.
pub open spec fn stem_letters_ok(s: Seq<char>) -> bool {
    is_hemisphere_letter(s[0]) && is_hemisphere_letter(s[3])
}

/// Whether parsing `s` yields a coordinate.
pub open spec fn parse_ok(s: Seq<char>) -> bool {
    stem_format_ok(s) && stem_letters_ok(s)
}

/// The latitude encoded by a parseable stem.
pub open spec fn parsed_lat(s: Seq<char>) -> int {
    direction_sign(s[0]) * lat_magnitude(s)
}

/// The longitude encoded by a parseable stem.
pub open spec fn parsed_lon(s: Seq<char>) -> int {
    direction_sign(s[3]) * lon_magnitude(s)
}

/// The error that parsing the stem `s` must report: a wrong length first,
/// then a malformed magnitude (carrying the whole stem), then the offending
/// hemisphere letter, latitude slot first.
pub open spec fn parse_error_matches(e: PathError, s: Seq<char>) -> bool {
    if s.len() != 7 {
        e matches PathError::InvalidLength(n) && n as nat == s.len()
    } else if !(magnitude_ok(s.subrange(1, 3)) && magnitude_ok(s.subrange(4, 7))) {
        e matches PathError::InvalidFileName(f) && f@ == s
    } else if !is_hemisphere_letter(s[0]) {
        e matches PathError::InvalidHemisphere(c) && c == s[0]
    } else {
        e matches PathError::InvalidHemisphere(c) && c == s[3]
    }
}

/// The south-west edge of the 10° band that `v` falls in: floored (toward
/// minus infinity) division by ten, scaled back by ten.
pub open spec fn grid_floor(v: int) -> int {
    10 * (v / 10)
}

/// The grid-cell key of a coordinate: the floored latitude as a sign and two
/// zero-padded digits, then the floored longitude as a sign and three.
pub open spec fn grid_key(lat: int, lon: int) -> Seq<char> {
    signed_field(grid_floor(lat), 2) + signed_field(grid_floor(lon), 3)
}

/// A nonempty all-digit sequence has a non-negative value, and no prefix
/// exceeds the value of the whole.
proof fn lemma_digits_value_bounds(s: Seq<char>, k: int)
    requires
        all_digits(s),
        0 <= k <= s.len(),
    ensures
        0 <= digits_value(s.take(k)) <= digits_value(s),
    decreases s.len(),
{
    if s.len() == 0 {
        assert(s.take(k) =~= s);
    } else if k == s.len() {
        assert(s.take(k) =~= s);
        lemma_digits_value_bounds(s.drop_last(), s.len() - 1);
        assert(s.drop_last().take(s.len() - 1) =~= s.drop_last());
    } else {
        lemma_digits_value_bounds(s.drop_last(), k);
        assert(s.drop_last().take(k) =~= s.take(k));
    }
}

impl Coordinate {
    /// The latitude component, as a mathematical integer.
    pub closed spec fn spec_lat(&self) -> int {
        self.lat as int
    }

    /// The longitude component, as a mathematical integer.
    pub closed spec fn spec_lon(&self) -> int {
        self.lon as int
    }

    pub fn new(lat_coordinate: i8, lon_coordinate: i8) -> (c: Self)
        ensures
            c.spec_lat() == lat_coordinate as int,
            c.spec_lon() == lon_coordinate as int,
    {
        Self { lat: lat_coordinate, lon: lon_coordinate }
    }

    /// Applies the hemisphere sign rule: `N`/`E` keep the magnitude positive,
    /// `S`/`W` negate it.
    pub fn as_direction(letter: char, value: i8) -> (signed: i8)
        requires
            is_hemisphere_letter(letter),
            value >= 0,
        ensures
            signed as int == direction_sign(letter) * (value as int),
    {
        match letter {
            'N' | 'E' => value,
            _ => -value,
        }
    }

    /// Parses a seven-character filename stem such as `N78E030` into a
    /// coordinate, reporting exactly the error that
    /// [`parse_error_matches`] describes on malformed input.
    pub fn parse(value: &str) -> (r: Result<Coordinate, PathError>)
        ensures
            parse_ok(value@) ==> (r matches Ok(c) && c.spec_lat() == parsed_lat(value@)
                && c.spec_lon() == parsed_lon(value@)),
            !parse_ok(value@) ==> (r matches Err(e) && parse_error_matches(e, value@)),
    {
        let n = value.unicode_len();
        if n != 7 {
            return Err(PathError::InvalidLength(n));
        }
        let lat_digits = value.substring_char(1, 3);
        let lat = match parse_coordinate(lat_digits, value) {
            Ok(v) => v,
            Err(e) => return Err(e),
        };
        let lon_digits = value.substring_char(4, 7);
        let lon = match parse_coordinate(lon_digits, value) {
            Ok(v) => v,
            Err(e) => return Err(e),
        };
        let lat_direction = value.get_char(0);
        let lon_direction = value.get_char(3);
        if !is_hemisphere(lat_direction) {
            return Err(PathError::InvalidHemisphere(lat_direction));
        }
        if !is_hemisphere(lon_direction) {
            return Err(PathError::InvalidHemisphere(lon_direction));
        }
        Ok(Self::new(
            Self::as_direction(lat_direction, lat),
            Self::as_direction(lon_direction, lon),
        ))
    }

    /// Renders the key of the grid cell this coordinate falls in.
    pub fn to_grid_position(&self) -> (s: String)
        ensures
            s@ == grid_key(self.spec_lat(), self.spec_lon()),
    {
        let lat_field = grid_field(self.lat, 2);
        let lon_field = grid_field(self.lon, 3);
        lat_field.concat(lon_field.as_str())
    }
}

/// Whether `c` is one of the four hemisphere letters.
fn is_hemisphere(c: char) -> (b: bool)
    ensures
        b == is_hemisphere_letter(c),
{
    match c {
        'N' | 'S' | 'E' | 'W' => true,
        _ => false,
    }
}

/// Parses a magnitude field: a non-empty run of decimal digits whose value
/// fits the signed 8-bit range. Any other input earns `InvalidFileName`
/// carrying `file_name`.
pub fn parse_coordinate(digits: &str, file_name: &str) -> (r: Result<i8, PathError>)
    ensures
        magnitude_ok(digits@) ==> (r matches Ok(v) && 0 <= v && v as int == digits_value(digits@)),
        !magnitude_ok(digits@) ==> (r matches Err(e) && e matches PathError::InvalidFileName(f)
            && f@ == file_name@),
{
    let n = digits.unicode_len();
    if n == 0 {
        return Err(PathError::InvalidFileName(file_name.to_owned()));
    }
    let mut acc: u32 = 0;
    let mut i: usize = 0;
    while i < n
        invariant
            i <= n,
            n == digits@.len(),
            all_digits(digits@.take(i as int)),
            acc as int == digits_value(digits@.take(i as int)),
            acc <= 127,
        decreases n - i,
    {
        let c = digits.get_char(i);
        let d: u32 = match c {
            '0' => 0,
            '1' => 1,
            '2' => 2,
            '3' => 3,
            '4' => 4,
            '5' => 5,
            '6' => 6,
            '7' => 7,
            '8' => 8,
            '9' => 9,
            _ => {
                return Err(PathError::InvalidFileName(file_name.to_owned()));
            },
        };
        let next: u32 = acc * 10 + d;
        proof {
            assert(digits@.take(i + 1).drop_last() =~= digits@.take(i as int));
        }
        if next > 127 {
            proof {
                if all_digits(digits@) {
                    lemma_digits_value_bounds(digits@, i + 1);
                    assert(digits@.take(digits@.len() as int) =~= digits@);
                }
            }
            return Err(PathError::InvalidFileName(file_name.to_owned()));
        }
        acc = next;
        i += 1;
    }
    proof {
        assert(digits@.take(n as int) =~= digits@);
    }
    Ok(acc as i8)
}

/// One signed field of the grid key: the sign of the floored value, then its
/// magnitude zero-padded to `width` digits.
fn grid_field(v: i8, width: u64) -> (s: String)
    requires
        width == 2 || width == 3,
    ensures
        s@ == signed_field(grid_floor(v as int), width as nat),
{
    let m: u64;
    let mut s: String;
    if v >= 0 {
        let q: u64 = (v as u64) / 10;
        proof {
            lemma_fundamental_div_mod(v as int, 10);
            lemma_mod_bound(v as int, 10);
        }
        m = q * 10;
        s = "+".to_owned();
        proof {
            reveal_strlit("+");
            assert(s@ =~= seq![crate::text::sign_char(grid_floor(v as int))]);
        }
    } else {
        let mag: u64 = (-(v as i64)) as u64;
        let t: u64 = (mag + 9) / 10;
        proof {
            let vi = v as int;
            lemma_fundamental_div_mod(vi, 10);
            lemma_mod_bound(vi, 10);
            let q = vi / 10;
            let r = vi % 10;
            assert(mag as int + 9 == (-q) * 10 + (9 - r));
            lemma_fundamental_div_mod_converse_div(mag as int + 9, 10, -q, 9 - r);
        }
        m = t * 10;
        s = "-".to_owned();
        proof {
            reveal_strlit("-");
            assert(s@ =~= seq![crate::text::sign_char(grid_floor(v as int))]);
        }
    }
    let p = padded_decimal_string(m, width);
    s.append(p.as_str());
    proof {
        assert(m as int == abs(grid_floor(v as int)));
        assert(s@ =~= signed_field(grid_floor(v as int), width as nat));
    }
    s
}

impl PathError {
    /// The user-visible description of this error, naming the offending
    /// length, filename or letter.
    pub open spec fn spec_message(&self) -> Seq<char> {
        match self {
            PathError::InvalidLength(n) => "Invalid filename length, expected length of 7 but got "@
                + dec_digits(*n as nat),
            PathError::InvalidFileName(name) => "Invalid filename format, "@ + name@
                + " does not match expected format"@,
            PathError::InvalidHemisphere(c) => "Invalid hemisphere letter "@ + seq![*c]
                + " specified"@,
        }
    }

    /// Renders the user-visible description of this error.
    pub fn message(&self) -> (s: String)
        ensures
            s@ == self.spec_message(),
    {
        match self {
            PathError::InvalidLength(n) => {
                let mut s = "Invalid filename length, expected length of 7 but got ".to_owned();
                let d = decimal_string(*n as u64);
                s.append(d.as_str());
                s
            },
            PathError::InvalidFileName(name) => {
                let mut s = "Invalid filename format, ".to_owned();
                s.append(name.as_str());
                s.append(" does not match expected format");
                s
            },
            PathError::InvalidHemisphere(c) => {
                let mut s = "Invalid hemisphere letter ".to_owned();
                let cs = char_string(*c);
                s.append(cs.as_str());
                s.append(" specified");
                s
            },
        }
    }
}

/// Relies on `String::from` for a `char`: the returned string holds exactly
/// that one character.
#[verifier::external_body]
fn char_string(c: char) -> (s: String)
    ensures
        s@ == seq![c],
{
    String::from(c)
}

/// An ASCII digit survives the round trip through its decimal value.
proof fn lemma_digit_char_value(c: char)
    requires
        is_digit(c),
    ensures
        digit_char(digit_value(c)) == c,
{
}

/// Two digit characters render back from their combined value, zero-padded
/// to width two.
proof fn lemma_two_digit_round_trip(c1: char, c2: char)
    requires
        is_digit(c1),
        is_digit(c2),
    ensures
        padded_decimal((10 * digit_value(c1) + digit_value(c2)) as nat, 2) =~= seq![c1, c2],
{
    let a = digit_value(c1);
    let b = digit_value(c2);
    let v = 10 * a + b;
    lemma_fundamental_div_mod_converse_div(v, 10, a, b);
    vstd::arithmetic::div_mod::lemma_fundamental_div_mod_converse_mod(v, 10, a, b);
    lemma_digit_char_value(c1);
    lemma_digit_char_value(c2);
    if v < 10 {
        assert(a == 0);
        assert(dec_digits(v as nat) =~= seq![c2]);
        assert(Seq::new(1nat, |i: int| '0') =~= seq!['0']);
    } else {
        assert(dec_digits(v as nat) == dec_digits((v as nat) / 10) + seq![digit_char(v % 10)]);
        assert((v as nat) / 10 == a);
        assert(dec_digits((v as nat) / 10) =~= seq![c1]);
    }
}

/// Three digit characters render back from their combined value, zero-padded
/// to width three.
proof fn lemma_three_digit_round_trip(c1: char, c2: char, c3: char)
    requires
        is_digit(c1),
        is_digit(c2),
        is_digit(c3),
    ensures
        padded_decimal((100 * digit_value(c1) + 10 * digit_value(c2) + digit_value(c3)) as nat, 3)
            =~= seq![c1, c2, c3],
{
    let a = digit_value(c1);
    let b = digit_value(c2);
    let c = digit_value(c3);
    let v = 100 * a + 10 * b + c;
    lemma_fundamental_div_mod_converse_div(v, 10, 10 * a + b, c);
    vstd::arithmetic::div_mod::lemma_fundamental_div_mod_converse_mod(v, 10, 10 * a + b, c);
    lemma_two_digit_round_trip(c1, c2);
    lemma_digit_char_value(c1);
    lemma_digit_char_value(c2);
    lemma_digit_char_value(c3);
    if v < 10 {
        assert(a == 0 && b == 0);
        assert(dec_digits(v as nat) =~= seq![c3]);
        assert(Seq::new(2nat, |i: int| '0') =~= seq!['0', '0']);
    } else {
        assert(dec_digits(v as nat) == dec_digits((v as nat) / 10) + seq![digit_char(v % 10)]);
        assert((v as nat) / 10 == 10 * a + b);
        if v < 100 {
            assert(a == 0);
            lemma_fundamental_div_mod_converse_div(10 * a + b, 10, a, b);
            vstd::arithmetic::div_mod::lemma_fundamental_div_mod_converse_mod(10 * a + b, 10, a, b);
            assert(dec_digits((10 * a + b) as nat) =~= seq![c2]);
            assert(Seq::new(1nat, |i: int| '0') =~= seq!['0']);
        } else {
            assert(dec_digits((10 * a + b) as nat) == dec_digits(((10 * a + b) as nat) / 10)
                + seq![digit_char((10 * a + b) % 10)]);
            lemma_fundamental_div_mod_converse_div(10 * a + b, 10, a, b);
            vstd::arithmetic::div_mod::lemma_fundamental_div_mod_converse_mod(10 * a + b, 10, a, b);
            assert(dec_digits((10 * a + b) as nat) =~= seq![c1, c2]);
        }
    }
}

/// The value of a two-character digit field, spelled out.
proof fn lemma_digits_value_two(t: Seq<char>)
    requires
        t.len() == 2,
    ensures
        digits_value(t) == 10 * digit_value(t[0]) + digit_value(t[1]),
{
    assert(t.drop_last() =~= seq![t[0]]);
    assert(seq![t[0]].drop_last() =~= Seq::<char>::empty());
    assert(digits_value(Seq::<char>::empty()) == 0);
    assert(digits_value(seq![t[0]]) == digit_value(t[0]));
}

/// The value of a three-character digit field, spelled out.
proof fn lemma_digits_value_three(t: Seq<char>)
    requires
        t.len() == 3,
    ensures
        digits_value(t) == 100 * digit_value(t[0]) + 10 * digit_value(t[1]) + digit_value(t[2]),
{
    assert(t.drop_last() =~= seq![t[0], t[1]]);
    lemma_digits_value_two(seq![t[0], t[1]]);
}

/// Whether `s` is a stem of the input grammar: hemisphere letters in their
/// proper slots, a two-digit latitude magnitude and a three-digit longitude
/// magnitude within the signed 8-bit range.
pub open spec fn grammar_stem(s: Seq<char>) -> bool {
    s.len() == 7 && (s[0] == 'N' || s[0] == 'S') && (s[3] == 'E' || s[3] == 'W') && is_digit(s[1])
        && is_digit(s[2]) && is_digit(s[4]) && is_digit(s[5]) && is_digit(s[6]) && lon_magnitude(s)
        <= 127
}

/// Parse round trip: every stem of the input grammar parses, its components
/// lie in [-99, +99] × [-127, +127], and the signs and absolute values of the
/// parsed pair reconstruct the original text — with the hemisphere letter
/// pinned down whenever the component is non-zero.
pub proof fn law_parse_round_trip(s: Seq<char>)
    requires
        grammar_stem(s),
    ensures
        parse_ok(s),
        -99 <= parsed_lat(s) <= 99,
        -127 <= parsed_lon(s) <= 127,
        s =~= seq![s[0]] + padded_decimal(abs(parsed_lat(s)) as nat, 2) + seq![s[3]]
            + padded_decimal(abs(parsed_lon(s)) as nat, 3),
        parsed_lat(s) > 0 ==> s[0] == 'N',
        parsed_lat(s) < 0 ==> s[0] == 'S',
        parsed_lon(s) > 0 ==> s[3] == 'E',
        parsed_lon(s) < 0 ==> s[3] == 'W',
{
    lemma_digits_value_two(s.subrange(1, 3));
    lemma_digits_value_three(s.subrange(4, 7));
    assert(lat_magnitude(s) == 10 * digit_value(s[1]) + digit_value(s[2]));
    assert(lon_magnitude(s) == 100 * digit_value(s[4]) + 10 * digit_value(s[5]) + digit_value(
        s[6],
    ));
    lemma_two_digit_round_trip(s[1], s[2]);
    lemma_three_digit_round_trip(s[4], s[5], s[6]);
    assert(0 <= lat_magnitude(s) <= 99);
    assert(0 <= lon_magnitude(s) <= 127);
    let s_lat = direction_sign(s[0]);
    let m_lat = lat_magnitude(s);
    let s_lon = direction_sign(s[3]);
    let m_lon = lon_magnitude(s);
    if s_lat == 1 {
        assert(s_lat * m_lat == m_lat) by (nonlinear_arith)
            requires s_lat == 1;
    } else {
        assert(s_lat * m_lat == -m_lat) by (nonlinear_arith)
            requires s_lat == -1;
    }
    if s_lon == 1 {
        assert(s_lon * m_lon == m_lon) by (nonlinear_arith)
            requires s_lon == 1;
    } else {
        assert(s_lon * m_lon == -m_lon) by (nonlinear_arith)
            requires s_lon == -1;
    }
    assert(abs(parsed_lat(s)) == lat_magnitude(s));
    assert(abs(parsed_lon(s)) == lon_magnitude(s));
}

/// Floored grid key: decomposing each component as ten times a quotient plus
/// a remainder below ten, the key renders exactly those quotients scaled
/// back by ten — negative coordinates round to the more negative multiple.
pub proof fn law_grid_key_floored(lat: int, lon: int, q_lat: int, r_lat: int, q_lon: int, r_lon: int)
    requires
        lat == q_lat * 10 + r_lat,
        0 <= r_lat < 10,
        lon == q_lon * 10 + r_lon,
        0 <= r_lon < 10,
    ensures
        grid_key(lat, lon) == signed_field(10 * q_lat, 2) + signed_field(10 * q_lon, 3),
{
    lemma_fundamental_div_mod_converse_div(lat, 10, q_lat, r_lat);
    lemma_fundamental_div_mod_converse_div(lon, 10, q_lon, r_lon);
}

} // verus!
