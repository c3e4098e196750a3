//! The typed values of a feed's cells: what each kind of cell text stands
//! for, and the parsers that compute it.

use crate::model::{
    Date, Direction, Exception, Fixed, LocationType, Marshal, RouteType, Weekday,
};
use crate::text::chars_of;
use vstd::prelude::*;

verus! {

/// Whether `c` is one of the ten decimal digits.
pub open spec fn is_digit(c: char) -> bool {
    '0' <= c <= '9'
}

/// The number that the digit `c` stands for.
pub open spec fn digit_value(c: char) -> nat {
    (c as u32 - '0' as u32) as nat
}

/// Whether `s` is made of decimal digits alone.
pub open spec fn all_digits(s: Seq<char>) -> bool {
    forall|i: int| 0 <= i < s.len() ==> is_digit(#[trigger] s[i])
}

/// The number that the digits of `s` write in base ten.
pub open spec fn decimal_value(s: Seq<char>) -> nat
    decreases s.len(),
{
    if s.len() == 0 {
        0
    } else {
        decimal_value(s.drop_last()) * 10 + digit_value(s.last())
    }
}

/// The unsigned integer that `s` writes: one or more decimal digits whose
/// value fits in 64 bits.
pub open spec fn uint_of(s: Seq<char>) -> Option<u64> {
    if s.len() > 0 && all_digits(s) && decimal_value(s) <= u64::MAX {
        Some(decimal_value(s) as u64)
    } else {
        None
    }
}

/// A number grows with each digit written after it.
pub proof fn lemma_decimal_value_prefix(s: Seq<char>, k: int)
    requires
        0 <= k <= s.len(),
    ensures
        decimal_value(s.take(k)) <= decimal_value(s),
    decreases s.len() - k,
{
    if k == s.len() {
        assert(s.take(k) =~= s);
    } else {
        lemma_decimal_value_prefix(s, k + 1);
        assert(s.take(k + 1).drop_last() =~= s.take(k));
    }
}

/// A number of `n` digits is below the `n`-th power of ten, for the widths
/// that times, dates and decimal fractions are written in.
pub proof fn lemma_decimal_value_bound(s: Seq<char>)
    requires
        all_digits(s),
        s.len() <= 9,
    ensures
        s.len() == 0 ==> decimal_value(s) == 0,
        s.len() == 1 ==> decimal_value(s) <= 9,
        s.len() == 2 ==> decimal_value(s) <= 99,
        s.len() == 3 ==> decimal_value(s) <= 999,
        s.len() == 4 ==> decimal_value(s) <= 9999,
        s.len() == 5 ==> decimal_value(s) <= 99999,
        s.len() == 6 ==> decimal_value(s) <= 999999,
        s.len() == 7 ==> decimal_value(s) <= 9999999,
        s.len() == 8 ==> decimal_value(s) <= 99999999,
        s.len() == 9 ==> decimal_value(s) <= 999999999,
    decreases s.len(),
{
    if s.len() > 0 {
        lemma_decimal_value_bound(s.drop_last());
        assert(is_digit(s[s.len() - 1]));
    }
}

/// The value of the digits of `v` from `from` up to `to`.
fn digits_between(v: &Vec<char>, from: usize, to: usize) -> (r: Option<u64>)
    requires
        from <= to <= v.len(),
    ensures
        r == uint_of(v@.subrange(from as int, to as int)),
{
    let ghost s = v@.subrange(from as int, to as int);
    if from == to {
        return None;
    }
    let mut acc: u64 = 0;
    let mut i: usize = from;
    while i < to
        invariant
            from <= i <= to <= v.len(),
            s == v@.subrange(from as int, to as int),
            all_digits(s.take(i - from)),
            acc == decimal_value(s.take(i - from)),
        decreases to - i,
    {
        let c: char = v[i];
        assert(c == s[i - from]);
        if !(c >= '0' && c <= '9') {
            return None;
        }
        let d: u64 = (c as u32 - '0' as u32) as u64;
        proof {
            assert(s.take(i - from + 1).drop_last() =~= s.take(i - from));
            assert(s.take(i - from + 1).last() == c);
            lemma_decimal_value_prefix(s, i - from + 1);
        }
        if acc > 1844674407370955161 || (acc == 1844674407370955161 && d > 5) {
            return None;
        }
        acc = acc * 10 + d;
        i = i + 1;
        assert forall|j: int| 0 <= j < s.take(i - from).len() implies is_digit(
            #[trigger] s.take(i - from)[j],
        ) by {
            if j < i - from - 1 {
                assert(s.take(i - from)[j] == s.take(i - from - 1)[j]);
            }
        }
    }
    assert(s.take(to - from) =~= s);
    Some(acc)
}

/// Reads an unsigned integer written in decimal digits.
pub fn parse_uint(s: &str) -> (r: Option<u64>)
    ensures
        r == uint_of(s@),
{
    let v = chars_of(s);
    assert(v@.subrange(0, v.len() as int) =~= v@);
    digits_between(&v, 0, v.len())
}

/// The time of day that `s` writes, in seconds from midnight: hours in one
/// or two digits, then minutes and seconds in two digits each, with a colon
/// between them. Minutes and seconds stay below sixty; hours are not bounded
/// by the day.
pub open spec fn time_of(s: Seq<char>) -> Option<u64> {
    if s.len() == 7 || s.len() == 8 {
        let w = s.len() - 6;
        let h = s.subrange(0, w);
        let m = s.subrange(w + 1, w + 3);
        let sec = s.subrange(w + 4, w + 6);
        if s[w] == ':' && s[w + 3] == ':' && all_digits(h) && all_digits(m) && all_digits(sec)
            && decimal_value(m) < 60 && decimal_value(sec) < 60 {
            Some((decimal_value(h) * 3600 + decimal_value(m) * 60 + decimal_value(sec)) as u64)
        } else {
            None
        }
    } else {
        None
    }
}

/// Reads a time of day.
pub fn parse_time(s: &str) -> (r: Option<u64>)
    ensures
        r == time_of(s@),
{
    let v = chars_of(s);
    let n: usize = v.len();
    if n != 7 && n != 8 {
        return None;
    }
    let w: usize = n - 6;
    if v[w] != ':' || v[w + 3] != ':' {
        return None;
    }
    let ghost hs = v@.subrange(0, w as int);
    let ghost ms = v@.subrange(w + 1, w + 3);
    let ghost ss = v@.subrange(w + 4, w + 6);
    let h = digits_between(&v, 0, w);
    let m = digits_between(&v, w + 1, w + 3);
    let sec = digits_between(&v, w + 4, w + 6);
    proof {
        if all_digits(hs) {
            lemma_decimal_value_bound(hs);
        }
        if all_digits(ms) {
            lemma_decimal_value_bound(ms);
        }
        if all_digits(ss) {
            lemma_decimal_value_bound(ss);
        }
    }
    match (h, m, sec) {
        (Some(h), Some(m), Some(sec)) => {
            if m < 60 && sec < 60 {
                Some(h * 3600 + m * 60 + sec)
            } else {
                None
            }
        },
        _ => None,
    }
}

/// The date that `s` writes: eight digits, four of the year, two of the
/// month and two of the day, with a month from 1 to 12 and a day of at most
/// 31. The calendar is not consulted beyond that.
pub open spec fn date_of(s: Seq<char>) -> Option<Date> {
    if s.len() == 8 && all_digits(s) && 1 <= decimal_value(s.subrange(4, 6)) <= 12
        && decimal_value(s.subrange(6, 8)) <= 31 {
        Some(
            Date {
                day: decimal_value(s.subrange(6, 8)) as u32,
                month: decimal_value(s.subrange(4, 6)) as u32,
                year: decimal_value(s.subrange(0, 4)) as u32,
            },
        )
    } else {
        None
    }
}

/// Digits stay digits in every part of a string.
pub proof fn lemma_all_digits_parts(s: Seq<char>, a: int, b: int)
    requires
        0 <= a <= b <= s.len(),
    ensures
        all_digits(s) ==> all_digits(s.subrange(a, b)),
        !all_digits(s.subrange(a, b)) ==> !all_digits(s),
{
    if all_digits(s) {
        assert forall|i: int| 0 <= i < b - a implies is_digit(#[trigger] s.subrange(a, b)[i]) by {
            assert(s.subrange(a, b)[i] == s[a + i]);
        }
    }
}

/// A date that was read has the shape of a date.
pub proof fn lemma_date_of(s: Seq<char>)
    ensures
        date_of(s) is Some ==> date_of(s)->0.valid(),
{
    if date_of(s) is Some {
        lemma_all_digits_parts(s, 0, 4);
        lemma_decimal_value_bound(s.subrange(0, 4));
    }
}

/// Reads a date.
pub fn parse_date(s: &str) -> (r: Option<Date>)
    ensures
        r == date_of(s@),
{
    let v = chars_of(s);
    read_date(&v)
}

/// Reads the date that the characters `v` write.
fn read_date(v: &Vec<char>) -> (r: Option<Date>)
    ensures
        r == date_of(v@),
{
    if v.len() != 8 {
        return None;
    }
    let ghost ys = v@.subrange(0, 4);
    let ghost ms = v@.subrange(4, 6);
    let ghost ds = v@.subrange(6, 8);
    let y = digits_between(v, 0, 4);
    let m = digits_between(v, 4, 6);
    let d = digits_between(v, 6, 8);
    proof {
        lemma_all_digits_parts(v@, 0, 4);
        lemma_all_digits_parts(v@, 4, 6);
        lemma_all_digits_parts(v@, 6, 8);
        if all_digits(ys) {
            lemma_decimal_value_bound(ys);
        }
        if all_digits(ms) {
            lemma_decimal_value_bound(ms);
        }
        if all_digits(ds) {
            lemma_decimal_value_bound(ds);
        }
        if all_digits(ys) && all_digits(ms) && all_digits(ds) {
            assert forall|i: int| 0 <= i < 8 implies is_digit(#[trigger] v@[i]) by {
                if i < 4 {
                    assert(v@[i] == ys[i]);
                } else if i < 6 {
                    assert(v@[i] == ms[i - 4]);
                } else {
                    assert(v@[i] == ds[i - 6]);
                }
            }
        }
    }
    match (y, m, d) {
        (Some(y), Some(m), Some(d)) => {
            if 1 <= m && m <= 12 && d <= 31 {
                Some(Date { day: d as u32, month: m as u32, year: y as u32 })
            } else {
                None
            }
        },
        _ => None,
    }
}

/// The weekday that `s` names by the first three letters of its English
/// name, the first a capital.
pub open spec fn weekday_of(s: Seq<char>) -> Option<Weekday> {
    if s == seq!['M', 'o', 'n'] {
        Some(Weekday::Monday)
    } else if s == seq!['T', 'u', 'e'] {
        Some(Weekday::Tuesday)
    } else if s == seq!['W', 'e', 'd'] {
        Some(Weekday::Wednesday)
    } else if s == seq!['T', 'h', 'u'] {
        Some(Weekday::Thursday)
    } else if s == seq!['F', 'r', 'i'] {
        Some(Weekday::Friday)
    } else if s == seq!['S', 'a', 't'] {
        Some(Weekday::Saturday)
    } else if s == seq!['S', 'u', 'n'] {
        Some(Weekday::Sunday)
    } else {
        None
    }
}

/// The day that `s` names: a weekday, a space, and a date written as year,
/// month and day with a hyphen between them, such as `Mon 2024-01-01`. The
/// month is the one written, January being 1. Whether the date falls on the
/// weekday is not checked.
pub open spec fn day_of(s: Seq<char>) -> Option<(Weekday, Date)> {
    if s.len() == 14 && s[3] == ' ' && s[8] == '-' && s[11] == '-' {
        match (
            weekday_of(s.subrange(0, 3)),
            date_of(s.subrange(4, 8) + s.subrange(9, 11) + s.subrange(12, 14)),
        ) {
            (Some(day), Some(date)) => Some((day, date)),
            _ => None,
        }
    } else {
        None
    }
}

/// Reads the weekday that three characters name.
fn read_weekday(a: char, b: char, c: char) -> (r: Option<Weekday>)
    ensures
        r == weekday_of(seq![a, b, c]),
{
    let ghost s = seq![a, b, c];
    assert(s[0] == a && s[1] == b && s[2] == c);
    proof {
        assert(seq!['M', 'o', 'n'][0] == 'M' && seq!['M', 'o', 'n'][1] == 'o' && seq!['M', 'o', 'n'][2] == 'n');
        assert(seq!['T', 'u', 'e'][0] == 'T' && seq!['T', 'u', 'e'][1] == 'u' && seq!['T', 'u', 'e'][2] == 'e');
        assert(seq!['W', 'e', 'd'][0] == 'W' && seq!['W', 'e', 'd'][1] == 'e' && seq!['W', 'e', 'd'][2] == 'd');
        assert(seq!['T', 'h', 'u'][0] == 'T' && seq!['T', 'h', 'u'][1] == 'h' && seq!['T', 'h', 'u'][2] == 'u');
        assert(seq!['F', 'r', 'i'][0] == 'F' && seq!['F', 'r', 'i'][1] == 'r' && seq!['F', 'r', 'i'][2] == 'i');
        assert(seq!['S', 'a', 't'][0] == 'S' && seq!['S', 'a', 't'][1] == 'a' && seq!['S', 'a', 't'][2] == 't');
        assert(seq!['S', 'u', 'n'][0] == 'S' && seq!['S', 'u', 'n'][1] == 'u' && seq!['S', 'u', 'n'][2] == 'n');
    }
    if a == 'M' && b == 'o' && c == 'n' {
        assert(s =~= seq!['M', 'o', 'n']);
        Some(Weekday::Monday)
    } else if a == 'T' && b == 'u' && c == 'e' {
        assert(s =~= seq!['T', 'u', 'e']);
        Some(Weekday::Tuesday)
    } else if a == 'W' && b == 'e' && c == 'd' {
        assert(s =~= seq!['W', 'e', 'd']);
        Some(Weekday::Wednesday)
    } else if a == 'T' && b == 'h' && c == 'u' {
        assert(s =~= seq!['T', 'h', 'u']);
        Some(Weekday::Thursday)
    } else if a == 'F' && b == 'r' && c == 'i' {
        assert(s =~= seq!['F', 'r', 'i']);
        Some(Weekday::Friday)
    } else if a == 'S' && b == 'a' && c == 't' {
        assert(s =~= seq!['S', 'a', 't']);
        Some(Weekday::Saturday)
    } else if a == 'S' && b == 'u' && c == 'n' {
        assert(s =~= seq!['S', 'u', 'n']);
        Some(Weekday::Sunday)
    } else {
        None
    }
}

/// Reads a weekday and a date, such as `Mon 2024-01-01`.
pub fn parse_day(s: &str) -> (r: Option<(Weekday, Date)>)
    ensures
        r == day_of(s@),
{
    let v = chars_of(s);
    if v.len() != 14 || v[3] != ' ' || v[8] != '-' || v[11] != '-' {
        return None;
    }
    assert(v@.subrange(0, 3) =~= seq![v@[0], v@[1], v@[2]]);
    let day = read_weekday(v[0], v[1], v[2]);
    let mut digits: Vec<char> = Vec::new();
    digits.push(v[4]);
    digits.push(v[5]);
    digits.push(v[6]);
    digits.push(v[7]);
    digits.push(v[9]);
    digits.push(v[10]);
    digits.push(v[12]);
    digits.push(v[13]);
    assert(digits@ =~= v@.subrange(4, 8) + v@.subrange(9, 11) + v@.subrange(12, 14));
    let date = read_date(&digits);
    match (day, date) {
        (Some(day), Some(date)) => Some((day, date)),
        _ => None,
    }
}

/// The digit that `s` consists of, where it is a single decimal digit.
pub open spec fn code_of(s: Seq<char>) -> Option<u8> {
    if s.len() == 1 && is_digit(s[0]) {
        Some(digit_value(s[0]) as u8)
    } else {
        None
    }
}

/// Reads a cell that holds one decimal digit.
fn parse_code(s: &str) -> (r: Option<u8>)
    ensures
        r == code_of(s@),
{
    let v = chars_of(s);
    if v.len() != 1 {
        return None;
    }
    let c: char = v[0];
    if c >= '0' && c <= '9' {
        Some((c as u32 - '0' as u32) as u8)
    } else {
        None
    }
}

/// The truth value that `s` writes: `0` for false, `1` for true.
pub open spec fn bool_of(s: Seq<char>) -> Option<bool> {
    match code_of(s) {
        Some(0) => Some(false),
        Some(1) => Some(true),
        _ => None,
    }
}

/// Reads a truth value.
pub fn parse_bool(s: &str) -> (r: Option<bool>)
    ensures
        r == bool_of(s@),
{
    match parse_code(s) {
        Some(0) => Some(false),
        Some(1) => Some(true),
        _ => None,
    }
}

/// The kind of route that `s` writes, `0` to `7`.
pub open spec fn route_type_of(s: Seq<char>) -> Option<RouteType> {
    match code_of(s) {
        Some(0) => Some(RouteType::Tram),
        Some(1) => Some(RouteType::Subway),
        Some(2) => Some(RouteType::Rail),
        Some(3) => Some(RouteType::Bus),
        Some(4) => Some(RouteType::Ferry),
        Some(5) => Some(RouteType::CableCar),
        Some(6) => Some(RouteType::Gondola),
        Some(7) => Some(RouteType::Funicular),
        _ => None,
    }
}

/// Reads a kind of route.
pub fn parse_route_type(s: &str) -> (r: Option<RouteType>)
    ensures
        r == route_type_of(s@),
{
    match parse_code(s) {
        Some(0) => Some(RouteType::Tram),
        Some(1) => Some(RouteType::Subway),
        Some(2) => Some(RouteType::Rail),
        Some(3) => Some(RouteType::Bus),
        Some(4) => Some(RouteType::Ferry),
        Some(5) => Some(RouteType::CableCar),
        Some(6) => Some(RouteType::Gondola),
        Some(7) => Some(RouteType::Funicular),
        _ => None,
    }
}

/// The direction of travel that `s` writes, `0` or `1`.
pub open spec fn direction_of(s: Seq<char>) -> Option<Direction> {
    match code_of(s) {
        Some(0) => Some(Direction::A),
        Some(1) => Some(Direction::B),
        _ => None,
    }
}

/// Reads a direction of travel.
pub fn parse_direction(s: &str) -> (r: Option<Direction>)
    ensures
        r == direction_of(s@),
{
    match parse_code(s) {
        Some(0) => Some(Direction::A),
        Some(1) => Some(Direction::B),
        _ => None,
    }
}

/// The way of boarding or alighting that `s` writes, `0` to `3`.
pub open spec fn marshal_of(s: Seq<char>) -> Option<Marshal> {
    match code_of(s) {
        Some(0) => Some(Marshal::Scheduled),
        Some(1) => Some(Marshal::NoPickup),
        Some(2) => Some(Marshal::PhoneAhead),
        Some(3) => Some(Marshal::CoordinateWithDriver),
        _ => None,
    }
}

/// Reads a way of boarding or alighting.
pub fn parse_marshal(s: &str) -> (r: Option<Marshal>)
    ensures
        r == marshal_of(s@),
{
    match parse_code(s) {
        Some(0) => Some(Marshal::Scheduled),
        Some(1) => Some(Marshal::NoPickup),
        Some(2) => Some(Marshal::PhoneAhead),
        Some(3) => Some(Marshal::CoordinateWithDriver),
        _ => None,
    }
}

/// The kind of exception that `s` writes: `1` adds the service, `2`
/// removes it.
pub open spec fn exception_of(s: Seq<char>) -> Option<Exception> {
    match code_of(s) {
        Some(1) => Some(Exception::Added),
        Some(2) => Some(Exception::Removed),
        _ => None,
    }
}

/// Reads a kind of exception.
pub fn parse_exception(s: &str) -> (r: Option<Exception>)
    ensures
        r == exception_of(s@),
{
    match parse_code(s) {
        Some(1) => Some(Exception::Added),
        Some(2) => Some(Exception::Removed),
        _ => None,
    }
}

/// The kind of location that `s` writes: nothing or `0` for a stop, `1` for
/// a station.
pub open spec fn location_type_of(s: Seq<char>) -> Option<LocationType> {
    if s.len() == 0 {
        Some(LocationType::Stop)
    } else {
        match code_of(s) {
            Some(0) => Some(LocationType::Stop),
            Some(1) => Some(LocationType::Station),
            _ => None,
        }
    }
}

/// Reads a kind of location.
pub fn parse_location_type(s: &str) -> (r: Option<LocationType>)
    ensures
        r == location_type_of(s@),
{
    if s.is_empty() {
        return Some(LocationType::Stop);
    }
    match parse_code(s) {
        Some(0) => Some(LocationType::Stop),
        Some(1) => Some(LocationType::Station),
        _ => None,
    }
}

/// How many characters of `s` stand before its first decimal point: all of
/// them where it has none.
pub open spec fn point_at(s: Seq<char>) -> int
    decreases s.len(),
{
    if s.len() == 0 || s[0] == '.' {
        0
    } else {
        1 + point_at(s.drop_first())
    }
}

/// The first nine digits of a fraction, with zeros where it has fewer.
pub open spec fn nine_places(frac: Seq<char>) -> Seq<char> {
    Seq::new(
        9,
        |i: int|
            if i < frac.len() {
                frac[i]
            } else {
                '0'
            },
    )
}

/// The size of the unsigned decimal number `s`, counted in billionths:
/// digits, then optionally a point and more digits, with a digit on at
/// least one side. Digits past the ninth place are read and dropped.
pub open spec fn magnitude_of(s: Seq<char>) -> Option<nat> {
    let p = point_at(s);
    let whole = s.take(p);
    let frac = if p < s.len() {
        s.skip(p + 1)
    } else {
        Seq::<char>::empty()
    };
    if all_digits(whole) && all_digits(frac) && whole.len() + frac.len() > 0 {
        Some(decimal_value(whole) * 1_000_000_000 + decimal_value(nine_places(frac)))
    } else {
        None
    }
}

/// Whether `s` starts with a sign.
pub open spec fn has_sign(s: Seq<char>) -> bool {
    s.len() > 0 && (s[0] == '-' || s[0] == '+')
}

/// The decimal number that `s` writes, counted in billionths: an optional
/// sign before an unsigned decimal number whose size fits in 63 bits.
pub open spec fn fixed_of(s: Seq<char>) -> Option<Fixed> {
    let body = if has_sign(s) {
        s.drop_first()
    } else {
        s
    };
    match magnitude_of(body) {
        Some(m) => if m <= i64::MAX {
            if has_sign(s) && s[0] == '-' {
                Some(Fixed { nano: (-m) as i64 })
            } else {
                Some(Fixed { nano: m as i64 })
            }
        } else {
            None
        },
        None => None,
    }
}

/// The first decimal point is where a point stands with none before it.
pub proof fn lemma_point_at_is(s: Seq<char>, p: int)
    requires
        0 <= p <= s.len(),
        p < s.len() ==> s[p] == '.',
        forall|i: int| 0 <= i < p ==> #[trigger] s[i] != '.',
    ensures
        point_at(s) == p,
    decreases s.len(),
{
    if s.len() == 0 || s[0] == '.' {
    } else {
        let t = s.drop_first();
        assert forall|i: int| 0 <= i < p - 1 implies #[trigger] t[i] != '.' by {
            assert(t[i] == s[i + 1]);
        }
        lemma_point_at_is(t, p - 1);
    }
}

/// Whether the characters of `v` from `from` up to `to` are all digits.
fn digits_only(v: &Vec<char>, from: usize, to: usize) -> (r: bool)
    requires
        from <= to <= v.len(),
    ensures
        r == all_digits(v@.subrange(from as int, to as int)),
{
    let ghost s = v@.subrange(from as int, to as int);
    let mut i: usize = from;
    while i < to
        invariant
            from <= i <= to <= v.len(),
            s == v@.subrange(from as int, to as int),
            forall|j: int| 0 <= j < i - from ==> is_digit(#[trigger] s[j]),
        decreases to - i,
    {
        let c: char = v[i];
        assert(c == s[i - from]);
        if !(c >= '0' && c <= '9') {
            return false;
        }
        i = i + 1;
    }
    true
}

/// Where the first decimal point of `v` stands at or after `start`.
fn find_point(v: &Vec<char>, start: usize) -> (p: usize)
    requires
        start <= v.len(),
    ensures
        start <= p <= v.len(),
        p - start == point_at(v@.skip(start as int)),
{
    let n: usize = v.len();
    let mut p: usize = start;
    while p < n && v[p] != '.'
        invariant
            start <= p <= n == v.len(),
            forall|i: int| start <= i < p ==> #[trigger] v@[i] != '.',
        decreases n - p,
    {
        p = p + 1;
    }
    proof {
        let body = v@.skip(start as int);
        assert forall|i: int| 0 <= i < p - start implies #[trigger] body[i] != '.' by {
            assert(body[i] == v@[start + i]);
        }
        lemma_point_at_is(body, p - start);
    }
    p
}

/// The first nine places of the fraction that `v` holds from `from` on.
fn read_places(v: &Vec<char>, from: usize) -> (r: u64)
    requires
        from <= v.len(),
        all_digits(v@.subrange(from as int, v.len() as int)),
    ensures
        r == decimal_value(nine_places(v@.subrange(from as int, v.len() as int))),
        r <= 999999999,
{
    let n: usize = v.len();
    let ghost frac = v@.subrange(from as int, n as int);
    let ghost places = nine_places(frac);
    assert(all_digits(places));
    let mut part: u64 = 0;
    let mut k: usize = 0;
    while k < 9
        invariant
            k <= 9,
            from <= n == v.len(),
            frac == v@.subrange(from as int, n as int),
            places == nine_places(frac),
            all_digits(frac),
            all_digits(places),
            part == decimal_value(places.take(k as int)),
        decreases 9 - k,
    {
        let ghost before = places.take(k as int);
        let ghost after = places.take(k + 1);
        proof {
            assert(after.drop_last() =~= before);
            assert(after.last() == places[k as int]);
            assert forall|j: int| 0 <= j < before.len() implies is_digit(#[trigger] before[j]) by {
                assert(before[j] == places[j]);
            }
            lemma_decimal_value_bound(before);
            assert(is_digit(places[k as int]));
        }
        let d: u64 = if k < n - from {
            let c: char = v[from + k];
            assert(c == frac[k as int]);
            (c as u32 - '0' as u32) as u64
        } else {
            0
        };
        part = part * 10 + d;
        k = k + 1;
    }
    proof {
        assert(places.take(9) =~= places);
        lemma_decimal_value_bound(places);
    }
    part
}

/// Reads the unsigned decimal number that `v` holds from `start` on, where
/// its size fits in 63 bits.
fn read_magnitude(v: &Vec<char>, start: usize) -> (r: Option<u64>)
    requires
        start <= v.len(),
    ensures
        r == match magnitude_of(v@.skip(start as int)) {
            Some(m) => if m <= i64::MAX {
                Some(m as u64)
            } else {
                None
            },
            None => None,
        },
{
    let n: usize = v.len();
    let ghost body = v@.skip(start as int);
    let p: usize = find_point(v, start);
    let frac_from: usize = if p < n {
        p + 1
    } else {
        n
    };
    let ghost whole = body.take(p - start);
    let ghost frac = if p < n {
        body.skip(p - start + 1)
    } else {
        Seq::<char>::empty()
    };
    assert(whole =~= v@.subrange(start as int, p as int));
    assert(frac =~= v@.subrange(frac_from as int, n as int));
    if !digits_only(v, start, p) || !digits_only(v, frac_from, n) {
        return None;
    }
    if p == start && frac_from == n {
        return None;
    }
    let part: u64 = read_places(v, frac_from);
    let units: u64 = if p == start {
        0
    } else {
        match digits_between(v, start, p) {
            Some(w) => w,
            None => {
                return None;
            },
        }
    };
    if units > 9223372036 {
        return None;
    }
    let size: u64 = units * 1_000_000_000 + part;
    if size > 9223372036854775807 {
        return None;
    }
    Some(size)
}

/// Reads a decimal number into fixed point.
pub fn parse_decimal(s: &str) -> (r: Option<Fixed>)
    ensures
        r == fixed_of(s@),
{
    let v = chars_of(s);
    let n: usize = v.len();
    let signed: bool = n > 0 && (v[0] == '-' || v[0] == '+');
    let negative: bool = signed && v[0] == '-';
    let start: usize = if signed {
        1
    } else {
        0
    };
    proof {
        assert(v@.skip(0) =~= v@);
        assert(v@.skip(1) =~= v@.drop_first());
    }
    match read_magnitude(&v, start) {
        Some(size) => {
            if negative {
                Some(Fixed { nano: 0 - (size as i64) })
            } else {
                Some(Fixed { nano: size as i64 })
            }
        },
        None => None,
    }
}

} // verus!
