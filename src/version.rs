use vstd::prelude::*;
use vstd::string::*;
use chrono::{Datelike, Timelike};

verus! {

/// The moment a version was written, to the second, in UTC.
#[derive(Debug, Clone, Copy, PartialEq, Eq, Structural)]
pub struct VersionStamp {
    pub year: u32,
    pub month: u32,
    pub day: u32,
    pub hour: u32,
    pub minute: u32,
    pub second: u32,
}

impl VersionStamp {
    /// Every field fits the fixed width it is written with.
    pub open spec fn fits(self) -> bool {
        self.year < 10000 && self.month < 100 && self.day < 100 && self.hour < 100
            && self.minute < 100 && self.second < 100
    }

    /// The stamp as one number whose order is the chronological order.
    pub open spec fn key(self) -> int {
        ((((self.year * 100 + self.month) * 100 + self.day) * 100 + self.hour) * 100
            + self.minute) * 100 + self.second
    }
}

pub open spec fn digit_char(d: int) -> char {
    ((d + 48) as u8) as char
}

pub open spec fn digits2(v: int) -> Seq<char> {
    seq![digit_char(v / 10), digit_char(v % 10)]
}

pub open spec fn digits4(v: int) -> Seq<char> {
    seq![digit_char(v / 1000), digit_char(v / 100 % 10), digit_char(v / 10 % 10), digit_char(v % 10)]
}

/// The version id: `YYYY-MM-DD-HH-MM-SS`.
pub open spec fn id_chars(st: VersionStamp) -> Seq<char> {
    digits4(st.year as int) + seq!['-'] + digits2(st.month as int) + seq!['-'] + digits2(
        st.day as int,
    ) + seq!['-'] + digits2(st.hour as int) + seq!['-'] + digits2(st.minute as int) + seq!['-']
        + digits2(st.second as int)
}

pub open spec fn suffix_chars() -> Seq<char> {
    seq!['.', 'l', 'u', 'a']
}

/// The name of the file that holds a version: its id and the `.lua` suffix.
pub open spec fn file_chars(st: VersionStamp) -> Seq<char> {
    id_chars(st) + suffix_chars()
}

fn push_digit(s: &mut String, d: u32)
    requires
        d < 10,
    ensures
        final(s)@ == old(s)@ + seq![digit_char(d as int)],
{
    proof {
        reveal_strlit("0123456789");
    }
    let one = "0123456789".substring_ascii(d as usize, d as usize + 1);
    assert(one@ =~= seq![digit_char(d as int)]);
    s.append(one);
}


fn push_two(s: &mut String, v: u32)
    requires
        v < 100,
    ensures
        final(s)@ == old(s)@ + digits2(v as int),
{
    push_digit(s, v / 10);
    push_digit(s, v % 10);
    assert(final(s)@ =~= old(s)@ + digits2(v as int));
}

fn push_four(s: &mut String, v: u32)
    requires
        v < 10000,
    ensures
        final(s)@ == old(s)@ + digits4(v as int),
{
    push_digit(s, v / 1000);
    push_digit(s, v / 100 % 10);
    push_digit(s, v / 10 % 10);
    push_digit(s, v % 10);
    assert(final(s)@ =~= old(s)@ + digits4(v as int));
}

/// Where a version name holds a dash.
pub open spec fn is_dash_pos(i: int) -> bool {
    i == 4 || i == 7 || i == 10 || i == 13 || i == 16
}

/// The character at position `i` of a version file name is of the right kind.
pub open spec fn fits_at(c: char, i: int) -> bool {
    if is_dash_pos(i) {
        c == '-'
    } else if i < 19 {
        '0' <= c && c <= '9'
    } else {
        c == suffix_chars()[i - 19]
    }
}

/// A file name follows the version naming convention `YYYY-MM-DD-HH-MM-SS.lua`.
pub open spec fn is_version_name(s: Seq<char>) -> bool {
    s.len() == 23 && forall|i: int| 0 <= i < 23 ==> #[trigger] fits_at(s[i], i)
}

pub open spec fn digit_value(c: char) -> int {
    c as int - 48
}

pub open spec fn two_at(s: Seq<char>, i: int) -> int {
    10 * digit_value(s[i]) + digit_value(s[i + 1])
}

/// The stamp that a version file name spells.
pub open spec fn stamp_of_name(s: Seq<char>) -> VersionStamp {
    VersionStamp {
        year: (100 * two_at(s, 0) + two_at(s, 2)) as u32,
        month: two_at(s, 5) as u32,
        day: two_at(s, 8) as u32,
        hour: two_at(s, 11) as u32,
        minute: two_at(s, 14) as u32,
        second: two_at(s, 17) as u32,
    }
}

fn char_fits_at(c: char, i: usize) -> (r: bool)
    requires
        i < 23,
    ensures
        r == fits_at(c, i as int),
{
    if i == 4 || i == 7 || i == 10 || i == 13 || i == 16 {
        c == '-'
    } else if i < 19 {
        '0' <= c && c <= '9'
    } else if i == 19 {
        c == '.'
    } else if i == 20 {
        c == 'l'
    } else if i == 21 {
        c == 'u'
    } else {
        c == 'a'
    }
}

fn two_digits(name: &str, i: usize) -> (r: u32)
    requires
        i < 22,
        i + 1 < name@.len(),
        '0' <= name@[i as int] <= '9',
        '0' <= name@[i + 1] <= '9',
    ensures
        r == two_at(name@, i as int),
        r < 100,
{
    let a = name.get_char(i) as u32 - 48;
    let b = name.get_char(i + 1) as u32 - 48;
    10 * a + b
}

/// Reads a version file name back into its stamp; `None` for any other name.
pub fn parse_file_name(name: &str) -> (r: Option<VersionStamp>)
    ensures
        r.is_some() == is_version_name(name@),
        r.is_some() ==> r.unwrap() == stamp_of_name(name@) && r.unwrap().fits(),
{
    if name.unicode_len() != 23 {
        return None;
    }
    let mut i: usize = 0;
    while i < 23
        invariant
            name@.len() == 23,
            i <= 23,
            forall|j: int| 0 <= j < i ==> #[trigger] fits_at(name@[j], j),
        decreases 23 - i,
    {
        if !char_fits_at(name.get_char(i), i) {
            assert(!fits_at(name@[i as int], i as int));
            return None;
        }
        i = i + 1;
    }
    assert(fits_at(name@[0], 0) && fits_at(name@[1], 1) && fits_at(name@[2], 2));
    assert(fits_at(name@[3], 3) && fits_at(name@[5], 5) && fits_at(name@[6], 6));
    assert(fits_at(name@[8], 8) && fits_at(name@[9], 9) && fits_at(name@[11], 11));
    assert(fits_at(name@[12], 12) && fits_at(name@[14], 14) && fits_at(name@[15], 15));
    assert(fits_at(name@[17], 17) && fits_at(name@[18], 18));
    let hi = two_digits(name, 0);
    let lo = two_digits(name, 2);
    let st = VersionStamp {
        year: 100 * hi + lo,
        month: two_digits(name, 5),
        day: two_digits(name, 8),
        hour: two_digits(name, 11),
        minute: two_digits(name, 14),
        second: two_digits(name, 17),
    };
    Some(st)
}

impl VersionStamp {
    /// The version id, `YYYY-MM-DD-HH-MM-SS`.
    pub fn id(&self) -> (r: String)
        requires
            self.fits(),
        ensures
            r@ == id_chars(*self),
    {
        let mut s = String::new();
        push_four(&mut s, self.year);
        s.append("-");
        push_two(&mut s, self.month);
        s.append("-");
        push_two(&mut s, self.day);
        s.append("-");
        push_two(&mut s, self.hour);
        s.append("-");
        push_two(&mut s, self.minute);
        s.append("-");
        push_two(&mut s, self.second);
        proof {
            reveal_strlit("-");
        }
        assert(s@ =~= id_chars(*self));
        s
    }

    /// The name of the file that holds this version: the id and `.lua`.
    pub fn file_name(&self) -> (r: String)
        requires
            self.fits(),
        ensures
            r@ == file_chars(*self),
    {
        let mut s = self.id();
        s.append(".lua");
        proof {
            reveal_strlit(".lua");
        }
        assert(s@ =~= file_chars(*self));
        s
    }

    /// The stamp as one number, in chronological order.
    pub fn order_key(&self) -> (r: u64)
        requires
            self.fits(),
        ensures
            r == self.key(),
    {
        let k = self.year as u64;
        assert(k * 100 + self.month < 1000000) by (nonlinear_arith)
            requires k < 10000, self.month < 100;
        let k = k * 100 + self.month as u64;
        assert(k * 100 + self.day < 100000000) by (nonlinear_arith)
            requires k < 1000000, self.day < 100;
        let k = k * 100 + self.day as u64;
        assert(k * 100 + self.hour < 10000000000) by (nonlinear_arith)
            requires k < 100000000, self.hour < 100;
        let k = k * 100 + self.hour as u64;
        assert(k * 100 + self.minute < 1000000000000) by (nonlinear_arith)
            requires k < 10000000000, self.minute < 100;
        let k = k * 100 + self.minute as u64;
        assert(k * 100 + self.second < 100000000000000) by (nonlinear_arith)
            requires k < 1000000000000, self.second < 100;
        k * 100 + self.second as u64
    }

    /// Whether this stamp comes strictly before `other`.
    pub fn is_before(&self, other: &VersionStamp) -> (r: bool)
        requires
            self.fits(),
            other.fits(),
        ensures
            r == (self.key() < other.key()),
    {
        self.order_key() < other.order_key()
    }
}


proof fn lemma_digit(d: int)
    requires
        0 <= d < 10,
    ensures
        '0' <= digit_char(d) <= '9',
        digit_value(digit_char(d)) == d,
{
}

/// Writing a stamp as a file name and reading the name back gives the stamp,
/// and the name follows the version naming convention.
pub proof fn lemma_file_name_round_trip(st: VersionStamp)
    requires
        st.fits(),
    ensures
        is_version_name(file_chars(st)),
        stamp_of_name(file_chars(st)) == st,
{
    let s = file_chars(st);
    let y = st.year as int;
    lemma_digit(y / 1000);
    lemma_digit(y / 100 % 10);
    lemma_digit(y / 10 % 10);
    lemma_digit(y % 10);
    lemma_digit(st.month as int / 10);
    lemma_digit(st.month as int % 10);
    lemma_digit(st.day as int / 10);
    lemma_digit(st.day as int % 10);
    lemma_digit(st.hour as int / 10);
    lemma_digit(st.hour as int % 10);
    lemma_digit(st.minute as int / 10);
    lemma_digit(st.minute as int % 10);
    lemma_digit(st.second as int / 10);
    lemma_digit(st.second as int % 10);
    assert(s.len() == 23);
    assert(s[0] == digit_char(y / 1000) && s[1] == digit_char(y / 100 % 10));
    assert(s[2] == digit_char(y / 10 % 10) && s[3] == digit_char(y % 10));
    assert(s[5] == digit_char(st.month as int / 10) && s[6] == digit_char(st.month as int % 10));
    assert(s[8] == digit_char(st.day as int / 10) && s[9] == digit_char(st.day as int % 10));
    assert(s[11] == digit_char(st.hour as int / 10) && s[12] == digit_char(st.hour as int % 10));
    assert(s[14] == digit_char(st.minute as int / 10) && s[15] == digit_char(st.minute as int % 10));
    assert(s[17] == digit_char(st.second as int / 10) && s[18] == digit_char(st.second as int % 10));
    assert(s[4] == '-' && s[7] == '-' && s[10] == '-' && s[13] == '-' && s[16] == '-');
    assert(s[19] == '.' && s[20] == 'l' && s[21] == 'u' && s[22] == 'a');
    assert forall|i: int| 0 <= i < 23 implies #[trigger] fits_at(s[i], i) by {
        assert(i == 0 || i == 1 || i == 2 || i == 3 || i == 4 || i == 5 || i == 6 || i == 7
            || i == 8 || i == 9 || i == 10 || i == 11 || i == 12 || i == 13 || i == 14 || i
            == 15 || i == 16 || i == 17 || i == 18 || i == 19 || i == 20 || i == 21 || i == 22);
    }
    assert(100 * (10 * (y / 1000) + y / 100 % 10) + (10 * (y / 10 % 10) + y % 10) == y)
        by (nonlinear_arith)
        requires 0 <= y < 10000;
}

proof fn lemma_char_digit(c: char)
    requires
        '0' <= c <= '9',
    ensures
        0 <= digit_value(c) < 10,
        digit_char(digit_value(c)) == c,
{
}

proof fn lemma_four_digits(a: int, b: int, c: int, d: int)
    requires
        0 <= a < 10,
        0 <= b < 10,
        0 <= c < 10,
        0 <= d < 10,
    ensures
        ({
            let y = 100 * (10 * a + b) + (10 * c + d);
            y / 1000 == a && y / 100 % 10 == b && y / 10 % 10 == c && y % 10 == d
        }),
{
    let y = 100 * (10 * a + b) + (10 * c + d);
    assert(y == 1000 * a + (100 * b + 10 * c + d));
    vstd::arithmetic::div_mod::lemma_fundamental_div_mod_converse(y, 1000, a, 100 * b + 10 * c + d);
    vstd::arithmetic::div_mod::lemma_fundamental_div_mod_converse(y, 100, 10 * a + b, 10 * c + d);
    vstd::arithmetic::div_mod::lemma_fundamental_div_mod_converse(10 * a + b, 10, a, b);
    vstd::arithmetic::div_mod::lemma_fundamental_div_mod_converse(y, 10, 100 * a + 10 * b + c, d);
    vstd::arithmetic::div_mod::lemma_fundamental_div_mod_converse(100 * a + 10 * b + c, 10, 10 * a + b, c);
}

proof fn lemma_two_digits(s: Seq<char>, k: int)
    requires
        0 <= k,
        k + 1 < s.len(),
        '0' <= s[k] <= '9',
        '0' <= s[k + 1] <= '9',
    ensures
        digits2(two_at(s, k)) == seq![s[k], s[k + 1]],
        0 <= two_at(s, k) < 100,
{
    lemma_char_digit(s[k]);
    lemma_char_digit(s[k + 1]);
    let a = digit_value(s[k]);
    let b = digit_value(s[k + 1]);
    vstd::arithmetic::div_mod::lemma_fundamental_div_mod_converse(10 * a + b, 10, a, b);
    assert(digits2(two_at(s, k)) =~= seq![s[k], s[k + 1]]);
}

/// Every name that follows the version naming convention is the file name of
/// the stamp it spells: no two version names read as the same stamp.
pub proof fn lemma_version_name_is_file_name(s: Seq<char>)
    requires
        is_version_name(s),
    ensures
        stamp_of_name(s).fits(),
        file_chars(stamp_of_name(s)) == s,
{
    assert forall|i: int| 0 <= i < 23 && i < 19 && !is_dash_pos(i) implies '0' <= #[trigger] s[i]
        <= '9' by {
        assert(fits_at(s[i], i));
    }
    assert(fits_at(s[4], 4) && fits_at(s[7], 7) && fits_at(s[10], 10) && fits_at(s[13], 13));
    assert(fits_at(s[16], 16) && fits_at(s[19], 19) && fits_at(s[20], 20) && fits_at(s[21], 21));
    assert(fits_at(s[22], 22));
    lemma_two_digits(s, 5);
    lemma_two_digits(s, 8);
    lemma_two_digits(s, 11);
    lemma_two_digits(s, 14);
    lemma_two_digits(s, 17);
    lemma_char_digit(s[0]);
    lemma_char_digit(s[1]);
    lemma_char_digit(s[2]);
    lemma_char_digit(s[3]);
    lemma_four_digits(digit_value(s[0]), digit_value(s[1]), digit_value(s[2]), digit_value(s[3]));
    let st = stamp_of_name(s);
    assert(digits4(st.year as int) =~= s.subrange(0, 4));
    assert(file_chars(st) =~= s);
}

/// Names the UTC calendar fields (year, month, day, hour, minute, second) of a
/// Unix time in seconds.
pub uninterp spec fn utc_fields(secs: int) -> (int, int, int, int, int, int);

/// Relies on chrono's `DateTime::<Utc>::from_timestamp` and its `Datelike` /
/// `Timelike` accessors: the calendar fields of a Unix time in UTC, with month in
/// 1..=12, day in 1..=31, hour below 24 and minute and second below 60; `None`
/// where the time is out of chrono's range, which reaches past 262,000 years either
/// side of 1970, so every time within 8 * 10^12 seconds of it is placed.
#[verifier::external_body]
fn utc_civil(secs: i64) -> (r: Option<(i32, u32, u32, u32, u32, u32)>)
    ensures
        -8_000_000_000_000 <= secs <= 8_000_000_000_000 ==> r is Some,
        r matches Some(f) ==> (f.0 as int, f.1 as int, f.2 as int, f.3 as int, f.4 as int, f.5 as int)
            == utc_fields(secs as int) && 1 <= f.1 <= 12 && 1 <= f.2 <= 31 && f.3 < 24 && f.4 < 60
            && f.5 < 60,
{
    chrono::DateTime::<chrono::Utc>::from_timestamp(secs, 0).map(
        |d| (d.year(), d.month(), d.day(), d.hour(), d.minute(), d.second()),
    )
}

/// The stamp of a Unix time in seconds, in UTC. `None` where chrono cannot place
/// the time or its year does not have four digits.
pub fn stamp_from_unix(secs: i64) -> (r: Option<VersionStamp>)
    ensures
        -8_000_000_000_000 <= secs <= 8_000_000_000_000 ==> (r is Some <==> 0 <= utc_fields(
            secs as int,
        ).0 <= 9999),
        r matches Some(st) ==> st.fits() && (st.year as int, st.month as int, st.day as int,
            st.hour as int, st.minute as int, st.second as int) == utc_fields(secs as int),
{
    match utc_civil(secs) {
        Some((year, month, day, hour, minute, second)) => {
            if year < 0 || year > 9999 {
                None
            } else {
                Some(VersionStamp { year: year as u32, month, day, hour, minute, second })
            }
        },
        None => None,
    }
}

} // verus!
