//! Values of the workbook's cells and rows, and how they are read and written.
use vstd::prelude::*;
use vstd::arithmetic::power2::*;
use crate::text::{
    all_digits, chars_of, decimal, decimal_text, digit, digit_of, digits_value, is_digit, join3,
    numeral_value, read_digits, same_text, signed_decimal, signed_decimal_text, text_of, text_view,
    trim, trimmed,
};

verus! {

// -------------------------------------------------------------------- numbers
/// A number of the workbook in decimal notation, as it is written without exponent: an optional
/// minus sign, digits, and where the number is not whole a point and further digits. The texts
/// `NaN`, `inf` and `-inf` stand for what is no finite number.
#[derive(Clone, Debug)]
pub struct Number {
    pub text: String,
}

impl View for Number {
    type V = Seq<char>;

    open spec fn view(&self) -> Seq<char> {
        self.text@
    }
}

/// How a number is written into a cell: zero has no sign.
pub open spec fn number_text(n: Seq<char>) -> Seq<char> {
    if n == "-0"@ {
        "0"@
    } else {
        n
    }
}

/// Writes a number.
pub fn fmt_num(n: &Number) -> (r: String)
    ensures
        r@ == number_text(n@),
{
    if same_text(n.text.as_str(), "-0") {
        String::from_str("0")
    } else {
        n.text.clone()
    }
}

impl Number {
    /// A whole number.
    pub fn whole(n: i64) -> (r: Number)
        ensures
            r@ == signed_decimal(n as int),
    {
        Number { text: signed_decimal_text(n) }
    }

    /// The same number once more.
    pub fn copy(&self) -> (r: Number)
        ensures
            r@ == self@,
    {
        Number { text: self.text.clone() }
    }
}

// -------------------------------------------------------------------- columns
/// The place of a letter in the alphabet, in either case.
pub open spec fn letter_place(c: char) -> Option<nat> {
    if 'A' <= c <= 'Z' {
        Some((c as int - 'A' as int + 1) as nat)
    } else if 'a' <= c <= 'z' {
        Some((c as int - 'a' as int + 1) as nat)
    } else {
        None
    }
}

/// Nothing but letters.
pub open spec fn all_letters(s: Seq<char>) -> bool {
    forall|i: int| 0 <= i < s.len() ==> letter_place(#[trigger] s[i]) is Some
}

/// The number that letters write in the numbering of columns, where `Z` is 26 and `AA` is 27.
pub open spec fn letters_value(s: Seq<char>) -> nat
    decreases s.len(),
{
    if s.len() == 0 {
        0
    } else {
        match letter_place(s.last()) {
            Some(k) => letters_value(s.drop_last()) * 26 + k,
            None => 0,
        }
    }
}

/// The column that a text of one to three letters names.
pub open spec fn col_value(s: Seq<char>) -> Option<nat> {
    if 1 <= s.len() <= 3 && all_letters(s) {
        Some(letters_value(s))
    } else {
        None
    }
}

/// Up to three letters write a number of at most 18278.
pub proof fn lemma_col_small(s: Seq<char>)
    ensures
        col_value(s) matches Some(n) ==> 1 <= n <= 18278,
{
    if col_value(s) is Some {
        let t = s.drop_last();
        let u = t.drop_last();
        assert(letter_place(s[s.len() - 1]) is Some);
        if s.len() == 1 {
            assert(letters_value(t) == 0);
        } else {
            assert(letter_place(s[s.len() - 2]) is Some);
            assert(t.last() == s[s.len() - 2]);
            if s.len() == 2 {
                assert(letters_value(u) == 0);
            } else {
                assert(letter_place(s[0]) is Some);
                assert(u.last() == s[0]);
                assert(letters_value(u.drop_last()) == 0);
            }
        }
    }
}

/// The letters that name a column.
pub open spec fn col_name(n: nat) -> Seq<char>
    decreases n,
{
    if n == 0 {
        Seq::empty()
    } else {
        col_name(((n - 1) / 26) as nat).push((('A' as int) + (n - 1) % 26) as char)
    }
}

/// The letters in upper case.
pub open spec fn upper(s: Seq<char>) -> Seq<char> {
    s.map_values(
        |c: char|
            if 'a' <= c <= 'z' {
                (c as int - 'a' as int + 'A' as int) as char
            } else {
                c
            },
    )
}

/// One letter's place in the alphabet.
fn place_of(c: char) -> (r: Option<u32>)
    ensures
        match letter_place(c) {
            Some(k) => r matches Some(v) && v == k,
            None => r is None,
        },
        r matches Some(k) ==> 1 <= k <= 26,
{
    if 'A' <= c && c <= 'Z' {
        Some(c as u32 - 64)
    } else if 'a' <= c && c <= 'z' {
        Some(c as u32 - 96)
    } else {
        None
    }
}

/// The number of the column that `letters` names.
pub fn col_to_num(letters: &str) -> (r: Option<u32>)
    ensures
        match col_value(letters@) {
            Some(n) => r matches Some(v) && v == n,
            None => r is None,
        },
        r matches Some(n) ==> 1 <= n <= 18278,
{
    let c = chars_of(letters);
    if c.len() == 0 || c.len() > 3 {
        return None;
    }
    let mut n: u32 = 0;
    let mut i: usize = 0;
    assert(c@.take(0) =~= Seq::<char>::empty());
    while i < c.len()
        invariant
            c@ == letters@,
            i <= c@.len() <= 3,
            forall|j: int| 0 <= j < i ==> letter_place(#[trigger] c@[j]) is Some,
            n == letters_value(c@.take(i as int)),
            i == 0 ==> n == 0,
            i == 1 ==> 1 <= n <= 26,
            i == 2 ==> 1 <= n <= 702,
            i == 3 ==> 1 <= n <= 18278,
        decreases c@.len() - i,
    {
        match place_of(c[i]) {
            Some(k) => {
                assert(c@.take(i + 1).drop_last() =~= c@.take(i as int));
                n = n * 26 + k;
                i = i + 1;
            },
            None => {
                assert(letter_place(c@[i as int]) is None);
                return None;
            },
        }
    }
    assert(c@.take(i as int) =~= letters@);
    Some(n)
}

/// The letters that name column `n`; none where `n` is zero.
pub fn num_to_col(n: u32) -> (r: String)
    ensures
        r@ == col_name(n as nat),
    decreases n,
{
    if n == 0 {
        String::new()
    } else {
        let mut out = num_to_col((n - 1) / 26);
        let k: u8 = ((n - 1) % 26) as u8;
        out.push((65u8 + k) as char);
        out
    }
}

/// The name of a column is a row of letters that writes the column's number.
pub proof fn lemma_col_name(n: nat)
    ensures
        all_letters(col_name(n)),
        letters_value(col_name(n)) == n,
        n >= 1 ==> col_name(n).len() >= 1,
        n <= 26 ==> col_name(n).len() <= 1,
        n <= 702 ==> col_name(n).len() <= 2,
        n <= 18278 ==> col_name(n).len() <= 3,
    decreases n,
{
    if n > 0 {
        let m = ((n - 1) / 26) as nat;
        lemma_col_name(m);
        assert(col_name(n).drop_last() =~= col_name(m));
    }
}

/// Every column that three letters can name is read back from its name.
pub proof fn law_column_read_back(n: nat)
    requires
        1 <= n <= 18278,
    ensures
        col_value(col_name(n)) == Some(n),
{
    lemma_col_name(n);
}

/// What letters name is named by the same letters in upper case.
pub proof fn law_column_named_back(s: Seq<char>)
    requires
        all_letters(s),
    ensures
        col_name(letters_value(s)) == upper(s),
    decreases s.len(),
{
    if s.len() > 0 {
        let rest = s.drop_last();
        assert forall|i: int| 0 <= i < rest.len() implies letter_place(#[trigger] rest[i]) is Some by {
            assert(rest[i] == s[i]);
        }
        law_column_named_back(rest);
        let k = letter_place(s.last()).unwrap();
        assert(letter_place(s[s.len() - 1]) is Some);
        let n = letters_value(s);
        assert(n == letters_value(rest) * 26 + k);
        assert((n - 1) / 26 == letters_value(rest));
        assert((n - 1) % 26 == k - 1);
        assert(col_name(n) =~= upper(s));
    } else {
        assert(col_name(0) =~= upper(s));
    }
}

// --------------------------------------------------------------------- phones
/// The digits of a text, in their order.
pub open spec fn digits_only(s: Seq<char>) -> Seq<char> {
    s.filter(|c: char| is_digit(c))
}

/// Keeps the digits of a phone number and drops everything else.
pub fn norm_phone(s: &str) -> (r: String)
    ensures
        r@ == digits_only(s@),
{
    let c = chars_of(s);
    let mut out = String::new();
    let mut i: usize = 0;
    assert(c@.take(0) =~= Seq::<char>::empty());
    proof {
        reveal(Seq::filter);
    }
    while i < c.len()
        invariant
            c@ == s@,
            i <= c@.len(),
            out@ == digits_only(c@.take(i as int)),
        decreases c@.len() - i,
    {
        proof {
            reveal(Seq::filter);
            assert(c@.take(i + 1).drop_last() =~= c@.take(i as int));
        }
        if digit(c[i]) {
            out.push(c[i]);
        }
        i = i + 1;
    }
    assert(c@.take(i as int) =~= s@);
    out
}

/// A phone number that is already nothing but digits stays as it is, so that a second pass over
/// a number changes nothing.
pub proof fn law_norm_phone_settles(s: Seq<char>)
    ensures
        forall|i: int| 0 <= i < digits_only(s).len() ==> is_digit(#[trigger] digits_only(s)[i]),
        digits_only(digits_only(s)) == digits_only(s),
{
    let pred = |c: char| is_digit(c);
    broadcast use vstd::seq_lib::group_filter_ensures;
    let d = digits_only(s);
    assert forall|i: int| 0 <= i < d.len() implies is_digit(#[trigger] d[i]) by {
        assert(pred(d[i]));
    }
    lemma_filter_all(d);
}

/// Nothing is dropped from a row of digits.
proof fn lemma_filter_all(s: Seq<char>)
    requires
        forall|i: int| 0 <= i < s.len() ==> is_digit(#[trigger] s[i]),
    ensures
        digits_only(s) == s,
    decreases s.len(),
{
    reveal(Seq::filter);
    if s.len() > 0 {
        let rest = s.drop_last();
        assert forall|i: int| 0 <= i < rest.len() implies is_digit(#[trigger] rest[i]) by {
            assert(rest[i] == s[i]);
        }
        lemma_filter_all(rest);
        assert(is_digit(s[s.len() - 1]));
        assert(digits_only(s) =~= rest.push(s.last()));
        assert(rest.push(s.last()) =~= s);
    } else {
        assert(digits_only(s) =~= s);
    }
}

// ----------------------------------------------------------- numbers by their text
/// The characters in front of the point, or all where there is none.
pub open spec fn before_point(n: Seq<char>) -> Seq<char>
    decreases n.len(),
{
    if n.len() == 0 || n[0] == '.' {
        Seq::empty()
    } else {
        seq![n[0]] + before_point(n.drop_first())
    }
}

/// A finite number.
pub open spec fn is_finite(n: Seq<char>) -> bool {
    n != "NaN"@ && n != "inf"@ && n != "-inf"@
}

/// A finite number without a fraction.
pub open spec fn is_whole(n: Seq<char>) -> bool {
    is_finite(n) && before_point(n) == n
}

/// A number that is neither zero nor minus zero.
pub open spec fn is_nonzero(n: Seq<char>) -> bool {
    n != "0"@ && n != "-0"@
}

/// A number above zero.
pub open spec fn is_positive(n: Seq<char>) -> bool {
    n != "0"@ && n != "NaN"@ && (n.len() == 0 || n[0] != '-')
}

/// An integer moved into the range of `i64`.
pub open spec fn clamped(v: int) -> int {
    if v > i64::MAX {
        i64::MAX as int
    } else if v < i64::MIN {
        i64::MIN as int
    } else {
        v
    }
}

/// A number without its fraction, in the range of `i64`; zero for what is no number.
pub open spec fn whole_part(n: Seq<char>) -> int {
    if n == "inf"@ {
        i64::MAX as int
    } else if n == "-inf"@ {
        i64::MIN as int
    } else {
        let s = before_point(n);
        if s.len() > 0 && s[0] == '-' {
            match numeral_value(s.drop_first()) {
                Some(v) => clamped(-v),
                None => 0,
            }
        } else {
            match numeral_value(s) {
                Some(v) => clamped(v as int),
                None => 0,
            }
        }
    }
}

/// Nothing but digits between two places.
fn digits_between(c: &Vec<char>, from: usize, to: usize) -> (r: bool)
    requires
        from <= to <= c@.len(),
    ensures
        r == all_digits(c@.subrange(from as int, to as int)),
{
    let mut i: usize = from;
    let ghost s = c@.subrange(from as int, to as int);
    while i < to
        invariant
            from <= i <= to <= c@.len(),
            s == c@.subrange(from as int, to as int),
            forall|k: int| 0 <= k < i - from ==> is_digit(#[trigger] s[k]),
        decreases to - i,
    {
        assert(s[i - from] == c@[i as int]);
        if !digit(c[i]) {
            return false;
        }
        i = i + 1;
    }
    true
}

impl Number {
    /// The place of the point, or the end.
    fn point(c: &Vec<char>) -> (r: usize)
        ensures
            r <= c@.len(),
            c@.take(r as int) == before_point(c@),
    {
        let mut i: usize = 0;
        assert(c@.skip(0) =~= c@);
        assert(c@.take(0) + before_point(c@.skip(0)) =~= before_point(c@));
        while i < c.len() && c[i] != '.'
            invariant
                i <= c@.len(),
                before_point(c@) == c@.take(i as int) + before_point(c@.skip(i as int)),
            decreases c@.len() - i,
        {
            proof {
                let t = c@.skip(i as int);
                assert(t.drop_first() =~= c@.skip(i + 1));
                assert(t[0] == c@[i as int]);
                assert(c@.take(i as int) + (seq![t[0]] + before_point(t.drop_first())) =~= c@.take(
                    i + 1,
                ) + before_point(c@.skip(i + 1)));
            }
            i = i + 1;
        }
        proof {
            if i < c@.len() {
                assert(c@.skip(i as int)[0] == c@[i as int]);
            }
            assert(c@.take(i as int) + Seq::<char>::empty() =~= c@.take(i as int));
        }
        i
    }

    /// Whether the number is finite.
    pub fn finite(&self) -> (r: bool)
        ensures
            r == is_finite(self@),
    {
        !same_text(self.text.as_str(), "NaN") && !same_text(self.text.as_str(), "inf")
            && !same_text(self.text.as_str(), "-inf")
    }

    /// Whether the number is finite and has no fraction.
    pub fn is_whole_number(&self) -> (r: bool)
        ensures
            r == is_whole(self@),
    {
        let c = chars_of(self.text.as_str());
        let p = Number::point(&c);
        assert(p == c@.len() ==> c@.take(p as int) =~= c@);
        p == c.len() && self.finite()
    }

    /// Whether the number is not zero.
    pub fn nonzero(&self) -> (r: bool)
        ensures
            r == is_nonzero(self@),
    {
        !same_text(self.text.as_str(), "0") && !same_text(self.text.as_str(), "-0")
    }

    /// Whether the number is above zero.
    pub fn positive(&self) -> (r: bool)
        ensures
            r == is_positive(self@),
    {
        if same_text(self.text.as_str(), "0") || same_text(self.text.as_str(), "NaN") {
            return false;
        }
        let c = chars_of(self.text.as_str());
        c.len() == 0 || c[0] != '-'
    }

    /// The number without its fraction.
    pub fn trunc(&self) -> (r: Number)
        ensures
            r@ == before_point(self@),
    {
        let c = chars_of(self.text.as_str());
        let p = Number::point(&c);
        let text = text_of(&c, 0, p);
        assert(text@ =~= c@.take(p as int));
        Number { text }
    }

    /// The number without its fraction as an integer, moved into the range of `i64`.
    pub fn to_i64(&self) -> (r: i64)
        ensures
            r == whole_part(self@),
    {
        if same_text(self.text.as_str(), "inf") {
            return i64::MAX;
        }
        if same_text(self.text.as_str(), "-inf") {
            return i64::MIN;
        }
        let all = chars_of(self.text.as_str());
        let p = Number::point(&all);
        let text = text_of(&all, 0, p);
        assert(text@ =~= all@.take(p as int));
        let c = chars_of(text.as_str());
        let negative = c.len() > 0 && c[0] == '-';
        let from: usize = if negative {
            1
        } else {
            0
        };
        proof {
            assert(negative ==> c@.subrange(1, c@.len() as int) =~= c@.drop_first());
            assert(!negative ==> c@.subrange(0, c@.len() as int) =~= c@);
        }
        if from == c.len() || !digits_between(&c, from, c.len()) {
            return 0;
        }
        match read_digits(&c, from, 9223372036854775808u64) {
            Some(v) => {
                if negative {
                    (-(v as i128)) as i64
                } else if v > i64::MAX as u64 {
                    i64::MAX
                } else {
                    v as i64
                }
            },
            None => {
                if negative {
                    i64::MIN
                } else {
                    i64::MAX
                }
            },
        }
    }
}

// ----------------------------------------------------------------------- dates
/// A day: its number, where the first of January of the year one is day one, and its text in the
/// form `2026-08-28`.
#[derive(Clone, Debug)]
pub struct Date {
    pub days: i32,
    pub text: String,
}

impl View for Date {
    type V = (int, Seq<char>);

    open spec fn view(&self) -> (int, Seq<char>) {
        (self.days as int, self.text@)
    }
}

impl Date {
    /// The same day once more.
    pub fn copy(&self) -> (r: Date)
        ensures
            r@ == self@,
    {
        Date { days: self.days, text: self.text.clone() }
    }
}

/// An optional day.
pub open spec fn date_view(d: Option<Date>) -> Option<(int, Seq<char>)> {
    match d {
        Some(x) => Some(x@),
        None => None,
    }
}

/// The day that a text names in a format of `chrono`.
pub uninterp spec fn parsed_date(s: Seq<char>, fmt: Seq<char>) -> Option<(int, Seq<char>)>;

/// `chrono::NaiveDate::parse_from_str`, with the day that it finds as number and text. What it
/// finds depends on the text and the format alone.
#[verifier::external_body]
pub(crate) fn parse_date_as(s: &str, fmt: &str) -> (r: Option<Date>)
    ensures
        date_view(r) == parsed_date(s@, fmt@),
{
    chrono::NaiveDate::parse_from_str(s, fmt).ok().map(
        |d|
            Date {
                days: chrono::Datelike::num_days_from_ce(&d),
                text: d.format("%Y-%m-%d").to_string(),
            },
    )
}

/// The day that a text names with hyphens, slashes or points, without the white space around it.
pub open spec fn date_value(s: Seq<char>) -> Option<(int, Seq<char>)> {
    let t = trimmed(s);
    match parsed_date(t, "%Y-%m-%d"@) {
        Some(d) => Some(d),
        None => match parsed_date(t, "%Y/%m/%d"@) {
            Some(d) => Some(d),
            None => parsed_date(t, "%Y.%m.%d"@),
        },
    }
}

/// Reads a day that is written with hyphens, slashes or points.
pub fn parse_date_str(s: &str) -> (r: Option<Date>)
    ensures
        date_view(r) == date_value(s@),
{
    let t = trim(s);
    match parse_date_as(t.as_str(), "%Y-%m-%d") {
        Some(d) => Some(d),
        None => match parse_date_as(t.as_str(), "%Y/%m/%d") {
            Some(d) => Some(d),
            None => parse_date_as(t.as_str(), "%Y.%m.%d"),
        },
    }
}

/// The number of a day in the workbook: days since the thirtieth of December 1899.
pub open spec fn serial_of(days: int) -> int {
    days - 693594
}

/// The number of a day in the workbook.
pub fn excel_serial(d: &Date) -> (r: i64)
    ensures
        r == serial_of(d@.0),
{
    d.days as i64 - 693594
}

// ----------------------------------------------------------------------- times
/// How many digits stand from `i` on.
pub open spec fn digit_run(s: Seq<char>, i: int) -> nat
    decreases s.len() - i,
{
    if 0 <= i < s.len() && is_digit(s[i]) {
        1 + digit_run(s, i + 1)
    } else {
        0
    }
}

/// A run of digits stays inside the text and holds nothing but digits.
pub proof fn lemma_digit_run(s: Seq<char>, i: int)
    requires
        0 <= i <= s.len(),
    ensures
        i + digit_run(s, i) <= s.len(),
        forall|k: int| i <= k < i + digit_run(s, i) ==> is_digit(#[trigger] s[k]),
    decreases s.len() - i,
{
    if i < s.len() && is_digit(s[i]) {
        lemma_digit_run(s, i + 1);
    }
}

/// The time of day that a text names, in seconds: one or two digits, a colon and two digits for the
/// minutes, whatever follows them; hours beyond the day start again.
pub open spec fn time_value(s: Seq<char>) -> Option<int> {
    let t = trimmed(s);
    let run = digit_run(t, 0) as int;
    let h = if run > 2 {
        2
    } else {
        run
    };
    if h == 0 || h >= t.len() || t[h] != ':' || digit_run(t, h + 1) < 2 {
        None
    } else {
        let hours = digits_value(t.take(h));
        let minutes = digits_value(t.subrange(h + 1, h + 3));
        if minutes >= 60 {
            None
        } else {
            Some(((hours % 24) * 3600) as int + (minutes * 60) as int)
        }
    }
}

/// The end of the digits that stand from `from` on.
fn digits_end(c: &Vec<char>, from: usize) -> (r: usize)
    requires
        from <= c@.len(),
    ensures
        from <= r <= c@.len(),
        r == from + digit_run(c@, from as int),
{
    let mut i: usize = from;
    while i < c.len() && digit(c[i])
        invariant
            from <= i <= c@.len(),
            digit_run(c@, from as int) == (i - from) + digit_run(c@, i as int),
        decreases c@.len() - i,
    {
        i = i + 1;
    }
    i
}

/// Reads a time of day such as `9:30`, in seconds; as a fraction of the day it is this number over
/// 86400.
pub fn parse_time_frac(s: &str) -> (r: Option<u32>)
    ensures
        match time_value(s@) {
            Some(v) => r matches Some(n) && n == v,
            None => r is None,
        },
        r matches Some(n) ==> n < 86400,
{
    let t = trim(s);
    let c = chars_of(t.as_str());
    proof {
        lemma_digit_run(c@, 0);
    }
    let run = digits_end(&c, 0);
    let h: usize = if run > 2 {
        2
    } else {
        run
    };
    if h == 0 || h >= c.len() || c[h] != ':' {
        return None;
    }
    proof {
        lemma_digit_run(c@, h + 1);
    }
    let end = digits_end(&c, h + 1);
    if end - (h + 1) < 2 {
        return None;
    }
    let hours = text_of(&c, 0, h);
    let minutes = text_of(&c, h + 1, h + 3);
    let hc = chars_of(hours.as_str());
    let mc = chars_of(minutes.as_str());
    proof {
        assert(hc@ =~= c@.take(h as int));
        assert(hc@.subrange(0, hc@.len() as int) =~= hc@);
        assert(mc@.subrange(0, mc@.len() as int) =~= mc@);
        assert(all_digits(hc@));
        assert forall|k: int| 0 <= k < mc@.len() implies is_digit(#[trigger] mc@[k]) by {
            assert(mc@[k] == c@[h + 1 + k]);
        }
        lemma_two_digits(hc@);
    }
    match (read_digits(&hc, 0, 99), read_digits(&mc, 0, 59)) {
        (Some(hh), Some(mm)) => Some(((hh % 24) * 3600 + mm * 60) as u32),
        _ => None,
    }
}

/// Two digits write a number below a hundred.
proof fn lemma_two_digits(s: Seq<char>)
    requires
        all_digits(s),
        s.len() <= 2,
    ensures
        digits_value(s) <= 99,
{
    if s.len() == 1 {
        assert(s.drop_last().len() == 0);
        assert(is_digit(s[0]));
        assert(digits_value(s.drop_last()) == 0);
    } else if s.len() == 2 {
        let t = s.drop_last();
        assert(is_digit(s[0]) && is_digit(s[1]));
        assert(t.drop_last().len() == 0);
        assert(digits_value(t.drop_last()) == 0);
        assert(t.last() == s[0]);
        assert(digits_value(t) <= 9);
    }
}

/// The exponent field of a binary64 number.
pub open spec fn exponent_field(bits: u64) -> int {
    (bits as int / 0x10_0000_0000_0000) % 2048
}

/// The fraction field of a binary64 number.
pub open spec fn fraction_field(bits: u64) -> int {
    bits as int % 0x10_0000_0000_0000
}

/// Whether the sign bit is set.
pub open spec fn is_negative(bits: u64) -> bool {
    bits >= 0x8000_0000_0000_0000
}

/// An integer of 69 or 70 binary digits rounded to 53 significant ones, ties to even.
pub open spec fn rounded53(p: int) -> int {
    let unit: int = if p < 0x20_0000_0000_0000_0000int {
        0x1_0000
    } else {
        0x2_0000
    };
    let q = p / unit;
    let r = p % unit;
    if 2 * r > unit || (2 * r == unit && q % 2 == 1) {
        (q + 1) * unit
    } else {
        q * unit
    }
}

/// The second of the day of a fraction of the day, given as the bits of a binary64 number: the
/// product with 86400 as binary64 arithmetic rounds it, rounded to an integer, halves up, and kept
/// inside the day.
pub open spec fn second_of_day(bits: u64) -> int {
    let e = exponent_field(bits);
    if e == 2047 && fraction_field(bits) != 0 {
        0
    } else if is_negative(bits) || e == 0 {
        0
    } else if e >= 1023 {
        86399
    } else {
        let product = rounded53((0x10_0000_0000_0000 + fraction_field(bits)) * 86400);
        let scale = pow2((1075 - e) as nat) as int;
        let secs = (2 * product + scale) / (2 * scale);
        if secs > 86399 {
            86399
        } else {
            secs
        }
    }
}

/// A power of two.
fn two_to(k: u32) -> (r: u128)
    requires
        k <= 76,
    ensures
        r == pow2(k as nat),
        r <= 0x1000_0000_0000_0000_0000,
{
    let mut i: u32 = 0;
    let mut p: u128 = 1;
    proof {
        lemma2_to64();
        lemma_pow2_adds(64, 12);
    }
    while i < k
        invariant
            i <= k <= 76,
            p == pow2(i as nat),
            pow2(76) == 0x1000_0000_0000_0000_0000,
        decreases k - i,
    {
        proof {
            lemma_pow2_unfold((i + 1) as nat);
            if i + 1 < 76 {
                lemma_pow2_strictly_increases((i + 1) as nat, 76);
            }
        }
        p = p * 2;
        i = i + 1;
    }
    proof {
        if k < 76 {
            lemma_pow2_strictly_increases(k as nat, 76);
        }
    }
    p
}

/// A number below ten as two digits, and one below a hundred as it is.
pub open spec fn two_digits(n: int) -> Seq<char> {
    seq![digit_of((n / 10) as nat), digit_of((n % 10) as nat)]
}

/// The time of day of a fraction of the day, in hours and minutes.
pub open spec fn clock_text(bits: u64) -> Seq<char> {
    let s = second_of_day(bits);
    two_digits(s / 3600) + ":"@ + two_digits((s % 3600) / 60)
}

/// Writes a number below a hundred with two digits.
fn two_digit_text(n: u64) -> (r: String)
    requires
        n < 100,
    ensures
        r@ == two_digits(n as int),
{
    let mut out = String::new();
    if n < 10 {
        out.push('0');
    }
    let rest = decimal_text(n);
    out.append(rest.as_str());
    proof {
        reveal_with_fuel(decimal, 3);
        assert(out@ =~= two_digits(n as int));
    }
    out
}

/// The second of the day of a fraction of the day.
fn day_second(bits: u64) -> (r: u64)
    ensures
        r == second_of_day(bits),
        r <= 86399,
{
    let e: u64 = (bits / 0x10_0000_0000_0000) % 2048;
    let f: u64 = bits % 0x10_0000_0000_0000;
    if e == 2047 && f != 0 {
        return 0;
    }
    if bits >= 0x8000_0000_0000_0000 || e == 0 {
        return 0;
    }
    if e >= 1023 {
        return 86399;
    }
    let p: u128 = (0x10_0000_0000_0000u128 + f as u128) * 86400;
    let unit: u128 = if p < 0x20_0000_0000_0000_0000u128 {
        0x1_0000
    } else {
        0x2_0000
    };
    let q: u128 = p / unit;
    let rest: u128 = p % unit;
    let up = 2 * rest > unit || (2 * rest == unit && q % 2 == 1);
    let whole: u128 = if up {
        q + 1
    } else {
        q
    };
    assert(q * unit <= p && whole * unit <= p + unit && (q + 1) * unit == q * unit + unit)
        by (nonlinear_arith)
        requires
            unit > 0,
            q == p / unit,
            whole == q || whole == q + 1,
    ;
    let product: u128 = whole * unit;
    assert(product == rounded53(p as int));
    let k: u64 = 1075 - e;
    if k > 76 {
        proof {
            lemma2_to64();
            lemma_pow2_adds(64, 13);
            if k > 77 {
                lemma_pow2_strictly_increases(77, k as nat);
            }
            let scale = pow2(k as nat) as int;
            assert((2 * product + scale) / (2 * scale) == 0) by (nonlinear_arith)
                requires
                    0 <= 2 * product,
                    2 * product < scale,
            ;
        }
        return 0;
    }
    let scale: u128 = two_to(k as u32);
    proof {
        lemma_pow2_pos(k as nat);
    }
    let secs: u128 = (2 * product + scale) / (2 * scale);
    if secs > 86399 {
        86399
    } else {
        secs as u64
    }
}

/// Writes a fraction of the day, given as the bits of a binary64 number, as hours and minutes.
pub fn fmt_hm(bits: u64) -> (r: String)
    ensures
        r@ == clock_text(bits),
{
    let s = day_second(bits);
    let h = two_digit_text(s / 3600);
    let m = two_digit_text((s % 3600) / 60);
    join3(h.as_str(), ":", m.as_str())
}

// ---------------------------------------------------------------- cells and rows
/// The value of a cell.
#[derive(Clone, Debug)]
pub enum RawVal {
    Empty,
    Text(String),
    Num(Number),
    Date(Date),
    /// A time of day as a fraction of the day, by the bits of a binary64 number.
    Time(u64),
}

/// The value of a cell by its texts.
pub ghost enum Val {
    Empty,
    Text(Seq<char>),
    Num(Seq<char>),
    Date(int, Seq<char>),
    Time(u64),
}

impl View for RawVal {
    type V = Val;

    open spec fn view(&self) -> Val {
        match self {
            RawVal::Empty => Val::Empty,
            RawVal::Text(t) => Val::Text(t@),
            RawVal::Num(n) => Val::Num(n@),
            RawVal::Date(d) => Val::Date(d@.0, d@.1),
            RawVal::Time(b) => Val::Time(*b),
        }
    }
}

/// How a value is shown; an empty cell is not.
pub open spec fn shown(v: Val) -> Option<Seq<char>> {
    match v {
        Val::Empty => None,
        Val::Text(t) => Some(t),
        Val::Num(n) => Some(number_text(n)),
        Val::Date(_, t) => Some(t),
        Val::Time(b) => Some(clock_text(b)),
    }
}

/// How a value is shown, where an empty cell is shown as an empty text.
pub open spec fn shown_text(v: Val) -> Seq<char> {
    match shown(v) {
        Some(t) => t,
        None => Seq::empty(),
    }
}

/// Whether a cell holds nothing, or nothing but white space.
pub open spec fn is_blank_val(v: Val) -> bool {
    match v {
        Val::Empty => true,
        Val::Text(t) => trimmed(t).len() == 0,
        _ => false,
    }
}

/// The day that a cell holds.
pub open spec fn day_of(v: Val) -> Option<(int, Seq<char>)> {
    match v {
        Val::Date(d, t) => Some((d, t)),
        _ => None,
    }
}

/// The number that a cell holds.
pub open spec fn num_of(v: Val) -> Option<Seq<char>> {
    match v {
        Val::Num(n) => Some(n),
        _ => None,
    }
}

/// Whether a cell holds a one.
pub open spec fn is_one_val(v: Val) -> bool {
    match v {
        Val::Num(n) => n == "1"@,
        Val::Text(t) => trimmed(t) == "1"@,
        _ => false,
    }
}

/// An optional number by its text.
pub open spec fn number_view(n: Option<Number>) -> Option<Seq<char>> {
    match n {
        Some(x) => Some(x@),
        None => None,
    }
}

impl RawVal {
    /// Whether the cell holds nothing, or nothing but white space.
    pub fn is_empty(&self) -> (r: bool)
        ensures
            r == is_blank_val(self@),
    {
        match self {
            RawVal::Empty => true,
            RawVal::Text(t) => {
                let s = trim(t.as_str());
                chars_of(s.as_str()).len() == 0
            },
            _ => false,
        }
    }

    /// How the value is shown: days as `2026-08-28`, times as `09:30`.
    pub fn to_display(&self) -> (r: Option<String>)
        ensures
            text_view(r) == shown(self@),
    {
        match self {
            RawVal::Empty => None,
            RawVal::Text(t) => Some(t.clone()),
            RawVal::Num(n) => Some(fmt_num(n)),
            RawVal::Date(d) => Some(d.text.clone()),
            RawVal::Time(b) => Some(fmt_hm(*b)),
        }
    }

    /// How the value is shown; an empty text for an empty cell.
    pub fn display_text(&self) -> (r: String)
        ensures
            r@ == shown_text(self@),
    {
        match self.to_display() {
            Some(t) => t,
            None => String::new(),
        }
    }

    /// The day that the cell holds.
    pub fn date(&self) -> (r: Option<Date>)
        ensures
            date_view(r) == day_of(self@),
    {
        match self {
            RawVal::Date(d) => Some(d.copy()),
            _ => None,
        }
    }

    /// The number that the cell holds.
    pub fn num(&self) -> (r: Option<Number>)
        ensures
            number_view(r) == num_of(self@),
    {
        match self {
            RawVal::Num(n) => Some(n.copy()),
            _ => None,
        }
    }

    /// Whether the cell holds a one, as a number or as a text.
    pub fn is_one(&self) -> (r: bool)
        ensures
            r == is_one_val(self@),
    {
        match self {
            RawVal::Num(n) => same_text(n.text.as_str(), "1"),
            RawVal::Text(t) => {
                let s = trim(t.as_str());
                same_text(s.as_str(), "1")
            },
            _ => false,
        }
    }

    /// The same value once more.
    pub fn copy(&self) -> (r: RawVal)
        ensures
            r@ == self@,
    {
        match self {
            RawVal::Empty => RawVal::Empty,
            RawVal::Text(t) => RawVal::Text(t.clone()),
            RawVal::Num(n) => RawVal::Num(n.copy()),
            RawVal::Date(d) => RawVal::Date(d.copy()),
            RawVal::Time(b) => RawVal::Time(*b),
        }
    }
}

/// An optional number once more.
pub fn copy_number(n: &Option<Number>) -> (r: Option<Number>)
    ensures
        number_view(r) == number_view(*n),
{
    match n {
        Some(x) => Some(x.copy()),
        None => None,
    }
}

/// The running number of a class record.
#[derive(Clone, Debug)]
pub enum SeqNo {
    Null,
    Int(i64),
    Real(Number),
    Text(String),
}

/// The running number of a class record by its texts.
pub ghost enum SeqVal {
    Null,
    Int(int),
    Real(Seq<char>),
    Text(Seq<char>),
}

impl View for SeqNo {
    type V = SeqVal;

    open spec fn view(&self) -> SeqVal {
        match self {
            SeqNo::Null => SeqVal::Null,
            SeqNo::Int(i) => SeqVal::Int(*i as int),
            SeqNo::Real(n) => SeqVal::Real(n@),
            SeqNo::Text(t) => SeqVal::Text(t@),
        }
    }
}

impl SeqNo {
    /// The same running number once more.
    pub fn copy(&self) -> (r: SeqNo)
        ensures
            r@ == self@,
    {
        match self {
            SeqNo::Null => SeqNo::Null,
            SeqNo::Int(i) => SeqNo::Int(*i),
            SeqNo::Real(n) => SeqNo::Real(n.copy()),
            SeqNo::Text(t) => SeqNo::Text(t.clone()),
        }
    }
}

/// A row of the archive of members.
#[derive(Clone, Debug)]
pub struct RawMember {
    pub row: u32,
    pub id: String,
    pub name: String,
    pub phone: String,
    pub teacher: String,
    pub member_type: String,
    pub card_type: String,
    pub purchase: RawVal,
    pub activation: RawVal,
    pub expiry: RawVal,
    pub amount: Option<Number>,
    pub receivable: Option<Number>,
    pub total: Option<Number>,
    pub refund: bool,
    pub remark: String,
}

/// A row of the archive by its texts.
pub ghost struct MemberRow {
    pub row: u32,
    pub id: Seq<char>,
    pub name: Seq<char>,
    pub phone: Seq<char>,
    pub teacher: Seq<char>,
    pub member_type: Seq<char>,
    pub card_type: Seq<char>,
    pub purchase: Val,
    pub activation: Val,
    pub expiry: Val,
    pub amount: Option<Seq<char>>,
    pub receivable: Option<Seq<char>>,
    pub total: Option<Seq<char>>,
    pub refund: bool,
    pub remark: Seq<char>,
}

impl View for RawMember {
    type V = MemberRow;

    open spec fn view(&self) -> MemberRow {
        MemberRow {
            row: self.row,
            id: self.id@,
            name: self.name@,
            phone: self.phone@,
            teacher: self.teacher@,
            member_type: self.member_type@,
            card_type: self.card_type@,
            purchase: self.purchase@,
            activation: self.activation@,
            expiry: self.expiry@,
            amount: number_view(self.amount),
            receivable: number_view(self.receivable),
            total: number_view(self.total),
            refund: self.refund,
            remark: self.remark@,
        }
    }
}

/// A row of the class records.
#[derive(Clone, Debug)]
pub struct RawClass {
    pub row: u32,
    pub seq: SeqNo,
    pub member_id: String,
    pub date: RawVal,
    pub time: RawVal,
    pub course: String,
    pub effect: bool,
    pub remark: String,
}

/// A row of the class records by its texts.
pub ghost struct ClassRow {
    pub row: u32,
    pub seq: SeqVal,
    pub member_id: Seq<char>,
    pub date: Val,
    pub time: Val,
    pub course: Seq<char>,
    pub effect: bool,
    pub remark: Seq<char>,
}

impl View for RawClass {
    type V = ClassRow;

    open spec fn view(&self) -> ClassRow {
        ClassRow {
            row: self.row,
            seq: self.seq@,
            member_id: self.member_id@,
            date: self.date@,
            time: self.time@,
            course: self.course@,
            effect: self.effect,
            remark: self.remark@,
        }
    }
}

/// Members by their texts.
pub open spec fn member_rows(m: Seq<RawMember>) -> Seq<MemberRow> {
    m.map_values(|x: RawMember| x@)
}

/// Class records by their texts.
pub open spec fn class_rows(c: Seq<RawClass>) -> Seq<ClassRow> {
    c.map_values(|x: RawClass| x@)
}

// --------------------------------------------------------------- request fields
/// A value of a request. A text comes with the number that it writes, where it writes one; any
/// value that is neither of the simple ones comes as it is written.
#[derive(Clone, Debug)]
pub enum Field {
    Null,
    Bool(bool),
    Num(Number),
    Text(String, Option<Number>),
    Other(String),
}

/// A value of a request by its texts.
pub ghost enum FieldVal {
    Null,
    Bool(bool),
    Num(Seq<char>),
    Text(Seq<char>, Option<Seq<char>>),
    Other(Seq<char>),
}

impl View for Field {
    type V = FieldVal;

    open spec fn view(&self) -> FieldVal {
        match self {
            Field::Null => FieldVal::Null,
            Field::Bool(b) => FieldVal::Bool(*b),
            Field::Num(n) => FieldVal::Num(n@),
            Field::Text(t, n) => FieldVal::Text(t@, number_view(*n)),
            Field::Other(t) => FieldVal::Other(t@),
        }
    }
}

/// The text that a value stands for.
pub open spec fn field_text(v: FieldVal) -> Option<Seq<char>> {
    match v {
        FieldVal::Null => None,
        FieldVal::Text(t, _) => Some(trimmed(t)),
        FieldVal::Num(n) => Some(number_text(n)),
        FieldVal::Bool(b) => Some(
            if b {
                "True"@
            } else {
                "False"@
            },
        ),
        FieldVal::Other(t) => Some(t),
    }
}

/// The number that a value stands for; an empty text stands for none.
pub open spec fn field_num(v: FieldVal) -> Option<Seq<char>> {
    match v {
        FieldVal::Num(n) => Some(n),
        FieldVal::Text(t, n) => if trimmed(t).len() == 0 {
            None
        } else {
            n
        },
        _ => None,
    }
}

/// The text that a value stands for.
pub fn js_str(v: &Field) -> (r: Option<String>)
    ensures
        text_view(r) == field_text(v@),
{
    match v {
        Field::Null => None,
        Field::Text(t, _) => Some(trim(t.as_str())),
        Field::Num(n) => Some(fmt_num(n)),
        Field::Bool(b) => Some(
            if *b {
                String::from_str("True")
            } else {
                String::from_str("False")
            },
        ),
        Field::Other(t) => Some(t.clone()),
    }
}

/// The number that a value stands for.
pub fn to_num(v: &Field) -> (r: Option<Number>)
    ensures
        number_view(r) == field_num(v@),
{
    match v {
        Field::Num(n) => Some(n.copy()),
        Field::Text(t, n) => {
            let s = trim(t.as_str());
            if chars_of(s.as_str()).len() == 0 {
                None
            } else {
                copy_number(n)
            }
        },
        _ => None,
    }
}

/// The fields of a request: names and values, each name at most once.
#[derive(Clone, Debug)]
pub struct Fields {
    pub items: Vec<(String, Field)>,
}

/// The first field called `key` at or behind `i`.
pub open spec fn field_from(items: Seq<(String, Field)>, i: int, key: Seq<char>) -> Option<int>
    decreases items.len() - i,
{
    if i < 0 || i >= items.len() {
        None
    } else if items[i].0@ == key {
        Some(i)
    } else {
        field_from(items, i + 1, key)
    }
}

impl Fields {
    /// The value of the field called `key`.
    pub open spec fn value(&self, key: Seq<char>) -> Option<FieldVal> {
        match field_from(self.items@, 0, key) {
            Some(i) => Some(self.items@[i].1@),
            None => None,
        }
    }

    /// The text of the field called `key`; empty where there is none.
    pub open spec fn text(&self, key: Seq<char>) -> Seq<char> {
        match self.value(key) {
            Some(v) => match field_text(v) {
                Some(t) => t,
                None => Seq::empty(),
            },
            None => Seq::empty(),
        }
    }

    /// The number of the field called `key`.
    pub open spec fn number(&self, key: Seq<char>) -> Option<Seq<char>> {
        match self.value(key) {
            Some(v) => field_num(v),
            None => None,
        }
    }

    /// What the field called `key` holds where it is a text, as it is.
    pub open spec fn plain_text(&self, key: Seq<char>) -> Seq<char> {
        match self.value(key) {
            Some(FieldVal::Text(t, _)) => t,
            _ => Seq::empty(),
        }
    }

    /// Whether the field called `key` is true.
    pub open spec fn flag(&self, key: Seq<char>) -> bool {
        self.value(key) == Some(FieldVal::Bool(true))
    }

    /// The value of the field called `key`.
    pub fn get(&self, key: &str) -> (r: Option<&Field>)
        ensures
            match self.value(key@) {
                Some(v) => r matches Some(f) && f@ == v,
                None => r is None,
            },
    {
        let mut i: usize = 0;
        while i < self.items.len()
            invariant
                i <= self.items@.len(),
                field_from(self.items@, 0, key@) == field_from(self.items@, i as int, key@),
            decreases self.items@.len() - i,
        {
            if same_text(self.items[i].0.as_str(), key) {
                return Some(&self.items[i].1);
            }
            i = i + 1;
        }
        None
    }

    /// The text of the field called `key`; empty where there is none.
    pub fn get_text(&self, key: &str) -> (r: String)
        ensures
            r@ == self.text(key@),
    {
        match self.get(key) {
            Some(v) => match js_str(v) {
                Some(t) => t,
                None => String::new(),
            },
            None => String::new(),
        }
    }

    /// The number of the field called `key`.
    pub fn get_num(&self, key: &str) -> (r: Option<Number>)
        ensures
            number_view(r) == self.number(key@),
    {
        match self.get(key) {
            Some(v) => to_num(v),
            None => None,
        }
    }

    /// What the field called `key` holds where it is a text, as it is.
    pub fn get_plain(&self, key: &str) -> (r: String)
        ensures
            r@ == self.plain_text(key@),
    {
        match self.get(key) {
            Some(Field::Text(t, _)) => t.clone(),
            _ => String::new(),
        }
    }

    /// Whether the field called `key` is true.
    pub fn get_flag(&self, key: &str) -> (r: bool)
        ensures
            r == self.flag(key@),
    {
        match self.get(key) {
            Some(Field::Bool(b)) => *b,
            _ => false,
        }
    }
}

} // verus!
