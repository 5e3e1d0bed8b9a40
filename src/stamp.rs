//! Message timestamps: a UTC instant at millisecond precision, written in the
//! fixed-width RFC 3339 form `YYYY-MM-DDTHH:MM:SS.mmmZ`, so that text order is
//! time order.
use vstd::prelude::*;
use chrono::{Datelike, Timelike};
use vstd::utf8::*;

verus! {

broadcast use {encode_utf8_decode_utf8};

/// A UTC instant with millisecond precision.
#[derive(Clone, Copy, Debug, PartialEq, Eq, Structural)]
pub struct Stamp {
    pub year: u32,
    pub month: u32,
    pub day: u32,
    pub hour: u32,
    pub minute: u32,
    pub second: u32,
    pub milli: u32,
}

pub open spec fn is_leap_year(y: int) -> bool {
    y % 4 == 0 && (y % 100 != 0 || y % 400 == 0)
}

pub open spec fn days_in_month(y: int, m: int) -> int {
    if m == 2 {
        if is_leap_year(y) {
            29
        } else {
            28
        }
    } else if m == 4 || m == 6 || m == 9 || m == 11 {
        30
    } else {
        31
    }
}

pub open spec fn valid_fields(
    year: int,
    month: int,
    day: int,
    hour: int,
    minute: int,
    second: int,
    milli: int,
) -> bool {
    &&& 0 <= year <= 9999
    &&& 1 <= month <= 12
    &&& 1 <= day <= days_in_month(year, month)
    &&& 0 <= hour < 24
    &&& 0 <= minute < 60
    &&& 0 <= second < 60
    &&& 0 <= milli < 1000
}

pub open spec fn digit_char(d: int) -> char {
    seq!['0', '1', '2', '3', '4', '5', '6', '7', '8', '9'][d]
}

/// `n` in decimal, zero-padded to `width` digits (the low digits when it is
/// wider).
pub open spec fn digits(n: nat, width: nat) -> Seq<char>
    decreases width,
{
    if width == 0 {
        seq![]
    } else {
        digits(n / 10, (width - 1) as nat) + seq![digit_char((n % 10) as int)]
    }
}

pub open spec fn pow10(width: nat) -> nat
    decreases width,
{
    if width == 0 {
        1
    } else {
        10 * pow10((width - 1) as nat)
    }
}

/// Lexicographic order on texts, character by character.
pub open spec fn text_lt(a: Seq<char>, b: Seq<char>) -> bool {
    ||| exists|i: int|
        0 <= i < a.len() && i < b.len() && a.subrange(0, i) == b.subrange(0, i) && (a[i] as u32)
            < (b[i] as u32)
    ||| (a.len() < b.len() && a == b.subrange(0, a.len() as int))
}

impl Stamp {
    pub open spec fn wf(self) -> bool {
        valid_fields(
            self.year as int,
            self.month as int,
            self.day as int,
            self.hour as int,
            self.minute as int,
            self.second as int,
            self.milli as int,
        )
    }

    /// The RFC 3339 text of the instant, with milliseconds and `Z`.
    pub open spec fn text(self) -> Seq<char> {
        digits(self.year as nat, 4) + seq!['-'] + digits(self.month as nat, 2) + seq!['-']
            + digits(self.day as nat, 2) + seq!['T'] + digits(self.hour as nat, 2) + seq![':']
            + digits(self.minute as nat, 2) + seq![':'] + digits(self.second as nat, 2) + seq!['.']
            + digits(self.milli as nat, 3) + seq!['Z']
    }

    /// Time order: the fields compared from the year down.
    pub open spec fn before(self, o: Stamp) -> bool {
        ||| self.year < o.year
        ||| self.year == o.year && self.month < o.month
        ||| self.year == o.year && self.month == o.month && self.day < o.day
        ||| self.year == o.year && self.month == o.month && self.day == o.day && self.hour < o.hour
        ||| self.year == o.year && self.month == o.month && self.day == o.day && self.hour
            == o.hour && self.minute < o.minute
        ||| self.year == o.year && self.month == o.month && self.day == o.day && self.hour
            == o.hour && self.minute == o.minute && self.second < o.second
        ||| self.year == o.year && self.month == o.month && self.day == o.day && self.hour
            == o.hour && self.minute == o.minute && self.second == o.second && self.milli
            < o.milli
    }

    /// The instant with these fields, when they name one.
    pub fn new(
        year: u32,
        month: u32,
        day: u32,
        hour: u32,
        minute: u32,
        second: u32,
        milli: u32,
    ) -> (r: Option<Stamp>)
        ensures
            r is Some <==> valid_fields(
                year as int,
                month as int,
                day as int,
                hour as int,
                minute as int,
                second as int,
                milli as int,
            ),
            r matches Some(t) ==> t == (Stamp { year, month, day, hour, minute, second, milli }),
    {
        if year > 9999 || month < 1 || month > 12 || day < 1 {
            return None;
        }
        let leap = year % 4 == 0 && (year % 100 != 0 || year % 400 == 0);
        let dim: u32 = if month == 2 {
            if leap {
                29
            } else {
                28
            }
        } else if month == 4 || month == 6 || month == 9 || month == 11 {
            30
        } else {
            31
        };
        if day > dim || hour >= 24 || minute >= 60 || second >= 60 || milli >= 1000 {
            return None;
        }
        Some(Stamp { year, month, day, hour, minute, second, milli })
    }

    /// The RFC 3339 text of the instant.
    pub fn to_text(&self) -> (r: String)
        requires
            self.wf(),
        ensures
            r@ == self.text(),
    {
        rfc3339_millis(
            self.year,
            self.month,
            self.day,
            self.hour,
            self.minute,
            self.second,
            self.milli,
        )
    }

    /// Reads an instant back from its RFC 3339 text; any other text is refused.
    pub fn from_text(s: &str) -> (r: Option<Stamp>)
        ensures
            match r {
                Some(t) => t.wf() && t.text() == s@,
                None => forall|t: Stamp| t.wf() ==> #[trigger] t.text() != s@,
            },
    {
        let parsed = parse_rfc3339(s);
        match parsed {
            None => None,
            Some((year, month, day, hour, minute, second, nano)) => {
                if year < 0 || nano % 1_000_000 != 0 {
                    return None;
                }
                match Stamp::new(
                    year as u32,
                    month,
                    day,
                    hour,
                    minute,
                    second,
                    nano / 1_000_000,
                ) {
                    None => None,
                    Some(t) => {
                        let text = t.to_text();
                        if crate::bytes::bytes_eq(text.as_str().as_bytes(), s.as_bytes()) {
                            proof {
                                assert(decode_utf8(encode_utf8(text@)) == text@);
                                assert(decode_utf8(encode_utf8(s@)) == s@);
                            }
                            Some(t)
                        } else {
                            None
                        }
                    },
                }
            },
        }
    }
}

/// Relies on chrono's `DateTime::<Utc>::to_rfc3339_opts` with
/// `SecondsFormat::Millis` and `Z`: for a year in 0..=9999 and no leap second
/// it writes the fixed-width text `Stamp::text`.
#[verifier::external_body]
fn rfc3339_millis(
    year: u32,
    month: u32,
    day: u32,
    hour: u32,
    minute: u32,
    second: u32,
    milli: u32,
) -> (r: String)
    requires
        valid_fields(
            year as int,
            month as int,
            day as int,
            hour as int,
            minute as int,
            second as int,
            milli as int,
        ),
    ensures
        r@ == (Stamp { year, month, day, hour, minute, second, milli }).text(),
{
    let date = chrono::NaiveDate::from_ymd_opt(year as i32, month, day).unwrap_or_default();
    let time = chrono::NaiveTime::from_hms_milli_opt(hour, minute, second, milli).unwrap_or_default();
    date.and_time(time).and_utc().to_rfc3339_opts(chrono::SecondsFormat::Millis, true)
}

/// Relies on chrono's `DateTime::parse_from_rfc3339`, read back in UTC as
/// year, month, day, hour, minute, second and nanosecond: the text that
/// `Stamp::text` writes is read back as those fields.
#[verifier::external_body]
fn parse_rfc3339(s: &str) -> (r: Option<(i32, u32, u32, u32, u32, u32, u32)>)
    ensures
        forall|t: Stamp|
            t.wf() && #[trigger] t.text() == s@ ==> r == Some(
                (
                    t.year as i32,
                    t.month,
                    t.day,
                    t.hour,
                    t.minute,
                    t.second,
                    (t.milli * 1_000_000) as u32,
                ),
            ),
{
    match chrono::DateTime::parse_from_rfc3339(s) {
        Ok(d) => {
            let u = d.naive_utc();
            Some((u.year(), u.month(), u.day(), u.hour(), u.minute(), u.second(), u.nanosecond()))
        },
        Err(_) => None,
    }
}

proof fn lemma_digit_lt(d1: int, d2: int)
    requires
        0 <= d1 < d2 < 10,
    ensures
        (digit_char(d1) as u32) < (digit_char(d2) as u32),
{
}

proof fn lemma_digits_len(n: nat, width: nat)
    ensures
        digits(n, width).len() == width,
    decreases width,
{
    if width > 0 {
        lemma_digits_len(n / 10, (width - 1) as nat);
    }
}

proof fn lemma_digits_lt(n1: nat, n2: nat, width: nat)
    requires
        n1 < n2 < pow10(width),
    ensures
        text_lt(digits(n1, width), digits(n2, width)),
    decreases width,
{
    let a = digits(n1, width);
    let b = digits(n2, width);
    lemma_digits_len(n1, width);
    lemma_digits_len(n2, width);
    let w1 = (width - 1) as nat;
    assert(width > 0);
    lemma_digits_len(n1 / 10, w1);
    lemma_digits_len(n2 / 10, w1);
    assert(n1 / 10 <= n2 / 10) by (nonlinear_arith)
        requires
            n1 < n2,
    ;
    assert(n2 / 10 < pow10(w1)) by (nonlinear_arith)
        requires
            n2 < 10 * pow10(w1),
    ;
    if n1 / 10 < n2 / 10 {
        lemma_digits_lt(n1 / 10, n2 / 10, w1);
        let pa = digits(n1 / 10, w1);
        let pb = digits(n2 / 10, w1);
        let i = choose|i: int|
            0 <= i < pa.len() && i < pb.len() && pa.subrange(0, i) == pb.subrange(0, i) && (
            pa[i] as u32) < (pb[i] as u32);
        assert(a.subrange(0, i) =~= pa.subrange(0, i));
        assert(b.subrange(0, i) =~= pb.subrange(0, i));
        assert(a[i] == pa[i]);
        assert(b[i] == pb[i]);
    } else {
        assert(n1 % 10 < n2 % 10) by (nonlinear_arith)
            requires
                n1 < n2,
                n1 / 10 == n2 / 10,
        ;
        lemma_digit_lt((n1 % 10) as int, (n2 % 10) as int);
        let i = w1 as int;
        assert(a.subrange(0, i) =~= digits(n1 / 10, w1));
        assert(b.subrange(0, i) =~= digits(n2 / 10, w1));
    }
}

proof fn lemma_text_lt_concat_first(a1: Seq<char>, a2: Seq<char>, b1: Seq<char>, b2: Seq<char>)
    requires
        a1.len() == a2.len(),
        text_lt(a1, a2),
    ensures
        text_lt(a1 + b1, a2 + b2),
{
    let i = choose|i: int|
        0 <= i < a1.len() && i < a2.len() && a1.subrange(0, i) == a2.subrange(0, i) && (
        a1[i] as u32) < (a2[i] as u32);
    assert((a1 + b1).subrange(0, i) =~= a1.subrange(0, i));
    assert((a2 + b2).subrange(0, i) =~= a2.subrange(0, i));
    assert((a1 + b1)[i] == a1[i]);
    assert((a2 + b2)[i] == a2[i]);
}

proof fn lemma_text_lt_concat_second(a: Seq<char>, b1: Seq<char>, b2: Seq<char>)
    requires
        b1.len() == b2.len(),
        text_lt(b1, b2),
    ensures
        text_lt(a + b1, a + b2),
{
    let i = choose|i: int|
        0 <= i < b1.len() && i < b2.len() && b1.subrange(0, i) == b2.subrange(0, i) && (
        b1[i] as u32) < (b2[i] as u32);
    let j = a.len() + i;
    assert((a + b1).subrange(0, j) =~= a + b1.subrange(0, i));
    assert((a + b2).subrange(0, j) =~= a + b2.subrange(0, i));
    assert((a + b1)[j] == b1[i]);
    assert((a + b2)[j] == b2[i]);
}

/// The pieces `f[0]`, ..., `f[n - 1]` written one after the other.
pub open spec fn join_pieces(f: Seq<Seq<char>>, n: nat) -> Seq<char>
    decreases n,
{
    if n == 0 {
        seq![]
    } else {
        join_pieces(f, (n - 1) as nat) + f[n - 1]
    }
}

proof fn lemma_join_same(f1: Seq<Seq<char>>, f2: Seq<Seq<char>>, n: nat)
    requires
        n <= f1.len(),
        n <= f2.len(),
        forall|j: int| 0 <= j < n ==> f1[j] == f2[j],
    ensures
        join_pieces(f1, n) == join_pieces(f2, n),
    decreases n,
{
    if n > 0 {
        lemma_join_same(f1, f2, (n - 1) as nat);
    }
}

proof fn lemma_join_len(f1: Seq<Seq<char>>, f2: Seq<Seq<char>>, n: nat)
    requires
        n <= f1.len(),
        n <= f2.len(),
        forall|j: int| 0 <= j < n ==> f1[j].len() == f2[j].len(),
    ensures
        join_pieces(f1, n).len() == join_pieces(f2, n).len(),
    decreases n,
{
    if n > 0 {
        lemma_join_len(f1, f2, (n - 1) as nat);
    }
}

proof fn lemma_join_lt(f1: Seq<Seq<char>>, f2: Seq<Seq<char>>, n: nat, k: nat)
    requires
        k < n,
        n <= f1.len(),
        n <= f2.len(),
        forall|j: int| 0 <= j < k ==> f1[j] == f2[j],
        forall|j: int| 0 <= j < n ==> f1[j].len() == f2[j].len(),
        text_lt(f1[k as int], f2[k as int]),
    ensures
        text_lt(join_pieces(f1, n), join_pieces(f2, n)),
    decreases n,
{
    if n == k + 1 {
        lemma_join_same(f1, f2, k);
        lemma_text_lt_concat_second(join_pieces(f1, k), f1[k as int], f2[k as int]);
    } else {
        let m = (n - 1) as nat;
        lemma_join_lt(f1, f2, m, k);
        lemma_join_len(f1, f2, m);
        lemma_text_lt_concat_first(
            join_pieces(f1, m),
            join_pieces(f2, m),
            f1[m as int],
            f2[m as int],
        );
    }
}

pub open spec fn text_pieces(t: Stamp) -> Seq<Seq<char>> {
    seq![
        digits(t.year as nat, 4),
        seq!['-'],
        digits(t.month as nat, 2),
        seq!['-'],
        digits(t.day as nat, 2),
        seq!['T'],
        digits(t.hour as nat, 2),
        seq![':'],
        digits(t.minute as nat, 2),
        seq![':'],
        digits(t.second as nat, 2),
        seq!['.'],
        digits(t.milli as nat, 3),
        seq!['Z'],
    ]
}

proof fn lemma_text_pieces(t: Stamp)
    ensures
        t.text() == join_pieces(text_pieces(t), 14),
        forall|j: int|
            0 <= j < 14 ==> (#[trigger] text_pieces(t)[j]).len() == (if j == 0 {
                4
            } else if j == 12 {
                3
            } else if j % 2 == 0 {
                2int
            } else {
                1
            }),
{
    reveal_with_fuel(join_pieces, 15);
    let f = text_pieces(t);
    assert(t.text() =~= join_pieces(f, 14));
    lemma_digits_len(t.year as nat, 4);
    lemma_digits_len(t.month as nat, 2);
    lemma_digits_len(t.day as nat, 2);
    lemma_digits_len(t.hour as nat, 2);
    lemma_digits_len(t.minute as nat, 2);
    lemma_digits_len(t.second as nat, 2);
    lemma_digits_len(t.milli as nat, 3);
}

/// Text order is time order: an earlier instant has a text that sorts first.
pub proof fn lemma_text_order(t1: Stamp, t2: Stamp)
    requires
        t1.wf(),
        t2.wf(),
        t1.before(t2),
    ensures
        text_lt(t1.text(), t2.text()),
{
    reveal_with_fuel(pow10, 5);
    assert(pow10(2) == 100);
    assert(pow10(3) == 1000);
    assert(pow10(4) == 10000);
    let f1 = text_pieces(t1);
    let f2 = text_pieces(t2);
    lemma_text_pieces(t1);
    lemma_text_pieces(t2);
    // the piece at which the two texts first differ
    let k: nat = if t1.year != t2.year {
        lemma_digits_lt(t1.year as nat, t2.year as nat, 4);
        0
    } else if t1.month != t2.month {
        lemma_digits_lt(t1.month as nat, t2.month as nat, 2);
        2
    } else if t1.day != t2.day {
        lemma_digits_lt(t1.day as nat, t2.day as nat, 2);
        4
    } else if t1.hour != t2.hour {
        lemma_digits_lt(t1.hour as nat, t2.hour as nat, 2);
        6
    } else if t1.minute != t2.minute {
        lemma_digits_lt(t1.minute as nat, t2.minute as nat, 2);
        8
    } else if t1.second != t2.second {
        lemma_digits_lt(t1.second as nat, t2.second as nat, 2);
        10
    } else {
        lemma_digits_lt(t1.milli as nat, t2.milli as nat, 3);
        12
    };
    assert forall|j: int| 0 <= j < k implies f1[j] == f2[j] by {}
    lemma_join_lt(f1, f2, 14, k);
}

/// No character of `s` is NUL, and all are ASCII.
pub open spec fn plain_ascii(s: Seq<char>) -> bool {
    forall|i: int| 0 <= i < s.len() ==> '\0' < #[trigger] s[i] && s[i] <= '\u{7f}'
}

proof fn lemma_digits_plain(n: nat, width: nat)
    ensures
        plain_ascii(digits(n, width)),
    decreases width,
{
    if width > 0 {
        lemma_digits_plain(n / 10, (width - 1) as nat);
        let d = digits(n, width);
        let p = digits(n / 10, (width - 1) as nat);
        lemma_digits_len(n / 10, (width - 1) as nat);
        assert forall|i: int| 0 <= i < d.len() implies '\0' < #[trigger] d[i] && d[i] <= '\u{7f}' by {
            if i < p.len() {
                assert(d[i] == p[i]);
            }
        }
    }
}

proof fn lemma_join_plain(f: Seq<Seq<char>>, n: nat)
    requires
        n <= f.len(),
        forall|j: int| 0 <= j < n ==> plain_ascii(#[trigger] f[j]),
    ensures
        plain_ascii(join_pieces(f, n)),
    decreases n,
{
    if n > 0 {
        let m = (n - 1) as nat;
        lemma_join_plain(f, m);
        let a = join_pieces(f, m);
        let b = f[m as int];
        assert(plain_ascii(b));
        assert forall|i: int| 0 <= i < (a + b).len() implies '\0' < #[trigger] (a + b)[i] && (a
            + b)[i] <= '\u{7f}' by {
            if i < a.len() {
                assert((a + b)[i] == a[i]);
            } else {
                assert((a + b)[i] == b[i - a.len()]);
            }
        }
    }
}

/// Every text has the same length, and only ASCII characters other than NUL.
pub proof fn lemma_text_shape(t1: Stamp, t2: Stamp)
    ensures
        t1.text().len() == t2.text().len(),
        plain_ascii(t1.text()),
{
    lemma_text_pieces(t1);
    lemma_text_pieces(t2);
    let f = text_pieces(t1);
    lemma_join_len(f, text_pieces(t2), 14);
    lemma_digits_plain(t1.year as nat, 4);
    lemma_digits_plain(t1.month as nat, 2);
    lemma_digits_plain(t1.day as nat, 2);
    lemma_digits_plain(t1.hour as nat, 2);
    lemma_digits_plain(t1.minute as nat, 2);
    lemma_digits_plain(t1.second as nat, 2);
    lemma_digits_plain(t1.milli as nat, 3);
    assert forall|j: int| 0 <= j < 14 implies plain_ascii(#[trigger] f[j]) by {
        if j % 2 == 1 {
            assert(f[j].len() == 1);
        }
    }
    lemma_join_plain(f, 14);
}

/// Two instants with the same text are the same instant.
pub proof fn lemma_text_injective(t1: Stamp, t2: Stamp)
    requires
        t1.wf(),
        t2.wf(),
        t1.text() == t2.text(),
    ensures
        t1 == t2,
{
    if t1 != t2 {
        if t1.before(t2) {
            lemma_text_order(t1, t2);
        } else {
            assert(t2.before(t1));
            lemma_text_order(t2, t1);
        }
        let a = t1.text();
        assert(!(a.len() < a.len()));
        if text_lt(t1.text(), t2.text()) {
            let i = choose|i: int|
                0 <= i < a.len() && i < a.len() && a.subrange(0, i) == a.subrange(0, i) && (
                a[i] as u32) < (a[i] as u32);
        }
    }
}

/// The text of an instant is short enough to stand in a key.
pub proof fn lemma_text_fits(t: Stamp)
    ensures
        crate::keys::fits(t.text()),
{
    lemma_digits_len(t.year as nat, 4);
    lemma_digits_len(t.month as nat, 2);
    lemma_digits_len(t.day as nat, 2);
    lemma_digits_len(t.hour as nat, 2);
    lemma_digits_len(t.minute as nat, 2);
    lemma_digits_len(t.second as nat, 2);
    lemma_digits_len(t.milli as nat, 3);
    assert(t.text().len() == 24);
    lemma_text_shape(t, t);
    assert(is_ascii_chars(t.text()));
    is_ascii_chars_encode_utf8(t.text());
}

} // verus!
