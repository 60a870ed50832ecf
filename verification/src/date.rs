//! Calendar timestamps extracted from image metadata, and the parser for the
//! date strings that metadata fields carry.
use vstd::prelude::*;
use vstd::arithmetic::div_mod::lemma_fundamental_div_mod;

verus! {

/// A capture timestamp: calendar date plus time of day, no time zone.
#[derive(Clone, Copy, Debug, PartialEq, Eq, Structural)]
pub struct CaptureDate {
    pub year: u32,
    pub month: u32,
    pub day: u32,
    pub hour: u32,
    pub minute: u32,
    pub second: u32,
}

pub open spec fn is_leap_year(y: int) -> bool {
    y % 4 == 0 && (y % 100 != 0 || y % 400 == 0)
}

pub open spec fn days_in_month(y: int, m: int) -> int {
    if m == 2 {
        if is_leap_year(y) {
            29
        } else {
            28
        }
    } else if m == 4 || m == 6 || m == 9 || m == 11 {
        30
    } else {
        31
    }
}

/// A timestamp the library accepts: a real calendar date with a 4-digit year
/// and a time of day.
pub open spec fn valid_date(d: CaptureDate) -> bool {
    &&& d.year <= 9999
    &&& 1 <= d.month <= 12
    &&& 1 <= d.day <= days_in_month(d.year as int, d.month as int)
    &&& d.hour <= 23
    &&& d.minute <= 59
    &&& d.second <= 59
}

pub open spec fn is_digit(c: char) -> bool {
    48 <= c as int <= 57
}

pub open spec fn digit_val(c: char) -> int {
    c as int - 48
}

pub open spec fn digit_char(k: int) -> char {
    if k == 0 {
        '0'
    } else if k == 1 {
        '1'
    } else if k == 2 {
        '2'
    } else if k == 3 {
        '3'
    } else if k == 4 {
        '4'
    } else if k == 5 {
        '5'
    } else if k == 6 {
        '6'
    } else if k == 7 {
        '7'
    } else if k == 8 {
        '8'
    } else {
        '9'
    }
}

pub open spec fn is_space_char(c: char) -> bool {
    c == ' ' || c == '\t' || c == '\n' || c == '\r'
}

pub proof fn lemma_digit_char_props(k: int)
    requires
        0 <= k < 10,
    ensures
        is_digit(digit_char(k)),
        digit_val(digit_char(k)) == k,
        !is_space_char(digit_char(k)),
        digit_char(k) != '"',
{
}

/// The decimal value of the two digit characters at `i`.
pub open spec fn two_digit_val(s: Seq<char>, i: int) -> int {
    10 * digit_val(s[i]) + digit_val(s[i + 1])
}

pub open spec fn digits2_at(s: Seq<char>, i: int) -> bool {
    is_digit(s[i]) && is_digit(s[i + 1])
}

pub open spec fn four_digit_val(s: Seq<char>, i: int) -> int {
    100 * two_digit_val(s, i) + two_digit_val(s, i + 2)
}

pub open spec fn digits4_at(s: Seq<char>, i: int) -> bool {
    digits2_at(s, i) && digits2_at(s, i + 2)
}

/// The two-character decimal rendering of `n`, zero padded.
pub open spec fn two_digit_seq(n: int) -> Seq<char> {
    seq![digit_char(n / 10), digit_char(n % 10)]
}

/// The four-character decimal rendering of `n`, zero padded.
pub open spec fn four_digit_seq(n: int) -> Seq<char> {
    two_digit_seq(n / 100) + two_digit_seq(n % 100)
}

pub proof fn lemma_two_digit_roundtrip(n: int)
    requires
        0 <= n < 100,
    ensures
        two_digit_seq(n).len() == 2,
        digits2_at(two_digit_seq(n), 0),
        two_digit_val(two_digit_seq(n), 0) == n,
        !is_space_char(two_digit_seq(n)[0]),
        !is_space_char(two_digit_seq(n)[1]),
        two_digit_seq(n)[0] != '"',
        two_digit_seq(n)[1] != '"',
{
    lemma_digit_char_props(n / 10);
    lemma_digit_char_props(n % 10);
    lemma_fundamental_div_mod(n, 10);
}

pub proof fn lemma_four_digit_roundtrip(n: int)
    requires
        0 <= n < 10000,
    ensures
        four_digit_seq(n).len() == 4,
        digits4_at(four_digit_seq(n), 0),
        four_digit_val(four_digit_seq(n), 0) == n,
        !is_space_char(four_digit_seq(n)[0]),
        four_digit_seq(n)[0] != '"',
{
    lemma_two_digit_roundtrip(n / 100);
    lemma_two_digit_roundtrip(n % 100);
    lemma_fundamental_div_mod(n, 100);
    assert(four_digit_seq(n)[0] == two_digit_seq(n / 100)[0]);
    assert(four_digit_seq(n)[1] == two_digit_seq(n / 100)[1]);
    assert(four_digit_seq(n)[2] == two_digit_seq(n % 100)[0]);
    assert(four_digit_seq(n)[3] == two_digit_seq(n % 100)[1]);
}

/// The date-string shapes the parser tries, in priority order.
#[derive(Clone, Copy, Debug, PartialEq, Eq, Structural)]
pub enum ExifPattern {
    /// `YYYY:MM:DD HH:MM:SS`, the dominant metadata convention.
    ColonSeconds,
    /// `YYYY-MM-DD HH:MM:SS`.
    HyphenSeconds,
    /// `YYYY/MM/DD HH:MM:SS`.
    SlashSeconds,
    /// `YYYY:MM:DD HH:MM`, no seconds field (parsed seconds are 0).
    ColonMinutes,
    /// `YYYY-MM-DDTHH:MM:SS`, the ISO style.
    IsoT,
}

pub open spec fn pattern_len(p: ExifPattern) -> int {
    if p is ColonMinutes {
        16
    } else {
        19
    }
}

pub open spec fn date_sep(p: ExifPattern) -> char {
    match p {
        ExifPattern::ColonSeconds => ':',
        ExifPattern::HyphenSeconds => '-',
        ExifPattern::SlashSeconds => '/',
        ExifPattern::ColonMinutes => ':',
        ExifPattern::IsoT => '-',
    }
}

pub open spec fn mid_sep(p: ExifPattern) -> char {
    if p is IsoT {
        'T'
    } else {
        ' '
    }
}

pub open spec fn has_seconds(p: ExifPattern) -> bool {
    !(p is ColonMinutes)
}

/// Whether `s` has exactly the shape of pattern `p`: digits in the numeric
/// positions and the pattern's separators between them.
pub open spec fn matches_pattern(s: Seq<char>, p: ExifPattern) -> bool {
    &&& s.len() == pattern_len(p)
    &&& digits4_at(s, 0)
    &&& s[4] == date_sep(p)
    &&& digits2_at(s, 5)
    &&& s[7] == date_sep(p)
    &&& digits2_at(s, 8)
    &&& s[10] == mid_sep(p)
    &&& digits2_at(s, 11)
    &&& s[13] == ':'
    &&& digits2_at(s, 14)
    &&& (has_seconds(p) ==> s[16] == ':' && digits2_at(s, 17))
}

/// The timestamp read off a string that matches pattern `p`.
pub open spec fn fields_of(s: Seq<char>, p: ExifPattern) -> CaptureDate {
    CaptureDate {
        year: four_digit_val(s, 0) as u32,
        month: two_digit_val(s, 5) as u32,
        day: two_digit_val(s, 8) as u32,
        hour: two_digit_val(s, 11) as u32,
        minute: two_digit_val(s, 14) as u32,
        second: if has_seconds(p) {
            two_digit_val(s, 17) as u32
        } else {
            0
        },
    }
}

pub open spec fn parse_pattern_spec(s: Seq<char>, p: ExifPattern) -> Option<CaptureDate> {
    if matches_pattern(s, p) && valid_date(fields_of(s, p)) {
        Some(fields_of(s, p))
    } else {
        None
    }
}

/// The first pattern, in priority order, that parses the (already cleaned)
/// string.
pub open spec fn parse_trimmed_spec(s: Seq<char>) -> Option<CaptureDate> {
    if parse_pattern_spec(s, ExifPattern::ColonSeconds) is Some {
        parse_pattern_spec(s, ExifPattern::ColonSeconds)
    } else if parse_pattern_spec(s, ExifPattern::HyphenSeconds) is Some {
        parse_pattern_spec(s, ExifPattern::HyphenSeconds)
    } else if parse_pattern_spec(s, ExifPattern::SlashSeconds) is Some {
        parse_pattern_spec(s, ExifPattern::SlashSeconds)
    } else if parse_pattern_spec(s, ExifPattern::ColonMinutes) is Some {
        parse_pattern_spec(s, ExifPattern::ColonMinutes)
    } else if parse_pattern_spec(s, ExifPattern::IsoT) is Some {
        parse_pattern_spec(s, ExifPattern::IsoT)
    } else {
        None
    }
}

pub open spec fn trim_front(s: Seq<char>) -> Seq<char>
    decreases s.len(),
{
    if s.len() > 0 && is_space_char(s[0]) {
        trim_front(s.drop_first())
    } else {
        s
    }
}

pub open spec fn trim_back(s: Seq<char>) -> Seq<char>
    decreases s.len(),
{
    if s.len() > 0 && is_space_char(s.last()) {
        trim_back(s.drop_last())
    } else {
        s
    }
}

pub open spec fn strip_quote_front(s: Seq<char>) -> Seq<char> {
    if s.len() > 0 && s[0] == '"' {
        s.drop_first()
    } else {
        s
    }
}

pub open spec fn strip_quote_back(s: Seq<char>) -> Seq<char> {
    if s.len() > 0 && s.last() == '"' {
        s.drop_last()
    } else {
        s
    }
}

/// Surrounding whitespace removed, then one layer of enclosing quote
/// characters.
pub open spec fn clean(s: Seq<char>) -> Seq<char> {
    strip_quote_back(strip_quote_front(trim_back(trim_front(s))))
}

/// What the date parser returns on a raw metadata string: the string is
/// cleaned, then the patterns are tried in priority order.
pub open spec fn parse_date_spec(s: Seq<char>) -> Option<CaptureDate> {
    parse_trimmed_spec(clean(s))
}

fn digit_at(s: &str, i: usize) -> (r: Option<u32>)
    requires
        i < s@.len(),
    ensures
        match r {
            Some(v) => is_digit(s@[i as int]) && v == digit_val(s@[i as int]) && v < 10,
            None => !is_digit(s@[i as int]),
        },
{
    let c = s.get_char(i);
    match c {
        '0' => Some(0),
        '1' => Some(1),
        '2' => Some(2),
        '3' => Some(3),
        '4' => Some(4),
        '5' => Some(5),
        '6' => Some(6),
        '7' => Some(7),
        '8' => Some(8),
        '9' => Some(9),
        _ => None,
    }
}

fn two_digits(s: &str, i: usize) -> (r: Option<u32>)
    requires
        i + 2 <= s@.len(),
        i + 2 <= usize::MAX,
    ensures
        match r {
            Some(v) => digits2_at(s@, i as int) && v == two_digit_val(s@, i as int) && v < 100,
            None => !digits2_at(s@, i as int),
        },
{
    match (digit_at(s, i), digit_at(s, i + 1)) {
        (Some(a), Some(b)) => Some(10 * a + b),
        _ => None,
    }
}

fn four_digits(s: &str, i: usize) -> (r: Option<u32>)
    requires
        i + 4 <= s@.len(),
        i + 4 <= usize::MAX,
    ensures
        match r {
            Some(v) => digits4_at(s@, i as int) && v == four_digit_val(s@, i as int) && v
                < 10000,
            None => !digits4_at(s@, i as int),
        },
{
    match (two_digits(s, i), two_digits(s, i + 2)) {
        (Some(a), Some(b)) => Some(100 * a + b),
        _ => None,
    }
}

fn is_space_exec(c: char) -> (r: bool)
    ensures
        r == is_space_char(c),
{
    match c {
        ' ' | '\t' | '\n' | '\r' => true,
        _ => false,
    }
}

fn date_sep_exec(p: &ExifPattern) -> (r: char)
    ensures
        r == date_sep(*p),
{
    match p {
        ExifPattern::ColonSeconds => ':',
        ExifPattern::HyphenSeconds => '-',
        ExifPattern::SlashSeconds => '/',
        ExifPattern::ColonMinutes => ':',
        ExifPattern::IsoT => '-',
    }
}

fn mid_sep_exec(p: &ExifPattern) -> (r: char)
    ensures
        r == mid_sep(*p),
{
    match p {
        ExifPattern::IsoT => 'T',
        _ => ' ',
    }
}

fn days_in_month_exec(y: u32, m: u32) -> (r: u32)
    ensures
        r == days_in_month(y as int, m as int),
{
    if m == 2 {
        if y % 4 == 0 && (y % 100 != 0 || y % 400 == 0) {
            29
        } else {
            28
        }
    } else if m == 4 || m == 6 || m == 9 || m == 11 {
        30
    } else {
        31
    }
}

/// Whether `d` is a real calendar timestamp (leap years respected).
pub fn check_valid_date(d: &CaptureDate) -> (r: bool)
    ensures
        r == valid_date(*d),
{
    d.year <= 9999 && 1 <= d.month && d.month <= 12 && 1 <= d.day && d.day <= days_in_month_exec(
        d.year,
        d.month,
    ) && d.hour <= 23 && d.minute <= 59 && d.second <= 59
}

/// Tries to read the (already cleaned) string as one fixed pattern.
fn parse_one_pattern(t: &str, p: &ExifPattern) -> (r: Option<CaptureDate>)
    ensures
        r == parse_pattern_spec(t@, *p),
{
    let n = t.unicode_len();
    let want: usize = match p {
        ExifPattern::ColonMinutes => 16,
        _ => 19,
    };
    if n != want {
        return None;
    }
    let ds = date_sep_exec(p);
    let ms = mid_sep_exec(p);
    let year = match four_digits(t, 0) {
        Some(v) => v,
        None => {
            return None;
        },
    };
    if t.get_char(4) != ds {
        return None;
    }
    let month = match two_digits(t, 5) {
        Some(v) => v,
        None => {
            return None;
        },
    };
    if t.get_char(7) != ds {
        return None;
    }
    let day = match two_digits(t, 8) {
        Some(v) => v,
        None => {
            return None;
        },
    };
    if t.get_char(10) != ms {
        return None;
    }
    let hour = match two_digits(t, 11) {
        Some(v) => v,
        None => {
            return None;
        },
    };
    if t.get_char(13) != ':' {
        return None;
    }
    let minute = match two_digits(t, 14) {
        Some(v) => v,
        None => {
            return None;
        },
    };
    let second: u32 = if n == 19 {
        if t.get_char(16) != ':' {
            return None;
        }
        match two_digits(t, 17) {
            Some(v) => v,
            None => {
                return None;
            },
        }
    } else {
        0
    };
    let d = CaptureDate { year, month, day, hour, minute, second };
    assert(matches_pattern(t@, *p));
    assert(d == fields_of(t@, *p));
    if check_valid_date(&d) {
        Some(d)
    } else {
        None
    }
}

proof fn lemma_trim_front_skip(s: Seq<char>, i: int)
    requires
        0 <= i < s.len(),
        is_space_char(s[i]),
    ensures
        trim_front(s.skip(i)) == trim_front(s.skip(i + 1)),
{
    assert(s.skip(i).len() > 0);
    assert(s.skip(i)[0] == s[i]);
    assert(s.skip(i).drop_first() =~= s.skip(i + 1));
}

proof fn lemma_trim_back_sub(s: Seq<char>, lo: int, hi: int)
    requires
        0 <= lo < hi <= s.len(),
        is_space_char(s[hi - 1]),
    ensures
        trim_back(s.subrange(lo, hi)) == trim_back(s.subrange(lo, hi - 1)),
{
    assert(s.subrange(lo, hi).last() == s[hi - 1]);
    assert(s.subrange(lo, hi).drop_last() =~= s.subrange(lo, hi - 1));
}

/// The cleaned slice of `s`: whitespace trimmed, one enclosing quote layer
/// stripped.
fn clean_str<'a>(s: &'a str) -> (r: &'a str)
    ensures
        r@ == clean(s@),
{
    let len = s.unicode_len();
    let mut lo: usize = 0;
    assert(s@.skip(0) =~= s@);
    while lo < len && is_space_exec(s.get_char(lo))
        invariant
            0 <= lo <= len,
            len == s@.len(),
            trim_front(s@) == trim_front(s@.skip(lo as int)),
        decreases len - lo,
    {
        proof {
            lemma_trim_front_skip(s@, lo as int);
        }
        lo = lo + 1;
    }
    assert(s@.skip(lo as int) =~= s@.subrange(lo as int, len as int));
    if lo == len {
        assert(trim_front(s@) =~= Seq::<char>::empty());
        assert(clean(s@) =~= Seq::<char>::empty());
        let r = s.substring_char(lo, len);
        assert(r@ =~= clean(s@));
        return r;
    }
    assert(trim_front(s@) == s@.subrange(lo as int, len as int)) by {
        assert(s@.skip(lo as int).len() > 0);
        assert(s@.skip(lo as int)[0] == s@[lo as int]);
        assert(!is_space_char(s@.skip(lo as int)[0]));
    }
    let ghost tf = trim_front(s@);
    let mut hi: usize = len;
    while hi > lo && is_space_exec(s.get_char(hi - 1))
        invariant
            0 <= lo < hi + 1,
            hi <= len,
            len == s@.len(),
            tf == trim_front(s@),
            tf == s@.subrange(lo as int, len as int),
            trim_back(tf) == trim_back(s@.subrange(lo as int, hi as int)),
        decreases hi,
    {
        proof {
            lemma_trim_back_sub(s@, lo as int, hi as int);
        }
        hi = hi - 1;
    }
    let ghost tb = trim_back(tf);
    proof {
        if hi == lo {
            assert(s@.subrange(lo as int, hi as int) =~= Seq::<char>::empty());
        } else {
            assert(s@.subrange(lo as int, hi as int).last() == s@[hi - 1]);
        }
        assert(tb == s@.subrange(lo as int, hi as int));
    }
    let mut qlo = lo;
    let mut qhi = hi;
    if qlo < qhi && s.get_char(qlo) == '"' {
        proof {
            assert(s@.subrange(lo as int, hi as int)[0] == s@[lo as int]);
            assert(s@.subrange(lo as int, hi as int).drop_first() =~= s@.subrange(
                lo as int + 1,
                hi as int,
            ));
        }
        qlo = qlo + 1;
    }
    assert(strip_quote_front(tb) == s@.subrange(qlo as int, qhi as int));
    let ghost sf = strip_quote_front(tb);
    if qlo < qhi && s.get_char(qhi - 1) == '"' {
        proof {
            assert(sf.last() == s@[qhi - 1]);
            assert(sf.drop_last() =~= s@.subrange(qlo as int, qhi as int - 1));
        }
        qhi = qhi - 1;
    }
    assert(strip_quote_back(sf) == s@.subrange(qlo as int, qhi as int));
    let r = s.substring_char(qlo, qhi);
    assert(r@ == clean(s@));
    r
}

/// The DateParser: cleans the raw metadata string and tries the fixed,
/// ordered list of date-time patterns; `None` when every pattern fails,
/// which is an expected outcome, not an error.
pub fn parse_exif_date(s: &str) -> (r: Option<CaptureDate>)
    ensures
        r == parse_date_spec(s@),
        r matches Some(d) ==> valid_date(d),
{
    let t = clean_str(s);
    if let Some(d) = parse_one_pattern(t, &ExifPattern::ColonSeconds) {
        return Some(d);
    }
    if let Some(d) = parse_one_pattern(t, &ExifPattern::HyphenSeconds) {
        return Some(d);
    }
    if let Some(d) = parse_one_pattern(t, &ExifPattern::SlashSeconds) {
        return Some(d);
    }
    if let Some(d) = parse_one_pattern(t, &ExifPattern::ColonMinutes) {
        return Some(d);
    }
    if let Some(d) = parse_one_pattern(t, &ExifPattern::IsoT) {
        return Some(d);
    }
    None
}

pub(crate) fn digit_str(k: u32) -> (r: &'static str)
    requires
        k < 10,
    ensures
        r@ =~= seq![digit_char(k as int)],
{
    match k {
        0 => {
            proof {
                reveal_strlit("0");
            }
            "0"
        },
        1 => {
            proof {
                reveal_strlit("1");
            }
            "1"
        },
        2 => {
            proof {
                reveal_strlit("2");
            }
            "2"
        },
        3 => {
            proof {
                reveal_strlit("3");
            }
            "3"
        },
        4 => {
            proof {
                reveal_strlit("4");
            }
            "4"
        },
        5 => {
            proof {
                reveal_strlit("5");
            }
            "5"
        },
        6 => {
            proof {
                reveal_strlit("6");
            }
            "6"
        },
        7 => {
            proof {
                reveal_strlit("7");
            }
            "7"
        },
        8 => {
            proof {
                reveal_strlit("8");
            }
            "8"
        },
        _ => {
            proof {
                reveal_strlit("9");
            }
            "9"
        },
    }
}

fn push_two(out: &mut String, n: u32)
    requires
        n < 100,
    ensures
        final(out)@ == old(out)@ + two_digit_seq(n as int),
{
    out.append(digit_str(n / 10));
    out.append(digit_str(n % 10));
    assert(final(out)@ =~= old(out)@ + two_digit_seq(n as int));
}

fn push_four(out: &mut String, n: u32)
    requires
        n < 10000,
    ensures
        final(out)@ == old(out)@ + four_digit_seq(n as int),
{
    push_two(out, n / 100);
    push_two(out, n % 100);
    assert(final(out)@ =~= old(out)@ + four_digit_seq(n as int));
}

/// The exact character sequence that formatting `d` with pattern `p`
/// produces.
pub open spec fn fmt_pattern_spec(d: CaptureDate, p: ExifPattern) -> Seq<char> {
    four_digit_seq(d.year as int) + seq![date_sep(p)] + two_digit_seq(d.month as int)
        + seq![date_sep(p)] + two_digit_seq(d.day as int) + seq![mid_sep(p)] + two_digit_seq(
        d.hour as int,
    ) + seq![':'] + two_digit_seq(d.minute as int) + (if has_seconds(p) {
        seq![':'] + two_digit_seq(d.second as int)
    } else {
        Seq::<char>::empty()
    })
}

fn sep_str(c: char) -> (r: &'static str)
    requires
        c == ':' || c == '-' || c == '/' || c == ' ' || c == 'T',
    ensures
        r@ =~= seq![c],
{
    match c {
        ':' => {
            proof {
                reveal_strlit(":");
            }
            ":"
        },
        '-' => {
            proof {
                reveal_strlit("-");
            }
            "-"
        },
        '/' => {
            proof {
                reveal_strlit("/");
            }
            "/"
        },
        'T' => {
            proof {
                reveal_strlit("T");
            }
            "T"
        },
        _ => {
            proof {
                reveal_strlit(" ");
            }
            " "
        },
    }
}

/// Renders `d` in the shape of pattern `p`; the inverse of the parser on
/// that pattern.
pub fn format_exif(d: &CaptureDate, p: &ExifPattern) -> (r: String)
    requires
        valid_date(*d),
    ensures
        r@ == fmt_pattern_spec(*d, *p),
{
    let mut out = String::new();
    push_four(&mut out, d.year);
    out.append(sep_str(date_sep_exec(p)));
    push_two(&mut out, d.month);
    out.append(sep_str(date_sep_exec(p)));
    push_two(&mut out, d.day);
    out.append(sep_str(mid_sep_exec(p)));
    push_two(&mut out, d.hour);
    out.append(sep_str(':'));
    push_two(&mut out, d.minute);
    if match p {
        ExifPattern::ColonMinutes => false,
        _ => true,
    } {
        out.append(sep_str(':'));
        push_two(&mut out, d.second);
    }
    assert(out@ =~= fmt_pattern_spec(*d, *p));
    out
}

proof fn lemma_fmt_matches(d: CaptureDate, p: ExifPattern)
    requires
        valid_date(d),
    ensures
        matches_pattern(fmt_pattern_spec(d, p), p),
        fields_of(fmt_pattern_spec(d, p), p) == (if has_seconds(p) {
            d
        } else {
            CaptureDate { second: 0, ..d }
        }),
        clean(fmt_pattern_spec(d, p)) == fmt_pattern_spec(d, p),
{
    let f = fmt_pattern_spec(d, p);
    let ys = four_digit_seq(d.year as int);
    let mo = two_digit_seq(d.month as int);
    let da = two_digit_seq(d.day as int);
    let ho = two_digit_seq(d.hour as int);
    let mi = two_digit_seq(d.minute as int);
    let se = two_digit_seq(d.second as int);
    lemma_four_digit_roundtrip(d.year as int);
    lemma_two_digit_roundtrip(d.month as int);
    lemma_two_digit_roundtrip(d.day as int);
    lemma_two_digit_roundtrip(d.hour as int);
    lemma_two_digit_roundtrip(d.minute as int);
    lemma_two_digit_roundtrip(d.second as int);
    assert(f[0] == ys[0] && f[1] == ys[1] && f[2] == ys[2] && f[3] == ys[3]);
    assert(f[4] == date_sep(p));
    assert(f[5] == mo[0] && f[6] == mo[1]);
    assert(f[7] == date_sep(p));
    assert(f[8] == da[0] && f[9] == da[1]);
    assert(f[10] == mid_sep(p));
    assert(f[11] == ho[0] && f[12] == ho[1]);
    assert(f[13] == ':');
    assert(f[14] == mi[0] && f[15] == mi[1]);
    if has_seconds(p) {
        assert(f.len() == 19);
        assert(f[16] == ':');
        assert(f[17] == se[0] && f[18] == se[1]);
        assert(two_digit_val(f, 17) == d.second);
    } else {
        assert(f.len() == 16);
    }
    assert(four_digit_val(f, 0) == d.year);
    assert(two_digit_val(f, 5) == d.month);
    assert(two_digit_val(f, 8) == d.day);
    assert(two_digit_val(f, 11) == d.hour);
    assert(two_digit_val(f, 14) == d.minute);
    assert(matches_pattern(f, p));
    // The first and last characters are digits, so cleaning changes nothing.
    assert(!is_space_char(f[0]) && f[0] != '"');
    if has_seconds(p) {
        assert(f.last() == se[1]);
    } else {
        assert(f.last() == mi[1]);
    }
    assert(!is_space_char(f.last()) && f.last() != '"');
    assert(trim_front(f) == f);
    assert(trim_back(f) == f);
    assert(clean(f) == f);
}

/// Round trip: formatting a valid timestamp with any supported pattern and
/// parsing the result gives the timestamp back.  For the minutes-only
/// pattern the seconds field is not rendered, so the timestamp's seconds
/// must be zero for the round trip to be exact.
pub proof fn lemma_parse_format_roundtrip(d: CaptureDate, p: ExifPattern)
    requires
        valid_date(d),
        p is ColonMinutes ==> d.second == 0,
    ensures
        parse_date_spec(fmt_pattern_spec(d, p)) == Some(d),
{
    let f = fmt_pattern_spec(d, p);
    lemma_fmt_matches(d, p);
    assert(valid_date(fields_of(f, p)));
    assert(parse_pattern_spec(f, p) == Some(d));
    match p {
        ExifPattern::ColonSeconds => {
        },
        ExifPattern::HyphenSeconds => {
            assert(f[4] == '-' && '-' != ':');
        },
        ExifPattern::SlashSeconds => {
            assert(f[4] == '/' && '/' != ':' && '/' != '-');
        },
        ExifPattern::ColonMinutes => {
            assert(f.len() == 16);
        },
        ExifPattern::IsoT => {
            assert(f[4] == '-' && '-' != ':' && '-' != '/');
            assert(f[10] == 'T' && 'T' != ' ');
            assert(f.len() == 19);
        },
    }
}

/// Relies on String::push: appends exactly one character at the end.
#[verifier::external_body]
fn push_char(s: &mut String, c: char)
    ensures
        final(s)@ == old(s)@ + seq![c],
{
    s.push(c);
}

/// What one `%`-directive of the directory-format pattern renders to.
/// Unrecognized directives are kept verbatim.
pub open spec fn directive_seq(d: CaptureDate, c: char) -> Seq<char> {
    if c == 'Y' {
        four_digit_seq(d.year as int)
    } else if c == 'y' {
        two_digit_seq(d.year as int % 100)
    } else if c == 'm' {
        two_digit_seq(d.month as int)
    } else if c == 'd' {
        two_digit_seq(d.day as int)
    } else if c == 'H' {
        two_digit_seq(d.hour as int)
    } else if c == 'M' {
        two_digit_seq(d.minute as int)
    } else if c == 'S' {
        two_digit_seq(d.second as int)
    } else if c == '%' {
        seq!['%']
    } else {
        seq!['%', c]
    }
}

/// The rendering of `d` under a strftime-style pattern: `%`-directives are
/// substituted, every other character is copied through.
pub open spec fn fmt_strftime_spec(d: CaptureDate, pat: Seq<char>) -> Seq<char>
    decreases pat.len(),
{
    if pat.len() == 0 {
        Seq::<char>::empty()
    } else if pat[0] == '%' && pat.len() >= 2 {
        directive_seq(d, pat[1]) + fmt_strftime_spec(d, pat.skip(2))
    } else {
        seq![pat[0]] + fmt_strftime_spec(d, pat.skip(1))
    }
}

/// Formats `d` with the configured directory-format pattern.
pub fn format_date(d: &CaptureDate, pattern: &str) -> (r: String)
    requires
        valid_date(*d),
    ensures
        r@ == fmt_strftime_spec(*d, pattern@),
{
    let n = pattern.unicode_len();
    let mut out = String::new();
    let mut i: usize = 0;
    assert(pattern@.skip(0) =~= pattern@);
    while i < n
        invariant
            valid_date(*d),
            n == pattern@.len(),
            0 <= i <= n,
            fmt_strftime_spec(*d, pattern@) == out@ + fmt_strftime_spec(
                *d,
                pattern@.skip(i as int),
            ),
        decreases n - i,
    {
        let ghost t = pattern@.skip(i as int);
        let ghost out0 = out@;
        let c = pattern.get_char(i);
        assert(t[0] == c);
        if c == '%' && i + 1 < n {
            let cc = pattern.get_char(i + 1);
            assert(t[1] == cc);
            match cc {
                'Y' => push_four(&mut out, d.year),
                'y' => push_two(&mut out, d.year % 100),
                'm' => push_two(&mut out, d.month),
                'd' => push_two(&mut out, d.day),
                'H' => push_two(&mut out, d.hour),
                'M' => push_two(&mut out, d.minute),
                'S' => push_two(&mut out, d.second),
                '%' => push_char(&mut out, '%'),
                _ => {
                    push_char(&mut out, '%');
                    push_char(&mut out, cc);
                    assert(out@ =~= out0 + seq!['%', cc]);
                },
            }
            proof {
                assert(out@ == out0 + directive_seq(*d, cc));
                assert(t.skip(2) =~= pattern@.skip(i as int + 2));
                assert(fmt_strftime_spec(*d, t) == directive_seq(*d, cc) + fmt_strftime_spec(
                    *d,
                    t.skip(2),
                ));
                assert(out0 + fmt_strftime_spec(*d, t) =~= out@ + fmt_strftime_spec(
                    *d,
                    pattern@.skip(i as int + 2),
                ));
            }
            i = i + 2;
        } else {
            push_char(&mut out, c);
            proof {
                assert(t.skip(1) =~= pattern@.skip(i as int + 1));
                assert(fmt_strftime_spec(*d, t) == seq![t[0]] + fmt_strftime_spec(*d, t.skip(1)));
                assert(out0 + fmt_strftime_spec(*d, t) =~= out@ + fmt_strftime_spec(
                    *d,
                    pattern@.skip(i as int + 1),
                ));
            }
            i = i + 1;
        }
    }
    assert(pattern@.skip(n as int) =~= Seq::<char>::empty());
    assert(out@ =~= fmt_strftime_spec(*d, pattern@));
    out
}

/// The canonical histogram key of a timestamp, `YYYY-MM-DD`, independent of
/// the configured display format.
pub open spec fn key_of(d: CaptureDate) -> Seq<char> {
    four_digit_seq(d.year as int) + seq!['-'] + two_digit_seq(d.month as int) + seq!['-']
        + two_digit_seq(d.day as int)
}

/// Under the default directory format the dated subdirectory name is
/// exactly the canonical histogram key.
pub proof fn lemma_default_format_is_key(d: CaptureDate)
    ensures
        fmt_strftime_spec(d, "%Y-%m-%d"@) == key_of(d),
{
    let p = "%Y-%m-%d"@;
    reveal_strlit("%Y-%m-%d");
    assert(p.len() == 8);
    assert(p[0] == '%' && p[1] == 'Y' && p[2] == '-' && p[3] == '%' && p[4] == 'm' && p[5] == '-'
        && p[6] == '%' && p[7] == 'd');
    let p2 = p.skip(2);
    let p3 = p.skip(3);
    let p5 = p.skip(5);
    let p6 = p.skip(6);
    let p8 = p.skip(8);
    assert(fmt_strftime_spec(d, p) == directive_seq(d, 'Y') + fmt_strftime_spec(d, p2));
    assert(p2[0] == '-' && p2.len() == 6);
    assert(p2.skip(1) =~= p3);
    assert(fmt_strftime_spec(d, p2) == seq!['-'] + fmt_strftime_spec(d, p3));
    assert(p3[0] == '%' && p3[1] == 'm' && p3.len() == 5);
    assert(p3.skip(2) =~= p5);
    assert(fmt_strftime_spec(d, p3) == directive_seq(d, 'm') + fmt_strftime_spec(d, p5));
    assert(p5[0] == '-' && p5.len() == 3);
    assert(p5.skip(1) =~= p6);
    assert(fmt_strftime_spec(d, p5) == seq!['-'] + fmt_strftime_spec(d, p6));
    assert(p6[0] == '%' && p6[1] == 'd' && p6.len() == 2);
    assert(p6.skip(2) =~= p8);
    assert(fmt_strftime_spec(d, p6) == directive_seq(d, 'd') + fmt_strftime_spec(d, p8));
    assert(p8.len() == 0);
    assert(fmt_strftime_spec(d, p8) =~= Seq::<char>::empty());
    assert(fmt_strftime_spec(d, p) =~= key_of(d));
}

/// Renders the canonical `YYYY-MM-DD` histogram key of `d`.
pub fn date_key(d: &CaptureDate) -> (r: String)
    requires
        valid_date(*d),
    ensures
        r@ == key_of(*d),
{
    let mut out = String::new();
    push_four(&mut out, d.year);
    out.append(sep_str('-'));
    push_two(&mut out, d.month);
    out.append(sep_str('-'));
    push_two(&mut out, d.day);
    assert(out@ =~= key_of(*d));
    out
}

} // verus!
