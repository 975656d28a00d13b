//! The value grammar: one piece of text, already parted from its label, read
//! as a typed `Value`.
use crate::decimal::{
    is_digit, lemma_signed_chars, lemma_signed_text, lemma_unsigned_chars, lemma_unsigned_text,
    parse_i32, parse_i32_range, parse_u32, parse_u32_range, signed_text, two_digit_text,
    unsigned_text, write_signed, write_two_digits,
};
use crate::text::{
    chars_of, ends_with, ends_with_range, is_whitespace, lemma_split_once, lemma_trim_identity,
    lemma_trim_twice, lemma_trim_with_suffix, pieces, same_text, split, split_ranges,
    strip_suffix, trim, trim_range, trim_start,
};
use vstd::prelude::*;
use vstd::std_specs::cmp::PartialEqSpecImpl;
use vstd::string::*;

verus! {

/// One reading of the appliance. Two readings are equal where they are of
/// the same kind and hold the same.
#[derive(Debug, Eq)]
pub enum Value {
    /// Power in watts; negative when power flows back to the grid.
    Wattage(i32),
    /// A time of day, in minutes since midnight.
    TimeInMinutes(u32),
    /// The name of an operating mode.
    Mode(String),
    /// Whether something is present.
    Boolean(bool),
}

/// Why a piece of text is no `Value`.
#[derive(Debug, PartialEq, Eq, Structural, Clone, Copy)]
pub enum ParseError {
    /// A part that has to be a number is none, or does not fit.
    ParseIntError,
    /// A time of day without its hour marker, or without the minute marker
    /// behind its minutes.
    InvalidTimeFormat,
    /// The text has none of the known shapes.
    UnknownDataType,
}

/// The mathematical content of a `Value`.
pub ghost enum ValueView {
    Wattage(i32),
    TimeInMinutes(u32),
    Mode(Seq<char>),
    Boolean(bool),
}

impl View for Value {
    type V = ValueView;

    open spec fn view(&self) -> ValueView {
        match self {
            Value::Wattage(n) => ValueView::Wattage(*n),
            Value::TimeInMinutes(n) => ValueView::TimeInMinutes(*n),
            Value::Mode(label) => ValueView::Mode(label@),
            Value::Boolean(b) => ValueView::Boolean(*b),
        }
    }
}

impl PartialEq for Value {
    fn eq(&self, other: &Value) -> (r: bool) {
        match (self, other) {
            (Value::Wattage(a), Value::Wattage(b)) => *a == *b,
            (Value::TimeInMinutes(a), Value::TimeInMinutes(b)) => *a == *b,
            (Value::Mode(a), Value::Mode(b)) => same_text(a.as_str(), b.as_str()),
            (Value::Boolean(a), Value::Boolean(b)) => *a == *b,
            _ => false,
        }
    }
}

impl PartialEqSpecImpl for Value {
    open spec fn obeys_eq_spec() -> bool {
        true
    }

    open spec fn eq_spec(&self, other: &Value) -> bool {
        self@ == other@
    }
}

impl Clone for Value {
    fn clone(&self) -> (r: Value)
        ensures
            r == *self,
    {
        match self {
            Value::Wattage(n) => Value::Wattage(*n),
            Value::TimeInMinutes(n) => Value::TimeInMinutes(*n),
            Value::Mode(label) => Value::Mode(label.clone()),
            Value::Boolean(b) => Value::Boolean(*b),
        }
    }
}

/// What reading one field gave, as a mathematical value.
pub type Outcome = Result<ValueView, ParseError>;

/// The outcome of reading one field, with the value taken by its view.
pub open spec fn outcome_view(r: Result<Value, ParseError>) -> Outcome {
    match r {
        Ok(v) => Ok(v@),
        Err(e) => Err(e),
    }
}

/// The token for "present".
pub open spec fn present_token() -> Seq<char> {
    seq!['有']
}

/// The token for "absent".
pub open spec fn absent_token() -> Seq<char> {
    seq!['無']
}

/// The suffix of a wattage.
pub open spec fn watt_suffix() -> Seq<char> {
    seq!['[', 'W', ']']
}

/// The suffix of an operating mode.
pub open spec fn mode_suffix() -> Seq<char> {
    seq!['モ', 'ー', 'ド']
}

/// The marker behind the minutes of a time of day.
pub open spec fn minute_marker() -> Seq<char> {
    seq!['分']
}

/// The marker behind the hours of a time of day.
pub open spec fn hour_marker() -> Seq<char> {
    seq!['時']
}

/// What a time of day denotes. `t` is cut at its hour markers: the first
/// piece is the hour; the second is the minute, with the minute marker behind
/// it; further pieces are not looked at.
pub open spec fn parse_duration(t: Seq<char>) -> Result<ValueView, ParseError> {
    let parts = split(t, hour_marker());
    if parts.len() < 2 {
        Err(ParseError::InvalidTimeFormat)
    } else {
        match parse_u32(parts[0]) {
            None => Err(ParseError::ParseIntError),
            Some(h) => if !ends_with(parts[1], minute_marker()) {
                Err(ParseError::InvalidTimeFormat)
            } else {
                match parse_u32(strip_suffix(parts[1], minute_marker())) {
                    None => Err(ParseError::ParseIntError),
                    Some(m) => if h * 60 + m <= u32::MAX {
                        Ok(ValueView::TimeInMinutes((h * 60 + m) as u32))
                    } else {
                        Err(ParseError::ParseIntError)
                    },
                }
            },
        }
    }
}

/// What a piece of text denotes. The text is trimmed; then the first shape
/// that fits decides: one of the two tokens, the watt suffix, the mode
/// suffix, the minute marker.
pub open spec fn parse_value(text: Seq<char>) -> Result<ValueView, ParseError> {
    let t = trim(text);
    if t == present_token() {
        Ok(ValueView::Boolean(true))
    } else if t == absent_token() {
        Ok(ValueView::Boolean(false))
    } else if ends_with(t, watt_suffix()) {
        match parse_i32(strip_suffix(t, watt_suffix())) {
            Some(n) => Ok(ValueView::Wattage(n)),
            None => Err(ParseError::ParseIntError),
        }
    } else if ends_with(t, mode_suffix()) {
        Ok(ValueView::Mode(strip_suffix(t, mode_suffix())))
    } else if ends_with(t, minute_marker()) {
        parse_duration(t)
    } else {
        Err(ParseError::UnknownDataType)
    }
}

/// Reads the characters of `buf` from `lo` to `hi` as a time of day.
fn duration_range(buf: &Vec<char>, lo: usize, hi: usize) -> (r: Result<Value, ParseError>)
    requires
        lo <= hi <= buf.len(),
    ensures
        outcome_view(r) == parse_duration(buf@.subrange(lo as int, hi as int)),
{
    let hour: Vec<char> = vec!['時'];
    let minute: Vec<char> = vec!['分'];
    assert(hour@ =~= hour_marker());
    assert(minute@ =~= minute_marker());
    let parts = split_ranges(buf, lo, hi, &hour);
    if parts.len() < 2 {
        return Err(ParseError::InvalidTimeFormat);
    }
    let (h_lo, h_hi) = parts[0];
    let (m_lo, m_hi) = parts[1];
    assert(pieces(buf@, parts@)[0] == buf@.subrange(h_lo as int, h_hi as int));
    assert(pieces(buf@, parts@)[1] == buf@.subrange(m_lo as int, m_hi as int));
    let h: u32 = match parse_u32_range(buf, h_lo, h_hi) {
        Some(h) => h,
        None => {
            return Err(ParseError::ParseIntError);
        },
    };
    if !ends_with_range(buf, m_lo, m_hi, &minute) {
        return Err(ParseError::InvalidTimeFormat);
    }
    assert(buf@.subrange(m_lo as int, m_hi - 1) =~= strip_suffix(
        buf@.subrange(m_lo as int, m_hi as int),
        minute_marker(),
    ));
    let m: u32 = match parse_u32_range(buf, m_lo, m_hi - 1) {
        Some(m) => m,
        None => {
            return Err(ParseError::ParseIntError);
        },
    };
    let total: u64 = h as u64 * 60 + m as u64;
    if total > 0xFFFF_FFFF {
        return Err(ParseError::ParseIntError);
    }
    Ok(Value::TimeInMinutes(total as u32))
}

impl Value {
    /// Reads the characters of `src` from `lo` to `hi` as a value. `buf`
    /// holds the characters of `src`.
    pub(crate) fn parse_range(src: &str, buf: &Vec<char>, lo: usize, hi: usize) -> (r: Result<
        Value,
        ParseError,
    >)
        requires
            buf@ == src@,
            lo <= hi <= buf.len(),
        ensures
            outcome_view(r) == parse_value(buf@.subrange(lo as int, hi as int)),
    {
        let (lo, hi) = trim_range(buf, lo, hi);
        let ghost t = buf@.subrange(lo as int, hi as int);
        if hi - lo == 1 && buf[lo] == '有' {
            assert(t =~= present_token());
            return Ok(Value::Boolean(true));
        }
        assert(t != present_token()) by {
            if t == present_token() {
                assert(t.len() == 1 && t[0] == '有');
            }
        }
        if hi - lo == 1 && buf[lo] == '無' {
            assert(t =~= absent_token());
            return Ok(Value::Boolean(false));
        }
        assert(t != absent_token()) by {
            if t == absent_token() {
                assert(t.len() == 1 && t[0] == '無');
            }
        }
        let watt: Vec<char> = vec!['[', 'W', ']'];
        assert(watt@ =~= watt_suffix());
        if ends_with_range(buf, lo, hi, &watt) {
            assert(buf@.subrange(lo as int, hi - 3) =~= strip_suffix(t, watt_suffix()));
            return match parse_i32_range(buf, lo, hi - 3) {
                Some(n) => Ok(Value::Wattage(n)),
                None => Err(ParseError::ParseIntError),
            };
        }
        let mode: Vec<char> = vec!['モ', 'ー', 'ド'];
        assert(mode@ =~= mode_suffix());
        if ends_with_range(buf, lo, hi, &mode) {
            assert(src@.subrange(lo as int, hi - 3) =~= strip_suffix(t, mode_suffix()));
            let label: String = src.substring_char(lo, hi - 3).to_owned();
            return Ok(Value::Mode(label));
        }
        let minute: Vec<char> = vec!['分'];
        assert(minute@ =~= minute_marker());
        if ends_with_range(buf, lo, hi, &minute) {
            return duration_range(buf, lo, hi);
        }
        Err(ParseError::UnknownDataType)
    }

    /// Reads `s` as a value.
    pub fn from_str(s: &str) -> (r: Result<Value, ParseError>)
        ensures
            outcome_view(r) == parse_value(s@),
    {
        let buf = chars_of(s);
        assert(buf@.subrange(0, buf.len() as int) =~= s@);
        Value::parse_range(s, &buf, 0, buf.len())
    }
}

impl std::str::FromStr for Value {
    type Err = ParseError;

    fn from_str(s: &str) -> (r: Result<Value, ParseError>)
        ensures
            outcome_view(r) == parse_value(s@),
    {
        Value::from_str(s)
    }
}

/// Whitespace around a text does not change what it is read as.
pub proof fn lemma_whitespace_ignored(text: Seq<char>)
    ensures
        parse_value(text) == parse_value(trim(text)),
{
    lemma_trim_twice(text);
}

/// Text that ends in the watt suffix is a wattage where what stands before
/// the suffix, leading whitespace apart, is a signed decimal number that fits
/// an `i32`; where it is not, the text is a malformed number and nothing else.
pub proof fn lemma_wattage_text(body: Seq<char>)
    ensures
        parse_value(body + watt_suffix()) == (match parse_i32(trim_start(body)) {
            Some(n) => Ok::<ValueView, ParseError>(ValueView::Wattage(n)),
            None => Err(ParseError::ParseIntError),
        }),
        parse_i32(body) is Some ==> parse_value(body + watt_suffix()) == Ok::<
            ValueView,
            ParseError,
        >(ValueView::Wattage(parse_i32(body)->Some_0)),
{
    lemma_trim_with_suffix(body, watt_suffix());
    if parse_i32(body) is Some {
        lemma_signed_chars(body);
    }
}

/// Every `i32`, written in base ten with the watt suffix behind it, is read
/// as that wattage.
pub proof fn lemma_wattage_written(n: i32)
    ensures
        parse_value(signed_text(n as int) + watt_suffix()) == Ok::<ValueView, ParseError>(
            ValueView::Wattage(n),
        ),
{
    let body = signed_text(n as int);
    lemma_signed_text(n as int);
    lemma_wattage_text(body);
    if n < 0 {
        assert(body.first() == '-');
    } else {
        lemma_unsigned_text(n as nat);
        assert(is_digit(body.first()));
    }
}

/// Text that ends in the mode suffix is a mode, named by what stands before
/// the suffix, leading whitespace apart, whatever that is.
pub proof fn lemma_mode_text(label: Seq<char>)
    ensures
        parse_value(label + mode_suffix()) == Ok::<ValueView, ParseError>(
            ValueView::Mode(trim_start(label)),
        ),
        label.len() == 0 || !is_whitespace(label.first()) ==> parse_value(label + mode_suffix())
            == Ok::<ValueView, ParseError>(ValueView::Mode(label)),
{
    lemma_trim_with_suffix(label, mode_suffix());
    let t = trim(label + mode_suffix());
    assert(t.last() == 'ド');
    if ends_with(t, watt_suffix()) {
        assert(t.subrange(t.len() - 3, t.len() as int)[2] == ']');
    }
}

/// An hour and a minute, each an unsigned decimal number, with the hour
/// marker between them and the minute marker behind, are read as the minutes
/// since midnight, where these fit a `u32`.
pub proof fn lemma_duration_text(hour: Seq<char>, minute: Seq<char>, h: u32, m: u32)
    requires
        parse_u32(hour) == Some(h),
        parse_u32(minute) == Some(m),
        h * 60 + m <= u32::MAX,
    ensures
        parse_value(hour + hour_marker() + minute + minute_marker()) == Ok::<
            ValueView,
            ParseError,
        >(ValueView::TimeInMinutes((h * 60 + m) as u32)),
{
    let rest = minute + minute_marker();
    let t = hour + hour_marker() + minute + minute_marker();
    lemma_unsigned_chars(hour);
    lemma_unsigned_chars(minute);
    assert(t =~= hour + seq!['時'] + rest);
    assert(t.first() == hour.first());
    assert(t.last() == '分');
    lemma_trim_identity(t);
    if ends_with(t, watt_suffix()) {
        assert(t.subrange(t.len() - 3, t.len() as int)[2] == ']');
    }
    if ends_with(t, mode_suffix()) {
        assert(t.subrange(t.len() - 3, t.len() as int)[2] == 'ド');
    }
    assert(t.subrange(t.len() - 1, t.len() as int) =~= minute_marker());
    assert forall|i: int| 0 <= i < rest.len() implies rest[i] != '時' by {
        if i < minute.len() {
            assert(rest[i] == minute[i]);
        }
    }
    lemma_split_once(hour, '時', rest);
    assert(rest.subrange(rest.len() - 1, rest.len() as int) =~= minute_marker());
    assert(strip_suffix(rest, minute_marker()) =~= minute);
}

/// Every hour and minute, written in base ten with their markers, are read
/// as the minutes since midnight, where these fit a `u32`.
pub proof fn lemma_duration_written(h: u32, m: u32)
    requires
        h * 60 + m <= u32::MAX,
    ensures
        parse_value(
            unsigned_text(h as nat) + hour_marker() + unsigned_text(m as nat) + minute_marker(),
        ) == Ok::<ValueView, ParseError>(ValueView::TimeInMinutes((h * 60 + m) as u32)),
{
    lemma_unsigned_text(h as nat);
    lemma_unsigned_text(m as nat);
    lemma_duration_text(unsigned_text(h as nat), unsigned_text(m as nat), h, m);
}

/// A text is read as "present" exactly where, trimmed, it is the token for
/// it, and as "absent" exactly where it is the token for that.
pub proof fn lemma_flag_tokens(text: Seq<char>)
    ensures
        parse_value(text) == Ok::<ValueView, ParseError>(ValueView::Boolean(true)) <==> trim(text)
            == present_token(),
        parse_value(text) == Ok::<ValueView, ParseError>(ValueView::Boolean(false)) <==> trim(
            text,
        ) == absent_token(),
{
    assert(present_token()[0] != absent_token()[0]);
}

/// Whether `t` has one of the shapes of the grammar.
pub open spec fn has_known_shape(t: Seq<char>) -> bool {
    ||| t == present_token()
    ||| t == absent_token()
    ||| ends_with(t, watt_suffix())
    ||| ends_with(t, mode_suffix())
    ||| ends_with(t, minute_marker())
}

/// A text is of unknown type exactly where, trimmed, it has none of the
/// shapes of the grammar.
pub proof fn lemma_unknown_shape(text: Seq<char>)
    ensures
        parse_value(text) == Err::<ValueView, ParseError>(ParseError::UnknownDataType)
            <==> !has_known_shape(trim(text)),
{
}

/// How a value is shown.
pub open spec fn render_view(v: ValueView) -> Seq<char> {
    match v {
        ValueView::Wattage(n) => signed_text(n as int) + watt_suffix(),
        ValueView::TimeInMinutes(n) => two_digit_text((n / 60) as nat) + seq![':']
            + two_digit_text((n % 60) as nat),
        ValueView::Mode(label) => label + seq!['['] + mode_suffix() + seq![']'],
        ValueView::Boolean(b) => if b {
            seq!['t', 'r', 'u', 'e']
        } else {
            seq!['f', 'a', 'l', 's', 'e']
        },
    }
}

impl Value {
    /// Shows the value: a wattage with its unit, a time of day as hours and
    /// minutes in two places each, a mode with its kind in brackets, a flag
    /// as `true` or `false`.
    pub fn render(&self) -> (r: String)
        ensures
            r@ == render_view(self@),
    {
        let mut out = String::new();
        match self {
            Value::Wattage(n) => {
                proof {
                    reveal_strlit("[W]");
                }
                write_signed(&mut out, *n as i64);
                out.append("[W]");
                assert("[W]"@ =~= watt_suffix());
                assert(out@ =~= render_view(self@));
            },
            Value::TimeInMinutes(n) => {
                proof {
                    reveal_strlit(":");
                }
                write_two_digits(&mut out, (*n / 60) as u64);
                out.append(":");
                assert(":"@ =~= seq![':']);
                write_two_digits(&mut out, (*n % 60) as u64);
                assert(out@ =~= render_view(self@));
            },
            Value::Mode(label) => {
                proof {
                    reveal_strlit("[モード]");
                }
                out.append(label.as_str());
                out.append("[モード]");
                assert("[モード]"@ =~= seq!['['] + mode_suffix() + seq![']']);
                assert(out@ =~= render_view(self@));
            },
            Value::Boolean(b) => {
                proof {
                    reveal_strlit("true");
                    reveal_strlit("false");
                }
                if *b {
                    out.append("true");
                } else {
                    out.append("false");
                }
                assert(out@ =~= render_view(self@));
            },
        }
        out
    }
}

/// How a time of day is shown is not read back as a time of day: it has
/// none of the shapes of the grammar.
pub proof fn lemma_shown_duration_not_read(n: u32)
    ensures
        parse_value(render_view(ValueView::TimeInMinutes(n))) == Err::<ValueView, ParseError>(
            ParseError::UnknownDataType,
        ),
{
    let front = two_digit_text((n / 60) as nat);
    let back = two_digit_text((n % 60) as nat);
    let t = render_view(ValueView::TimeInMinutes(n));
    lemma_unsigned_text((n / 60) as nat);
    lemma_unsigned_text((n % 60) as nat);
    assert(is_digit(front.first()));
    assert(is_digit(back.last())) by {
        let digits = unsigned_text((n % 60) as nat);
        assert(is_digit(digits[digits.len() - 1]));
    }
    assert(t.first() == front.first());
    assert(t.last() == back.last());
    lemma_trim_identity(t);
    if ends_with(t, watt_suffix()) {
        assert(t.subrange(t.len() - 3, t.len() as int)[2] == ']');
    }
    if ends_with(t, mode_suffix()) {
        assert(t.subrange(t.len() - 3, t.len() as int)[2] == 'ド');
    }
    if ends_with(t, minute_marker()) {
        assert(t.subrange(t.len() - 1, t.len() as int)[0] == '分');
    }
}

} // verus!
