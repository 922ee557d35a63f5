//! Calendar timestamps as they are written in the inventory tables.

use vstd::prelude::*;
use vstd::string::*;

verus! {

/// A timestamp by its calendar fields. No field is range-checked: the value
/// is what was written down, and two timestamps are ordered field by field.
#[derive(Clone, Copy, Debug, PartialEq, Eq, Structural)]
pub struct DateTime {
    pub year: i32,
    pub month: u32,
    pub day: u32,
    pub hour: u32,
    pub minute: u32,
    pub second: u32,
}

impl DateTime {
    /// `self` is strictly earlier than `other`: the fields are compared from
    /// the year down to the second, and the first that differs decides.
    pub open spec fn is_before(self, other: DateTime) -> bool {
        ||| self.year < other.year
        ||| self.year == other.year && self.month < other.month
        ||| self.year == other.year && self.month == other.month && self.day < other.day
        ||| self.year == other.year && self.month == other.month && self.day == other.day
            && self.hour < other.hour
        ||| self.year == other.year && self.month == other.month && self.day == other.day
            && self.hour == other.hour && self.minute < other.minute
        ||| self.year == other.year && self.month == other.month && self.day == other.day
            && self.hour == other.hour && self.minute == other.minute && self.second
            < other.second
    }

    /// The timestamp as it is written: year, month and day joined by
    /// hyphens, a space, then hour, minute and second joined by colons; the
    /// year in at least four characters and every other field in at least
    /// two.
    pub open spec fn text(self) -> Seq<char> {
        year_text(self.year as int) + seq!['-'] + zero_padded(self.month as nat, 2) + seq!['-']
            + zero_padded(self.day as nat, 2) + seq![' '] + zero_padded(self.hour as nat, 2)
            + seq![':'] + zero_padded(self.minute as nat, 2) + seq![':'] + zero_padded(
            self.second as nat,
            2,
        )
    }

    /// Writes the timestamp as `text` says, for instance
    /// `2024-03-09 07:05:00`.
    pub fn to_string(&self) -> (s: String)
        ensures
            s@ == self.text(),
    {
        proof {
            reveal_strlit("-");
            reveal_strlit(" ");
            reveal_strlit(":");
        }
        let mut out = String::new();
        if self.year < 0 {
            out.append("-");
            let magnitude: u32 = (-(self.year as i64)) as u32;
            push_padded(&mut out, magnitude, 3);
            assert(out@ =~= year_text(self.year as int));
        } else {
            push_padded(&mut out, self.year as u32, 4);
            assert(out@ =~= year_text(self.year as int));
        }
        out.append("-");
        push_padded(&mut out, self.month, 2);
        out.append("-");
        push_padded(&mut out, self.day, 2);
        out.append(" ");
        push_padded(&mut out, self.hour, 2);
        out.append(":");
        push_padded(&mut out, self.minute, 2);
        out.append(":");
        push_padded(&mut out, self.second, 2);
        assert(out@ =~= self.text());
        out
    }

    /// Reads a timestamp as `to_string` writes it. The text is parted at
    /// every hyphen, space and colon and must give six fields, each a number
    /// of its field's type; else the message says what is wrong, as
    /// `date_time_of` has it.
    pub fn from_string(date_str: &str) -> (r: Result<DateTime, &'static str>)
        ensures
            match r {
                Ok(dt) => date_time_of(date_str@) == Ok::<DateTime, Seq<char>>(dt),
                Err(msg) => date_time_of(date_str@) == Err::<DateTime, Seq<char>>(msg@),
            },
    {
        let chars = chars_of(date_str);
        let fields = split_fields(&chars);
        if fields.len() != 6 {
            return Err("Invalid date time format");
        }
        proof {
            assert(forall|k: int| 0 <= k < 6 ==> field_views(fields@)[k] == fields@[k]@);
        }
        let year: u64 = match parse_number(&fields[0], 2147483647) {
            Some(v) => v,
            None => {
                return Err("Invalid year");
            },
        };
        let month: u64 = match parse_number(&fields[1], 4294967295) {
            Some(v) => v,
            None => {
                return Err("Invalid month");
            },
        };
        let day: u64 = match parse_number(&fields[2], 4294967295) {
            Some(v) => v,
            None => {
                return Err("Invalid day");
            },
        };
        let hour: u64 = match parse_number(&fields[3], 4294967295) {
            Some(v) => v,
            None => {
                return Err("Invalid hour");
            },
        };
        let minute: u64 = match parse_number(&fields[4], 4294967295) {
            Some(v) => v,
            None => {
                return Err("Invalid minute");
            },
        };
        let second: u64 = match parse_number(&fields[5], 4294967295) {
            Some(v) => v,
            None => {
                return Err("Invalid second");
            },
        };
        Ok(
            DateTime {
                year: year as i32,
                month: month as u32,
                day: day as u32,
                hour: hour as u32,
                minute: minute as u32,
                second: second as u32,
            },
        )
    }

    /// Builds a timestamp from its six fields.
    pub fn new(year: i32, month: u32, day: u32, hour: u32, minute: u32, second: u32) -> (dt:
        DateTime)
        ensures
            dt == (DateTime { year, month, day, hour, minute, second }),
    {
        DateTime { year, month, day, hour, minute, second }
    }

    /// Whether `self` is strictly earlier than `other`.
    pub fn earlier_than(&self, other: &DateTime) -> (b: bool)
        ensures
            b == self.is_before(*other),
    {
        if self.year != other.year {
            self.year < other.year
        } else if self.month != other.month {
            self.month < other.month
        } else if self.day != other.day {
            self.day < other.day
        } else if self.hour != other.hour {
            self.hour < other.hour
        } else if self.minute != other.minute {
            self.minute < other.minute
        } else {
            self.second < other.second
        }
    }
}

// Writing

/// The character that writes the digit `d`.
pub open spec fn digit_char(d: nat) -> char {
    if d == 0 {
        '0'
    } else if d == 1 {
        '1'
    } else if d == 2 {
        '2'
    } else if d == 3 {
        '3'
    } else if d == 4 {
        '4'
    } else if d == 5 {
        '5'
    } else if d == 6 {
        '6'
    } else if d == 7 {
        '7'
    } else if d == 8 {
        '8'
    } else {
        '9'
    }
}

/// The decimal digits of `n`, most significant first, without leading
/// zeros.
pub open spec fn decimal_digits(n: nat) -> Seq<char>
    decreases n,
{
    if n < 10 {
        seq![digit_char(n)]
    } else {
        decimal_digits(n / 10).push(digit_char(n % 10))
    }
}

/// The decimal digits of `n`, with zeros in front up to `width` characters.
/// A number with more digits than `width` is written in full.
pub open spec fn zero_padded(n: nat, width: nat) -> Seq<char> {
    let digits = decimal_digits(n);
    if digits.len() >= width {
        digits
    } else {
        Seq::new((width - digits.len()) as nat, |i: int| '0') + digits
    }
}

/// A year in four characters or more: a negative year is a minus sign and
/// at least three digits.
pub open spec fn year_text(year: int) -> Seq<char> {
    if year < 0 {
        seq!['-'] + zero_padded((-year) as nat, 3)
    } else {
        zero_padded(year as nat, 4)
    }
}

/// The text of one decimal digit.
fn digit_text(d: u32) -> (s: &'static str)
    requires
        d < 10,
    ensures
        s@ == seq![digit_char(d as nat)],
{
    proof {
        reveal_strlit("0");
        reveal_strlit("1");
        reveal_strlit("2");
        reveal_strlit("3");
        reveal_strlit("4");
        reveal_strlit("5");
        reveal_strlit("6");
        reveal_strlit("7");
        reveal_strlit("8");
        reveal_strlit("9");
    }
    let s = if d == 0 {
        "0"
    } else if d == 1 {
        "1"
    } else if d == 2 {
        "2"
    } else if d == 3 {
        "3"
    } else if d == 4 {
        "4"
    } else if d == 5 {
        "5"
    } else if d == 6 {
        "6"
    } else if d == 7 {
        "7"
    } else if d == 8 {
        "8"
    } else {
        "9"
    };
    assert(s@ =~= seq![digit_char(d as nat)]);
    s
}

/// Writes `n` behind `out`, with zeros in front up to `width` characters.
fn push_padded(out: &mut String, n: u32, width: usize)
    ensures
        final(out)@ == old(out)@ + zero_padded(n as nat, width as nat),
{
    // The digits below the leading one, least significant first.
    let mut low: Vec<u32> = Vec::new();
    let mut rest: u32 = n;
    let ghost mut tail: Seq<char> = Seq::empty();
    proof {
        assert(decimal_digits(rest as nat) + tail =~= decimal_digits(n as nat));
    }
    while rest >= 10
        invariant
            decimal_digits(n as nat) == decimal_digits(rest as nat) + tail,
            tail.len() == low@.len(),
            forall|k: int| 0 <= k < low@.len() ==> low@[k] < 10,
            forall|k: int|
                0 <= k < low@.len() ==> tail[k] == digit_char(low@[low@.len() - 1 - k] as nat),
        decreases rest,
    {
        let d: u32 = rest % 10;
        proof {
            let new_tail = seq![digit_char(d as nat)] + tail;
            assert(decimal_digits(rest as nat) == decimal_digits(rest as nat / 10).push(
                digit_char(d as nat),
            ));
            assert(decimal_digits((rest / 10) as nat) + new_tail =~= decimal_digits(rest as nat)
                + tail);
            tail = new_tail;
        }
        low.push(d);
        rest = rest / 10;
    }
    let pad: usize = if width > low.len() {
        width - low.len() - 1
    } else {
        0
    };
    let ghost start = out@;
    let mut z: usize = 0;
    while z < pad
        invariant
            z <= pad,
            out@ == start + Seq::new(z as nat, |i: int| '0'),
        decreases pad - z,
    {
        proof {
            reveal_strlit("0");
            assert(Seq::new(z as nat, |i: int| '0') + "0"@ =~= Seq::new(
                (z + 1) as nat,
                |i: int| '0',
            ));
        }
        out.append("0");
        z += 1;
    }
    let ghost padded = out@;
    out.append(digit_text(rest));
    let mut k: usize = low.len();
    while k > 0
        invariant
            k <= low@.len(),
            tail.len() == low@.len(),
            forall|j: int| 0 <= j < low@.len() ==> low@[j] < 10,
            forall|j: int|
                0 <= j < low@.len() ==> tail[j] == digit_char(low@[low@.len() - 1 - j] as nat),
            out@ == padded + seq![digit_char(rest as nat)] + tail.take(low@.len() - k),
        decreases k,
    {
        k -= 1;
        proof {
            let done = low@.len() - 1 - k;
            assert(tail.take(done + 1) =~= tail.take(done).push(tail[done]));
        }
        out.append(digit_text(low[k]));
    }
    proof {
        assert(tail.take(low@.len() as int) =~= tail);
        assert(decimal_digits(n as nat) =~= seq![digit_char(rest as nat)] + tail);
        assert(out@ =~= start + zero_padded(n as nat, width as nat));
    }
}

// Reading

/// The characters that part the fields of a written timestamp.
pub open spec fn is_separator(c: char) -> bool {
    c == '-' || c == ' ' || c == ':'
}

/// The fields of a text: the runs of characters between separators. A text
/// with `k` separators has `k + 1` fields, some of them possibly empty.
pub open spec fn fields_of(text: Seq<char>) -> Seq<Seq<char>>
    decreases text.len(),
{
    if text.len() == 0 {
        seq![Seq::<char>::empty()]
    } else {
        let before = fields_of(text.drop_last());
        if is_separator(text.last()) {
            before.push(Seq::<char>::empty())
        } else {
            before.drop_last().push(before.last().push(text.last()))
        }
    }
}

/// `c` is one of the digits `0` to `9`.
pub open spec fn is_digit(c: char) -> bool {
    '0' <= c && c <= '9'
}

/// The number that the digit `c` writes.
pub open spec fn digit_value(c: char) -> nat {
    if is_digit(c) {
        (c as u32 - '0' as u32) as nat
    } else {
        0
    }
}

/// The number that a run of decimal digits writes.
pub open spec fn decimal_value(digits: Seq<char>) -> nat
    decreases digits.len(),
{
    if digits.len() == 0 {
        0
    } else {
        decimal_value(digits.drop_last()) * 10 + digit_value(digits.last())
    }
}

/// Every character is a digit.
pub open spec fn all_digits(text: Seq<char>) -> bool {
    forall|i: int| 0 <= i < text.len() ==> is_digit(#[trigger] text[i])
}

/// A field without its plus sign, if it has one in front.
pub open spec fn unsigned_part(field: Seq<char>) -> Seq<char> {
    if field.len() > 0 && field[0] == '+' {
        field.skip(1)
    } else {
        field
    }
}

/// The number that a field writes, if it writes one that is no greater
/// than `max`: an optional plus sign, then one or more digits and nothing
/// else.
pub open spec fn number_of(field: Seq<char>, max: nat) -> Option<nat> {
    let digits = unsigned_part(field);
    if digits.len() > 0 && all_digits(digits) && decimal_value(digits) <= max {
        Some(decimal_value(digits))
    } else {
        None
    }
}

/// The timestamp that a text writes, or why it writes none. The text must
/// have six fields, and the message names the first field that is no
/// number of its type.
pub open spec fn date_time_of(text: Seq<char>) -> Result<DateTime, Seq<char>> {
    let fields = fields_of(text);
    if fields.len() != 6 {
        Err("Invalid date time format"@)
    } else if number_of(fields[0], i32::MAX as nat) is None {
        Err("Invalid year"@)
    } else if number_of(fields[1], u32::MAX as nat) is None {
        Err("Invalid month"@)
    } else if number_of(fields[2], u32::MAX as nat) is None {
        Err("Invalid day"@)
    } else if number_of(fields[3], u32::MAX as nat) is None {
        Err("Invalid hour"@)
    } else if number_of(fields[4], u32::MAX as nat) is None {
        Err("Invalid minute"@)
    } else if number_of(fields[5], u32::MAX as nat) is None {
        Err("Invalid second"@)
    } else {
        Ok(
            DateTime {
                year: number_of(fields[0], i32::MAX as nat)->0 as i32,
                month: number_of(fields[1], u32::MAX as nat)->0 as u32,
                day: number_of(fields[2], u32::MAX as nat)->0 as u32,
                hour: number_of(fields[3], u32::MAX as nat)->0 as u32,
                minute: number_of(fields[4], u32::MAX as nat)->0 as u32,
                second: number_of(fields[5], u32::MAX as nat)->0 as u32,
            },
        )
    }
}

/// The views of the fields that a vector holds.
pub open spec fn field_views(fields: Seq<Vec<char>>) -> Seq<Seq<char>> {
    Seq::new(fields.len(), |i: int| fields[i]@)
}

/// More digits never write a smaller number.
proof fn lemma_decimal_value_grows(digits: Seq<char>, k: int)
    requires
        0 <= k <= digits.len(),
    ensures
        decimal_value(digits.take(k)) <= decimal_value(digits),
    decreases digits.len() - k,
{
    if k < digits.len() {
        assert(digits.take(k + 1).drop_last() =~= digits.take(k));
        lemma_decimal_value_grows(digits, k + 1);
    } else {
        assert(digits.take(k) =~= digits);
    }
}

/// The characters of a text.
fn chars_of(text: &str) -> (chars: Vec<char>)
    ensures
        chars@ == text@,
{
    let mut chars: Vec<char> = Vec::new();
    for c in it: text.chars()
        invariant
            it.seq() == text@,
            chars@ == text@.take(it.index() as int),
    {
        proof {
            assert(text@.take(it.index() + 1) =~= text@.take(it.index() as int).push(c));
        }
        chars.push(c);
    }
    assert(text@.take(text@.len() as int) =~= text@);
    chars
}

/// Parts a text into its fields.
fn split_fields(chars: &Vec<char>) -> (fields: Vec<Vec<char>>)
    ensures
        field_views(fields@) == fields_of(chars@),
{
    let mut done: Vec<Vec<char>> = Vec::new();
    let mut current: Vec<char> = Vec::new();
    let mut i: usize = 0;
    proof {
        assert(chars@.take(0) =~= Seq::<char>::empty());
        assert(field_views(done@).push(current@) =~= seq![Seq::<char>::empty()]);
    }
    while i < chars.len()
        invariant
            i <= chars@.len(),
            fields_of(chars@.take(i as int)) == field_views(done@).push(current@),
        decreases chars@.len() - i,
    {
        let c = chars[i];
        proof {
            assert(chars@.take(i as int + 1).drop_last() =~= chars@.take(i as int));
        }
        if c == '-' || c == ' ' || c == ':' {
            proof {
                assert(field_views(done@.push(current)).push(Seq::<char>::empty())
                    =~= field_views(done@).push(current@).push(Seq::<char>::empty()));
            }
            done.push(current);
            current = Vec::new();
        } else {
            proof {
                let before = field_views(done@).push(current@);
                assert(before.drop_last().push(before.last().push(c)) =~= field_views(
                    done@,
                ).push(current@.push(c)));
            }
            current.push(c);
        }
        i += 1;
    }
    proof {
        assert(chars@.take(chars@.len() as int) =~= chars@);
        assert(field_views(done@.push(current)) =~= field_views(done@).push(current@));
    }
    done.push(current);
    done
}

/// Reads the number that a field writes, if it writes one up to `max`.
fn parse_number(field: &Vec<char>, max: u64) -> (r: Option<u64>)
    requires
        max <= u32::MAX,
    ensures
        match r {
            Some(v) => number_of(field@, max as nat) == Some(v as nat),
            None => number_of(field@, max as nat) is None,
        },
{
    let start: usize = if field.len() > 0 && field[0] == '+' {
        1
    } else {
        0
    };
    if start == field.len() {
        return None;
    }
    let ghost digits = unsigned_part(field@);
    let mut value: u64 = 0;
    let mut i: usize = start;
    proof {
        assert(digits.take(0) =~= Seq::<char>::empty());
    }
    while i < field.len()
        invariant
            max <= u32::MAX,
            start <= i <= field@.len(),
            start <= 1,
            digits == unsigned_part(field@),
            digits.len() == field@.len() - start,
            forall|k: int| 0 <= k < digits.len() ==> digits[k] == field@[k + start],
            all_digits(digits.take(i - start)),
            value == decimal_value(digits.take(i - start)),
            value <= max,
        decreases field@.len() - i,
    {
        let c = field[i];
        if !('0' <= c && c <= '9') {
            proof {
                assert(!is_digit(digits[i - start]));
            }
            return None;
        }
        let d: u64 = (c as u32 - '0' as u32) as u64;
        proof {
            let next = digits.take(i - start + 1);
            assert(next.drop_last() =~= digits.take(i - start));
            assert(next.last() == c);
            lemma_decimal_value_grows(digits, i - start + 1);
            assert forall|k: int| 0 <= k < next.len() implies is_digit(#[trigger] next[k]) by {
                if k < i - start {
                    assert(digits.take(i - start)[k] == next[k]);
                }
            }
        }
        value = value * 10 + d;
        if value > max {
            return None;
        }
        i += 1;
    }
    proof {
        assert(digits.take(digits.len() as int) =~= digits);
    }
    Some(value)
}

// Reading back what was written

/// No character occurs that parts fields.
pub open spec fn no_separator(text: Seq<char>) -> bool {
    forall|i: int| 0 <= i < text.len() ==> !is_separator(#[trigger] text[i])
}

/// A written digit is read back as the digit it writes.
proof fn lemma_digit_char(d: nat)
    requires
        d < 10,
    ensures
        is_digit(digit_char(d)),
        digit_value(digit_char(d)) == d,
        !is_separator(digit_char(d)),
        digit_char(d) != '+',
{
}

/// The digits of a number are digits, at least one, and write that number.
proof fn lemma_decimal_digits(n: nat)
    ensures
        decimal_digits(n).len() >= 1,
        all_digits(decimal_digits(n)),
        no_separator(decimal_digits(n)),
        decimal_value(decimal_digits(n)) == n,
    decreases n,
{
    if n < 10 {
        lemma_digit_char(n);
        let d = decimal_digits(n);
        assert(d.drop_last() =~= Seq::<char>::empty());
        assert(decimal_value(d.drop_last()) == 0);
    } else {
        lemma_decimal_digits(n / 10);
        lemma_digit_char(n % 10);
        let head = decimal_digits(n / 10);
        let d = decimal_digits(n);
        assert(d.drop_last() =~= head);
        assert forall|i: int| 0 <= i < d.len() implies is_digit(#[trigger] d[i]) && !is_separator(
            d[i],
        ) by {
            if i < head.len() {
                assert(d[i] == head[i]);
            }
        }
    }
}

/// Zeros in front do not change the number that digits write.
proof fn lemma_leading_zeros(k: nat, digits: Seq<char>)
    ensures
        decimal_value(Seq::new(k, |i: int| '0') + digits) == decimal_value(digits),
    decreases digits.len(), k,
{
    let zeros = Seq::new(k, |i: int| '0');
    if digits.len() == 0 {
        assert(zeros + digits =~= zeros);
        if k > 0 {
            let fewer = Seq::new((k - 1) as nat, |i: int| '0');
            assert(zeros.drop_last() =~= fewer);
            lemma_leading_zeros((k - 1) as nat, digits);
            assert(fewer + digits =~= fewer);
        }
    } else {
        lemma_leading_zeros(k, digits.drop_last());
        assert((zeros + digits).drop_last() =~= zeros + digits.drop_last());
        assert((zeros + digits).last() == digits.last());
    }
}

/// A number written with zeros in front is read back as that number.
proof fn lemma_zero_padded(n: nat, width: nat, max: nat)
    requires
        n <= max,
    ensures
        zero_padded(n, width).len() >= 1,
        no_separator(zero_padded(n, width)),
        number_of(zero_padded(n, width), max) == Some(n),
{
    lemma_decimal_digits(n);
    let digits = decimal_digits(n);
    let text = zero_padded(n, width);
    if digits.len() < width {
        let k = (width - digits.len()) as nat;
        lemma_leading_zeros(k, digits);
        assert forall|i: int| 0 <= i < text.len() implies is_digit(#[trigger] text[i])
            && !is_separator(text[i]) by {
            if i >= k {
                assert(text[i] == digits[i - k]);
            }
        }
    }
    assert(is_digit(text[0]));
    assert(unsigned_part(text) == text);
}

/// A text without separators is one field.
proof fn lemma_one_field(text: Seq<char>)
    requires
        no_separator(text),
    ensures
        fields_of(text) == seq![text],
    decreases text.len(),
{
    if text.len() == 0 {
        assert(text =~= Seq::<char>::empty());
    } else {
        let head = text.drop_last();
        assert forall|i: int| 0 <= i < head.len() implies !is_separator(#[trigger] head[i]) by {
            assert(head[i] == text[i]);
        }
        lemma_one_field(head);
        assert(!is_separator(text[text.len() - 1]));
        assert(head.push(text.last()) =~= text);
        assert(fields_of(text) =~= seq![text]);
    }
}

/// A separator and a run without separators add one field.
proof fn lemma_one_more_field(front: Seq<char>, separator: char, field: Seq<char>)
    requires
        is_separator(separator),
        no_separator(field),
    ensures
        fields_of(front + seq![separator] + field) == fields_of(front).push(field),
    decreases field.len(),
{
    let text = front + seq![separator] + field;
    if field.len() == 0 {
        assert(field =~= Seq::<char>::empty());
        assert(text.drop_last() =~= front);
        assert(text.last() == separator);
    } else {
        let head = field.drop_last();
        assert forall|i: int| 0 <= i < head.len() implies !is_separator(#[trigger] head[i]) by {
            assert(head[i] == field[i]);
        }
        lemma_one_more_field(front, separator, head);
        assert(text.drop_last() =~= front + seq![separator] + head);
        assert(text.last() == field[field.len() - 1]);
        assert(!is_separator(text.last()));
        assert(head.push(field.last()) =~= field);
        assert(fields_of(text) =~= fields_of(front).push(field));
    }
}

/// A timestamp of a year that is not negative is read back from its text
/// as it was written.
pub proof fn law_text_reads_back(dt: DateTime)
    requires
        dt.year >= 0,
    ensures
        date_time_of(dt.text()) == Ok::<DateTime, Seq<char>>(dt),
{
    let y = zero_padded(dt.year as nat, 4);
    let mo = zero_padded(dt.month as nat, 2);
    let d = zero_padded(dt.day as nat, 2);
    let h = zero_padded(dt.hour as nat, 2);
    let mi = zero_padded(dt.minute as nat, 2);
    let s = zero_padded(dt.second as nat, 2);
    lemma_zero_padded(dt.year as nat, 4, i32::MAX as nat);
    lemma_zero_padded(dt.month as nat, 2, u32::MAX as nat);
    lemma_zero_padded(dt.day as nat, 2, u32::MAX as nat);
    lemma_zero_padded(dt.hour as nat, 2, u32::MAX as nat);
    lemma_zero_padded(dt.minute as nat, 2, u32::MAX as nat);
    lemma_zero_padded(dt.second as nat, 2, u32::MAX as nat);
    lemma_one_field(y);
    let t1 = y + seq!['-'] + mo;
    lemma_one_more_field(y, '-', mo);
    let t2 = t1 + seq!['-'] + d;
    lemma_one_more_field(t1, '-', d);
    let t3 = t2 + seq![' '] + h;
    lemma_one_more_field(t2, ' ', h);
    let t4 = t3 + seq![':'] + mi;
    lemma_one_more_field(t3, ':', mi);
    let t5 = t4 + seq![':'] + s;
    lemma_one_more_field(t4, ':', s);
    assert(dt.text() == t5);
    assert(fields_of(t5) =~= seq![y, mo, d, h, mi, s]);
}

} // verus!
