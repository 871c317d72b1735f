//! Settings: values that a configuration may give as text, and what they are otherwise.

use crate::maps::KeyedMap;
use crate::text;
use vstd::prelude::*;
use vstd::string::*;

verus! {

/// Whether a character is a decimal digit.
pub open spec fn is_digit(c: char) -> bool {
    '0' <= c && c <= '9'
}

/// The value of a decimal digit.
pub open spec fn digit_value(c: char) -> int {
    c as int - '0' as int
}

/// Whether a text consists of digits, at least one.
pub open spec fn all_digits(text: Seq<char>) -> bool {
    text.len() > 0 && forall|i: int| 0 <= i < text.len() ==> is_digit(#[trigger] text[i])
}

/// The number that digits write.
pub open spec fn digits_value(text: Seq<char>) -> int
    decreases text.len(),
{
    if text.len() == 0 {
        0
    } else {
        digits_value(text.drop_last()) * 10 + digit_value(text.last())
    }
}

/// The text without its sign.
pub open spec fn unsigned_part(text: Seq<char>) -> Seq<char> {
    if text.len() > 0 && (text[0] == '+' || text[0] == '-') {
        text.skip(1)
    } else {
        text
    }
}

/// The number that a text writes: digits, with or without a sign.
pub open spec fn number_of(text: Seq<char>) -> Option<int> {
    let digits = unsigned_part(text);
    if !all_digits(digits) {
        None
    } else if text[0] == '-' {
        Some(-digits_value(digits))
    } else {
        Some(digits_value(digits))
    }
}

/// The number from `low` to `high` that a text writes. Where no number is below zero, a
/// minus is no sign.
pub open spec fn number_within(text: Seq<char>, low: int, high: int) -> Option<int> {
    match number_of(text) {
        Some(n) if low <= n <= high && !(low >= 0 && text[0] == '-') => Some(n),
        _ => None,
    }
}

/// More digits write no smaller number.
proof fn lemma_digits_grow(text: Seq<char>, i: int)
    requires
        0 <= i <= text.len(),
        forall|j: int| 0 <= j < text.len() ==> is_digit(#[trigger] text[j]),
    ensures
        0 <= digits_value(text.take(i)) <= digits_value(text),
    decreases text.len(),
{
    if i < text.len() {
        let shorter = text.drop_last();
        assert forall|j: int| 0 <= j < shorter.len() implies is_digit(#[trigger] shorter[j]) by {
            assert(shorter[j] == text[j]);
        }
        lemma_digits_grow(shorter, i);
        assert(shorter.take(i) =~= text.take(i));
        assert(is_digit(text[text.len() - 1]));
    } else {
        assert(text.take(i) =~= text);
        if text.len() > 0 {
            let shorter = text.drop_last();
            assert forall|j: int| 0 <= j < shorter.len() implies is_digit(
                #[trigger] shorter[j],
            ) by {
                assert(shorter[j] == text[j]);
            }
            lemma_digits_grow(shorter, shorter.len() as int);
            assert(shorter.take(shorter.len() as int) =~= shorter);
            assert(is_digit(text[text.len() - 1]));
        }
    }
}

fn digit_of(c: char) -> (r: Option<u128>)
    ensures
        r is Some <==> is_digit(c),
        r matches Some(d) ==> d == digit_value(c) && d < 10,
{
    if c >= '0' && c <= '9' {
        Some((c as u32 - '0' as u32) as u128)
    } else {
        None
    }
}

/// Reads digits, from a position on; nothing if there is another character, or none at all,
/// or if the number is larger than `high`.
fn read_digits(chars: &Vec<char>, from: usize, high: u128) -> (r: Option<u128>)
    requires
        from <= chars@.len(),
    ensures
        r is Some <==> all_digits(chars@.skip(from as int)) && digits_value(
            chars@.skip(from as int),
        ) <= high,
        r matches Some(n) ==> n == digits_value(chars@.skip(from as int)),
{
    let ghost digits = chars@.skip(from as int);
    if from == chars.len() {
        return None;
    }
    let mut value: u128 = 0;
    let mut i: usize = from;
    proof {
        assert(digits.take(0) =~= Seq::<char>::empty());
    }
    while i < chars.len()
        invariant
            from <= i <= chars@.len(),
            digits == chars@.skip(from as int),
            forall|j: int| 0 <= j < i - from ==> is_digit(#[trigger] digits[j]),
            value == digits_value(digits.take(i - from)),
            value <= high,
        decreases chars@.len() - i,
    {
        let c: char = chars[i];
        assert(digits[i - from] == c);
        let d: u128 = match digit_of(c) {
            Some(d) => d,
            None => {
                return None;
            },
        };
        proof {
            assert(digits.take(i + 1 - from).drop_last() =~= digits.take(i - from));
            assert(digits.take(i + 1 - from).last() == c);
        }
        if value > high / 10 || (value == high / 10 && d > high % 10) {
            proof {
                assert(value * 10 + d > high);
                assert(digits_value(digits.take(i + 1 - from)) > high);
                if all_digits(digits) {
                    lemma_digits_grow(digits, i + 1 - from);
                }
            }
            return None;
        }
        value = value * 10 + d;
        i += 1;
    }
    proof {
        assert(digits.take(i - from) =~= digits);
    }
    Some(value)
}

/// Reads a number without a sign, or with a plus, that is at most `high`.
pub fn parse_unsigned(s: &str, high: u128) -> (r: Option<u128>)
    ensures
        r is Some <==> number_within(s@, 0, high as int) is Some,
        r matches Some(n) ==> number_within(s@, 0, high as int) == Some(n as int),
{
    let chars = text::chars_of(s);
    proof {
        assert(chars@.skip(0) =~= chars@);
    }
    if chars.len() > 0 && chars[0] == '-' {
        return None;
    }
    let from: usize = if chars.len() > 0 && chars[0] == '+' {
        1
    } else {
        0
    };
    assert(chars@.skip(from as int) =~= unsigned_part(s@));
    proof {
        if all_digits(unsigned_part(s@)) {
            lemma_digits_grow(unsigned_part(s@), 0);
        }
    }
    read_digits(&chars, from, high)
}

/// Reads a number of 32 bits.
pub fn parse_i32(s: &str) -> (r: Option<i32>)
    ensures
        r is Some <==> number_within(s@, i32::MIN as int, i32::MAX as int) is Some,
        r matches Some(n) ==> number_within(s@, i32::MIN as int, i32::MAX as int) == Some(n as int),
{
    let chars = text::chars_of(s);
    proof {
        assert(chars@.skip(0) =~= chars@);
    }
    let negative = chars.len() > 0 && chars[0] == '-';
    let from: usize = if negative || (chars.len() > 0 && chars[0] == '+') {
        1
    } else {
        0
    };
    assert(chars@.skip(from as int) =~= unsigned_part(s@));
    proof {
        if all_digits(unsigned_part(s@)) {
            lemma_digits_grow(unsigned_part(s@), 0);
        }
    }
    let high: u128 = if negative {
        0x8000_0000
    } else {
        0x7fff_ffff
    };
    match read_digits(&chars, from, high) {
        None => None,
        Some(n) => Some(
            if negative {
                (-(n as i64)) as i32
            } else {
                n as i32
            },
        ),
    }
}

/// The text of a setting, or another one where it is not given.
pub open spec fn setting_or(
    settings: Option<Map<Seq<char>, Seq<char>>>,
    name: Seq<char>,
    otherwise: Seq<char>,
) -> Seq<char> {
    match settings {
        Some(m) if m.contains_key(name) => m[name],
        _ => otherwise,
    }
}

/// Finds the text of a setting.
pub fn find_setting(
    settings: &Option<KeyedMap<String, String>>,
    name: &str,
    otherwise: &str,
) -> (r: String)
    ensures
        r@ == setting_or(settings.deep_view(), name@, otherwise@),
{
    if let Some(map) = settings {
        let key = String::from_str(name);
        if let Some(value) = map.get(&key) {
            return value.clone();
        }
    }
    String::from_str(otherwise)
}

/// Whether one text stands somewhere in another one.
pub open spec fn mentions(text: Seq<char>, part: Seq<char>) -> bool {
    exists|i: int|
        0 <= i && i + part.len() <= text.len() && #[trigger] text.subrange(i, i + part.len())
            == part
}

/// Whether one text stands somewhere in another one.
pub fn check_mentions(s: &str, part: &str) -> (r: bool)
    ensures
        r <==> mentions(s@, part@),
{
    let a = text::chars_of(s);
    let b = text::chars_of(part);
    let n: usize = a.len();
    let m: usize = b.len();
    let mut i: usize = 0;
    while m <= n && i <= n - m
        invariant
            n == a@.len(),
            m == b@.len(),
            a@ == s@,
            b@ == part@,
            i <= n,
            m <= n ==> i <= n - m + 1,
            forall|j: int|
                0 <= j < i && j + m <= n ==> #[trigger] a@.subrange(j, j + m) != b@,
        decreases n - i,
    {
        let mut k: usize = 0;
        while k < m && a[i + k] == b[k]
            invariant
                n == a@.len(),
                m == b@.len(),
                k <= m,
                m <= n,
                i <= n - m,
                forall|j: int| 0 <= j < k ==> a@[i + j] == #[trigger] b@[j],
            decreases m - k,
        {
            k += 1;
        }
        if k == m {
            assert(a@.subrange(i as int, i + m) =~= b@);
            return true;
        }
        assert(a@.subrange(i as int, i + m)[k as int] == a@[i + k]);
        if i == n {
            return false;
        }
        i += 1;
    }
    false
}

/// Settings that a whole proxy has.
#[derive(PartialEq, Eq, Structural, Debug, Clone, Copy)]
pub struct RootSettings {
    /// The time between two looks at the fetches that wait, in milliseconds.
    pub period: u64,
    /// The time that a fetch waits at most, in milliseconds.
    pub max_wait: u128,
}

/// Settings that a connection has.
#[derive(PartialEq, Eq, Structural, Debug, Clone, Copy)]
pub struct StreamSettings {
    pub max_parallelism: i32,
    pub debug_protocol: i32,
    /// Records are delivered as soon as they have more bytes.
    pub min_bytes: usize,
    pub remove_empty_records: bool,
}

/// The texts that settings are given as.
pub type Given = Option<Map<Seq<char>, Seq<char>>>;

/// The settings of a whole proxy: a period of 100 and a wait of 1000, where nothing else is
/// given. Nothing if one of them is no number.
pub open spec fn root_settings_of(settings: Given) -> Option<RootSettings> {
    let period = number_within(
        setting_or(settings, "period_virtual_partition"@, "100"@),
        0,
        u64::MAX as int,
    );
    let max_wait = number_within(
        setting_or(settings, "fetch_max_wait_ms_virtual_partition"@, "1000"@),
        0,
        u128::MAX as int,
    );
    match (period, max_wait) {
        (Some(p), Some(w)) => Some(RootSettings { period: p as u64, max_wait: w as u128 }),
        _ => None,
    }
}

/// Reads the settings of a whole proxy.
pub fn read_root_settings(settings: &Option<KeyedMap<String, String>>) -> (r: Option<RootSettings>)
    ensures
        r == root_settings_of(settings.deep_view()),
{
    let period = find_setting(settings, "period_virtual_partition", "100");
    let max_wait = find_setting(settings, "fetch_max_wait_ms_virtual_partition", "1000");
    let p: u128 = match parse_unsigned(period.as_str(), u64::MAX as u128) {
        Some(p) => p,
        None => {
            return None;
        },
    };
    let w: u128 = match parse_unsigned(max_wait.as_str(), u128::MAX) {
        Some(w) => w,
        None => {
            return None;
        },
    };
    Some(RootSettings { period: p as u64, max_wait: w })
}

/// The settings of a connection: 128 key groups, no debugging, deliveries of more than a
/// million bytes, and no empty records, where nothing else is given. Nothing if one of them
/// is no number.
pub open spec fn stream_settings_of(settings: Given) -> Option<StreamSettings> {
    let max_parallelism = number_within(
        setting_or(settings, "max_parallelism"@, "128"@),
        i32::MIN as int,
        i32::MAX as int,
    );
    let debug_protocol = number_within(
        setting_or(settings, "debug_protocol"@, "0"@),
        i32::MIN as int,
        i32::MAX as int,
    );
    let min_bytes = number_within(
        setting_or(settings, "fetch_min_bytes_virtual_partition"@, "1000000"@),
        0,
        usize::MAX as int,
    );
    let remove = mentions(setting_or(settings, "remove_empty_records"@, "true"@), "true"@);
    match (max_parallelism, debug_protocol, min_bytes) {
        (Some(m), Some(d), Some(b)) => Some(
            StreamSettings {
                max_parallelism: m as i32,
                debug_protocol: d as i32,
                min_bytes: b as usize,
                remove_empty_records: remove,
            },
        ),
        _ => None,
    }
}

/// Reads the settings of a connection.
pub fn read_stream_settings(settings: &Option<KeyedMap<String, String>>) -> (r: Option<
    StreamSettings,
>)
    ensures
        r == stream_settings_of(settings.deep_view()),
{
    let groups = find_setting(settings, "max_parallelism", "128");
    let debug = find_setting(settings, "debug_protocol", "0");
    let bytes = find_setting(settings, "fetch_min_bytes_virtual_partition", "1000000");
    let remove = find_setting(settings, "remove_empty_records", "true");
    let max_parallelism: i32 = match parse_i32(groups.as_str()) {
        Some(n) => n,
        None => {
            return None;
        },
    };
    let debug_protocol: i32 = match parse_i32(debug.as_str()) {
        Some(n) => n,
        None => {
            return None;
        },
    };
    let min_bytes: u128 = match parse_unsigned(bytes.as_str(), usize::MAX as u128) {
        Some(n) => n,
        None => {
            return None;
        },
    };
    let remove_empty_records = check_mentions(remove.as_str(), "true");
    Some(
        StreamSettings {
            max_parallelism,
            debug_protocol,
            min_bytes: min_bytes as usize,
            remove_empty_records,
        },
    )
}

} // verus!
