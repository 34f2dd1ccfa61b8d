//! Message ids: the eight-byte big-endian key of a sequence number and its
//! decimal form on the wire.
use vstd::prelude::*;
use vstd::string::StrSliceExecFns;
use vstd::string::StringExecFns;

verus! {

#[verifier::external_type_specification]
#[verifier::external_body]
pub struct ExSystemTime(std::time::SystemTime);

/// Relies on `SystemTime::now`: the current time of the system clock.
#[verifier::external_body]
fn system_now() -> (r: std::time::SystemTime) {
    std::time::SystemTime::now()
}

/// Relies on `SystemTime::duration_since`: the time from the Unix epoch to `t`,
/// or none when `t` is earlier than the epoch.
#[verifier::external_body]
fn since_epoch(t: &std::time::SystemTime) -> (r: Option<std::time::Duration>) {
    t.duration_since(std::time::UNIX_EPOCH).ok()
}

/// Relies on `Duration::as_secs`: the whole seconds of a duration.
#[verifier::external_body]
fn duration_secs(d: &std::time::Duration) -> (r: u64) {
    d.as_secs()
}

/// Relies on `Duration::subsec_nanos`: the nanoseconds beyond the whole
/// seconds, always less than one billion.
#[verifier::external_body]
fn duration_subsec_nanos(d: &std::time::Duration) -> (r: u32)
    ensures
        r < 1_000_000_000,
{
    d.subsec_nanos()
}

/// Whole milliseconds in `secs` seconds and `nanos` nanoseconds, saturating
/// at the largest number.
pub fn millis(secs: u64, nanos: u32) -> (r: u64)
    ensures
        r == if secs * 1000 + nanos / 1_000_000 > u64::MAX {
            u64::MAX as int
        } else {
            secs * 1000 + nanos / 1_000_000
        },
{
    let ms = (nanos / 1_000_000u32) as u64;
    match secs.checked_mul(1000) {
        Some(t) => t.saturating_add(ms),
        None => {
            assert(secs * 1000 + nanos / 1_000_000 > u64::MAX) by (nonlinear_arith)
                requires
                    secs * 1000 > u64::MAX,
            ;
            u64::MAX
        },
    }
}

/// Milliseconds since the Unix epoch by the system clock (0 for a clock set
/// before the epoch; the count saturates at the largest number).
pub fn timestamp() -> (r: u64) {
    match since_epoch(&system_now()) {
        Some(d) => millis(duration_secs(&d), duration_subsec_nanos(&d)),
        None => 0,
    }
}

/// The eight bytes of `n`, most significant first.
pub open spec fn be8(n: u64) -> Seq<u8> {
    seq![
        (n >> 56u64) as u8,
        (n >> 48u64) as u8,
        (n >> 40u64) as u8,
        (n >> 32u64) as u8,
        (n >> 24u64) as u8,
        (n >> 16u64) as u8,
        (n >> 8u64) as u8,
        n as u8,
    ]
}

/// The number whose big-endian bytes are the first eight of `s`.
pub open spec fn be_value(s: Seq<u8>) -> u64
    recommends
        s.len() >= 8,
{
    ((s[0] as u64) << 56u64) | ((s[1] as u64) << 48u64) | ((s[2] as u64) << 40u64) | ((
    s[3] as u64) << 32u64) | ((s[4] as u64) << 24u64) | ((s[5] as u64) << 16u64) | ((
    s[6] as u64) << 8u64) | (s[7] as u64)
}

/// The character of a decimal digit.
pub open spec fn digit_char(d: nat) -> char {
    if d == 0 {
        '0'
    } else if d == 1 {
        '1'
    } else if d == 2 {
        '2'
    } else if d == 3 {
        '3'
    } else if d == 4 {
        '4'
    } else if d == 5 {
        '5'
    } else if d == 6 {
        '6'
    } else if d == 7 {
        '7'
    } else if d == 8 {
        '8'
    } else {
        '9'
    }
}

/// A decimal digit character.
pub open spec fn is_digit(c: char) -> bool {
    '0' <= c && c <= '9'
}

/// The value of a decimal digit character.
pub open spec fn digit_value(c: char) -> nat {
    (c as u32 - '0' as u32) as nat
}

/// The decimal representation of `n`, without leading zeros.
pub open spec fn decimal(n: nat) -> Seq<char>
    decreases n,
{
    if n < 10 {
        seq![digit_char(n)]
    } else {
        decimal(n / 10).push(digit_char(n % 10))
    }
}

/// A non-empty run of decimal digits.
pub open spec fn is_digits(s: Seq<char>) -> bool {
    s.len() > 0 && forall|i: int| 0 <= i < s.len() ==> is_digit(#[trigger] s[i])
}

/// The number that a run of decimal digits denotes.
pub open spec fn digits_value(s: Seq<char>) -> nat
    decreases s.len(),
{
    if s.len() == 0 {
        0
    } else {
        digits_value(s.drop_last()) * 10 + digit_value(s.last())
    }
}

/// A decimal message id names a sequence number when it is a run of digits whose
/// value fits in 64 bits.
pub open spec fn parses_as(s: Seq<char>, n: u64) -> bool {
    is_digits(s) && digits_value(s) == n
}

/// A sequence number reads back from its key.
pub proof fn lemma_be_round_trip(n: u64)
    ensures
        be_value(be8(n)) == n,
        be8(n).len() == 8,
{
    assert(((((n >> 56u64) as u8) as u64) << 56u64) | ((((n >> 48u64) as u8) as u64) << 48u64)
        | ((((n >> 40u64) as u8) as u64) << 40u64) | ((((n >> 32u64) as u8) as u64) << 32u64) | ((
    ((n >> 24u64) as u8) as u64) << 24u64) | ((((n >> 16u64) as u8) as u64) << 16u64) | ((((n
        >> 8u64) as u8) as u64) << 8u64) | ((n as u8) as u64) == n) by (bit_vector);
}

/// Distinct sequence numbers have distinct keys.
pub proof fn lemma_be_injective(a: u64, b: u64)
    ensures
        be8(a) == be8(b) <==> a == b,
{
    lemma_be_round_trip(a);
    lemma_be_round_trip(b);
}

proof fn lemma_digit_char(d: nat)
    requires
        d < 10,
    ensures
        is_digit(digit_char(d)),
        digit_value(digit_char(d)) == d,
{
}

/// The decimal form of a number reads back as that number.
pub proof fn lemma_decimal_round_trip(n: nat)
    ensures
        is_digits(decimal(n)),
        digits_value(decimal(n)) == n,
    decreases n,
{
    if n < 10 {
        lemma_digit_char(n);
        assert(decimal(n).drop_last() =~= Seq::<char>::empty());
        assert(digits_value(Seq::<char>::empty()) == 0);
        assert(digits_value(decimal(n)) == digits_value(decimal(n).drop_last()) * 10
            + digit_value(decimal(n).last()));
    } else {
        lemma_decimal_round_trip(n / 10);
        lemma_digit_char(n % 10);
        assert(n == (n / 10) * 10 + n % 10) by (nonlinear_arith);
        let s = decimal(n);
        assert(s.drop_last() =~= decimal(n / 10));
        assert(s.last() == digit_char(n % 10));
        assert(digits_value(s) == digits_value(s.drop_last()) * 10 + digit_value(s.last()));
        assert forall|i: int| 0 <= i < s.len() implies is_digit(#[trigger] s[i]) by {
            if i < s.len() - 1 {
                assert(s[i] == decimal(n / 10)[i]);
            }
        }
    }
}

/// The eight-byte key of the sequence number `n`.
pub fn msgid_from_u64(n: u64) -> (r: Vec<u8>)
    ensures
        r@ == be8(n),
{
    let r = vec![
        (n >> 56u64) as u8,
        (n >> 48u64) as u8,
        (n >> 40u64) as u8,
        (n >> 32u64) as u8,
        (n >> 24u64) as u8,
        (n >> 16u64) as u8,
        (n >> 8u64) as u8,
        n as u8,
    ];
    assert(r@ =~= be8(n));
    r
}

/// The sequence number held in the first eight bytes of a key.
pub fn msgid_to_u64(raw: &[u8]) -> (r: u64)
    requires
        raw@.len() >= 8,
    ensures
        r == be_value(raw@),
{
    ((raw[0] as u64) << 56u64) | ((raw[1] as u64) << 48u64) | ((raw[2] as u64) << 40u64) | ((
    raw[3] as u64) << 32u64) | ((raw[4] as u64) << 24u64) | ((raw[5] as u64) << 16u64) | ((
    raw[6] as u64) << 8u64) | (raw[7] as u64)
}

fn digit_str(d: u64) -> (r: &'static str)
    requires
        d < 10,
    ensures
        r@ == seq![digit_char(d as nat)],
{
    proof {
        reveal_strlit("0");
        reveal_strlit("1");
        reveal_strlit("2");
        reveal_strlit("3");
        reveal_strlit("4");
        reveal_strlit("5");
        reveal_strlit("6");
        reveal_strlit("7");
        reveal_strlit("8");
        reveal_strlit("9");
    }
    if d == 0 {
        "0"
    } else if d == 1 {
        "1"
    } else if d == 2 {
        "2"
    } else if d == 3 {
        "3"
    } else if d == 4 {
        "4"
    } else if d == 5 {
        "5"
    } else if d == 6 {
        "6"
    } else if d == 7 {
        "7"
    } else if d == 8 {
        "8"
    } else {
        "9"
    }
}

/// The decimal form of a number.
pub fn u64_to_decimal(n: u64) -> (r: String)
    ensures
        r@ == decimal(n as nat),
    decreases n,
{
    if n < 10 {
        let mut s = String::new();
        s.append(digit_str(n));
        assert(s@ =~= decimal(n as nat));
        s
    } else {
        let mut s = u64_to_decimal(n / 10);
        s.append(digit_str(n % 10));
        assert(s@ =~= decimal(n as nat));
        s
    }
}

/// The decimal wire form of the id stored under the key `raw`.
pub fn msgid_to_str(raw: &Vec<u8>) -> (r: String)
    requires
        raw@.len() >= 8,
    ensures
        r@ == decimal(be_value(raw@) as nat),
{
    u64_to_decimal(msgid_to_u64(raw.as_slice()))
}

/// Reads a decimal message id; `None` unless it is a run of digits that fits in 64 bits.
pub fn parse_msgid(sid: &str) -> (r: Option<u64>)
    ensures
        r matches Some(n) ==> parses_as(sid@, n),
        r is None ==> !(is_digits(sid@) && digits_value(sid@) <= u64::MAX),
{
    let len = sid.unicode_len();
    if len == 0 {
        return None;
    }
    let mut value: u64 = 0;
    let mut i: usize = 0;
    while i < len
        invariant
            len == sid@.len(),
            i <= len,
            value == digits_value(sid@.take(i as int)),
            forall|j: int| 0 <= j < i ==> is_digit(#[trigger] sid@[j]),
        decreases len - i,
    {
        let c = sid.get_char(i);
        assert(sid@.take(i + 1).drop_last() =~= sid@.take(i as int));
        if c < '0' || c > '9' {
            return None;
        }
        let d = (c as u32 - '0' as u32) as u64;
        let next = match value.checked_mul(10) {
            Some(v) => v.checked_add(d),
            None => None,
        };
        match next {
            Some(v) => {
                value = v;
            },
            None => {
                proof {
                    if is_digits(sid@) {
                        lemma_digits_prefix_bound(sid@, i as int + 1);
                    }
                }
                return None;
            },
        }
        i = i + 1;
    }
    assert(sid@.take(len as int) =~= sid@);
    Some(value)
}

/// A run of digits denotes at least what any of its prefixes does.
proof fn lemma_digits_prefix_bound(s: Seq<char>, k: int)
    requires
        0 <= k <= s.len(),
        forall|j: int| 0 <= j < s.len() ==> is_digit(#[trigger] s[j]),
    ensures
        digits_value(s.take(k)) <= digits_value(s),
    decreases s.len(),
{
    if k < s.len() {
        assert(s.drop_last().take(k) =~= s.take(k));
        lemma_digits_prefix_bound(s.drop_last(), k);
        assert(s.take(s.len() as int) =~= s);
    } else {
        assert(s.take(k) =~= s);
    }
}

/// The eight-byte key that a decimal wire id names, if it names one.
pub fn msgid_to_raw(sid: &String) -> (r: Option<Vec<u8>>)
    ensures
        r matches Some(v) ==> exists|n: u64| parses_as(sid@, n) && v@ == be8(n),
        r is None <==> !(is_digits(sid@) && digits_value(sid@) <= u64::MAX),
{
    match parse_msgid(sid.as_str()) {
        Some(n) => Some(msgid_from_u64(n)),
        None => None,
    }
}

} // verus!
