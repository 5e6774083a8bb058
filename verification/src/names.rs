//! Text names of policies and path settings, their parsers, and the
//! messages of configuration errors.

use vstd::prelude::*;

verus! {

use vstd::string::{StrSliceExecFns, StringExecFns};
use crate::config::{ConfigError, PathActivation, PathReset, Policy};

/// The reasons a decimal `u32` can fail to parse.
#[derive(Clone, Copy, Debug, PartialEq, Eq, Structural)]
pub enum DecimalError {
    /// The text is empty.
    Empty,
    /// A character is not a decimal digit.
    InvalidDigit,
    /// The value does not fit in 32 bits.
    PosOverflow,
}

/// Whether `c` is an ASCII decimal digit.
pub open spec fn is_digit(c: char) -> bool {
    48 <= (c as u32) <= 57
}

/// Value of a decimal digit.
pub open spec fn digit_value(c: char) -> int {
    (c as u32) - 48
}

/// Value of the first `k` characters of `s` read as decimal digits, left
/// to right, with the first failure winning.
pub open spec fn digits_u32(s: Seq<char>, k: int) -> Result<u32, DecimalError>
    decreases k,
{
    if k <= 0 {
        Ok(0u32)
    } else {
        match digits_u32(s, k - 1) {
            Err(error) => Err(error),
            Ok(value) => if !is_digit(s[k - 1]) {
                Err(DecimalError::InvalidDigit)
            } else if value * 10 + digit_value(s[k - 1]) > u32::MAX {
                Err(DecimalError::PosOverflow)
            } else {
                Ok((value * 10 + digit_value(s[k - 1])) as u32)
            },
        }
    }
}

/// The standard decimal reading of a `u32`: an optional leading `+`, then
/// at least one digit.
pub open spec fn parse_u32_spec(s: Seq<char>) -> Result<u32, DecimalError> {
    if s.len() == 0 {
        Err(DecimalError::Empty)
    } else if (s[0] == '+' || s[0] == '-') && s.len() == 1 {
        Err(DecimalError::InvalidDigit)
    } else if s[0] == '+' {
        digits_u32(s.drop_first(), s.len() - 1)
    } else {
        digits_u32(s, s.len() as int)
    }
}

/// The character of a decimal digit value.
pub open spec fn digit_char(d: int) -> char {
    (d + 48) as char
}

/// Decimal characters of `n`, most significant first, without leading
/// zeros.
pub open spec fn decimal_chars(n: nat) -> Seq<char>
    decreases n,
{
    if n < 10 {
        seq![digit_char(n as int)]
    } else {
        decimal_chars(n / 10).push(digit_char((n % 10) as int))
    }
}

/// Whether two strings hold the same characters.
fn same_text(a: &str, b: &str) -> (r: bool)
    ensures
        r == (a@ == b@),
{
    let length = a.unicode_len();
    if length != b.unicode_len() {
        return false;
    }
    let mut i: usize = 0;
    while i < length
        invariant
            length == a@.len(),
            length == b@.len(),
            i <= length,
            forall|j: int| 0 <= j < i ==> a@[j] == b@[j],
        decreases length - i,
    {
        if a.get_char(i) != b.get_char(i) {
            return false;
        }
        i += 1;
    }
    assert(a@ =~= b@);
    true
}

/// A failure at some position is the result of every longer reading.
proof fn lemma_digits_failure_sticks(s: Seq<char>, k: int, m: int)
    requires
        k <= m,
        digits_u32(s, k) is Err,
    ensures
        digits_u32(s, m) == digits_u32(s, k),
    decreases m - k,
{
    if k < m {
        lemma_digits_failure_sticks(s, k, m - 1);
    }
}

/// Parses a decimal `u32` as the standard library reads one.
pub fn parse_u32(text: &str) -> (r: Result<u32, DecimalError>)
    ensures
        r == parse_u32_spec(text@),
{
    let length = text.unicode_len();
    if length == 0 {
        return Err(DecimalError::Empty);
    }
    let lead = text.get_char(0);
    if (lead == '+' || lead == '-') && length == 1 {
        return Err(DecimalError::InvalidDigit);
    }
    let start: usize = if lead == '+' {
        1
    } else {
        0
    };
    let ghost digits = if lead == '+' {
        text@.drop_first()
    } else {
        text@
    };
    proof {
        assert(text@[0] == lead);
        assert(parse_u32_spec(text@) == digits_u32(digits, digits.len() as int));
    }
    let mut value: u32 = 0;
    let mut i: usize = start;
    while i < length
        invariant
            length == text@.len(),
            start <= i <= length,
            start == 0 || start == 1,
            start == 1 ==> digits == text@.drop_first(),
            start == 0 ==> digits == text@,
            parse_u32_spec(text@) == digits_u32(digits, digits.len() as int),
            digits.len() == length - start,
            digits_u32(digits, (i - start) as int) == Ok::<u32, DecimalError>(value),
        decreases length - i,
    {
        let c = text.get_char(i);
        proof {
            assert(digits[(i - start) as int] == c);
        }
        let code = c as u32;
        if code < 48 || code > 57 {
            proof {
                assert(!is_digit(digits[(i - start) as int]));
                assert(digits_u32(digits, (i - start + 1) as int) == Err::<u32, DecimalError>(DecimalError::InvalidDigit));
                lemma_digits_failure_sticks(digits, (i - start + 1) as int, digits.len() as int);
            }
            return Err(DecimalError::InvalidDigit);
        }
        let d = code - 48;
        if value > 429_496_729 || (value == 429_496_729 && d > 5) {
            proof {
                assert(is_digit(digits[(i - start) as int]));
                assert(value * 10 + digit_value(digits[(i - start) as int]) > u32::MAX);
                assert(digits_u32(digits, (i - start + 1) as int) == Err::<u32, DecimalError>(DecimalError::PosOverflow));
                lemma_digits_failure_sticks(digits, (i - start + 1) as int, digits.len() as int);
            }
            return Err(DecimalError::PosOverflow);
        }
        value = value * 10 + d;
        i += 1;
    }
    Ok(value)
}

/// The text of one decimal digit.
fn digit_text(d: u64) -> (r: &'static str)
    requires
        d < 10,
    ensures
        r@ == seq![digit_char(d as int)],
{
    proof {
        reveal_strlit("0");
        reveal_strlit("1");
        reveal_strlit("2");
        reveal_strlit("3");
        reveal_strlit("4");
        reveal_strlit("5");
        reveal_strlit("6");
        reveal_strlit("7");
        reveal_strlit("8");
        reveal_strlit("9");
    }
    match d {
        0 => "0",
        1 => "1",
        2 => "2",
        3 => "3",
        4 => "4",
        5 => "5",
        6 => "6",
        7 => "7",
        8 => "8",
        _ => "9",
    }
}

/// Decimal text of `n`, without leading zeros.
pub fn decimal_text(n: u64) -> (r: String)
    ensures
        r@ == decimal_chars(n as nat),
    decreases n,
{
    if n < 10 {
        String::from_str(digit_text(n))
    } else {
        let head = decimal_text(n / 10);
        head.concat(digit_text(n % 10))
    }
}

/// Name of a policy.
pub open spec fn policy_name(policy: Policy) -> Seq<char> {
    match policy {
        Policy::Random => "random"@,
        Policy::BetterChoice => "better_choice"@,
        Policy::Rotor => "rotor_queue"@,
        Policy::EvictionLabel => "eviction_label"@,
        Policy::Lsa => "lsa"@,
        Policy::CavityD4 => "cavity_d4"@,
        Policy::CavityScan => "cavity_scan"@,
        Policy::CavityBit => "cavity_bit"@,
        Policy::CavityRank4 => "cavity_rank4"@,
        Policy::CavityRank4Path => "cavity_rank4_path"@,
        Policy::DenseCavityRank4 => "dense_cr4"@,
        Policy::Bfs => "bfs"@,
    }
}

/// Name of a path reset mode.
pub open spec fn reset_name(reset: PathReset) -> Seq<char> {
    match reset {
        PathReset::Full => "full"@,
        PathReset::Sparse => "sparse"@,
        PathReset::Generational => "generational"@,
    }
}

/// Text of a path activation rule.
pub open spec fn activation_text_spec(activation: PathActivation) -> Seq<char> {
    match activation {
        PathActivation::After(step) => "after:"@ + decimal_chars(step as nat),
        PathActivation::NoDescent => "no_descent"@,
        PathActivation::Rank4Plateau => "rank4_plateau"@,
    }
}

/// Message of a decimal parse failure.
pub open spec fn decimal_error_message(error: DecimalError) -> Seq<char> {
    match error {
        DecimalError::Empty => "cannot parse integer from empty string"@,
        DecimalError::InvalidDigit => "invalid digit found in string"@,
        DecimalError::PosOverflow => "number too large to fit in target type"@,
    }
}

/// How a text reads as a path activation rule: `after:` followed by a
/// decimal step, or one of the two rule names.
pub open spec fn parse_activation_spec(text: Seq<char>) -> Result<PathActivation, Seq<char>> {
    if text.len() >= 6 && text.subrange(0, 6) == "after:"@ {
        match parse_u32_spec(text.subrange(6, text.len() as int)) {
            Ok(step) => Ok(PathActivation::After(step)),
            Err(error) => Err("invalid path activation "@ + text + ": "@ + decimal_error_message(error)),
        }
    } else if text == "no_descent"@ {
        Ok(PathActivation::NoDescent)
    } else if text == "rank4_plateau"@ {
        Ok(PathActivation::Rank4Plateau)
    } else {
        Err("unknown path activation: "@ + text)
    }
}

impl DecimalError {
    /// The failure's message.
    pub fn message(self) -> (r: &'static str)
        ensures
            r@ == decimal_error_message(self),
    {
        match self {
            DecimalError::Empty => "cannot parse integer from empty string",
            DecimalError::InvalidDigit => "invalid digit found in string",
            DecimalError::PosOverflow => "number too large to fit in target type",
        }
    }
}

impl Policy {
    /// The policy's name.
    pub fn name(self) -> (r: &'static str)
        ensures
            r@ == policy_name(self),
    {
        match self {
            Policy::Random => "random",
            Policy::BetterChoice => "better_choice",
            Policy::Rotor => "rotor_queue",
            Policy::EvictionLabel => "eviction_label",
            Policy::Lsa => "lsa",
            Policy::CavityD4 => "cavity_d4",
            Policy::CavityScan => "cavity_scan",
            Policy::CavityBit => "cavity_bit",
            Policy::CavityRank4 => "cavity_rank4",
            Policy::CavityRank4Path => "cavity_rank4_path",
            Policy::DenseCavityRank4 => "dense_cr4",
            Policy::Bfs => "bfs",
        }
    }

    /// Reads a policy from its name.
    pub fn parse(text: &str) -> (r: Result<Policy, String>)
        ensures
            match r {
                Ok(policy) => policy_name(policy) == text@,
                Err(message) => (forall|policy: Policy| policy_name(policy) != text@) && message@
                    == "unknown policy: "@ + text@,
            },
    {
        let candidates = [
            Policy::Random,
            Policy::BetterChoice,
            Policy::Rotor,
            Policy::EvictionLabel,
            Policy::Lsa,
            Policy::CavityD4,
            Policy::CavityScan,
            Policy::CavityBit,
            Policy::CavityRank4,
            Policy::CavityRank4Path,
            Policy::DenseCavityRank4,
            Policy::Bfs,
        ];
        let mut index: usize = 0;
        while index < 12
            invariant
                index <= 12,
                candidates@ == seq![
                    Policy::Random,
                    Policy::BetterChoice,
                    Policy::Rotor,
                    Policy::EvictionLabel,
                    Policy::Lsa,
                    Policy::CavityD4,
                    Policy::CavityScan,
                    Policy::CavityBit,
                    Policy::CavityRank4,
                    Policy::CavityRank4Path,
                    Policy::DenseCavityRank4,
                    Policy::Bfs,
                ],
                forall|j: int| 0 <= j < index ==> policy_name(#[trigger] candidates@[j]) != text@,
            decreases 12 - index,
        {
            let candidate = candidates[index];
            if same_text(text, candidate.name()) {
                return Ok(candidate);
            }
            index += 1;
        }
        proof {
            assert forall|policy: Policy| policy_name(policy) != text@ by {
                match policy {
                    Policy::Random => assert(candidates@[0] == policy),
                    Policy::BetterChoice => assert(candidates@[1] == policy),
                    Policy::Rotor => assert(candidates@[2] == policy),
                    Policy::EvictionLabel => assert(candidates@[3] == policy),
                    Policy::Lsa => assert(candidates@[4] == policy),
                    Policy::CavityD4 => assert(candidates@[5] == policy),
                    Policy::CavityScan => assert(candidates@[6] == policy),
                    Policy::CavityBit => assert(candidates@[7] == policy),
                    Policy::CavityRank4 => assert(candidates@[8] == policy),
                    Policy::CavityRank4Path => assert(candidates@[9] == policy),
                    Policy::DenseCavityRank4 => assert(candidates@[10] == policy),
                    Policy::Bfs => assert(candidates@[11] == policy),
                }
            }
        }
        Err(String::from_str("unknown policy: ").concat(text))
    }
}

impl PathReset {
    /// The reset mode's name.
    pub fn name(self) -> (r: &'static str)
        ensures
            r@ == reset_name(self),
    {
        match self {
            PathReset::Full => "full",
            PathReset::Sparse => "sparse",
            PathReset::Generational => "generational",
        }
    }

    /// Reads a reset mode from its name.
    pub fn parse(text: &str) -> (r: Result<PathReset, String>)
        ensures
            match r {
                Ok(reset) => reset_name(reset) == text@,
                Err(message) => (forall|reset: PathReset| reset_name(reset) != text@) && message@
                    == "unknown path reset: "@ + text@,
            },
    {
        if same_text(text, "full") {
            Ok(PathReset::Full)
        } else if same_text(text, "sparse") {
            Ok(PathReset::Sparse)
        } else if same_text(text, "generational") {
            Ok(PathReset::Generational)
        } else {
            proof {
                assert forall|reset: PathReset| reset_name(reset) != text@ by {
                    match reset {
                        PathReset::Full => {},
                        PathReset::Sparse => {},
                        PathReset::Generational => {},
                    }
                }
            }
            Err(String::from_str("unknown path reset: ").concat(text))
        }
    }
}

impl PathActivation {
    /// The rule's text: `after:N`, `no_descent` or `rank4_plateau`.
    pub fn text(self) -> (r: String)
        ensures
            r@ == activation_text_spec(self),
    {
        match self {
            PathActivation::After(step) => String::from_str("after:").concat(
                decimal_text(step as u64).as_str(),
            ),
            PathActivation::NoDescent => String::from_str("no_descent"),
            PathActivation::Rank4Plateau => String::from_str("rank4_plateau"),
        }
    }

    /// Reads a rule from its text.
    pub fn parse(text: &str) -> (r: Result<PathActivation, String>)
        ensures
            match parse_activation_spec(text@) {
                Ok(activation) => r == Ok::<PathActivation, String>(activation),
                Err(message) => r is Err && r->Err_0@ == message,
            },
    {
        proof {
            reveal_strlit("after:");
        }
        let length = text.unicode_len();
        if length >= 6 && same_text(text.substring_char(0, 6), "after:") {
            let step = text.substring_char(6, length);
            return match parse_u32(step) {
                Ok(value) => Ok(PathActivation::After(value)),
                Err(error) => Err(String::from_str("invalid path activation ").concat(text).concat(
                    ": ",
                ).concat(error.message())),
            };
        }
        if same_text(text, "no_descent") {
            Ok(PathActivation::NoDescent)
        } else if same_text(text, "rank4_plateau") {
            Ok(PathActivation::Rank4Plateau)
        } else {
            Err(String::from_str("unknown path activation: ").concat(text))
        }
    }
}

/// Message of a configuration error.
pub open spec fn config_error_message(error: ConfigError) -> Seq<char> {
    match error {
        ConfigError::BucketCount => "bucket count must be a power of two and at least two"@,
        ConfigError::BucketCountTooLarge => "bucket count must fit in 32-bit bucket indices"@,
        ConfigError::MaxKicks => "max_kicks must be greater than zero"@,
        ConfigError::BfsDepth => "bfs_depth must be greater than zero"@,
        ConfigError::PathBytes => "path sketch bytes must be 512 or 2048"@,
    }
}

impl ConfigError {
    /// The error's message.
    pub fn message(self) -> (r: &'static str)
        ensures
            r@ == config_error_message(self),
    {
        match self {
            ConfigError::BucketCount => "bucket count must be a power of two and at least two",
            ConfigError::BucketCountTooLarge => "bucket count must fit in 32-bit bucket indices",
            ConfigError::MaxKicks => "max_kicks must be greater than zero",
            ConfigError::BfsDepth => "bfs_depth must be greater than zero",
            ConfigError::PathBytes => "path sketch bytes must be 512 or 2048",
        }
    }
}

/// Decimal text has at least one character, and only digits.
proof fn lemma_decimal_chars_digits(n: nat)
    ensures
        decimal_chars(n).len() >= 1,
        forall|i: int| 0 <= i < decimal_chars(n).len() ==> is_digit(#[trigger] decimal_chars(n)[i]),
    decreases n,
{
    if n >= 10 {
        lemma_decimal_chars_digits(n / 10);
    }
}

/// Reading digits looks only at the characters it reads.
proof fn lemma_digits_prefix(s: Seq<char>, t: Seq<char>, k: int)
    requires
        0 <= k <= s.len(),
        k <= t.len(),
        forall|i: int| 0 <= i < k ==> s[i] == t[i],
    ensures
        digits_u32(s, k) == digits_u32(t, k),
    decreases k,
{
    if k > 0 {
        lemma_digits_prefix(s, t, k - 1);
    }
}

/// Decimal text of a 32-bit value reads back as that value.
pub proof fn lemma_decimal_round_trip(n: u32)
    ensures
        parse_u32_spec(decimal_chars(n as nat)) == Ok::<u32, DecimalError>(n),
{
    lemma_decimal_chars_digits(n as nat);
    lemma_digits_of_decimal(n as nat);
    let s = decimal_chars(n as nat);
    assert(is_digit(s[0]));
}

/// Reading all of the decimal text of `n` gives `n`.
proof fn lemma_digits_of_decimal(n: nat)
    requires
        n <= u32::MAX,
    ensures
        digits_u32(decimal_chars(n), decimal_chars(n).len() as int) == Ok::<u32, DecimalError>(n as u32),
    decreases n,
{
    let s = decimal_chars(n);
    if n < 10 {
        assert(digits_u32(s, 0) == Ok::<u32, DecimalError>(0u32));
        assert(s[0] == digit_char(n as int));
    } else {
        let head = decimal_chars(n / 10);
        lemma_digits_of_decimal(n / 10);
        lemma_decimal_chars_digits(n / 10);
        assert(s == head.push(digit_char((n % 10) as int)));
        lemma_digits_prefix(s, head, head.len() as int);
        assert(s[head.len() as int] == digit_char((n % 10) as int));
        assert((n / 10) * 10 + n % 10 == n);
    }
}

/// No two policies share a name, so the name of a policy parses back to
/// that policy.
pub proof fn lemma_policy_name_round_trip(policy: Policy, other: Policy)
    requires
        policy_name(other) == policy_name(policy),
    ensures
        other == policy,
{
    reveal_strlit("random");
    reveal_strlit("better_choice");
    reveal_strlit("rotor_queue");
    reveal_strlit("eviction_label");
    reveal_strlit("lsa");
    reveal_strlit("cavity_d4");
    reveal_strlit("cavity_scan");
    reveal_strlit("cavity_bit");
    reveal_strlit("cavity_rank4");
    reveal_strlit("cavity_rank4_path");
    reveal_strlit("dense_cr4");
    reveal_strlit("bfs");
    if other != policy {
        let a = policy_name(policy);
        let b = policy_name(other);
        if a.len() == b.len() {
            assert(exists|i: int| 0 <= i < a.len() && a[i] != b[i]) by {
                assert(a[0] != b[0] || a[1] != b[1] || a[2] != b[2] || a[7] != b[7] || a[8] != b[8] || a[11] != b[11]);
            }
        }
    }
}

/// No two reset modes share a name, so the name of a reset mode parses
/// back to that mode.
pub proof fn lemma_reset_name_round_trip(reset: PathReset, other: PathReset)
    requires
        reset_name(other) == reset_name(reset),
    ensures
        other == reset,
{
    reveal_strlit("full");
    reveal_strlit("sparse");
    reveal_strlit("generational");
    assert("full"@.len() == 4 && "sparse"@.len() == 6 && "generational"@.len() == 12);
    match reset {
        PathReset::Full => {},
        PathReset::Sparse => {},
        PathReset::Generational => {},
    }
    match other {
        PathReset::Full => {},
        PathReset::Sparse => {},
        PathReset::Generational => {},
    }
}

/// The text of an activation rule parses back to that rule.
pub proof fn lemma_activation_round_trip(activation: PathActivation)
    ensures
        parse_activation_spec(activation_text_spec(activation)) == Ok::<PathActivation, Seq<char>>(activation),
{
    reveal_strlit("after:");
    reveal_strlit("no_descent");
    reveal_strlit("rank4_plateau");
    let text = activation_text_spec(activation);
    match activation {
        PathActivation::After(step) => {
            let digits = decimal_chars(step as nat);
            assert(text.subrange(0, 6) =~= "after:"@);
            assert(text.subrange(6, text.len() as int) =~= digits);
            lemma_decimal_round_trip(step);
        },
        PathActivation::NoDescent => {
            assert(text.subrange(0, 6)[0] != "after:"@[0]);
        },
        PathActivation::Rank4Plateau => {
            assert(text.subrange(0, 6)[0] != "after:"@[0]);
        },
    }
}

/// The documented policy names, character by character: each of the twelve
/// policies is named, printed and parsed by exactly this text.
pub proof fn law_policy_names()
    ensures
        policy_name(Policy::Random) =~= seq!['r', 'a', 'n', 'd', 'o', 'm'],
        policy_name(Policy::BetterChoice) =~= seq!['b', 'e', 't', 't', 'e', 'r', '_', 'c', 'h', 'o', 'i', 'c', 'e'],
        policy_name(Policy::Rotor) =~= seq!['r', 'o', 't', 'o', 'r', '_', 'q', 'u', 'e', 'u', 'e'],
        policy_name(Policy::EvictionLabel) =~= seq!['e', 'v', 'i', 'c', 't', 'i', 'o', 'n', '_', 'l', 'a', 'b', 'e', 'l'],
        policy_name(Policy::Lsa) =~= seq!['l', 's', 'a'],
        policy_name(Policy::CavityD4) =~= seq!['c', 'a', 'v', 'i', 't', 'y', '_', 'd', '4'],
        policy_name(Policy::CavityScan) =~= seq!['c', 'a', 'v', 'i', 't', 'y', '_', 's', 'c', 'a', 'n'],
        policy_name(Policy::CavityBit) =~= seq!['c', 'a', 'v', 'i', 't', 'y', '_', 'b', 'i', 't'],
        policy_name(Policy::CavityRank4) =~= seq!['c', 'a', 'v', 'i', 't', 'y', '_', 'r', 'a', 'n', 'k', '4'],
        policy_name(Policy::CavityRank4Path) =~= seq!['c', 'a', 'v', 'i', 't', 'y', '_', 'r', 'a', 'n', 'k', '4', '_', 'p', 'a', 't', 'h'],
        policy_name(Policy::DenseCavityRank4) =~= seq!['d', 'e', 'n', 's', 'e', '_', 'c', 'r', '4'],
        policy_name(Policy::Bfs) =~= seq!['b', 'f', 's'],
{
    reveal_strlit("random");
    reveal_strlit("better_choice");
    reveal_strlit("rotor_queue");
    reveal_strlit("eviction_label");
    reveal_strlit("lsa");
    reveal_strlit("cavity_d4");
    reveal_strlit("cavity_scan");
    reveal_strlit("cavity_bit");
    reveal_strlit("cavity_rank4");
    reveal_strlit("cavity_rank4_path");
    reveal_strlit("dense_cr4");
    reveal_strlit("bfs");
}

/// The documented reset mode names, character by character.
pub proof fn law_reset_names()
    ensures
        reset_name(PathReset::Full) =~= seq!['f', 'u', 'l', 'l'],
        reset_name(PathReset::Sparse) =~= seq!['s', 'p', 'a', 'r', 's', 'e'],
        reset_name(PathReset::Generational) =~= seq!['g', 'e', 'n', 'e', 'r', 'a', 't', 'i', 'o', 'n', 'a', 'l'],
{
    reveal_strlit("full");
    reveal_strlit("sparse");
    reveal_strlit("generational");
}

/// The documented activation rule texts, character by character: `after:`
/// followed by the step in decimal, `no_descent` and `rank4_plateau`.
pub proof fn law_activation_texts(step: u32)
    ensures
        activation_text_spec(PathActivation::After(step)) =~= seq!['a', 'f', 't', 'e', 'r', ':'] + decimal_chars(step as nat),
        activation_text_spec(PathActivation::NoDescent) =~= seq!['n', 'o', '_', 'd', 'e', 's', 'c', 'e', 'n', 't'],
        activation_text_spec(PathActivation::Rank4Plateau) =~= seq!['r', 'a', 'n', 'k', '4', '_', 'p', 'l', 'a', 't', 'e', 'a', 'u'],
{
    reveal_strlit("after:");
    reveal_strlit("no_descent");
    reveal_strlit("rank4_plateau");
}

/// The documented configuration error messages, character by character.
pub proof fn law_config_error_messages()
    ensures
        config_error_message(ConfigError::BucketCount) =~= seq!['b', 'u', 'c', 'k', 'e', 't', ' ', 'c', 'o', 'u', 'n', 't', ' ', 'm', 'u', 's', 't', ' ', 'b', 'e', ' ', 'a', ' ', 'p', 'o', 'w', 'e', 'r', ' ', 'o', 'f', ' ', 't', 'w', 'o', ' ', 'a', 'n', 'd', ' ', 'a', 't', ' ', 'l', 'e', 'a', 's', 't', ' ', 't', 'w', 'o'],
        config_error_message(ConfigError::BucketCountTooLarge) =~= seq!['b', 'u', 'c', 'k', 'e', 't', ' ', 'c', 'o', 'u', 'n', 't', ' ', 'm', 'u', 's', 't', ' ', 'f', 'i', 't', ' ', 'i', 'n', ' ', '3', '2', '-', 'b', 'i', 't', ' ', 'b', 'u', 'c', 'k', 'e', 't', ' ', 'i', 'n', 'd', 'i', 'c', 'e', 's'],
        config_error_message(ConfigError::MaxKicks) =~= seq!['m', 'a', 'x', '_', 'k', 'i', 'c', 'k', 's', ' ', 'm', 'u', 's', 't', ' ', 'b', 'e', ' ', 'g', 'r', 'e', 'a', 't', 'e', 'r', ' ', 't', 'h', 'a', 'n', ' ', 'z', 'e', 'r', 'o'],
        config_error_message(ConfigError::BfsDepth) =~= seq!['b', 'f', 's', '_', 'd', 'e', 'p', 't', 'h', ' ', 'm', 'u', 's', 't', ' ', 'b', 'e', ' ', 'g', 'r', 'e', 'a', 't', 'e', 'r', ' ', 't', 'h', 'a', 'n', ' ', 'z', 'e', 'r', 'o'],
        config_error_message(ConfigError::PathBytes) =~= seq!['p', 'a', 't', 'h', ' ', 's', 'k', 'e', 't', 'c', 'h', ' ', 'b', 'y', 't', 'e', 's', ' ', 'm', 'u', 's', 't', ' ', 'b', 'e', ' ', '5', '1', '2', ' ', 'o', 'r', ' ', '2', '0', '4', '8'],
{
    reveal_strlit("bucket count must be a power of two and at least two");
    reveal_strlit("bucket count must fit in 32-bit bucket indices");
    reveal_strlit("max_kicks must be greater than zero");
    reveal_strlit("bfs_depth must be greater than zero");
    reveal_strlit("path sketch bytes must be 512 or 2048");
}

/// The decimal parse error messages, character by character, as std words
/// them.
pub proof fn law_decimal_error_messages()
    ensures
        decimal_error_message(DecimalError::Empty) =~= seq!['c', 'a', 'n', 'n', 'o', 't', ' ', 'p', 'a', 'r', 's', 'e', ' ', 'i', 'n', 't', 'e', 'g', 'e', 'r', ' ', 'f', 'r', 'o', 'm', ' ', 'e', 'm', 'p', 't', 'y', ' ', 's', 't', 'r', 'i', 'n', 'g'],
        decimal_error_message(DecimalError::InvalidDigit) =~= seq!['i', 'n', 'v', 'a', 'l', 'i', 'd', ' ', 'd', 'i', 'g', 'i', 't', ' ', 'f', 'o', 'u', 'n', 'd', ' ', 'i', 'n', ' ', 's', 't', 'r', 'i', 'n', 'g'],
        decimal_error_message(DecimalError::PosOverflow) =~= seq!['n', 'u', 'm', 'b', 'e', 'r', ' ', 't', 'o', 'o', ' ', 'l', 'a', 'r', 'g', 'e', ' ', 't', 'o', ' ', 'f', 'i', 't', ' ', 'i', 'n', ' ', 't', 'a', 'r', 'g', 'e', 't', ' ', 't', 'y', 'p', 'e'],
{
    reveal_strlit("cannot parse integer from empty string");
    reveal_strlit("invalid digit found in string");
    reveal_strlit("number too large to fit in target type");
}

} // verus!
