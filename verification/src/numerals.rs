//! Writing numbers as decimal or hexadecimal digits, and reading
//! hexadecimal numbers back.
use vstd::prelude::*;
use vstd::string::*;

verus! {

/// The character of the digit `d` (below 16); letters in upper or lower case.
pub open spec fn digit_char(d: nat, upper: bool) -> char {
    if d < 10 {
        (('0' as nat) + d) as char
    } else if upper {
        (('A' as nat) + d - 10) as char
    } else {
        (('a' as nat) + d - 10) as char
    }
}

/// The digits of `v` in base `base` (10 or 16), most significant first,
/// without leading zeros; 0 is written `0`.
pub open spec fn digits(v: nat, base: nat, upper: bool) -> Seq<char>
    recommends
        base == 10 || base == 16,
    decreases v,
{
    if base < 2 || v < base {
        seq![digit_char(v, upper)]
    } else {
        proof {
            vstd::arithmetic::div_mod::lemma_div_decreases(v as int, base as int);
        }
        digits(v / base, base, upper).push(digit_char(v % base, upper))
    }
}

/// The value of a hexadecimal digit, if the character is one (either case).
pub open spec fn hex_digit_value(c: char) -> Option<nat> {
    if '0' <= c <= '9' {
        Some((c as nat - '0' as nat) as nat)
    } else if 'a' <= c <= 'f' {
        Some((c as nat - 'a' as nat + 10) as nat)
    } else if 'A' <= c <= 'F' {
        Some((c as nat - 'A' as nat + 10) as nat)
    } else {
        None
    }
}

/// Whether every character is a hexadecimal digit.
pub open spec fn all_hex_digits(s: Seq<char>) -> bool {
    forall|i: int| 0 <= i < s.len() ==> #[trigger] hex_digit_value(s[i]) is Some
}

/// The value of a string of hexadecimal digits.
pub open spec fn hex_value(s: Seq<char>) -> nat
    decreases s.len(),
{
    if s.len() == 0 {
        0
    } else {
        hex_value(s.drop_last()) * 16 + hex_digit_value(s.last()).unwrap_or(0)
    }
}

/// The digits of a number: what follows an optional leading `+`.
pub open spec fn unsigned_body(s: Seq<char>) -> Seq<char> {
    if s.len() > 0 && s[0] == '+' {
        s.drop_first()
    } else {
        s
    }
}

/// A hexadecimal number, read as a `usize` is read: an optional `+`, then at
/// least one hexadecimal digit, of a value that fits in a `usize`.
pub open spec fn parse_hex(s: Seq<char>) -> Option<u64> {
    let body = unsigned_body(s);
    if body.len() > 0 && all_hex_digits(body) && hex_value(body) <= usize::MAX {
        Some(hex_value(body) as u64)
    } else {
        None
    }
}

/// A longer prefix of a string of digits has at least the value of a
/// shorter one.
proof fn lemma_hex_value_prefix(s: Seq<char>, k: int)
    requires
        0 <= k <= s.len(),
    ensures
        hex_value(s.take(k)) <= hex_value(s),
    decreases s.len() - k,
{
    if k < s.len() {
        lemma_hex_value_prefix(s, k + 1);
        assert(s.take(k + 1).drop_last() =~= s.take(k));
    } else {
        assert(s.take(k) =~= s);
    }
}

/// The value of a hexadecimal digit character.
fn hex_digit(c: char) -> (r: Option<u64>)
    ensures
        r matches Some(d) ==> hex_digit_value(c) == Some(d as nat) && d < 16,
        r is None ==> hex_digit_value(c) is None,
{
    if '0' <= c && c <= '9' {
        Some((c as u32 - '0' as u32) as u64)
    } else if 'a' <= c && c <= 'f' {
        Some((c as u32 - 'a' as u32 + 10) as u64)
    } else if 'A' <= c && c <= 'F' {
        Some((c as u32 - 'A' as u32 + 10) as u64)
    } else {
        None
    }
}

/// The characters of a string.
pub fn chars_of(s: &str) -> (r: Vec<char>)
    ensures
        r@ == s@,
{
    let n = s.unicode_len();
    let mut r: Vec<char> = Vec::new();
    let mut i: usize = 0;
    while i < n
        invariant
            n == s@.len(),
            i <= n,
            r@ == s@.take(i as int),
        decreases n - i,
    {
        r.push(s.get_char(i));
        assert(r@ =~= s@.take(i + 1));
        i = i + 1;
    }
    assert(s@.take(n as int) =~= s@);
    r
}

/// Reads a hexadecimal number as a `usize` is read (see `parse_hex`).
pub fn read_hex(s: &[char]) -> (r: Option<u64>)
    ensures
        r == parse_hex(s@),
{
    let start: usize = if s.len() > 0 && s[0] == '+' {
        1
    } else {
        0
    };
    let ghost body = unsigned_body(s@);
    assert(body =~= s@.skip(start as int));
    if start == s.len() {
        return None;
    }
    let mut value: usize = 0;
    let mut i: usize = start;
    while i < s.len()
        invariant
            start <= i <= s@.len(),
            body == unsigned_body(s@),
            body == s@.skip(start as int),
            body.len() > 0,
            value as nat == hex_value(body.take(i - start)),
            all_hex_digits(body.take(i - start)),
        decreases s@.len() - i,
    {
        let k = i - start;
        proof {
            assert(body.take(k + 1).drop_last() =~= body.take(k as int));
            assert(body.take(k + 1).last() == s@[i as int]);
        }
        let d = match hex_digit(s[i]) {
            Some(d) => d,
            None => {
                assert(!all_hex_digits(body)) by {
                    assert(body[k as int] == s@[i as int]);
                }
                return None;
            },
        };
        let next = match value.checked_mul(16) {
            Some(shifted) => shifted.checked_add(d as usize),
            None => None,
        };
        match next {
            Some(v) => {
                value = v;
            },
            None => {
                proof {
                    lemma_hex_value_prefix(body, k + 1);
                    assert(hex_value(body.take(k + 1)) == value * 16 + d);
                }
                return None;
            },
        }
        proof {
            assert forall|j: int| 0 <= j < k + 1 implies #[trigger] hex_digit_value(
                body.take(k + 1)[j],
            ) is Some by {
                if j < k {
                    assert(body.take(k + 1)[j] == body.take(k as int)[j]);
                }
            }
        }
        i = i + 1;
    }
    assert(body.take(i - start) =~= body);
    Some(value as u64)
}

/// The digit characters of a base.
fn digit_str(d: u64, upper: bool) -> (r: &'static str)
    requires
        d < 16,
    ensures
        r@ == seq![digit_char(d as nat, upper)],
{
    let table = if upper {
        "0123456789ABCDEF"
    } else {
        "0123456789abcdef"
    };
    proof {
        reveal_strlit("0123456789ABCDEF");
        reveal_strlit("0123456789abcdef");
    }
    let r = table.substring_char(d as usize, (d + 1) as usize);
    assert(r@ =~= seq![digit_char(d as nat, upper)]);
    r
}

/// Appends the digits of `v` in base `base` (10 or 16).
pub fn push_digits(out: &mut String, v: u64, base: u64, upper: bool)
    requires
        base == 10 || base == 16,
    ensures
        final(out)@ == old(out)@ + digits(v as nat, base as nat, upper),
    decreases v,
{
    if v >= base {
        push_digits(out, v / base, base, upper);
    }
    let d = v % base;
    out.append(digit_str(d, upper));
    proof {
        assert((v / base) as nat == v as nat / base as nat);
        assert(d as nat == v as nat % base as nat);
    }
}

/// The digits of `v` in base `base` (10 or 16).
pub fn to_digits(v: u64, base: u64, upper: bool) -> (r: String)
    requires
        base == 10 || base == 16,
    ensures
        r@ == digits(v as nat, base as nat, upper),
{
    let mut out = String::new();
    push_digits(&mut out, v, base, upper);
    assert(out@ =~= digits(v as nat, base as nat, upper));
    out
}

/// A digit character reads back as its digit, and is neither a sign nor a
/// separator.
proof fn lemma_digit_char(d: nat, upper: bool)
    requires
        d < 16,
    ensures
        hex_digit_value(digit_char(d, upper)) == Some(d),
        digit_char(d, upper) != ':',
        digit_char(d, upper) != '+',
{
}

/// The hexadecimal digits of a number read back as the number, and hold
/// neither a sign nor a separator.
pub proof fn lemma_hex_digits_read_back(v: nat, upper: bool)
    ensures
        digits(v, 16, upper).len() > 0,
        all_hex_digits(digits(v, 16, upper)),
        hex_value(digits(v, 16, upper)) == v,
        !digits(v, 16, upper).contains(':'),
        digits(v, 16, upper)[0] != '+',
    decreases v,
{
    let s = digits(v, 16, upper);
    if v < 16 {
        lemma_digit_char(v, upper);
        assert(s == seq![digit_char(v, upper)]);
        assert(s.drop_last() =~= Seq::<char>::empty());
        assert(hex_value(s) == hex_value(s.drop_last()) * 16 + hex_digit_value(s.last()).unwrap_or(0));
    } else {
        vstd::arithmetic::div_mod::lemma_div_decreases(v as int, 16);
        lemma_hex_digits_read_back(v / 16, upper);
        lemma_digit_char(v % 16, upper);
        let front = digits(v / 16, 16, upper);
        assert(s == front.push(digit_char(v % 16, upper)));
        assert(s.drop_last() =~= front);
        assert(s.last() == digit_char(v % 16, upper));
        assert(hex_value(s) == hex_value(front) * 16 + (v % 16));
        assert(v == (v / 16) * 16 + v % 16) by {
            vstd::arithmetic::div_mod::lemma_fundamental_div_mod(v as int, 16);
        }
        assert forall|i: int| 0 <= i < s.len() implies #[trigger] hex_digit_value(s[i]) is Some by {
            if i < front.len() {
                assert(s[i] == front[i]);
            }
        }
        assert(!s.contains(':')) by {
            if s.contains(':') {
                let i = choose|i: int| 0 <= i < s.len() && s[i] == ':';
                if i < front.len() {
                    assert(front[i] == ':');
                }
            }
        }
        assert(s[0] == front[0]);
    }
}

/// Reading the hexadecimal digits of a number that fits in a `usize` gives
/// the number back.
pub proof fn lemma_parse_hex_digits(v: nat, upper: bool)
    requires
        v <= usize::MAX,
    ensures
        parse_hex(digits(v, 16, upper)) == Some(v as u64),
{
    lemma_hex_digits_read_back(v, upper);
    assert(unsigned_body(digits(v, 16, upper)) == digits(v, 16, upper));
}

} // verus!
