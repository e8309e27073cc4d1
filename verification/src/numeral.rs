//! Decimal and hexadecimal numerals over characters.
use vstd::prelude::*;

verus! {

/// Ten to the power `n`.
pub open spec fn pow10(n: nat) -> nat
    decreases n,
{
    if n == 0 {
        1
    } else {
        10 * pow10((n - 1) as nat)
    }
}

/// Sixteen to the power `n`.
pub open spec fn pow16(n: nat) -> nat
    decreases n,
{
    if n == 0 {
        1
    } else {
        16 * pow16((n - 1) as nat)
    }
}

/// Whether `c` is one of `0` to `9`.
pub open spec fn is_digit(c: char) -> bool {
    '0' <= c <= '9'
}

/// The number that a decimal digit stands for.
pub open spec fn digit_value(c: char) -> nat {
    (c as int - '0' as int) as nat
}

/// The decimal digit for a number below ten.
pub open spec fn digit_char(d: nat) -> char {
    ('0' as int + d) as char
}

/// Whether every character is a decimal digit.
pub open spec fn all_digits(s: Seq<char>) -> bool {
    forall|i: int| 0 <= i < s.len() ==> is_digit(#[trigger] s[i])
}

/// The value of a run of decimal digits, most significant first.
pub open spec fn dec_value(s: Seq<char>) -> nat
    decreases s.len(),
{
    if s.len() == 0 {
        0
    } else {
        10 * dec_value(s.drop_last()) + digit_value(s.last())
    }
}

/// The shortest decimal numeral of `n`.
pub open spec fn dec_text(n: nat) -> Seq<char>
    decreases n,
{
    if n < 10 {
        seq![digit_char(n)]
    } else {
        dec_text(n / 10).push(digit_char(n % 10))
    }
}

/// The low `width` decimal digits of `n`, padded with zeros on the left.
pub open spec fn dec_fixed(n: nat, width: nat) -> Seq<char>
    decreases width,
{
    if width == 0 {
        Seq::empty()
    } else {
        dec_fixed(n / 10, (width - 1) as nat).push(digit_char(n % 10))
    }
}

/// A numeral without superfluous leading zeros.
pub open spec fn is_shortest(s: Seq<char>) -> bool {
    &&& all_digits(s)
    &&& s.len() > 0
    &&& s.len() > 1 ==> s[0] != '0'
}

pub proof fn lemma_pow10_positive(n: nat)
    ensures
        pow10(n) >= 1,
    decreases n,
{
    if n > 0 {
        lemma_pow10_positive((n - 1) as nat);
    }
}

pub proof fn lemma_pow10_add(a: nat, b: nat)
    ensures
        pow10(a + b) == pow10(a) * pow10(b),
    decreases a,
{
    if a > 0 {
        lemma_pow10_add((a - 1) as nat, b);
        assert((a + b - 1) as nat == (a - 1) as nat + b);
        let x = pow10((a - 1) as nat);
        let y = pow10(b);
        assert(10 * (x * y) == (10 * x) * y) by (nonlinear_arith);
        assert(pow10(a + b) == 10 * pow10((a + b - 1) as nat));
    } else {
        assert(1 * pow10(b) == pow10(b));
        assert(pow10(0) == 1);
    }
}

pub proof fn lemma_dec_value_bound(s: Seq<char>)
    requires
        all_digits(s),
    ensures
        dec_value(s) < pow10(s.len()),
    decreases s.len(),
{
    if s.len() > 0 {
        assert(all_digits(s.drop_last()));
        lemma_dec_value_bound(s.drop_last());
        assert(is_digit(s[s.len() - 1]));
    }
}

pub proof fn lemma_dec_value_concat(a: Seq<char>, b: Seq<char>)
    ensures
        dec_value(a + b) == dec_value(a) * pow10(b.len()) + dec_value(b),
    decreases b.len(),
{
    if b.len() == 0 {
        assert(a + b =~= a);
        assert(dec_value(a) * 1 == dec_value(a));
    } else {
        assert((a + b).drop_last() =~= a + b.drop_last());
        assert((a + b).last() == b.last());
        lemma_dec_value_concat(a, b.drop_last());
        let x = dec_value(a);
        let y = pow10((b.len() - 1) as nat);
        assert(10 * (x * y) == x * (10 * y)) by (nonlinear_arith);
        assert(pow10(b.len()) == 10 * y);
        assert(dec_value(a + b) == 10 * dec_value(a + b.drop_last()) + digit_value(b.last()));
    }
}

/// Leading zeros do not change the value.
pub proof fn lemma_dec_value_zeros(zeros: Seq<char>)
    requires
        forall|i: int| 0 <= i < zeros.len() ==> zeros[i] == '0',
    ensures
        dec_value(zeros) == 0,
    decreases zeros.len(),
{
    if zeros.len() > 0 {
        lemma_dec_value_zeros(zeros.drop_last());
    }
}

pub proof fn lemma_dec_text(n: nat)
    ensures
        is_shortest(dec_text(n)),
        dec_value(dec_text(n)) == n,
        n > 0 ==> dec_text(n)[0] != '0',
    decreases n,
{
    if n < 10 {
        let s = seq![digit_char(n)];
        assert(s.drop_last() =~= Seq::<char>::empty());
        assert(s.last() == digit_char(n));
        assert(dec_value(Seq::<char>::empty()) == 0);
    } else {
        lemma_dec_text(n / 10);
        let head = dec_text(n / 10);
        let s = head.push(digit_char(n % 10));
        assert(s.drop_last() =~= head);
        assert(s[0] == head[0]);
    }
}

/// A numeral without superfluous zeros is the shortest numeral of its value.
pub proof fn lemma_shortest_unique(s: Seq<char>)
    requires
        is_shortest(s),
    ensures
        dec_text(dec_value(s)) == s,
        s.len() > 1 ==> dec_value(s) >= 10,
    decreases s.len(),
{
    if s.len() == 1 {
        assert(s.drop_last().len() == 0);
        assert(dec_value(s.drop_last()) == 0);
        assert(s =~= seq![digit_char(dec_value(s))]);
    } else {
        let head = s.drop_last();
        assert(is_shortest(head));
        lemma_shortest_unique(head);
        assert(is_digit(s.last()));
        if head.len() == 1 {
            assert(head.drop_last().len() == 0);
            assert(head[0] == s[0]);
        }
        assert(dec_value(head) >= 1);
        assert(dec_value(s) / 10 == dec_value(head));
        assert(dec_value(s) % 10 == digit_value(s.last()));
        assert(s =~= head.push(s.last()));
    }
}

pub proof fn lemma_dec_fixed(n: nat, width: nat)
    requires
        n < pow10(width),
    ensures
        dec_fixed(n, width).len() == width,
        all_digits(dec_fixed(n, width)),
        dec_value(dec_fixed(n, width)) == n,
    decreases width,
{
    if width > 0 {
        assert(n / 10 < pow10((width - 1) as nat));
        lemma_dec_fixed(n / 10, (width - 1) as nat);
        let head = dec_fixed(n / 10, (width - 1) as nat);
        assert(dec_fixed(n, width).drop_last() =~= head);
    }
}

/// The differences of two values, either way round, are written in digits.
pub proof fn lemma_shortest_difference(a: Seq<char>, b: Seq<char>)
    ensures
        dec_value(a) >= dec_value(b) ==> ({
            let d = (dec_value(a) - dec_value(b)) as nat;
            all_digits(dec_text(d)) && dec_value(dec_text(d)) == d
        }),
        dec_value(b) >= dec_value(a) ==> ({
            let d = (dec_value(b) - dec_value(a)) as nat;
            all_digits(dec_text(d)) && dec_value(dec_text(d)) == d
        }),
{
    if dec_value(a) >= dec_value(b) {
        lemma_dec_text((dec_value(a) - dec_value(b)) as nat);
    }
    if dec_value(b) >= dec_value(a) {
        lemma_dec_text((dec_value(b) - dec_value(a)) as nat);
    }
}

/// A run of digits is the fixed-width numeral of its value.
pub proof fn lemma_dec_fixed_unique(s: Seq<char>)
    requires
        all_digits(s),
    ensures
        dec_fixed(dec_value(s), s.len()) == s,
    decreases s.len(),
{
    if s.len() > 0 {
        let head = s.drop_last();
        assert(all_digits(head));
        lemma_dec_fixed_unique(head);
        assert(is_digit(s.last()));
        assert(dec_value(s) / 10 == dec_value(head));
        assert(s =~= head.push(s.last()));
    } else {
        assert(s =~= Seq::empty());
    }
}

/// Twenty digits hold every 64-bit number.
pub proof fn lemma_twenty_digits()
    ensures
        pow10(20) == 100_000_000_000_000_000_000,
        u64::MAX < pow10(20),
{
    reveal_with_fuel(pow10, 21);
}

/// The decimal digit for a number below ten.
pub fn digit(d: u8) -> (c: char)
    requires
        d < 10,
    ensures
        c == digit_char(d as nat),
{
    (48u8 + d) as char
}

/// Writes `n` in decimal.
pub fn decimal(n: u64) -> (r: String)
    ensures
        r@ == dec_text(n as nat),
    decreases n,
{
    let mut r = if n < 10 {
        String::new()
    } else {
        decimal(n / 10)
    };
    r.push(digit((n % 10) as u8));
    assert(n < 10 ==> r@ =~= seq![digit_char(n as nat)]);
    r
}

/// Writes `n` in exactly `width` decimal digits, padded with zeros on the left.
pub fn fixed_decimal(n: u64, width: usize) -> (r: String)
    requires
        n < pow10(width as nat),
    ensures
        r@ == dec_fixed(n as nat, width as nat),
    decreases width,
{
    if width == 0 {
        String::new()
    } else {
        assert(n / 10 < pow10((width - 1) as nat));
        let mut r = fixed_decimal(n / 10, width - 1);
        r.push(digit((n % 10) as u8));
        r
    }
}

/// Whether `c` is one of `0` to `9`.
pub fn is_digit_char(c: char) -> (r: bool)
    ensures
        r == is_digit(c),
{
    '0' <= c && c <= '9'
}

/// Whether every character is a decimal digit.
pub fn are_digits(s: &[char]) -> (r: bool)
    ensures
        r == all_digits(s@),
{
    for i in 0..s.len()
        invariant
            forall|j: int| 0 <= j < i ==> is_digit(#[trigger] s@[j]),
    {
        if !is_digit_char(s[i]) {
            assert(!is_digit(s@[i as int]));
            return false;
        }
    }
    true
}

/// The number below `limit + 1` that a run of decimal digits stands for.
pub open spec fn bounded_value(s: Seq<char>, limit: int) -> Option<nat> {
    if dec_value(s) <= limit {
        Some(dec_value(s))
    } else {
        None
    }
}

proof fn lemma_dec_value_grows(s: Seq<char>, k: int)
    requires
        0 <= k <= s.len(),
    ensures
        dec_value(s.take(k)) <= dec_value(s),
    decreases s.len() - k,
{
    if k == s.len() {
        assert(s.take(k) =~= s);
    } else {
        lemma_dec_value_grows(s, k + 1);
        assert(s.take(k + 1).drop_last() =~= s.take(k));
    }
}

/// Reads a run of decimal digits; `None` where the value exceeds 64 bits.
pub fn read_decimal(s: &[char]) -> (r: Option<u64>)
    requires
        all_digits(s@),
    ensures
        match r {
            Some(v) => bounded_value(s@, u64::MAX as int) == Some(v as nat),
            None => bounded_value(s@, u64::MAX as int) is None,
        },
{
    let mut v: u64 = 0;
    for i in 0..s.len()
        invariant
            all_digits(s@),
            v == dec_value(s@.take(i as int)),
    {
        proof {
            assert(is_digit(s@[i as int]));
            assert(s@.take(i + 1).drop_last() =~= s@.take(i as int));
            lemma_dec_value_grows(s@, i + 1);
        }
        let d: u64 = (s[i] as u32 - 48) as u64;
        if v > (u64::MAX - d) / 10 {
            return None;
        }
        v = v * 10 + d;
    }
    assert(s@.take(s@.len() as int) =~= s@);
    Some(v)
}

/// What follows an optional leading plus sign.
pub open spec fn unsigned_part(s: Seq<char>) -> Seq<char> {
    if s.len() > 0 && s[0] == '+' {
        s.drop_first()
    } else {
        s
    }
}

/// The value of a decimal field: an optional plus sign, then at least one digit
/// and nothing else, with a value of at most `limit`.
pub open spec fn decimal_field(s: Seq<char>, limit: int) -> Option<nat> {
    let digits = unsigned_part(s);
    if digits.len() > 0 && all_digits(digits) {
        bounded_value(digits, limit)
    } else {
        None
    }
}

/// Reads a decimal field as a machine-size number.
pub fn read_decimal_field(s: &[char]) -> (r: Option<usize>)
    ensures
        match r {
            Some(v) => decimal_field(s@, usize::MAX as int) == Some(v as nat),
            None => decimal_field(s@, usize::MAX as int) is None,
        },
{
    let start: usize = if s.len() > 0 && s[0] == '+' {
        1
    } else {
        0
    };
    let digits = vstd::slice::slice_subrange(s, start, s.len());
    assert(digits@ =~= unsigned_part(s@));
    if digits.len() == 0 || !are_digits(digits) {
        return None;
    }
    match read_decimal(digits) {
        Some(v) => {
            if v <= usize::MAX as u64 {
                Some(v as usize)
            } else {
                None
            }
        },
        None => None,
    }
}

/// The number that a hexadecimal digit stands for, in either case.
pub open spec fn hex_digit_value(c: char) -> Option<nat> {
    if '0' <= c <= '9' {
        Some((c as int - '0' as int) as nat)
    } else if 'a' <= c <= 'f' {
        Some((c as int - 'a' as int + 10) as nat)
    } else if 'A' <= c <= 'F' {
        Some((c as int - 'A' as int + 10) as nat)
    } else {
        None
    }
}

/// Whether every character is a hexadecimal digit.
pub open spec fn all_hex(s: Seq<char>) -> bool {
    forall|i: int| 0 <= i < s.len() ==> hex_digit_value(#[trigger] s[i]) is Some
}

/// The value of a run of hexadecimal digits, most significant first.
pub open spec fn hex_value(s: Seq<char>) -> nat
    decreases s.len(),
{
    if s.len() == 0 {
        0
    } else {
        16 * hex_value(s.drop_last()) + hex_digit_value(s.last())->0
    }
}

/// The lower-case hexadecimal digit for a number below sixteen.
pub open spec fn hex_char(d: nat) -> char {
    if d < 10 {
        ('0' as int + d) as char
    } else {
        ('a' as int + d - 10) as char
    }
}

/// The low `width` hexadecimal digits of `n`, padded with zeros on the left.
pub open spec fn hex_fixed(n: nat, width: nat) -> Seq<char>
    decreases width,
{
    if width == 0 {
        Seq::empty()
    } else {
        hex_fixed(n / 16, (width - 1) as nat).push(hex_char(n % 16))
    }
}

pub proof fn lemma_hex_fixed(n: nat, width: nat)
    requires
        n < pow16(width),
    ensures
        hex_fixed(n, width).len() == width,
        all_hex(hex_fixed(n, width)),
        hex_value(hex_fixed(n, width)) == n,
    decreases width,
{
    if width > 0 {
        assert(n / 16 < pow16((width - 1) as nat));
        lemma_hex_fixed(n / 16, (width - 1) as nat);
        let head = hex_fixed(n / 16, (width - 1) as nat);
        assert(hex_fixed(n, width).drop_last() =~= head);
    }
}

/// The value of a hexadecimal field: exactly eight digits, in either case.
pub open spec fn hex_field(s: Seq<char>) -> Option<nat> {
    if s.len() == 8 && all_hex(s) {
        Some(hex_value(s))
    } else {
        None
    }
}

/// Eight hexadecimal digits hold exactly the 32-bit numbers.
pub proof fn lemma_eight_hex_digits()
    ensures
        pow16(8) == u32::MAX + 1,
{
    reveal_with_fuel(pow16, 9);
}

/// A field of eight hexadecimal digits is read back as the number it was written from.
pub proof fn lemma_hex_field_fixed(n: nat)
    requires
        n <= u32::MAX,
    ensures
        hex_field(hex_fixed(n, 8)) == Some(n),
{
    lemma_eight_hex_digits();
    lemma_hex_fixed(n, 8);
}

/// The number that a hexadecimal digit stands for, in either case.
fn read_hex_digit(c: char) -> (r: Option<u32>)
    ensures
        match r {
            Some(v) => v < 16 && hex_digit_value(c) == Some(v as nat),
            None => hex_digit_value(c) is None,
        },
{
    if '0' <= c && c <= '9' {
        Some(c as u32 - 48)
    } else if 'a' <= c && c <= 'f' {
        Some(c as u32 - 87)
    } else if 'A' <= c && c <= 'F' {
        Some(c as u32 - 55)
    } else {
        None
    }
}

proof fn lemma_pow16_grows(a: nat, b: nat)
    requires
        a <= b,
    ensures
        pow16(a) <= pow16(b),
    decreases b,
{
    if a < b {
        lemma_pow16_grows(a, (b - 1) as nat);
    }
}

/// Reads a hexadecimal field.
pub fn read_hex_field(s: &[char]) -> (r: Option<u32>)
    ensures
        match r {
            Some(v) => hex_field(s@) == Some(v as nat),
            None => hex_field(s@) is None,
        },
{
    if s.len() != 8 {
        return None;
    }
    proof {
        lemma_eight_hex_digits();
    }
    let mut v: u64 = 0;
    for i in 0..s.len()
        invariant
            s@.len() == 8,
            pow16(8) == u32::MAX + 1,
            forall|j: int| 0 <= j < i ==> hex_digit_value(#[trigger] s@[j]) is Some,
            v == hex_value(s@.take(i as int)),
            v < pow16(i as nat),
    {
        proof {
            assert(s@.take(i + 1).drop_last() =~= s@.take(i as int));
            lemma_pow16_grows(i as nat, 8);
        }
        match read_hex_digit(s[i]) {
            Some(d) => {
                v = v * 16 + d as u64;
            },
            None => {
                assert(hex_digit_value(s@[i as int]) is None);
                return None;
            },
        }
    }
    assert(s@.take(s@.len() as int) =~= s@);
    Some(v as u32)
}

/// Writes `n` in exactly `width` lower-case hexadecimal digits.
pub fn fixed_hex(n: u32, width: usize) -> (r: String)
    requires
        n < pow16(width as nat),
    ensures
        r@ == hex_fixed(n as nat, width as nat),
    decreases width,
{
    if width == 0 {
        String::new()
    } else {
        assert(n / 16 < pow16((width - 1) as nat));
        let mut r = fixed_hex(n / 16, width - 1);
        let d: u8 = (n % 16) as u8;
        if d < 10 {
            r.push((48u8 + d) as char);
        } else {
            r.push((87u8 + d) as char);
        }
        r
    }
}

/// The powers of ten and of sixteen.
pub proof fn law_powers(n: nat)
    ensures
        pow10(n) == vstd::arithmetic::power::pow(10, n),
        pow16(n) == vstd::arithmetic::power::pow(16, n),
    decreases n,
{
    reveal(vstd::arithmetic::power::pow);
    if n > 0 {
        law_powers((n - 1) as nat);
    }
}

/// Digits count from the left: ten times what stands before, plus the last one;
/// written together, the front part counts for as many tens as digits follow.
pub proof fn law_decimal_value(a: Seq<char>, b: Seq<char>, d: nat)
    ensures
        dec_value(Seq::empty()) == 0,
        d < 10 ==> dec_value(seq![('0' as int + d) as char]) == d,
        dec_value(a + b) == dec_value(a) * pow10(b.len()) + dec_value(b),
{
    lemma_dec_value_concat(a, b);
    if d < 10 {
        let one = seq![('0' as int + d) as char];
        assert(one.drop_last() =~= Seq::empty());
        reveal_with_fuel(dec_value, 2);
    }
}

/// A number is written in decimal digits that stand for it, without a zero in
/// front unless it is zero; in a fixed width, in as many digits.
pub proof fn law_decimal_text(n: nat, width: nat)
    ensures
        forall|i: int| 0 <= i < dec_text(n).len() ==> '0' <= #[trigger] dec_text(n)[i] <= '9',
        dec_value(dec_text(n)) == n,
        dec_text(n).len() > 0 && (dec_text(n).len() > 1 ==> dec_text(n)[0] != '0'),
        n < pow10(width) ==> {
            let t = dec_fixed(n, width);
            t.len() == width && dec_value(t) == n && forall|i: int|
                0 <= i < width ==> '0' <= #[trigger] t[i] <= '9'
        },
{
    lemma_dec_text(n);
    assert forall|i: int| 0 <= i < dec_text(n).len() implies '0' <= #[trigger] dec_text(n)[i]
        <= '9' by {
        assert(is_digit(dec_text(n)[i]));
    }
    if n < pow10(width) {
        lemma_dec_fixed(n, width);
        let t = dec_fixed(n, width);
        assert forall|i: int| 0 <= i < width implies '0' <= #[trigger] t[i] <= '9' by {
            assert(is_digit(t[i]));
        }
    }
}

/// A decimal field is read as the number of its digits, with or without a plus
/// sign before them, up to a limit.
pub proof fn law_decimal_field(digits: Seq<char>, limit: int)
    requires
        digits.len() > 0,
        forall|i: int| 0 <= i < digits.len() ==> '0' <= #[trigger] digits[i] <= '9',
    ensures
        decimal_field(digits, limit) == (if dec_value(digits) <= limit {
            Some(dec_value(digits))
        } else {
            None
        }),
        decimal_field(seq!['+'] + digits, limit) == decimal_field(digits, limit),
{
    assert(all_digits(digits));
    assert(digits[0] != '+');
    assert((seq!['+'] + digits).drop_first() =~= digits);
}

/// Nothing else is a decimal field.
pub proof fn law_no_decimal_field(s: Seq<char>, limit: int)
    requires
        decimal_field(s, limit) is Some,
    ensures
        ({
            let digits = if s[0] == '+' {
                s.drop_first()
            } else {
                s
            };
            s.len() > 0 && digits.len() > 0 && forall|i: int|
                0 <= i < digits.len() ==> '0' <= #[trigger] digits[i] <= '9'
        }),
{
    let digits = unsigned_part(s);
    assert forall|i: int| 0 <= i < digits.len() implies '0' <= #[trigger] digits[i] <= '9' by {
        assert(is_digit(digits[i]));
    }
}

/// Hexadecimal digits count like decimal ones, by sixteen, in either case.
pub proof fn law_hex_value(a: Seq<char>, c: char)
    ensures
        hex_value(Seq::empty()) == 0,
        '0' <= c <= '9' ==> hex_value(a.push(c)) == 16 * hex_value(a) + (c as int - '0' as int),
        'a' <= c <= 'f' ==> hex_value(a.push(c)) == 16 * hex_value(a) + 10 + (c as int - 'a' as int),
        'A' <= c <= 'F' ==> hex_value(a.push(c)) == 16 * hex_value(a) + 10 + (c as int - 'A' as int),
{
    assert(a.push(c).drop_last() =~= a);
}

/// A number is written in lower-case hexadecimal digits that stand for it.
pub proof fn law_hex_text(n: nat, width: nat)
    requires
        n < pow16(width),
    ensures
        hex_fixed(n, width).len() == width,
        hex_value(hex_fixed(n, width)) == n,
        forall|i: int|
            0 <= i < width ==> ('0' <= #[trigger] hex_fixed(n, width)[i] <= '9') || ('a'
                <= hex_fixed(n, width)[i] <= 'f'),
    decreases width,
{
    lemma_hex_fixed(n, width);
    if width > 0 {
        assert(n / 16 < pow16((width - 1) as nat));
        law_hex_text(n / 16, (width - 1) as nat);
        let head = hex_fixed(n / 16, (width - 1) as nat);
        assert forall|i: int| 0 <= i < width implies ('0' <= #[trigger] hex_fixed(n, width)[i]
            <= '9') || ('a' <= hex_fixed(n, width)[i] <= 'f') by {
            if i < width - 1 {
                assert(hex_fixed(n, width)[i] == head[i]);
            }
        }
    }
}

/// A checksum field is eight hexadecimal digits and nothing else.
pub proof fn law_hex_field(s: Seq<char>, n: nat)
    ensures
        hex_field(s) == Some(n) <==> s.len() == 8 && hex_value(s) == n && forall|i: int|
            0 <= i < s.len() ==> ('0' <= #[trigger] s[i] <= '9') || ('a' <= s[i] <= 'f') || ('A'
                <= s[i] <= 'F'),
{
    if all_hex(s) {
        assert forall|i: int| 0 <= i < s.len() implies ('0' <= #[trigger] s[i] <= '9') || ('a'
            <= s[i] <= 'f') || ('A' <= s[i] <= 'F') by {
            assert(hex_digit_value(s[i]) is Some);
        }
    }
}

/// The decimal digits, and what is made of nothing else.
pub proof fn law_digits(c: char, s: Seq<char>, limit: int)
    ensures
        is_digit(c) <==> '0' <= c <= '9',
        all_digits(s) <==> forall|i: int| 0 <= i < s.len() ==> '0' <= #[trigger] s[i] <= '9',
        is_shortest(s) <==> all_digits(s) && s.len() > 0 && (s.len() > 1 ==> s[0] != '0'),
        bounded_value(s, limit) == (if dec_value(s) <= limit {
            Some(dec_value(s))
        } else {
            None
        }),
{
    if all_digits(s) {
        assert forall|i: int| 0 <= i < s.len() implies '0' <= #[trigger] s[i] <= '9' by {
            assert(is_digit(s[i]));
        }
    }
}

} // verus!
