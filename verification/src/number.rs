//! Lossless decimal numbers: arbitrary-precision integers, canonical decimals
//! and equality of number texts by mathematical value.
use vstd::prelude::*;

use crate::numeral;
use crate::numeral::{are_digits, decimal, digit, is_digit_char};
use crate::text;
use crate::text::{chars_of, rank, string_of, text_eq, Rank};

verus! {

/// A signed integer of any size. The digits are decimal, most significant first,
/// without leading zeros; zero is not negative.
#[derive(Debug, PartialEq, Eq)]
pub struct BigInt {
    pub non_negative: bool,
    pub digits: String,
}

/// The value of a run of digits, least significant first.
spec fn le_value(s: Seq<char>) -> nat
    decreases s.len(),
{
    if s.len() == 0 {
        0
    } else {
        le_value(s.drop_last()) + numeral::digit_value(s.last()) * numeral::pow10((s.len() - 1) as nat)
    }
}

proof fn lemma_le_value_reverse(s: Seq<char>)
    ensures
        numeral::dec_value(s.reverse()) == le_value(s),
    decreases s.len(),
{
    if s.len() == 0 {
        assert(s.reverse() =~= Seq::<char>::empty());
    } else {
        let head = s.drop_last();
        assert(s.reverse() =~= seq![s.last()] + head.reverse());
        numeral::lemma_dec_value_concat(seq![s.last()], head.reverse());
        lemma_le_value_reverse(head);
        assert(seq![s.last()].drop_last() =~= Seq::<char>::empty());
        assert(numeral::dec_value(Seq::<char>::empty()) == 0);
        assert(numeral::dec_value(seq![s.last()]) == numeral::digit_value(s.last()));
    }
}

proof fn lemma_le_value_push(s: Seq<char>, c: char)
    ensures
        le_value(s.push(c)) == le_value(s) + numeral::digit_value(c) * numeral::pow10(s.len()),
{
    assert(s.push(c).drop_last() =~= s);
}

proof fn lemma_le_value_bound(s: Seq<char>)
    requires
        numeral::all_digits(s),
    ensures
        le_value(s) < numeral::pow10(s.len()),
{
    assert(numeral::all_digits(s.reverse()));
    numeral::lemma_dec_value_bound(s.reverse());
    lemma_le_value_reverse(s);
}

proof fn lemma_suffix_step(s: Seq<char>, i: int)
    requires
        0 < i <= s.len(),
    ensures
        numeral::dec_value(s.skip(i - 1)) == numeral::digit_value(s[i - 1]) * numeral::pow10((s.len() - i) as nat)
            + numeral::dec_value(s.skip(i)),
{
    let c = seq![s[i - 1]];
    assert(s.skip(i - 1) =~= c + s.skip(i));
    numeral::lemma_dec_value_concat(c, s.skip(i));
    assert(c.drop_last() =~= Seq::<char>::empty());
    assert(numeral::dec_value(Seq::<char>::empty()) == 0);
    assert(numeral::dec_value(c) == numeral::digit_value(s[i - 1]));
}

/// The characters in reverse order.
fn reversed(s: &Vec<char>) -> (r: Vec<char>)
    ensures
        r@ == s@.reverse(),
{
    let mut r: Vec<char> = Vec::new();
    let mut i: usize = s.len();
    while i > 0
        invariant
            i <= s@.len(),
            r@ == s@.skip(i as int).reverse(),
        decreases i,
    {
        i = i - 1;
        r.push(s[i]);
        assert(r@ =~= s@.skip(i as int).reverse());
    }
    assert(s@.skip(0) =~= s@);
    r
}

/// How many characters at the front are zeros.
fn zeros_at_front(s: &[char]) -> (n: usize)
    ensures
        n <= s@.len(),
        forall|i: int| 0 <= i < n ==> s@[i] == '0',
        n < s@.len() ==> s@[n as int] != '0',
{
    let mut n: usize = 0;
    while n < s.len()
        invariant
            n <= s@.len(),
            forall|i: int| 0 <= i < n ==> s@[i] == '0',
        decreases s@.len() - n,
    {
        if s[n] != '0' {
            return n;
        }
        n = n + 1;
    }
    n
}

proof fn lemma_drop_zeros(s: Seq<char>, n: int)
    requires
        0 <= n <= s.len(),
        forall|i: int| 0 <= i < n ==> s[i] == '0',
    ensures
        numeral::dec_value(s.skip(n)) == numeral::dec_value(s),
{
    assert(s =~= s.take(n) + s.skip(n));
    numeral::lemma_dec_value_concat(s.take(n), s.skip(n));
    numeral::lemma_dec_value_zeros(s.take(n));
    assert(0 * numeral::pow10(s.skip(n).len()) == 0);
}

/// Whether the sum of two digit runs needs one digit more than the longer one.
pub open spec fn sum_len(a: Seq<char>, b: Seq<char>) -> nat {
    let longer = if a.len() >= b.len() { a.len() } else { b.len() };
    if numeral::dec_value(a) + numeral::dec_value(b) >= numeral::pow10(longer) {
        longer + 1
    } else {
        longer
    }
}

/// Adds two runs of decimal digits.
#[verifier::rlimit(40)]
pub fn mag_add(a: &str, b: &str) -> (r: String)
    requires
        numeral::all_digits(a@),
        numeral::all_digits(b@),
    ensures
        numeral::all_digits(r@),
        numeral::dec_value(r@) == numeral::dec_value(a@) + numeral::dec_value(b@),
        r@.len() == sum_len(a@, b@),
{
    let xs = chars_of(a);
    let ys = chars_of(b);
    let mut out: Vec<char> = Vec::new();
    let mut ai: usize = xs.len();
    let mut bi: usize = ys.len();
    let mut carry: u8 = 0;
    let ghost longer = if a@.len() >= b@.len() {
        a@.len()
    } else {
        b@.len()
    };
    assert(a@.skip(ai as int) =~= Seq::<char>::empty());
    assert(b@.skip(bi as int) =~= Seq::<char>::empty());
    while ai > 0 || bi > 0 || carry > 0
        invariant
            xs@ == a@,
            ys@ == b@,
            numeral::all_digits(a@),
            numeral::all_digits(b@),
            numeral::all_digits(out@),
            carry <= 1,
            longer == if a@.len() >= b@.len() { a@.len() } else { b@.len() },
            out@.len() <= a@.len() ==> ai == a@.len() - out@.len(),
            out@.len() > a@.len() ==> ai == 0,
            out@.len() <= b@.len() ==> bi == b@.len() - out@.len(),
            out@.len() > b@.len() ==> bi == 0,
            out@.len() == 0 ==> carry == 0,
            out@.len() <= longer + 1,
            out@.len() == longer + 1 ==> carry == 0 && numeral::dec_value(a@) + numeral::dec_value(b@) >= numeral::pow10(longer),
            le_value(out@) + carry * numeral::pow10(out@.len()) == numeral::dec_value(a@.skip(ai as int))
                + numeral::dec_value(b@.skip(bi as int)),
        decreases longer + 1 - out@.len(),
    {
        let ghost k = out@.len();
        let ghost old_out = out@;
        let ghost old_carry = carry;
        let ghost ai0 = ai as int;
        let ghost bi0 = bi as int;
        let mut sum: u8 = carry;
        let ghost mut da: nat = 0;
        let ghost mut db: nat = 0;
        if ai > 0 {
            proof {
                lemma_suffix_step(a@, ai as int);
                assert(numeral::is_digit(a@[ai - 1]));
                da = numeral::digit_value(a@[ai - 1]);
            }
            ai = ai - 1;
            sum = sum + (xs[ai] as u32 - 48) as u8;
        }
        if bi > 0 {
            proof {
                lemma_suffix_step(b@, bi as int);
                assert(numeral::is_digit(b@[bi - 1]));
                db = numeral::digit_value(b@[bi - 1]);
            }
            bi = bi - 1;
            sum = sum + (ys[bi] as u32 - 48) as u8;
        }
        out.push(digit(sum % 10));
        carry = sum / 10;
        proof {
            lemma_le_value_push(old_out, numeral::digit_char((sum % 10) as nat));
            assert(out@ =~= old_out.push(numeral::digit_char((sum % 10) as nat)));
            let p = numeral::pow10(k);
            let low: int = (sum % 10) as int;
            let high: int = (sum / 10) as int;
            assert(numeral::pow10(k + 1) == 10 * p);
            assert(numeral::digit_value(numeral::digit_char((sum % 10) as nat)) == low);
            assert(sum == old_carry + da + db);
            assert(low * p + high * (10 * p) == (low + 10 * high) * p) by (nonlinear_arith);
            assert(low + 10 * high == sum);
            assert((old_carry + da + db) * p == old_carry * p + da * p + db * p)
                by (nonlinear_arith);
            assert(ai0 > 0 ==> a@.len() - ai0 == k);
            assert(bi0 > 0 ==> b@.len() - bi0 == k);
            assert(ai0 == 0 ==> da * p == 0) by (nonlinear_arith)
                requires
                    ai0 == 0 ==> da == 0,
            ;
            assert(bi0 == 0 ==> db * p == 0) by (nonlinear_arith)
                requires
                    bi0 == 0 ==> db == 0,
            ;
            if k == longer {
                // Both runs are used up: only the carry is left.
                assert(ai0 == 0 && bi0 == 0);
                assert(a@.skip(0) =~= a@);
                assert(b@.skip(0) =~= b@);
                assert(old_carry == 1);
                assert(1 * p == p);
            }
        }
    }
    proof {
        assert(a@.skip(0) =~= a@);
        assert(b@.skip(0) =~= b@);
        assert(0 * numeral::pow10(out@.len()) == 0);
        lemma_le_value_reverse(out@);
        lemma_le_value_bound(out@);
        assert(out@.len() >= longer);
    }
    let digits = reversed(&out);
    assert(numeral::all_digits(digits@));
    string_of(&digits)
}

proof fn lemma_shortest_len(a: Seq<char>, b: Seq<char>)
    requires
        numeral::is_shortest(a),
        numeral::is_shortest(b),
        a.len() < b.len(),
    ensures
        numeral::dec_value(a) < numeral::dec_value(b),
{
    numeral::lemma_dec_value_bound(a);
    let first = b.take(1);
    let rest = b.skip(1);
    assert(b =~= first + rest);
    numeral::lemma_dec_value_concat(first, rest);
    assert(first.drop_last() =~= Seq::<char>::empty());
    assert(numeral::dec_value(Seq::<char>::empty()) == 0);
    assert(numeral::is_digit(b[0]) && b[0] != '0');
    assert(first.last() == b[0]);
    let d = numeral::dec_value(first);
    assert(d >= 1);
    let p = numeral::pow10(rest.len());
    assert(d * p >= p) by (nonlinear_arith)
        requires
            d >= 1,
            p >= 0,
    ;
    numeral::lemma_pow10_add(a.len(), (rest.len() - a.len()) as nat);
    numeral::lemma_pow10_positive((rest.len() - a.len()) as nat);
    let q = numeral::pow10(a.len());
    let e = numeral::pow10((rest.len() - a.len()) as nat);
    assert(q * e >= q) by (nonlinear_arith)
        requires
            e >= 1,
            q >= 0,
    ;
    assert(rest.len() == a.len() + (rest.len() - a.len()) as nat);
}

proof fn lemma_same_len_order(a: Seq<char>, b: Seq<char>)
    requires
        numeral::all_digits(a),
        numeral::all_digits(b),
        a.len() == b.len(),
    ensures
        text::precedes(a, b) <==> numeral::dec_value(a) < numeral::dec_value(b),
        a == b <==> numeral::dec_value(a) == numeral::dec_value(b),
    decreases a.len(),
{
    if a.len() == 0 {
        assert(a =~= b);
    } else {
        let x = a.drop_first();
        let y = b.drop_first();
        lemma_same_len_order(x, y);
        let fa = seq![a[0]];
        let fb = seq![b[0]];
        assert(a =~= fa + x);
        assert(b =~= fb + y);
        numeral::lemma_dec_value_concat(fa, x);
        numeral::lemma_dec_value_concat(fb, y);
        assert(fa.drop_last() =~= Seq::<char>::empty());
        assert(fb.drop_last() =~= Seq::<char>::empty());
        assert(numeral::dec_value(Seq::<char>::empty()) == 0);
        numeral::lemma_dec_value_bound(x);
        numeral::lemma_dec_value_bound(y);
        assert(numeral::is_digit(a[0]) && numeral::is_digit(b[0]));
        let p = numeral::pow10(x.len());
        let da = numeral::digit_value(a[0]);
        let db = numeral::digit_value(b[0]);
        assert(numeral::dec_value(fa) == da);
        assert(numeral::dec_value(fb) == db);
        if da < db {
            assert(da * p + p <= db * p) by (nonlinear_arith)
                requires
                    da + 1 <= db,
                    p >= 0,
            ;
        } else if db < da {
            assert(db * p + p <= da * p) by (nonlinear_arith)
                requires
                    db + 1 <= da,
                    p >= 0,
            ;
        }
    }
}

/// The digits order like the numbers they stand for.
pub proof fn lemma_fixed_width_order(m: nat, n: nat, width: nat)
    requires
        m < numeral::pow10(width),
        n < numeral::pow10(width),
    ensures
        text::precedes(numeral::dec_fixed(m, width), numeral::dec_fixed(n, width)) <==> m < n,
{
    numeral::lemma_dec_fixed(m, width);
    numeral::lemma_dec_fixed(n, width);
    lemma_same_len_order(numeral::dec_fixed(m, width), numeral::dec_fixed(n, width));
}

/// Compares the values of two runs of decimal digits without leading zeros.
pub fn mag_cmp(a: &str, b: &str) -> (r: std::cmp::Ordering)
    requires
        numeral::is_shortest(a@),
        numeral::is_shortest(b@),
    ensures
        match r {
            std::cmp::Ordering::Less => numeral::dec_value(a@) < numeral::dec_value(b@),
            std::cmp::Ordering::Equal => numeral::dec_value(a@) == numeral::dec_value(b@),
            std::cmp::Ordering::Greater => numeral::dec_value(a@) > numeral::dec_value(b@),
        },
{
    let n = chars_of(a).len();
    let m = chars_of(b).len();
    if n < m {
        proof {
            lemma_shortest_len(a@, b@);
        }
        return std::cmp::Ordering::Less;
    }
    if m < n {
        proof {
            lemma_shortest_len(b@, a@);
        }
        return std::cmp::Ordering::Greater;
    }
    proof {
        lemma_same_len_order(a@, b@);
    }
    match rank(a, b) {
        Rank::Before => std::cmp::Ordering::Less,
        Rank::Same => std::cmp::Ordering::Equal,
        Rank::After => std::cmp::Ordering::Greater,
    }
}

/// Subtracts a run of decimal digits from one that is at least as large.
#[verifier::rlimit(40)]
pub fn mag_sub(a: &str, b: &str) -> (r: String)
    requires
        numeral::is_shortest(a@),
        numeral::is_shortest(b@),
        numeral::dec_value(b@) <= numeral::dec_value(a@),
    ensures
        r@ == numeral::dec_text((numeral::dec_value(a@) - numeral::dec_value(b@)) as nat),
{
    let xs = chars_of(a);
    let ys = chars_of(b);
    let mut out: Vec<char> = Vec::new();
    let mut ai: usize = xs.len();
    let mut bi: usize = ys.len();
    let mut borrow: i8 = 0;
    proof {
        if a@.len() < b@.len() {
            lemma_shortest_len(a@, b@);
        }
        assert(a@.skip(ai as int) =~= Seq::<char>::empty());
        assert(b@.skip(bi as int) =~= Seq::<char>::empty());
    }
    while ai > 0
        invariant
            xs@ == a@,
            ys@ == b@,
            numeral::all_digits(a@),
            numeral::all_digits(b@),
            b@.len() <= a@.len(),
            numeral::all_digits(out@),
            0 <= borrow <= 1,
            out@.len() <= a@.len(),
            ai == a@.len() - out@.len(),
            out@.len() <= b@.len() ==> bi == b@.len() - out@.len(),
            out@.len() > b@.len() ==> bi == 0,
            le_value(out@) + numeral::dec_value(b@.skip(bi as int)) == numeral::dec_value(
                a@.skip(ai as int),
            ) + borrow * numeral::pow10(out@.len()),
        decreases ai,
    {
        let ghost k = out@.len();
        let ghost old_out = out@;
        let ghost old_borrow = borrow as int;
        let ghost bi0 = bi as int;
        let ghost mut db: nat = 0;
        proof {
            lemma_suffix_step(a@, ai as int);
            assert(numeral::is_digit(a@[ai - 1]));
        }
        let ghost da = numeral::digit_value(a@[ai - 1]);
        ai = ai - 1;
        let mut d: i8 = (xs[ai] as u32 - 48) as i8 - borrow;
        if bi > 0 {
            proof {
                lemma_suffix_step(b@, bi as int);
                assert(numeral::is_digit(b@[bi - 1]));
                db = numeral::digit_value(b@[bi - 1]);
            }
            bi = bi - 1;
            d = d - (ys[bi] as u32 - 48) as i8;
        }
        if d < 0 {
            d = d + 10;
            borrow = 1;
        } else {
            borrow = 0;
        }
        out.push(digit(d as u8));
        proof {
            let c = numeral::digit_char(d as nat);
            lemma_le_value_push(old_out, c);
            assert(out@ =~= old_out.push(c));
            let p = numeral::pow10(k);
            let digit_now: int = d as int;
            let borrow_now: int = borrow as int;
            assert(numeral::pow10(k + 1) == 10 * p);
            assert(numeral::digit_value(c) == digit_now);
            assert(digit_now == da - old_borrow - db + 10 * borrow_now);
            assert(digit_now * p == da * p - old_borrow * p - db * p + borrow_now * (10 * p))
                by (nonlinear_arith)
                requires
                    digit_now == da - old_borrow - db + 10 * borrow_now,
            ;
            assert(bi0 > 0 ==> b@.len() - bi0 == k);
            assert(bi0 == 0 ==> db * p == 0) by (nonlinear_arith)
                requires
                    bi0 == 0 ==> db == 0,
            ;
        }
    }
    proof {
        assert(a@.skip(0) =~= a@);
        assert(b@.skip(0) =~= b@);
        lemma_le_value_reverse(out@);
        lemma_le_value_bound(out@);
        let p = numeral::pow10(out@.len());
        assert(0 * p == 0);
        assert(1 * p == p);
        assert(borrow == 0);
    }
    let digits = reversed(&out);
    assert(numeral::all_digits(digits@));
    let n = zeros_at_front(&digits);
    let ghost difference = (numeral::dec_value(a@) - numeral::dec_value(b@)) as nat;
    proof {
        lemma_drop_zeros(digits@, n as int);
        assert(numeral::dec_value(digits@.skip(n as int)) == difference);
    }
    if n == digits.len() {
        proof {
            assert(digits@.skip(n as int) =~= Seq::<char>::empty());
        }
        let mut r = String::new();
        r.push('0');
        assert(r@ =~= numeral::dec_text(0));
        r
    } else {
        let rest = vstd::slice::slice_subrange(digits.as_slice(), n, digits.len());
        proof {
            assert(rest@ =~= digits@.skip(n as int));
            assert(numeral::is_shortest(rest@));
            numeral::lemma_shortest_unique(rest@);
        }
        string_of(rest)
    }
}

impl BigInt {
    /// Shortest digits, and no negative zero.
    pub open spec fn wf(&self) -> bool {
        &&& numeral::is_shortest(self.digits@)
        &&& !self.non_negative ==> numeral::dec_value(self.digits@) != 0
    }

    /// The integer itself.
    pub open spec fn value(&self) -> int {
        if self.non_negative {
            numeral::dec_value(self.digits@) as int
        } else {
            -(numeral::dec_value(self.digits@) as int)
        }
    }

    /// Zero.
    pub fn zero() -> (r: Self)
        ensures
            r.wf(),
            r.value() == 0,
    {
        let mut digits = String::new();
        digits.push('0');
        proof {
            assert(digits@ =~= seq!['0']);
            assert(numeral::dec_text(0) =~= seq!['0']);
            numeral::lemma_dec_text(0);
        }
        BigInt { non_negative: true, digits }
    }

    /// The integer with the given value.
    pub fn from_u64(value: u64) -> (r: Self)
        ensures
            r.wf(),
            r.value() == value,
    {
        let text = decimal(value);
        proof {
            numeral::lemma_dec_text(value as nat);
        }
        Self::from_digits(text.as_str(), true)
    }

    /// The integer with the given decimal digits and sign. Leading zeros are
    /// dropped, and zero is never negative.
    pub fn from_digits(digits: &str, non_negative: bool) -> (r: Self)
        requires
            numeral::all_digits(digits@),
        ensures
            r.wf(),
            r.value() == if non_negative {
                numeral::dec_value(digits@) as int
            } else {
                -(numeral::dec_value(digits@) as int)
            },
    {
        let chars = chars_of(digits);
        let n = zeros_at_front(&chars);
        proof {
            lemma_drop_zeros(chars@, n as int);
        }
        if n == chars.len() {
            proof {
                assert(chars@.skip(n as int) =~= Seq::<char>::empty());
            }
            Self::zero()
        } else {
            let rest = vstd::slice::slice_subrange(chars.as_slice(), n, chars.len());
            proof {
                assert(rest@ =~= chars@.skip(n as int));
                assert(numeral::is_shortest(rest@));
                numeral::lemma_shortest_unique(rest@);
                if rest@.len() == 1 {
                    assert(rest@.drop_last() =~= Seq::<char>::empty());
                    assert(numeral::dec_value(Seq::<char>::empty()) == 0);
                    assert(numeral::is_digit(rest@[0]));
                }
            }
            BigInt { non_negative, digits: string_of(rest) }
        }
    }

    /// The sum.
    pub fn add(&self, other: &BigInt) -> (r: BigInt)
        requires
            self.wf(),
            other.wf(),
        ensures
            r.wf(),
            r.value() == self.value() + other.value(),
    {
        if self.non_negative == other.non_negative {
            let sum = mag_add(self.digits.as_str(), other.digits.as_str());
            BigInt::from_digits(sum.as_str(), self.non_negative)
        } else {
            proof {
                numeral::lemma_shortest_difference(self.digits@, other.digits@);
            }
            match mag_cmp(self.digits.as_str(), other.digits.as_str()) {
                std::cmp::Ordering::Equal => BigInt::zero(),
                std::cmp::Ordering::Greater => {
                    let rest = mag_sub(self.digits.as_str(), other.digits.as_str());
                    BigInt::from_digits(rest.as_str(), self.non_negative)
                },
                std::cmp::Ordering::Less => {
                    let rest = mag_sub(other.digits.as_str(), self.digits.as_str());
                    BigInt::from_digits(rest.as_str(), other.non_negative)
                },
            }
        }
    }

    /// The difference.
    pub fn sub(&self, other: &BigInt) -> (r: BigInt)
        requires
            self.wf(),
            other.wf(),
        ensures
            r.wf(),
            r.value() == self.value() - other.value(),
    {
        if text_eq(other.digits.as_str(), "0") {
            proof {
                reveal_strlit("0");
                assert(other.digits@ =~= numeral::dec_text(0));
                numeral::lemma_dec_text(0);
            }
            return BigInt { non_negative: self.non_negative, digits: self.digits.clone() };
        }
        let negated = BigInt { non_negative: !other.non_negative, digits: other.digits.clone() };
        proof {
            reveal_strlit("0");
            numeral::lemma_shortest_unique(other.digits@);
            if numeral::dec_value(other.digits@) == 0 {
                assert(numeral::dec_text(0) =~= "0"@);
            }
        }
        self.add(&negated)
    }

    /// Whether two integers are equal.
    pub fn same(&self, other: &BigInt) -> (r: bool)
        requires
            self.wf(),
            other.wf(),
        ensures
            r == (self.value() == other.value()),
    {
        proof {
            numeral::lemma_shortest_unique(self.digits@);
            numeral::lemma_shortest_unique(other.digits@);
        }
        self.non_negative == other.non_negative && text_eq(
            self.digits.as_str(),
            other.digits.as_str(),
        )
    }
}

/// What a number text stands for, up to mathematical equality.
pub enum NumKey {
    /// Sign, significand without trailing zeros, and power of ten.
    Exact { negative: bool, significand: nat, power: int },
    /// A text that is no number stands for itself.
    Raw(Seq<char>),
}

/// The parts of a number text.
pub struct Numeral {
    pub negative: bool,
    pub whole: Seq<char>,
    pub fraction: Seq<char>,
    pub exponent: int,
}

/// The end of the run of digits that starts at `i`.
pub open spec fn digit_run_end(s: Seq<char>, i: int) -> int
    decreases s.len() - i,
{
    if 0 <= i < s.len() && numeral::is_digit(s[i]) {
        digit_run_end(s, i + 1)
    } else {
        i
    }
}

/// The digits of an exponent, after its optional sign.
pub open spec fn exponent_digits(s: Seq<char>) -> Seq<char> {
    if s.len() > 0 && (s[0] == '+' || s[0] == '-') {
        s.drop_first()
    } else {
        s
    }
}

/// The value of what follows the mantissa: nothing, or `e` or `E`, an optional
/// sign and at least one digit.
pub open spec fn read_exponent(s: Seq<char>) -> Option<int> {
    if s.len() == 0 {
        Some(0)
    } else if s[0] != 'e' && s[0] != 'E' {
        None
    } else {
        let rest = s.drop_first();
        let digits = exponent_digits(rest);
        if digits.len() == 0 || !numeral::all_digits(digits) {
            None
        } else if rest[0] == '-' {
            Some(-(numeral::dec_value(digits) as int))
        } else {
            Some(numeral::dec_value(digits) as int)
        }
    }
}

/// Splits a JSON number into its parts: an optional minus sign, digits that
/// start with a zero only where it stands alone, an optional point with digits
/// behind it, and an optional exponent.
pub open spec fn read_numeral(s: Seq<char>) -> Option<Numeral> {
    let start: int = if s.len() > 0 && s[0] == '-' { 1 } else { 0 };
    let point = digit_run_end(s, start);
    let dotted = point < s.len() && s[point] == '.';
    let end = if dotted { digit_run_end(s, point + 1) } else { point };
    let whole = s.subrange(start, point);
    let fraction = if dotted { s.subrange(point + 1, end) } else { Seq::empty() };
    if whole.len() == 0 || (whole.len() > 1 && whole[0] == '0') || (dotted && fraction.len()
        == 0) {
        None
    } else {
        match read_exponent(s.skip(end)) {
            Some(exponent) => Some(Numeral { negative: start == 1, whole, fraction, exponent }),
            None => None,
        }
    }
}

/// Moves trailing zeros of the significand into the power of ten.
pub open spec fn canonical(significand: nat, power: int) -> (nat, int)
    decreases significand,
{
    if significand == 0 {
        (0, 0)
    } else if significand % 10 == 0 {
        canonical(significand / 10, power + 1)
    } else {
        (significand, power)
    }
}

/// The key of `significand` times ten to the `power`.
pub open spec fn exact_key(negative: bool, significand: nat, power: int) -> NumKey {
    NumKey::Exact {
        negative: negative && significand != 0,
        significand: canonical(significand, power).0,
        power: canonical(significand, power).1,
    }
}

impl Numeral {
    /// The number without its sign, point and exponent.
    pub open spec fn significand(self) -> nat {
        numeral::dec_value(self.whole + self.fraction)
    }

    /// The power of ten that the significand is multiplied by.
    pub open spec fn power(self) -> int {
        self.exponent - self.fraction.len()
    }

    /// The significand with its sign.
    pub open spec fn signed(self) -> int {
        if self.negative {
            -(self.significand() as int)
        } else {
            self.significand() as int
        }
    }
}

/// The key of a number text: equal keys are equal numbers.
pub open spec fn num_key(s: Seq<char>) -> NumKey {
    match read_numeral(s) {
        Some(n) => exact_key(n.negative, n.significand(), n.power()),
        None => NumKey::Raw(s),
    }
}

/// Whether two products of an integer and a power of ten are the same number.
pub open spec fn same_number(m: int, p: int, n: int, q: int) -> bool {
    if p <= q {
        m == n * numeral::pow10((q - p) as nat)
    } else {
        m * numeral::pow10((p - q) as nat) == n
    }
}

/// A canonical decimal: sign, significant digits and exact power of ten.
/// `1`, `1.0`, `1e0` and `100e-2` are all `1 * 10^0`; zero is `0 * 10^0`.
#[derive(Debug, PartialEq, Eq)]
pub struct Decimal {
    pub non_negative: bool,
    pub digits: String,
    pub power: BigInt,
}

proof fn lemma_digit_run_end(s: Seq<char>, i: int)
    requires
        0 <= i <= s.len(),
    ensures
        i <= digit_run_end(s, i) <= s.len(),
        numeral::all_digits(s.subrange(i, digit_run_end(s, i))),
        digit_run_end(s, i) < s.len() ==> !numeral::is_digit(s[digit_run_end(s, i)]),
    decreases s.len() - i,
{
    if i < s.len() && numeral::is_digit(s[i]) {
        lemma_digit_run_end(s, i + 1);
        let end = digit_run_end(s, i + 1);
        assert forall|j: int| 0 <= j < end - i implies numeral::is_digit(
            #[trigger] s.subrange(i, end)[j],
        ) by {
            if j > 0 {
                assert(s.subrange(i + 1, end)[j - 1] == s[i + j]);
            }
        }
    }
}

proof fn lemma_canonical_shift(m: nat, p: int, k: nat)
    ensures
        canonical(m * numeral::pow10(k), p) == canonical(m, p + k),
    decreases k,
{
    if k == 0 {
        assert(m * 1 == m);
    } else if m == 0 {
        assert(0 * numeral::pow10(k) == 0);
    } else {
        let t = numeral::pow10((k - 1) as nat);
        numeral::lemma_pow10_positive((k - 1) as nat);
        let big = m * numeral::pow10(k);
        assert(big == 10 * (m * t)) by (nonlinear_arith)
            requires
                big == m * (10 * t),
        ;
        assert(m * t > 0) by (nonlinear_arith)
            requires
                m > 0,
                t > 0,
        ;
        assert(big % 10 == 0 && big / 10 == m * t);
        lemma_canonical_shift(m, p + 1, (k - 1) as nat);
    }
}

proof fn lemma_canonical_restore(m: nat, p: int)
    ensures
        m == 0 ==> canonical(m, p) == (0nat, 0int),
        m != 0 ==> canonical(m, p).0 % 10 != 0 && canonical(m, p).1 >= p && m == canonical(
            m,
            p,
        ).0 * numeral::pow10((canonical(m, p).1 - p) as nat),
    decreases m,
{
    if m != 0 {
        if m % 10 == 0 {
            lemma_canonical_restore(m / 10, p + 1);
            let (c, q) = canonical(m, p);
            let t = numeral::pow10((q - p - 1) as nat);
            assert(numeral::pow10((q - p) as nat) == 10 * t);
            assert(10 * (c * t) == c * (10 * t)) by (nonlinear_arith);
        } else {
            assert(m * 1 == m);
        }
    }
}

/// Reads the end of the run of digits that starts at `i`.
fn run_end(s: &[char], i: usize) -> (r: usize)
    requires
        i <= s@.len(),
    ensures
        r == digit_run_end(s@, i as int),
        i <= r <= s@.len(),
{
    let mut r: usize = i;
    while r < s.len() && is_digit_char(s[r])
        invariant
            i <= r <= s@.len(),
            digit_run_end(s@, i as int) == digit_run_end(s@, r as int),
        decreases s@.len() - r,
    {
        r = r + 1;
    }
    r
}

/// Reads what follows the mantissa.
fn parse_exponent(s: &[char]) -> (r: Option<BigInt>)
    ensures
        match r {
            Some(e) => e.wf() && read_exponent(s@) == Some(e.value()),
            None => read_exponent(s@) is None,
        },
{
    if s.len() == 0 {
        return Some(BigInt::zero());
    }
    if s[0] != 'e' && s[0] != 'E' {
        return None;
    }
    let mut start: usize = 1;
    let mut negative = false;
    if s.len() > 1 && (s[1] == '+' || s[1] == '-') {
        negative = s[1] == '-';
        start = 2;
    }
    let digits = vstd::slice::slice_subrange(s, start, s.len());
    assert(digits@ =~= exponent_digits(s@.drop_first()));
    if digits.len() == 0 || !are_digits(digits) {
        return None;
    }
    let text = string_of(digits);
    Some(BigInt::from_digits(text.as_str(), !negative))
}

/// The significant digits, without the zeros at both ends, and how many zeros
/// followed them; `None` where every digit is zero.
fn significant(mantissa: &Vec<char>) -> (r: Option<(String, usize)>)
    requires
        numeral::all_digits(mantissa@),
        mantissa@.len() > 0,
    ensures
        match r {
            None => numeral::dec_value(mantissa@) == 0,
            Some((digits, zeros)) => {
                &&& numeral::is_shortest(digits@)
                &&& numeral::dec_value(digits@) % 10 != 0
                &&& numeral::dec_value(mantissa@) == numeral::dec_value(digits@) * numeral::pow10(
                    zeros as nat,
                )
                &&& numeral::dec_value(mantissa@) != 0
            },
        },
{
    let first = zeros_at_front(mantissa);
    if first == mantissa.len() {
        proof {
            numeral::lemma_dec_value_zeros(mantissa@);
        }
        return None;
    }
    let mut last: usize = mantissa.len();
    while mantissa[last - 1] == '0'
        invariant
            first < last <= mantissa@.len(),
            mantissa@[first as int] != '0',
            forall|i: int| last <= i < mantissa@.len() ==> mantissa@[i] == '0',
        decreases last,
    {
        last = last - 1;
    }
    let digits = vstd::slice::slice_subrange(mantissa.as_slice(), first, last);
    let zeros_len: usize = mantissa.len() - last;
    proof {
        let zeros = mantissa@.skip(last as int);
        let front = mantissa@.take(last as int);
        assert(mantissa@ =~= front + zeros);
        numeral::lemma_dec_value_concat(front, zeros);
        numeral::lemma_dec_value_zeros(zeros);
        lemma_drop_zeros(front, first as int);
        assert(digits@ =~= front.skip(first as int));
        let m = numeral::dec_value(digits@);
        assert(numeral::is_shortest(digits@));
        assert(digits@.last() == mantissa@[last - 1]);
        assert(numeral::is_digit(digits@.last()));
        assert(m % 10 != 0);
        numeral::lemma_pow10_positive(zeros_len as nat);
        assert(m * numeral::pow10(zeros_len as nat) > 0) by (nonlinear_arith)
            requires
                m > 0,
                numeral::pow10(zeros_len as nat) > 0,
        ;
    }
    Some((string_of(digits), zeros_len))
}

impl Decimal {
    /// Digits without leading or trailing zeros, or the one form of zero.
    pub open spec fn wf(&self) -> bool {
        &&& self.power.wf()
        &&& numeral::is_shortest(self.digits@)
        &&& numeral::dec_value(self.digits@) == 0 ==> self.non_negative && self.power.value() == 0
        &&& numeral::dec_value(self.digits@) != 0 ==> numeral::dec_value(self.digits@) % 10 != 0
    }

    /// The number itself.
    pub open spec fn key(&self) -> NumKey {
        NumKey::Exact {
            negative: !self.non_negative,
            significand: numeral::dec_value(self.digits@),
            power: self.power.value(),
        }
    }

    /// Zero.
    pub fn zero() -> (r: Self)
        ensures
            r.wf(),
            r.key() == exact_key(false, 0, 0),
    {
        let mut digits = String::new();
        digits.push('0');
        proof {
            assert(digits@ =~= numeral::dec_text(0));
            numeral::lemma_dec_text(0);
        }
        Decimal { non_negative: true, digits, power: BigInt::zero() }
    }

    /// Reads a JSON number into its canonical decimal; `None` where the text is
    /// no legal JSON number.
    pub fn parse(text: &str) -> (r: Option<Decimal>)
        ensures
            match r {
                Some(d) => d.wf() && read_numeral(text@) is Some && d.key() == num_key(text@),
                None => read_numeral(text@) is None,
            },
    {
        let chars = chars_of(text);
        let s = chars.as_slice();
        let non_negative = !(s.len() > 0 && s[0] == '-');
        let start: usize = if non_negative {
            0
        } else {
            1
        };

        // The mantissa: digits, and a point with more digits where there is one.
        let point = run_end(s, start);
        let dotted = point < s.len() && s[point] == '.';
        let end: usize = if dotted {
            run_end(s, point + 1)
        } else {
            point
        };
        if point == start || (point - start > 1 && s[start] == '0') || (dotted && end == point
            + 1) {
            return None;
        }
        let mut mantissa: Vec<char> = Vec::new();
        mantissa.extend_from_slice(vstd::slice::slice_subrange(s, start, point));
        let mut frac_len: usize = 0;
        if dotted {
            frac_len = end - point - 1;
            mantissa.extend_from_slice(vstd::slice::slice_subrange(s, point + 1, end));
        }
        let ghost whole = text@.subrange(start as int, point as int);
        let ghost fraction = if dotted {
            text@.subrange(point + 1, end as int)
        } else {
            Seq::empty()
        };
        proof {
            lemma_digit_run_end(text@, start as int);
            if dotted {
                lemma_digit_run_end(text@, point + 1);
            }
            assert(mantissa@ =~= whole + fraction);
            assert(numeral::all_digits(mantissa@)) by {
                assert forall|i: int| 0 <= i < mantissa@.len() implies numeral::is_digit(
                    #[trigger] mantissa@[i],
                ) by {
                    if i < whole.len() {
                        assert(numeral::is_digit(whole[i]));
                    } else {
                        assert(numeral::is_digit(fraction[i - whole.len()]));
                    }
                }
            }
        }
        let tail = vstd::slice::slice_subrange(s, end, s.len());
        assert(tail@ =~= text@.skip(end as int));
        let exponent = match parse_exponent(tail) {
            Some(e) => e,
            None => {
                return None;
            },
        };
        let ghost shape = Numeral {
            negative: !non_negative,
            whole,
            fraction,
            exponent: exponent.value(),
        };
        assert(read_numeral(text@) == Some(shape));

        match significant(&mantissa) {
            None => Some(Self::zero()),
            Some((digits, trailing_zeros)) => {
                let power = exponent.sub(&BigInt::from_u64(frac_len as u64)).add(
                    &BigInt::from_u64(trailing_zeros as u64),
                );
                proof {
                    lemma_canonical_shift(
                        numeral::dec_value(digits@),
                        shape.power(),
                        trailing_zeros as nat,
                    );
                }
                Some(Decimal { non_negative, digits, power })
            },
        }
    }

    /// Whether two decimals are the same number.
    pub fn same(&self, other: &Decimal) -> (r: bool)
        requires
            self.wf(),
            other.wf(),
        ensures
            r == (self.key() == other.key()),
    {
        proof {
            numeral::lemma_shortest_unique(self.digits@);
            numeral::lemma_shortest_unique(other.digits@);
        }
        self.non_negative == other.non_negative && text_eq(
            self.digits.as_str(),
            other.digits.as_str(),
        ) && self.power.same(&other.power)
    }
}

/// Whether two number texts stand for the same number. Texts that are no
/// numbers are compared as texts.
pub fn number_eq(a: &str, b: &str) -> (r: bool)
    ensures
        r == (num_key(a@) == num_key(b@)),
{
    match (Decimal::parse(a), Decimal::parse(b)) {
        (Some(x), Some(y)) => x.same(&y),
        _ => text_eq(a, b),
    }
}

proof fn lemma_scaled(m: nat, p: int, n: nat, q: int)
    requires
        p <= q,
    ensures
        canonical(m, p) == canonical(n, q) <==> m == n * numeral::pow10((q - p) as nat),
{
    let t = numeral::pow10((q - p) as nat);
    numeral::lemma_pow10_positive((q - p) as nat);
    if m == n * t {
        lemma_canonical_shift(n, p, (q - p) as nat);
    }
    if canonical(m, p) == canonical(n, q) {
        lemma_canonical_restore(m, p);
        lemma_canonical_restore(n, q);
        if n == 0 {
            assert(0 * t == 0);
        } else {
            let (c, k) = canonical(m, p);
            let u = numeral::pow10((k - q) as nat);
            numeral::lemma_pow10_add((k - q) as nat, (q - p) as nat);
            assert((k - q) as nat + (q - p) as nat == (k - p) as nat);
            assert(c * (u * t) == (c * u) * t) by (nonlinear_arith);
        }
    }
}

proof fn lemma_signed_scale(m: nat, mneg: bool, n: nat, nneg: bool, t: nat)
    requires
        t >= 1,
    ensures
        ({
            let x = if mneg { -(m as int) } else { m as int };
            let y = if nneg { -(n as int) } else { n as int };
            x == y * t <==> (m == n * t && (mneg && m != 0) == (nneg && n != 0))
        }),
{
    let x = if mneg { -(m as int) } else { m as int };
    let y = if nneg { -(n as int) } else { n as int };
    assert((-(n as int)) * t == -(n * t)) by (nonlinear_arith);
    assert(n != 0 ==> n * t > 0) by (nonlinear_arith)
        requires
            t >= 1,
            n >= 0,
    ;
    assert(n == 0 ==> n * t == 0) by (nonlinear_arith);
}

/// Two number texts have the same key exactly when they stand for the same
/// number: `1`, `1.0`, `1e0` and `100e-2` agree, `1` and `-1` do not, and no
/// precision is lost however long the digits or the exponents are.
pub proof fn law_equal_keys_are_equal_numbers(a: Seq<char>, b: Seq<char>)
    requires
        read_numeral(a) is Some,
        read_numeral(b) is Some,
    ensures
        num_key(a) == num_key(b) <==> same_number(
            read_numeral(a)->0.signed(),
            read_numeral(a)->0.power(),
            read_numeral(b)->0.signed(),
            read_numeral(b)->0.power(),
        ),
{
    let x = read_numeral(a)->0;
    let y = read_numeral(b)->0;
    let (m, p) = (x.significand(), x.power());
    let (n, q) = (y.significand(), y.power());
    if p <= q {
        lemma_scaled(m, p, n, q);
        numeral::lemma_pow10_positive((q - p) as nat);
        lemma_signed_scale(m, x.negative, n, y.negative, numeral::pow10((q - p) as nat));
    } else {
        lemma_scaled(n, q, m, p);
        numeral::lemma_pow10_positive((p - q) as nat);
        lemma_signed_scale(n, y.negative, m, x.negative, numeral::pow10((p - q) as nat));
    }
}

/// Every spelling of zero, negative zero too, has the key of plain zero.
pub proof fn law_zero_has_one_key(a: Seq<char>)
    requires
        read_numeral(a) is Some,
        read_numeral(a)->0.significand() == 0,
    ensures
        num_key(a) == exact_key(false, 0, 0),
{
}

proof fn lemma_run_ends(s: Seq<char>, i: int, j: int)
    requires
        0 <= i <= j <= s.len(),
        forall|k: int| i <= k < j ==> numeral::is_digit(#[trigger] s[k]),
        j < s.len() ==> !numeral::is_digit(s[j]),
    ensures
        digit_run_end(s, i) == j,
    decreases j - i,
{
    if i < j {
        assert(numeral::is_digit(s[i]));
        lemma_run_ends(s, i + 1, j);
    }
}

/// An exponent is nothing, or `e` or `E`, an optional sign and digits; it counts
/// as the number that it spells.
pub proof fn law_exponents_are_read(e: char, digits: Seq<char>)
    requires
        e == 'e' || e == 'E',
        digits.len() > 0,
        forall|i: int| 0 <= i < digits.len() ==> '0' <= #[trigger] digits[i] <= '9',
    ensures
        read_exponent(Seq::empty()) == Some(0int),
        read_exponent(seq![e] + digits) == Some(numeral::dec_value(digits) as int),
        read_exponent(seq![e, '+'] + digits) == Some(numeral::dec_value(digits) as int),
        read_exponent(seq![e, '-'] + digits) == Some(-(numeral::dec_value(digits) as int)),
{
    assert(numeral::all_digits(digits));
    assert('0' <= digits[0] <= '9');
    assert((seq![e] + digits).drop_first() =~= digits);
    assert((seq![e, '+'] + digits).drop_first() =~= seq!['+'] + digits);
    assert((seq!['+'] + digits).drop_first() =~= digits);
    assert((seq![e, '-'] + digits).drop_first() =~= seq!['-'] + digits);
    assert((seq!['-'] + digits).drop_first() =~= digits);
}

/// Nothing else is an exponent.
pub proof fn law_only_exponents_are_read(s: Seq<char>)
    requires
        read_exponent(s) is Some,
    ensures
        s.len() == 0 || ((s[0] == 'e' || s[0] == 'E') && exists|digits: Seq<char>|
            digits.len() > 0 && (forall|i: int|
                0 <= i < digits.len() ==> '0' <= #[trigger] digits[i] <= '9') && (s == #[trigger] (
            seq![s[0]] + digits) || s == seq![s[0], '+'] + digits || s == seq![s[0], '-'] + digits)),
{
    if s.len() > 0 {
        let rest = s.drop_first();
        let digits = exponent_digits(rest);
        assert forall|i: int| 0 <= i < digits.len() implies '0' <= #[trigger] digits[i] <= '9' by {
            assert(numeral::is_digit(digits[i]));
        }
        let plain = seq![s[0]] + digits;
        if rest[0] == '+' {
            assert(s =~= seq![s[0], '+'] + digits);
        } else if rest[0] == '-' {
            assert(s =~= seq![s[0], '-'] + digits);
        } else {
            assert(s =~= plain);
        }
    }
}

/// A JSON number is read as its parts: an optional minus sign, digits with no
/// zero in front of others, an optional point with digits behind it, and an
/// exponent.
pub proof fn law_numbers_are_read(
    negative: bool,
    whole: Seq<char>,
    fraction: Option<Seq<char>>,
    tail: Seq<char>,
)
    requires
        whole.len() > 0,
        whole.len() > 1 ==> whole[0] != '0',
        forall|i: int| 0 <= i < whole.len() ==> '0' <= #[trigger] whole[i] <= '9',
        fraction matches Some(f) ==> f.len() > 0 && forall|i: int|
            0 <= i < f.len() ==> '0' <= #[trigger] f[i] <= '9',
        tail.len() > 0 ==> tail[0] == 'e' || tail[0] == 'E',
    ensures
        ({
            let sign = if negative {
                seq!['-']
            } else {
                Seq::empty()
            };
            let point = match fraction {
                Some(f) => seq!['.'] + f,
                None => Seq::empty(),
            };
            read_numeral(sign + whole + point + tail) == (match read_exponent(tail) {
                Some(exponent) => Some(
                    Numeral {
                        negative,
                        whole,
                        fraction: match fraction {
                            Some(f) => f,
                            None => Seq::empty(),
                        },
                        exponent,
                    },
                ),
                None => None,
            })
        }),
{
    let sign = if negative {
        seq!['-']
    } else {
        Seq::empty()
    };
    let point = match fraction {
        Some(f) => seq!['.'] + f,
        None => Seq::empty(),
    };
    let s = sign + whole + point + tail;
    let a = sign.len() as int;
    let b = a + whole.len();
    assert('0' <= whole[0] <= '9');
    assert(s[a] == whole[0]);
    assert(negative ==> s[0] == '-');
    assert(!negative ==> s[0] == whole[0]);
    assert forall|k: int| a <= k < b implies numeral::is_digit(#[trigger] s[k]) by {
        assert(s[k] == whole[k - a]);
    }
    match fraction {
        Some(f) => {
            let c = b + 1 + f.len();
            assert(s[b] == point[0]);
            lemma_run_ends(s, a, b);
            assert forall|k: int| b + 1 <= k < c implies numeral::is_digit(#[trigger] s[k]) by {
                assert(s[k] == point[k - b]);
                assert(point[k - b] == f[k - b - 1]);
            }
            if c < s.len() {
                assert(s[c] == tail[0]);
            }
            lemma_run_ends(s, b + 1, c);
            assert(s.subrange(a, b) =~= whole);
            assert(s.subrange(b + 1, c) =~= f);
            assert(s.skip(c) =~= tail);
        },
        None => {
            if b < s.len() {
                assert(s[b] == tail[0]);
            }
            lemma_run_ends(s, a, b);
            assert(s.subrange(a, b) =~= whole);
            assert(s.skip(b) =~= tail);
        },
    }
}

/// Nothing but a JSON number is read, and it is made of the parts it is read as.
pub proof fn law_only_numbers_are_read(s: Seq<char>)
    requires
        read_numeral(s) is Some,
    ensures
        ({
            let n = read_numeral(s)->0;
            let sign = if n.negative {
                seq!['-']
            } else {
                Seq::empty()
            };
            let point = if n.fraction.len() > 0 {
                seq!['.'] + n.fraction
            } else {
                Seq::empty()
            };
            &&& n.whole.len() > 0 && (n.whole.len() > 1 ==> n.whole[0] != '0')
            &&& forall|i: int| 0 <= i < n.whole.len() ==> '0' <= #[trigger] n.whole[i] <= '9'
            &&& forall|i: int| 0 <= i < n.fraction.len() ==> '0' <= #[trigger] n.fraction[i] <= '9'
            &&& (sign + n.whole + point).is_prefix_of(s)
            &&& read_exponent(s.skip((sign + n.whole + point).len() as int)) == Some(n.exponent)
        }),
{
    let n = read_numeral(s)->0;
    let start: int = if s.len() > 0 && s[0] == '-' {
        1
    } else {
        0
    };
    let point = digit_run_end(s, start);
    let dotted = point < s.len() && s[point] == '.';
    let end = if dotted {
        digit_run_end(s, point + 1)
    } else {
        point
    };
    lemma_digit_run_end(s, start);
    if dotted {
        lemma_digit_run_end(s, point + 1);
    }
    assert forall|i: int| 0 <= i < n.whole.len() implies '0' <= #[trigger] n.whole[i] <= '9' by {
        assert(numeral::is_digit(n.whole[i]));
    }
    assert forall|i: int| 0 <= i < n.fraction.len() implies '0' <= #[trigger] n.fraction[i] <= '9' by {
        assert(numeral::is_digit(n.fraction[i]));
    }
    let sign = if n.negative {
        seq!['-']
    } else {
        Seq::empty()
    };
    let dot = if n.fraction.len() > 0 {
        seq!['.'] + n.fraction
    } else {
        Seq::empty()
    };
    assert((sign + n.whole + dot).len() == end);
    assert(sign + n.whole + dot =~= s.subrange(0, end));
}

/// Two numbers compare as equal exactly if they are: their digits, without the
/// point, count for a power of ten that the exponent raises and the digits behind
/// the point lower. What is no number equals only the same text.
pub proof fn law_numbers_compare(a: Seq<char>, b: Seq<char>)
    ensures
        read_numeral(a) is None ==> (num_key(a) == num_key(b) <==> a == b),
        read_numeral(a) matches Some(x) ==> (read_numeral(b) matches Some(y) ==> {
            let m = if x.negative {
                -(numeral::dec_value(x.whole + x.fraction) as int)
            } else {
                numeral::dec_value(x.whole + x.fraction) as int
            };
            let n = if y.negative {
                -(numeral::dec_value(y.whole + y.fraction) as int)
            } else {
                numeral::dec_value(y.whole + y.fraction) as int
            };
            let p = x.exponent - x.fraction.len();
            let q = y.exponent - y.fraction.len();
            &&& p <= q ==> (num_key(a) == num_key(b) <==> m == n * numeral::pow10((q - p) as nat))
            &&& p >= q ==> (num_key(a) == num_key(b) <==> m * numeral::pow10((p - q) as nat) == n)
        }),
{
    if read_numeral(a) is Some && read_numeral(b) is Some {
        law_equal_keys_are_equal_numbers(a, b);
        let (x, y) = (read_numeral(a)->0, read_numeral(b)->0);
        if x.power() == y.power() {
            assert(numeral::pow10(0) == 1);
            assert(y.signed() * 1 == y.signed());
            assert(x.signed() * 1 == x.signed());
        }
    }
}

/// The key of a canonical decimal is that of the number that it spells.
pub proof fn law_decimal_key(d: Decimal)
    requires
        d.wf(),
    ensures
        d.key() == exact_key(
            !d.non_negative,
            numeral::dec_value(d.digits@),
            if d.power.non_negative {
                numeral::dec_value(d.power.digits@) as int
            } else {
                -(numeral::dec_value(d.power.digits@) as int)
            },
        ),
{
}

/// An integer is its digits with its sign.
pub proof fn law_integer_value(b: BigInt)
    ensures
        b.non_negative ==> b.value() == numeral::dec_value(b.digits@),
        !b.non_negative ==> b.value() == -(numeral::dec_value(b.digits@) as int),
{
}

/// A sum has as many digits as the longer number, and one more where they do not
/// hold it.
pub proof fn law_length_of_a_sum(a: Seq<char>, b: Seq<char>)
    ensures
        ({
            let longer = vstd::math::max(a.len() as int, b.len() as int);
            let sum = numeral::dec_value(a) + numeral::dec_value(b);
            &&& sum < numeral::pow10(longer as nat) ==> sum_len(a, b) == longer
            &&& sum >= numeral::pow10(longer as nat) ==> sum_len(a, b) == longer + 1
        }),
{
}

} // verus!
