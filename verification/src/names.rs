//! Names of numbered files: twenty decimal digits and a suffix, so that names
//! sort like the numbers in them.
use vstd::prelude::*;

use crate::number;
use crate::numeral;
use crate::numeral::{are_digits, fixed_decimal, read_decimal};
use crate::text;
use crate::text::chars_of;

verus! {

/// The name of the file with a number.
pub open spec fn numbered(n: nat, suffix: Seq<char>) -> Seq<char> {
    numeral::dec_fixed(n, 20) + suffix
}

/// The number in the name of a numbered file; `None` for any other name.
pub open spec fn number_in(name: Seq<char>, suffix: Seq<char>) -> Option<nat> {
    if name.len() == 20 + suffix.len() && name.skip(20) == suffix && numeral::all_digits(
        name.take(20),
    ) {
        numeral::bounded_value(name.take(20), u64::MAX as int)
    } else {
        None
    }
}

/// The number is read back from the name that it gave.
pub proof fn law_number_round_trip(n: u64, suffix: Seq<char>)
    ensures
        number_in(numbered(n as nat, suffix), suffix) == Some(n as nat),
{
    numeral::lemma_twenty_digits();
    numeral::lemma_dec_fixed(n as nat, 20);
    let name = numbered(n as nat, suffix);
    assert(name.skip(20) =~= suffix);
    assert(name.take(20) =~= numeral::dec_fixed(n as nat, 20));
}

/// A number stands in one name only.
pub proof fn law_number_names_one_file(name: Seq<char>, suffix: Seq<char>)
    requires
        number_in(name, suffix) is Some,
    ensures
        name == numbered(number_in(name, suffix)->0, suffix),
{
    numeral::lemma_dec_fixed_unique(name.take(20));
    assert(name =~= name.take(20) + name.skip(20));
}

proof fn lemma_precedes_suffix(a: Seq<char>, b: Seq<char>, suffix: Seq<char>)
    requires
        a.len() == b.len(),
    ensures
        text::precedes(a + suffix, b + suffix) == text::precedes(a, b),
    decreases a.len(),
{
    if a.len() == 0 {
        assert(a + suffix =~= b + suffix);
        text::lemma_precedes_irreflexive(a + suffix);
    } else {
        assert((a + suffix).drop_first() =~= a.drop_first() + suffix);
        assert((b + suffix).drop_first() =~= b.drop_first() + suffix);
        lemma_precedes_suffix(a.drop_first(), b.drop_first(), suffix);
    }
}

/// Names sort like the numbers in them.
pub proof fn law_names_sort_by_number(m: u64, n: u64, suffix: Seq<char>)
    ensures
        text::precedes(numbered(m as nat, suffix), numbered(n as nat, suffix)) <==> m < n,
{
    numeral::lemma_twenty_digits();
    number::lemma_fixed_width_order(m as nat, n as nat, 20);
    numeral::lemma_dec_fixed(m as nat, 20);
    numeral::lemma_dec_fixed(n as nat, 20);
    lemma_precedes_suffix(
        numeral::dec_fixed(m as nat, 20),
        numeral::dec_fixed(n as nat, 20),
        suffix,
    );
}

/// Writes the name of the file with a number.
pub fn numbered_name(n: u64, suffix: &str) -> (r: String)
    ensures
        r@ == numbered(n as nat, suffix@),
{
    proof {
        numeral::lemma_twenty_digits();
    }
    let mut r = fixed_decimal(n, 20);
    r.append(suffix);
    r
}

/// Reads the number in the name of a numbered file.
pub fn read_number(name: &str, suffix: &str) -> (r: Option<u64>)
    ensures
        match r {
            Some(n) => number_in(name@, suffix@) == Some(n as nat),
            None => number_in(name@, suffix@) is None,
        },
{
    let chars = chars_of(name);
    let tail = chars_of(suffix);
    if chars.len() < 20 || chars.len() - 20 != tail.len() {
        return None;
    }
    proof {
        assert(name@.subrange(20, 20int + suffix@.len()) =~= name@.skip(20));
    }
    if !text_at(&chars, 20, &tail) {
        return None;
    }
    let digits = vstd::slice::slice_subrange(chars.as_slice(), 0, 20);
    assert(digits@ =~= name@.take(20));
    if !are_digits(digits) {
        return None;
    }
    read_decimal(digits)
}

/// Whether a text begins with another one.
pub open spec fn begins_with(s: Seq<char>, start: Seq<char>) -> bool {
    s.len() >= start.len() && s.take(start.len() as int) == start
}

/// Whether a text contains another one.
pub open spec fn contains_text(s: Seq<char>, part: Seq<char>) -> bool {
    exists|i: int|
        0 <= i <= s.len() - part.len() && #[trigger] s.subrange(i, i + part.len()) == part
}

/// Whether the characters from an index on are the given ones.
fn text_at(s: &Vec<char>, at: usize, part: &Vec<char>) -> (r: bool)
    requires
        at + part@.len() <= s@.len(),
    ensures
        r == (s@.subrange(at as int, at + part@.len()) == part@),
{
    let ghost here = s@.subrange(at as int, at + part@.len());
    let limit: usize = s.len();
    for i in 0..part.len()
        invariant
            at + part@.len() <= limit,
            limit == s@.len(),
            here == s@.subrange(at as int, at + part@.len()),
            forall|j: int| 0 <= j < i ==> here[j] == part@[j],
    {
        if s[at + i] != part[i] {
            assert(here[i as int] != part@[i as int]);
            return false;
        }
    }
    assert(here =~= part@);
    true
}

/// Whether a text begins with another one.
pub fn starts_with(s: &str, start: &str) -> (r: bool)
    ensures
        r == begins_with(s@, start@),
{
    let chars = chars_of(s);
    let part = chars_of(start);
    if chars.len() < part.len() {
        return false;
    }
    assert(s@.subrange(0, start@.len() as int) =~= s@.take(start@.len() as int));
    text_at(&chars, 0, &part)
}

/// Whether a text contains another one.
pub fn contains(s: &str, part: &str) -> (r: bool)
    ensures
        r == contains_text(s@, part@),
{
    let chars = chars_of(s);
    let want = chars_of(part);
    if chars.len() < want.len() {
        return false;
    }
    let last: usize = chars.len() - want.len();
    let mut i: usize = 0;
    while i <= last
        invariant
            chars@ == s@,
            want@ == part@,
            last + want@.len() == chars@.len(),
            i <= last + 1,
            forall|j: int|
                0 <= j < i ==> #[trigger] s@.subrange(j, j + part@.len()) != part@,
        decreases last + 1 - i,
    {
        if text_at(&chars, i, &want) {
            return true;
        }
        if i == last {
            return false;
        }
        i = i + 1;
    }
    false
}

/// A numbered name is twenty digits that stand for the number, and the suffix;
/// nothing else is one.
pub proof fn law_numbered_names(n: u64, name: Seq<char>, suffix: Seq<char>)
    ensures
        number_in(name, suffix) == Some(n as nat) <==> name.len() == 20 + suffix.len() && name.skip(20)
            == suffix && (forall|i: int| 0 <= i < 20 ==> '0' <= #[trigger] name[i] <= '9')
            && numeral::dec_value(name.take(20)) == n,
        number_in(name, suffix) matches Some(v) ==> v <= u64::MAX,
        numbered(n as nat, suffix).len() == 20 + suffix.len(),
        numbered(n as nat, suffix).skip(20) == suffix,
        numeral::dec_value(numbered(n as nat, suffix).take(20)) == n,
        forall|i: int| 0 <= i < 20 ==> '0' <= #[trigger] numbered(n as nat, suffix)[i] <= '9',
{
    numeral::lemma_twenty_digits();
    numeral::law_decimal_text(n as nat, 20);
    let t = numeral::dec_fixed(n as nat, 20);
    let full = numbered(n as nat, suffix);
    assert(full.take(20) =~= t);
    assert(full.skip(20) =~= suffix);
    assert forall|i: int| 0 <= i < 20 implies '0' <= #[trigger] full[i] <= '9' by {
        assert(full[i] == t[i]);
    }
    if name.len() == 20 + suffix.len() {
        let d = name.take(20);
        if numeral::all_digits(d) {
            assert forall|i: int| 0 <= i < 20 implies '0' <= #[trigger] name[i] <= '9' by {
                assert(numeral::is_digit(d[i]));
            }
        }
        if forall|i: int| 0 <= i < 20 ==> '0' <= #[trigger] name[i] <= '9' {
            assert forall|i: int| 0 <= i < d.len() implies numeral::is_digit(#[trigger] d[i]) by {
                assert('0' <= name[i] <= '9');
            }
        }
    }
}

/// A text begins with another exactly if it is that one and something more.
pub proof fn law_begins_with(s: Seq<char>, start: Seq<char>)
    ensures
        begins_with(s, start) <==> exists|r: Seq<char>| s == #[trigger] (start + r),
{
    if begins_with(s, start) {
        assert(s =~= start + s.skip(start.len() as int));
    }
    if exists|r: Seq<char>| s == #[trigger] (start + r) {
        let r = choose|r: Seq<char>| s == #[trigger] (start + r);
        assert(s.take(start.len() as int) =~= start);
    }
}

/// A text contains another exactly if that one stands in it with something, or
/// nothing, on both sides.
pub proof fn law_contains_text(s: Seq<char>, part: Seq<char>)
    ensures
        contains_text(s, part) <==> exists|a: Seq<char>, c: Seq<char>|
            s == #[trigger] (a + part + c),
{
    let n = part.len() as int;
    if contains_text(s, part) {
        let i = choose|i: int| 0 <= i <= s.len() - n && #[trigger] s.subrange(i, i + n) == part;
        assert(s =~= s.take(i) + s.subrange(i, i + n) + s.skip(i + n));
    }
    if exists|a: Seq<char>, c: Seq<char>| s == #[trigger] (a + part + c) {
        let (a, c) = choose|a: Seq<char>, c: Seq<char>| s == #[trigger] (a + part + c);
        let i = a.len() as int;
        assert(s.subrange(i, i + n) =~= part);
    }
}

} // verus!
