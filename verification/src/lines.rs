//! The one-line record format shared by the workers' intermediate and final
//! files: one record per line, `<key> <value>`, space-separated. Encoding
//! and parsing are exact inverses for space-free keys, so a reduce task
//! reads back precisely the records a map task wrote.

use vstd::prelude::*;

use crate::sequential::spec_decimal;
use crate::sequential::decimal_string;

verus! {

/// A decimal digit.
pub open spec fn is_digit(c: char) -> bool {
    '0' <= c && c <= '9'
}

/// The numeric value of a decimal digit.
pub open spec fn digit_val(c: char) -> int {
    c as int - '0' as int
}

/// The number a sequence of decimal digits denotes, most significant digit
/// first; leading zeros are allowed.
pub open spec fn digits_value(s: Seq<char>) -> int
    decreases s.len(),
{
    if s.len() == 0 {
        0
    } else {
        digits_value(s.drop_last()) * 10 + digit_val(s.last())
    }
}

/// The position of the first space in `s`, or `-1` if there is none.
pub open spec fn first_space(s: Seq<char>) -> int
    decreases s.len(),
{
    if s.len() == 0 {
        -1
    } else if s[0] == ' ' {
        0
    } else {
        let r = first_space(s.drop_first());
        if r < 0 {
            -1
        } else {
            r + 1
        }
    }
}

/// The line written for one record: the key, one space, the value in
/// decimal.
pub open spec fn spec_kv_line(key: Seq<char>, value: int) -> Seq<char> {
    key + seq![' '] + spec_decimal(value)
}

/// The record a line denotes: the text before the first space as the key,
/// the digits after it as the value. `None` for a line with no space, an
/// empty key, a non-digit or empty value part, or a value too large for a
/// count.
pub open spec fn spec_parse_kv_line(line: Seq<char>) -> Option<(Seq<char>, u32)> {
    let i = first_space(line);
    if i <= 0 {
        None
    } else {
        let key = line.take(i);
        let rest = line.skip(i + 1);
        if rest.len() == 0 || exists|k: int| 0 <= k < rest.len() && !is_digit(rest[k]) {
            None
        } else if digits_value(rest) > u32::MAX {
            None
        } else {
            Some((key, digits_value(rest) as u32))
        }
    }
}

/// Encode one record as a line.
pub fn encode_kv_line(key: &str, value: u32) -> (r: String)
    ensures
        r@ == spec_kv_line(key@, value as int),
{
    proof {
        reveal_strlit(" ");
    }
    let v = decimal_string(value as usize);
    let r = key.to_owned().concat(" ").concat(v.as_str());
    proof {
        assert(r@ =~= spec_kv_line(key@, value as int));
    }
    r
}

/// Characterization of [`first_space`]: it names the first space when one
/// exists, and `-1` otherwise.
proof fn lemma_first_space(s: Seq<char>)
    ensures
        first_space(s) >= 0 ==> first_space(s) < s.len() && s[first_space(s)] == ' ',
        forall|k: int| 0 <= k < first_space(s) ==> s[k] != ' ',
        first_space(s) < 0 ==> forall|k: int| 0 <= k < s.len() ==> s[k] != ' ',
    decreases s.len(),
{
    if s.len() > 0 && s[0] != ' ' {
        let d = s.drop_first();
        lemma_first_space(d);
        assert forall|k: int| 0 <= k < first_space(s) implies s[k] != ' ' by {
            if k > 0 {
                assert(d[k - 1] != ' ');
            }
        }
        if first_space(s) < 0 {
            assert forall|k: int| 0 <= k < s.len() implies s[k] != ' ' by {
                if k > 0 {
                    assert(d[k - 1] != ' ');
                }
            }
        }
    }
}

/// A space-free prefix followed by a space pins [`first_space`] down.
proof fn lemma_first_space_exact(s: Seq<char>, i: int)
    requires
        0 <= i < s.len(),
        s[i] == ' ',
        forall|k: int| 0 <= k < i ==> s[k] != ' ',
    ensures
        first_space(s) == i,
    decreases s.len(),
{
    if i > 0 {
        let d = s.drop_first();
        assert forall|k: int| 0 <= k < i - 1 implies d[k] != ' ' by {
            assert(d[k] == s[k + 1]);
        }
        lemma_first_space_exact(d, i - 1);
    }
}

/// Parse one line as a record.
pub fn parse_kv_line(line: &str) -> (r: Option<(String, u32)>)
    ensures
        r matches Some(kv) ==> spec_parse_kv_line(line@) == Some((kv.0@, kv.1)),
        r is None ==> spec_parse_kv_line(line@) is None,
{
    proof {
        reveal_strlit(" ");
        reveal_strlit("0");
        reveal_strlit("9");
    }
    let n = line.unicode_len();
    let mut i: usize = 0;
    while i < n && line.get_char(i) != ' '
        invariant
            n == line@.len(),
            i <= n,
            forall|k: int| 0 <= k < i ==> line@[k] != ' ',
        decreases n - i,
    {
        i = i + 1;
    }
    if i == 0 || i >= n {
        proof {
            if i >= n {
                lemma_first_space(line@);
                if first_space(line@) >= 0 {
                    assert(line@[first_space(line@)] == ' ');
                }
            } else {
                lemma_first_space_exact(line@, 0);
            }
        }
        return None;
    }
    proof {
        lemma_first_space_exact(line@, i as int);
    }
    let ghost rest = line@.skip(i + 1);
    if i + 1 == n {
        proof {
            assert(rest.len() == 0);
        }
        return None;
    }
    let mut value: u32 = 0;
    let mut j: usize = i + 1;
    while j < n
        invariant
            n == line@.len(),
            i + 1 <= j <= n,
            rest == line@.skip(i + 1 as int),
            0 < i && i + 1 < n,
            first_space(line@) == i as int,
            forall|k: int| 0 <= k < j - i - 1 ==> is_digit(#[trigger] rest[k]),
            value == digits_value(rest.take(j - i - 1)),
            digits_value(rest.take(j - i - 1)) <= u32::MAX,
        decreases n - j,
    {
        let c = line.get_char(j);
        if !(c >= '0' && c <= '9') {
            proof {
                assert(rest.len() == n - i - 1);
                assert(rest[j - i - 1] == line@[j as int]);
                assert(0 <= j - i - 1 < rest.len() && !is_digit(rest[j - i - 1]));
                assert(first_space(line@) == i as int);
                assert(line@.skip(i as int + 1) == rest);
                assert(exists|k: int| 0 <= k < rest.len() && !is_digit(rest[k]));
                assert(spec_parse_kv_line(line@) is None);
            }
            return None;
        }
        let d: u32 = (c as u32) - ('0' as u32);
        proof {
            assert(rest.take(j - i) =~= rest.take(j - i - 1).push(line@[j as int]));
            assert(rest.take(j - i).drop_last() =~= rest.take(j - i - 1));
            assert(digits_value(rest.take(j - i)) == value * 10 + d);
        }
        if value > (u32::MAX - d) / 10 {
            proof {
                assert(rest.len() == n - i - 1);
                assert(first_space(line@) == i as int);
                assert(line@.skip(i as int + 1) == rest);
                if forall|k: int| 0 <= k < rest.len() ==> is_digit(#[trigger] rest[k]) {
                    assert(digits_value(rest.take(j - i)) > u32::MAX);
                    lemma_digits_value_monotone(rest, j - i);
                    assert(digits_value(rest) > u32::MAX);
                    assert(spec_parse_kv_line(line@) is None);
                } else {
                    assert(exists|k: int| 0 <= k < rest.len() && !is_digit(rest[k]));
                    assert(spec_parse_kv_line(line@) is None);
                }
            }
            return None;
        }
        value = value * 10 + d;
        j = j + 1;
    }
    proof {
        assert(rest.take(j - i - 1) =~= rest);
    }
    let key = line.substring_char(0, i).to_owned();
    proof {
        assert(key@ =~= line@.take(i as int));
    }
    Some((key, value))
}

/// Appending digits never shrinks the number they denote.
proof fn lemma_digits_value_monotone(s: Seq<char>, j: int)
    requires
        0 <= j <= s.len(),
        forall|k: int| 0 <= k < s.len() ==> is_digit(#[trigger] s[k]),
    ensures
        digits_value(s.take(j)) <= digits_value(s),
        digits_value(s) >= 0,
    decreases s.len() - j,
{
    if j == s.len() {
        assert(s.take(j) =~= s);
        lemma_digits_value_nonneg(s);
    } else {
        assert(s.take(j + 1).drop_last() =~= s.take(j));
        assert(s.take(j + 1).last() == s[j]);
        lemma_digits_value_nonneg(s.take(j));
        assert(digit_val(s[j]) >= 0);
        lemma_digits_value_monotone(s, j + 1);
    }
}

/// A sequence of digits denotes a non-negative number.
proof fn lemma_digits_value_nonneg(s: Seq<char>)
    requires
        forall|k: int| 0 <= k < s.len() ==> is_digit(#[trigger] s[k]),
    ensures
        digits_value(s) >= 0,
    decreases s.len(),
{
    if s.len() > 0 {
        lemma_digits_value_nonneg(s.drop_last());
    }
}

/// The digits of a decimal rendering denote the number it renders: parsing
/// is the inverse of encoding.
proof fn lemma_decimal_digits(n: int)
    requires
        n >= 0,
    ensures
        digits_value(spec_decimal(n)) == n,
        spec_decimal(n).len() >= 1,
        forall|k: int| 0 <= k < spec_decimal(n).len() ==> is_digit(#[trigger] spec_decimal(n)[k]),
    decreases n,
{
    if n < 10 {
        assert(spec_decimal(n) =~= seq![crate::sequential::spec_digit(n)]);
        assert(spec_decimal(n).drop_last() =~= Seq::<char>::empty());
        assert(digit_val(crate::sequential::spec_digit(n)) == n);
        assert(spec_decimal(n).last() == crate::sequential::spec_digit(n));
        assert(digits_value(spec_decimal(n)) == digits_value(spec_decimal(n).drop_last()) * 10
            + digit_val(spec_decimal(n).last()));
        assert(digits_value(spec_decimal(n).drop_last()) == 0);
    } else {
        lemma_decimal_digits(n / 10);
        assert(spec_decimal(n).drop_last() =~= spec_decimal(n / 10));
        assert(spec_decimal(n).last() == crate::sequential::spec_digit(n % 10));
        assert(digit_val(crate::sequential::spec_digit(n % 10)) == n % 10);
        assert(digits_value(spec_decimal(n)) == digits_value(spec_decimal(n / 10)) * 10
            + digit_val(crate::sequential::spec_digit(n % 10)));
        assert(digits_value(spec_decimal(n)) == (n / 10) * 10 + n % 10);
    }
}

/// A line encoded from a space-free key parses back to exactly the record
/// it was encoded from.
pub proof fn lemma_line_round_trip(key: Seq<char>, value: u32)
    requires
        key.len() > 0,
        forall|k: int| 0 <= k < key.len() ==> key[k] != ' ',
    ensures
        spec_parse_kv_line(spec_kv_line(key, value as int)) == Some((key, value)),
{
    let line = spec_kv_line(key, value as int);
    lemma_decimal_digits(value as int);
    assert forall|k: int| 0 <= k < key.len() implies line[k] != ' ' by {
        assert(line[k] == key[k]);
    }
    assert(line[key.len() as int] == ' ');
    lemma_first_space_exact(line, key.len() as int);
    assert(line.take(key.len() as int) =~= key);
    assert(line.skip(key.len() as int + 1) =~= spec_decimal(value as int));
}

} // verus!
