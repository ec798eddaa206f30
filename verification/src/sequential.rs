//! The single-process reference for the word-count job: the same map
//! function over one input at a time, and a reduce function that renders
//! how many times a word was seen. It serves as the oracle that the
//! distributed pipeline's grouping is held against.

use vstd::prelude::*;

use crate::wordcount;

verus! {

/// One intermediate record of the single-process reference.
pub struct KeyValue {
    pub key: String,
    pub value: u32,
}

impl View for KeyValue {
    type V = (Seq<char>, u32);

    open spec fn view(&self) -> (Seq<char>, u32) {
        (self.key@, self.value)
    }
}

/// The reference's map function: the same word records as
/// [`wordcount::map`], one `(word, 1)` per maximal alphabetic run.
pub fn map(_filename: &str, contents: String) -> (r: Vec<KeyValue>)
    ensures
        r@.map_values(|kv: KeyValue| kv@) == wordcount::spec_word_counts(contents@),
{
    let mut pairs = wordcount::map(String::new(), contents);
    let ghost total = wordcount::spec_kv_views(pairs@);
    let mut r: Vec<KeyValue> = Vec::new();
    proof {
        assert(r@.map_values(|kv: KeyValue| kv@) =~= total.take(0));
    }
    while pairs.len() > 0
        invariant
            r@.map_values(|kv: KeyValue| kv@) + wordcount::spec_kv_views(pairs@) =~= total,
        decreases pairs@.len(),
    {
        let kv = pairs.remove(0);
        r.push(KeyValue { key: kv.0, value: kv.1 });
        proof {
            assert(r@.map_values(|kv: KeyValue| kv@) + wordcount::spec_kv_views(pairs@)
                =~= total);
        }
    }
    proof {
        assert(wordcount::spec_kv_views(pairs@) =~= Seq::<(Seq<char>, u32)>::empty());
        assert(r@.map_values(|kv: KeyValue| kv@) =~= total);
    }
    r
}

/// The decimal digit for a value in `[0, 9]`.
pub open spec fn spec_digit(d: int) -> char
    recommends
        0 <= d <= 9,
{
    if d == 0 {
        '0'
    } else if d == 1 {
        '1'
    } else if d == 2 {
        '2'
    } else if d == 3 {
        '3'
    } else if d == 4 {
        '4'
    } else if d == 5 {
        '5'
    } else if d == 6 {
        '6'
    } else if d == 7 {
        '7'
    } else if d == 8 {
        '8'
    } else {
        '9'
    }
}

/// The decimal rendering of a non-negative number, most significant digit
/// first, with no leading zeros.
pub open spec fn spec_decimal(n: int) -> Seq<char>
    recommends
        n >= 0,
    decreases n,
{
    if n < 10 {
        seq![spec_digit(n)]
    } else {
        spec_decimal(n / 10).push(spec_digit(n % 10))
    }
}

/// The one-character string for a decimal digit.
fn digit_str(d: usize) -> (r: &'static str)
    requires
        d <= 9,
    ensures
        r@ == seq![spec_digit(d as int)],
{
    proof {
        reveal_strlit("0");
        reveal_strlit("1");
        reveal_strlit("2");
        reveal_strlit("3");
        reveal_strlit("4");
        reveal_strlit("5");
        reveal_strlit("6");
        reveal_strlit("7");
        reveal_strlit("8");
        reveal_strlit("9");
    }
    let r: &'static str = match d {
        0 => "0",
        1 => "1",
        2 => "2",
        3 => "3",
        4 => "4",
        5 => "5",
        6 => "6",
        7 => "7",
        8 => "8",
        _ => "9",
    };
    proof {
        assert(r@ =~= seq![spec_digit(d as int)]);
    }
    r
}

/// The decimal rendering of a count.
pub fn decimal_string(n0: usize) -> (r: String)
    ensures
        r@ == spec_decimal(n0 as int),
{
    let mut n = n0;
    let mut low = String::new();
    while n >= 10
        invariant
            spec_decimal(n0 as int) =~= spec_decimal(n as int) + low@,
        decreases n,
    {
        let ds = digit_str(n % 10);
        low = ds.to_owned().concat(low.as_str());
        n = n / 10;
        proof {
            assert(spec_decimal(n0 as int) =~= spec_decimal(n as int) + low@);
        }
    }
    let ds = digit_str(n);
    let r = ds.to_owned().concat(low.as_str());
    proof {
        assert(r@ =~= spec_decimal(n0 as int));
    }
    r
}

/// The reference's reduce function: how many records a key carries,
/// rendered in decimal.
pub fn reduce(_key: &str, values: &Vec<u32>) -> (r: String)
    ensures
        r@ == spec_decimal(values@.len() as int),
{
    decimal_string(values.len())
}

} // verus!
