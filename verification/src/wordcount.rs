//! The worker's computation for word counting: splitting input text into
//! words, assigning each key to a reduce partition by a stable hash, and
//! summing the counts recorded for a key.

use std::collections::hash_map::DefaultHasher;
use std::hash::Hasher;

use vstd::prelude::*;
use vstd::std_specs::hash::DefaultHasherAdditionalSpecFns;
use vstd::utf8::encode_utf8;

verus! {

/// What `char::is_alphabetic` returns for a character: whether it belongs
/// to a word. The result depends on the character alone.
pub uninterp spec fn is_word_char(c: char) -> bool;

/// Relies on `char::is_alphabetic`: whether the character has the Unicode
/// `Alphabetic` property, a function of the character alone.
#[verifier::external_body]
fn char_is_word(c: char) -> (r: bool)
    ensures
        r == is_word_char(c),
{
    c.is_alphabetic()
}

/// Length of the longest prefix of `s` made of word characters.
pub open spec fn word_run(s: Seq<char>) -> nat
    decreases s.len(),
{
    if s.len() == 0 || !is_word_char(s[0]) {
        0
    } else {
        1 + word_run(s.drop_first())
    }
}

/// The words of `s`: its maximal runs of word characters, in order.
pub open spec fn spec_words(s: Seq<char>) -> Seq<Seq<char>>
    decreases s.len(),
    via spec_words_dec
{
    if s.len() == 0 {
        Seq::empty()
    } else if !is_word_char(s[0]) {
        spec_words(s.drop_first())
    } else {
        seq![s.take(word_run(s) as int)] + spec_words(s.skip(word_run(s) as int))
    }
}

#[via_fn]
proof fn spec_words_dec(s: Seq<char>) {
    if s.len() > 0 && is_word_char(s[0]) {
        lemma_word_run_props(s);
    }
}

/// The longest word prefix is indeed a run of word characters, stops at the
/// first non-word character, and is non-empty exactly when the sequence
/// opens with a word character.
proof fn lemma_word_run_props(s: Seq<char>)
    ensures
        word_run(s) <= s.len(),
        forall|k: int| 0 <= k < word_run(s) ==> is_word_char(#[trigger] s[k]),
        word_run(s) < s.len() ==> !is_word_char(s[word_run(s) as int]),
        s.len() > 0 && is_word_char(s[0]) ==> word_run(s) >= 1,
    decreases s.len(),
{
    if s.len() > 0 && is_word_char(s[0]) {
        let d = s.drop_first();
        lemma_word_run_props(d);
        assert forall|k: int| 0 <= k < word_run(s) implies is_word_char(#[trigger] s[k]) by {
            if k > 0 {
                assert(is_word_char(d[k - 1]));
            }
        }
    }
}

/// A run of word characters that is maximal -- it reaches the end or stops
/// right before a non-word character -- is the longest word prefix.
proof fn lemma_word_run_exact(t: Seq<char>, m: int)
    requires
        0 <= m <= t.len(),
        forall|k: int| 0 <= k < m ==> is_word_char(#[trigger] t[k]),
        m == t.len() || !is_word_char(t[m]),
    ensures
        word_run(t) == m,
    decreases t.len(),
{
    if m == 0 {
        if t.len() > 0 {
            assert(!is_word_char(t[0]));
        }
    } else {
        let d = t.drop_first();
        assert forall|k: int| 0 <= k < m - 1 implies is_word_char(#[trigger] d[k]) by {
            assert(d[k] == t[k + 1]);
        }
        lemma_word_run_exact(d, m - 1);
    }
}

/// Splitting off a maximal word run: the first word of the remaining text
/// is exactly that run, and the rest of the words follow it.
proof fn lemma_words_take_run(t: Seq<char>, m: int)
    requires
        1 <= m <= t.len(),
        forall|k: int| 0 <= k < m ==> is_word_char(#[trigger] t[k]),
        m == t.len() || !is_word_char(t[m]),
    ensures
        spec_words(t) == seq![t.take(m)] + spec_words(t.skip(m)),
{
    lemma_word_run_exact(t, m);
}

/// A non-word character at the front contributes no word.
proof fn lemma_words_skip_nonword(s: Seq<char>, i: int)
    requires
        0 <= i < s.len(),
        !is_word_char(s[i]),
    ensures
        spec_words(s.skip(i)) == spec_words(s.skip(i + 1)),
{
    let t = s.skip(i);
    assert(t[0] == s[i]);
    assert(t.drop_first() =~= s.skip(i + 1));
}

/// The keys of a list of key/value pairs.
pub open spec fn spec_keys(kvs: Seq<(String, u32)>) -> Seq<Seq<char>> {
    kvs.map_values(|kv: (String, u32)| kv.0@)
}

/// The mathematical value of a list of key/value pairs.
pub open spec fn spec_kv_views(kvs: Seq<(String, u32)>) -> Seq<(Seq<char>, u32)> {
    kvs.map_values(|kv: (String, u32)| (kv.0@, kv.1))
}

/// The record emitted for each word of the input: the word, counted once.
pub open spec fn spec_word_counts(s: Seq<char>) -> Seq<(Seq<char>, u32)> {
    spec_words(s).map_values(|w: Seq<char>| (w, 1u32))
}

/// The map function of the word-count job: one `(word, 1)` record per
/// maximal run of alphabetic characters in the input, in text order.
pub fn map(_filename: String, contents: String) -> (r: Vec<(String, u32)>)
    ensures
        spec_kv_views(r@) == spec_word_counts(contents@),
{
    let ghost s = contents@;
    let text = contents.as_str();
    let n = text.unicode_len();
    let mut r: Vec<(String, u32)> = Vec::new();
    let mut i: usize = 0;
    let mut start: usize = 0;
    let mut in_word: bool = false;
    proof {
        assert(s.skip(0) =~= s);
        assert(spec_keys(r@) =~= Seq::<Seq<char>>::empty());
    }
    while i < n
        invariant
            n == s.len(),
            text@ == s,
            i <= n,
            !in_word ==> spec_words(s) =~= spec_keys(r@) + spec_words(s.skip(i as int)),
            in_word ==> start < n && start < i,
            in_word ==> spec_words(s) =~= spec_keys(r@) + spec_words(s.skip(start as int)),
            in_word ==> forall|k: int| start <= k < i ==> is_word_char(#[trigger] s[k]),
            forall|j: int| 0 <= j < r@.len() ==> (#[trigger] r@[j]).1 == 1,
        decreases n - i,
    {
        let c = text.get_char(i);
        let w = char_is_word(c);
        if w && !in_word {
            in_word = true;
            start = i;
        } else if !w && in_word {
            let word = text.substring_char(start, i).to_owned();
            proof {
                let t = s.skip(start as int);
                assert forall|k: int| 0 <= k < i - start implies is_word_char(
                    #[trigger] t[k],
                ) by {
                    assert(t[k] == s[k + start]);
                }
                assert(t[i - start] == s[i as int]);
                lemma_words_take_run(t, i - start);
                assert(t.take(i - start) =~= s.subrange(start as int, i as int));
                assert(t.skip(i - start) =~= s.skip(i as int));
                assert(word@ == s.subrange(start as int, i as int));
            }
            r.push((word, 1));
            proof {
                assert(spec_keys(r@) =~= spec_keys(r@.drop_last()).push(
                    s.subrange(start as int, i as int),
                ));
                assert(spec_words(s) =~= spec_keys(r@) + spec_words(s.skip(i as int)));
            }
            in_word = false;
        }
        proof {
            if !in_word && !is_word_char(s[i as int]) {
                lemma_words_skip_nonword(s, i as int);
            }
        }
        i = i + 1;
    }
    if in_word {
        let word = text.substring_char(start, n).to_owned();
        proof {
            let t = s.skip(start as int);
            assert forall|k: int| 0 <= k < n - start implies is_word_char(#[trigger] t[k]) by {
                assert(t[k] == s[k + start]);
            }
            lemma_words_take_run(t, n - start);
            assert(t.take(n - start) =~= s.subrange(start as int, n as int));
            assert(t.skip(n - start) =~= Seq::<char>::empty());
            assert(spec_words(t.skip(n - start)) =~= Seq::<Seq<char>>::empty());
            assert(word@ == s.subrange(start as int, n as int));
        }
        r.push((word, 1));
        proof {
            assert(spec_keys(r@) =~= spec_keys(r@.drop_last()).push(
                s.subrange(start as int, n as int),
            ));
            assert(spec_words(s) =~= spec_keys(r@));
        }
    } else {
        proof {
            assert(s.skip(n as int) =~= Seq::<char>::empty());
            assert(spec_words(s.skip(n as int)) =~= Seq::<Seq<char>>::empty());
            assert(spec_words(s) =~= spec_keys(r@));
        }
    }
    proof {
        assert(spec_kv_views(r@) =~= spec_word_counts(contents@));
    }
    r
}

/// The reduce partition a key belongs to: a stable hash of the key's bytes,
/// modulo the partition count. Every occurrence of one key lands in one
/// partition.
pub open spec fn spec_partition(key: Seq<char>, n_reduce: u32) -> u32
    recommends
        n_reduce >= 1,
{
    (DefaultHasher::spec_finish(seq![encode_utf8(key)]) % (n_reduce as u64)) as u32
}

/// The reduce partition for a key, computed with the standard library's
/// default hasher over the key's bytes.
pub fn partition_of(key: &str, n_reduce: u32) -> (r: u32)
    requires
        n_reduce >= 1,
    ensures
        r == spec_partition(key@, n_reduce),
{
    let mut h = DefaultHasher::new();
    h.write(key.as_bytes());
    let d = h.finish();
    proof {
        assert(h@ =~= seq![encode_utf8(key@)]);
    }
    (d % (n_reduce as u64)) as u32
}

/// The sum of a list of counts.
pub open spec fn spec_sum(vals: Seq<u32>) -> int
    decreases vals.len(),
{
    if vals.len() == 0 {
        0
    } else {
        spec_sum(vals.drop_last()) + vals.last()
    }
}

/// Summing a prefix never exceeds summing the whole list.
proof fn lemma_sum_prefix_le(vals: Seq<u32>, j: int)
    requires
        0 <= j <= vals.len(),
    ensures
        spec_sum(vals.take(j)) <= spec_sum(vals),
    decreases vals.len() - j,
{
    if j == vals.len() {
        assert(vals.take(j) =~= vals);
    } else {
        assert(vals.take(j + 1).drop_last() =~= vals.take(j));
        assert(vals.take(j + 1).last() == vals[j]);
        lemma_sum_prefix_le(vals, j + 1);
    }
}

/// The reduce function of the word-count job: the sum of the counts
/// recorded for one key.
pub fn reduce(_key: &str, values: &Vec<u32>) -> (r: u32)
    requires
        spec_sum(values@) <= u32::MAX,
    ensures
        r == spec_sum(values@),
{
    let mut sum: u32 = 0;
    let mut i: usize = 0;
    proof {
        assert(values@.take(0) =~= Seq::<u32>::empty());
    }
    while i < values.len()
        invariant
            i <= values@.len(),
            sum == spec_sum(values@.take(i as int)),
            spec_sum(values@) <= u32::MAX,
        decreases values@.len() - i,
    {
        proof {
            assert(values@.take(i + 1).drop_last() =~= values@.take(i as int));
            assert(values@.take(i + 1).last() == values@[i as int]);
            lemma_sum_prefix_le(values@, i + 1);
        }
        sum = sum + values[i];
        i = i + 1;
    }
    proof {
        assert(values@.take(values@.len() as int) =~= values@);
    }
    sum
}

/// The total recorded for key `k` in a list of key/value pairs.
pub open spec fn spec_sum_for_key(kvs: Seq<(Seq<char>, u32)>, k: Seq<char>) -> int
    decreases kvs.len(),
{
    if kvs.len() == 0 {
        0
    } else {
        spec_sum_for_key(kvs.drop_last(), k) + if kvs.last().0 == k {
            kvs.last().1 as int
        } else {
            0
        }
    }
}

/// The distinct keys of a list of key/value pairs, in order of first
/// appearance.
pub open spec fn spec_distinct_keys(kvs: Seq<(Seq<char>, u32)>) -> Seq<Seq<char>>
    decreases kvs.len(),
{
    if kvs.len() == 0 {
        Seq::empty()
    } else {
        let pre = spec_distinct_keys(kvs.drop_last());
        if pre.contains(kvs.last().0) {
            pre
        } else {
            pre.push(kvs.last().0)
        }
    }
}

/// A key that never appears has the total zero.
proof fn lemma_absent_key_sum_zero(kvs: Seq<(Seq<char>, u32)>, k: Seq<char>)
    requires
        !spec_distinct_keys(kvs).contains(k),
    ensures
        spec_sum_for_key(kvs, k) == 0,
    decreases kvs.len(),
{
    if kvs.len() > 0 {
        let pre = spec_distinct_keys(kvs.drop_last());
        if kvs.last().0 == k {
            if pre.contains(k) {
                assert(spec_distinct_keys(kvs).contains(k));
            } else {
                assert(spec_distinct_keys(kvs) == pre.push(k));
                assert(spec_distinct_keys(kvs)[spec_distinct_keys(kvs).len() - 1] == k);
                assert(spec_distinct_keys(kvs).contains(k));
            }
        } else {
            if pre.contains(k) {
                let j = choose|j: int| 0 <= j < pre.len() && pre[j] == k;
                assert(spec_distinct_keys(kvs)[j] == k);
                assert(spec_distinct_keys(kvs).contains(k));
            }
            lemma_absent_key_sum_zero(kvs.drop_last(), k);
        }
    }
}

/// A key's total over a prefix never exceeds its total over the whole list.
proof fn lemma_sum_for_key_prefix_le(kvs: Seq<(Seq<char>, u32)>, j: int, k: Seq<char>)
    requires
        0 <= j <= kvs.len(),
    ensures
        spec_sum_for_key(kvs.take(j), k) <= spec_sum_for_key(kvs, k),
    decreases kvs.len() - j,
{
    if j == kvs.len() {
        assert(kvs.take(j) =~= kvs);
    } else {
        assert(kvs.take(j + 1).drop_last() =~= kvs.take(j));
        assert(kvs.take(j + 1).last() == kvs[j]);
        lemma_sum_for_key_prefix_le(kvs, j + 1, k);
    }
}

/// Group a list of key/value pairs by key: one entry per distinct key, in
/// order of first appearance, holding the total recorded for that key.
///
/// This is the grouping a reduce task performs over the intermediate
/// records of its partition, and equally the grouping of the single-process
/// reference over all records at once.
pub fn aggregate(pairs: &Vec<(String, u32)>) -> (r: Vec<(String, u32)>)
    requires
        forall|k: Seq<char>| spec_sum_for_key(spec_kv_views(pairs@), k) <= u32::MAX,
    ensures
        spec_keys(r@) == spec_distinct_keys(spec_kv_views(pairs@)),
        forall|j: int|
            0 <= j < r@.len() ==> (#[trigger] r@[j]).1 == spec_sum_for_key(
                spec_kv_views(pairs@),
                r@[j].0@,
            ),
{
    let ghost pv = spec_kv_views(pairs@);
    let mut r: Vec<(String, u32)> = Vec::new();
    let mut i: usize = 0;
    proof {
        assert(pv.take(0) =~= Seq::<(Seq<char>, u32)>::empty());
        assert(spec_keys(r@) =~= Seq::<Seq<char>>::empty());
    }
    while i < pairs.len()
        invariant
            pv == spec_kv_views(pairs@),
            forall|k: Seq<char>| spec_sum_for_key(pv, k) <= u32::MAX,
            i <= pairs@.len(),
            pv.len() == pairs@.len(),
            spec_keys(r@) =~= spec_distinct_keys(pv.take(i as int)),
            forall|j: int|
                0 <= j < r@.len() ==> (#[trigger] r@[j]).1 == spec_sum_for_key(
                    pv.take(i as int),
                    r@[j].0@,
                ),
            forall|j1: int, j2: int|
                0 <= j1 < j2 < r@.len() ==> (#[trigger] r@[j1]).0@ != (#[trigger] r@[j2]).0@,
        decreases pairs@.len() - i,
    {
        let ghost k = pairs@[i as int].0@;
        proof {
            assert(pv[i as int] == (k, pairs@[i as int].1));
            assert(pv.take(i + 1).drop_last() =~= pv.take(i as int));
            assert(pv.take(i + 1).last() == pv[i as int]);
        }
        let mut j: usize = 0;
        while j < r.len() && !(r[j].0 == pairs[i].0)
            invariant
                i < pairs@.len(),
                j <= r@.len(),
                forall|l: int| 0 <= l < j ==> (#[trigger] r@[l]).0@ != pairs@[i as int].0@,
            decreases r@.len() - j,
        {
            j = j + 1;
        }
        if j < r.len() {
            proof {
                assert(r@[j as int].0@ == k);
                assert(r@[j as int].1 == spec_sum_for_key(pv.take(i as int), k));
                lemma_sum_for_key_prefix_le(pv, i + 1, k);
                assert(spec_sum_for_key(pv.take(i + 1), k) == spec_sum_for_key(
                    pv.take(i as int),
                    k,
                ) + pairs@[i as int].1);
                assert(spec_keys(r@)[j as int] == k);
                assert(spec_distinct_keys(pv.take(i as int))[j as int] == k);
                assert(spec_distinct_keys(pv.take(i as int)).contains(k));
                assert(spec_distinct_keys(pv.take(i + 1)) == spec_distinct_keys(
                    pv.take(i as int),
                ));
            }
            let ghost old_r = r@;
            let total = r[j].1 + pairs[i].1;
            let kc = pairs[i].0.clone();
            r.set(j, (kc, total));
            proof {
                assert(spec_keys(r@) =~= spec_keys(old_r));
                assert forall|l: int|
                    0 <= l < r@.len() implies (#[trigger] r@[l]).1 == spec_sum_for_key(
                    pv.take(i + 1),
                    r@[l].0@,
                ) by {
                    if l != j {
                        assert(r@[l] == old_r[l]);
                        assert(r@[l].0@ != k);
                    }
                }
            }
        } else {
            proof {
                assert(!spec_distinct_keys(pv.take(i as int)).contains(k)) by {
                    if spec_distinct_keys(pv.take(i as int)).contains(k) {
                        let l = choose|l: int|
                            0 <= l < spec_keys(r@).len() && spec_keys(r@)[l] == k;
                        assert(r@[l].0@ == k);
                    }
                }
                lemma_absent_key_sum_zero(pv.take(i as int), k);
                assert(spec_distinct_keys(pv.take(i + 1)) == spec_distinct_keys(
                    pv.take(i as int),
                ).push(k));
                assert(spec_sum_for_key(pv.take(i + 1), k) == pairs@[i as int].1);
            }
            let ghost old_r = r@;
            let kc = pairs[i].0.clone();
            let v = pairs[i].1;
            r.push((kc, v));
            proof {
                assert(spec_keys(r@) =~= spec_keys(old_r).push(k));
                assert forall|l: int|
                    0 <= l < r@.len() implies (#[trigger] r@[l]).1 == spec_sum_for_key(
                    pv.take(i + 1),
                    r@[l].0@,
                ) by {
                    if l < r@.len() - 1 {
                        assert(r@[l] == old_r[l]);
                        assert(spec_keys(old_r)[l] == r@[l].0@);
                        assert(r@[l].0@ != k);
                    }
                }
            }
        }
        i = i + 1;
    }
    proof {
        assert(pv.take(pv.len() as int) =~= pv);
    }
    r
}

/// The records of one reduce partition: those whose key hashes to it.
pub open spec fn spec_partition_slice(
    kvs: Seq<(Seq<char>, u32)>,
    n_reduce: u32,
    p: u32,
) -> Seq<(Seq<char>, u32)> {
    kvs.filter(|kv: (Seq<char>, u32)| spec_partition(kv.0, n_reduce) == p)
}

/// Partitioning by key hash never splits a key: reducing each partition
/// separately reproduces the grouping of a single process that groups all
/// keys globally. The partition a key hashes to holds the key's entire
/// global total, and every other partition holds none of it.
pub proof fn lemma_partition_round_trip(kvs: Seq<(Seq<char>, u32)>, n_reduce: u32, k: Seq<char>)
    requires
        n_reduce >= 1,
    ensures
        spec_sum_for_key(spec_partition_slice(kvs, n_reduce, spec_partition(k, n_reduce)), k)
            == spec_sum_for_key(kvs, k),
        forall|p: u32|
            p != spec_partition(k, n_reduce) ==> spec_sum_for_key(
                spec_partition_slice(kvs, n_reduce, p),
                k,
            ) == 0,
    decreases kvs.len(),
{
    reveal(Seq::filter);
    if kvs.len() == 0 {
    } else {
        lemma_partition_round_trip(kvs.drop_last(), n_reduce, k);
        let last = kvs.last();
        assert forall|p: u32| true implies #[trigger] spec_partition_slice(kvs, n_reduce, p)
            == if spec_partition(last.0, n_reduce) == p {
                spec_partition_slice(kvs.drop_last(), n_reduce, p).push(last)
            } else {
                spec_partition_slice(kvs.drop_last(), n_reduce, p)
            } by {}
        assert forall|p: u32|
            p != spec_partition(k, n_reduce) implies spec_sum_for_key(
            spec_partition_slice(kvs, n_reduce, p),
            k,
        ) == 0 by {
            if spec_partition(last.0, n_reduce) == p {
                let pre = spec_partition_slice(kvs.drop_last(), n_reduce, p);
                assert(spec_partition_slice(kvs, n_reduce, p) == pre.push(last));
                assert(pre.push(last).drop_last() =~= pre);
                assert(last.0 != k);
            }
        }
        let home = spec_partition(k, n_reduce);
        let pre = spec_partition_slice(kvs.drop_last(), n_reduce, home);
        if spec_partition(last.0, n_reduce) == home {
            assert(spec_partition_slice(kvs, n_reduce, home) == pre.push(last));
            assert(pre.push(last).drop_last() =~= pre);
        } else {
            assert(last.0 != k);
        }
    }
}

} // verus!
