use std::collections::HashMap;

use mapreduce::lines::encode_kv_line;
use mapreduce::lines::parse_kv_line;
use mapreduce::sequential;
use mapreduce::wordcount::aggregate;
use mapreduce::wordcount::partition_of;
use mapreduce::wordcount::reduce;

fn pairs(kvs: &[(&str, u32)]) -> Vec<(String, u32)> {
    kvs.iter().map(|(k, v)| (k.to_string(), *v)).collect()
}

#[test]
fn map_splits_text_into_alphabetic_words() {
    let r = mapreduce::wordcount::map(String::new(), String::from("the quick brown fox"));
    assert_eq!(r, pairs(&[("the", 1), ("quick", 1), ("brown", 1), ("fox", 1)]));
}

#[test]
fn map_treats_punctuation_and_digits_as_separators() {
    let r = mapreduce::wordcount::map(String::new(), String::from("it's 42, isn't it?"));
    assert_eq!(r, pairs(&[("it", 1), ("s", 1), ("isn", 1), ("t", 1), ("it", 1)]));
}

#[test]
fn map_of_empty_and_wordless_text_is_empty() {
    assert_eq!(mapreduce::wordcount::map(String::new(), String::new()), Vec::<(String, u32)>::new());
    assert_eq!(
        mapreduce::wordcount::map(String::new(), String::from("123 456 !!")),
        Vec::<(String, u32)>::new()
    );
}

#[test]
fn map_keeps_a_word_at_the_very_end() {
    let r = mapreduce::wordcount::map(String::new(), String::from("one two"));
    assert_eq!(r, pairs(&[("one", 1), ("two", 1)]));
}

#[test]
fn reduce_sums_the_counts() {
    assert_eq!(reduce("word", &vec![1, 1, 1]), 3);
    assert_eq!(reduce("word", &vec![]), 0);
    assert_eq!(reduce("word", &vec![2, 40]), 42);
}

#[test]
fn aggregate_groups_by_key_in_first_appearance_order() {
    let r = aggregate(&pairs(&[("a", 1), ("b", 2), ("a", 3), ("c", 4), ("b", 5)]));
    assert_eq!(r, pairs(&[("a", 4), ("b", 7), ("c", 4)]));
}

#[test]
fn aggregate_of_empty_input_is_empty() {
    assert_eq!(aggregate(&Vec::new()), Vec::<(String, u32)>::new());
}

#[test]
fn partition_is_stable_and_in_range() {
    for key in ["alpha", "beta", "gamma", ""] {
        for n in [1, 2, 7, 10] {
            let p = partition_of(key, n);
            assert!(p < n);
            assert_eq!(p, partition_of(key, n));
        }
        assert_eq!(partition_of(key, 1), 0);
    }
}

#[test]
fn partitioned_reduce_matches_global_grouping() {
    // Partition the map output by key hash, group each partition on its
    // own, and compare the union against grouping everything at once.
    let text = "one fish two fish red fish blue fish two two";
    let kvs = mapreduce::wordcount::map(String::new(), String::from(text));
    let n_reduce = 3;

    let mut buckets: Vec<Vec<(String, u32)>> = vec![Vec::new(); n_reduce as usize];
    for (k, v) in &kvs {
        buckets[partition_of(k, n_reduce) as usize].push((k.clone(), *v));
    }
    let mut partitioned: HashMap<String, u32> = HashMap::new();
    for bucket in &buckets {
        for (k, v) in aggregate(bucket) {
            // A key must never be split across partitions: each key is
            // produced by exactly one bucket's grouping.
            assert!(partitioned.insert(k, v).is_none());
        }
    }

    let global: HashMap<String, u32> =
        aggregate(&kvs).into_iter().collect();
    assert_eq!(partitioned, global);
    assert_eq!(global.get("fish"), Some(&4));
    assert_eq!(global.get("two"), Some(&3));
}

#[test]
fn encode_then_parse_returns_the_record() {
    for (key, value) in [("word", 42u32), ("a", 0), ("Zahl", u32::MAX)] {
        let line = encode_kv_line(key, value);
        assert_eq!(parse_kv_line(&line), Some((key.to_string(), value)));
    }
    assert_eq!(encode_kv_line("fish", 4), "fish 4");
}

#[test]
fn parse_rejects_malformed_lines() {
    assert_eq!(parse_kv_line("nospace"), None);
    assert_eq!(parse_kv_line(" 1"), None);
    assert_eq!(parse_kv_line("key "), None);
    assert_eq!(parse_kv_line("key x1"), None);
    assert_eq!(parse_kv_line("key 12909300921039010923"), None);
    assert_eq!(parse_kv_line(""), None);
}

#[test]
fn parse_accepts_leading_zeros() {
    assert_eq!(parse_kv_line("key 007"), Some((String::from("key"), 7)));
}

#[test]
fn sequential_map_matches_the_distributed_map() {
    let text = "to be or not to be";
    let seq_records = sequential::map("input", String::from(text));
    let dist_records = mapreduce::wordcount::map(String::new(), String::from(text));
    assert_eq!(seq_records.len(), dist_records.len());
    for (kv, (k, v)) in seq_records.iter().zip(dist_records.iter()) {
        assert_eq!(&kv.key, k);
        assert_eq!(&kv.value, v);
    }
}

#[test]
fn sequential_reduce_renders_the_count() {
    assert_eq!(sequential::reduce("word", &vec![1, 1, 1]), "3");
    assert_eq!(sequential::reduce("word", &vec![]), "0");
    assert_eq!(sequential::decimal_string(0), "0");
    assert_eq!(sequential::decimal_string(10), "10");
    assert_eq!(sequential::decimal_string(4294967295), "4294967295");
}
