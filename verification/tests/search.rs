use fnv::{FnvHashMap, FnvHashSet};
use qpick::cosine::{MatchedWords, VectorReadings};
use qpick::hooks::{Hooks, ParsedQuery};
use qpick::index::{_get_idfs, build_map, entry_idfs, get_addr_and_len, read_bucket};
use qpick::matching::{group_ngrams, keyword_dist, keyword_matches, tally_results};
use qpick::qpick::searched_shards;
use qpick::score::{FloatOp, Score};
use qpick::search::{lower_distance, share_words, Candidate};
use qpick::shard::{check_buckets, get_shard_results, IndexError};
use qpick::words::{candidate_synonyms, index_words, WordTables};
use qpick::{Qpick, SearchShardResult, Shard};

fn s(x: f32) -> Score {
    Score { bits: x.to_bits() }
}

fn f(x: Score) -> f32 {
    f32::from_bits(x.bits)
}

fn eval(op: FloatOp) -> Score {
    s(match op {
        FloatOp::Whole(n) => n as f32,
        FloatOp::Plus(a, b) => f(a) + f(b),
        FloatOp::Minus(a, b) => f(a) - f(b),
        FloatOp::Times(a, b) => f(a) * f(b),
        FloatOp::Over(a, b) => f(a) / f(b),
        FloatOp::Log(a, b) => f(a).log(f(b)),
    })
}

fn unpair(value: u64) -> (u64, u64) {
    (value / 1000, value % 1000)
}

fn number(id: u64, shard: u8, shards: usize) -> u64 {
    id * shards as u64 + shard as u64
}

fn strings(list: &[&str]) -> Vec<String> {
    list.iter().map(|x| x.to_string()).collect()
}

fn record(id: u32, shard: u8, rel: u8) -> Vec<u8> {
    let mut v = id.to_le_bytes().to_vec();
    v.push(shard);
    v.push(rel);
    v
}

fn map_of(entries: &[(&str, u64)]) -> fst::Map {
    build_map(entries.iter().map(|e| (e.0.to_string(), e.1)).collect()).unwrap()
}

fn bytes(records: &[(u32, u8, u8)]) -> Vec<u8> {
    let mut all = Vec::new();
    for r in records {
        all.extend(record(r.0, r.1, r.2));
    }
    all
}

fn parse(query: &str) -> ParsedQuery {
    let words: Vec<String> = query.split_whitespace().map(|w| w.to_string()).collect();
    let n = words.len();
    let mut ngrams_ids: FnvHashMap<String, Vec<usize>> = FnvHashMap::default();
    for (i, w) in words.iter().enumerate() {
        ngrams_ids.insert(w.clone(), vec![i]);
    }
    ParsedQuery {
        ngrams: words.clone(),
        trs: vec![s(1.0 / n as f32); n],
        ngrams_ids,
        words,
        wrs: vec![s(1.0 / n as f32); n],
        must_have: vec![],
        synonyms: FnvHashMap::default(),
    }
}

fn shard_of(ngram: &String, _shards: u32) -> u32 {
    if ngram.as_str() < "m" {
        0
    } else {
        1
    }
}

fn match_words(
    text: &String,
    words: &FnvHashSet<String>,
    _synonyms: &FnvHashMap<String, String>,
) -> MatchedWords {
    let cand: Vec<String> = text.split_whitespace().map(|w| w.to_string()).collect();
    let mut missing: Vec<String> = words.iter().filter(|w| !cand.contains(w)).cloned().collect();
    missing.sort();
    MatchedWords {
        match_words: cand.iter().filter(|w| words.contains(*w)).cloned().collect(),
        excess_words: cand.iter().filter(|w| !words.contains(*w)).cloned().collect(),
        miss_words: missing,
        cand_words: cand,
    }
}

fn no_vectors(_words: &Vec<String>, _found: &MatchedWords) -> Option<VectorReadings> {
    None
}

// Queries: shard 0 has "blue car" and "car red", shard 1 has "red sun".
fn maps() -> (fst::Map, fst::Map) {
    // "blue": one record at 0; "car": two records at 1.
    let a = map_of(&[("blue", 1u64), ("car", 1002)]);
    // "red": two records at 0; "sun": one record at 2.
    let b = map_of(&[("red", 2u64), ("sun", 2001)]);
    (a, b)
}

fn first_bytes() -> Vec<u8> {
    bytes(&[(0, 0, 50), (0, 0, 50), (1, 0, 50)])
}

fn second_bytes() -> Vec<u8> {
    bytes(&[(1, 0, 50), (0, 1, 50), (0, 1, 50)])
}

fn ids(list: &Vec<qpick::SearchResult>) -> Vec<u64> {
    list.iter().map(|r| r.query_id).collect()
}

#[test]
fn buckets_hold_records_low_byte_first() {
    let mut data = vec![9u8, 9, 9];
    data.extend(bytes(&[(0x0102_0304, 5, 6), (7, 8, 100)]));
    assert_eq!(read_bucket(&data, 3, 2, 6), vec![(0x0102_0304, 5, 6), (7, 8, 100)]);
    assert_eq!(read_bucket(&data, 9, 1, 6), vec![(7, 8, 100)]);
    assert_eq!(read_bucket(&data, 15, 0, 6), vec![]);
    assert_eq!(read_bucket(&[], 0, 0, 0), vec![]);
}

#[test]
fn records_may_be_longer_than_what_is_read() {
    let data = vec![1u8, 0, 0, 0, 2, 3, 77, 4, 0, 0, 0, 5, 6, 88];
    assert_eq!(read_bucket(&data, 0, 2, 7), vec![(1, 2, 3), (4, 5, 6)]);
}

#[test]
fn bucket_reads_only_its_own_bytes() {
    let mut data = bytes(&[(1, 2, 3), (4, 5, 6)]);
    let before = read_bucket(&data, 6, 1, 6);
    data[0] = 200;
    assert_eq!(read_bucket(&data, 6, 1, 6), before);
}

#[test]
fn ngrams_are_looked_up_in_the_map() {
    let (a, _) = maps();
    assert_eq!(get_addr_and_len("car", &a, &unpair), Some((1, 2)));
    assert_eq!(get_addr_and_len("ca", &a, &unpair), None);
    assert_eq!(get_addr_and_len("", &a, &unpair), None);
    let wide = map_of(&[("z\u{fc}rich", 3004u64)]);
    assert_eq!(get_addr_and_len("z\u{fc}rich", &wide, &unpair), Some((3, 4)));
}

#[test]
fn rare_ngrams_weigh_more() {
    let (a, _) = maps();
    let ngrams = vec![("car".to_string(), 0), ("none".to_string(), 1), ("car".to_string(), 2)];
    let idfs = _get_idfs(&eval, &unpair, &ngrams, &a, 8);
    assert_eq!(idfs.len(), 2);
    assert_eq!(idfs["car"].0, 2);
    assert_eq!(f(idfs["car"].1), (8.0f32 / 2.0).log(2.0));
    assert_eq!(idfs["none"].0, 1);
    assert_eq!(f(idfs["none"].1), 8.0f32.log(2.0));
}

#[test]
fn ngrams_are_weighed_by_entries() {
    let ngrams = vec![("car".to_string(), 4)];
    let entries = vec![("blue".to_string(), 1u64), ("car".to_string(), 1002)];
    let idfs = entry_idfs(&eval, &unpair, &ngrams, entries.clone(), 8).unwrap();
    assert_eq!(idfs["car"].0, 4);
    assert_eq!(f(idfs["car"].1), (8.0f32 / 2.0).log(2.0));
    let reversed = entries.into_iter().rev().collect();
    assert!(entry_idfs(&eval, &unpair, &ngrams, reversed, 8).is_none());
}

#[test]
fn shard_results_hold_what_the_record_says() {
    let r = SearchShardResult::new(
        &eval,
        &number,
        3,
        7,
        10,
        25,
        s(0.5),
        4,
        "car".to_string(),
        Some("text".to_string()),
        true,
    );
    assert_eq!(r.query_id, 73);
    assert_eq!(r.shard_id, 3);
    assert_eq!(r.shard_query_id, 7);
    assert_eq!(r.ngram_idx, 4);
    assert_eq!(f(r.ngram_rel), 0.25);
    assert_eq!(f(r.weight_rel), 0.5);
    assert_eq!(f(r.query_ngram_rel), 0.5);
    assert_eq!(r.ngram, "car");
    assert_eq!(r.query, Some("text".to_string()));
}

#[test]
fn weight_is_one_without_tfidf_or_with_full_relevance() {
    let make = |rel: u8, tfidf: bool| {
        SearchShardResult::new(&eval, &number, 0, 0, 1, rel, s(0.5), 0, String::new(), None, tfidf)
    };
    assert_eq!(f(make(25, false).weight_rel), 1.0);
    assert_eq!(f(make(90, true).weight_rel), 1.0);
    assert_eq!(f(make(0, true).weight_rel), 0.0);
}

#[test]
fn shard_results_follow_the_ngrams() {
    let (a, _) = maps();
    let data = first_bytes();
    let ngrams = vec![("car".to_string(), 1), ("x".to_string(), 2), ("blue".to_string(), 0)];
    let trs = vec![s(0.5), s(0.5)];
    let out =
        get_shard_results(&eval, &unpair, &number, &ngrams, &trs, &a, &data, 6, 2, true).unwrap();
    let got: Vec<(String, usize, u64)> =
        out.results.iter().map(|r| (r.ngram.clone(), r.ngram_idx, r.query_id)).collect();
    assert_eq!(
        got,
        vec![
            ("car".to_string(), 1, 0),
            ("car".to_string(), 1, 2),
            ("blue".to_string(), 0, 0)
        ]
    );
}

#[test]
fn buckets_that_do_not_fit_are_refused() {
    let ngrams = vec![("a".to_string(), 0)];
    let trs = vec![s(0.5)];
    let data = first_bytes();
    assert!(check_buckets(&ngrams, &vec![Some((0, 3))], &trs, &data, 6));
    assert!(!check_buckets(&ngrams, &vec![Some((0, 4))], &trs, &data, 6));
    assert!(!check_buckets(&ngrams, &vec![Some((4, 0))], &trs, &data, 6));
    assert!(check_buckets(&ngrams, &vec![Some((3, 0))], &trs, &data, 6));
    assert!(!check_buckets(&ngrams, &vec![Some((0, 1))], &trs, &data, 5));
    assert!(!check_buckets(&ngrams, &vec![Some((0, 1))], &vec![], &data, 6));
    assert!(check_buckets(&ngrams, &vec![None], &vec![], &data, 6));
    assert!(!check_buckets(&ngrams, &vec![Some((u64::MAX, u64::MAX))], &trs, &data, 6));
    let map = map_of(&[("a", 4u64)]);
    let r = get_shard_results(&eval, &unpair, &number, &ngrams, &trs, &map, &data, 6, 2, true);
    assert_eq!(r.err(), Some(IndexError::BadBucket));
}

#[test]
fn words_are_indexed_with_their_synonyms() {
    let words = strings(&["red", "car", "red"]);
    let mut syn: FnvHashMap<usize, String> = FnvHashMap::default();
    syn.insert(1, "auto".to_string());
    let (index, set) = index_words(&words, &syn);
    assert_eq!(index.get("red"), Some(&2));
    assert_eq!(index.get("car"), Some(&1));
    assert_eq!(index.get("auto"), Some(&1));
    assert_eq!(index.len(), 3);
    assert!(set.contains("red") && set.contains("car") && !set.contains("auto"));
    assert_eq!(set.len(), 2);
    let table = candidate_synonyms(&words, &syn);
    assert_eq!(table.get("auto"), Some(&"car".to_string()));
    assert_eq!(table.len(), 1);
    let all = WordTables::new(&words, &syn);
    assert_eq!(all.index.get("auto"), Some(&1));
    assert!(!all.words.contains("auto"));
}

#[test]
fn a_synonym_hides_a_word_of_the_same_text() {
    let words = strings(&["red", "car"]);
    let mut syn: FnvHashMap<usize, String> = FnvHashMap::default();
    syn.insert(0, "car".to_string());
    let (index, set) = index_words(&words, &syn);
    assert_eq!(index.get("car"), Some(&0));
    assert!(set.contains("car"));
}

#[test]
fn ngrams_are_grouped_by_shard() {
    let ngrams = strings(&["a", "b", "c", "d", "e"]);
    let groups = group_ngrams(&ngrams, &vec![1, 0, 1, 3, 2], 1, 3);
    assert_eq!(groups.len(), 2);
    assert_eq!(groups[&1], vec![("a".to_string(), 0), ("c".to_string(), 2)]);
    assert_eq!(groups[&2], vec![("e".to_string(), 4)]);
}

#[test]
fn the_first_cover_of_a_word_counts() {
    let row = |id: u32, ngram: &str, rel: u8| {
        SearchShardResult::new(
            &eval,
            &number,
            0,
            id,
            1,
            rel,
            s(1.0),
            0,
            ngram.to_string(),
            None,
            true,
        )
    };
    let mut covered: FnvHashMap<String, Vec<usize>> = FnvHashMap::default();
    covered.insert("ab".to_string(), vec![0, 1]);
    covered.insert("bc".to_string(), vec![1, 2]);
    let rows = vec![row(4, "ab", 50), row(4, "bc", 100), row(5, "unknown", 100)];
    let wrs = vec![s(0.25), s(0.5), s(0.25)];
    let (table, homes) = tally_results(&eval, &rows, &covered, &wrs, 3).unwrap();
    let four: Vec<f32> = table[&4].iter().map(|x| f(*x)).collect();
    assert_eq!(four, vec![0.125, 0.25, 0.25]);
    let five: Vec<f32> = table[&5].iter().map(|x| f(*x)).collect();
    assert_eq!(five, vec![0.0, 0.0, 0.0]);
    assert_eq!(homes[&4], (4, 0));
    assert_eq!(homes[&5], (5, 0));
    assert_eq!(homes.len(), table.len());
}

#[test]
fn keyword_distance_is_what_is_lacking() {
    assert_eq!(f(keyword_dist(&eval, &vec![s(0.25), s(0.5)])), 0.25);
    assert_eq!(f(keyword_dist(&eval, &vec![s(0.75), s(0.5)])), 0.0);
    assert_eq!(f(keyword_dist(&eval, &vec![])), 1.0);
    assert_eq!(f(keyword_dist(&eval, &vec![s(f32::NAN)])), 0.0);
}

#[test]
fn matches_are_near_complete_and_in_order() {
    let mut table: FnvHashMap<u64, Vec<Score>> = FnvHashMap::default();
    table.insert(1, vec![s(0.5), s(0.0)]);
    table.insert(2, vec![s(0.5), s(0.25)]);
    table.insert(3, vec![s(0.01), s(0.0)]);
    table.insert(4, vec![s(0.0), s(0.5)]);
    let all = keyword_matches(&eval, &table, &vec![]).unwrap();
    let got: Vec<(u64, f32)> = all.iter().map(|m| (m.query_id, f(m.dist))).collect();
    assert_eq!(got, vec![(2, 0.25), (1, 0.5), (4, 0.5)]);
    let some = keyword_matches(&eval, &table, &vec![0]).unwrap();
    let got: Vec<u64> = some.iter().map(|m| m.query_id).collect();
    assert_eq!(got, vec![2, 1]);
}

#[test]
fn the_threshold_itself_is_too_far() {
    let mut table: FnvHashMap<u64, Vec<Score>> = FnvHashMap::default();
    table.insert(1, vec![s(1.0 - 0.951f32)]);
    let gap = 1.0f32 - (1.0f32 - 0.951f32);
    let all = keyword_matches(&eval, &table, &vec![]).unwrap();
    assert_eq!(all.len() == 1, gap < 0.951f32);
}

#[test]
fn excess_words_of_the_index_lower_the_distance() {
    let mut index: FnvHashMap<String, usize> = FnvHashMap::default();
    index.insert("auto".to_string(), 1);
    let wrs = vec![s(0.5), s(0.5)];
    let low =
        |list: &[&str]| f(lower_distance(&eval, s(0.5), &strings(list), &index, &wrs).unwrap());
    assert_eq!(low(&[]), 0.5);
    assert_eq!(low(&["x"]), 0.5);
    assert_eq!(low(&["auto"]), 0.25);
    assert_eq!(low(&["auto", "auto", "auto"]), 0.0);
}

#[test]
fn shared_words_count_for_the_smaller_relevance() {
    let mut index: FnvHashMap<String, usize> = FnvHashMap::default();
    index.insert("red".to_string(), 0);
    index.insert("car".to_string(), 1);
    let cand = Candidate {
        query: "red x red".to_string(),
        words: strings(&["red", "x", "red"]),
        wrs: vec![s(0.25), s(0.5), s(0.75)],
    };
    let words = strings(&["red", "car"]);
    let out = share_words(&eval, &index, &words, &vec![s(0.5), s(0.5)], &cand).unwrap();
    let out: Vec<f32> = out.iter().map(|x| f(*x)).collect();
    assert_eq!(out, vec![0.75, 0.0]);
}

#[test]
fn all_shards_are_searched_unless_told() {
    assert_eq!(searched_shards(None, 4), 0..4);
    assert_eq!(searched_shards(Some(1..3), 4), 1..3);
}

#[test]
fn search_finds_the_nearest_first() {
    let (a, b) = maps();
    let (x, y) = (first_bytes(), second_bytes());
    let t0 = strings(&["blue car", "car red"]);
    let t1 = strings(&["red sun"]);
    let shards = vec![
        Shard { map: &a, shard: &x, i2q: Some(&t0) },
        Shard { map: &b, shard: &y, i2q: Some(&t1) },
    ];
    let index = Qpick::new(shards, None, 2, 6);
    assert!(index.i2q_is_loaded());
    let hooks = Hooks {
        parse,
        shard_of,
        float: eval,
        unpair,
        number,
        match_words,
        vectors: no_vectors,
    };
    let list = index.get(&hooks, "red car", 10, false).unwrap();
    assert_eq!(ids(&list), vec![2, 0, 1]);
    assert_eq!(list[0].query, Some("car red".to_string()));
    assert_eq!(f(list[0].dist.keyword), 0.0);
    assert_eq!(list[0].dist.query_id, 2);
    assert!(list[0].dist.cosine.is_none());
    assert_eq!(f(list[1].dist.keyword), 0.5);
    assert_eq!(list[1].query, Some("blue car".to_string()));
    assert_eq!(list[2].query, Some("red sun".to_string()));

    let two = index.get(&hooks, "red car", 2, false).unwrap();
    assert_eq!(ids(&two), vec![2, 0]);
    assert!(index.get(&hooks, "", 5, false).unwrap().is_empty());
    assert!(index.get(&hooks, "red car", 0, false).unwrap().is_empty());
    assert!(index.get(&hooks, "green", 5, false).unwrap().is_empty());

    let mut one_by_one = index.get_search_results(&hooks, "red car", 2, false).unwrap();
    assert_eq!(one_by_one.next().map(|r| r.query_id), Some(2));
    assert_eq!(one_by_one.next().map(|r| r.query_id), Some(0));
    assert!(one_by_one.next().is_none());

    let rows = index.get_search_rows(&hooks, "red car", 1, false).unwrap();
    assert_eq!(rows.len(), 1);
    assert_eq!(rows[0].0, 2);
    assert_eq!(rows[0].1.query_id, 2);
    assert_eq!(rows[0].2, "car red");
}

#[test]
fn words_that_must_be_there_are_required() {
    let (a, b) = maps();
    let (x, y) = (first_bytes(), second_bytes());
    let shards = vec![
        Shard { map: &a, shard: &x, i2q: None },
        Shard { map: &b, shard: &y, i2q: None },
    ];
    let index = Qpick::new(shards, None, 2, 6);
    assert!(!index.i2q_is_loaded());
    let strict = |q: &str| {
        let mut p = parse(q);
        p.must_have = vec![1];
        p
    };
    let hooks = Hooks {
        parse: strict,
        shard_of,
        float: eval,
        unpair,
        number,
        match_words,
        vectors: no_vectors,
    };
    let list = index.get(&hooks, "red car", 10, true).unwrap();
    assert_eq!(ids(&list), vec![2, 0]);
    assert_eq!(list[0].query, Some(String::new()));
}

#[test]
fn vectors_give_a_cosine_distance() {
    let (a, b) = maps();
    let (x, y) = (first_bytes(), second_bytes());
    let t0 = strings(&["blue car", "car red"]);
    let t1 = strings(&["red sun"]);
    let shards = vec![
        Shard { map: &a, shard: &x, i2q: Some(&t0) },
        Shard { map: &b, shard: &y, i2q: Some(&t1) },
    ];
    let index = Qpick::new(shards, None, 2, 6);
    let vectors = |_: &Vec<String>, _: &MatchedWords| {
        Some(VectorReadings {
            counts: qpick::cosine::VectorCounts { nf_match: 0, nf_miss: 0, nf_excs: 0 },
            nf_query: 0,
            nf_cand: 0,
            excess_missing: s(0.5),
            missing_excess: s(0.5),
            query_cand: s(0.5),
            shifted: s(0.5),
        })
    };
    let hooks = Hooks { parse, shard_of, float: eval, unpair, number, match_words, vectors };
    let list = index.get(&hooks, "red car", 10, false).unwrap();
    assert_eq!(ids(&list), vec![2, 0, 1]);
    assert_eq!(list[0].dist.cosine.map(f), Some(0.0));
    assert_eq!(list[1].dist.cosine.map(f), Some(1.3f32 * 0.5 + 0.0));
}

#[test]
fn a_shard_that_is_not_open_is_reported() {
    let (a, _) = maps();
    let x = first_bytes();
    let index = Qpick::new(vec![Shard { map: &a, shard: &x, i2q: None }], None, 2, 6);
    let hooks = Hooks {
        parse,
        shard_of,
        float: eval,
        unpair,
        number,
        match_words,
        vectors: no_vectors,
    };
    assert_eq!(index.get(&hooks, "red", 1, false).err(), Some(IndexError::MissingShard));
    assert_eq!(ids(&index.get(&hooks, "car", 5, false).unwrap()), vec![0, 2]);
    let map = map_of(&[("car", 9u64)]);
    let broken = Qpick::new(vec![Shard { map: &map, shard: &x, i2q: None }], None, 2, 6);
    assert_eq!(broken.get(&hooks, "car", 1, false).err(), Some(IndexError::BadBucket));
    let texts = strings(&["only one"]);
    let short = Qpick::new(vec![Shard { map: &a, shard: &x, i2q: Some(&texts) }], None, 2, 6);
    assert_eq!(short.get(&hooks, "car", 1, false).err(), Some(IndexError::UnknownQuery));
}

#[test]
fn shards_out_of_range_are_not_searched() {
    let (a, b) = maps();
    let (x, y) = (first_bytes(), second_bytes());
    let shards = vec![
        Shard { map: &a, shard: &x, i2q: None },
        Shard { map: &b, shard: &y, i2q: None },
    ];
    let index = Qpick::new(shards, Some(0..1), 2, 6);
    let groups = index.shard_ngrams(&shard_of, &strings(&["red", "car"]));
    assert_eq!(groups.len(), 1);
    assert_eq!(groups[&0], vec![("car".to_string(), 1)]);
    let hooks = Hooks {
        parse,
        shard_of,
        float: eval,
        unpair,
        number,
        match_words,
        vectors: no_vectors,
    };
    assert_eq!(ids(&index.get(&hooks, "red car", 5, false).unwrap()), vec![0, 2]);
}

#[test]
fn queries_that_lack_what_is_needed_are_refused() {
    let (a, b) = maps();
    let (x, y) = (first_bytes(), second_bytes());
    let t0 = strings(&["blue car", "car red"]);
    let t1 = strings(&["red auto"]);
    let shards = vec![
        Shard { map: &a, shard: &x, i2q: Some(&t0) },
        Shard { map: &b, shard: &y, i2q: Some(&t1) },
    ];
    let index = Qpick::new(shards, None, 2, 6);
    let search = |change: fn(&mut ParsedQuery)| {
        let hooks = Hooks {
            parse: |q: &str| {
                let mut p = parse(q);
                change(&mut p);
                p
            },
            shard_of,
            float: eval,
            unpair,
            number,
            match_words,
            vectors: no_vectors,
        };
        index.get(&hooks, "red car", 10, false).map(|list| ids(&list))
    };
    assert_eq!(search(|_| {}), Ok(vec![2, 0, 1]));
    // A row covers a word that has no relevance, or that is none of the query.
    assert_eq!(search(|p| p.wrs = vec![s(0.5)]), Err(IndexError::BadQuery));
    assert_eq!(
        search(|p| {
            p.ngrams_ids.insert("red".to_string(), vec![0, 5]);
        }),
        Err(IndexError::BadQuery)
    );
    // A word must be there that is none of the query, and is looked for.
    assert_eq!(search(|p| p.must_have = vec![5]), Err(IndexError::BadQuery));
    // A synonym is of no word.
    assert_eq!(
        search(|p| {
            p.synonyms.insert(2, "x".to_string());
        }),
        Err(IndexError::BadQuery)
    );
    // A word in excess is found in the index, but has no relevance.
    assert_eq!(
        search(|p| {
            p.words.push("auto".to_string());
            p.synonyms.insert(2, "auto".to_string());
        }),
        Ok(vec![2, 0, 1])
    );
    assert_eq!(
        search(|p| {
            p.words.push("vehicle".to_string());
            p.synonyms.insert(2, "auto".to_string());
        }),
        Err(IndexError::BadQuery)
    );
}

#[test]
fn what_is_not_needed_may_be_missing() {
    let (a, b) = maps();
    let (x, y) = (first_bytes(), second_bytes());
    let shards = vec![
        Shard { map: &a, shard: &x, i2q: None },
        Shard { map: &b, shard: &y, i2q: None },
    ];
    let index = Qpick::new(shards, None, 2, 6);
    let search = |change: fn(&mut ParsedQuery)| {
        let hooks = Hooks {
            parse: |q: &str| {
                let mut p = parse(q);
                change(&mut p);
                p
            },
            shard_of,
            float: eval,
            unpair,
            number,
            match_words,
            vectors: no_vectors,
        };
        index.get(&hooks, "car", 10, false).map(|list| ids(&list))
    };
    // Nothing is found, so that no word is looked for.
    assert_eq!(
        search(|p| {
            p.ngrams = vec![];
            p.words = vec![];
            p.must_have = vec![5];
        }),
        Ok(vec![])
    );
    // A word that no ngram covers needs no relevance.
    assert_eq!(search(|p| p.words.push("x".to_string())), Ok(vec![0, 2]));
    // An ngram that is not found may cover anything.
    assert_eq!(
        search(|p| {
            p.ngrams_ids.insert("other".to_string(), vec![9]);
        }),
        Ok(vec![0, 2])
    );
    // The first word that must be there is not, so that the second is not looked for.
    assert_eq!(
        search(|p| {
            p.words.push("x".to_string());
            p.must_have = vec![1, 9];
        }),
        Ok(vec![])
    );
}

#[test]
fn distances_need_the_relevances_of_shared_words() {
    let index = Qpick::new(vec![], None, 2, 6);
    let bare = |q: &str| {
        let mut p = parse(q);
        p.wrs = vec![];
        p
    };
    let hooks = Hooks {
        parse: bare,
        shard_of,
        float: eval,
        unpair,
        number,
        match_words,
        vectors: no_vectors,
    };
    assert!(index.get_distances(&hooks, "red", &vec![]).unwrap().is_empty());
    let far = index.get_distances(&hooks, "red", &strings(&["blue"])).unwrap();
    assert_eq!(f(far[0].dist.keyword), 1.0);
    assert_eq!(
        index.get_distances(&hooks, "red", &strings(&["blue", "red"])).err(),
        Some(IndexError::BadQuery)
    );
    let astray = |q: &str| {
        let mut p = parse(q);
        p.synonyms.insert(7, "x".to_string());
        p
    };
    let hooks = Hooks {
        parse: astray,
        shard_of,
        float: eval,
        unpair,
        number,
        match_words,
        vectors: no_vectors,
    };
    assert_eq!(
        index.get_distances(&hooks, "red", &vec![]).err(),
        Some(IndexError::BadQuery)
    );
    assert!(parse("red car").check_synonyms());
    assert!(!astray("red car").check_synonyms());
}

#[test]
fn maps_are_built_from_ascending_keys() {
    let build = |list: &[(&str, u64)]| {
        build_map(list.iter().map(|e| (e.0.to_string(), e.1)).collect())
    };
    assert!(build(&[]).is_some());
    assert!(build(&[("b", 1), ("a", 2)]).is_none());
    assert!(build(&[("a", 1), ("a", 1)]).is_none());
    let map = build(&[("", 7000), ("a", 1002), ("ab", 3004), ("z\u{fc}", u64::MAX)]).unwrap();
    assert_eq!(get_addr_and_len("", &map, &unpair), Some((7, 0)));
    assert_eq!(get_addr_and_len("a", &map, &unpair), Some((1, 2)));
    assert_eq!(get_addr_and_len("ab", &map, &unpair), Some((3, 4)));
    assert_eq!(get_addr_and_len("abc", &map, &unpair), None);
    assert_eq!(
        get_addr_and_len("z\u{fc}", &map, &unpair),
        Some((u64::MAX / 1000, u64::MAX % 1000))
    );
}

#[test]
fn distances_follow_the_candidates() {
    let index = Qpick::new(vec![], None, 2, 6);
    let hooks = Hooks {
        parse,
        shard_of,
        float: eval,
        unpair,
        number,
        match_words,
        vectors: no_vectors,
    };
    let cands = strings(&["car red", "blue car", "sun"]);
    let list = index.get_distances(&hooks, "red car", &cands).unwrap();
    let got: Vec<(String, u64, f32)> =
        list.iter().map(|r| (r.query.clone(), r.dist.query_id, f(r.dist.keyword))).collect();
    assert_eq!(
        got,
        vec![
            ("car red".to_string(), 0, 0.0),
            ("blue car".to_string(), 1, 0.5),
            ("sun".to_string(), 2, 1.0)
        ]
    );
    assert!(index.get_distances(&hooks, "", &cands).unwrap().is_empty());
    let mut it = index.get_dist_results(&hooks, "red car", &cands).unwrap();
    assert_eq!(it.next().map(|r| r.query), Some("car red".to_string()));
    assert_eq!(it.next().map(|r| r.query), Some("blue car".to_string()));
    assert_eq!(it.next().map(|r| r.query), Some("sun".to_string()));
    assert!(it.next().is_none());
}

// One shard of 250 queries that all hold "car".
fn many() -> (fst::Map, Vec<u8>, Vec<String>) {
    let map = map_of(&[("car", 250u64)]);
    let mut data = Vec::new();
    let mut texts = Vec::new();
    for i in 0..250u32 {
        data.extend(record(i, 0, 50));
        texts.push(match i {
            150 => "car best".to_string(),
            220 => "car top".to_string(),
            _ => "car x".to_string(),
        });
    }
    (map, data, texts)
}

#[test]
fn enough_matches_are_looked_at_closer() {
    let (map, data, texts) = many();
    let index = Qpick::new(vec![Shard { map: &map, shard: &data, i2q: Some(&texts) }], None, 1, 6);
    let vectors = |_: &Vec<String>, found: &MatchedWords| {
        let cosine = if found.cand_words.contains(&"top".to_string()) {
            0.05
        } else if found.cand_words.contains(&"best".to_string()) {
            0.1
        } else {
            0.9
        };
        Some(VectorReadings {
            counts: qpick::cosine::VectorCounts { nf_match: 0, nf_miss: 0, nf_excs: 0 },
            nf_query: 0,
            nf_cand: 0,
            excess_missing: s(0.0),
            missing_excess: s(0.0),
            query_cand: s(cosine),
            shifted: s(0.0),
        })
    };
    let hooks = Hooks {
        parse,
        shard_of: |_: &String, _: u32| 0u32,
        float: eval,
        unpair,
        number,
        match_words,
        vectors,
    };
    let one = index.get(&hooks, "car", 1, false).unwrap();
    assert_eq!(ids(&one), vec![150]);
    assert_eq!(one[0].dist.cosine.map(f), Some(0.1));
    let all = index.get(&hooks, "car", 250, false).unwrap();
    assert_eq!(all.len(), 250);
    assert_eq!(ids(&all)[..4].to_vec(), vec![220, 150, 0, 1]);
    let rows = index.get_search_rows(&hooks, "car", 7, false).unwrap();
    assert_eq!(rows.len(), 7);
    assert_eq!(rows[0].0, 150);
    assert_eq!(rows[0].2, "car best");
    let rows = index.get_search_rows(&hooks, "car", 8, false).unwrap();
    assert_eq!(rows.len(), 8);
    assert_eq!(rows[0].0, 220);
    assert_eq!(rows[0].2, "car top");
}

#[test]
fn tfidf_weighs_the_relevance() {
    let (map, data, texts) = many();
    let index = Qpick::new(vec![Shard { map: &map, shard: &data, i2q: Some(&texts) }], None, 1, 6);
    let hooks = Hooks {
        parse,
        shard_of: |_: &String, _: u32| 0u32,
        float: eval,
        unpair,
        number,
        match_words,
        vectors: no_vectors,
    };
    let plain = index.get(&hooks, "car", 3, false).unwrap();
    assert_eq!(ids(&plain), vec![0, 1, 2]);
    assert_eq!(f(plain[0].dist.keyword), 0.0);
    let weighed = index.get(&hooks, "car", 3, true).unwrap();
    assert_eq!(f(weighed[0].dist.keyword), 0.5);
}

#[test]
fn synonyms_lower_the_distance_of_a_match() {
    let (map, data, _) = many();
    let texts: Vec<String> = (0..250).map(|_| "car auto".to_string()).collect();
    let index = Qpick::new(vec![Shard { map: &map, shard: &data, i2q: Some(&texts) }], None, 1, 6);
    let with_synonym = |q: &str| {
        let mut p = parse(q);
        p.synonyms.insert(1, "auto".to_string());
        p
    };
    let hooks = Hooks {
        parse: with_synonym,
        shard_of: |_: &String, _: u32| 0u32,
        float: eval,
        unpair,
        number,
        match_words,
        vectors: no_vectors,
    };
    let list = index.get(&hooks, "car vehicle", 1, false).unwrap();
    assert_eq!(f(list[0].dist.keyword), 0.25);
}

#[test]
fn a_smaller_count_gives_a_prefix() {
    let (map, data, texts) = many();
    let index = Qpick::new(vec![Shard { map: &map, shard: &data, i2q: Some(&texts) }], None, 1, 6);
    let hooks = Hooks {
        parse,
        shard_of: |_: &String, _: u32| 0u32,
        float: eval,
        unpair,
        number,
        match_words,
        vectors: no_vectors,
    };
    let all = ids(&index.get(&hooks, "car", 200, false).unwrap());
    for count in [1usize, 6, 199, 200] {
        let some = ids(&index.get(&hooks, "car", count as u32, false).unwrap());
        assert_eq!(some, all[..count].to_vec());
    }
    let parsed = parse("car");
    let none = index.get_matches(&hooks, &parsed, None, false).unwrap();
    assert_eq!(ids(&none), all);
    let rows = index.get_search_rows(&hooks, "car", 6, false).unwrap();
    let got: Vec<u64> = rows.iter().map(|r| r.0).collect();
    assert_eq!(got, ids(&index.get(&hooks, "car", 6, false).unwrap()));
}

#[test]
fn relevances_count_only_with_tfidf() {
    let (map, data, texts) = many();
    let mut other = data.clone();
    for i in 0..250usize {
        other[i * 6 + 5] = i as u8;
    }
    let find = |bytes: &Vec<u8>, tr: f32, with_tfidf: bool| {
        let index =
            Qpick::new(vec![Shard { map: &map, shard: bytes, i2q: Some(&texts) }], None, 1, 6);
        let hooks = Hooks {
            parse: |q: &str| {
                let mut p = parse(q);
                p.trs = vec![s(tr)];
                p
            },
            shard_of: |_: &String, _: u32| 0u32,
            float: eval,
            unpair,
            number,
            match_words,
            vectors: no_vectors,
        };
        index
            .get(&hooks, "car", 250, with_tfidf)
            .unwrap()
            .iter()
            .map(|r| (r.query_id, r.dist.keyword.bits))
            .collect::<Vec<(u64, u32)>>()
    };
    assert_eq!(find(&data, 1.0, false), find(&other, 0.3, false));
    assert_ne!(find(&data, 1.0, true), find(&other, 0.3, true));
    // With tf-idf, matches are only dropped.
    let plain = find(&other, 1.0, false);
    let weighed = find(&other, 1.0, true);
    assert!(weighed.len() < plain.len());
    assert!(weighed.iter().all(|w| plain.iter().any(|p| p.0 == w.0)));
}

#[test]
fn weights_grow_with_the_relevance_that_is_found() {
    let weight = |rel: u8, asked: f32| {
        f(SearchShardResult::new(
            &eval,
            &number,
            0,
            0,
            1,
            rel,
            s(asked),
            0,
            String::new(),
            None,
            true,
        )
        .weight_rel)
    };
    for n in 0..255u8 {
        for q in [0.01f32, 0.3, 0.7, 1.0, 2.5] {
            assert!(weight(n, q) <= weight(n + 1, q));
            assert!(weight(n, q * 1.5) <= weight(n, q));
        }
    }
}

#[test]
fn joined_candidates_keep_their_distances() {
    let index = Qpick::new(vec![], None, 2, 6);
    let hooks = Hooks {
        parse,
        shard_of,
        float: eval,
        unpair,
        number,
        match_words,
        vectors: no_vectors,
    };
    let a = strings(&["car red", "blue"]);
    let b = strings(&["sun", "red sun"]);
    let both: Vec<String> = a.iter().chain(b.iter()).cloned().collect();
    let rows = |list: &Vec<String>, start: u64| {
        index
            .get_distances(&hooks, "red car", list)
            .unwrap()
            .iter()
            .map(|r| (r.query.clone(), r.dist.query_id + start, r.dist.keyword.bits))
            .collect::<Vec<(String, u64, u32)>>()
    };
    let mut parts = rows(&a, 0);
    parts.extend(rows(&b, 2));
    assert_eq!(rows(&both, 0), parts);
}

#[test]
fn groups_of_adjoining_ranges_join() {
    let ngrams = strings(&["car", "red", "blue", "sun", "auto"]);
    let place = |ngram: &String, shards: u32| ngram.len() as u32 % shards;
    let groups = |range: std::ops::Range<u32>| {
        Qpick::new(vec![], Some(range), 3, 6).shard_ngrams(&place, &ngrams)
    };
    let (low, high, all) = (groups(0..1), groups(1..3), groups(0..3));
    assert_eq!(low.len() + high.len(), all.len());
    for (shard, list) in low.iter().chain(high.iter()) {
        assert_eq!(all[shard], *list);
    }
    assert_eq!(all.values().map(|list| list.len()).sum::<usize>(), ngrams.len());
}

#[test]
fn the_order_of_rows_does_not_count_without_tfidf() {
    let row = |id: u32, ngram: &str, rel: u8, with_tfidf: bool| {
        SearchShardResult::new(
            &eval,
            &number,
            0,
            id,
            1,
            rel,
            s(1.0),
            0,
            ngram.to_string(),
            None,
            with_tfidf,
        )
    };
    let mut covered: FnvHashMap<String, Vec<usize>> = FnvHashMap::default();
    covered.insert("ab".to_string(), vec![0, 1]);
    covered.insert("bc".to_string(), vec![1, 2]);
    let wrs = vec![s(0.25), s(0.5), s(0.25)];
    let counts = |with_tfidf: bool, turned: bool| {
        let mut rows = vec![row(4, "ab", 50, with_tfidf), row(4, "bc", 80, with_tfidf)];
        if turned {
            rows.reverse();
        }
        let (table, _) = tally_results(&eval, &rows, &covered, &wrs, 3).unwrap();
        table[&4].iter().map(|x| f(*x)).collect::<Vec<f32>>()
    };
    assert_eq!(counts(false, false), vec![0.25, 0.5, 0.25]);
    assert_eq!(counts(false, true), counts(false, false));
    // With tf-idf a word counts for one of the rows that cover it.
    assert_eq!(counts(true, false), vec![0.125, 0.25, 0.25 * 0.8]);
    assert_eq!(counts(true, true), vec![0.125, 0.5 * 0.8, 0.25 * 0.8]);
}

#[test]
fn handed_out_results_are_those_of_get() {
    let (map, data, texts) = many();
    let index = Qpick::new(vec![Shard { map: &map, shard: &data, i2q: Some(&texts) }], None, 1, 6);
    let hooks = Hooks {
        parse,
        shard_of: |_: &String, _: u32| 0u32,
        float: eval,
        unpair,
        number,
        match_words,
        vectors: no_vectors,
    };
    let list = index.get(&hooks, "car", 9, true).unwrap();
    let mut out = index.get_search_results(&hooks, "car", 9, true).unwrap();
    for one in &list {
        let next = out.next().unwrap();
        assert_eq!(next.query_id, one.query_id);
        assert_eq!(next.query, one.query);
        assert_eq!(next.dist.keyword.bits, one.dist.keyword.bits);
    }
    assert!(out.next().is_none());
    assert!(out.next().is_none());
}

#[test]
fn global_ids_tell_queries_apart() {
    let id = |shard: u8, query: u32| {
        SearchShardResult::new(
            &eval,
            &number,
            shard,
            query,
            7,
            50,
            s(0.5),
            0,
            String::new(),
            None,
            true,
        )
        .query_id
    };
    let mut seen = std::collections::HashSet::new();
    for shard in 0..7u8 {
        for query in 0..50u32 {
            assert!(seen.insert(id(shard, query)));
        }
    }
}

#[test]
fn lowered_distances_are_not_above() {
    let mut index: FnvHashMap<String, usize> = FnvHashMap::default();
    index.insert("auto".to_string(), 0);
    for dist in [0.0f32, 0.3, 0.95] {
        for rel in [0.0f32, 0.2, 1.0, 5.0] {
            let low = lower_distance(
                &eval,
                s(dist),
                &strings(&["auto", "x", "auto"]),
                &index,
                &vec![s(rel)],
            );
            let low = f(low.unwrap());
            assert!(0.0 <= low && low <= dist);
        }
    }
}
