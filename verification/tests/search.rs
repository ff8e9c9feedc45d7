use synaptclip::search::bloom::BloomFilter;
use synaptclip::search::classifier::ClipClassifier;
use synaptclip::search::depq::Depq;
use synaptclip::search::engine::{MatchType, SearchEngine};
use synaptclip::search::fuzzy::{levenshtein, within_distance, FuzzySearcher};
use synaptclip::search::huffman::{build_codes, build_tree, compress_for_storage, decode, encode, HuffmanEncoded, HuffmanNode};
use synaptclip::search::suffix_array::{SuffixArray, SuffixIndex};
use synaptclip::search::trie::Trie;

/// A filter sized for `expected_items` at the given false-positive rate.
fn sized_filter(expected_items: usize, false_positive_rate: f64) -> BloomFilter {
    let n = expected_items.max(1) as f64;
    let p = false_positive_rate.clamp(1e-9, 0.999);
    let ln2 = std::f64::consts::LN_2;
    let num_bits = ((-n * p.ln() / (ln2 * ln2)).ceil() as usize).max(8);
    let num_hashes = (((num_bits as f64 / n) * ln2).round() as usize).max(1);
    BloomFilter::with_parameters(num_bits, num_hashes)
}

// Bloom filter

#[test]
fn insert_then_probably_contains() {
    let mut b = sized_filter(100, 0.01);
    b.insert("hello");
    assert!(b.probably_contains("hello"));
}

#[test]
fn never_inserted_returns_false() {
    let mut b = sized_filter(1000, 0.001);
    b.insert("only-one-item");
    assert!(!b.probably_contains("definitely-not-inserted-42"));
    assert!(!b.probably_contains("another-missing-xyz-789"));
}

#[test]
fn clear_resets_filter() {
    let mut b = sized_filter(100, 0.01);
    b.insert("foo");
    assert!(b.probably_contains("foo"));
    b.clear();
    assert!(!b.probably_contains("foo"));
}

#[test]
fn distinct_strings_do_not_collide() {
    let b_check = sized_filter(1000, 0.001);
    let mut b = sized_filter(1000, 0.001);
    b.insert("alpha");
    assert!(b.probably_contains("alpha"));
    assert!(!b.probably_contains("beta"));
    assert!(!b.probably_contains("gamma"));
    assert!(!b_check.probably_contains("alpha"));
}

#[test]
fn filter_sizing_matches_the_engine_constants() {
    let b = sized_filter(1000, 0.01);
    assert_eq!(b.num_bits(), 9586);
    assert_eq!(b.num_hashes(), 7);
    assert_eq!(b.item_count(), 0);
}

// Classifier

fn cat(content: &str) -> &'static str {
    ClipClassifier::new().classify(content).label()
}

#[test]
fn link_https() {
    assert_eq!(cat("https://github.com/user/repo"), "Link");
}

#[test]
fn link_http() {
    assert_eq!(cat("http://example.com"), "Link");
}

#[test]
fn link_www() {
    assert_eq!(cat("www.google.com"), "Link");
}

#[test]
fn filepath_absolute() {
    assert_eq!(cat("/home/user/documents/file.txt"), "File Path");
}

#[test]
fn filepath_home() {
    assert_eq!(cat("~/projects/synaptclip"), "File Path");
}

#[test]
fn filepath_relative() {
    assert_eq!(cat("./src/main.rs"), "File Path");
}

#[test]
fn code_fn() {
    assert_eq!(cat("fn main() { println!(\"hello\"); }"), "Code");
}

#[test]
fn code_import() {
    assert_eq!(cat("import React from react"), "Code");
}

#[test]
fn email() {
    assert_eq!(cat("user@example.com"), "Email");
}

#[test]
fn color_hex7() {
    assert_eq!(cat("#1a2b3c"), "Color");
}

#[test]
fn color_hex4() {
    assert_eq!(cat("#fff"), "Color");
}

#[test]
fn color_invalid_chars_not_color() {
    assert_ne!(cat("#xyz123"), "Color");
}

#[test]
fn plain_text() {
    assert_eq!(cat("hello world this is plain text"), "Plain Text");
}

#[test]
fn empty_string_plain_text() {
    assert_eq!(cat(""), "Plain Text");
}

#[test]
fn windows_drive_path_and_leading_at_sign() {
    assert_eq!(cat("C:\\Users\\me"), "File Path");
    assert_eq!(cat("@handle.example"), "Plain Text");
}

// Double-ended priority queue

#[test]
fn peek_returns_both_ends() {
    let mut d: Depq<i32> = Depq::new();
    d.push(3);
    d.push(1);
    d.push(5);
    d.push(2);
    assert_eq!(d.peek_min(), Some(&1));
    assert_eq!(d.peek_max(), Some(&5));
}

#[test]
fn pop_min_returns_smallest() {
    let mut d: Depq<i32> = Depq::new();
    for v in [3, 1, 5, 2, 4] {
        d.push(v);
    }
    assert_eq!(d.pop_min(), Some(1));
    assert_eq!(d.pop_min(), Some(2));
}

#[test]
fn pop_max_returns_largest() {
    let mut d: Depq<i32> = Depq::new();
    for v in [3, 1, 5, 2, 4] {
        d.push(v);
    }
    assert_eq!(d.pop_max(), Some(5));
    assert_eq!(d.pop_max(), Some(4));
}

#[test]
fn interleaved_pushes_and_pops() {
    let mut d: Depq<i32> = Depq::new();
    d.push(10);
    d.push(1);
    assert_eq!(d.pop_min(), Some(1));
    d.push(5);
    d.push(20);
    assert_eq!(d.pop_max(), Some(20));
    assert_eq!(d.pop_min(), Some(5));
    assert_eq!(d.pop_max(), Some(10));
    assert!(d.is_empty());
}

#[test]
fn single_element_both_ends_equal() {
    let mut d: Depq<i32> = Depq::new();
    d.push(42);
    assert_eq!(d.peek_min(), Some(&42));
    assert_eq!(d.peek_max(), Some(&42));
    assert_eq!(d.len(), 1);
}

#[test]
fn empty_depq_returns_none() {
    let mut d: Depq<i32> = Depq::new();
    assert_eq!(d.pop_min(), None);
    assert_eq!(d.pop_max(), None);
    assert!(d.is_empty());
}

#[test]
fn duplicates_and_pairs_are_kept() {
    let mut d: Depq<(i64, i64)> = Depq::new();
    d.push((2, 1));
    d.push((1, 9));
    d.push((2, 0));
    d.push((1, 9));
    assert_eq!(d.len(), 4);
    assert_eq!(d.pop_min(), Some((1, 9)));
    assert_eq!(d.pop_min(), Some((1, 9)));
    assert_eq!(d.pop_max(), Some((2, 1)));
    assert_eq!(d.peek_min(), Some(&(2, 0)));
}

// Search engine

fn clip(id: i64, content: &str, pinned: bool) -> (i64, String, bool) {
    (id, content.to_string(), pinned)
}

#[test]
fn prefix_hit_takes_priority() {
    let mut eng = SearchEngine::new();
    eng.index_clip(1, "hello world");
    eng.index_clip(2, "say hello to the world");
    let clips = vec![clip(1, "hello world", false), clip(2, "say hello to the world", false)];
    let results = eng.search("hello", &clips, &[]);
    assert!(!results.is_empty());
    assert_eq!(results[0].clip_id, 1);
    assert_eq!(results[0].match_type, MatchType::Prefix);
}

#[test]
fn substring_when_no_prefix() {
    let mut eng = SearchEngine::new();
    eng.index_clip(1, "the quick brown fox");
    let clips = vec![clip(1, "the quick brown fox", false)];
    let results = eng.search("quick", &clips, &[]);
    assert_eq!(results.len(), 1);
    assert_eq!(results[0].match_type, MatchType::Substring);
}

#[test]
fn fuzzy_fallback_when_empty() {
    let mut eng = SearchEngine::new();
    eng.index_clip(1, "please receive the letter");
    let clips = vec![clip(1, "please receive the letter", false)];
    let results = eng.search("recieve", &clips, &[]);
    assert_eq!(results.len(), 1);
    assert_eq!(results[0].match_type, MatchType::Fuzzy);
}

#[test]
fn pinned_boost_raises_score() {
    let mut eng = SearchEngine::new();
    eng.index_clip(1, "hello a");
    eng.index_clip(2, "hello b");
    let clips = vec![clip(1, "hello a", false), clip(2, "hello b", true)];
    let results = eng.search("hello", &clips, &[]);
    let pinned_score = results.iter().find(|r| r.clip_id == 2).map(|r| r.doubled_score).unwrap_or(0);
    let other_score = results.iter().find(|r| r.clip_id == 1).map(|r| r.doubled_score).unwrap_or(0);
    assert!(pinned_score > other_score);
}

#[test]
fn is_probable_duplicate_true_after_insert() {
    let mut eng = SearchEngine::new();
    eng.index_clip(1, "hello");
    assert!(eng.is_probable_duplicate("hello"));
}

#[test]
fn empty_query_returns_nothing() {
    let eng = SearchEngine::new();
    let results = eng.search("", &[], &[]);
    assert!(results.is_empty());
}

#[test]
fn scores_and_positions_follow_the_rules() {
    let mut eng = SearchEngine::new();
    eng.build_from_clips(&[(1, "Hello world".to_string()), (2, "say hello".to_string())]);
    let clips = vec![clip(1, "Hello world", false), clip(2, "say hello", false)];
    let results = eng.search("hello", &clips, &[2]);
    assert_eq!(results.len(), 2);
    assert_eq!(results[0].clip_id, 1);
    assert_eq!(results[0].doubled_score, 10);
    assert_eq!(results[0].match_positions, vec![(0, 5)]);
    assert_eq!(results[1].clip_id, 2);
    assert_eq!(results[1].doubled_score, 8);
    assert_eq!(results[1].match_type, MatchType::Substring);
    assert_eq!(results[1].match_positions, vec![(4, 9)]);
    assert_eq!(MatchType::Fuzzy.as_str(), "fuzzy");
    eng.remove_clip(1, "Hello world");
    let after = eng.search("hello", &clips, &[]);
    assert_eq!(after.len(), 1);
    assert_eq!(after[0].clip_id, 2);
}

#[test]
fn fuzzy_score_drops_half_a_point_per_edit() {
    let mut eng = SearchEngine::new();
    eng.index_clip(3, "receive");
    let clips = vec![clip(3, "receive", true)];
    let results = eng.search("recieve", &clips, &[]);
    assert_eq!(results.len(), 1);
    assert_eq!(results[0].doubled_score, 4 - 2 + 20);
}

// Fuzzy search

#[test]
fn empty_strings() {
    assert_eq!(levenshtein("", ""), 0);
}

#[test]
fn identical_strings() {
    assert_eq!(levenshtein("abc", "abc"), 0);
}

#[test]
fn single_deletion() {
    assert_eq!(levenshtein("abc", "ab"), 1);
}

#[test]
fn single_substitution() {
    assert_eq!(levenshtein("abc", "axc"), 1);
}

#[test]
fn two_insertions() {
    assert_eq!(levenshtein("abc", "aXYc"), 2);
}

#[test]
fn kitten_sitting() {
    assert_eq!(levenshtein("kitten", "sitting"), 3);
}

#[test]
fn within_distance_compares_lowercased_lengths() {
    // 'İ' lowercases to 'i' followed by a combining dot.
    assert!(within_distance("\u{130}", "i\u{307}", 0));
    assert_eq!(levenshtein("\u{130}", "i\u{307}"), 0);
}

#[test]
fn fuzzy_search_finds_words_that_lengthen_when_lowercased() {
    let s = FuzzySearcher::new(0);
    let clips = vec![(4, String::from("x \u{130}"))];
    assert_eq!(s.search("i\u{307}", &clips), vec![(4, 0)]);
}

#[test]
fn within_distance_early_exits_on_length() {
    assert!(!within_distance("a", "abcdef", 2));
    assert!(within_distance("abc", "abcd", 1));
}

#[test]
fn fuzzy_finds_typo() {
    let searcher = FuzzySearcher::new(2);
    let clips = vec![(1, "please receive the letter".to_string())];
    let results = searcher.search("recieve", &clips);
    assert_eq!(results.len(), 1);
    assert_eq!(results[0].0, 1);
    assert!(results[0].1 <= 2);
}

#[test]
fn fuzzy_skips_beyond_threshold() {
    let searcher = FuzzySearcher::new(1);
    let clips = vec![(1, "completely different".to_string())];
    let results = searcher.search("xyz", &clips);
    assert!(results.is_empty());
}

#[test]
fn fuzzy_results_sorted_ascending() {
    let searcher = FuzzySearcher::new(3);
    let clips = vec![
        (1, "abcd".to_string()),
        (2, "abc".to_string()),
        (3, "axcd".to_string()),
    ];
    let results = searcher.search("abc", &clips);
    let distances: Vec<usize> = results.iter().map(|(_, d)| *d).collect();
    let mut sorted = distances.clone();
    sorted.sort();
    assert_eq!(distances, sorted);
    assert_eq!(results[0].0, 2);
}

#[test]
fn unicode_distance() {
    assert_eq!(levenshtein("café", "cafe"), 1);
    assert_eq!(levenshtein("日本語", "日本"), 1);
}

#[test]
fn distance_ignores_case_and_surrounding_space() {
    assert_eq!(levenshtein("  Hello ", "hello"), 0);
    assert_eq!(levenshtein("flaw", "lawn"), levenshtein("lawn", "flaw"));
    assert_eq!(levenshtein("flaw", "lawn"), 2);
}

// Huffman coding

#[test]
fn roundtrip_ascii() {
    let text = "the quick brown fox jumps over the lazy dog";
    let encoded = encode(text).expect("encodes");
    let decoded = decode(&encoded).expect("decodes");
    assert_eq!(decoded, text);
}

#[test]
fn roundtrip_unicode() {
    let text = "café 日本語 emoji-free text";
    let encoded = encode(text).expect("encodes");
    let decoded = decode(&encoded).expect("decodes");
    assert_eq!(decoded, text);
}

#[test]
fn more_frequent_chars_get_shorter_codes() {
    let text = "aaaaaaaaaaaaaaaaaaaabcd";
    let tree = build_tree(text).expect("tree");
    let codes = build_codes(&tree);
    let a_len = codes.get(&'a').unwrap().len();
    let d_len = codes.get(&'d').unwrap().len();
    assert!(a_len <= d_len);
}

#[test]
fn empty_input_returns_none() {
    assert!(encode("").is_none());
    assert!(build_tree("").is_none());
}

#[test]
fn decode_rejects_malformed() {
    let bad = HuffmanEncoded {
        bits: vec![],
        bit_length: 0,
        freq_table: vec![],
        original_len: 0,
    };
    assert!(decode(&bad).is_err());
}

#[test]
fn repetitive_content_shrinks() {
    let text: String = "ababababab".repeat(100);
    let encoded = encode(&text).expect("encodes");
    assert!(encoded.bits.len() < text.len());
}

#[test]
fn single_symbol_text_roundtrips() {
    let encoded = encode("zzzz").expect("encodes");
    assert_eq!(encoded.bit_length, 4);
    assert_eq!(encoded.original_len, 4);
    assert_eq!(decode(&encoded).expect("decodes"), "zzzz");
}

// Suffix arrays

#[test]
fn contains_exact_match() {
    let sa = SuffixArray::build("hello");
    assert!(sa.contains("hello"));
}

#[test]
fn contains_middle_substring() {
    let sa = SuffixArray::build("the quick brown fox");
    assert!(sa.contains("quick"));
    assert!(sa.contains("brown fox"));
}

#[test]
fn contains_missing_returns_false() {
    let sa = SuffixArray::build("hello world");
    assert!(!sa.contains("zz"));
}

#[test]
fn find_all_returns_positions() {
    let sa = SuffixArray::build("abcabcabc");
    let mut positions = sa.find_all("abc");
    positions.sort();
    assert_eq!(positions, vec![0, 3, 6]);
}

#[test]
fn suffix_index_roundtrip() {
    let mut idx = SuffixIndex::new();
    idx.index_clip(1, "hello world");
    idx.index_clip(2, "goodbye world");
    let mut hits = idx.search("world");
    hits.sort();
    assert_eq!(hits, vec![1, 2]);
}

#[test]
fn remove_clip_drops_entry() {
    let mut idx = SuffixIndex::new();
    idx.index_clip(1, "hello");
    idx.remove_clip(1);
    assert!(idx.search("hello").is_empty());
}

#[test]
fn suffix_array_normalisation_case_insensitive() {
    let mut idx = SuffixIndex::new();
    idx.index_clip(1, "Hello World");
    assert_eq!(idx.search("world"), vec![1]);
}

#[test]
fn content_longer_than_500_truncated() {
    let mut idx = SuffixIndex::new();
    let long: String = "a".repeat(600) + "UNIQUE";
    idx.index_clip(1, &long);
    assert!(idx.search("unique").is_empty());
}

#[test]
fn empty_pattern_returns_false() {
    let sa = SuffixArray::build("hello");
    assert!(!sa.contains(""));
}

#[test]
fn reindexing_replaces_the_text_and_get_returns_it() {
    let mut idx = SuffixIndex::new();
    idx.index_clip(7, "first text");
    idx.index_clip(7, "Second TEXT");
    assert_eq!(idx.get(7).map(|sa| sa.text().to_string()), Some("second text".to_string()));
    assert!(idx.search("first").is_empty());
    assert!(idx.get(8).is_none());
    let sa = SuffixArray::build("banana");
    assert_eq!(sa.find_all("ana"), vec![1, 3]);
    assert!(sa.find_all("").is_empty());
}

// Trie

#[test]
fn insert_and_prefix_search_roundtrip() {
    let mut t = Trie::new();
    t.insert("hello world", 1);
    assert_eq!(t.prefix_search("hello"), vec![1]);
}

#[test]
fn multiple_ids_share_prefix() {
    let mut t = Trie::new();
    t.insert("foobar", 1);
    t.insert("foobaz", 2);
    let mut ids = t.prefix_search("foo");
    ids.sort();
    assert_eq!(ids, vec![1, 2]);
}

#[test]
fn unknown_prefix_returns_empty() {
    let mut t = Trie::new();
    t.insert("hello", 1);
    assert!(t.prefix_search("xyz").is_empty());
}

#[test]
fn remove_drops_id() {
    let mut t = Trie::new();
    t.insert("hello", 1);
    t.insert("hello", 2);
    t.remove(1);
    assert_eq!(t.prefix_search("hello"), vec![2]);
}

#[test]
fn shared_edge_is_compressed() {
    let mut t = Trie::new();
    t.insert("abc", 1);
    t.insert("abcdef", 2);
    let (label, below) = t.root_edge('a').expect("root has 'a' edge");
    assert_eq!(label, "abc");
    assert!(below.contains(&'d'));
}

#[test]
fn trie_normalisation_case_insensitive() {
    let mut t = Trie::new();
    t.insert("Hello", 1);
    assert_eq!(t.prefix_search("hello"), vec![1]);
    assert_eq!(t.prefix_search("HELLO"), vec![1]);
}

#[test]
fn empty_insert_does_not_panic() {
    let mut t = Trie::new();
    t.insert("", 1);
    t.insert("   ", 2);
    assert_eq!(t.size(), 0);
}

#[test]
fn long_content_is_truncated() {
    let mut t = Trie::new();
    let long: String = "x".repeat(300);
    t.insert(&long, 1);
    let short: String = "x".repeat(200);
    assert_eq!(t.prefix_search(&short), vec![1]);
}

#[test]
fn clear_empties_trie() {
    let mut t = Trie::new();
    t.insert("hello", 1);
    t.clear();
    assert_eq!(t.size(), 0);
    assert!(t.prefix_search("hello").is_empty());
}

#[test]
fn split_edges_keep_every_key() {
    let mut t = Trie::new();
    t.insert("team", 1);
    t.insert("tea", 2);
    t.insert("ten", 3);
    t.insert("tea", 2);
    let mut te = t.prefix_search("te");
    te.sort();
    assert_eq!(te, vec![1, 2, 3]);
    let mut tea = t.prefix_search("tea");
    tea.sort();
    assert_eq!(tea, vec![1, 2]);
    assert_eq!(t.prefix_search("team"), vec![1]);
    assert!(t.prefix_search("teams").is_empty());
    assert_eq!(t.size(), 4);
    t.remove(2);
    assert_eq!(t.prefix_search("tea"), vec![1]);
}

#[test]
fn earlier_items_stay_present_after_more_inserts() {
    let mut f = BloomFilter::with_parameters(64, 3);
    f.insert("alpha");
    for word in ["beta", "gamma", "delta", "epsilon"] {
        f.insert(word);
        assert!(f.probably_contains("alpha"));
    }
    assert_eq!(f.item_count(), 5);
}

#[test]
fn distance_zero_only_for_equal_strings() {
    assert_eq!(levenshtein("same text", "same text"), 0);
    assert_ne!(levenshtein("same text", "same texts"), 0);
}

#[test]
fn only_large_clips_are_compressed() {
    assert!(compress_for_storage("short clip").is_none());
    let exact: String = "x".repeat(512);
    assert!(compress_for_storage(&exact).is_none());
    let large: String = "abcabcabd".repeat(100);
    let encoded = compress_for_storage(&large).expect("large clip is compressed");
    assert_eq!(encoded.original_len, large.chars().count());
    assert_eq!(decode(&encoded).expect("decodes"), large);
}

#[test]
fn frequent_characters_never_get_longer_codes() {
    let text = "hello wonderful world";
    let tree = build_tree(text).expect("tree");
    let codes = build_codes(&tree);
    let l_len = codes.get(&'l').unwrap().len();
    for rare in ['h', 'e', 'w', 'n', 'f', 'u', ' ', 'd', 'r'] {
        assert!(l_len <= codes.get(&rare).unwrap().len(), "{rare}");
    }
}

fn hit(clip_id: i64, doubled_score: i64) -> synaptclip::search::engine::SearchResult {
    synaptclip::search::engine::SearchResult {
        clip_id,
        doubled_score,
        match_type: MatchType::Substring,
        match_positions: vec![],
    }
}

#[test]
fn hits_are_shown_by_score_then_rank() {
    let results = vec![hit(1, 6), hit(2, 10), hit(3, 6), hit(4, 6), hit(5, 6)];
    let ranked = vec![4, 3, 9, 1];
    let shown = synaptclip::commands::order_results(results, &ranked);
    let ids: Vec<i64> = shown.iter().map(|r| r.clip_id).collect();
    assert_eq!(ids, vec![2, 4, 3, 1, 5]);
}

#[test]
fn at_most_fifty_hits_are_shown() {
    let results: Vec<_> = (0..60).map(|i| hit(i, i)).collect();
    let shown = synaptclip::commands::order_results(results, &[]);
    assert_eq!(shown.len(), 50);
    assert_eq!(shown[0].clip_id, 59);
    assert_eq!(shown[49].clip_id, 10);
}

#[test]
fn repeats_and_categories_of_captured_text() {
    assert!(synaptclip::capture::is_repeat(true, Some("same"), "same"));
    assert!(!synaptclip::capture::is_repeat(false, Some("same"), "same"));
    assert!(!synaptclip::capture::is_repeat(true, Some("before"), "same"));
    assert!(!synaptclip::capture::is_repeat(true, None, "same"));
    let classifier = ClipClassifier::new();
    assert_eq!(synaptclip::capture::auto_category(&classifier, "https://example.com"), Some("Link"));
    assert_eq!(synaptclip::capture::auto_category(&classifier, "just words here"), None);
}

#[test]
fn excess_items_leave_smallest_first() {
    let mut d: Depq<(i64, i64)> = Depq::new();
    for (t, id) in [(30, 3), (10, 1), (50, 5), (20, 2), (40, 4)] {
        d.push((t, id));
    }
    assert_eq!(d.pop_excess(3), vec![(10, 1), (20, 2)]);
    assert_eq!(d.len(), 3);
    assert!(d.pop_excess(3).is_empty());
    assert_eq!(d.pop_min(), Some((30, 3)));
    assert_eq!(synaptclip::capture::HISTORY_LIMIT, 500);
}

#[test]
fn codes_are_prefix_free() {
    let text = "abracadabra, said the wizard";
    let tree = build_tree(text).expect("tree");
    let codes = build_codes(&tree);
    let symbols: Vec<char> = {
        let mut v: Vec<char> = text.chars().collect();
        v.sort();
        v.dedup();
        v
    };
    for a in &symbols {
        for b in &symbols {
            if a == b {
                continue;
            }
            let ca = codes.get(a).expect("code for a");
            let cb = codes.get(b).expect("code for b");
            assert!(!(ca.len() <= cb.len() && cb[..ca.len()] == ca[..]));
        }
    }
}

#[test]
fn frequency_table_is_sorted_with_counts() {
    let encoded = encode("banana").expect("encodes");
    assert_eq!(encoded.freq_table, vec![('a', 3), ('b', 1), ('n', 2)]);
    assert_eq!(encoded.bits.len(), (encoded.bit_length + 7) / 8);
}

#[test]
fn tree_root_weighs_the_text_length() {
    let tree = build_tree("hello world").expect("tree");
    assert_eq!(tree.freq(), 11);
    let single = build_tree("zzz").expect("tree");
    assert_eq!(single.freq(), 3);
    let codes = build_codes(&single);
    assert_eq!(codes.len(), 2);
    assert_eq!(codes.get(&'z').map(|c| c.len()), Some(1));
    assert_eq!(codes.get(&'\0').map(|c| c.len()), Some(1));
}

#[test]
fn shared_prefix_trie_stays_compressed_after_more_inserts() {
    let mut t = Trie::new();
    t.insert("abc", 1);
    t.insert("abcdef", 2);
    t.insert("abx", 3);
    let (label, below) = t.root_edge('a').expect("edge");
    assert_eq!(label, "ab");
    let mut below = below;
    below.sort();
    assert_eq!(below, vec!['c', 'x']);
}

#[test]
fn edit_distance_obeys_the_triangle_inequality() {
    let words = ["kitten", "sitting", "mitten", "", "Kit"];
    for a in &words {
        for b in &words {
            for c in &words {
                assert!(levenshtein(a, c) <= levenshtein(a, b) + levenshtein(b, c));
            }
        }
    }
    assert_eq!(levenshtein("kitten", "sitting"), 3);
    assert_eq!(levenshtein("kitten", "mitten"), 1);
    assert_eq!(levenshtein("mitten", "sitting"), 3);
}

#[test]
fn bit_length_is_counts_times_code_lengths() {
    let text = "banana bandana";
    let encoded = encode(text).expect("encodes");
    let codes = build_codes(&build_tree(text).expect("tree"));
    let total: usize = encoded
        .freq_table
        .iter()
        .map(|(c, n)| n * codes.get(c).expect("code").len())
        .sum();
    assert_eq!(encoded.bit_length, total);
}

fn collect_leaves(node: &HuffmanNode, out: &mut Vec<(char, usize)>) {
    match node {
        HuffmanNode::Leaf { symbol, freq } => out.push((*symbol, *freq)),
        HuffmanNode::Internal { left, right, .. } => {
            collect_leaves(left, out);
            collect_leaves(right, out);
        }
    }
}

#[test]
fn leaves_carry_occurrence_counts() {
    let text = "mississippi river";
    let mut leaves = Vec::new();
    collect_leaves(&build_tree(text).expect("tree"), &mut leaves);
    for (c, n) in &leaves {
        assert_eq!(*n, text.chars().filter(|x| x == c).count());
    }
    leaves.sort();
    let mut distinct: Vec<char> = text.chars().collect();
    distinct.sort();
    distinct.dedup();
    assert_eq!(leaves.iter().map(|l| l.0).collect::<Vec<_>>(), distinct);

    let mut single = Vec::new();
    collect_leaves(&build_tree("qqq").expect("tree"), &mut single);
    assert_eq!(single, vec![('q', 3), ('\0', 0)]);
}
