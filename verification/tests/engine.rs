use blogsearch::cache::NormCache;
use blogsearch::norm::count_words;
use blogsearch::slug::make_slug;
use blogsearch::{PostData, SearchEngine};

fn post(id: &str, title: &str, description: Option<&str>, keywords: &[&str]) -> PostData {
    PostData {
        id: id.to_string(),
        title: title.to_string(),
        description: description.map(|d| d.to_string()),
        keywords: keywords.iter().map(|k| k.to_string()).collect(),
    }
}

#[test]
fn single_post_scoring() {
    let mut e = SearchEngine::new();
    e.add_post(post(
        "p1",
        "Rust Search Engine",
        Some("A fast search engine built in Rust"),
        &["rust", "search"],
    ));
    let r = e.search("rust", 10);
    assert_eq!(r.len(), 1);
    assert_eq!(r[0].id, "p1");
    assert!(r[0].title_match);
    assert!(r[0].description_match);
    assert_eq!(r[0].keyword_matches, vec!["rust".to_string()]);
    assert_eq!(r[0].score, 35);
    assert!(r[0].snippet.is_some());
}

#[test]
fn phrase_bonus_ranks_exact_phrase_higher() {
    let mut e = SearchEngine::new();
    e.add_post(post("a", "Machine Learning Basics", None, &[]));
    e.add_post(post("b", "Learning with a machine", None, &[]));
    let r = e.search("machine learning", 10);
    assert_eq!(r.len(), 2);
    assert_eq!(r[0].id, "a");
    assert_eq!(r[0].score, 70); // 10 + 10 + 50 phrase bonus
    assert_eq!(r[1].id, "b");
    assert_eq!(r[1].score, 20);
    assert!(r[0].score > r[1].score);
}

#[test]
fn empty_and_whitespace_queries() {
    let mut e = SearchEngine::new();
    e.add_post(post("p1", "Rust", None, &[]));
    assert!(e.search("", 10).is_empty());
    assert!(e.search("   ", 10).is_empty());
    assert!(e.search("!!!", 10).is_empty());
}

#[test]
fn tag_lookup() {
    let mut e = SearchEngine::new();
    e.add_post(post(
        "p1",
        "Rust Search Engine",
        Some("A fast search engine built in Rust"),
        &["rust", "search"],
    ));
    let r = e.search_by_tag("Rust");
    assert_eq!(r.len(), 1);
    assert_eq!(r[0].id, "p1");
    assert_eq!(r[0].score, 100);
    assert!(!r[0].title_match);
    assert!(!r[0].description_match);
    assert_eq!(r[0].keyword_matches, vec!["Rust".to_string()]);
    assert!(r[0].snippet.is_none());
}

#[test]
fn tag_lookup_unknown_tag_is_empty() {
    let mut e = SearchEngine::new();
    e.add_post(post("p1", "Rust", None, &["rust"]));
    assert!(e.search_by_tag("python").is_empty());
}

#[test]
fn duplicate_keywords_yield_duplicate_tag_results() {
    let mut e = SearchEngine::new();
    e.add_post(post("p1", "Title", None, &["rust", "rust"]));
    let r = e.search_by_tag("rust");
    assert_eq!(r.len(), 2);
    assert_eq!(r[0].id, "p1");
    assert_eq!(r[1].id, "p1");
}

#[test]
fn clear_resets_everything() {
    let mut e = SearchEngine::new();
    e.add_post(post("p1", "Rust Search", Some("about rust"), &["rust"]));
    e.clear();
    let s = e.get_stats();
    assert_eq!(s.total_posts, 0);
    assert_eq!(s.indexed_words, 0);
    assert_eq!(s.indexed_keywords, 0);
    assert!(e.search("rust", 10).is_empty());
    e.clear(); // idempotent
    assert_eq!(e.get_stats().total_posts, 0);
}

#[test]
fn stats_count_documents_and_distinct_terms() {
    let mut e = SearchEngine::new();
    assert_eq!(e.get_stats().total_posts, 0);
    e.add_post(post(
        "p1",
        "Rust Search Engine",
        Some("A fast search engine built in Rust"),
        &["rust", "search"],
    ));
    let s = e.get_stats();
    assert_eq!(s.total_posts, 1);
    // distinct terms: rust, search, engine, fast, built, in
    assert_eq!(s.indexed_words, 6);
    assert_eq!(s.indexed_keywords, 2);
    e.add_post(post("p2", "Rust again", None, &[]));
    let s2 = e.get_stats();
    assert_eq!(s2.total_posts, 2);
    // "again" is new; "rust" is not
    assert_eq!(s2.indexed_words, 7);
}

#[test]
fn snippet_truncates_at_word_boundary() {
    // a description of exactly 300 characters, the query term near the end
    let mut desc = String::new();
    for i in 0..30 {
        desc.push_str(&format!("wrd{:02}abcd ", i));
    }
    assert_eq!(desc.chars().count(), 300);
    let mut e = SearchEngine::new();
    e.add_post(post("p1", "Title", Some(&desc), &[]));
    let r = e.search("wrd29abcd", 10);
    assert_eq!(r.len(), 1);
    let snip = r[0].snippet.clone().unwrap();
    // the best window is the first one containing the term: words 10..30;
    // its text is longer than 150 characters, so it is cut back to the last
    // space within the first 150 and given an ellipsis
    let expected_words: Vec<String> = (10..25).map(|i| format!("wrd{:02}abcd", i)).collect();
    let expected = format!("{}...", expected_words.join(" "));
    assert_eq!(snip, expected);
    assert!(snip.chars().count() <= 153);
    assert!(snip.ends_with("wrd24abcd..."));
}

#[test]
fn snippet_prefers_description_and_falls_back_to_title() {
    let mut e = SearchEngine::new();
    e.add_post(post("p1", "Only a title here", None, &[]));
    let r = e.search("title", 10);
    assert_eq!(r.len(), 1);
    assert_eq!(r[0].snippet.as_deref(), Some("only a title here"));
}

#[test]
fn results_are_sorted_and_truncated() {
    let mut e = SearchEngine::new();
    e.add_post(post("low", "nothing special", Some("rust"), &[]));
    e.add_post(post("high", "rust rust rust", None, &["rust"]));
    e.add_post(post("mid", "rust tools", None, &[]));
    let all = e.search("rust", 10);
    assert_eq!(all.len(), 3);
    assert_eq!(all[0].id, "high"); // 10+10+10+20 = 50
    assert_eq!(all[0].score, 50);
    assert_eq!(all[1].id, "mid"); // 10
    assert_eq!(all[2].id, "low"); // 5
    for w in all.windows(2) {
        assert!(w[0].score >= w[1].score);
    }
    let top = e.search("rust", 2);
    assert_eq!(top.len(), 2);
    assert_eq!(top[0].id, "high");
    assert_eq!(top[1].id, "mid");
    assert!(e.search("rust", 0).is_empty());
}

#[test]
fn equal_scores_keep_insertion_order() {
    let mut e = SearchEngine::new();
    e.add_post(post("first", "alpha beta", None, &[]));
    e.add_post(post("second", "alpha gamma", None, &[]));
    let r = e.search("alpha", 10);
    assert_eq!(r.len(), 2);
    assert_eq!(r[0].score, r[1].score);
    assert_eq!(r[0].id, "first");
    assert_eq!(r[1].id, "second");
}

#[test]
fn duplicate_ids_are_indexed_independently() {
    let mut e = SearchEngine::new();
    e.add_post(post("dup", "rust one", None, &[]));
    e.add_post(post("dup", "rust two", None, &[]));
    let r = e.search("rust", 10);
    assert_eq!(r.len(), 2);
    assert_eq!(r[0].id, "dup");
    assert_eq!(r[1].id, "dup");
    assert_eq!(e.get_stats().total_posts, 2);
}

#[test]
fn monotonic_indexing() {
    let mut e = SearchEngine::new();
    let mut expected = 0;
    for i in 0..5 {
        e.add_post(post(&format!("p{}", i), "a title", None, &[]));
        expected += 1;
        assert_eq!(e.get_stats().total_posts, expected);
    }
}

#[test]
fn scores_are_finite_and_nonnegative() {
    // scores are whole numbers carried in an unsigned integer; this checks
    // the serialized boundary sees sane values even with repeated terms
    let mut e = SearchEngine::new();
    e.add_post(post("p1", "rust rust rust rust", Some("rust rust"), &["rust"]));
    let r = e.search("rust rust", 10);
    assert_eq!(r.len(), 1);
    // per occurrence and per query-term occurrence: 2 * (4*10 + 2*5 + 20),
    // plus the phrase bonus: "rust rust" appears in both title (+50) and
    // description (+25)
    assert_eq!(r[0].score, 215);
}

#[test]
fn normalization_basics() {
    let mut c = NormCache::new();
    assert_eq!(c.norm("Hello, World!"), "hello world");
    assert_eq!(c.norm("  many   spaces\t and\ntabs "), "many spaces and tabs");
    assert_eq!(c.norm("keep-hyphens and digits 42"), "keep-hyphens and digits 42");
    assert_eq!(c.norm("!!!"), "");
    assert_eq!(c.norm(""), "");
}

#[test]
fn normalization_is_idempotent_on_samples() {
    let mut c = NormCache::new();
    let samples = [
        "Hello, World!",
        "  MiXeD   CaSe  with-hyphen ",
        "punctuation; everywhere: (yes)!",
        "Umlaute: \u{00c4}rger im B\u{00fc}ro!",
        "\u{0130}stanbul S\u{0130}GMA \u{03a3}",
        "",
    ];
    for s in samples {
        let once = c.norm(s);
        let twice = c.norm(&once);
        assert_eq!(once, twice);
    }
}

#[test]
fn normalization_cache_is_transparent() {
    // a warm cache must not change any result
    let mut cold = SearchEngine::new();
    let mut warm = SearchEngine::new();
    for e in [&mut cold, &mut warm] {
        e.add_post(post(
            "p1",
            "Rust Search Engine",
            Some("A fast search engine built in Rust"),
            &["rust", "search"],
        ));
        e.add_post(post("p2", "Machine Learning", Some("learning machines"), &["ml"]));
    }
    for _ in 0..3 {
        warm.search("rust search", 10);
        warm.search_by_tag("ml");
    }
    let a = cold.search("rust search", 10);
    let b = warm.search("rust search", 10);
    assert_eq!(a.len(), b.len());
    for (x, y) in a.iter().zip(b.iter()) {
        assert_eq!(x.id, y.id);
        assert_eq!(x.score, y.score);
        assert_eq!(x.title_match, y.title_match);
        assert_eq!(x.description_match, y.description_match);
        assert_eq!(x.keyword_matches, y.keyword_matches);
        assert_eq!(x.snippet, y.snippet);
    }
}

#[test]
fn tokenizer_drops_single_characters() {
    let mut c = NormCache::new();
    let toks = c.tokenize("A quick brown fox, I say!");
    let words: Vec<String> = toks.iter().map(|t| t.iter().collect()).collect();
    assert_eq!(words, vec!["quick", "brown", "fox", "say"]);
}

#[test]
fn keywords_are_indexed_whole() {
    let mut e = SearchEngine::new();
    e.add_post(post("p1", "Title", None, &["machine learning"]));
    // the keyword is one unit: looking up the full phrase finds it
    let r = e.search_by_tag("Machine Learning");
    assert_eq!(r.len(), 1);
    // the whole normalized keyword is also a word-index term
    let r2 = e.search("machine", 10);
    // "machine" alone has no posting, but is a substring of the keyword:
    // no posting means no candidate
    assert!(r2.is_empty());
    let s = e.get_stats();
    assert_eq!(s.indexed_words, 2); // "title" and "machine learning"
    assert_eq!(s.indexed_keywords, 1);
}

#[test]
fn snippet_without_spaces_is_cut_hard() {
    // a single 200-character word: no whitespace boundary within the first
    // 150 characters, so the cut keeps 150 characters plus the ellipsis
    let long = "a".repeat(200);
    let mut e = SearchEngine::new();
    e.add_post(post("p1", "title", Some(&long), &[]));
    let r = e.search(&long, 10);
    assert_eq!(r.len(), 1);
    let snip = r[0].snippet.clone().unwrap();
    assert_eq!(snip, format!("{}...", "a".repeat(150)));
}

#[test]
fn cache_eviction_keeps_normalization_correct() {
    // push well past the thousand-entry bound so early entries are evicted,
    // then re-normalize one: the result must be unchanged
    let mut c = NormCache::new();
    for i in 0..1100 {
        let s = format!("Word{} X!", i);
        let n = c.norm(&s);
        assert_eq!(n, format!("word{} x", i));
    }
    assert_eq!(c.norm("Word0 X!"), "word0 x");
    assert_eq!(c.norm("word0 x"), "word0 x");
}

#[test]
fn slug_generation() {
    assert_eq!(make_slug("Hello, World!"), "hello-world");
    assert_eq!(make_slug("  Rust_is GREAT!! "), "rust-is-great");
    assert_eq!(make_slug("--a--b--"), "a-b");
    assert_eq!(make_slug("Caf\u{00e9} au lait"), "caf\u{00e9}-au-lait");
    assert_eq!(make_slug("!!!"), "");
    assert_eq!(make_slug(""), "");
    assert_eq!(make_slug("already-a-slug"), "already-a-slug");
}

#[test]
fn word_counting() {
    assert_eq!(count_words(""), 0);
    assert_eq!(count_words("   "), 0);
    assert_eq!(count_words("one"), 1);
    assert_eq!(count_words("  several words, with punctuation!  "), 4);
    assert_eq!(count_words("line\nbreaks\tand tabs"), 4);
}
