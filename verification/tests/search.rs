use mnemo::ids::{ChunkId, SourceId};
use mnemo::search::context::{
    dedup_near_duplicates, estimate_tokens, expand_with_neighbors, greedy_pack, is_near_duplicate,
    select_context, word_set, ContextCandidate, ExpansionEntry, ExpansionStep, NeighborChunk, PackItem,
};
use mnemo::search::ranking::rank_by_key;
use mnemo::search::rerank::{query_tokens, title_haystack, token_matches};
use mnemo::search::{plan_search, sanitize_query, SearchOptions, SearchScope};

fn cand(text: &str, source: Option<u128>) -> ContextCandidate {
    ContextCandidate { text: text.to_string(), source_id: source.map(SourceId) }
}

#[test]
fn estimate_tokens_is_roughly_chars_over_four() {
    assert_eq!(estimate_tokens(""), 0);
    assert_eq!(estimate_tokens("abcd"), 1);
    assert_eq!(estimate_tokens("abcdefgh"), 2);
}

#[test]
fn estimate_tokens_rounds_up_and_counts_characters() {
    assert_eq!(estimate_tokens("a"), 1);
    assert_eq!(estimate_tokens("abcde"), 2);
    assert_eq!(estimate_tokens("éééé"), 1);
}

#[test]
fn sanitize_query_quotes_every_term() {
    assert_eq!(sanitize_query("rust  programming"), "\"rust\" \"programming\"");
    assert_eq!(sanitize_query("say \"hi\" -x"), "\"say\" \"\"\"hi\"\"\" \"-x\"");
    assert_eq!(sanitize_query("   \t\n"), "");
    assert_eq!(sanitize_query(""), "");
}

#[test]
fn plan_search_follows_the_scope() {
    assert!(plan_search("   ", &SearchOptions::default()).is_none());
    let all = plan_search("rust", &SearchOptions::default()).unwrap();
    assert_eq!(all.fts_query, "\"rust\"");
    assert_eq!(all.chunk_limit, Some(10));
    assert_eq!(all.message_limit, Some(10));
    let docs = plan_search("rust", &SearchOptions { scope: SearchScope::Documents, limit: 3 }).unwrap();
    assert_eq!((docs.chunk_limit, docs.message_limit), (Some(3), None));
    let convs = plan_search("rust", &SearchOptions { scope: SearchScope::Conversations, limit: 4 }).unwrap();
    assert_eq!((convs.chunk_limit, convs.message_limit), (None, Some(4)));
}

#[test]
fn word_sets_lowercase_and_split_on_punctuation() {
    let ws: Vec<String> = word_set("Rust, rust! RUST-lang").into_iter().map(|w| w.into_iter().collect()).collect();
    assert_eq!(ws, vec!["rust".to_string(), "lang".to_string()]);
    assert!(word_set("  ...  ").is_empty());
}

#[test]
fn near_duplicates_need_a_jaccard_of_at_least_0_85() {
    let a = word_set("rust programming is great for systems");
    let b = word_set("rust programming is great for systems!");
    assert!(is_near_duplicate(&a, &b));
    let c = word_set("the quick brown fox jumps");
    let d = word_set("the quick brown fox leaps");
    assert!(!is_near_duplicate(&c, &d));
    let e = word_set("completely unrelated text here");
    assert!(!is_near_duplicate(&c, &e));
    // 17 shared words out of 20 distinct ones: exactly 0.85.
    let b17: Vec<String> = (0..17).map(|i| format!("w{i}")).collect();
    let x = word_set(&format!("{} x1", b17.join(" ")));
    let y = word_set(&format!("{} y1 y2", b17.join(" ")));
    assert!(is_near_duplicate(&x, &y));
    // 16 out of 19: just under.
    let b16: Vec<String> = (0..16).map(|i| format!("w{i}")).collect();
    let p = word_set(&format!("{} x1", b16.join(" ")));
    let q = word_set(&format!("{} y1 y2", b16.join(" ")));
    assert!(!is_near_duplicate(&p, &q));
    assert!(is_near_duplicate(&word_set(""), &word_set("!!")));
}

#[test]
fn dedup_keeps_the_higher_ranked_of_near_duplicates() {
    let cs = vec![
        cand("rust programming is great for systems", Some(1)),
        cand("rust programming is great for systems!", Some(2)),
        cand("something else", Some(3)),
    ];
    assert_eq!(dedup_near_duplicates(&cs), vec![0, 2]);
}

#[test]
fn greedy_pack_skips_what_does_not_fit_and_keeps_scanning() {
    let items = vec![
        PackItem { tokens: 5, source_id: Some(SourceId(1)) },
        PackItem { tokens: 20, source_id: Some(SourceId(2)) },
        PackItem { tokens: 4, source_id: None },
    ];
    let r = greedy_pack(&items, 10, 5);
    assert_eq!(r.picks, vec![0, 2]);
    assert_eq!(r.tokens_used, 9);
}

#[test]
fn greedy_pack_caps_distinct_sources_but_not_messages() {
    let items = vec![
        PackItem { tokens: 1, source_id: Some(SourceId(1)) },
        PackItem { tokens: 1, source_id: Some(SourceId(2)) },
        PackItem { tokens: 1, source_id: Some(SourceId(1)) },
        PackItem { tokens: 1, source_id: None },
    ];
    let r = greedy_pack(&items, 100, 1);
    assert_eq!(r.picks, vec![0, 2, 3]);
    let none = greedy_pack(&items, 100, 0);
    assert_eq!(none.picks, vec![3]);
}

#[test]
fn select_context_respects_token_budget() {
    let long_text = "rust programming language systems ".repeat(30);
    let cs = vec![cand(&long_text, Some(1)), cand("rust programming is fun", Some(2))];
    let sel = select_context(&cs, 20, 5);
    assert!(sel.tokens_used <= 20);
    assert_eq!(sel.selected.len(), 1);
    assert_eq!(sel.selected[0].index, 1);
    assert_eq!(sel.selected[0].tokens, 6);
    assert_eq!(sel.tokens_used, 6);
}

#[test]
fn select_context_caps_distinct_sources() {
    let cs = vec![
        cand("rust programming language one", Some(1)),
        cand("rust programming language two", Some(2)),
        cand("rust programming language three", Some(3)),
    ];
    let sel = select_context(&cs, 10_000, 2);
    let indices: Vec<usize> = sel.selected.iter().map(|c| c.index).collect();
    assert_eq!(indices, vec![0, 1]);
}

#[test]
fn select_context_drops_near_duplicate_chunks() {
    let cs = vec![
        cand("rust programming is great for systems", Some(1)),
        cand("rust programming is great for systems!", Some(2)),
    ];
    let sel = select_context(&cs, 10_000, 5);
    assert_eq!(sel.selected.len(), 1);
    assert_eq!(sel.selected[0].index, 0);
}

fn neighbor(id: u128, text: &str) -> Option<NeighborChunk> {
    Some(NeighborChunk { id: ChunkId(id), text: text.to_string() })
}

#[test]
fn expansion_adds_previous_then_next_neighbor() {
    let main = "rust programming language guide chapter";
    let entries = vec![ExpansionEntry {
        chunk_id: Some(ChunkId(2)),
        prev: neighbor(1, "completely unrelated filler content"),
        next: neighbor(3, "more filler content that follows"),
    }];
    let used = estimate_tokens(main);
    let r = expand_with_neighbors(&entries, used, 10_000);
    assert_eq!(
        r.steps,
        vec![
            ExpansionStep::Prev(0, estimate_tokens("completely unrelated filler content")),
            ExpansionStep::Selected(0),
            ExpansionStep::Next(0, estimate_tokens("more filler content that follows")),
        ]
    );
    assert_eq!(
        r.tokens_used,
        used + estimate_tokens("completely unrelated filler content") + estimate_tokens("more filler content that follows")
    );
}

#[test]
fn expansion_respects_the_token_budget() {
    let neighbor_text = "padding text shared by both neighbor chunks";
    let main_text = "rust programming language chapter core content";
    let budget = estimate_tokens(main_text) + estimate_tokens(neighbor_text);
    let entries = vec![ExpansionEntry {
        chunk_id: Some(ChunkId(2)),
        prev: neighbor(1, neighbor_text),
        next: neighbor(3, neighbor_text),
    }];
    let r = expand_with_neighbors(&entries, estimate_tokens(main_text), budget);
    assert_eq!(r.steps, vec![ExpansionStep::Prev(0, estimate_tokens(neighbor_text)), ExpansionStep::Selected(0)]);
    assert!(r.tokens_used <= budget);
}

#[test]
fn expansion_never_adds_a_packed_or_already_added_chunk() {
    let entries = vec![
        ExpansionEntry { chunk_id: Some(ChunkId(1)), prev: None, next: neighbor(2, "b") },
        ExpansionEntry { chunk_id: Some(ChunkId(2)), prev: neighbor(1, "a"), next: neighbor(3, "c") },
        ExpansionEntry { chunk_id: Some(ChunkId(5)), prev: neighbor(3, "c"), next: None },
        ExpansionEntry { chunk_id: None, prev: None, next: None },
    ];
    let r = expand_with_neighbors(&entries, 0, 100);
    assert_eq!(
        r.steps,
        vec![
            ExpansionStep::Selected(0),
            ExpansionStep::Selected(1),
            ExpansionStep::Next(1, 1),
            ExpansionStep::Selected(2),
            ExpansionStep::Selected(3),
        ]
    );
    assert_eq!(r.tokens_used, 1);
}

#[test]
fn reranker_signals_count_lowercased_query_terms() {
    let tokens = query_tokens("Rust  PROGRAMMING language");
    assert_eq!(tokens, vec!["rust".to_string(), "programming".to_string(), "language".to_string()]);
    assert_eq!(token_matches(&tokens, "the rust programming language is fast"), 3);
    assert_eq!(token_matches(&tokens, "french cooking recipes are delicious"), 0);
    assert_eq!(token_matches(&Vec::new(), "anything"), 0);
    assert_eq!(title_haystack(Some("Rust Programming Guide"), Some("Intro")), "rust programming guide intro");
    assert_eq!(title_haystack(None, Some("Intro")), "intro");
    assert_eq!(title_haystack(None, None), "");
}

#[test]
fn ranking_is_a_stable_descending_cut() {
    let keys = vec![5, 9, 5, 1, 9, 7];
    assert_eq!(rank_by_key(&keys, 10), vec![1, 4, 5, 0, 2, 3]);
    assert_eq!(rank_by_key(&keys, 3), vec![1, 4, 5]);
    assert_eq!(rank_by_key(&keys, 0), Vec::<usize>::new());
    assert_eq!(rank_by_key(&Vec::new(), 4), Vec::<usize>::new());
}
