use corpus::search::{
    fusion_candidates, rank_by_score, snippet, FusionCandidate, Scored, SearchMode,
};

/// The fused ranking of lists of ids, with the constant 60.
fn fuse(lists: Vec<Vec<String>>) -> Vec<(String, f32)> {
    let scored = fusion_candidates(&lists)
        .into_iter()
        .map(|c| {
            let mut score = 0.0f32;
            for rank in &c.ranks {
                score += 1.0 / (60.0 + *rank as f32);
            }
            Scored { id: c.id, score: score.to_bits() }
        })
        .collect();
    rank_by_score(scored)
        .into_iter()
        .map(|s| (s.id, f32::from_bits(s.score)))
        .collect()
}

#[test]
fn mode_parses_and_defaults() {
    assert_eq!(SearchMode::parse(None).unwrap(), SearchMode::Hybrid);
    assert_eq!(SearchMode::parse(Some("text")).unwrap(), SearchMode::Text);
    assert!(SearchMode::parse(Some("nonsense")).is_err());
}

#[test]
fn rrf_rewards_agreement_across_lists() {
    let text = vec!["a".to_string(), "b".to_string(), "c".to_string()];
    let sem = vec!["b".to_string(), "a".to_string(), "d".to_string()];
    let fused = fuse(vec![text, sem]);
    // `b` (ranks 2,1) and `a` (ranks 1,2) appear in both and lead; a `c`/`d`
    // that appears once must rank below them.
    assert!(fused[0].0 == "a" || fused[0].0 == "b");
    let top_two: Vec<&str> = fused.iter().take(2).map(|(id, _)| id.as_str()).collect();
    assert!(top_two.contains(&"a") && top_two.contains(&"b"));
}

#[test]
fn snippet_truncates_with_ellipsis() {
    let s = snippet("one two three four five", 8);
    assert!(s.ends_with('…'));
    assert!(s.chars().count() <= 9);
}

#[test]
fn snippet_collapses_whitespace() {
    assert_eq!(snippet("a\n\n  b\tc", 100), "a b c");
}

#[test]
fn every_mode_has_a_name() {
    assert_eq!(SearchMode::parse(Some("hybrid")).unwrap(), SearchMode::Hybrid);
    assert_eq!(SearchMode::parse(Some("semantic")).unwrap(), SearchMode::Semantic);
    assert_eq!(
        SearchMode::parse(Some("Text")).err().unwrap().message(),
        "unknown mode 'Text' (expected hybrid | text | semantic)"
    );
}

#[test]
fn snippets_are_cut_by_characters() {
    assert_eq!(snippet("one two three four five", 8), "one two…");
    assert_eq!(snippet("one two three", 7), "one two…");
    assert_eq!(snippet("one two three", 5), "one t…");
    assert_eq!(snippet("  é  🦀 ", 3), "é 🦀");
    assert_eq!(snippet("é🦀ß", 2), "é🦀…");
    assert_eq!(snippet("abc", 0), "…");
    assert_eq!(snippet("", 0), "");
    assert_eq!(snippet(" \n ", 5), "");
}

#[test]
fn a_fusion_holds_every_id_once_with_all_its_ranks() {
    let list = |ids: &[&str]| -> Vec<String> { ids.iter().map(|s| s.to_string()).collect() };
    let candidate = |id: &str, ranks: Vec<usize>| FusionCandidate { id: id.to_string(), ranks };
    assert_eq!(
        fusion_candidates(&vec![list(&["a", "b", "c"]), list(&["b", "a", "d"])]),
        vec![
            candidate("a", vec![1, 2]),
            candidate("b", vec![2, 1]),
            candidate("c", vec![3]),
            candidate("d", vec![3]),
        ]
    );
    // An id that a list repeats counts each time.
    assert_eq!(
        fusion_candidates(&vec![list(&["a", "a"])]),
        vec![candidate("a", vec![1, 2])]
    );
    assert!(fusion_candidates(&vec![]).is_empty());
    assert!(fusion_candidates(&vec![vec![], vec![]]).is_empty());
}

#[test]
fn equal_fused_scores_keep_the_order_of_first_occurrence() {
    let fused = fuse(vec![
        vec!["a".to_string(), "b".to_string()],
        vec!["b".to_string(), "a".to_string()],
    ]);
    assert_eq!(fused[0].0, "a");
    assert_eq!(fused[0].1, fused[1].1);
    assert_eq!(fused[0].1, 1.0 / 61.0 + 1.0 / 62.0);
}

#[test]
fn scores_are_ranked_as_numbers() {
    let values = [0.25f32, -3.0, 1.0e-40, 0.0, -0.0, 7.5, f32::INFINITY, -1.0e-40, 1.0];
    let scored: Vec<Scored> = values
        .iter()
        .map(|v| Scored { id: format!("{v}"), score: v.to_bits() })
        .collect();
    let mut expected = values.to_vec();
    expected.sort_by(|a, b| b.partial_cmp(a).unwrap());
    let ranked: Vec<u32> = rank_by_score(scored).into_iter().map(|s| s.score).collect();
    let expected: Vec<u32> = expected.into_iter().map(f32::to_bits).collect();
    assert_eq!(ranked, expected);
}
