use wordgraph::build_graph;
use wordgraph::layout::surround;
use wordgraph::rank::map_vec;
use wordgraph::tokenize::{f_the, find_word};
use wordgraph::windows::generate_map;

fn doc(pages: &[&str]) -> Vec<String> {
    pages.iter().map(|p| p.to_string()).collect()
}

#[test]
fn stopwords_are_filtered() {
    // Lowercase forms contained in the stoplist blob are dropped.
    assert!(!f_the("the"));
    assert!(!f_the("The"));
    assert!(!f_the("THE"));
    assert!(!f_the("on"));
    assert!(!f_the("had"));
    // Substring-of-blob filtering: "her" sits inside the blob, and "om"
    // is a substring of "whom", so both are filtered.
    assert!(!f_the("her"));
    assert!(!f_the("om"));
    // Ordinary words survive.
    assert!(f_the("cat"));
    assert!(f_the("mat"));
    assert!(f_the("graph"));
}

#[test]
fn stopped_words_yield_no_entries() {
    let entries = generate_map(&doc(&["the The THE on a an"]));
    assert!(entries.is_empty());
}

#[test]
fn word_pattern() {
    assert_eq!(find_word("cat"), Some("cat".to_string()));
    // The word is the span from the first letter to the last.
    assert_eq!(find_word("-cat-"), Some("cat".to_string()));
    assert_eq!(find_word("x1y"), Some("x1y".to_string()));
    // At least two letters are required.
    assert_eq!(find_word("a"), None);
    assert_eq!(find_word(""), None);
    assert_eq!(find_word("123"), None);
    assert_eq!(find_word("x"), None);
}

#[test]
fn window_clamping() {
    // Seven unstopped tokens; the snippet of each shows the clamped window.
    let entries = generate_map(&doc(&["red green blue cyan pink teal gray"]));
    let get = |w: &str| -> Vec<String> {
        entries
            .iter()
            .find(|e| e.0 == w)
            .map(|e| e.1.clone())
            .unwrap_or_default()
    };
    // At index 0, the window is [0, 3).
    assert_eq!(get("red"), vec!["red green blue".to_string()]);
    // At index 2 (still near the start), the window is [0, 5).
    assert_eq!(get("blue"), vec!["red green blue cyan pink".to_string()]);
    // At index 3, the window is [0, 7): the full seven tokens.
    assert_eq!(get("cyan"), vec!["red green blue cyan pink teal gray".to_string()]);
    // At index 6 (near the end), the window is [3, 7).
    assert_eq!(get("gray"), vec!["cyan pink teal gray".to_string()]);
}

#[test]
fn snippets_accumulate_in_occurrence_order() {
    let entries = generate_map(&doc(&["lion tiger", "tiger lion tiger"]));
    assert_eq!(entries.len(), 2);
    assert_eq!(entries[0].0, "lion");
    assert_eq!(entries[0].1, vec!["lion tiger".to_string(), "tiger lion tiger".to_string()]);
    assert_eq!(entries[1].0, "tiger");
    assert_eq!(
        entries[1].1,
        vec![
            "lion tiger".to_string(),
            "tiger lion tiger".to_string(),
            "tiger lion tiger".to_string()
        ]
    );
}

#[test]
fn ranking_truncation() {
    // Fifteen distinct words with distinct counts: word k occurs k times.
    let words = [
        "aab", "bba", "cca", "dda", "eea", "ffa", "gga", "hha", "jja", "kka", "lla", "nna",
        "ppa", "qqa", "rra",
    ];
    let mut tokens: Vec<String> = Vec::new();
    for (k, w) in words.iter().enumerate() {
        for _ in 0..k + 1 {
            tokens.push(w.to_string());
        }
    }
    let page = tokens.join(" ");
    let ranked = map_vec(generate_map(&doc(&[&page])));
    // Exactly eleven entries survive: indices 0 through 10 of the
    // descending-count order.
    assert_eq!(ranked.len(), 11);
    for (idx, e) in ranked.iter().enumerate() {
        assert_eq!(e.1.len(), 15 - idx);
    }
    assert_eq!(ranked[0].0, "rra");
    assert_eq!(ranked[10].0, "eea");
}

#[test]
fn ranking_keeps_all_when_ten_or_fewer() {
    let ranked = map_vec(generate_map(&doc(&["red green blue"])));
    assert_eq!(ranked.len(), 3);
}

#[test]
fn surround_determinism_r10() {
    let pts = surround((0, 0), 10, 8);
    assert_eq!(
        pts,
        vec![(0, 0), (10, 0), (10, 6), (0, 6), (-10, 6), (-10, 0), (-10, -6), (0, -6)]
    );
}

#[test]
fn surround_determinism_r150() {
    let pts = surround((0, 0), 150, 3);
    assert_eq!(pts, vec![(0, 0), (150, 0), (150, 74)]);
}

#[test]
fn surround_zero_radius_repeats_center() {
    let pts = surround((5, 7), 0, 3);
    assert_eq!(pts, vec![(5, 7), (5, 7), (5, 7)]);
}

#[test]
fn duplicate_links_keep_multiplicity() {
    // Both snippets of "bar" contain "foo", so the same anchor pair is
    // appended once per matching snippet.
    let texts = vec![doc(&["foo bar", "foo bar"])];
    let g = build_graph(&texts);
    let entries: Vec<((i64, i64), Vec<(i64, i64)>)> = g.links.entries.clone();
    assert_eq!(
        entries,
        vec![
            ((224, 116), vec![(264, 116), (264, 116)]),
            ((259, 116), vec![(229, 116), (229, 116)]),
        ]
    );
}

#[test]
fn surround_zero_points_is_empty() {
    let pts = surround((220, 110), 150, 0);
    assert!(pts.is_empty());
}

#[test]
fn end_to_end_scenario() {
    let texts = vec![doc(&["the cat sat on the mat"]), doc(&["the mat had a cat"])];
    let g = build_graph(&texts);

    // Survivors and filtered words.
    assert_eq!(g.ranked.len(), 2);
    let words0: Vec<&str> = g.ranked[0].iter().map(|e| e.0.as_str()).collect();
    let words1: Vec<&str> = g.ranked[1].iter().map(|e| e.0.as_str()).collect();
    assert_eq!(words0, vec!["cat", "sat", "mat"]);
    assert_eq!(words1, vec!["mat", "cat"]);
    for w in ["the", "on", "a", "had"] {
        assert!(!words0.contains(&w) && !words1.contains(&w));
    }

    // Placement: documents on the outer spiral, words on inner spirals.
    let nodes: Vec<(&str, (i64, i64), usize, usize)> =
        g.nodes.iter().map(|n| (n.word.as_str(), n.pos, n.doc, n.rank)).collect();
    assert_eq!(
        nodes,
        vec![
            ("cat", (220, 110), 0, 0),
            ("sat", (255, 110), 0, 1),
            ("mat", (255, 132), 0, 2),
            ("mat", (370, 110), 1, 0),
            ("cat", (405, 110), 1, 1),
        ]
    );

    // Link resolution, in discovery order of the pairwise scan.
    let entries: Vec<((i64, i64), Vec<(i64, i64)>)> = g.links.entries.clone();
    assert_eq!(
        entries,
        vec![
            ((224, 116), vec![(264, 116), (414, 116)]),
            ((259, 116), vec![(229, 116), (264, 138)]),
            ((259, 138), vec![(379, 116), (414, 116)]),
            ((374, 116), vec![(264, 138), (414, 116)]),
            ((409, 116), vec![(229, 116), (264, 116)]),
        ]
    );

    // The two words "cat" and "mat" are linked: "mat"'s snippet holds "cat"'s
    // text, so a line runs between their anchors (one direction stored).
    assert!(entries.iter().any(|(k, v)| *k == (374, 116) && v.contains(&(414, 116))));
}

#[test]
fn no_duplicate_reverse_links() {
    let texts = vec![doc(&["the cat sat on the mat"]), doc(&["the mat had a cat"])];
    let g = build_graph(&texts);
    for (a, targets) in g.links.entries.iter() {
        for b in targets.iter() {
            if let Some((_, rev)) = g.links.entries.iter().find(|(k, _)| k == b) {
                assert!(!rev.contains(a));
            }
        }
    }
}

#[test]
fn empty_batch_yields_empty_graph() {
    let empty: Vec<Vec<String>> = Vec::new();
    let g = build_graph(&empty);
    assert!(g.links.entries.is_empty());
    assert!(g.nodes.is_empty());
    assert!(g.ranked.is_empty());
}

#[test]
fn empty_pages_yield_no_words() {
    let g = build_graph(&vec![doc(&["", ""])]);
    assert!(g.nodes.is_empty());
    assert_eq!(g.ranked.len(), 1);
    assert!(g.ranked[0].is_empty());
}
