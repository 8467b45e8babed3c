use roaring::RoaringBitmap;
use words_rule::docids::needs_ranking;
use words_rule::graph::{sorted_positions, LocatedQueryTerm, QueryGraph, QueryNode};
use words_rule::words::{DefaultSearchLogger, RankingRuleOutput, TermsMatchingStrategy, Words};

fn term(word: &str, start: i8, end: i8) -> QueryNode {
    QueryNode::Term(LocatedQueryTerm { words: vec![word.to_string()], start, end })
}

/// Start (0) -> terms in the given order -> End (1).
fn chain(terms: Vec<QueryNode>) -> QueryGraph {
    let n = terms.len() + 2;
    let mut nodes = vec![QueryNode::Start, QueryNode::End];
    nodes.extend(terms);
    let mut edges = vec![vec![false; n]; n];
    let mut prev = 0;
    for i in 2..n {
        edges[prev][i] = true;
        prev = i;
    }
    edges[prev][1] = true;
    QueryGraph::new(0, 1, nodes, edges).expect("well formed")
}

/// Terms "a", "b", "c" at positions 0, 1 and 2.
fn abc() -> QueryGraph {
    chain(vec![term("a", 0, 0), term("b", 1, 1), term("c", 2, 2)])
}

/// The words of each document, by document id.
fn documents() -> Vec<Vec<&'static str>> {
    vec![
        vec!["a", "b", "c"],
        vec!["a", "b"],
        vec!["a"],
        vec!["b", "c"],
        vec!["c"],
        vec!["a", "c"],
    ]
}

fn live_words(g: &QueryGraph) -> Vec<Vec<String>> {
    g.nodes
        .iter()
        .filter_map(|n| match n {
            QueryNode::Term(t) => Some(t.words.clone()),
            _ => None,
        })
        .collect()
}

/// The documents of `universe` that hold one of the words of every live term.
fn resolve(g: &QueryGraph, universe: &RoaringBitmap) -> Result<RoaringBitmap, String> {
    let terms = live_words(g);
    let mut out = RoaringBitmap::new();
    for (id, words) in documents().iter().enumerate() {
        let id = id as u32;
        if universe.contains(id)
            && terms.iter().all(|alts| alts.iter().any(|w| words.contains(&w.as_str())))
        {
            out.insert(id);
        }
    }
    Ok(out)
}

fn all_documents() -> RoaringBitmap {
    (0..documents().len() as u32).collect()
}

fn bitmap(ids: &[u32]) -> RoaringBitmap {
    ids.iter().copied().collect()
}

fn next(words: &mut Words, universe: &RoaringBitmap) -> Option<RankingRuleOutput> {
    words.next_bucket(&mut DefaultSearchLogger, universe, resolve).unwrap()
}

fn live_positions(g: &QueryGraph) -> Vec<i8> {
    sorted_positions(g)
}

fn run(strategy: TermsMatchingStrategy, g: &QueryGraph) -> Vec<(Vec<i8>, Vec<u32>)> {
    let universe = all_documents();
    let mut words = Words::new(strategy);
    words.start_iteration(&mut DefaultSearchLogger, &universe, g);
    let mut out = vec![];
    while let Some(bucket) = next(&mut words, &universe) {
        out.push((live_positions(&bucket.query), bucket.candidates.iter().collect()));
    }
    words.end_iteration(&mut DefaultSearchLogger);
    out
}

#[test]
fn last_strategy_drops_terms_from_the_end() {
    let g = abc();
    let universe = all_documents();
    let mut words = Words::new(TermsMatchingStrategy::Last);
    words.start_iteration(&mut DefaultSearchLogger, &universe, &g);

    let first = next(&mut words, &universe).unwrap();
    assert_eq!(live_positions(&first.query), vec![0, 1, 2]);
    assert_eq!(first.candidates, bitmap(&[0]));

    let second = next(&mut words, &universe).unwrap();
    assert_eq!(live_positions(&second.query), vec![0, 1]);
    assert_eq!(second.candidates, bitmap(&[0, 1]));
    assert!(first.candidates.is_subset(&second.candidates));

    let third = next(&mut words, &universe).unwrap();
    assert_eq!(live_positions(&third.query), vec![0]);
    assert_eq!(third.candidates, bitmap(&[0, 1, 2, 5]));

    assert!(next(&mut words, &universe).is_none());
    assert!(next(&mut words, &universe).is_none());
}

#[test]
fn all_strategy_yields_a_single_bucket() {
    let g = abc();
    let universe = all_documents();
    let mut words = Words::new(TermsMatchingStrategy::All);
    words.start_iteration(&mut DefaultSearchLogger, &universe, &g);

    let first = next(&mut words, &universe).unwrap();
    assert_eq!(live_positions(&first.query), vec![0, 1, 2]);
    assert_eq!(live_words(&first.query), live_words(&g));
    assert_eq!(first.query.edges, g.edges);
    assert_eq!(first.candidates, bitmap(&[0]));

    assert!(next(&mut words, &universe).is_none());
}

#[test]
fn last_strategy_bucket_count_and_sizes() {
    let buckets = run(TermsMatchingStrategy::Last, &abc());
    // at most one bucket per distinct position
    assert_eq!(buckets.len(), 3);
    for pair in buckets.windows(2) {
        assert!(pair[0].1.len() <= pair[1].1.len());
    }
}

#[test]
fn buckets_stay_within_the_universe() {
    let g = abc();
    let universe = bitmap(&[1, 2, 4]);
    let mut words = Words::new(TermsMatchingStrategy::Last);
    words.start_iteration(&mut DefaultSearchLogger, &universe, &g);
    let mut sizes = vec![];
    while let Some(bucket) = next(&mut words, &universe) {
        assert!(bucket.candidates.is_subset(&universe));
        sizes.push(bucket.candidates.len());
    }
    assert_eq!(sizes, vec![0, 1, 2]);
}

#[test]
fn end_iteration_twice_and_restart() {
    let g = abc();
    let universe = all_documents();
    let mut words = Words::new(TermsMatchingStrategy::Last);
    words.start_iteration(&mut DefaultSearchLogger, &universe, &g);
    next(&mut words, &universe).unwrap();
    next(&mut words, &universe).unwrap();
    words.end_iteration(&mut DefaultSearchLogger);
    words.end_iteration(&mut DefaultSearchLogger);

    words.start_iteration(&mut DefaultSearchLogger, &universe, &g);
    let first = next(&mut words, &universe).unwrap();
    assert_eq!(live_positions(&first.query), vec![0, 1, 2]);
    assert_eq!(first.candidates, bitmap(&[0]));
    assert_eq!(live_positions(&next(&mut words, &universe).unwrap().query), vec![0, 1]);
}

#[test]
fn runs_are_deterministic() {
    let g = abc();
    assert_eq!(run(TermsMatchingStrategy::Last, &g), run(TermsMatchingStrategy::Last, &g));
    assert_eq!(run(TermsMatchingStrategy::All, &g), run(TermsMatchingStrategy::All, &g));
}

#[test]
fn positions_without_a_starting_term_are_skipped() {
    // "a" at 0 and a two-word synonym covering 1 and 2: nothing begins at 2
    let g = chain(vec![term("a", 0, 0), term("c", 1, 2)]);
    let buckets = run(TermsMatchingStrategy::Last, &g);
    assert_eq!(
        buckets,
        vec![(vec![0, 1, 2], vec![0, 5]), (vec![0], vec![0, 1, 2, 5])]
    );
}

#[test]
fn removal_bridges_edges() {
    let mut g = abc();
    assert!(g.remove_words_at_position(1));
    // node 3 held "b": it is deleted and "a" now leads to "c"
    assert!(matches!(g.nodes[3], QueryNode::Deleted));
    assert!(g.edges[2][4]);
    assert!(!g.edges[2][3]);
    assert!(!g.edges[3][4]);
    assert!(!g.remove_words_at_position(1));
    assert!(!g.remove_words_at_position(7));
}

#[test]
fn graph_without_terms_yields_one_bucket() {
    let g = chain(vec![]);
    let buckets = run(TermsMatchingStrategy::Last, &g);
    assert_eq!(buckets, vec![(vec![], vec![0, 1, 2, 3, 4, 5])]);
}

#[test]
fn resolver_errors_are_passed_on() {
    let g = abc();
    let universe = all_documents();
    let mut words = Words::new(TermsMatchingStrategy::Last);
    words.start_iteration(&mut DefaultSearchLogger, &universe, &g);
    let failed = words.next_bucket(&mut DefaultSearchLogger, &universe, |_: &QueryGraph, _: &RoaringBitmap| {
        Err::<RoaringBitmap, String>("index unreadable".to_string())
    });
    assert_eq!(failed.err(), Some("index unreadable".to_string()));
    let first = next(&mut words, &universe).unwrap();
    assert_eq!(live_positions(&first.query), vec![0, 1, 2]);
}

#[test]
fn universe_size_decides_ranking() {
    assert!(!needs_ranking(&bitmap(&[])));
    assert!(!needs_ranking(&bitmap(&[7])));
    assert!(needs_ranking(&bitmap(&[7, 9])));
}

#[test]
fn malformed_graphs_are_refused() {
    let nodes = vec![QueryNode::Start, QueryNode::End];
    assert!(QueryGraph::new(0, 1, nodes, vec![vec![false; 2]; 2]).is_some());
    let nodes = vec![QueryNode::Start, QueryNode::End];
    assert!(QueryGraph::new(1, 0, nodes, vec![vec![false; 2]; 2]).is_none());
    let nodes = vec![QueryNode::Start, QueryNode::End];
    assert!(QueryGraph::new(0, 1, nodes, vec![vec![false; 2]]).is_none());
    let nodes = vec![QueryNode::Start, QueryNode::End, term("x", 3, 2)];
    assert!(QueryGraph::new(0, 1, nodes, vec![vec![false; 3]; 3]).is_none());
}

#[test]
fn sorted_positions_merge_ranges() {
    let g = chain(vec![term("b", 3, 4), term("a", 0, 0), term("c", 4, 6)]);
    assert_eq!(sorted_positions(&g), vec![0, 3, 4, 5, 6]);
}

#[test]
fn rule_is_named_words() {
    assert_eq!(Words::new(TermsMatchingStrategy::All).id(), "words");
}
