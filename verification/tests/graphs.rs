use shoulders_of_giants::adj_dag::AdjDag;
use shoulders_of_giants::dag::{earliest_common_descendant, find_by_id, last_common_ancestor, Dag};
use shoulders_of_giants::edge_list_dag::EdgeListDag;
use shoulders_of_giants::linked_dag::LinkedDag;
use shoulders_of_giants::queries::{
    common_ancestors_by_id, common_descendants_by_id, node_by_id, related_papers,
    search_by_title, LookupError,
};
use shoulders_of_giants::records::{filter_disconnected, CSVRecord, Paper};

fn record(id: &str, title: &str, refs: &[&str]) -> CSVRecord {
    CSVRecord {
        id: id.to_string(),
        title: title.to_string(),
        abstract_text: String::new(),
        references: refs.iter().map(|r| r.to_string()).collect(),
    }
}

/// `a` cites nothing, `b` cites `a`, `c` cites `a` and `b`.
fn three() -> Vec<CSVRecord> {
    vec![
        record("a", "Graphs", &[]),
        record("b", "More graphs", &["a"]),
        record("c", "Trees", &["a", "b"]),
    ]
}

/// Two lines of descent that meet: `x` and `y` both cite `m`, which cites `root`; `z`
/// cites `x` and `y`.
fn diamond() -> Vec<CSVRecord> {
    vec![
        record("root", "Root", &[]),
        record("m", "Middle", &["root"]),
        record("x", "Left", &["m"]),
        record("y", "Right", &["m"]),
        record("z", "Top", &["x", "y"]),
    ]
}

fn ids(papers: &[&Paper]) -> Vec<String> {
    let mut v: Vec<String> = papers.iter().map(|p| p.id.clone()).collect();
    v.sort();
    v
}

#[test]
fn test_dag() {
    let test_dag = AdjDag::from_records(three());
    let adj = test_dag.adjacency();
    let cells: Vec<String> = adj.data().iter().map(|b| b.to_string()).collect();
    println!("{}", adj.render(&cells));
    assert_eq!(
        adj.data(),
        &[false, false, false, true, false, false, true, true, false]
    );
}

#[test]
fn adjacency_lists_both_directions() {
    let g = AdjDag::from_records(three());
    assert_eq!(g.neighbors(&2), vec![0, 1]);
    assert_eq!(g.neighbors_back(&0), vec![1, 2]);
    assert!(g.neighbors(&0).is_empty());
}

#[test]
fn edge_list_from_records_has_one_edge_per_known_reference() {
    let g = EdgeListDag::from_records(vec![
        record("a", "", &[]),
        record("b", "", &["a", "unknown"]),
    ]);
    assert_eq!(g.nodes.len(), 2);
    assert_eq!(g.edges, vec![(1, 0)]);
    assert_eq!(g.neighbors(&1), vec![0]);
    assert_eq!(g.neighbors_back(&0), vec![1]);
}

#[test]
fn edge_list_connected_edges() {
    let g = EdgeListDag::from_records(three());
    let (incoming, outgoing) = g.get_connected_edges("b").unwrap();
    assert_eq!(ids(&incoming), vec!["c"]);
    assert_eq!(ids(&outgoing), vec!["a"]);
    assert!(g.get_connected_edges("nope").is_none());
}

#[test]
fn edge_list_add_edge_and_new() {
    let mut g: EdgeListDag<u8> = EdgeListDag::new();
    g.nodes.push(1);
    g.nodes.push(2);
    g.add_edge(1, 0);
    assert_eq!(g.neighbors(&1), vec![0]);
    let d: EdgeListDag<u8> = EdgeListDag::default();
    assert!(d.nodes.is_empty() && d.edges.is_empty());
}

#[test]
fn get_mut_and_index_mut_change_one_weight() {
    let mut g = EdgeListDag::from_records(three());
    g.get_mut(&0).unwrap().title = "Changed".to_string();
    assert!(g.get_mut(&7).is_none());
    g.index_mut(&1).title = "Also".to_string();
    assert_eq!(g.get(&0).unwrap().title, "Changed");
    assert_eq!(g.index(&1).title, "Also");

    let mut a = AdjDag::from_records(three());
    a.get_mut(&2).unwrap().title = "New".to_string();
    assert!(a.get_mut(&3).is_none());
    a.index_mut(&0).title = "Old".to_string();
    assert_eq!(a.index(&2).title, "New");
    assert_eq!(a.index(&0).title, "Old");

    let mut l = LinkedDag::from_records(three());
    let n = node_by_id(&l, "b").unwrap();
    l.get_mut(&n).unwrap().title = "Linked".to_string();
    assert_eq!(l.index(&n).title, "Linked");
    l.index_mut(&n).title = "Again".to_string();
    assert_eq!(l.get(&n).unwrap().title, "Again");
}

#[test]
fn linked_dag_follows_references() {
    let g = LinkedDag::from_records(three());
    let a = node_by_id(&g, "a").unwrap();
    let b = node_by_id(&g, "b").unwrap();
    let c = node_by_id(&g, "c").unwrap();
    let from_c: Vec<String> = g.neighbors(&c).iter().map(|n| g.index(n).id.clone()).collect();
    let mut from_c = from_c;
    from_c.sort();
    assert_eq!(from_c, vec!["a", "b"]);
    assert_eq!(g.neighbors_back(&b).len(), 1);
    assert_eq!(g.index(&g.neighbors_back(&b)[0]).id, "c");
    assert!(g.neighbors(&a).is_empty());
}

#[test]
fn node_ids_of_another_graph_name_nothing() {
    let g = LinkedDag::from_records(three());
    let h = LinkedDag::from_records(three());
    let a = node_by_id(&g, "a").unwrap();
    assert!(h.get(&a).is_none());
    assert!(h.neighbors(&a).is_empty());
}

#[test]
fn insert_node_lossy_links_only_known_nodes() {
    let mut g: LinkedDag<u32> = LinkedDag::new();
    let first = g.insert_node_lossy(1, &[]);
    let other: LinkedDag<u32> = LinkedDag::default();
    let mut other = other;
    let foreign = other.insert_node_lossy(9, &[]);
    let second = g.insert_node_lossy(2, &[first, foreign]);
    assert_eq!(*g.index(&second), 2);
    assert_eq!(g.neighbors(&second).len(), 1);
    assert!(g.same_node(&g.neighbors(&second)[0], &first));
    assert!(g.same_node(&g.neighbors_back(&first)[0], &second));
    let found = g.find_nodes(|_, w| *w > 0);
    assert_eq!(found.len(), 2);
}

#[test]
fn find_node_and_find_by_id() {
    let adj = AdjDag::from_records(three());
    assert_eq!(adj.find_node(|_, w: &Paper| w.id == "c"), Some(2));
    assert_eq!(find_by_id(&adj, "b").unwrap().title, "More graphs");
    assert!(find_by_id(&adj, "q").is_none());
    let mut all = adj.find_nodes(|_, _| true);
    all.sort();
    assert_eq!(all, vec![0, 1, 2]);
}

#[test]
fn latest_common_ancestors_of_named_papers() {
    for_each_kind(three(), |lca, _| {
        assert_eq!(lca("b", "c"), Ok(vec!["a".to_string()]));
    });
    for_each_kind(diamond(), |lca, _| {
        assert_eq!(lca("x", "y"), Ok(vec!["m".to_string()]));
        assert_eq!(lca("z", "m"), Ok(vec!["root".to_string()]));
        assert_eq!(lca("root", "m"), Ok(vec![]));
    });
}

#[test]
fn earliest_common_descendants_of_named_papers() {
    for_each_kind(three(), |_, ecd| {
        assert_eq!(ecd("a", "b"), Ok(vec!["c".to_string()]));
    });
    for_each_kind(diamond(), |_, ecd| {
        assert_eq!(ecd("x", "y"), Ok(vec!["z".to_string()]));
        assert_eq!(ecd("root", "m"), Ok(vec!["x".to_string(), "y".to_string()]));
        assert_eq!(ecd("z", "x"), Ok(vec![]));
    });
}

#[test]
fn common_search_is_symmetric() {
    for_each_kind(diamond(), |lca, ecd| {
        for a in ["root", "m", "x", "y", "z"] {
            for b in ["root", "m", "x", "y", "z"] {
                assert_eq!(lca(a, b), lca(b, a));
                assert_eq!(ecd(a, b), ecd(b, a));
            }
        }
    });
}

#[test]
fn lookups_report_which_paper_is_missing() {
    for_each_kind(three(), |lca, ecd| {
        assert_eq!(lca("nope", "a"), Err("first"));
        assert_eq!(lca("a", "nope"), Err("second"));
        assert_eq!(ecd("nope", "nope"), Err("first"));
        assert_eq!(ecd("c", ""), Err("second"));
    });
}

type Answer = Result<Vec<String>, &'static str>;

fn answer(r: Result<Vec<&Paper>, LookupError>) -> Answer {
    match r {
        Ok(papers) => Ok(ids(&papers)),
        Err(LookupError::FirstNotFound) => Err("first"),
        Err(LookupError::SecondNotFound) => Err("second"),
    }
}

/// Runs `check` with the ancestor and descendant questions of each representation of
/// `records`.
fn for_each_kind(
    records: Vec<CSVRecord>,
    check: impl Fn(&dyn Fn(&str, &str) -> Answer, &dyn Fn(&str, &str) -> Answer),
) {
    let adj = AdjDag::from_records(records.clone());
    check(
        &|a, b| answer(common_ancestors_by_id(&adj, a, b)),
        &|a, b| answer(common_descendants_by_id(&adj, a, b)),
    );
    let edges = EdgeListDag::from_records(records.clone());
    check(
        &|a, b| answer(common_ancestors_by_id(&edges, a, b)),
        &|a, b| answer(common_descendants_by_id(&edges, a, b)),
    );
    let linked = LinkedDag::from_records(records);
    check(
        &|a, b| answer(common_ancestors_by_id(&linked, a, b)),
        &|a, b| answer(common_descendants_by_id(&linked, a, b)),
    );
}

#[test]
fn search_functions_take_node_ids() {
    let g = AdjDag::from_records(diamond());
    let lca: Vec<&Paper> = last_common_ancestor(&g, &2, &3);
    assert_eq!(ids(&lca), vec!["m"]);
    let ecd: Vec<&Paper> = earliest_common_descendant(&g, &0, &1);
    assert_eq!(ids(&ecd), vec!["x", "y"]);
}

#[test]
fn related_papers_lists_citations_both_ways() {
    let g = AdjDag::from_records(three());
    let (incoming, outgoing) = related_papers(&g, "a").unwrap();
    assert_eq!(ids(&incoming), vec!["b", "c"]);
    assert!(outgoing.is_empty());
    let (incoming, outgoing) = related_papers(&g, "c").unwrap();
    assert!(incoming.is_empty());
    assert_eq!(ids(&outgoing), vec!["a", "b"]);
    assert!(related_papers(&g, "zzz").is_none());
}

#[test]
fn search_by_title_matches_substrings() {
    let g = LinkedDag::from_records(three());
    assert_eq!(ids(&search_by_title(&g, "raph")), vec!["a", "b"]);
    assert_eq!(ids(&search_by_title(&g, "")), vec!["a", "b", "c"]);
    assert!(search_by_title(&g, "graphs!").is_empty());
}

#[test]
fn filter_disconnected_drops_isolated_records() {
    let recs = vec![
        record("a", "", &[]),
        record("lonely", "", &["missing"]),
        record("b", "", &["a"]),
        record("c", "", &[]),
    ];
    let kept = filter_disconnected(recs);
    let kept_ids: Vec<String> = kept.iter().map(|r| r.id.clone()).collect();
    assert_eq!(kept_ids, vec!["a", "b"]);
}

#[test]
fn filter_disconnected_keeps_every_record_of_a_connected_set() {
    let kept = filter_disconnected(three());
    assert_eq!(kept.len(), 3);
    assert!(filter_disconnected(vec![]).is_empty());
}

#[test]
fn duplicate_identifiers_name_the_last_record() {
    let g = EdgeListDag::from_records(vec![
        record("a", "first", &[]),
        record("a", "second", &[]),
        record("b", "", &["a"]),
    ]);
    assert_eq!(g.neighbors(&2), vec![1]);
    let l = LinkedDag::from_records(vec![
        record("a", "first", &[]),
        record("a", "second", &[]),
        record("b", "", &["a"]),
    ]);
    assert_eq!(find_by_id(&l, "a").unwrap().title, "second");
}

#[test]
fn representations_hold_the_same_citations() {
    for recs in [three(), diamond()] {
        let adj = AdjDag::from_records(recs.clone());
        let edges = EdgeListDag::from_records(recs.clone());
        let linked = LinkedDag::from_records(recs.clone());
        for (i, rec) in recs.iter().enumerate() {
            let mut from_adj: Vec<String> =
                adj.neighbors(&i).iter().map(|j| adj.index(j).id.clone()).collect();
            let mut from_edges: Vec<String> =
                edges.neighbors(&i).iter().map(|j| edges.index(j).id.clone()).collect();
            let n = node_by_id(&linked, &rec.id).unwrap();
            let mut from_linked: Vec<String> =
                linked.neighbors(&n).iter().map(|m| linked.index(m).id.clone()).collect();
            from_adj.sort();
            from_edges.sort();
            from_linked.sort();
            let mut cited = rec.references.clone();
            cited.sort();
            assert_eq!(from_adj, cited);
            assert_eq!(from_edges, cited);
            assert_eq!(from_linked, cited);
        }
    }
}

#[test]
fn a_graph_grown_by_insertion_answers_questions() {
    let paper = |id: &str| Paper {
        id: id.to_string(),
        title: String::new(),
        abstract_text: String::new(),
    };
    let mut g: LinkedDag<Paper> = LinkedDag::new();
    let root = g.insert_node_lossy(paper("root"), &[]);
    let left = g.insert_node_lossy(paper("left"), &[root]);
    let right = g.insert_node_lossy(paper("right"), &[root]);
    let _top = g.insert_node_lossy(paper("top"), &[left, right]);
    assert_eq!(answer(common_ancestors_by_id(&g, "left", "right")), Ok(vec!["root".to_string()]));
    assert_eq!(answer(common_descendants_by_id(&g, "left", "right")), Ok(vec!["top".to_string()]));
    assert_eq!(answer(common_ancestors_by_id(&g, "top", "root")), Ok(vec![]));
}

#[test]
fn only_the_last_common_ancestors_are_returned() {
    // `a` and `b` each cite `x` and `y`, and `y` cites `x`: `x` is older than `y`.
    let recs = vec![
        record("x", "", &[]),
        record("y", "", &["x"]),
        record("a", "", &["x", "y"]),
        record("b", "", &["x", "y"]),
    ];
    for_each_kind(recs, |lca, _| {
        assert_eq!(lca("a", "b"), Ok(vec!["y".to_string()]));
    });
    // A more recent common ancestor found further away than an older one.
    let recs = vec![
        record("x", "", &[]),
        record("y", "", &["x"]),
        record("u", "", &["y"]),
        record("w", "", &["y"]),
        record("a", "", &["x", "u"]),
        record("b", "", &["x", "w"]),
    ];
    for_each_kind(recs, |lca, _| {
        assert_eq!(lca("a", "b"), Ok(vec!["y".to_string()]));
    });
}

#[test]
fn only_the_earliest_common_descendants_are_returned() {
    // `x` and `y` both cite `a` and `b`, and `x` cites `y`: `x` is later than `y`.
    let recs = vec![
        record("a", "", &[]),
        record("b", "", &[]),
        record("y", "", &["a", "b"]),
        record("x", "", &["a", "b", "y"]),
    ];
    for_each_kind(recs, |_, ecd| {
        assert_eq!(ecd("a", "b"), Ok(vec!["y".to_string()]));
    });
}

#[test]
fn every_node_of_an_acyclic_linked_graph_is_found() {
    let recs = vec![
        record("a", "", &[]),
        record("b", "", &["a"]),
        record("c", "", &["a", "b", "zz"]),
    ];
    let g = LinkedDag::from_records(recs);
    let mut found: Vec<String> = g.find_nodes(|_, _| true).iter().map(|n| g.index(n).id.clone()).collect();
    found.sort();
    assert_eq!(found, vec!["a", "b", "c"]);
}

#[test]
fn neighbors_follow_edges_that_leave_the_node_list() {
    let mut g: EdgeListDag<u8> = EdgeListDag::new();
    g.nodes.push(7);
    g.add_edge(0, 5);
    g.add_edge(0, 0);
    g.add_edge(3, 0);
    assert_eq!(g.neighbors(&0), vec![5, 0]);
    assert_eq!(g.neighbors_back(&0), vec![0, 3]);
    assert_eq!(g.find_node(|_, w| *w == 7), Some(0));
    assert_eq!(g.get(&0), Some(&7));
    assert!(g.get(&5).is_none());
}

#[test]
fn repeated_references_give_one_edge() {
    let g = EdgeListDag::from_records(vec![
        record("a", "", &[]),
        record("b", "", &["a", "a", "zz", "a"]),
    ]);
    assert_eq!(g.edges, vec![(1, 0)]);
    let (incoming, outgoing) = g.get_connected_edges("b").unwrap();
    assert!(incoming.is_empty());
    assert_eq!(ids(&outgoing), vec!["a"]);
}

#[test]
fn find_by_id_returns_the_first_match() {
    let recs = vec![
        record("dup", "first", &[]),
        record("other", "", &[]),
        record("dup", "second", &[]),
    ];
    let g = EdgeListDag::from_records(recs);
    assert_eq!(find_by_id(&g, "dup").unwrap().title, "first");
    assert_eq!(node_by_id(&g, "dup"), Some(0));
}

#[test]
fn filtering_twice_keeps_what_the_first_filter_kept() {
    let recs = vec![
        record("a", "", &[]),
        record("lonely", "", &["missing"]),
        record("b", "", &["a"]),
        record("c", "", &["b"]),
        record("d", "", &[]),
    ];
    let once = filter_disconnected(recs);
    let twice = filter_disconnected(once.clone());
    let ids_once: Vec<String> = once.iter().map(|r| r.id.clone()).collect();
    let ids_twice: Vec<String> = twice.iter().map(|r| r.id.clone()).collect();
    assert_eq!(ids_once, vec!["a", "b", "c"]);
    assert_eq!(ids_twice, ids_once);
}
