//! The questions that the tool answers about papers named by their identifiers.
use crate::dag::{
    earliest_common_descendant, frontmost, last_common_ancestor, weights_of,
    Dag,
};
use crate::records::Paper;
use vstd::prelude::*;

verus! {

/// `papers` are the weights of the nodes `ids`, in order.
pub open spec fn weights_are<W, Id: Copy, G: Dag<W, Id>>(g: G, papers: Seq<&W>, ids: Seq<Id>) -> bool {
    &&& papers.len() == ids.len()
    &&& forall|i: int| 0 <= i < ids.len() ==> *papers[i] == g.weight(#[trigger] ids[i])
}

/// `papers` are the weights of a list of nodes that holds exactly the nodes for which `pred`
/// holds.
pub open spec fn lists_nodes<W, Id: Copy, G: Dag<W, Id>>(
    g: G,
    papers: Seq<&W>,
    pred: spec_fn(Id) -> bool,
) -> bool {
    exists|ids: Seq<Id>|
        (forall|m: Id| ids.contains(m) <==> pred(m)) && #[trigger] weights_are(g, papers, ids)
}

/// `papers` are the weights of a list that holds, each once and in the order in which the
/// graph scans its nodes, exactly the nodes for which `pred` holds.
pub open spec fn lists_each_node<W, Id: Copy, G: Dag<W, Id>>(
    g: G,
    papers: Seq<&W>,
    pred: spec_fn(Id) -> bool,
) -> bool {
    exists|ids: Seq<Id>|
        {
            &&& ids.no_duplicates()
            &&& forall|i: int, j: int| 0 <= i < j < ids.len() ==> !g.scanned_before(ids[j], ids[i])
            &&& forall|m: Id| ids.contains(m) <==> pred(m)
            &&& #[trigger] weights_are(g, papers, ids)
        }
}

/// `n` is a node that the graph searches and whose paper has the identifier `id`.
pub open spec fn names<Id: Copy, G: Dag<Paper, Id>>(g: G, n: Id, id: Seq<char>) -> bool {
    g.searchable(n) && g.weight(n).id@ == id
}

/// No node that the graph searches has a paper with the identifier `id`.
pub open spec fn unknown<Id: Copy, G: Dag<Paper, Id>>(g: G, id: Seq<char>) -> bool {
    forall|n: Id| g.searchable(n) ==> (#[trigger] g.weight(n)).id@ != id
}

/// A node whose paper has the identifier `id`, if the graph searches one.
pub fn node_by_id<Id: Copy, G: Dag<Paper, Id>>(dag: &G, id: &str) -> (r: Option<Id>)
    requires
        dag.wf(),
    ensures
        match r {
            Some(n) => names(*dag, n, id@) && forall|m: Id|
                #[trigger] dag.scanned_before(m, n) ==> !names(*dag, m, id@),
            None => unknown(*dag, id@),
        },
{
    let key: String = id.to_owned();
    let has_key = |_n: &Id, w: &Paper| -> (m: bool)
        ensures
            m == (w.id@ == key@),
        { w.id == key };
    let r = dag.find_node(has_key);
    proof {
        if let Some(n) = r {
            assert forall|m: Id| #[trigger] dag.scanned_before(m, n) implies !names(*dag, m, id@) by {
                if dag.searchable(m) {
                    assert(call_ensures(has_key, (&m, &dag.weight(m)), false));
                }
            }
        }
    }
    r
}

/// The papers that cite the paper `id` and the papers that it cites, in the order that
/// `neighbors_back` and `neighbors` list them, or `None` when the graph has no paper `id`.
pub fn related_papers<'g, Id: Copy, G: Dag<Paper, Id>>(dag: &'g G, id: &str) -> (r: Option<
    (Vec<&'g Paper>, Vec<&'g Paper>),
>)
    requires
        dag.wf(),
        dag.edges_closed(),
    ensures
        match r {
            Some((incoming, outgoing)) => exists|n: Id|
                {
                    &&& #[trigger] names(*dag, n, id@)
                    &&& forall|m: Id| #[trigger] dag.scanned_before(m, n) ==> !names(*dag, m, id@)
                    &&& weights_are(*dag, incoming@, dag.in_list(n))
                    &&& weights_are(*dag, outgoing@, dag.out_list(n))
                    &&& lists_nodes(*dag, incoming@, |m: Id| dag.has_edge(m, n))
                    &&& lists_nodes(*dag, outgoing@, |m: Id| dag.has_edge(n, m))
                },
            None => unknown(*dag, id@),
        },
{
    match node_by_id(dag, id) {
        None => None,
        Some(n) => {
            proof {
                dag.lemma_searchable_node(n);
            }
            let back = dag.neighbors_back(&n);
            let fwd = dag.neighbors(&n);
            assert forall|i: int| 0 <= i < back@.len() implies dag.contains_node(#[trigger] back@[i]) by {
                assert(back@.contains(back@[i]));
                dag.lemma_edge_ends(back@[i], n);
            }
            assert forall|i: int| 0 <= i < fwd@.len() implies dag.contains_node(#[trigger] fwd@[i]) by {
                assert(fwd@.contains(fwd@[i]));
                dag.lemma_edge_ends(n, fwd@[i]);
            }
            let incoming = weights_of(dag, &back);
            let outgoing = weights_of(dag, &fwd);
            assert(weights_are(*dag, incoming@, back@));
            assert(weights_are(*dag, outgoing@, fwd@));
            assert(lists_nodes(*dag, incoming@, |m: Id| dag.has_edge(m, n)));
            assert(lists_nodes(*dag, outgoing@, |m: Id| dag.has_edge(n, m)));
            Some((incoming, outgoing))
        },
    }
}

/// Which of the two papers that a two-paper question names the graph does not have.
pub enum LookupError {
    /// The graph has no paper with the first identifier.
    FirstNotFound,
    /// The graph has the first paper but none with the second identifier.
    SecondNotFound,
}

/// `papers` are the weights of the frontmost common nodes of `a` and `b` in the direction
/// `fwd`, each node listed once.
pub open spec fn search_papers_are<Id: Copy, G: Dag<Paper, Id>>(
    g: G,
    fwd: bool,
    a: Id,
    b: Id,
    papers: Seq<&Paper>,
) -> bool {
    exists|ids: Seq<Id>|
        ids.no_duplicates() && ids.to_set() == frontmost(g, fwd, a, b) && #[trigger] weights_are(
            g,
            papers,
            ids,
        )
}

/// The answer to a two-paper question in the direction `fwd`: the lookup errors, or the
/// papers that the search from the two named nodes yields.
pub open spec fn answers<Id: Copy, G: Dag<Paper, Id>>(
    g: G,
    fwd: bool,
    a: Seq<char>,
    b: Seq<char>,
    r: Result<Vec<&Paper>, LookupError>,
) -> bool {
    match r {
        Ok(papers) => exists|na: Id, nb: Id|
            #[trigger] names(g, na, a) && #[trigger] names(g, nb, b) && search_papers_are(
                g,
                fwd,
                na,
                nb,
                papers@,
            ),
        Err(LookupError::FirstNotFound) => unknown(g, a),
        Err(LookupError::SecondNotFound) => (exists|na: Id| #[trigger] names(g, na, a)) && unknown(
            g,
            b,
        ),
    }
}

/// Looks up the two papers and finds their frontmost common nodes in the direction `fwd`.
fn common_by_id<'g, Id: Copy, G: Dag<Paper, Id>>(dag: &'g G, a: &str, b: &str, fwd: bool) -> (r:
    Result<Vec<&'g Paper>, LookupError>)
    requires
        dag.wf(),
        dag.edges_closed(),
    ensures
        answers(*dag, fwd, a@, b@, r),
{
    let na = match node_by_id(dag, a) {
        Some(n) => n,
        None => {
            return Err(LookupError::FirstNotFound);
        },
    };
    let nb = match node_by_id(dag, b) {
        Some(n) => n,
        None => {
            return Err(LookupError::SecondNotFound);
        },
    };
    proof {
        dag.lemma_searchable_node(na);
        dag.lemma_searchable_node(nb);
    }
    let papers = if fwd {
        last_common_ancestor(dag, &na, &nb)
    } else {
        earliest_common_descendant(dag, &na, &nb)
    };
    proof {
        let ids = choose|ids: Seq<Id>|
            {
                &&& ids.no_duplicates()
                &&& ids.to_set() == frontmost(*dag, fwd, na, nb)
                &&& papers@.len() == ids.len()
                &&& forall|i: int| 0 <= i < ids.len() ==> *papers@[i] == dag.weight(#[trigger] ids[i])
            };
        assert(weights_are(*dag, papers@, ids));
        assert(search_papers_are(*dag, fwd, na, nb, papers@));
    }
    Ok(papers)
}

/// The latest common ancestors of the papers `a` and `b`: the papers that both cite, directly
/// or through others, and that no other such paper cites, directly or through others.
pub fn common_ancestors_by_id<'g, Id: Copy, G: Dag<Paper, Id>>(dag: &'g G, a: &str, b: &str) -> (r:
    Result<Vec<&'g Paper>, LookupError>)
    requires
        dag.wf(),
        dag.edges_closed(),
    ensures
        answers(*dag, true, a@, b@, r),
{
    common_by_id(dag, a, b, true)
}

/// The earliest common descendants of the papers `a` and `b`: the papers that cite both,
/// directly or through others, and that cite no other such paper, directly or through
/// others.
pub fn common_descendants_by_id<'g, Id: Copy, G: Dag<Paper, Id>>(dag: &'g G, a: &str, b: &str) -> (r:
    Result<Vec<&'g Paper>, LookupError>)
    requires
        dag.wf(),
        dag.edges_closed(),
    ensures
        answers(*dag, false, a@, b@, r),
{
    common_by_id(dag, a, b, false)
}

/// `needle` occurs in `hay` as a contiguous run of characters.
pub open spec fn has_substring(hay: Seq<char>, needle: Seq<char>) -> bool {
    exists|i: int| 0 <= i <= hay.len() - needle.len() && #[trigger] hay.subrange(i, i + needle.len()) == needle
}

/// Whether `needle` occurs in `hay`.
pub fn contains_substring(hay: &str, needle: &str) -> (r: bool)
    ensures
        r == has_substring(hay@, needle@),
{
    let h = crate::text::chars_of(hay);
    let n = crate::text::chars_of(needle);
    if n.len() > h.len() {
        return false;
    }
    let hl = h.len();
    let last = hl - n.len();
    let mut i: usize = 0;
    loop
        invariant
            h@ == hay@,
            n@ == needle@,
            n@.len() <= h@.len(),
            hl == h@.len(),
            last == h@.len() - n@.len(),
            i <= last,
            forall|k: int| 0 <= k < i ==> #[trigger] hay@.subrange(k, k + needle@.len()) != needle@,
        ensures
            forall|k: int| 0 <= k <= last ==> #[trigger] hay@.subrange(k, k + needle@.len()) != needle@,
        decreases last - i,
    {
        let mut j: usize = 0;
        while j < n.len()
            invariant
                h@ == hay@,
                n@ == needle@,
                n@.len() <= h@.len(),
                hl == h@.len(),
                i <= last,
                last == h@.len() - n@.len(),
                j <= n@.len(),
                forall|t: int| 0 <= t < j ==> h@[i + t] == n@[t],
            ensures
                j <= n@.len(),
                forall|t: int| 0 <= t < j ==> h@[i + t] == n@[t],
                j < n@.len() ==> h@[i + j] != n@[j as int],
            decreases n@.len() - j,
        {
            if h[i + j] != n[j] {
                break;
            }
            j = j + 1;
        }
        if j == n.len() {
            assert(hay@.subrange(i as int, i + needle@.len()) =~= needle@);
            return true;
        }
        assert(hay@.subrange(i as int, i + needle@.len())[j as int] != needle@[j as int]);
        if i == last {
            break;
        }
        i = i + 1;
    }
    proof {
        if has_substring(hay@, needle@) {
            let k = choose|k: int|
                0 <= k <= hay@.len() - needle@.len() && #[trigger] hay@.subrange(k, k + needle@.len())
                    == needle@;
            assert(hay@.subrange(k, k + needle@.len()) != needle@);
        }
    }
    false
}

/// The papers whose titles contain `query`, each once, in the order in which the graph scans
/// its nodes.
pub fn search_by_title<'g, Id: Copy, G: Dag<Paper, Id>>(dag: &'g G, query: &str) -> (r: Vec<&'g Paper>)
    requires
        dag.wf(),
    ensures
        lists_each_node(
            *dag,
            r@,
            |m: Id| dag.searchable(m) && has_substring(dag.weight(m).title@, query@),
        ),
{
    let key: String = query.to_owned();
    let matches = |_n: &Id, w: &Paper| -> (m: bool)
        ensures
            m == has_substring(w.title@, key@),
        { contains_substring(w.title.as_str(), key.as_str()) };
    let ids = dag.find_nodes(matches);
    assert forall|i: int| 0 <= i < ids@.len() implies dag.contains_node(#[trigger] ids@[i]) by {
        dag.lemma_searchable_node(ids@[i]);
    }
    let papers = weights_of(dag, &ids);
    assert forall|m: Id| ids@.contains(m) <==> (dag.searchable(m) && has_substring(
        dag.weight(m).title@,
        query@,
    )) by {
        if ids@.contains(m) {
            let i = choose|i: int| 0 <= i < ids@.len() && ids@[i] == m;
            assert(dag.searchable(ids@[i]));
        }
    }
    assert(weights_are(*dag, papers@, ids@));
    papers
}

} // verus!
