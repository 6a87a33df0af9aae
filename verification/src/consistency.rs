//! The three representations agree: built from the same records, they hold the same papers
//! in the same order and the same citations between them.
use crate::edge_list_dag::{
    edge_to, edges_of, first_occurrences, lemma_first_occurrences, record_edges, resolvable,
};
use crate::text::texts;
use crate::linked_dag::kept_record;
use crate::records::{
    cited_ids, id_positions, ids_distinct, kept_positions, last_of_id, lemma_id_positions_distinct,
    CSVRecord,
};
use crate::seq_lemmas::{lemma_filter_keeps_all, lemma_filter_map_contains};
use vstd::prelude::*;

verus! {

/// The edges of one record, when identifiers are distinct: one to each record it cites.
proof fn lemma_record_edges_contains(recs: Seq<CSVRecord>, i: int, e: (usize, usize))
    requires
        ids_distinct(recs),
        recs.len() <= usize::MAX,
        0 <= i < recs.len(),
    ensures
        record_edges(id_positions(recs), recs[i]).contains(e) <==> (e.0 == i && e.1 < recs.len()
            && cited_ids(recs[i]).contains(recs[e.1 as int].id@)),
{
    let m = id_positions(recs);
    let refs = recs[i].references@;
    let fo = first_occurrences(refs);
    lemma_id_positions_distinct(recs);
    lemma_first_occurrences(refs);
    lemma_filter_map_contains(fo, resolvable(m), edge_to(m, recs[i].id@), e);
    assert(m[recs[i].id@] == i);
    if record_edges(m, recs[i]).contains(e) {
        let t = choose|t: int|
            0 <= t < fo.len() && resolvable(m)(fo[t]) && edge_to(m, recs[i].id@)(#[trigger] fo[t]) == e;
        assert(m.contains_key(fo[t]@));
        let k = choose|k: int| 0 <= k < recs.len() && recs[k].id@ == fo[t]@;
        assert(m[recs[k].id@] == k);
        assert(fo.contains(fo[t]));
        assert(refs.contains(fo[t]));
        let u = choose|u: int| 0 <= u < refs.len() && refs[u] == fo[t];
        assert(cited_ids(recs[i]).contains(refs[u]@));
    }
    if e.0 == i && e.1 < recs.len() && cited_ids(recs[i]).contains(recs[e.1 as int].id@) {
        let k = e.1 as int;
        let t = choose|t: int| 0 <= t < refs.len() && #[trigger] refs[t]@ == recs[k].id@;
        assert(texts(refs).contains(refs[t]@));
        assert(texts(fo).contains(refs[t]@));
        let u = choose|u: int| 0 <= u < fo.len() && (#[trigger] fo[u])@ == refs[t]@;
        assert(m.contains_key(recs[k].id@) && m[recs[k].id@] == k);
        assert(resolvable(m)(fo[u]) && edge_to(m, recs[i].id@)(fo[u]) == e);
    }
}

/// The edges of the first `n` records, when identifiers are distinct: one from each of
/// them to each record it cites.
proof fn lemma_edges_of_contains(recs: Seq<CSVRecord>, n: nat, e: (usize, usize))
    requires
        ids_distinct(recs),
        recs.len() <= usize::MAX,
        n <= recs.len(),
    ensures
        edges_of(id_positions(recs), recs, n).contains(e) <==> (e.0 < n && e.1 < recs.len()
            && cited_ids(recs[e.0 as int]).contains(recs[e.1 as int].id@)),
    decreases n,
{
    if n > 0 {
        let m = id_positions(recs);
        let before = edges_of(m, recs, (n - 1) as nat);
        let last = record_edges(m, recs[n - 1]);
        lemma_edges_of_contains(recs, (n - 1) as nat, e);
        lemma_record_edges_contains(recs, n - 1, e);
        assert(edges_of(m, recs, n) == before + last);
        if (before + last).contains(e) {
            let k = choose|k: int| 0 <= k < (before + last).len() && (before + last)[k] == e;
            if k < before.len() {
                assert(before[k] == e);
                assert(before.contains(e));
            } else {
                assert(last[k - before.len()] == e);
                assert(last.contains(e));
            }
        }
        if before.contains(e) {
            let k = choose|k: int| 0 <= k < before.len() && before[k] == e;
            assert((before + last)[k] == e);
        }
        if last.contains(e) {
            let k = choose|k: int| 0 <= k < last.len() && last[k] == e;
            assert((before + last)[before.len() + k] == e);
        }
    }
}

/// With distinct identifiers no record is replaced, so every position is kept, in order.
proof fn lemma_all_kept(recs: Seq<CSVRecord>)
    requires
        ids_distinct(recs),
        recs.len() <= usize::MAX,
    ensures
        kept_positions(recs) == Seq::new(recs.len(), |i: int| i as usize),
{
    let all = Seq::new(recs.len(), |i: int| i as usize);
    let p = last_of_id(recs);
    assert forall|i: int| 0 <= i < all.len() implies #[trigger] p(all[i]) by {
        assert forall|j: int| all[i] < j < recs.len() implies (#[trigger] recs[j]).id@ != recs[all[i] as int].id@ by {
            assert(recs[i].id@ != recs[j].id@);
        }
    }
    lemma_filter_keeps_all(all, p);
}

/// Built from the same records with distinct identifiers, the three representations agree.
/// Node `i` holds record `i` in each: the edge list and the adjacency matrix by their
/// constructors, the pointer-based graph because no record is replaced. And the edge list
/// holds an edge `(i, j)` exactly when record `i` cites record `j`, which is when the
/// adjacency matrix and the pointer-based graph link node `i` to node `j`.
pub proof fn lemma_representations_agree(recs: Seq<CSVRecord>, i: int, j: int)
    requires
        ids_distinct(recs),
        recs.len() <= usize::MAX,
        0 <= i < recs.len(),
        0 <= j < recs.len(),
    ensures
        kept_positions(recs).len() == recs.len(),
        kept_record(recs, i) == recs[i],
        edges_of(id_positions(recs), recs, recs.len()).contains((i as usize, j as usize))
            <==> cited_ids(recs[i]).contains(recs[j].id@),
{
    lemma_all_kept(recs);
    lemma_edges_of_contains(recs, recs.len(), (i as usize, j as usize));
}

} // verus!
