//! The records that a citation dataset holds, and the papers that the graphs carry.
use crate::seq_lemmas::{lemma_filter_keeps_all, lemma_filter_take};
use crate::text::texts;
use vstd::prelude::*;

verus! {

/// One row of the dataset: a paper and the identifiers of the papers it cites.
#[derive(Clone, Debug)]
pub struct CSVRecord {
    pub id: String,
    pub title: String,
    pub abstract_text: String,
    /// Identifiers of the cited papers; read as a set.
    pub references: Vec<String>,
}

/// The weight of a node: what the graphs keep of a record.
#[derive(Clone, Debug, Hash)]
pub struct Paper {
    pub id: String,
    pub title: String,
    pub abstract_text: String,
}

/// The paper that a record describes.
pub open spec fn paper_of(rec: CSVRecord) -> Paper {
    Paper { id: rec.id, title: rec.title, abstract_text: rec.abstract_text }
}

/// The identifiers that a record cites, as character sequences.
pub open spec fn cited_ids(rec: CSVRecord) -> Set<Seq<char>> {
    Set::new(|s: Seq<char>| exists|i: int| 0 <= i < rec.references@.len() && #[trigger] rec.references@[i]@ == s)
}

/// The node that each record's identifier names last: a later record with the same
/// identifier takes its place.
pub open spec fn id_positions(recs: Seq<CSVRecord>) -> Map<Seq<char>, usize>
    decreases recs.len(),
{
    if recs.len() == 0 {
        Map::empty()
    } else {
        id_positions(recs.drop_last()).insert(recs.last().id@, (recs.len() - 1) as usize)
    }
}

/// Every identifier of the records maps to a position among them.
pub proof fn lemma_id_positions_bound(recs: Seq<CSVRecord>)
    ensures
        forall|k: Seq<char>| #[trigger]
            id_positions(recs).contains_key(k) ==> id_positions(recs)[k] < recs.len(),
    decreases recs.len(),
{
    if recs.len() > 0 {
        lemma_id_positions_bound(recs.drop_last());
        let prev = id_positions(recs.drop_last());
        assert forall|k: Seq<char>| #[trigger]
            id_positions(recs).contains_key(k) implies id_positions(recs)[k] < recs.len() by {
            if k != recs.last().id@ {
                assert(prev.contains_key(k));
            }
        }
    }
}

/// The identifier of each record is mapped.
pub proof fn lemma_id_positions_contains(recs: Seq<CSVRecord>, i: int)
    requires
        0 <= i < recs.len(),
    ensures
        id_positions(recs).contains_key(recs[i].id@),
    decreases recs.len(),
{
    if i < recs.len() - 1 {
        lemma_id_positions_contains(recs.drop_last(), i);
    }
}

/// No later record has the identifier of record `i`.
pub open spec fn last_of_id(recs: Seq<CSVRecord>) -> spec_fn(usize) -> bool {
    |i: usize| forall|j: int| i < j < recs.len() ==> (#[trigger] recs[j]).id@ != recs[i as int].id@
}

/// The positions of the records that no later record with the same identifier replaces, in
/// order.
pub open spec fn kept_positions(recs: Seq<CSVRecord>) -> Seq<usize> {
    Seq::new(recs.len(), |i: int| i as usize).filter(last_of_id(recs))
}

/// A record's identifier maps to its own position exactly when no later record has it.
pub proof fn lemma_id_positions_last(recs: Seq<CSVRecord>, i: int)
    requires
        0 <= i < recs.len(),
        recs.len() <= usize::MAX,
    ensures
        (id_positions(recs)[recs[i].id@] == i) <==> last_of_id(recs)(i as usize),
    decreases recs.len(),
{
    let n = recs.len();
    let prev = recs.drop_last();
    if i < n - 1 {
        if recs[i].id@ == recs[n - 1].id@ {
            assert(!last_of_id(recs)(i as usize)) by {
                assert(recs[n - 1].id@ == recs[i].id@);
            }
        } else {
            lemma_id_positions_last(prev, i);
            assert(prev[i] == recs[i]);
            assert(last_of_id(recs)(i as usize) <==> last_of_id(prev)(i as usize)) by {
                if last_of_id(prev)(i as usize) {
                    assert forall|j: int| i < j < recs.len() implies (#[trigger] recs[j]).id@ != recs[i].id@ by {
                        if j < n - 1 {
                            assert(prev[j] == recs[j]);
                        }
                    }
                }
                if last_of_id(recs)(i as usize) {
                    assert forall|j: int| i < j < prev.len() implies (#[trigger] prev[j]).id@ != prev[i].id@ by {
                        assert(prev[j] == recs[j]);
                    }
                }
            }
        }
    }
}

/// A mapped identifier maps to a record that has it.
pub proof fn lemma_id_positions_maps_own(recs: Seq<CSVRecord>, s: Seq<char>)
    requires
        id_positions(recs).contains_key(s),
        recs.len() <= usize::MAX,
    ensures
        id_positions(recs)[s] < recs.len(),
        recs[id_positions(recs)[s] as int].id@ == s,
    decreases recs.len(),
{
    if s != recs.last().id@ {
        lemma_id_positions_maps_own(recs.drop_last(), s);
    }
}

/// No two records share an identifier.
pub open spec fn ids_distinct(recs: Seq<CSVRecord>) -> bool {
    forall|i: int, j: int| 0 <= i < j < recs.len() ==> (#[trigger] recs[i]).id@ != (#[trigger] recs[j]).id@
}

/// With distinct identifiers, each identifier maps to its own record, and only identifiers
/// of records are mapped.
pub proof fn lemma_id_positions_distinct(recs: Seq<CSVRecord>)
    requires
        ids_distinct(recs),
        recs.len() <= usize::MAX,
    ensures
        forall|i: int|
            0 <= i < recs.len() ==> id_positions(recs).contains_key((#[trigger] recs[i]).id@)
                && id_positions(recs)[recs[i].id@] == i,
        forall|k: Seq<char>| #[trigger] id_positions(recs).contains_key(k) ==> exists|i: int|
            0 <= i < recs.len() && recs[i].id@ == k,
    decreases recs.len(),
{
    if recs.len() > 0 {
        let prev = recs.drop_last();
        assert(ids_distinct(prev)) by {
            assert forall|i: int, j: int| 0 <= i < j < prev.len() implies (#[trigger] prev[i]).id@
                != (#[trigger] prev[j]).id@ by {
                assert(recs[i].id@ != recs[j].id@);
            }
        }
        lemma_id_positions_distinct(prev);
        assert forall|i: int| 0 <= i < recs.len() implies id_positions(recs).contains_key(
            (#[trigger] recs[i]).id@,
        ) && id_positions(recs)[recs[i].id@] == i by {
            lemma_id_positions_contains(recs, i);
            assert(id_positions(recs) == id_positions(prev).insert(
                recs.last().id@,
                (recs.len() - 1) as usize,
            ));
            if i < recs.len() - 1 {
                assert(recs[i].id@ != recs[recs.len() - 1].id@);
                assert(prev[i] == recs[i]);
                assert(id_positions(prev)[prev[i].id@] == i);
            }
        }
        assert forall|k: Seq<char>| #[trigger] id_positions(recs).contains_key(k) implies exists|i: int|
            0 <= i < recs.len() && recs[i].id@ == k by {
            if k != recs.last().id@ {
                assert(id_positions(prev).contains_key(k));
                let i = choose|i: int| 0 <= i < prev.len() && prev[i].id@ == k;
                assert(recs[i] == prev[i]);
            } else {
                assert(recs[recs.len() - 1].id@ == k);
            }
        }
    }
}

impl Paper {
    /// The paper that `rec` describes, with its strings copied.
    pub fn from_record(rec: &CSVRecord) -> (r: Paper)
        ensures
            r == paper_of(*rec),
    {
        Paper { id: rec.id.clone(), title: rec.title.clone(), abstract_text: rec.abstract_text.clone() }
    }
}

/// The identifiers of the records.
pub open spec fn record_ids(recs: Seq<CSVRecord>) -> Set<Seq<char>> {
    Set::new(|s: Seq<char>| exists|i: int| 0 <= i < recs.len() && (#[trigger] recs[i]).id@ == s)
}

/// Some record of `recs` cites `id`.
pub open spec fn cited_by_some(recs: Seq<CSVRecord>, id: Seq<char>) -> bool {
    exists|i: int| 0 <= i < recs.len() && cited_ids(#[trigger] recs[i]).contains(id)
}

/// A record is connected within a dataset when it cites a record of the dataset or a record
/// of the dataset cites it.
pub open spec fn connected(recs: Seq<CSVRecord>) -> spec_fn(CSVRecord) -> bool {
    |rec: CSVRecord|
        (exists|s: Seq<char>| cited_ids(rec).contains(s) && #[trigger] record_ids(recs).contains(s))
            || cited_by_some(recs, rec.id@)
}

/// The identifiers that some record of `recs` cites.
pub open spec fn cited_in(recs: Seq<CSVRecord>) -> Set<Seq<char>> {
    Set::new(|s: Seq<char>| cited_by_some(recs, s))
}

/// The identifiers of the records, in order.
fn record_id_list(records: &Vec<CSVRecord>) -> (ids: Vec<String>)
    ensures
        texts(ids@) == record_ids(records@),
{
    let n = records.len();
    let mut ids: Vec<String> = Vec::new();
    let mut i: usize = 0;
    while i < n
        invariant
            n == records@.len(),
            i <= n,
            ids@.len() == i,
            forall|k: int| 0 <= k < i ==> (#[trigger] ids@[k])@ == records@[k].id@,
        decreases n - i,
    {
        ids.push(records[i].id.clone());
        i = i + 1;
    }
    assert forall|s: Seq<char>| texts(ids@).contains(s) <==> record_ids(records@).contains(s) by {
        if texts(ids@).contains(s) {
            let k = choose|k: int| 0 <= k < ids@.len() && (#[trigger] ids@[k])@ == s;
            assert(records@[k].id@ == s);
        }
        if record_ids(records@).contains(s) {
            let k = choose|k: int| 0 <= k < records@.len() && (#[trigger] records@[k]).id@ == s;
            assert(ids@[k]@ == s);
        }
    }
    assert(texts(ids@) =~= record_ids(records@));
    ids
}

/// Whether `rec` cites one of the texts of `ids`.
fn cites_any(rec: &CSVRecord, ids: &Vec<String>) -> (b: bool)
    ensures
        b == exists|s: Seq<char>| cited_ids(*rec).contains(s) && #[trigger] texts(ids@).contains(s),
{
    let mut j: usize = 0;
    while j < rec.references.len()
        invariant
            j <= rec.references@.len(),
            forall|t: int| 0 <= t < j ==> !texts(ids@).contains((#[trigger] rec.references@[t])@),
        decreases rec.references@.len() - j,
    {
        if crate::text::contains_text(ids, &rec.references[j]) {
            proof {
                let s = rec.references@[j as int]@;
                assert(cited_ids(*rec).contains(s));
                let m = choose|m: int| 0 <= m < ids@.len() && (#[trigger] ids@[m])@ == s;
                assert(texts(ids@).contains(s));
            }
            return true;
        }
        proof {
            let s = rec.references@[j as int]@;
            if texts(ids@).contains(s) {
                let m = choose|m: int| 0 <= m < ids@.len() && (#[trigger] ids@[m])@ == s;
            }
        }
        j = j + 1;
    }
    proof {
        if exists|s: Seq<char>| cited_ids(*rec).contains(s) && #[trigger] texts(ids@).contains(s) {
            let s = choose|s: Seq<char>| cited_ids(*rec).contains(s) && #[trigger] texts(ids@).contains(s);
            let t = choose|t: int| 0 <= t < rec.references@.len() && #[trigger] rec.references@[t]@ == s;
            assert(!texts(ids@).contains(rec.references@[t]@));
        }
    }
    false
}

/// The texts of `v` with one more string at its end.
pub(crate) proof fn lemma_texts_push(v: Seq<String>, x: String)
    ensures
        texts(v.push(x)) == texts(v).insert(x@),
{
    let w = v.push(x);
    assert forall|q: Seq<char>| texts(w).contains(q) <==> texts(v).insert(x@).contains(q) by {
        if texts(w).contains(q) {
            let k = choose|k: int| 0 <= k < w.len() && (#[trigger] w[k])@ == q;
            if k < v.len() {
                assert(v[k] == w[k]);
            }
        }
        if texts(v).contains(q) {
            let k = choose|k: int| 0 <= k < v.len() && (#[trigger] v[k])@ == q;
            assert(w[k] == v[k]);
        }
        if q == x@ {
            assert(w[v.len() as int] == x);
        }
    }
    assert(texts(w) =~= texts(v).insert(x@));
}

/// The texts of `ids` that some record of `records` cites.
fn cited_ids_among(records: &Vec<CSVRecord>, ids: &Vec<String>) -> (inc: Vec<String>)
    ensures
        texts(inc@) == texts(ids@).intersect(cited_in(records@)),
{
    let n = records.len();
    let mut inc: Vec<String> = Vec::new();
    let mut i: usize = 0;
    while i < n
        invariant
            n == records@.len(),
            i <= n,
            forall|s: Seq<char>| #[trigger] texts(inc@).contains(s) <==> texts(ids@).contains(s)
                && cited_by_some(records@.take(i as int), s),
        decreases n - i,
    {
        let rec = &records[i];
        let ghost before = records@.take(i as int);
        let mut j: usize = 0;
        while j < rec.references.len()
            invariant
                n == records@.len(),
                i < n,
                rec == &records@[i as int],
                before == records@.take(i as int),
                j <= rec.references@.len(),
                forall|s: Seq<char>| #[trigger] texts(inc@).contains(s) <==> texts(ids@).contains(s) && (
                    cited_by_some(before, s) || exists|t: int|
                        0 <= t < j && (#[trigger] rec.references@[t])@ == s),
            decreases rec.references@.len() - j,
        {
            let refr = &rec.references[j];
            let ghost old_inc = inc@;
            if crate::text::contains_text(ids, refr) {
                inc.push(refr.clone());
                proof {
                    lemma_texts_push(old_inc, *refr);
                }
            }
            proof {
                assert forall|s: Seq<char>| #[trigger] texts(inc@).contains(s) <==> texts(ids@).contains(s) && (
                    cited_by_some(before, s) || exists|t: int|
                        0 <= t < j + 1 && (#[trigger] rec.references@[t])@ == s) by {
                    if exists|t: int| 0 <= t < j + 1 && (#[trigger] rec.references@[t])@ == s {
                        let t = choose|t: int| 0 <= t < j + 1 && (#[trigger] rec.references@[t])@ == s;
                        if t == j {
                            if texts(ids@).contains(s) {
                                let m = choose|m: int| 0 <= m < ids@.len() && (#[trigger] ids@[m])@ == s;
                            }
                        }
                    }
                    if s == refr@ {
                        assert(rec.references@[j as int]@ == s);
                    }
                }
            }
            j = j + 1;
        }
        proof {
            let after = records@.take(i + 1);
            assert forall|s: Seq<char>| #[trigger] texts(inc@).contains(s) <==> texts(ids@).contains(s)
                && cited_by_some(after, s) by {
                if cited_by_some(after, s) {
                    let a = choose|a: int| 0 <= a < after.len() && cited_ids(#[trigger] after[a]).contains(s);
                    if a < i {
                        assert(before[a] == after[a]);
                    } else {
                        let t = choose|t: int| 0 <= t < rec.references@.len() && #[trigger] rec.references@[t]@ == s;
                    }
                }
                if cited_by_some(before, s) {
                    let a = choose|a: int| 0 <= a < before.len() && cited_ids(#[trigger] before[a]).contains(s);
                    assert(after[a] == before[a]);
                }
                if exists|t: int| 0 <= t < rec.references@.len() && (#[trigger] rec.references@[t])@ == s {
                    let t = choose|t: int| 0 <= t < rec.references@.len() && (#[trigger] rec.references@[t])@ == s;
                    assert(after[i as int] == records@[i as int]);
                    assert(cited_ids(after[i as int]).contains(s));
                }
            }
        }
        i = i + 1;
    }
    assert(records@.take(n as int) =~= records@);
    assert(texts(inc@) =~= texts(ids@).intersect(cited_in(records@)));
    inc
}

/// The records of a dataset that are connected within it, in order.
pub fn filter_disconnected(records: Vec<CSVRecord>) -> (r: Vec<CSVRecord>)
    ensures
        r@ == records@.filter(connected(records@)),
{
    let n = records.len();
    let ids = record_id_list(&records);
    let has_incoming = cited_ids_among(&records, &ids);
    let ghost p = connected(records@);
    let ghost all = records@;
    let mut keep: Vec<bool> = Vec::new();
    let mut i: usize = 0;
    while i < n
        invariant
            n == records@.len(),
            i <= n,
            p == connected(records@),
            texts(ids@) == record_ids(records@),
            texts(has_incoming@) == texts(ids@).intersect(cited_in(records@)),
            keep@.len() == i,
            forall|k: int| 0 <= k < i ==> keep@[k] == p(#[trigger] records@[k]),
        decreases n - i,
    {
        let rec = &records[i];
        let has_outgoing = cites_any(rec, &ids);
        let incoming = crate::text::contains_text(&has_incoming, &rec.id);
        proof {
            let recv = records@[i as int];
            assert(record_ids(records@).contains(recv.id@));
            if incoming {
                let m = choose|m: int| 0 <= m < has_incoming@.len() && (#[trigger] has_incoming@[m])@ == recv.id@;
                assert(texts(has_incoming@).contains(recv.id@));
            }
            if cited_by_some(records@, recv.id@) {
                assert(cited_in(records@).contains(recv.id@));
                assert(texts(has_incoming@).contains(recv.id@));
            }
            assert(p(recv) <==> (has_outgoing || incoming));
        }
        keep.push(has_outgoing || incoming);
        i = i + 1;
    }
    // Take the records out last first, then put the kept ones back in their order.
    let mut rest = records;
    let mut reversed: Vec<CSVRecord> = Vec::new();
    while rest.len() > 0
        invariant
            all.len() == n,
            rest@.len() + reversed@.len() == n,
            rest@ == all.take(rest@.len() as int),
            forall|k: int| 0 <= k < reversed@.len() ==> #[trigger] reversed@[k] == all[n - 1 - k],
        decreases rest@.len(),
    {
        let x = rest.pop().unwrap();
        reversed.push(x);
        assert(rest@ =~= all.take(rest@.len() as int));
    }
    let mut kept: Vec<CSVRecord> = Vec::new();
    let mut i: usize = 0;
    while i < n
        invariant
            all.len() == n,
            i <= n,
            reversed@.len() == n - i,
            forall|k: int| 0 <= k < reversed@.len() ==> #[trigger] reversed@[k] == all[n - 1 - k],
            keep@.len() == n,
            forall|k: int| 0 <= k < n ==> keep@[k] == p(#[trigger] all[k]),
            kept@ == all.take(i as int).filter(p),
        decreases n - i,
    {
        let x = reversed.pop().unwrap();
        proof {
            lemma_filter_take(all, i as int, p);
            assert(x == all[i as int]);
        }
        if keep[i] {
            kept.push(x);
        }
        i = i + 1;
    }
    assert(all.take(n as int) =~= all);
    kept
}

/// Filtering a dataset twice keeps what the first filtering kept: every record that is
/// connected within the dataset is connected within the records kept, since the records it
/// cites and those that cite it are kept too.
pub proof fn lemma_filter_disconnected_idempotent(records: Seq<CSVRecord>)
    ensures
        records.filter(connected(records)).filter(connected(records.filter(connected(records))))
            == records.filter(connected(records)),
{
    let p = connected(records);
    let once = records.filter(p);
    let q = connected(once);
    assert forall|i: int| 0 <= i < once.len() implies #[trigger] q(once[i]) by {
        let r = once[i];
        records.lemma_filter_pred(p, i);
        assert(once.contains(r));
        records.lemma_filter_contains_rev(p, r);
        let i0 = choose|i0: int| 0 <= i0 < records.len() && records[i0] == r;
        if exists|s: Seq<char>| cited_ids(r).contains(s) && #[trigger] record_ids(records).contains(s) {
            let s = choose|s: Seq<char>| cited_ids(r).contains(s) && #[trigger] record_ids(records).contains(s);
            let k = choose|k: int| 0 <= k < records.len() && (#[trigger] records[k]).id@ == s;
            assert(cited_ids(records[i0]).contains(s));
            assert(cited_by_some(records, records[k].id@));
            assert(p(records[k]));
            records.lemma_filter_contains(p, k);
            let t = choose|t: int| 0 <= t < once.len() && once[t] == records[k];
            assert(record_ids(once).contains(s));
        } else {
            let a = choose|a: int| 0 <= a < records.len() && cited_ids(#[trigger] records[a]).contains(r.id@);
            assert(record_ids(records).contains(r.id@)) by {
                assert(records[i0].id@ == r.id@);
            }
            assert(p(records[a]));
            records.lemma_filter_contains(p, a);
            let t = choose|t: int| 0 <= t < once.len() && once[t] == records[a];
            assert(cited_ids(once[t]).contains(r.id@));
            assert(cited_by_some(once, r.id@));
        }
    }
    lemma_filter_keeps_all(once, q);
}

} // verus!
