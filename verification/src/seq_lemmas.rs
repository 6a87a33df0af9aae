//! Facts about filtering and mapping sequences.
use vstd::prelude::*;

verus! {

/// Filtering and mapping a sequence with one more element at its end.
pub proof fn lemma_filter_map_push<A, B>(
    s: Seq<A>,
    x: A,
    p: spec_fn(A) -> bool,
    f: spec_fn(A) -> B,
)
    ensures
        s.push(x).filter(p).map_values(f) == if p(x) {
            s.filter(p).map_values(f).push(f(x))
        } else {
            s.filter(p).map_values(f)
        },
{
    reveal_with_fuel(Seq::filter, 1);
    assert(s.push(x).drop_last() =~= s);
    if p(x) {
        assert(s.push(x).filter(p) == s.filter(p).push(x));
        assert(s.filter(p).push(x).map_values(f) =~= s.filter(p).map_values(f).push(f(x)));
    } else {
        assert(s.push(x).filter(p) == s.filter(p));
    }
}

/// The prefix of length `i + 1`, filtered and mapped, from that of length `i`.
pub proof fn lemma_filter_map_take<A, B>(
    s: Seq<A>,
    i: int,
    p: spec_fn(A) -> bool,
    f: spec_fn(A) -> B,
)
    requires
        0 <= i < s.len(),
    ensures
        s.take(i + 1).filter(p).map_values(f) == if p(s[i]) {
            s.take(i).filter(p).map_values(f).push(f(s[i]))
        } else {
            s.take(i).filter(p).map_values(f)
        },
{
    assert(s.take(i + 1) =~= s.take(i).push(s[i]));
    lemma_filter_map_push(s.take(i), s[i], p, f);
}

/// What a filtered and mapped sequence contains.
pub proof fn lemma_filter_map_contains<A, B>(
    s: Seq<A>,
    p: spec_fn(A) -> bool,
    f: spec_fn(A) -> B,
    y: B,
)
    ensures
        s.filter(p).map_values(f).contains(y) <==> exists|i: int|
            0 <= i < s.len() && p(s[i]) && f(#[trigger] s[i]) == y,
    decreases s.len(),
{
    if s.len() > 0 {
        let t = s.drop_last();
        lemma_filter_map_contains(t, p, f, y);
        assert(t.push(s.last()) =~= s);
        lemma_filter_map_push(t, s.last(), p, f);
        let lhs = s.filter(p).map_values(f);
        let prev = t.filter(p).map_values(f);
        if lhs.contains(y) {
            let k = choose|k: int| 0 <= k < lhs.len() && lhs[k] == y;
            if k < prev.len() {
                assert(prev[k] == y);
                assert(prev.contains(y));
                let i = choose|i: int| 0 <= i < t.len() && p(t[i]) && f(#[trigger] t[i]) == y;
                assert(s[i] == t[i]);
            } else {
                assert(f(s[s.len() - 1]) == y);
            }
        }
        if exists|i: int| 0 <= i < s.len() && p(s[i]) && f(#[trigger] s[i]) == y {
            let i = choose|i: int| 0 <= i < s.len() && p(s[i]) && f(#[trigger] s[i]) == y;
            if i < s.len() - 1 {
                assert(t[i] == s[i]);
                assert(prev.contains(y));
                let k = choose|k: int| 0 <= k < prev.len() && prev[k] == y;
                assert(lhs[k] == y);
            } else {
                assert(lhs[lhs.len() - 1] == y);
            }
        }
    } else {
        reveal_with_fuel(Seq::filter, 1);
    }
}

/// The prefix of length `i + 1`, filtered, from that of length `i`.
pub proof fn lemma_filter_take<A>(s: Seq<A>, i: int, p: spec_fn(A) -> bool)
    requires
        0 <= i < s.len(),
    ensures
        s.take(i + 1).filter(p) == if p(s[i]) {
            s.take(i).filter(p).push(s[i])
        } else {
            s.take(i).filter(p)
        },
{
    reveal_with_fuel(Seq::filter, 1);
    assert(s.take(i + 1).drop_last() =~= s.take(i));
}

/// Filtering keeps a sequence whole when the predicate holds of every element.
pub proof fn lemma_filter_keeps_all<A>(s: Seq<A>, p: spec_fn(A) -> bool)
    requires
        forall|i: int| 0 <= i < s.len() ==> #[trigger] p(s[i]),
    ensures
        s.filter(p) == s,
    decreases s.len(),
{
    reveal_with_fuel(Seq::filter, 1);
    if s.len() > 0 {
        let t = s.drop_last();
        assert forall|i: int| 0 <= i < t.len() implies #[trigger] p(t[i]) by {
            assert(t[i] == s[i]);
        }
        lemma_filter_keeps_all(t, p);
        assert(p(s[s.len() - 1]));
        assert(t.push(s.last()) =~= s);
    } else {
        assert(s.filter(p) =~= s);
    }
}

} // verus!
