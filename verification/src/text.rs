//! Character-level helpers: parsing reference lists and shortening text for display.
use vstd::prelude::*;
use vstd::string::*;
use std::borrow::Cow;

verus! {

/// The characters of `s`, in order.
pub(crate) fn chars_of(s: &str) -> (r: Vec<char>)
    ensures
        r@ == s@,
{
    broadcast use vstd::string::group_string_axioms;

    let mut r: Vec<char> = Vec::new();
    for c in it: s.chars()
        invariant
            r@ == it.seq().take(it.index()),
    {
        r.push(c);
    }
    r
}

/// Brackets, trimmed from both ends of a reference list.
pub open spec fn bracket() -> spec_fn(char) -> bool {
    |c: char| c == '[' || c == ']'
}

/// Single quotes, trimmed from both ends of each reference.
pub open spec fn quote() -> spec_fn(char) -> bool {
    |c: char| c == '\''
}

/// `s` without the characters satisfying `p` at its start.
pub open spec fn trim_start_by(s: Seq<char>, p: spec_fn(char) -> bool) -> Seq<char>
    decreases s.len(),
{
    if s.len() > 0 && p(s[0]) {
        trim_start_by(s.skip(1), p)
    } else {
        s
    }
}

/// `s` without the characters satisfying `p` at its end.
pub open spec fn trim_end_by(s: Seq<char>, p: spec_fn(char) -> bool) -> Seq<char>
    decreases s.len(),
{
    if s.len() > 0 && p(s.last()) {
        trim_end_by(s.drop_last(), p)
    } else {
        s
    }
}

/// `s` without the characters satisfying `p` at either end.
pub open spec fn trim_by(s: Seq<char>, p: spec_fn(char) -> bool) -> Seq<char> {
    trim_end_by(trim_start_by(s, p), p)
}

/// A separator `", "` starts at position `j` of `s`.
pub open spec fn is_sep_at(s: Seq<char>, j: int) -> bool {
    0 <= j && j + 1 < s.len() && s[j] == ',' && s[j + 1] == ' '
}

/// The pieces of `t` between the separators `", "`, found from the left; a text without
/// separators is a single piece.
pub open spec fn split_pieces(t: Seq<char>) -> Seq<Seq<char>>
    decreases t.len(),
{
    if t.len() == 0 {
        seq![Seq::<char>::empty()]
    } else if is_sep_at(t, 0) {
        seq![Seq::<char>::empty()] + split_pieces(t.skip(2))
    } else {
        let rest = split_pieces(t.skip(1));
        rest.update(0, seq![t[0]] + rest[0])
    }
}

/// The identifiers a reference list such as `['a', 'b']` names: the list without its
/// brackets is split at `", "`, each piece loses its quotes, and empty pieces are dropped.
pub open spec fn reference_ids(refs: Seq<char>) -> Set<Seq<char>> {
    let pieces = split_pieces(trim_by(refs, bracket()));
    Set::new(
        |q: Seq<char>|
            q.len() > 0 && exists|i: int|
                0 <= i < pieces.len() && trim_by(#[trigger] pieces[i], quote()) == q,
    )
}

proof fn lemma_split_nonempty(t: Seq<char>)
    ensures
        split_pieces(t).len() >= 1,
    decreases t.len(),
{
    if t.len() > 0 && !is_sep_at(t, 0) {
        lemma_split_nonempty(t.skip(1));
    }
}

/// A text without separators goes in front of the first piece.
proof fn lemma_split_prepend(u: Seq<char>, w: Seq<char>)
    requires
        forall|j: int| 0 <= j < u.len() ==> !#[trigger] is_sep_at(u + w, j),
    ensures
        split_pieces(w).len() >= 1,
        split_pieces(u + w) == split_pieces(w).update(0, u + split_pieces(w)[0]),
    decreases u.len(),
{
    lemma_split_nonempty(w);
    if u.len() == 0 {
        assert(u + w =~= w);
        assert(u + split_pieces(w)[0] =~= split_pieces(w)[0]);
        assert(split_pieces(w).update(0, split_pieces(w)[0]) =~= split_pieces(w));
    } else {
        let v = u.skip(1);
        assert((u + w).skip(1) =~= v + w);
        assert forall|j: int| 0 <= j < v.len() implies !#[trigger] is_sep_at(v + w, j) by {
            assert(!is_sep_at(u + w, j + 1));
            assert((v + w)[j] == (u + w)[j + 1]);
            if j + 1 < (v + w).len() {
                assert((v + w)[j + 1] == (u + w)[j + 2]);
            }
        }
        lemma_split_prepend(v, w);
        assert(!is_sep_at(u + w, 0));
        assert((u + w).len() > 0);
        assert((u + w)[0] == u[0]);
        let rest = split_pieces(v + w);
        assert(split_pieces(u + w) == rest.update(0, seq![u[0]] + rest[0]));
        assert(seq![u[0]] + (v + split_pieces(w)[0]) =~= u + split_pieces(w)[0]);
        assert(rest.update(0, seq![u[0]] + rest[0]) =~= split_pieces(w).update(0, u + split_pieces(w)[0]));
    }
}

/// White space as `char::is_whitespace` reads it: the characters with the Unicode
/// `White_Space` property.
pub open spec fn white() -> spec_fn(char) -> bool {
    |c: char|
        ('\t' <= c && c <= '\r') || c == ' ' || c == '\u{85}' || c == '\u{a0}' || c == '\u{1680}'
            || ('\u{2000}' <= c && c <= '\u{200a}') || c == '\u{2028}' || c == '\u{2029}' || c
            == '\u{202f}' || c == '\u{205f}' || c == '\u{3000}'
}

/// Which characters a trim removes.
pub enum Strip {
    Brackets,
    Quotes,
    Spaces,
}

/// The characters that `k` removes.
pub open spec fn strip_pred(k: Strip) -> spec_fn(char) -> bool {
    match k {
        Strip::Brackets => bracket(),
        Strip::Quotes => quote(),
        Strip::Spaces => white(),
    }
}

/// Whether `c` is one of the characters that `k` removes.
fn is_trimmed(c: char, k: &Strip) -> (r: bool)
    ensures
        r == strip_pred(*k)(c),
{
    match k {
        Strip::Brackets => c == '[' || c == ']',
        Strip::Quotes => c == '\'',
        Strip::Spaces => ('\t' <= c && c <= '\r') || c == ' ' || c == '\u{85}' || c == '\u{a0}'
            || c == '\u{1680}' || ('\u{2000}' <= c && c <= '\u{200a}') || c == '\u{2028}' || c
            == '\u{2029}' || c == '\u{202f}' || c == '\u{205f}' || c == '\u{3000}',
    }
}

/// The bounds of `c[a..b]` once the characters that `k` removes are trimmed from both its
/// ends.
fn trim_range(c: &Vec<char>, a: usize, b: usize, k: &Strip) -> (r: (usize, usize))
    requires
        a <= b <= c@.len(),
    ensures
        a <= r.0 <= r.1 <= b,
        c@.subrange(r.0 as int, r.1 as int) == trim_by(c@.subrange(a as int, b as int), strip_pred(*k)),
{
    let ghost p = strip_pred(*k);
    let mut lo = a;
    while lo < b && is_trimmed(c[lo], k)
        invariant
            a <= lo <= b <= c@.len(),
            p == strip_pred(*k),
            trim_start_by(c@.subrange(a as int, b as int), p) == trim_start_by(
                c@.subrange(lo as int, b as int),
                p,
            ),
        decreases b - lo,
    {
        assert(c@.subrange(lo as int, b as int).skip(1) =~= c@.subrange(lo + 1, b as int));
        lo = lo + 1;
    }
    let mut hi = b;
    while hi > lo && is_trimmed(c[hi - 1], k)
        invariant
            a <= lo <= hi <= b <= c@.len(),
            p == strip_pred(*k),
            trim_start_by(c@.subrange(a as int, b as int), p) == c@.subrange(lo as int, b as int),
            trim_end_by(c@.subrange(lo as int, b as int), p) == trim_end_by(
                c@.subrange(lo as int, hi as int),
                p,
            ),
        decreases hi - lo,
    {
        assert(c@.subrange(lo as int, hi as int).drop_last() =~= c@.subrange(lo as int, hi - 1));
        hi = hi - 1;
    }
    (lo, hi)
}

/// Whether some string of `v` reads as `s`.
pub(crate) fn contains_text(v: &Vec<String>, s: &String) -> (r: bool)
    ensures
        r == exists|i: int| 0 <= i < v@.len() && (#[trigger] v@[i])@ == s@,
{
    let mut i: usize = 0;
    while i < v.len()
        invariant
            i <= v@.len(),
            forall|j: int| 0 <= j < i ==> (#[trigger] v@[j])@ != s@,
        decreases v@.len() - i,
    {
        if v[i] == *s {
            return true;
        }
        i = i + 1;
    }
    false
}

/// The nonempty texts that the pieces give once their quotes are trimmed.
pub open spec fn piece_names(pieces: Seq<Seq<char>>) -> Set<Seq<char>> {
    Set::new(
        |q: Seq<char>|
            q.len() > 0 && exists|i: int|
                0 <= i < pieces.len() && trim_by(#[trigger] pieces[i], quote()) == q,
    )
}

/// The texts of the strings of `r`.
pub open spec fn texts(r: Seq<String>) -> Set<Seq<char>> {
    Set::new(|q: Seq<char>| exists|i: int| 0 <= i < r.len() && (#[trigger] r[i])@ == q)
}

/// No two strings of `r` read the same.
pub open spec fn texts_distinct(r: Seq<String>) -> bool {
    forall|i: int, j: int| 0 <= i < j < r.len() ==> (#[trigger] r[i])@ != (#[trigger] r[j])@
}

proof fn lemma_piece_names_push(pieces: Seq<Seq<char>>, u: Seq<char>)
    ensures
        piece_names(pieces.push(u)) == if trim_by(u, quote()).len() > 0 {
            piece_names(pieces).insert(trim_by(u, quote()))
        } else {
            piece_names(pieces)
        },
{
    let nd = pieces.push(u);
    let expect = if trim_by(u, quote()).len() > 0 {
        piece_names(pieces).insert(trim_by(u, quote()))
    } else {
        piece_names(pieces)
    };
    assert forall|q: Seq<char>| piece_names(nd).contains(q) <==> expect.contains(q) by {
        if piece_names(nd).contains(q) {
            let k = choose|k: int| 0 <= k < nd.len() && trim_by(#[trigger] nd[k], quote()) == q;
            if k < pieces.len() {
                assert(nd[k] == pieces[k]);
            }
        }
        if piece_names(pieces).contains(q) {
            let k = choose|k: int| 0 <= k < pieces.len() && trim_by(#[trigger] pieces[k], quote()) == q;
            assert(nd[k] == pieces[k]);
        }
        if q == trim_by(u, quote()) && q.len() > 0 {
            assert(nd[pieces.len() as int] == u);
        }
    }
    assert(piece_names(nd) =~= expect);
}

/// Adds the name that the piece `c[a..b]` gives, unless it is empty or already there.
fn add_piece(refs: &str, c: &Vec<char>, a: usize, b: usize, r: &mut Vec<String>)
    requires
        c@ == refs@,
        a <= b <= c@.len(),
        texts_distinct(old(r)@),
    ensures
        texts_distinct(final(r)@),
        texts(final(r)@) == if trim_by(c@.subrange(a as int, b as int), quote()).len() > 0 {
            texts(old(r)@).insert(trim_by(c@.subrange(a as int, b as int), quote()))
        } else {
            texts(old(r)@)
        },
{
    let (x, y) = trim_range(c, a, b, &Strip::Quotes);
    let ghost name = trim_by(c@.subrange(a as int, b as int), quote());
    let ghost old_r = r@;
    if x < y {
        let piece = String::from_str(refs.substring_char(x, y));
        if !contains_text(r, &piece) {
            r.push(piece);
            assert forall|i: int, j: int| 0 <= i < j < r@.len() implies (#[trigger] r@[i])@ != (#[trigger] r@[j])@ by {
                if j < old_r.len() {
                    assert(old_r[i]@ != old_r[j]@);
                }
            }
        }
        assert forall|q: Seq<char>| texts(r@).contains(q) <==> texts(old_r).insert(name).contains(q) by {
            if texts(r@).contains(q) {
                let k = choose|k: int| 0 <= k < r@.len() && (#[trigger] r@[k])@ == q;
                if k < old_r.len() {
                    assert(old_r[k] == r@[k]);
                }
            }
            if texts(old_r).contains(q) {
                let k = choose|k: int| 0 <= k < old_r.len() && (#[trigger] old_r[k])@ == q;
                assert(r@[k] == old_r[k]);
            }
            if q == name && r@.len() > old_r.len() {
                assert(r@[r@.len() - 1]@ == q);
            }
        }
        assert(texts(r@) =~= texts(old_r).insert(name));
    } else {
        assert(name.len() == 0);
    }
}

/// The identifiers that a reference list such as `['a', 'b']` names, each once.
pub fn parse_references(refs: &str) -> (r: Vec<String>)
    ensures
        texts_distinct(r@),
        texts(r@) == reference_ids(refs@),
{
    let c = chars_of(refs);
    let n = c.len();
    let (lo, hi) = trim_range(&c, 0, n, &Strip::Brackets);
    let ghost t = c@.subrange(lo as int, hi as int);
    let ghost all = split_pieces(t);
    assert(c@.subrange(0, n as int) =~= refs@);
    let mut r: Vec<String> = Vec::new();
    assert(texts(r@) =~= piece_names(Seq::<Seq<char>>::empty()));
    let ghost mut done: Seq<Seq<char>> = Seq::empty();
    let mut start = lo;
    let mut i = lo;
    while i < hi
        invariant
            c@ == refs@,
            n == c@.len(),
            lo <= start <= i <= hi <= n,
            t == c@.subrange(lo as int, hi as int),
            all == split_pieces(t),
            done + split_pieces(c@.subrange(start as int, hi as int)) == all,
            forall|j: int| start <= j < i ==> !#[trigger] is_sep_at(c@.subrange(start as int, hi as int), j - start),
            texts_distinct(r@),
            texts(r@) == piece_names(done),
        decreases hi - i,
    {
        if i + 1 < hi && c[i] == ',' && c[i + 1] == ' ' {
            let ghost u = c@.subrange(start as int, i as int);
            proof {
                let w = c@.subrange(i as int, hi as int);
                let rest = c@.subrange(i + 2, hi as int);
                assert(u + w =~= c@.subrange(start as int, hi as int));
                assert forall|j: int| 0 <= j < u.len() implies !#[trigger] is_sep_at(u + w, j) by {
                    assert(!is_sep_at(c@.subrange(start as int, hi as int), (j + start) - start));
                }
                lemma_split_prepend(u, w);
                assert(is_sep_at(w, 0));
                assert(w.skip(2) =~= rest);
                assert(split_pieces(w) == seq![Seq::<char>::empty()] + split_pieces(rest));
                assert(u + Seq::<char>::empty() =~= u);
                assert(split_pieces(c@.subrange(start as int, hi as int)) =~= seq![u] + split_pieces(rest));
                assert(done.push(u) + split_pieces(rest) =~= done + (seq![u] + split_pieces(rest)));
                lemma_piece_names_push(done, u);
            }
            add_piece(refs, &c, start, i, &mut r);
            proof {
                done = done.push(u);
            }
            start = i + 2;
            i = i + 2;
        } else {
            proof {
                assert forall|j: int| start <= j < i + 1 implies !#[trigger] is_sep_at(c@.subrange(start as int, hi as int), j - start) by {
                    if j == i {
                        let sub = c@.subrange(start as int, hi as int);
                        if is_sep_at(sub, j - start) {
                            assert(sub[j - start] == c@[i as int]);
                            assert(sub[j - start + 1] == c@[i + 1]);
                        }
                    }
                }
            }
            i = i + 1;
        }
    }
    let ghost u = c@.subrange(start as int, hi as int);
    proof {
        assert(u + Seq::<char>::empty() =~= u);
        assert forall|j: int| 0 <= j < u.len() implies !#[trigger] is_sep_at(u + Seq::<char>::empty(), j) by {
            assert(!is_sep_at(c@.subrange(start as int, hi as int), (j + start) - start));
        }
        lemma_split_prepend(u, Seq::<char>::empty());
        assert(split_pieces(Seq::<char>::empty()) == seq![Seq::<char>::empty()]);
        assert(split_pieces(u) =~= seq![u]);
        assert(done.push(u) =~= all);
        lemma_piece_names_push(done, u);
    }
    add_piece(refs, &c, start, hi, &mut r);
    proof {
        assert(trim_by(refs@, bracket()) == t);
        assert(piece_names(all) =~= reference_ids(refs@));
    }
    r
}

/// `s` without white space at either end, as `str::trim` gives it.
pub fn trim_whitespace(s: &str) -> (r: String)
    ensures
        r@ == trim_by(s@, white()),
{
    let c = chars_of(s);
    let n = c.len();
    let (lo, hi) = trim_range(&c, 0, n, &Strip::Spaces);
    assert(c@.subrange(0, n as int) =~= s@);
    String::from_str(s.substring_char(lo, hi))
}

/// `s` cut to its first `max_chars` characters followed by `...` when it is longer, and `s`
/// itself otherwise.
pub open spec fn truncated(s: Seq<char>, max_chars: nat) -> Seq<char> {
    if s.len() > max_chars {
        s.take(max_chars as int) + seq!['.', '.', '.']
    } else {
        s
    }
}

/// `s` cut to its first `max_chars` characters followed by `...` when it is longer, and `s`
/// itself otherwise.
pub fn truncate_str(s: &str, max_chars: usize) -> (r: Cow<'_, str>)
    ensures
        r@ == truncated(s@, max_chars as nat),
        s@.len() <= max_chars ==> r is Borrowed,
        s@.len() > max_chars ==> r is Owned,
{
    proof {
        reveal_strlit("...");
    }
    if s.unicode_len() > max_chars {
        let head = String::from_str(s.substring_char(0, max_chars));
        assert(s@.subrange(0, max_chars as int) =~= s@.take(max_chars as int));
        let r = head.concat("...");
        assert(r@ =~= s@.take(max_chars as int) + seq!['.', '.', '.']);
        Cow::Owned(r)
    } else {
        Cow::Borrowed(s)
    }
}

/// The text that a clone-on-write string holds.
pub(crate) fn cow_text<'a>(c: &'a Cow<'a, str>) -> (r: &'a str)
    ensures
        r@ == c@,
{
    match c {
        Cow::Borrowed(b) => b,
        Cow::Owned(o) => o.as_str(),
    }
}

} // verus!
