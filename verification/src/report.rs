//! The lines that the tool prints about papers.
use crate::records::Paper;
use crate::text::{cow_text, truncate_str, truncated};
use vstd::prelude::*;

verus! {

/// `n` copies of the character `c`.
pub open spec fn repeated(c: char, n: nat) -> Seq<char> {
    Seq::new(n, |_i: int| c)
}

/// `s` followed by spaces up to `width` characters, as `{:<width}` lays it out; a longer `s`
/// stays as it is.
pub open spec fn pad_right(s: Seq<char>, width: nat) -> Seq<char> {
    if s.len() < width {
        s + repeated(' ', (width - s.len()) as nat)
    } else {
        s
    }
}

/// A row of a paper table: three columns of widths 30, 20 and 10, one space apart.
pub open spec fn table_row(a: Seq<char>, b: Seq<char>, c: Seq<char>) -> Seq<char> {
    pad_right(a, 30) + seq![' '] + pad_right(b, 20) + seq![' '] + pad_right(c, 10)
}

/// The row of a paper: its title cut to 27 characters, its identifier, and its abstract cut
/// to 40 characters.
pub open spec fn paper_row(p: Paper) -> Seq<char> {
    table_row(truncated(p.title@, 27), p.id@, truncated(p.abstract_text@, 40))
}

/// The text of a table of papers: its title, a rule of 80 dashes, the column headings,
/// another rule, and a row per paper in order.
pub open spec fn table_lines(title: Seq<char>, papers: Seq<&Paper>) -> Seq<Seq<char>> {
    seq![
        title,
        repeated('-', 80),
        table_row("Title"@, "ID"@, "Abstract"@),
        repeated('-', 80),
    ] + Seq::new(papers.len(), |i: int| paper_row(*papers[i]))
}

/// `s`, or `(none)` when `s` is empty.
pub open spec fn or_none(s: Seq<char>) -> Seq<char> {
    if s.len() == 0 {
        "(none)"@
    } else {
        s
    }
}

/// The line that lists a paper found as a common ancestor or descendant.
pub open spec fn summary_line(p: Paper) -> Seq<char> {
    "  ID: "@ + p.id@ + " | Title: "@ + or_none(p.title@) + " | Abstract: "@ + or_none(
        p.abstract_text@,
    )
}

/// `n` copies of the one-character text `unit`, appended to `s`.
pub(crate) fn append_copies(s: &mut String, unit: &str, n: usize)
    requires
        unit@.len() == 1,
    ensures
        final(s)@ == old(s)@ + repeated(unit@[0], n as nat),
{
    let ghost start = s@;
    let mut k: usize = 0;
    while k < n
        invariant
            unit@.len() == 1,
            k <= n,
            s@ == start + repeated(unit@[0], k as nat),
        decreases n - k,
    {
        s.append(unit);
        k = k + 1;
        assert(s@ =~= start + repeated(unit@[0], k as nat));
    }
}

/// `s` followed by spaces up to `width` characters.
fn pad_right_text(s: &str, width: usize) -> (r: String)
    ensures
        r@ == pad_right(s@, width as nat),
{
    proof {
        reveal_strlit(" ");
    }
    let mut r = String::from_str(s);
    let len = s.unicode_len();
    if len < width {
        append_copies(&mut r, " ", width - len);
    }
    r
}

/// A row of three columns of widths 30, 20 and 10.
fn table_row_text(a: &str, b: &str, c: &str) -> (r: String)
    ensures
        r@ == table_row(a@, b@, c@),
{
    proof {
        reveal_strlit(" ");
    }
    let mut r = pad_right_text(a, 30);
    r.append(" ");
    let pb = pad_right_text(b, 20);
    r.append(pb.as_str());
    r.append(" ");
    let pc = pad_right_text(c, 10);
    r.append(pc.as_str());
    assert(r@ =~= table_row(a@, b@, c@));
    r
}

/// A rule of 80 dashes.
fn rule() -> (r: String)
    ensures
        r@ == repeated('-', 80),
{
    proof {
        reveal_strlit("-");
    }
    let mut r = String::new();
    append_copies(&mut r, "-", 80);
    assert(r@ =~= repeated('-', 80));
    r
}

/// The row of a paper.
pub fn paper_row_text(p: &Paper) -> (r: String)
    ensures
        r@ == paper_row(*p),
{
    let title = truncate_str(p.title.as_str(), 27);
    let abs = truncate_str(p.abstract_text.as_str(), 40);
    table_row_text(cow_text(&title), p.id.as_str(), cow_text(&abs))
}

/// The lines of a table of papers, headed by `title`.
pub fn paper_table(title: &str, papers: &Vec<&Paper>) -> (r: Vec<String>)
    ensures
        r@.len() == papers@.len() + 4,
        forall|i: int| 0 <= i < r@.len() ==> (#[trigger] r@[i])@ == table_lines(title@, papers@)[i],
{
    let mut r: Vec<String> = Vec::new();
    r.push(String::from_str(title));
    r.push(rule());
    r.push(table_row_text("Title", "ID", "Abstract"));
    r.push(rule());
    let mut i: usize = 0;
    while i < papers.len()
        invariant
            i <= papers@.len(),
            r@.len() == i + 4,
            forall|k: int| 0 <= k < r@.len() ==> (#[trigger] r@[k])@ == table_lines(title@, papers@)[k],
        decreases papers@.len() - i,
    {
        let row = paper_row_text(papers[i]);
        r.push(row);
        i = i + 1;
    }
    r
}

/// `s`, or `(none)` when it is empty.
fn or_none_text(s: &str) -> (r: &str)
    ensures
        r@ == or_none(s@),
{
    if s.unicode_len() == 0 {
        "(none)"
    } else {
        s
    }
}

/// The line that lists a paper found as a common ancestor or descendant.
pub fn summary_line_text(p: &Paper) -> (r: String)
    ensures
        r@ == summary_line(*p),
{
    let mut r = String::from_str("  ID: ");
    r.append(p.id.as_str());
    r.append(" | Title: ");
    r.append(or_none_text(p.title.as_str()));
    r.append(" | Abstract: ");
    r.append(or_none_text(p.abstract_text.as_str()));
    r
}

} // verus!
