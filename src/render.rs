//! The markdown renderer.
use vstd::prelude::*;
use crate::categorize::{Category, cats_view};
use crate::commit::Commit;
use crate::issue::{Issue, IssueView};
use crate::text::{signed_decimal, signed_decimal_text};

verus! {

/// The title line: the end of the range and the day of the run.
pub open spec fn title_line(to: Seq<char>, today: Seq<char>) -> Seq<char> {
    "# "@ + to + " ("@ + today + ")\n"@
}

/// One bullet per issue: its title and number.
pub open spec fn issue_line(iv: IssueView) -> Seq<char> {
    "- "@ + iv.title + " - #"@ + signed_decimal(iv.number as int) + "\n"@
}

pub open spec fn issue_lines(s: Seq<IssueView>) -> Seq<char>
    decreases s.len(),
{
    if s.len() == 0 {
        Seq::empty()
    } else {
        issue_lines(s.drop_last()) + issue_line(s.last())
    }
}

/// A category's heading and its issues.
pub open spec fn section(cat: (Seq<char>, Seq<IssueView>)) -> Seq<char> {
    "\n## "@ + cat.0 + "\n\n"@ + issue_lines(cat.1)
}

pub open spec fn sections(cats: Seq<(Seq<char>, Seq<IssueView>)>) -> Seq<char>
    decreases cats.len(),
{
    if cats.len() == 0 {
        Seq::empty()
    } else {
        sections(cats.drop_last()) + section(cats.last())
    }
}

/// Heading of the full list of commits.
pub const COMMITS_HEADING: &'static str = "\n## Full changelog of commits\n\n";

/// One bullet per commit: short id, summary, author and date.
pub open spec fn commit_line(c: Commit) -> Seq<char> {
    "- "@ + c.id@ + " - "@ + c.summary@ + " by "@ + c.author@ + " ("@ + c.date@ + ")\n"@
}

pub open spec fn commit_lines(s: Seq<Commit>) -> Seq<char>
    decreases s.len(),
{
    if s.len() == 0 {
        Seq::empty()
    } else {
        commit_lines(s.drop_last()) + commit_line(s.last())
    }
}

/// The whole document.
pub open spec fn document(
    to: Seq<char>,
    today: Seq<char>,
    commits: Seq<Commit>,
    cats: Seq<(Seq<char>, Seq<IssueView>)>,
) -> Seq<char> {
    title_line(to, today) + sections(cats) + COMMITS_HEADING@ + commit_lines(commits)
}

fn append_issue_line(out: &mut String, issue: &Issue)
    ensures
        final(out)@ == old(out)@ + issue_line(issue@),
{
    out.append("- ");
    out.append(issue.title.as_str());
    out.append(" - #");
    let number = signed_decimal_text(issue.number);
    out.append(number.as_str());
    out.append("\n");
}

fn append_section(out: &mut String, cat: &Category)
    ensures
        final(out)@ == old(out)@ + section(cat@),
{
    let ghost start = out@;
    out.append("\n## ");
    out.append(cat.title.as_str());
    out.append("\n\n");
    let ghost head = out@;
    let ghost s = cat@.1;
    let n = cat.issues.len();
    let mut i: usize = 0;
    while i < n
        invariant
            n == cat.issues@.len(),
            s == cat@.1,
            i <= n,
            out@ == head + issue_lines(s.take(i as int)),
        decreases n - i,
    {
        append_issue_line(out, cat.issues[i]);
        proof {
            assert(s.take(i + 1).drop_last() =~= s.take(i as int));
        }
        i = i + 1;
    }
    assert(s.take(n as int) =~= s);
}

fn append_commit_line(out: &mut String, c: &Commit)
    ensures
        final(out)@ == old(out)@ + commit_line(*c),
{
    out.append("- ");
    out.append(c.id.as_str());
    out.append(" - ");
    out.append(c.summary.as_str());
    out.append(" by ");
    out.append(c.author.as_str());
    out.append(" (");
    out.append(c.date.as_str());
    out.append(")\n");
}

/// The changelog in markdown: a title line with the end of the range and
/// the day of the run, one section per category in the given order, then
/// every commit in the given order.
pub fn render(to: &str, today: &str, commits: &[Commit], categories: &[Category]) -> (r: String)
    ensures
        r@ == document(to@, today@, commits@, cats_view(categories@)),
{
    let mut out = String::from_str("# ");
    out.append(to);
    out.append(" (");
    out.append(today);
    out.append(")\n");
    let ghost head = out@;
    let ghost cs = cats_view(categories@);
    let n = categories.len();
    let mut i: usize = 0;
    while i < n
        invariant
            n == categories@.len(),
            cs == cats_view(categories@),
            i <= n,
            out@ == head + sections(cs.take(i as int)),
        decreases n - i,
    {
        append_section(&mut out, &categories[i]);
        proof {
            assert(cs.take(i + 1).drop_last() =~= cs.take(i as int));
        }
        i = i + 1;
    }
    assert(cs.take(n as int) =~= cs);
    out.append(COMMITS_HEADING);
    let ghost mid = out@;
    let m = commits.len();
    let mut j: usize = 0;
    while j < m
        invariant
            m == commits@.len(),
            j <= m,
            out@ == mid + commit_lines(commits@.take(j as int)),
        decreases m - j,
    {
        append_commit_line(&mut out, &commits[j]);
        proof {
            assert(commits@.take(j + 1).drop_last() =~= commits@.take(j as int));
        }
        j = j + 1;
    }
    assert(commits@.take(m as int) =~= commits@);
    out
}

} // verus!
