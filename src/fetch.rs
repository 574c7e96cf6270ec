//! The issue fetcher's decisions: which page to ask for next, when to stop,
//! and how the fetched issues are indexed by number. The requests are made
//! by the caller.
use vstd::prelude::*;
use std::collections::HashMap;
use crate::issue::{Issue, IssueView};
use crate::text::{decimal_digits, decimal_text};

verus! {

broadcast use vstd::std_specs::hash::group_hash_axioms;

/// Items asked for per page.
pub const ISSUES_PER_PAGE: u64 = 100;

/// Address of the tracker's issue list, before the page number.
pub const ISSUES_URL_PREFIX: &'static str = "https://api.github.com/repos/";

/// Query of the issue list: all states, full pages, then the page number.
pub const ISSUES_URL_QUERY: &'static str = "/issues?state=all&per_page=100&page=";

/// The address of one page of the issue list of `owner/name`.
pub open spec fn page_url(github_repo: Seq<char>, page: nat) -> Seq<char> {
    ISSUES_URL_PREFIX@ + github_repo + ISSUES_URL_QUERY@ + decimal_digits(page)
}

/// The address of page `page` of the issue list of `github_repo`.
pub fn issues_page_url(github_repo: &str, page: u64) -> (r: String)
    ensures
        r@ == page_url(github_repo@, page as nat),
{
    let mut s = String::from_str(ISSUES_URL_PREFIX);
    s.append(github_repo);
    s.append(ISSUES_URL_QUERY);
    let digits = decimal_text(page);
    s.append(digits.as_str());
    s
}

/// The values of a list of issues.
pub open spec fn issues_view(s: Seq<Issue>) -> Seq<IssueView> {
    s.map_values(|i: Issue| i@)
}

/// Issues indexed by number; a later issue replaces an earlier one of the
/// same number.
pub open spec fn index_by_number(s: Seq<IssueView>) -> Map<i64, IssueView>
    decreases s.len(),
{
    if s.len() == 0 {
        Map::empty()
    } else {
        index_by_number(s.drop_last()).insert(s.last().number, s.last())
    }
}

/// The pagination state: the next page to ask for, what the pages so far
/// held, and whether an empty page has ended the list.
pub struct IssuePager {
    pub page: u64,
    pub collected: Vec<Issue>,
    pub done: bool,
}

impl IssuePager {
    /// A pager that asks for the first page.
    pub fn new() -> (r: IssuePager)
        ensures
            r.page == 1,
            r.collected@.len() == 0,
            !r.done,
    {
        IssuePager { page: 1, collected: Vec::new(), done: false }
    }

    /// The page to ask for next, or `None` once the list has ended.
    pub fn next_page(&self) -> (r: Option<u64>)
        ensures
            r == (if self.done { None } else { Some(self.page) }),
    {
        if self.done {
            None
        } else {
            Some(self.page)
        }
    }

    /// Takes in the items of the page last asked for. An empty page ends
    /// the list; any other is kept and the next page is asked for.
    pub fn receive(&mut self, items: Vec<Issue>)
        requires
            !old(self).done,
            old(self).page < u64::MAX,
        ensures
            items@.len() == 0 ==> {
                &&& final(self).done
                &&& final(self).page == old(self).page
                &&& final(self).collected@ == old(self).collected@
            },
            items@.len() > 0 ==> {
                &&& !final(self).done
                &&& final(self).page == old(self).page + 1
                &&& final(self).collected@ == old(self).collected@ + items@
            },
    {
        if items.len() == 0 {
            self.done = true;
        } else {
            let mut items = items;
            self.collected.append(&mut items);
            self.page = self.page + 1;
        }
    }

    /// The collected issues, indexed by number.
    pub fn into_issues(self) -> (r: HashMap<i64, Issue>)
        ensures
            forall|k: i64| r@.contains_key(k) <==> index_by_number(issues_view(self.collected@)).contains_key(k),
            forall|k: i64| #[trigger] r@.contains_key(k) ==> r@[k]@ == index_by_number(issues_view(self.collected@))[k],
    {
        index_issues(self.collected)
    }
}

/// Indexes issues by number; of two with the same number the later stays.
pub fn index_issues(issues: Vec<Issue>) -> (r: HashMap<i64, Issue>)
    ensures
        forall|k: i64| r@.contains_key(k) <==> index_by_number(issues_view(issues@)).contains_key(k),
        forall|k: i64| #[trigger] r@.contains_key(k) ==> r@[k]@ == index_by_number(issues_view(issues@))[k],
{
    let ghost s = issues_view(issues@);
    let mut rest = issues;
    let mut map: HashMap<i64, Issue> = HashMap::new();
    let ghost mut i: int = 0;
    while rest.len() > 0
        invariant
            0 <= i <= s.len(),
            rest@.len() + i == s.len(),
            issues_view(rest@) == s.skip(i),
            forall|k: i64| map@.contains_key(k) <==> index_by_number(s.take(i)).contains_key(k),
            forall|k: i64| #[trigger] map@.contains_key(k) ==> map@[k]@ == index_by_number(s.take(i))[k],
        decreases rest@.len(),
    {
        let ghost before = rest@;
        let item = rest.remove(0);
        proof {
            assert(issues_view(before)[0] == before[0]@);
            assert(s.skip(i)[0] == s[i]);
            assert(item@ == s[i]);
            assert(rest@ == before.remove(0));
            assert forall|k: int| 0 <= k < rest@.len() implies issues_view(rest@)[k] == s.skip(i + 1)[k] by {
                assert(rest@[k] == before[k + 1]);
                assert(issues_view(before)[k + 1] == s.skip(i)[k + 1]);
            }
            assert(issues_view(rest@) =~= s.skip(i + 1));
            assert(s.take(i + 1).drop_last() =~= s.take(i));
            assert(s.take(i + 1).last() == s[i]);
        }
        map.insert(item.number, item);
        proof {
            i = i + 1;
        }
    }
    assert(s.take(i) =~= s);
    map
}

} // verus!
