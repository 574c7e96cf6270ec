//! The categoriser: joins commits to issues and groups the issues by label.
use vstd::prelude::*;
use std::collections::HashMap;
use crate::commit::Commit;
use crate::issue::{Issue, IssueView, lower_labels};
use crate::text::{
    lemma_text_lt_total, lemma_text_lt_transitive, lower_of, lowercase,
    ascii_without_upper, contains_text, text_less, text_lt, texts_view,
};

verus! {

broadcast use vstd::std_specs::hash::group_hash_axioms;

/// One entry of the label table: issues carrying `label` (lower case) are
/// listed under `title`.
pub struct CategoryRule {
    pub label: String,
    pub title: String,
}

/// The label table and the title of the fallback category.
pub struct CategoryMapping {
    pub rules: Vec<CategoryRule>,
    pub fallback: String,
}

/// The mathematical value of a label table.
pub struct MappingView {
    pub rules: Seq<(Seq<char>, Seq<char>)>,
    pub fallback: Seq<char>,
}

impl View for CategoryMapping {
    type V = MappingView;

    open spec fn view(&self) -> MappingView {
        MappingView {
            rules: self.rules@.map_values(|r: CategoryRule| (r.label@, r.title@)),
            fallback: self.fallback@,
        }
    }
}

/// The category title of a lower-case label: the title of the first rule
/// for that label, or the fallback title where no rule names it.
pub open spec fn title_for(rules: Seq<(Seq<char>, Seq<char>)>, fallback: Seq<char>, label: Seq<char>) -> Seq<char>
    decreases rules.len(),
{
    if rules.len() == 0 {
        fallback
    } else if rules[0].0 == label {
        rules[0].1
    } else {
        title_for(rules.drop_first(), fallback, label)
    }
}

/// Title of the category for bug reports.
pub const BUG_TITLE: &'static str = "Fixed Bugs 🐛";

/// Title of the fallback category.
pub const FALLBACK_TITLE: &'static str = "Issues Closed";

impl CategoryMapping {
    /// The usual table: `bug` to the bug-fix title, everything else to the
    /// fallback title.
    pub fn standard() -> (r: CategoryMapping)
        ensures
            r@.rules == seq![("bug"@, BUG_TITLE@)],
            r@.fallback == FALLBACK_TITLE@,
    {
        let mut rules: Vec<CategoryRule> = Vec::new();
        rules.push(CategoryRule { label: String::from_str("bug"), title: String::from_str(BUG_TITLE) });
        let r = CategoryMapping { rules, fallback: String::from_str(FALLBACK_TITLE) };
        assert(r@.rules =~= seq![("bug"@, BUG_TITLE@)]);
        r
    }

    /// The category title of a lower-case label.
    pub fn category_of(&self, label: &String) -> (r: String)
        ensures
            r@ == title_for(self@.rules, self@.fallback, label@),
    {
        let n = self.rules.len();
        let mut i: usize = 0;
        assert(self@.rules.subrange(0, n as int) =~= self@.rules);
        while i < n
            invariant
                n == self.rules@.len(),
                i <= n,
                title_for(self@.rules, self@.fallback, label@)
                    == title_for(self@.rules.subrange(i as int, n as int), self@.fallback, label@),
            decreases n - i,
        {
            let ghost rest = self@.rules.subrange(i as int, n as int);
            assert(rest.drop_first() =~= self@.rules.subrange(i + 1, n as int));
            if self.rules[i].label == *label {
                return self.rules[i].title.clone();
            }
            i = i + 1;
        }
        self.fallback.clone()
    }
}

/// A category of the changelog and the issues listed under it.
pub struct Category<'a> {
    pub title: String,
    pub issues: Vec<&'a Issue>,
}

impl<'a> View for Category<'a> {
    type V = (Seq<char>, Seq<IssueView>);

    open spec fn view(&self) -> (Seq<char>, Seq<IssueView>) {
        (self.title@, self.issues@.map_values(|i: &Issue| i@))
    }
}

/// The values of a sequence of categories.
pub open spec fn cats_view<'a>(cats: Seq<Category<'a>>) -> Seq<(Seq<char>, Seq<IssueView>)> {
    cats.map_values(|c: Category<'a>| c@)
}

/// Issue ids strictly increase along the list.
pub open spec fn ids_sorted(s: Seq<IssueView>) -> bool {
    forall|a: int, b: int| 0 <= a < b < s.len() ==> s[a].id < s[b].id
}

/// Some issue of the list has this id.
pub open spec fn has_id(s: Seq<IssueView>, id: i64) -> bool {
    exists|a: int| 0 <= a < s.len() && #[trigger] s[a].id == id
}

/// Adds an issue to an id-ordered list unless an issue of that id is there.
fn insert_issue<'a>(issues: &mut Vec<&'a Issue>, issue: &'a Issue)
    requires
        ids_sorted(old(issues)@.map_values(|i: &Issue| i@)),
    ensures
        ({
            let s0 = old(issues)@.map_values(|i: &Issue| i@);
            let s1 = final(issues)@.map_values(|i: &Issue| i@);
            &&& ids_sorted(s1)
            &&& s1.len() > 0
            &&& has_id(s1, issue.id)
            &&& forall|iv: IssueView| s1.contains(iv) ==> s0.contains(iv) || iv == issue@
            &&& forall|id: i64| has_id(s0, id) ==> has_id(s1, id)
        }),
{
    let ghost s0 = issues@.map_values(|i: &Issue| i@);
    let n = issues.len();
    let mut p: usize = 0;
    while p < n
        invariant
            n == issues@.len(),
            s0 == issues@.map_values(|i: &Issue| i@),
            p <= n,
            forall|k: int| 0 <= k < p ==> #[trigger] s0[k].id < issue.id,
        ensures
            p <= n,
            forall|k: int| 0 <= k < p ==> #[trigger] s0[k].id < issue.id,
            p < n ==> s0[p as int].id >= issue.id,
        decreases n - p,
    {
        if issues[p].id >= issue.id {
            break;
        }
        p = p + 1;
    }
    if p < n && issues[p].id == issue.id {
        assert(s0[p as int].id == issue.id);
        return;
    }
    issues.insert(p, issue);
    let ghost s1 = issues@.map_values(|i: &Issue| i@);
    assert(s1 =~= s0.insert(p as int, issue@));
    assert(p < n ==> issue.id < s0[p as int].id);
    assert forall|a: int, b: int| 0 <= a < b < s1.len() implies s1[a].id < s1[b].id by {
        if b < p {
        } else if b == p {
        } else if a < p {
            assert(s0[a].id < issue.id);
            assert(s0[p as int].id <= s0[b - 1].id);
        } else if a == p {
            assert(s0[p as int].id <= s0[b - 1].id);
        } else {
        }
    }
    assert(s1[p as int].id == issue.id);
    assert forall|id: i64| has_id(s0, id) implies has_id(s1, id) by {
        let a = choose|a: int| 0 <= a < s0.len() && #[trigger] s0[a].id == id;
        if a < p {
            assert(s1[a].id == id);
        } else {
            assert(s1[a + 1].id == id);
        }
    }
    assert forall|iv: IssueView| s1.contains(iv) implies s0.contains(iv) || iv == issue@ by {
        let a = choose|a: int| 0 <= a < s1.len() && s1[a] == iv;
        if a < p {
            assert(s0[a] == iv);
        } else if a > p {
            assert(s0[a - 1] == iv);
        }
    }
}

/// Category titles strictly increase along the list.
pub open spec fn titles_sorted(cats: Seq<(Seq<char>, Seq<IssueView>)>) -> bool {
    forall|i: int, j: int| 0 <= i < j < cats.len() ==> text_lt(cats[i].0, cats[j].0)
}

/// Titles in order, and each category non-empty with its issues in id order.
pub open spec fn well_formed_cats(cats: Seq<(Seq<char>, Seq<IssueView>)>) -> bool {
    &&& titles_sorted(cats)
    &&& forall|i: int| #![trigger cats[i]] 0 <= i < cats.len() ==> ids_sorted(cats[i].1) && cats[i].1.len() > 0
}

/// The category titled `t` lists the issue `iv`.
pub open spec fn holds(cats: Seq<(Seq<char>, Seq<IssueView>)>, t: Seq<char>, iv: IssueView) -> bool {
    exists|i: int| 0 <= i < cats.len() && cats[i].0 == t && #[trigger] cats[i].1.contains(iv)
}

/// The category titled `t` lists an issue with id `id`.
pub open spec fn holds_id(cats: Seq<(Seq<char>, Seq<IssueView>)>, t: Seq<char>, id: i64) -> bool {
    exists|i: int| 0 <= i < cats.len() && cats[i].0 == t && #[trigger] has_id(cats[i].1, id)
}

/// Files an issue under a title, creating the category where needed.
fn file_issue<'a>(cats: &mut Vec<Category<'a>>, title: String, issue: &'a Issue)
    requires
        well_formed_cats(cats_view(old(cats)@)),
    ensures
        ({
            let c0 = cats_view(old(cats)@);
            let c1 = cats_view(final(cats)@);
            &&& well_formed_cats(c1)
            &&& holds_id(c1, title@, issue.id)
            &&& forall|t: Seq<char>, iv: IssueView| #[trigger] holds(c1, t, iv) ==> holds(c0, t, iv) || (t == title@ && iv == issue@)
            &&& forall|t: Seq<char>, id: i64| #[trigger] holds_id(c0, t, id) ==> holds_id(c1, t, id)
        }),
{
    let ghost c0 = cats_view(cats@);
    let n = cats.len();
    let mut p: usize = 0;
    while p < n
        invariant
            n == cats@.len(),
            c0 == cats_view(cats@),
            p <= n,
            forall|k: int| 0 <= k < p ==> text_lt(#[trigger] c0[k].0, title@),
        ensures
            p <= n,
            forall|k: int| 0 <= k < p ==> text_lt(#[trigger] c0[k].0, title@),
            p < n ==> !text_lt(c0[p as int].0, title@),
        decreases n - p,
    {
        if !text_less(cats[p].title.as_str(), title.as_str()) {
            break;
        }
        p = p + 1;
    }
    if p < n && cats[p].title == title {
        let mut cat = cats.remove(p);
        let ghost old_cat = cat@;
        assert(old_cat == c0[p as int]);
        insert_issue(&mut cat.issues, issue);
        let ghost new_cat = cat@;
        cats.insert(p, cat);
        let ghost c1 = cats_view(cats@);
        assert(c1 =~= c0.update(p as int, new_cat));
        assert(has_id(c1[p as int].1, issue.id));
        assert forall|t: Seq<char>, iv: IssueView| #[trigger] holds(c1, t, iv) implies holds(c0, t, iv) || (t == title@ && iv == issue@) by {
            let i = choose|i: int| 0 <= i < c1.len() && c1[i].0 == t && #[trigger] c1[i].1.contains(iv);
            if i != p {
                assert(c0[i].1.contains(iv));
            } else if !(iv == issue@) {
                assert(c0[i].1.contains(iv));
            }
        }
        assert forall|t: Seq<char>, id: i64| #[trigger] holds_id(c0, t, id) implies holds_id(c1, t, id) by {
            let i = choose|i: int| 0 <= i < c0.len() && c0[i].0 == t && #[trigger] has_id(c0[i].1, id);
            assert(has_id(c1[i].1, id));
        }
    } else {
        let mut issues: Vec<&'a Issue> = Vec::new();
        issues.push(issue);
        let cat = Category { title, issues };
        let ghost new_cat = cat@;
        cats.insert(p, cat);
        let ghost c1 = cats_view(cats@);
        assert(c1 =~= c0.insert(p as int, new_cat));
        assert(new_cat.1 =~= seq![issue@]);
        assert(new_cat.1[0].id == issue.id);
        assert(has_id(c1[p as int].1, issue.id));
        proof {
            if p < n {
                lemma_text_lt_total(c0[p as int].0, new_cat.0);
            }
        }
        assert forall|i: int, j: int| 0 <= i < j < c1.len() implies text_lt(c1[i].0, c1[j].0) by {
            if j < p {
            } else if j == p {
            } else if i < p {
                lemma_text_lt_transitive(c1[i].0, new_cat.0, c0[p as int].0);
                if j - 1 > p {
                    lemma_text_lt_transitive(c1[i].0, c0[p as int].0, c0[j - 1].0);
                }
            } else if i == p {
                if j - 1 > p {
                    lemma_text_lt_transitive(new_cat.0, c0[p as int].0, c0[j - 1].0);
                }
            } else {
            }
        }
        assert forall|t: Seq<char>, iv: IssueView| #[trigger] holds(c1, t, iv) implies holds(c0, t, iv) || (t == title@ && iv == issue@) by {
            let i = choose|i: int| 0 <= i < c1.len() && c1[i].0 == t && #[trigger] c1[i].1.contains(iv);
            if i < p {
                assert(c0[i].1.contains(iv));
            } else if i > p {
                assert(c0[i - 1].1.contains(iv));
            } else {
                assert(new_cat.1.contains(iv));
            }
        }
        assert forall|t: Seq<char>, id: i64| #[trigger] holds_id(c0, t, id) implies holds_id(c1, t, id) by {
            let i = choose|i: int| 0 <= i < c0.len() && c0[i].0 == t && #[trigger] has_id(c0[i].1, id);
            if i < p {
                assert(has_id(c1[i].1, id));
            } else {
                assert(has_id(c1[i + 1].1, id));
            }
        }
    }
}

/// The lower-case filter label, if any.
pub open spec fn filter_view(filter_label: Option<String>) -> Option<Seq<char>> {
    match filter_label {
        Some(f) => Some(lower_of(f@)),
        None => None,
    }
}

/// An issue passes the filter when there is none, or when one of its
/// lower-case labels equals it.
pub open spec fn passes_filter(filter: Option<Seq<char>>, iv: IssueView) -> bool {
    match filter {
        Some(f) => lower_labels(iv.labels).contains(f),
        None => true,
    }
}

/// The linked issue of each commit, in order.
pub open spec fn commit_links(commits: Seq<Commit>) -> Seq<Option<i64>> {
    commits.map_values(|c: Commit| c.linked_issue)
}

/// A commit with link `link` files the issue `iv` under the title `t`: the
/// link names an issue of the map, that issue is `iv`, it passes the
/// filter, and one of its labels maps to `t`.
pub open spec fn files_under(
    m: MappingView,
    filter: Option<Seq<char>>,
    issues: Map<i64, Issue>,
    link: Option<i64>,
    t: Seq<char>,
    iv: IssueView,
) -> bool {
    &&& link is Some
    &&& issues.contains_key(link->0)
    &&& issues[link->0]@ == iv
    &&& passes_filter(filter, iv)
    &&& exists|j: int| 0 <= j < iv.labels.len() && title_for(m.rules, m.fallback, lower_of(#[trigger] iv.labels[j])) == t
}

/// `cats` is the categorisation of the first `upto` links: well formed,
/// listing only issues that one of those commits files under the title,
/// and listing (by id) every issue that one of them files there.
pub open spec fn categorized(
    cats: Seq<(Seq<char>, Seq<IssueView>)>,
    m: MappingView,
    filter: Option<Seq<char>>,
    issues: Map<i64, Issue>,
    links: Seq<Option<i64>>,
    upto: int,
) -> bool {
    &&& well_formed_cats(cats)
    &&& forall|t: Seq<char>, iv: IssueView| #[trigger] holds(cats, t, iv) ==>
            exists|c: int| 0 <= c < upto && #[trigger] files_under(m, filter, issues, links[c], t, iv)
    &&& forall|c: int, t: Seq<char>, iv: IssueView| 0 <= c < upto && #[trigger] files_under(m, filter, issues, links[c], t, iv) ==>
            holds_id(cats, t, iv.id)
}

/// Groups the issues linked from the commits into categories by label.
///
/// For each commit whose linked issue is in `issues` and passes the
/// (case-insensitive) filter, the issue is listed under the category of
/// every one of its labels: the mapped title, or the fallback title for a
/// label without a rule. Categories come in title order; each lists its
/// issues once per id, in id order.
pub fn generate_labeled_categories<'a>(
    filter_label: Option<String>,
    commits: &[Commit],
    issues: &'a HashMap<i64, Issue>,
    mapping: &CategoryMapping,
) -> (r: Vec<Category<'a>>)
    ensures
        categorized(
            cats_view(r@),
            mapping@,
            filter_view(filter_label),
            issues@,
            commit_links(commits@),
            commits@.len() as int,
        ),
        match filter_label {
            Some(f) => ascii_without_upper(f@) ==> filter_view(filter_label) == Some(f@),
            None => true,
        },
{
    let ghost m = mapping@;
    let ghost filter = filter_view(filter_label);
    let ghost links = commit_links(commits@);
    let filter_low: Option<String> = match &filter_label {
        Some(f) => Some(lowercase(f.as_str())),
        None => None,
    };
    let mut cats: Vec<Category<'a>> = Vec::new();
    let n = commits.len();
    let mut c: usize = 0;
    assert(cats_view(cats@) =~= Seq::<(Seq<char>, Seq<IssueView>)>::empty());
    while c < n
        invariant
            n == commits@.len(),
            c <= n,
            links == commit_links(commits@),
            links.len() == n,
            filter == filter_view(filter_label),
            m == mapping@,
            match filter_low {
                Some(f) => filter == Some(f@),
                None => filter is None,
            },
            categorized(cats_view(cats@), m, filter, issues@, links, c as int),
        decreases n - c,
    {
        assert(links[c as int] == commits@[c as int].linked_issue);
        if let Some(num) = commits[c].linked_issue {
            if let Some(issue) = issues.get(&num) {
                let labels = issue.lower_case_labels();
                let ghost lv = texts_view(labels@);
                assert(forall|s: Seq<char>| #[trigger] lv.contains(s) <==> lower_labels(issue@.labels).contains(s));
                let pass = match &filter_low {
                    Some(f) => contains_text(&labels, f),
                    None => true,
                };
                assert(pass == passes_filter(filter, issue@));
                if pass {
                    let nl = labels.len();
                    let mut j: usize = 0;
                    while j < nl
                        invariant
                            nl == labels@.len(),
                            j <= nl,
                            lv == texts_view(labels@),
                            forall|s: Seq<char>| #[trigger] lv.contains(s) <==> lower_labels(issue@.labels).contains(s),
                            issues@.contains_key(num),
                            issues@[num] == *issue,
                            links.len() == n,
                            links[c as int] == Some(num),
                            passes_filter(filter, issue@),
                            m == mapping@,
                            c < n,
                            well_formed_cats(cats_view(cats@)),
                            forall|t: Seq<char>, iv: IssueView| #[trigger] holds(cats_view(cats@), t, iv) ==>
                                exists|k: int| 0 <= k < c + 1 && #[trigger] files_under(m, filter, issues@, links[k], t, iv),
                            forall|k: int, t: Seq<char>, iv: IssueView| 0 <= k < c && #[trigger] files_under(m, filter, issues@, links[k], t, iv) ==>
                                holds_id(cats_view(cats@), t, iv.id),
                            forall|k: int| 0 <= k < j ==> holds_id(cats_view(cats@), title_for(m.rules, m.fallback, #[trigger] lv[k]), issue.id),
                        decreases nl - j,
                    {
                        let title = mapping.category_of(&labels[j]);
                        let ghost c0 = cats_view(cats@);
                        file_issue(&mut cats, title, issue);
                        let ghost c1 = cats_view(cats@);
                        assert(files_under(m, filter, issues@, links[c as int], title@, issue@)) by {
                            assert(lv[j as int] == labels@[j as int]@);
                            assert(lv.contains(lv[j as int]));
                            let ll = lower_labels(issue@.labels);
                            let jj = choose|jj: int| 0 <= jj < ll.len() && ll[jj] == lv[j as int];
                            assert(ll[jj] == lower_of(issue@.labels[jj]));
                        }
                        assert forall|t: Seq<char>, iv: IssueView| #[trigger] holds(c1, t, iv) implies
                            exists|k: int| 0 <= k < c + 1 && #[trigger] files_under(m, filter, issues@, links[k], t, iv) by {
                            if holds(c0, t, iv) {
                            } else {
                                assert(files_under(m, filter, issues@, links[c as int], t, iv));
                            }
                        }
                        assert forall|k: int, t: Seq<char>, iv: IssueView| 0 <= k < c && #[trigger] files_under(m, filter, issues@, links[k], t, iv) implies
                            holds_id(c1, t, iv.id) by {
                            assert(holds_id(c0, t, iv.id));
                        }
                        assert forall|k: int| 0 <= k < j + 1 implies holds_id(c1, title_for(m.rules, m.fallback, #[trigger] lv[k]), issue.id) by {
                            if k < j {
                                assert(holds_id(c0, title_for(m.rules, m.fallback, lv[k]), issue.id));
                            }
                        }
                        j = j + 1;
                    }
                    let ghost c1 = cats_view(cats@);
                    assert forall|k: int, t: Seq<char>, iv: IssueView| 0 <= k < c + 1 && #[trigger] files_under(m, filter, issues@, links[k], t, iv) implies
                        holds_id(c1, t, iv.id) by {
                        if k == c {
                            let jj = choose|jj: int| 0 <= jj < iv.labels.len() && title_for(m.rules, m.fallback, lower_of(#[trigger] iv.labels[jj])) == t;
                            assert(lower_labels(iv.labels)[jj] == lower_of(iv.labels[jj]));
                            assert(lower_labels(iv.labels).contains(lower_of(iv.labels[jj])));
                            assert(lv.contains(lower_of(iv.labels[jj])));
                            let k2 = choose|k2: int| 0 <= k2 < lv.len() && lv[k2] == lower_of(iv.labels[jj]);
                            assert(holds_id(c1, title_for(m.rules, m.fallback, lv[k2]), issue.id));
                        }
                    }
                }
            }
        }
        c = c + 1;
    }
    cats
}

} // verus!
