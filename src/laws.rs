//! Properties of the changelog pipeline, stated over the contracts of the
//! categoriser and the renderer.
use vstd::prelude::*;
use crate::categorize::{
    MappingView, categorized, files_under, has_id, holds, holds_id, ids_sorted, passes_filter,
    title_for, well_formed_cats,
};
use crate::commit::Commit;
use crate::issue::{Issue, IssueView, lower_labels};
use crate::render::{commit_lines, document, title_line};
use crate::text::{lemma_text_lt_irreflexive, lemma_text_lt_transitive, lower_of, text_lt};

verus! {

/// A label that no rule names maps to the fallback title.
pub proof fn lemma_unmapped_label_falls_back(
    rules: Seq<(Seq<char>, Seq<char>)>,
    fallback: Seq<char>,
    label: Seq<char>,
)
    requires
        forall|i: int| 0 <= i < rules.len() ==> (#[trigger] rules[i]).0 != label,
    ensures
        title_for(rules, fallback, label) == fallback,
    decreases rules.len(),
{
    if rules.len() > 0 {
        assert(rules[0].0 != label);
        assert forall|i: int| 0 <= i < rules.drop_first().len() implies (#[trigger] rules.drop_first()[i]).0 != label by {
            assert(rules.drop_first()[i] == rules[i + 1]);
        }
        lemma_unmapped_label_falls_back(rules.drop_first(), fallback, label);
    }
}

/// An issue linked from a commit, passing the filter, with a label that no
/// rule names, is listed under the fallback title.
pub proof fn lemma_unmapped_label_lands_in_fallback(
    cats: Seq<(Seq<char>, Seq<IssueView>)>,
    m: MappingView,
    filter: Option<Seq<char>>,
    issues: Map<i64, Issue>,
    links: Seq<Option<i64>>,
    c: int,
    j: int,
)
    requires
        categorized(cats, m, filter, issues, links, links.len() as int),
        0 <= c < links.len(),
        links[c] is Some,
        issues.contains_key(links[c]->0),
        passes_filter(filter, issues[links[c]->0]@),
        0 <= j < issues[links[c]->0]@.labels.len(),
        forall|i: int| 0 <= i < m.rules.len() ==> (#[trigger] m.rules[i]).0 != lower_of(issues[links[c]->0]@.labels[j]),
    ensures
        holds_id(cats, m.fallback, issues[links[c]->0].id),
{
    let iv = issues[links[c]->0]@;
    lemma_unmapped_label_falls_back(m.rules, m.fallback, lower_of(iv.labels[j]));
    assert(files_under(m, filter, issues, links[c], m.fallback, iv));
}

/// Under a filter, every listed issue carries the filter label in lower
/// case (for a filter of ASCII without upper-case letters, the categoriser
/// states that its lower case is itself); and the rendered document ends with the full list of commits
/// whatever the categories.
pub proof fn lemma_filter_excludes_unlabelled(
    cats: Seq<(Seq<char>, Seq<IssueView>)>,
    m: MappingView,
    f: Seq<char>,
    issues: Map<i64, Issue>,
    links: Seq<Option<i64>>,
    to: Seq<char>,
    today: Seq<char>,
    commits: Seq<Commit>,
)
    requires
        categorized(cats, m, Some(f), issues, links, links.len() as int),
    ensures
        forall|t: Seq<char>, iv: IssueView| #[trigger] holds(cats, t, iv) ==> lower_labels(iv.labels).contains(f),
        ({
            let doc = document(to, today, commits, cats);
            let tail = commit_lines(commits);
            &&& tail.len() <= doc.len()
            &&& doc.subrange(doc.len() - tail.len(), doc.len() as int) == tail
        }),
{
    assert forall|t: Seq<char>, iv: IssueView| #[trigger] holds(cats, t, iv) implies lower_labels(iv.labels).contains(f) by {
        let c = choose|c: int| 0 <= c < links.len() && #[trigger] files_under(m, Some(f), issues, links[c], t, iv);
    }
    let doc = document(to, today, commits, cats);
    let tail = commit_lines(commits);
    assert(doc.subrange(doc.len() - tail.len(), doc.len() as int) =~= tail);
}

/// In well-formed categories a title names one category, and an id occurs
/// once in it.
pub proof fn lemma_listed_once(
    cats: Seq<(Seq<char>, Seq<IssueView>)>,
    t: Seq<char>,
    id: i64,
    i1: int,
    a1: int,
    i2: int,
    a2: int,
)
    requires
        well_formed_cats(cats),
        0 <= i1 < cats.len(),
        0 <= i2 < cats.len(),
        0 <= a1 < cats[i1].1.len(),
        0 <= a2 < cats[i2].1.len(),
        cats[i1].0 == t,
        cats[i2].0 == t,
        cats[i1].1[a1].id == id,
        cats[i2].1[a2].id == id,
    ensures
        i1 == i2,
        a1 == a2,
{
    lemma_text_lt_irreflexive(t);
    if i1 < i2 {
        assert(text_lt(cats[i1].0, cats[i2].0));
    } else if i2 < i1 {
        assert(text_lt(cats[i2].0, cats[i1].0));
    }
    assert(ids_sorted(cats[i1].1));
}

/// An issue carrying a mapped label and a label that no rule names is
/// listed both under the mapped title and under the fallback title, once
/// in each.
pub proof fn lemma_mapped_and_unmapped_fan_out(
    cats: Seq<(Seq<char>, Seq<IssueView>)>,
    m: MappingView,
    filter: Option<Seq<char>>,
    issues: Map<i64, Issue>,
    links: Seq<Option<i64>>,
    c: int,
    mapped: int,
    unmapped: int,
    r: int,
)
    requires
        categorized(cats, m, filter, issues, links, links.len() as int),
        0 <= c < links.len(),
        links[c] is Some,
        issues.contains_key(links[c]->0),
        passes_filter(filter, issues[links[c]->0]@),
        0 <= mapped < issues[links[c]->0]@.labels.len(),
        0 <= unmapped < issues[links[c]->0]@.labels.len(),
        0 <= r < m.rules.len(),
        m.rules[r].0 == lower_of(issues[links[c]->0]@.labels[mapped]),
        forall|i: int| 0 <= i < m.rules.len() ==> (#[trigger] m.rules[i]).0 != lower_of(issues[links[c]->0]@.labels[unmapped]),
    ensures
        ({
            let id = issues[links[c]->0].id;
            let bug = title_for(m.rules, m.fallback, lower_of(issues[links[c]->0]@.labels[mapped]));
            &&& holds_id(cats, bug, id)
            &&& holds_id(cats, m.fallback, id)
            &&& forall|i1: int, a1: int, i2: int, a2: int|
                (cats[i1].0 == bug || cats[i1].0 == m.fallback) && 0 <= i1 < cats.len() && 0 <= i2 < cats.len()
                    && 0 <= a1 < cats[i1].1.len() && 0 <= a2 < cats[i2].1.len()
                    && cats[i1].0 == cats[i2].0
                    && #[trigger] cats[i1].1[a1].id == id && #[trigger] cats[i2].1[a2].id == id
                    ==> i1 == i2 && a1 == a2
        }),
{
    let iv = issues[links[c]->0]@;
    let id = iv.id;
    let bug = title_for(m.rules, m.fallback, lower_of(iv.labels[mapped]));
    assert(files_under(m, filter, issues, links[c], bug, iv));
    lemma_unmapped_label_lands_in_fallback(cats, m, filter, issues, links, c, unmapped);
    assert forall|i1: int, a1: int, i2: int, a2: int|
        (cats[i1].0 == bug || cats[i1].0 == m.fallback) && 0 <= i1 < cats.len() && 0 <= i2 < cats.len()
            && 0 <= a1 < cats[i1].1.len() && 0 <= a2 < cats[i2].1.len()
            && cats[i1].0 == cats[i2].0
            && #[trigger] cats[i1].1[a1].id == id && #[trigger] cats[i2].1[a2].id == id
        implies i1 == i2 && a1 == a2 by {
        lemma_listed_once(cats, cats[i1].0, id, i1, a1, i2, a2);
    }
}

/// Two lists in strictly increasing lexicographic order with the same
/// members are equal.
pub proof fn lemma_sorted_titles_unique(x: Seq<Seq<char>>, y: Seq<Seq<char>>)
    requires
        forall|i: int, j: int| 0 <= i < j < x.len() ==> text_lt(x[i], x[j]),
        forall|i: int, j: int| 0 <= i < j < y.len() ==> text_lt(y[i], y[j]),
        forall|t: Seq<char>| x.contains(t) <==> y.contains(t),
    ensures
        x == y,
    decreases x.len() + y.len(),
{
    if x.len() == 0 || y.len() == 0 {
        if x.len() > 0 {
            assert(x.contains(x[0]));
        }
        if y.len() > 0 {
            assert(y.contains(y[0]));
        }
        assert(x =~= y);
    } else {
        assert(x.contains(x[0]));
        assert(y.contains(y[0]));
        let k = choose|k: int| 0 <= k < y.len() && y[k] == x[0];
        let k2 = choose|k2: int| 0 <= k2 < x.len() && x[k2] == y[0];
        if x[0] != y[0] {
            assert(text_lt(y[0], y[k]));
            assert(text_lt(x[0], x[k2]));
            lemma_text_lt_transitive(x[0], y[0], x[0]);
            lemma_text_lt_irreflexive(x[0]);
        }
        let x1 = x.drop_first();
        let y1 = y.drop_first();
        assert forall|t: Seq<char>| x1.contains(t) <==> y1.contains(t) by {
            if x1.contains(t) {
                let i = choose|i: int| 0 <= i < x1.len() && x1[i] == t;
                assert(text_lt(x[0], x[i + 1]));
                lemma_text_lt_irreflexive(x[0]);
                assert(x.contains(t));
                let j = choose|j: int| 0 <= j < y.len() && y[j] == t;
                assert(j != 0);
                assert(y1[j - 1] == t);
            }
            if y1.contains(t) {
                let i = choose|i: int| 0 <= i < y1.len() && y1[i] == t;
                assert(text_lt(y[0], y[i + 1]));
                lemma_text_lt_irreflexive(y[0]);
                assert(y.contains(t));
                let j = choose|j: int| 0 <= j < x.len() && x[j] == t;
                assert(j != 0);
                assert(x1[j - 1] == t);
            }
        }
        assert forall|i: int, j: int| 0 <= i < j < x1.len() implies text_lt(x1[i], x1[j]) by {
            assert(text_lt(x[i + 1], x[j + 1]));
        }
        assert forall|i: int, j: int| 0 <= i < j < y1.len() implies text_lt(y1[i], y1[j]) by {
            assert(text_lt(y[i + 1], y[j + 1]));
        }
        lemma_sorted_titles_unique(x1, y1);
        assert(x =~= seq![x[0]] + x1);
        assert(y =~= seq![y[0]] + y1);
    }
}

/// Two lists of ids in strictly increasing order with the same members are
/// equal.
pub proof fn lemma_sorted_ids_unique(x: Seq<i64>, y: Seq<i64>)
    requires
        forall|i: int, j: int| 0 <= i < j < x.len() ==> x[i] < x[j],
        forall|i: int, j: int| 0 <= i < j < y.len() ==> y[i] < y[j],
        forall|t: i64| x.contains(t) <==> y.contains(t),
    ensures
        x == y,
    decreases x.len() + y.len(),
{
    if x.len() == 0 || y.len() == 0 {
        if x.len() > 0 {
            assert(x.contains(x[0]));
        }
        if y.len() > 0 {
            assert(y.contains(y[0]));
        }
        assert(x =~= y);
    } else {
        assert(x.contains(x[0]));
        assert(y.contains(y[0]));
        let x1 = x.drop_first();
        let y1 = y.drop_first();
        assert forall|t: i64| x1.contains(t) <==> y1.contains(t) by {
            if x1.contains(t) {
                let i = choose|i: int| 0 <= i < x1.len() && x1[i] == t;
                assert(x[i + 1] == t);
                assert(x.contains(t));
                let j = choose|j: int| 0 <= j < y.len() && y[j] == t;
                assert(y1[j - 1] == t);
            }
            if y1.contains(t) {
                let i = choose|i: int| 0 <= i < y1.len() && y1[i] == t;
                assert(y[i + 1] == t);
                assert(y.contains(t));
                let j = choose|j: int| 0 <= j < x.len() && x[j] == t;
                assert(x1[j - 1] == t);
            }
        }
        lemma_sorted_ids_unique(x1, y1);
        assert(x =~= seq![x[0]] + x1);
        assert(y =~= seq![y[0]] + y1);
    }
}

/// The titles of the categories, in order.
pub open spec fn titles_of(cats: Seq<(Seq<char>, Seq<IssueView>)>) -> Seq<Seq<char>> {
    cats.map_values(|c: (Seq<char>, Seq<IssueView>)| c.0)
}

/// The ids of the issues, in order.
pub open spec fn ids_of(s: Seq<IssueView>) -> Seq<i64> {
    s.map_values(|v: IssueView| v.id)
}

/// Distinct issue numbers carry distinct internal ids.
pub open spec fn ids_distinct(issues: Map<i64, Issue>) -> bool {
    forall|n1: i64, n2: i64|
        issues.contains_key(n1) && issues.contains_key(n2) && #[trigger] issues[n1].id == #[trigger] issues[n2].id
            ==> n1 == n2
}

/// The categorisation of given commits, issues, table and filter is one
/// value: two results that meet the categoriser's contract are equal.
pub proof fn lemma_categorization_deterministic(
    a: Seq<(Seq<char>, Seq<IssueView>)>,
    b: Seq<(Seq<char>, Seq<IssueView>)>,
    m: MappingView,
    filter: Option<Seq<char>>,
    issues: Map<i64, Issue>,
    links: Seq<Option<i64>>,
)
    requires
        categorized(a, m, filter, issues, links, links.len() as int),
        categorized(b, m, filter, issues, links, links.len() as int),
        ids_distinct(issues),
    ensures
        a == b,
{
    lemma_titles_match(a, b, m, filter, issues, links);
    lemma_titles_match(b, a, m, filter, issues, links);
    let ta = titles_of(a);
    let tb = titles_of(b);
    lemma_sorted_titles_unique(ta, tb);
    assert(a.len() == ta.len());
    assert forall|i: int| 0 <= i < a.len() implies a[i] == b[i] by {
        assert(ta[i] == tb[i]);
        lemma_issues_match(a, b, m, filter, issues, links, i);
    }
    assert(a =~= b);
}

proof fn lemma_titles_match(
    a: Seq<(Seq<char>, Seq<IssueView>)>,
    b: Seq<(Seq<char>, Seq<IssueView>)>,
    m: MappingView,
    filter: Option<Seq<char>>,
    issues: Map<i64, Issue>,
    links: Seq<Option<i64>>,
)
    requires
        categorized(a, m, filter, issues, links, links.len() as int),
        categorized(b, m, filter, issues, links, links.len() as int),
    ensures
        forall|t: Seq<char>| #[trigger] titles_of(a).contains(t) ==> titles_of(b).contains(t),
        forall|i: int, j: int| 0 <= i < j < a.len() ==>
            text_lt(titles_of(a)[i], titles_of(a)[j]),
{
    let ta = titles_of(a);
    let tb = titles_of(b);
    assert forall|t: Seq<char>| ta.contains(t) implies tb.contains(t) by {
        let i = choose|i: int| 0 <= i < ta.len() && ta[i] == t;
        let iv = a[i].1[0];
        assert(a[i].1.contains(iv));
        assert(holds(a, t, iv));
        let c = choose|c: int| 0 <= c < links.len() && #[trigger] files_under(m, filter, issues, links[c], t, iv);
        assert(holds_id(b, t, iv.id));
        let i2 = choose|i2: int| 0 <= i2 < b.len() && b[i2].0 == t && #[trigger] has_id(b[i2].1, iv.id);
        assert(tb[i2] == t);
    }
}

proof fn lemma_issues_match(
    a: Seq<(Seq<char>, Seq<IssueView>)>,
    b: Seq<(Seq<char>, Seq<IssueView>)>,
    m: MappingView,
    filter: Option<Seq<char>>,
    issues: Map<i64, Issue>,
    links: Seq<Option<i64>>,
    i: int,
)
    requires
        categorized(a, m, filter, issues, links, links.len() as int),
        categorized(b, m, filter, issues, links, links.len() as int),
        ids_distinct(issues),
        a.len() == b.len(),
        0 <= i < a.len(),
        a[i].0 == b[i].0,
    ensures
        a[i] == b[i],
{
    lemma_ids_included(a, b, m, filter, issues, links, i);
    lemma_ids_included(b, a, m, filter, issues, links, i);
    let ia = ids_of(a[i].1);
    let ib = ids_of(b[i].1);
    assert(ids_sorted(a[i].1));
    assert(ids_sorted(b[i].1));
    assert forall|x: int, y: int| 0 <= x < y < ia.len() implies ia[x] < ia[y] by {
        assert(a[i].1[x].id < a[i].1[y].id);
    }
    assert forall|x: int, y: int| 0 <= x < y < ib.len() implies ib[x] < ib[y] by {
        assert(b[i].1[x].id < b[i].1[y].id);
    }
    lemma_sorted_ids_unique(ia, ib);
    assert forall|k: int| 0 <= k < a[i].1.len() implies a[i].1[k] == b[i].1[k] by {
        assert(ia[k] == ib[k]);
        let va = a[i].1[k];
        let vb = b[i].1[k];
        assert(a[i].1.contains(va));
        assert(b[i].1.contains(vb));
        assert(holds(a, a[i].0, va));
        assert(holds(b, b[i].0, vb));
        let ca = choose|c: int| 0 <= c < links.len() && #[trigger] files_under(m, filter, issues, links[c], a[i].0, va);
        let cb = choose|c: int| 0 <= c < links.len() && #[trigger] files_under(m, filter, issues, links[c], b[i].0, vb);
        assert(issues[links[ca]->0].id == issues[links[cb]->0].id);
    }
    assert(a[i].1 =~= b[i].1);
}

proof fn lemma_ids_included(
    a: Seq<(Seq<char>, Seq<IssueView>)>,
    b: Seq<(Seq<char>, Seq<IssueView>)>,
    m: MappingView,
    filter: Option<Seq<char>>,
    issues: Map<i64, Issue>,
    links: Seq<Option<i64>>,
    i: int,
)
    requires
        categorized(a, m, filter, issues, links, links.len() as int),
        categorized(b, m, filter, issues, links, links.len() as int),
        a.len() == b.len(),
        0 <= i < a.len(),
        a[i].0 == b[i].0,
    ensures
        forall|id: i64| #[trigger] ids_of(a[i].1).contains(id) ==> ids_of(b[i].1).contains(id),
{
    let ia = ids_of(a[i].1);
    let ib = ids_of(b[i].1);
    assert forall|id: i64| ia.contains(id) implies ib.contains(id) by {
        let k = choose|k: int| 0 <= k < ia.len() && ia[k] == id;
        let iv = a[i].1[k];
        assert(a[i].1.contains(iv));
        assert(holds(a, a[i].0, iv));
        let c = choose|c: int| 0 <= c < links.len() && #[trigger] files_under(m, filter, issues, links[c], a[i].0, iv);
        assert(holds_id(b, a[i].0, id));
        let i2 = choose|i2: int| 0 <= i2 < b.len() && b[i2].0 == a[i].0 && #[trigger] has_id(b[i2].1, id);
        if i2 != i {
            lemma_text_lt_irreflexive(a[i].0);
            if i2 < i {
                assert(text_lt(b[i2].0, b[i].0));
            } else {
                assert(text_lt(b[i].0, b[i2].0));
            }
        }
        let k2 = choose|k2: int| 0 <= k2 < b[i].1.len() && #[trigger] b[i].1[k2].id == id;
        assert(ib[k2] == id);
    }
}

/// Given the same commits, issues, table and filter, two runs render the
/// same document apart from the title line, which holds the day.
pub proof fn lemma_rendering_deterministic(
    a: Seq<(Seq<char>, Seq<IssueView>)>,
    b: Seq<(Seq<char>, Seq<IssueView>)>,
    m: MappingView,
    filter: Option<Seq<char>>,
    issues: Map<i64, Issue>,
    commits: Seq<Commit>,
    links: Seq<Option<i64>>,
    to: Seq<char>,
    day1: Seq<char>,
    day2: Seq<char>,
)
    requires
        categorized(a, m, filter, issues, links, links.len() as int),
        categorized(b, m, filter, issues, links, links.len() as int),
        ids_distinct(issues),
    ensures
        document(to, day1, commits, a).skip(title_line(to, day1).len() as int)
            == document(to, day2, commits, b).skip(title_line(to, day2).len() as int),
        day1 == day2 ==> document(to, day1, commits, a) == document(to, day2, commits, b),
{
    lemma_categorization_deterministic(a, b, m, filter, issues, links);
    let d1 = document(to, day1, commits, a);
    let d2 = document(to, day2, commits, b);
    assert(d1.skip(title_line(to, day1).len() as int) =~= d2.skip(title_line(to, day2).len() as int));
}

} // verus!
