//! Issue records fetched from the tracker.
use vstd::prelude::*;
use crate::text::{contains_text, lower_of, lowercase, texts_view};

verus! {

/// A label attached to an issue.
pub struct IssueLabel {
    pub name: String,
}

/// An issue or pull request of the tracker. Identity is the tracker's
/// internal id alone.
pub struct Issue {
    pub id: i64,
    pub number: i64,
    pub title: String,
    pub labels: Vec<IssueLabel>,
}

/// The mathematical value of an issue.
pub struct IssueView {
    pub id: i64,
    pub number: i64,
    pub title: Seq<char>,
    pub labels: Seq<Seq<char>>,
}

impl View for Issue {
    type V = IssueView;

    open spec fn view(&self) -> IssueView {
        IssueView {
            id: self.id,
            number: self.number,
            title: self.title@,
            labels: self.labels@.map_values(|l: IssueLabel| l.name@),
        }
    }
}

/// The labels of an issue, each in lower case, in the order of the labels.
pub open spec fn lower_labels(labels: Seq<Seq<char>>) -> Seq<Seq<char>> {
    labels.map_values(|l: Seq<char>| lower_of(l))
}

impl Issue {
    /// Builds an issue from its fields and the names of its labels.
    pub fn new(id: i64, number: i64, title: String, label_names: Vec<String>) -> (r: Issue)
        ensures
            r@.id == id,
            r@.number == number,
            r@.title == title@,
            r@.labels == texts_view(label_names@),
    {
        let mut labels: Vec<IssueLabel> = Vec::new();
        let n = label_names.len();
        let mut i: usize = 0;
        while i < n
            invariant
                n == label_names.len(),
                i <= n,
                labels@.len() == i,
                forall|k: int| 0 <= k < i ==> #[trigger] labels@[k].name@ == label_names@[k]@,
            decreases n - i,
        {
            labels.push(IssueLabel { name: label_names[i].clone() });
            i = i + 1;
        }
        let r = Issue { id, number, title, labels };
        assert(r@.labels =~= texts_view(label_names@));
        r
    }

    /// The set of the issue's label names in lower case, for matching:
    /// each lower-cased label once, in the order of first occurrence.
    pub fn lower_case_labels(&self) -> (r: Vec<String>)
        ensures
            texts_view(r@).no_duplicates(),
            forall|s: Seq<char>| #[trigger] texts_view(r@).contains(s)
                <==> lower_labels(self@.labels).contains(s),
    {
        let ghost ll = lower_labels(self@.labels);
        let mut out: Vec<String> = Vec::new();
        let n = self.labels.len();
        let mut i: usize = 0;
        while i < n
            invariant
                n == self.labels@.len(),
                ll == lower_labels(self@.labels),
                ll.len() == n,
                i <= n,
                texts_view(out@).no_duplicates(),
                forall|s: Seq<char>| #[trigger] texts_view(out@).contains(s)
                    <==> ll.take(i as int).contains(s),
            decreases n - i,
        {
            let low = lowercase(self.labels[i].name.as_str());
            let ghost before = texts_view(out@);
            let ghost pre = ll.take(i as int);
            let ghost pre1 = ll.take(i + 1);
            assert(ll[i as int] == low@);
            assert(pre1 =~= pre.push(low@));
            if !contains_text(&out, &low) {
                out.push(low);
                let ghost after = texts_view(out@);
                assert(after =~= before.push(low@));
                assert forall|a: int, b: int| 0 <= a < b < after.len() implies after[a] != after[b] by {
                    if b == after.len() - 1 {
                        assert(before.contains(after[a]) || a == b);
                    }
                }
                assert forall|s: Seq<char>| #[trigger] after.contains(s) <==> pre1.contains(s) by {
                    if after.contains(s) {
                        let k = choose|k: int| 0 <= k < after.len() && after[k] == s;
                        if k < before.len() {
                            assert(before.contains(s));
                            let k2 = choose|k2: int| 0 <= k2 < i && pre[k2] == s;
                            assert(pre1[k2] == s);
                        } else {
                            assert(pre1[i as int] == s);
                        }
                    }
                    if pre1.contains(s) {
                        let k = choose|k: int| 0 <= k < i + 1 && pre1[k] == s;
                        if k < i {
                            assert(pre[k] == s);
                            assert(before.contains(s));
                            let k2 = choose|k2: int| 0 <= k2 < before.len() && before[k2] == s;
                            assert(after[k2] == s);
                        } else {
                            assert(after[before.len() as int] == s);
                        }
                    }
                }
            } else {
                assert forall|s: Seq<char>| #[trigger] before.contains(s) <==> pre1.contains(s) by {
                    if pre1.contains(s) {
                        let k = choose|k: int| 0 <= k < i + 1 && pre1[k] == s;
                        if k < i {
                            assert(pre[k] == s);
                        }
                    }
                    if before.contains(s) {
                        let k2 = choose|k2: int| 0 <= k2 < i && pre[k2] == s;
                        assert(pre1[k2] == s);
                    }
                }
            }
            i = i + 1;
        }
        assert(ll.take(n as int) =~= ll);
        out
    }
}

impl PartialEq for Issue {
    fn eq(&self, other: &Issue) -> (r: bool) {
        self.id == other.id
    }
}

impl vstd::std_specs::cmp::PartialEqSpecImpl for Issue {
    open spec fn obeys_eq_spec() -> bool {
        true
    }

    open spec fn eq_spec(&self, other: &Issue) -> bool {
        self.id == other.id
    }
}

impl Eq for Issue {}

} // verus!
