//! Commit records: one per commit of the walked range.
use vstd::prelude::*;

verus! {

/// The pattern of an issue reference in a commit message: `#` and digits,
/// the digits captured.
pub const ISSUE_PATTERN: &'static str = "#([0-9]+)";

/// Summary used when a commit has none.
pub const NO_SUMMARY: &'static str = "<no summary>";

/// Author used when a commit's author has no name.
pub const UNKNOWN_AUTHOR: &'static str = "<unknown>";

/// Length of the abbreviated commit id.
pub const SHORT_ID_LEN: usize = 7;

/// A normalised commit.
pub struct Commit {
    /// Abbreviated hexadecimal id.
    pub id: String,
    /// First line of the message.
    pub summary: String,
    /// Display name of the author.
    pub author: String,
    /// Commit time, in UTC seconds since the epoch.
    pub seconds: i64,
    /// Commit time as calendar text.
    pub date: String,
    /// The first issue number referenced in the message.
    pub linked_issue: Option<i64>,
}

/// An issue reference starts at `i`: a `#` followed by a decimal digit.
pub open spec fn reference_at(h: Seq<char>, i: int) -> bool {
    0 <= i && i + 1 < h.len() && h[i] == '#' && is_digit(h[i + 1])
}

/// The end of the run of decimal digits that starts at `j`.
pub open spec fn digit_run_end(h: Seq<char>, j: int) -> int
    decreases h.len() - j,
{
    if j < 0 || j >= h.len() || !is_digit(h[j]) {
        j
    } else {
        digit_run_end(h, j + 1)
    }
}

/// The digits of the first issue reference at or after `i`.
pub open spec fn first_reference_from(h: Seq<char>, i: int) -> Option<Seq<char>>
    decreases h.len() - i,
{
    if i < 0 || i >= h.len() {
        None
    } else if reference_at(h, i) {
        Some(h.subrange(i + 1, digit_run_end(h, i + 1)))
    } else {
        first_reference_from(h, i + 1)
    }
}

/// The digits of the first issue reference of a message: the whole run of
/// digits after the first `#` that a digit follows.
pub open spec fn first_reference(h: Seq<char>) -> Option<Seq<char>> {
    first_reference_from(h, 0)
}

/// Relies on `regex::Regex::new` and `regex::Regex::captures`: for the
/// pattern `#([0-9]+)`, the leftmost-first match starts at the first `#`
/// that an ASCII digit follows, and the greedy group takes every digit
/// after it.
#[verifier::external_body]
fn first_capture(pattern: &str, haystack: &str) -> (r: Option<String>)
    requires
        pattern@ == ISSUE_PATTERN@,
    ensures
        match r {
            Some(s) => first_reference(haystack@) == Some(s@),
            None => first_reference(haystack@) is None,
        },
{
    let re = match regex::Regex::new(pattern) {
        Ok(re) => re,
        Err(_) => return None,
    };
    match re.captures(haystack) {
        Some(caps) => caps.get(1).map(|m| m.as_str().to_string()),
        None => None,
    }
}

/// The calendar text (`YYYY-MM-DD HH:MM:SS UTC`) of a UTC timestamp in
/// seconds, or `None` where the calendar cannot represent it.
pub uninterp spec fn utc_text(seconds: int) -> Option<Seq<char>>;

/// Relies on `chrono::DateTime::from_timestamp` (None out of range) and on
/// the `Display` of `DateTime<Utc>`; both depend on the seconds alone.
#[verifier::external_body]
fn utc_date_text(seconds: i64) -> (r: Option<String>)
    ensures
        match r {
            Some(s) => utc_text(seconds as int) == Some(s@),
            None => utc_text(seconds as int) is None,
        },
{
    chrono::DateTime::from_timestamp(seconds, 0).map(|d| d.to_string())
}

/// A decimal digit, `0` to `9`.
pub open spec fn is_digit(c: char) -> bool {
    48 <= (c as u32) <= 57
}

/// The value of a decimal digit.
pub open spec fn digit_value(c: char) -> int {
    (c as u32) - 48
}

/// The value of a string of decimal digits.
pub open spec fn decimal_value(s: Seq<char>) -> int
    decreases s.len(),
{
    if s.len() == 0 {
        0
    } else {
        decimal_value(s.drop_last()) * 10 + digit_value(s.last())
    }
}

/// A non-empty string of decimal digits whose value fits an `i64`, read as
/// that value.
pub open spec fn issue_number_of(s: Seq<char>) -> Option<i64> {
    if s.len() > 0 && (forall|k: int| 0 <= k < s.len() ==> is_digit(#[trigger] s[k]))
        && decimal_value(s) <= i64::MAX {
        Some(decimal_value(s) as i64)
    } else {
        None
    }
}

/// The issue linked by a commit message: the first reference's number,
/// absent where there is no reference or its number does not fit.
pub open spec fn linked_issue_of(message: Seq<char>) -> Option<i64> {
    match first_reference(message) {
        Some(digits) => issue_number_of(digits),
        None => None,
    }
}

/// The abbreviated form of a full commit id.
pub open spec fn short_id(full: Seq<char>) -> Seq<char> {
    if full.len() <= SHORT_ID_LEN {
        full
    } else {
        full.take(SHORT_ID_LEN as int)
    }
}

proof fn lemma_decimal_value_nonneg(s: Seq<char>)
    requires
        forall|k: int| 0 <= k < s.len() ==> is_digit(#[trigger] s[k]),
    ensures
        decimal_value(s) >= 0,
    decreases s.len(),
{
    if s.len() > 0 {
        lemma_decimal_value_nonneg(s.drop_last());
    }
}

/// Reads a string of decimal digits as an issue number.
pub fn parse_issue_number(s: &str) -> (r: Option<i64>)
    ensures
        r == issue_number_of(s@),
{
    let n = s.unicode_len();
    if n == 0 {
        return None;
    }
    let mut acc: i64 = 0;
    let mut overflow = false;
    let mut i: usize = 0;
    while i < n
        invariant
            n == s@.len(),
            i <= n,
            forall|k: int| 0 <= k < i ==> is_digit(#[trigger] s@[k]),
            decimal_value(s@.take(i as int)) >= 0,
            !overflow ==> acc == decimal_value(s@.take(i as int)),
            overflow ==> decimal_value(s@.take(i as int)) > i64::MAX,
        decreases n - i,
    {
        let c = s.get_char(i);
        let code = c as u32;
        if code < 48 || code > 57 {
            return None;
        }
        let d = (code - 48) as i64;
        assert(s@.take(i + 1).drop_last() =~= s@.take(i as int));
        let ghost prev = decimal_value(s@.take(i as int));
        assert(decimal_value(s@.take(i + 1)) == prev * 10 + d);
        if !overflow {
            if acc > (i64::MAX - d) / 10 {
                overflow = true;
                assert(prev * 10 + d > i64::MAX) by (nonlinear_arith)
                    requires
                        prev == acc,
                        acc > (i64::MAX - d) / 10,
                        0 <= d <= 9,
                ;
            } else {
                assert(acc * 10 + d <= i64::MAX) by (nonlinear_arith)
                    requires
                        acc <= (i64::MAX - d) / 10,
                        0 <= d <= 9,
                ;
                acc = acc * 10 + d;
            }
        } else {
            assert(prev * 10 + d >= prev) by (nonlinear_arith)
                requires
                    prev >= 0,
                    d >= 0,
            ;
        }
        i = i + 1;
    }
    assert(s@.take(n as int) =~= s@);
    if overflow {
        None
    } else {
        Some(acc)
    }
}

/// The issue linked by a commit message.
pub fn linked_issue(message: &str) -> (r: Option<i64>)
    ensures
        r == linked_issue_of(message@),
{
    match first_capture(ISSUE_PATTERN, message) {
        Some(digits) => parse_issue_number(digits.as_str()),
        None => None,
    }
}

impl Commit {
    /// Builds the record of one commit from what the repository gives:
    /// its full id, summary, author name, time and raw message. `None`
    /// where the time has no calendar form.
    pub fn from_parts(
        full_id: &str,
        summary: Option<String>,
        author: Option<String>,
        seconds: i64,
        message: Option<String>,
    ) -> (r: Option<Commit>)
        ensures
            r is None <==> utc_text(seconds as int) is None,
            r matches Some(c) ==> {
                &&& c.id@ == short_id(full_id@)
                &&& c.summary@ == match summary {
                    Some(s) => s@,
                    None => NO_SUMMARY@,
                }
                &&& c.author@ == match author {
                    Some(a) => a@,
                    None => UNKNOWN_AUTHOR@,
                }
                &&& c.seconds == seconds
                &&& utc_text(seconds as int) == Some(c.date@)
                &&& c.linked_issue == match message {
                    Some(m) => linked_issue_of(m@),
                    None => None,
                }
            },
    {
        let date = match utc_date_text(seconds) {
            Some(d) => d,
            None => return None,
        };
        let len = full_id.unicode_len();
        let keep = if len <= SHORT_ID_LEN { len } else { SHORT_ID_LEN };
        let id = String::from_str(full_id.substring_char(0, keep));
        proof {
            if len <= SHORT_ID_LEN {
                assert(full_id@.subrange(0, keep as int) =~= full_id@);
            }
        }
        let summary = match summary {
            Some(s) => s,
            None => String::from_str(NO_SUMMARY),
        };
        let author = match author {
            Some(a) => a,
            None => String::from_str(UNKNOWN_AUTHOR),
        };
        let linked = match &message {
            Some(m) => linked_issue(m.as_str()),
            None => None,
        };
        Some(Commit { id, summary, author, seconds, date, linked_issue: linked })
    }
}

/// A message without a `#` followed by a digit links no issue.
pub proof fn lemma_no_reference_no_link(message: Seq<char>)
    requires
        forall|i: int| !#[trigger] reference_at(message, i),
    ensures
        linked_issue_of(message) is None,
{
    lemma_no_reference_from(message, 0);
}

proof fn lemma_no_reference_from(h: Seq<char>, i: int)
    requires
        forall|k: int| !#[trigger] reference_at(h, k),
    ensures
        first_reference_from(h, i) is None,
    decreases h.len() - i,
{
    if 0 <= i < h.len() {
        assert(!reference_at(h, i));
        lemma_no_reference_from(h, i + 1);
    }
}

/// The link of a message is read from its first reference alone: where the
/// first `#` followed by a digit stands at `i`, the link is the number of
/// the digits after it, whatever references come later.
pub proof fn lemma_first_reference_wins(message: Seq<char>, i: int)
    requires
        reference_at(message, i),
        forall|k: int| 0 <= k < i ==> !#[trigger] reference_at(message, k),
    ensures
        linked_issue_of(message) == issue_number_of(message.subrange(i + 1, digit_run_end(message, i + 1))),
{
    lemma_first_reference_from(message, 0, i);
}

proof fn lemma_first_reference_from(h: Seq<char>, j: int, i: int)
    requires
        0 <= j <= i,
        reference_at(h, i),
        forall|k: int| 0 <= k < i ==> !#[trigger] reference_at(h, k),
    ensures
        first_reference_from(h, j) == Some(h.subrange(i + 1, digit_run_end(h, i + 1))),
    decreases i - j,
{
    if j < i {
        assert(!reference_at(h, j));
        lemma_first_reference_from(h, j + 1, i);
    }
}

} // verus!
