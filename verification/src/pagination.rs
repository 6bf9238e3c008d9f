//! Pagination of result lists: which slice is shown, whether it was cut off,
//! and the hint that tells how to see more.
use vstd::prelude::*;
use crate::text::{chars_of, decimal, push_all, push_decimal, push_str, string_from};

verus! {

/// Pagination parameters resolved from the command-line flags.
pub struct Pagination {
    /// Max results to return (`None` = unlimited).
    pub limit: Option<usize>,
    /// Number of results to skip.
    pub offset: usize,
}

/// The result of applying pagination to a result list.
pub struct Paginated<T> {
    /// The visible slice after offset and limit.
    pub items: Vec<T>,
    /// Total number of results before pagination.
    pub total: usize,
    /// The offset that was applied.
    pub offset: usize,
    /// The limit that was applied (`None` = unlimited).
    pub limit: Option<usize>,
}

pub open spec fn min_int(a: int, b: int) -> int {
    if a <= b { a } else { b }
}

/// Where a page starts in a list of `len` results.
pub open spec fn page_start(len: nat, offset: nat) -> int {
    min_int(offset as int, len as int)
}

/// Where a page ends in a list of `len` results.
pub open spec fn page_end(len: nat, offset: nat, limit: Option<usize>) -> int {
    match limit {
        Some(l) => min_int(page_start(len, offset) + l, len as int),
        None => len as int,
    }
}

/// The results that a page shows: skip `offset`, then take at most `limit`.
pub open spec fn page_of<T>(s: Seq<T>, offset: nat, limit: Option<usize>) -> Seq<T> {
    s.subrange(page_start(s.len(), offset), page_end(s.len(), offset, limit))
}

/// The limit that the flags give: none with `--all`; else `--limit`, else the
/// command's default, where a limit of `usize::MAX` means none.
pub open spec fn flag_limit(all: bool, limit: Option<usize>, default_limit: Option<usize>) -> Option<usize> {
    if all {
        None
    } else {
        let n: usize = match limit {
            Some(n) => n,
            None => match default_limit {
                Some(d) => d,
                None => usize::MAX,
            },
        };
        if n < usize::MAX { Some(n) } else { None }
    }
}

impl Pagination {
    /// Resolves the pagination flags of a command with the given default limit.
    pub fn from_flags(all: bool, limit: Option<usize>, offset: usize, default_limit: Option<usize>) -> (r: Pagination)
        ensures
            r.limit == flag_limit(all, limit, default_limit),
            r.offset == offset,
    {
        let l = if all {
            None
        } else {
            let n = match limit {
                Some(n) => n,
                None => match default_limit {
                    Some(d) => d,
                    None => usize::MAX,
                },
            };
            if n < usize::MAX { Some(n) } else { None }
        };
        Pagination { limit: l, offset }
    }
}

impl<T> Paginated<T> {
    /// Results were cut off: more exist after this page.
    pub open spec fn truncated(&self) -> bool {
        self.offset + self.items@.len() < self.total
    }

    /// True when results were cut off (more items exist after this page).
    pub fn was_truncated(&self) -> (r: bool)
        ensures
            r == self.truncated(),
    {
        self.offset < self.total && self.items.len() < self.total - self.offset
    }

    /// True when JSON output uses the paginated envelope: the page was cut
    /// off or starts past the first result.
    pub fn needs_envelope(&self) -> (r: bool)
        ensures
            r == (self.truncated() || self.offset > 0),
    {
        self.was_truncated() || self.offset > 0
    }
}

/// Applies offset and limit to a result list.
pub fn paginate<T>(items: Vec<T>, pg: &Pagination) -> (r: Paginated<T>)
    ensures
        r.items@ == page_of(items@, pg.offset as nat, pg.limit),
        r.total == items@.len(),
        r.offset == pg.offset,
        r.limit == pg.limit,
{
    let ghost all = items@;
    let total = items.len();
    let start = if pg.offset < total { pg.offset } else { total };
    let mut items = items;
    let mut visible = items.split_off(start);
    match pg.limit {
        Some(l) => {
            visible.truncate(l);
        },
        None => {},
    }
    proof {
        assert(visible@ =~= page_of(all, pg.offset as nat, pg.limit));
    }
    Paginated { items: visible, total, offset: pg.offset, limit: pg.limit }
}

/// Two consecutive pages together are the page that spans both.
pub proof fn lemma_consecutive_pages<T>(s: Seq<T>, offset: nat, a: usize, b: usize)
    requires
        a + b <= usize::MAX,
    ensures
        page_of(s, offset, Some(a)) + page_of(s, (offset + a) as nat, Some(b)) == page_of(s, offset, Some((a + b) as usize)),
{
    assert(page_of(s, offset, Some(a)) + page_of(s, (offset + a) as nat, Some(b)) =~= page_of(s, offset, Some((a + b) as usize)));
}

/// A page followed by everything after it is everything from its offset on.
pub proof fn lemma_page_then_rest<T>(s: Seq<T>, offset: nat, a: usize)
    ensures
        page_of(s, offset, Some(a)) + page_of(s, (offset + a) as nat, None) == page_of(s, offset, None),
{
    assert(page_of(s, offset, Some(a)) + page_of(s, (offset + a) as nat, None) =~= page_of(s, offset, None));
}

/// A page was cut off exactly when results remain after it.
pub proof fn lemma_truncated_iff_more<T>(items: Seq<T>, pg: Pagination, page: Paginated<T>)
    requires
        page.items@ == page_of(items, pg.offset as nat, pg.limit),
        page.total == items.len(),
        page.offset == pg.offset,
    ensures
        page.truncated() <==> page_of(items, (pg.offset + page.items@.len()) as nat, None).len() > 0,
{
}

/// The stderr hint for a cut-off page:
/// `cx: SHOWN/TOTAL SUBJECT | NARROW to narrow | --offset NEXT for more | --all`.
pub open spec fn hint_text(total: nat, offset: nat, shown: nat, subject: Seq<char>, narrow_hint: Seq<char>) -> Seq<char> {
    "cx: "@ + decimal(shown) + "/"@ + decimal(total) + " "@ + subject + " | "@ + narrow_hint
        + " to narrow | --offset "@ + decimal(offset + shown) + " for more | --all"@
}

/// Builds the compact pagination hint for stderr.
pub fn pagination_hint(total: usize, offset: usize, shown: usize, subject: &str, narrow_hint: &str) -> (r: String)
    requires
        offset + shown <= usize::MAX,
    ensures
        r@ == hint_text(total as nat, offset as nat, shown as nat, subject@, narrow_hint@),
{
    let next_offset = offset + shown;
    let mut out: Vec<char> = Vec::new();
    push_str(&mut out, "cx: ");
    push_decimal(&mut out, shown);
    push_str(&mut out, "/");
    push_decimal(&mut out, total);
    push_str(&mut out, " ");
    push_str(&mut out, subject);
    push_str(&mut out, " | ");
    push_str(&mut out, narrow_hint);
    push_str(&mut out, " to narrow | --offset ");
    push_decimal(&mut out, next_offset);
    push_str(&mut out, " for more | --all");
    string_from(out.as_slice())
}

} // verus!
