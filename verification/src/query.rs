//! The query filter builder: transaction statuses, the two optional list
//! facets (free-text search and status), and pagination normalisation.

use vstd::prelude::*;
use crate::text::str_eq;

verus! {

/// The closed set of transaction statuses. Nothing outside this set is
/// ever written to or matched against a stored transaction.
#[derive(Clone, Copy, Debug, PartialEq, Eq, Structural)]
pub enum Status {
    Pending,
    Settled,
    Failed,
}

impl Status {
    /// The canonical text of the status.
    pub open spec fn spec_text(self) -> Seq<char> {
        match self {
            Status::Pending => "pending"@,
            Status::Settled => "settled"@,
            Status::Failed => "failed"@,
        }
    }

    /// Renders the status as its canonical text.
    pub fn as_text(self) -> (r: &'static str)
        ensures
            r@ == self.spec_text(),
    {
        match self {
            Status::Pending => "pending",
            Status::Settled => "settled",
            Status::Failed => "failed",
        }
    }
}

/// The status named by `s`, or `None` for any text outside the closed set.
pub open spec fn spec_status_of(s: Seq<char>) -> Option<Status> {
    if s == "pending"@ {
        Some(Status::Pending)
    } else if s == "settled"@ {
        Some(Status::Settled)
    } else if s == "failed"@ {
        Some(Status::Failed)
    } else {
        None
    }
}

/// Parses a status name; unknown names yield `None`, never an error.
pub fn status_of_text(s: &str) -> (r: Option<Status>)
    ensures
        r == spec_status_of(s@),
{
    if str_eq(s, "pending") {
        Some(Status::Pending)
    } else if str_eq(s, "settled") {
        Some(Status::Settled)
    } else if str_eq(s, "failed") {
        Some(Status::Failed)
    } else {
        None
    }
}

/// The raw, optional listing parameters as a client supplies them.
#[derive(Debug)]
pub struct TransactionQuery {
    pub search: Option<String>,
    pub filter: Option<String>,
    pub page: Option<i32>,
    pub limit: Option<i32>,
}

/// Normalised pagination: `page` floored at 1, `limit` clamped into
/// [1, 100], `offset` the product of the two.
#[derive(Clone, Copy, Debug, PartialEq, Eq, Structural)]
pub struct Pagination {
    pub page: i32,
    pub limit: i32,
    pub offset: u64,
}

/// The effective page: the requested page floored at 1, defaulting to 1.
pub open spec fn spec_page(q: TransactionQuery) -> int {
    match q.page {
        Some(p) => if p < 1 {
            1
        } else {
            p as int
        },
        None => 1,
    }
}

/// The effective page size: the requested limit clamped into [1, 100],
/// defaulting to 10.
pub open spec fn spec_limit(q: TransactionQuery) -> int {
    match q.limit {
        Some(l) => if l < 1 {
            1
        } else if l > 100 {
            100
        } else {
            l as int
        },
        None => 10,
    }
}

/// Normalises the client-supplied page and limit. A page below 1 behaves
/// exactly like page 1, and a limit outside [1, 100] is clamped into
/// range; neither is ever rejected.
pub fn paginate(q: &TransactionQuery) -> (r: Pagination)
    ensures
        r.page as int == spec_page(*q),
        r.limit as int == spec_limit(*q),
        r.offset as int == (spec_page(*q) - 1) * spec_limit(*q),
        1 <= r.page,
        1 <= r.limit <= 100,
{
    let page: i32 = match q.page {
        Some(p) => if p < 1 {
            1
        } else {
            p
        },
        None => 1,
    };
    let limit: i32 = match q.limit {
        Some(l) => if l < 1 {
            1
        } else if l > 100 {
            100
        } else {
            l
        },
        None => 10,
    };
    proof {
        assert((page - 1) * limit <= 2147483646int * 100) by (nonlinear_arith)
            requires 1 <= page <= 2147483647 && 1 <= limit <= 100;
        assert((page - 1) * limit >= 0) by (nonlinear_arith)
            requires page >= 1 && limit >= 1;
    }
    let offset: u64 = (page as u64 - 1) * (limit as u64);
    Pagination { page, limit, offset }
}

/// The validated list filter: an optional free-text needle and an
/// optional status, the two independent facets of a listing query.
#[derive(Debug)]
pub struct ListFilter {
    pub search: Option<String>,
    pub status: Option<Status>,
}

/// The text facet of a query: the search text's characters, if any.
pub open spec fn spec_search_facet(q: TransactionQuery) -> Option<Seq<char>> {
    match q.search {
        Some(s) => Some(s@),
        None => None,
    }
}

/// The status facet of a query: a recognised status name, with any
/// unknown name silently dropped rather than rejected.
pub open spec fn spec_status_facet(q: TransactionQuery) -> Option<Status> {
    match q.filter {
        Some(f) => spec_status_of(f@),
        None => None,
    }
}

/// Builds the validated filter from raw parameters: the search text is
/// kept as given, and the status facet keeps only a recognised status
/// name. An unknown `filter` value is treated as if no status filter had
/// been supplied at all.
pub fn build_filter(q: &TransactionQuery) -> (r: ListFilter)
    ensures
        (match r.search {
            Some(s) => spec_search_facet(*q) == Some(s@),
            None => spec_search_facet(*q) is None,
        }),
        r.status == spec_status_facet(*q),
{
    let search = match &q.search {
        Some(s) => Some(s.clone()),
        None => None,
    };
    let status = match &q.filter {
        Some(f) => status_of_text(f.as_str()),
        None => None,
    };
    ListFilter { search, status }
}

/// A page below 1 behaves exactly like page 1: the two queries normalise
/// to the same effective page, and with equal limits to the same offset,
/// so every listing treats them identically.
pub proof fn lemma_low_page_like_first(q: TransactionQuery, first: TransactionQuery)
    requires
        q.page matches Some(p) && p < 1,
        first.page == Some(1i32) || first.page is None,
    ensures
        spec_page(q) == spec_page(first),
{
}

/// A status filter value outside the closed status set is the same as
/// supplying no status filter at all: both queries carry the empty status
/// facet, so every listing treats them identically.
pub proof fn lemma_unknown_status_is_no_filter(q: TransactionQuery, bare: TransactionQuery)
    requires
        q.filter is Some,
        spec_status_of(q.filter->0@) is None,
        bare.filter is None,
    ensures
        spec_status_facet(q) == spec_status_facet(bare),
{
}

} // verus!
