//! The administration side of the SEO engine: paging of the schema listings (whose next
//! cursor is `wms::next_after`) and the body of a file upload.
use vstd::prelude::*;

verus! {

/// The body of a file upload: the file's bytes.
pub struct AdminFileUpload {
    pub file: Vec<u8>,
}

/// The paging query of the schema listings.
#[derive(Clone, Debug, Default)]
pub struct QueryPagingInput {
    pub after: Option<i64>,
    pub limit: Option<u64>,
}

/// A schema page request with its defaults filled in.
#[derive(Clone, Copy, Debug, PartialEq, Eq, Structural)]
pub struct Page {
    pub after: i64,
    pub limit: u64,
}

/// Why a schema page request is refused: it asked for more than 100 rows, as many as
/// the field holds.
#[derive(Clone, Copy, Debug, PartialEq, Eq, Structural)]
pub struct LimitTooLarge(pub u64);

/// The rows per schema page when the query does not say.
pub const DEFAULT_LIMIT: u64 = 10;

/// The most rows a schema page may hold.
pub const MAX_LIMIT: u64 = 100;

impl QueryPagingInput {
    /// The page asked for: after row `0` and 10 rows unless the query says otherwise; more
    /// than 100 rows are refused.
    pub fn page(&self) -> (r: Result<Page, LimitTooLarge>)
        ensures
            ({
                let limit = match self.limit { Some(l) => l, None => 10 };
                let after = match self.after { Some(a) => a, None => 0 };
                &&& limit > 100 ==> r == Err::<Page, LimitTooLarge>(LimitTooLarge(limit))
                &&& limit <= 100 ==> r == Ok::<Page, LimitTooLarge>(Page { after, limit })
            }),
    {
        let after = match self.after {
            Some(a) => a,
            None => 0,
        };
        let limit = match self.limit {
            Some(l) => l,
            None => DEFAULT_LIMIT,
        };
        if limit > MAX_LIMIT {
            Err(LimitTooLarge(limit))
        } else {
            Ok(Page { after, limit })
        }
    }
}

} // verus!
