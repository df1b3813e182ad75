//! Page identifiers and their sentinel encoding of "no page".
use vstd::prelude::*;

verus! {

/// The bit pattern that stands for "no page".
pub const INVALID_PAGE_ID: u64 = u64::MAX;

/// The identifier of a physical page.
#[derive(Clone, Copy, Debug, PartialEq, Eq, Structural, Hash)]
pub struct PageId(pub u64);

/// The optional identifier that a stored identifier stands for.
pub open spec fn decode_page_id(p: PageId) -> Option<PageId> {
    if p.0 == INVALID_PAGE_ID {
        None
    } else {
        Some(p)
    }
}

/// The identifier stored for an optional one: the sentinel for `None`.
pub open spec fn encode_page_id(o: Option<PageId>) -> PageId {
    match o {
        Some(p) => p,
        None => PageId(INVALID_PAGE_ID),
    }
}

impl PageId {
    /// The identifier that stands for "no page".
    pub fn invalid() -> (r: PageId)
        ensures
            r.0 == INVALID_PAGE_ID,
    {
        PageId(INVALID_PAGE_ID)
    }

    /// `None` for the sentinel, the identifier itself otherwise.
    pub fn valid(self) -> (r: Option<PageId>)
        ensures
            r == decode_page_id(self),
    {
        if self.0 == INVALID_PAGE_ID {
            None
        } else {
            Some(self)
        }
    }

    /// The stored form of an optional identifier.
    pub fn from_option(o: Option<PageId>) -> (r: PageId)
        ensures
            r == encode_page_id(o),
    {
        match o {
            Some(p) => p,
            None => PageId(INVALID_PAGE_ID),
        }
    }
}

/// Storing an optional identifier and reading it back gives it unchanged,
/// unless it is the sentinel itself wrapped in `Some`.
pub proof fn lemma_page_id_round_trip(o: Option<PageId>)
    requires
        o matches Some(p) ==> p.0 != INVALID_PAGE_ID,
    ensures
        decode_page_id(encode_page_id(o)) == o,
{
}

} // verus!
