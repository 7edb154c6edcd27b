//! The paginator: drives repeated page fetches and accumulates raw items,
//! under a page guard that is either a finite page count or unbounded.
//! The fetch itself is the collaborator's work; this state machine decides
//! which page to ask for next and when to stop, so its decisions are the
//! verified part. A fetch failure simply abandons the paginator: no partial
//! result is handed on.

use vstd::prelude::*;

use crate::value::RawItem;

verus! {

/// The pagination stopping policy: stop after a fixed page count, or only
/// on an empty page.
#[derive(Clone, Copy, Debug, PartialEq, Eq, Structural)]
pub enum PageGuard {
    Bounded(u64),
    Unbounded,
}

/// Whether the guard forbids fetching any page after `page`.
pub open spec fn page_limit_reached(guard: PageGuard, page: u64) -> bool {
    match guard {
        PageGuard::Bounded(n) => page >= n,
        PageGuard::Unbounded => false,
    }
}

/// A page payload that cannot hold items: the collaborator returned
/// something other than an array.
#[derive(Clone, Copy, Debug, PartialEq, Eq, Structural)]
pub enum FetchError {
    MalformedPage,
}

/// Classifies one fetched page payload: an array yields its items, any
/// other value is a malformed page and aborts the pagination.
pub fn classify_page(payload: RawItem) -> (r: Result<Vec<RawItem>, FetchError>)
    ensures
        match payload {
            RawItem::Array(items) => r == Result::<Vec<RawItem>, FetchError>::Ok(items),
            _ => r == Result::<Vec<RawItem>, FetchError>::Err(FetchError::MalformedPage),
        },
{
    match payload {
        RawItem::Array(items) => Ok(items),
        _ => Err(FetchError::MalformedPage),
    }
}

/// One pagination in progress: the guard, the next page number to ask for
/// (starting at one), whether the run is finished, and the items
/// accumulated so far, in page order.
pub struct Paginator {
    pub guard: PageGuard,
    pub next_page: u64,
    pub done: bool,
    pub items: Vec<RawItem>,
}

impl Paginator {
    /// Starts a pagination at page one with no items; a guard that forbids
    /// even the first page starts finished, so no fetch is ever issued.
    pub fn new(guard: PageGuard) -> (s: Self)
        ensures
            s.guard == guard,
            s.next_page == 1,
            s.done == page_limit_reached(guard, 0),
            s.items@ == Seq::<RawItem>::empty(),
    {
        let done = match guard {
            PageGuard::Bounded(n) => n == 0,
            PageGuard::Unbounded => false,
        };
        Paginator { guard, next_page: 1, done, items: Vec::new() }
    }

    /// The page number to fetch next, or nothing when the run is finished.
    /// A guard that forbids the very first page finishes immediately.
    pub fn next_request(&self) -> (r: Option<u64>)
        ensures
            r == if self.done {
                Option::<u64>::None
            } else {
                Option::<u64>::Some(self.next_page)
            },
    {
        if self.done {
            None
        } else {
            Some(self.next_page)
        }
    }

    /// Feeds back one fetched page: its items are appended in order, the
    /// page number advances by one, and the run finishes exactly when the
    /// page was empty or the guard forbids the next page.
    pub fn accept_page(&mut self, page: Vec<RawItem>)
        requires
            !old(self).done,
            old(self).next_page < u64::MAX,
        ensures
            final(self).guard == old(self).guard,
            final(self).items@ == old(self).items@ + page@,
            final(self).next_page == old(self).next_page + 1,
            final(self).done == (page@.len() == 0 || page_limit_reached(
                old(self).guard,
                old(self).next_page,
            )),
    {
        let empty = page.len() == 0;
        let mut page = page;
        self.items.append(&mut page);
        let limited = match self.guard {
            PageGuard::Bounded(n) => self.next_page >= n,
            PageGuard::Unbounded => false,
        };
        self.done = empty || limited;
        self.next_page = self.next_page + 1;
    }

    /// Whether the run is finished.
    pub fn is_done(&self) -> (r: bool)
        ensures
            r == self.done,
    {
        self.done
    }

    /// Hands out the accumulated items.
    pub fn into_items(self) -> (r: Vec<RawItem>)
        ensures
            r == self.items,
    {
        self.items
    }
}

} // verus!
