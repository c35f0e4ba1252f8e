//! Paginated catalog fetch, as a machine that says which page to ask for
//! next and takes each page as it comes back.
use vstd::prelude::*;

use vstd::math::min;

use crate::catalog::System;
use crate::load::{chunk_count, lemma_chunk_count_bounds};

verus! {

/// One listing request: a 1-based page index and the page size.
#[derive(PartialEq, Eq, Structural, Clone, Copy, Debug)]
pub struct PageRequest {
    pub page: u32,
    pub limit: u32,
}

/// Abstract state of a fetch.
pub struct FetchView {
    pub page_size: nat,
    /// Pages taken so far; the next request is for page `received + 1`.
    pub received: nat,
    /// Items of those pages, in the order they came.
    pub items: Seq<System>,
    /// Every page up to the reported total has come.
    pub done: bool,
    /// A page request failed: the fetch is abandoned and yields nothing.
    pub failed: bool,
}

/// The state of a fetch that has asked for nothing yet.
pub open spec fn start(page_size: nat) -> FetchView {
    FetchView { page_size, received: 0, items: Seq::empty(), done: false, failed: false }
}

/// Taking a page: its items are appended, and the fetch is over once
/// `page * page_size` reaches the total that the server reported.
pub open spec fn after_page(v: FetchView, page: Seq<System>, total: nat) -> FetchView {
    FetchView {
        page_size: v.page_size,
        received: v.received + 1,
        items: v.items + page,
        done: (v.received + 1) * v.page_size >= total,
        failed: v.failed,
    }
}

/// A failed page request: the fetch is over, and the pages gathered so far
/// are not handed out.
pub open spec fn after_failure(v: FetchView) -> FetchView {
    FetchView { failed: true, ..v }
}

/// What an upstream holding `all` returns for page `k` of size `size`.
pub open spec fn upstream_page(all: Seq<System>, size: nat, k: nat) -> Seq<System> {
    all.subrange(min(((k - 1) * size) as int, all.len() as int), min((k * size) as int, all.len() as int))
}

/// A fetch run against an upstream holding `all`, for `steps` rounds or until
/// it is over.
pub open spec fn drive(size: nat, all: Seq<System>, steps: nat) -> FetchView
    decreases steps,
{
    if steps == 0 {
        start(size)
    } else {
        let p = drive(size, all, (steps - 1) as nat);
        if p.done {
            p
        } else {
            after_page(p, upstream_page(all, size, p.received + 1), all.len())
        }
    }
}

proof fn lemma_drive_prefix(size: nat, all: Seq<System>, j: nat)
    requires
        size >= 1,
        all.len() >= 1,
        j <= chunk_count(all.len(), size),
    ensures
        drive(size, all, j).page_size == size,
        drive(size, all, j).received == j,
        drive(size, all, j).items == all.subrange(0, min((j * size) as int, all.len() as int)),
        drive(size, all, j).done == (j * size >= all.len() && j >= 1),
    decreases j,
{
    let n = all.len();
    let m = chunk_count(n, size);
    lemma_chunk_count_bounds(n, size);
    if j == 0 {
        assert(all.subrange(0, 0) =~= Seq::<System>::empty());
    } else {
        let k = (j - 1) as nat;
        lemma_drive_prefix(size, all, k);
        let p = drive(size, all, k);
        assert(k * size < n) by (nonlinear_arith)
            requires
                k < m,
                (m - 1) * size < n,
                size >= 1,
        ;
        assert(!p.done);
        assert(j * size == k * size + size) by (nonlinear_arith)
            requires
                j == k + 1,
        ;
        let lo = min((k * size) as int, n as int);
        let hi = min((j * size) as int, n as int);
        assert(upstream_page(all, size, j) == all.subrange(lo, hi));
        assert(all.subrange(0, lo) + all.subrange(lo, hi) =~= all.subrange(0, hi));
    }
}

/// For a catalog of `N >= 1` items and a page size `P >= 1`, the fetch asks
/// for pages `1..=ceil(N/P)` and no more, and ends holding exactly the
/// catalog, in the upstream's order.
pub proof fn lemma_fetch_complete(all: Seq<System>, size: nat)
    requires
        size >= 1,
        all.len() >= 1,
    ensures
        drive(size, all, chunk_count(all.len(), size)).done,
        drive(size, all, chunk_count(all.len(), size)).received == chunk_count(all.len(), size),
        drive(size, all, chunk_count(all.len(), size)).items == all,
        forall|j: nat| j < chunk_count(all.len(), size) ==> !(#[trigger] drive(size, all, j)).done,
{
    let n = all.len();
    let m = chunk_count(n, size);
    lemma_chunk_count_bounds(n, size);
    assert(m >= 1) by (nonlinear_arith)
        requires
            m * size >= n,
            n >= 1,
    ;
    lemma_drive_prefix(size, all, m);
    assert(all.subrange(0, n as int) =~= all);
    assert forall|j: nat| j < m implies !(#[trigger] drive(size, all, j)).done by {
        lemma_drive_prefix(size, all, j);
        assert(j * size < n) by (nonlinear_arith)
            requires
                j < m,
                (m - 1) * size < n,
                size >= 1,
        ;
    }
}

/// An empty catalog ends the fetch after its first page, with no items.
pub proof fn lemma_fetch_empty(size: nat)
    requires
        size >= 1,
    ensures
        drive(size, Seq::empty(), 1).done,
        drive(size, Seq::empty(), 1).items == Seq::<System>::empty(),
{
    let e = Seq::<System>::empty();
    assert(drive(size, e, 0) == start(size));
    assert(upstream_page(e, size, 1) =~= e);
    assert(Seq::<System>::empty() + Seq::<System>::empty() =~= Seq::<System>::empty());
}

/// A catalog fetch in progress.
pub struct CatalogFetch {
    page_size: u32,
    received: u32,
    items: Vec<System>,
    done: bool,
    failed: bool,
}

impl View for CatalogFetch {
    type V = FetchView;

    closed spec fn view(&self) -> FetchView {
        FetchView {
            page_size: self.page_size as nat,
            received: self.received as nat,
            items: self.items@,
            done: self.done,
            failed: self.failed,
        }
    }
}

impl CatalogFetch {
    pub open spec fn wf(&self) -> bool {
        &&& 1 <= self@.page_size <= u32::MAX
        &&& self@.received <= u32::MAX
        &&& !self@.done ==> self@.received < u32::MAX
    }

    /// A fetch with pages of `page_size` items; `None` for a size of zero.
    pub fn new(page_size: u32) -> (r: Option<CatalogFetch>)
        ensures
            r is Some <==> page_size >= 1,
            r matches Some(f) ==> f.wf() && f@ == start(page_size as nat),
    {
        if page_size == 0 {
            None
        } else {
            Some(CatalogFetch { page_size, received: 0, items: Vec::new(), done: false, failed: false })
        }
    }

    /// The page to ask for next, or `None` once the fetch is over, whether
    /// complete or failed.
    pub fn next_request(&self) -> (r: Option<PageRequest>)
        requires
            self.wf(),
        ensures
            (self@.done || self@.failed) ==> r is None,
            !(self@.done || self@.failed) ==> r == Some(
                PageRequest { page: (self@.received + 1) as u32, limit: self@.page_size as u32 },
            ),
    {
        if self.done || self.failed {
            None
        } else {
            Some(PageRequest { page: self.received + 1, limit: self.page_size })
        }
    }

    /// Takes the page just asked for, with the total item count that the
    /// server reported alongside it.
    pub fn accept_page(&mut self, page: Vec<System>, total: u32)
        requires
            old(self).wf(),
            !old(self)@.done,
            !old(self)@.failed,
        ensures
            final(self).wf(),
            final(self)@ == after_page(old(self)@, page@, total as nat),
    {
        let mut page = page;
        let received: u32 = self.received + 1;
        assert(received * self.page_size <= u64::MAX) by (nonlinear_arith)
            requires
                received <= u32::MAX,
                self.page_size <= u32::MAX,
        ;
        let reached: u64 = (received as u64) * (self.page_size as u64);
        self.items.append(&mut page);
        self.received = received;
        self.done = reached >= total as u64;
        assert(!self.done ==> received < u32::MAX) by (nonlinear_arith)
            requires
                self.done == (reached >= total),
                reached == received * self.page_size,
                self.page_size >= 1,
                total <= u32::MAX,
        ;
    }

    /// Records that the page request just made failed: no page is asked for
    /// after it, and the fetch yields no catalog.
    pub fn fail(&mut self)
        requires
            old(self).wf(),
        ensures
            final(self).wf(),
            final(self)@ == after_failure(old(self)@),
    {
        self.failed = true;
    }

    pub fn is_done(&self) -> (r: bool)
        ensures
            r == self@.done,
    {
        self.done
    }

    pub fn is_failed(&self) -> (r: bool)
        ensures
            r == self@.failed,
    {
        self.failed
    }

    /// The whole catalog, in the order the pages came, once every page has
    /// come; `None` while pages are missing or after a failed request.
    pub fn into_catalog(self) -> (r: Option<Vec<System>>)
        ensures
            r is Some <==> (self@.done && !self@.failed),
            r matches Some(items) ==> items@ == self@.items,
    {
        if self.done && !self.failed {
            Some(self.items)
        } else {
            None
        }
    }
}

} // verus!
