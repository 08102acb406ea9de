//! The grid: a square of pages, stepped page by page in parallel, with the
//! cross-page events routed between the two parallel phases of a step.
use crate::cell::{Cell, CellType};
use crate::page::{
    index_of, Page, PageView, RemoteChangeView, RemoteSignal, PAGE_SIZE, PAGE_WIDTH,
};
use rayon::iter::{IntoParallelRefMutIterator, ParallelIterator};
use vstd::prelude::*;

verus! {

/// Pages per side stay below this bound, so a step's count fits a `u32`.
pub const MAX_PAGES_PER_SIDE: u32 = 1024;

pub open spec fn page_views(pages: Seq<Page>) -> Seq<PageView> {
    pages.map_values(|p: Page| p@)
}

pub open spec fn all_wf(pages: Seq<Page>) -> bool {
    forall|k: int| 0 <= k < pages.len() ==> (#[trigger] pages[k]).wf()
}

/// Relies on rayon's `par_iter_mut().for_each`: the closure runs once on
/// every page.
#[verifier::external_body]
fn grow_pages(pages: &mut Vec<Page>)
    requires
        all_wf(old(pages)@),
    ensures
        final(pages)@.len() == old(pages)@.len(),
        all_wf(final(pages)@),
        forall|k: int|
            0 <= k < old(pages)@.len() ==> (#[trigger] final(pages)@[k])@ == old(pages)@[k]@.grown(),
{
    pages.par_iter_mut().for_each(|page| page.grow());
}

/// Relies on rayon's `par_iter_mut().for_each`: the closure runs once on
/// every page.
#[verifier::external_body]
fn update_pages(pages: &mut Vec<Page>)
    requires
        all_wf(old(pages)@),
    ensures
        final(pages)@.len() == old(pages)@.len(),
        all_wf(final(pages)@),
        forall|k: int|
            0 <= k < old(pages)@.len() ==> (#[trigger] final(pages)@[k])@ == old(pages)@[k]@.updated(),
{
    pages.par_iter_mut().for_each(|page| page.update());
}

/// Relies on rayon's `par_iter_mut().for_each`: the closure runs once on
/// every page.
#[verifier::external_body]
fn signal_pages(pages: &mut Vec<Page>)
    requires
        all_wf(old(pages)@),
    ensures
        final(pages)@.len() == old(pages)@.len(),
        all_wf(final(pages)@),
        forall|k: int|
            0 <= k < old(pages)@.len() ==> (#[trigger] final(pages)@[k])@
                == old(pages)@[k]@.signalled(),
{
    pages.par_iter_mut().for_each(|page| page.signal());
}

/// Relies on rayon's `par_iter_mut().map(..).collect()`: the closure runs once
/// on every page and the results are collected in page order.
#[verifier::external_body]
fn update_signal_pages(pages: &mut Vec<Page>) -> (r: Vec<u32>)
    requires
        all_wf(old(pages)@),
    ensures
        final(pages)@.len() == old(pages)@.len(),
        r@.len() == old(pages)@.len(),
        all_wf(final(pages)@),
        forall|k: int|
            0 <= k < old(pages)@.len() ==> (#[trigger] final(pages)@[k])@
                == old(pages)@[k]@.signals_delivered() && r@[k] as nat == final(pages)@[k]@.active.len(),
{
    pages.par_iter_mut().map(|page| page.update_signal()).collect()
}

/// The page that holds global `(x, y)`.
pub open spec fn page_index(x: int, y: int, pages_per_side: int) -> int {
    x / (PAGE_WIDTH as int) + (y / (PAGE_WIDTH as int)) * pages_per_side
}

/// Cross-page events are applied only strictly inside `(0, dimension)` on
/// both axes.
pub open spec fn routed(x: int, y: int, dimension: int) -> bool {
    0 < x < dimension && 0 < y < dimension
}

/// Page `k` sits at column `k % side` and row `k / side` of pages.
pub open spec fn laid_out(pages: Seq<PageView>, side: u32) -> bool {
    forall|k: int|
        0 <= k < pages.len() ==> (#[trigger] pages[k]).offset_x == (k % side as int) * PAGE_WIDTH
            && pages[k].offset_y == (k / side as int) * PAGE_WIDTH
}

/// The grid as mathematical values.
pub struct GridView {
    pub pages: Seq<PageView>,
    pub dimension: u32,
    pub pages_per_side: u32,
}

/// A remote change delivered to the page that owns its target.
pub open spec fn route_change(pages: Seq<PageView>, dim: u32, side: u32, c: RemoteChangeView) -> Seq<PageView> {
    if routed(c.x as int, c.y as int, dim as int) {
        let k = page_index(c.x as int, c.y as int, side as int);
        pages.update(
            k,
            pages[k].with_remote_change(
                c.x as int % PAGE_WIDTH as int,
                c.y as int % PAGE_WIDTH as int,
                c.cell.cell_type,
                c.travel_direction,
                c.stim,
            ),
        )
    } else {
        pages
    }
}

pub open spec fn route_changes(pages: Seq<PageView>, dim: u32, side: u32, cs: Seq<RemoteChangeView>) -> Seq<
    PageView,
>
    decreases cs.len(),
{
    if cs.len() == 0 {
        pages
    } else {
        route_change(route_changes(pages, dim, side, cs.drop_last()), dim, side, cs.last())
    }
}

/// The remote changes of the first `n` source pages, routed in page order.
pub open spec fn drain_changes(pages: Seq<PageView>, dim: u32, side: u32, sources: Seq<PageView>, n: nat) -> Seq<
    PageView,
>
    decreases n,
{
    if n == 0 {
        pages
    } else {
        route_changes(
            drain_changes(pages, dim, side, sources, (n - 1) as nat),
            dim,
            side,
            sources[n - 1].remote_changes,
        )
    }
}

/// A remote signal delivered to the page that owns its target.
pub open spec fn route_signal(pages: Seq<PageView>, dim: u32, side: u32, s: RemoteSignal) -> Seq<PageView> {
    if routed(s.x as int, s.y as int, dim as int) {
        let k = page_index(s.x as int, s.y as int, side as int);
        pages.update(
            k,
            pages[k].with_remote_signal(
                s.x as int % PAGE_WIDTH as int,
                s.y as int % PAGE_WIDTH as int,
                s.strength,
                s.stim,
            ),
        )
    } else {
        pages
    }
}

pub open spec fn route_signals(pages: Seq<PageView>, dim: u32, side: u32, ss: Seq<RemoteSignal>) -> Seq<
    PageView,
>
    decreases ss.len(),
{
    if ss.len() == 0 {
        pages
    } else {
        route_signal(route_signals(pages, dim, side, ss.drop_last()), dim, side, ss.last())
    }
}

/// The remote signals of the first `n` source pages, routed in page order.
pub open spec fn drain_signals(pages: Seq<PageView>, dim: u32, side: u32, sources: Seq<PageView>, n: nat) -> Seq<
    PageView,
>
    decreases n,
{
    if n == 0 {
        pages
    } else {
        route_signals(
            drain_signals(pages, dim, side, sources, (n - 1) as nat),
            dim,
            side,
            sources[n - 1].remote_signal,
        )
    }
}

/// The number of pending local changes in the first `n` pages.
pub open spec fn pending_total(pages: Seq<PageView>, n: nat) -> nat
    decreases n,
{
    if n == 0 {
        0
    } else {
        pending_total(pages, (n - 1) as nat) + pages[n - 1].changes.len()
    }
}

/// The number of active cells in the first `n` pages.
pub open spec fn active_total(pages: Seq<PageView>, n: nat) -> nat
    decreases n,
{
    if n == 0 {
        0
    } else {
        active_total(pages, (n - 1) as nat) + pages[n - 1].active.len()
    }
}

impl GridView {
    pub open spec fn well_formed(self) -> bool {
        &&& 1 <= self.pages_per_side < MAX_PAGES_PER_SIDE
        &&& self.dimension == self.pages_per_side * PAGE_WIDTH
        &&& self.pages.len() == self.pages_per_side * self.pages_per_side
        &&& laid_out(self.pages, self.pages_per_side)
    }

    /// Every page after its growth kernel.
    pub open spec fn kernels_grown(self) -> Seq<PageView> {
        Seq::new(self.pages.len(), |k: int| self.pages[k].grown())
    }

    /// One growth step: every page runs its growth kernel, the remote changes
    /// are routed to their pages in page order, then every page applies its
    /// pending changes.
    #[verifier::opaque]
    pub open spec fn grow_stepped(self) -> GridView {
        let g = self.kernels_grown();
        let d = drain_changes(g, self.dimension, self.pages_per_side, g, g.len());
        GridView { pages: Seq::new(d.len(), |k: int| d[k].updated()), ..self }
    }

    /// The count a growth step returns: the pending local changes of all
    /// pages right after their kernels.
    pub open spec fn grow_count(self) -> nat {
        pending_total(self.kernels_grown(), self.pages.len())
    }

    pub open spec fn kernels_signalled(self) -> Seq<PageView> {
        Seq::new(self.pages.len(), |k: int| self.pages[k].signalled())
    }

    /// One signal step: every page runs its signal kernel, the remote signals
    /// are routed to their pages in page order, then every page delivers its
    /// pending local signals.
    #[verifier::opaque]
    pub open spec fn signal_stepped(self) -> GridView {
        let g = self.kernels_signalled();
        let d = drain_signals(g, self.dimension, self.pages_per_side, g, g.len());
        GridView { pages: Seq::new(d.len(), |k: int| d[k].signals_delivered()), ..self }
    }

    /// Every page's active cells and pending growth are of non-EMPTY types.
    pub open spec fn growth_ready(self) -> bool {
        forall|k: int| 0 <= k < self.pages.len() ==> (#[trigger] self.pages[k]).growth_ready()
    }
}

/// A square of `pages_per_side * pages_per_side` pages, page `k` covering
/// global columns from `(k % pages_per_side) * PAGE_WIDTH` and rows from
/// `(k / pages_per_side) * PAGE_WIDTH`.
pub struct Grid {
    pages: Vec<Page>,
    dimension: u32,
    pages_per_side: u32,
}

impl View for Grid {
    type V = GridView;

    closed spec fn view(&self) -> GridView {
        GridView {
            pages: page_views(self.pages@),
            dimension: self.dimension,
            pages_per_side: self.pages_per_side,
        }
    }
}

proof fn lemma_page_index_bound(x: int, y: int, s: int)
    requires
        0 <= x < s * 64,
        0 <= y < s * 64,
        1 <= s,
    ensures
        0 <= page_index(x, y, s) < s * s,
{
    assert(x / 64 < s) by (nonlinear_arith)
        requires
            0 <= x < s * 64,
    ;
    assert(y / 64 < s) by (nonlinear_arith)
        requires
            0 <= y < s * 64,
    ;
    assert(0 <= (y / 64) * s <= (s - 1) * s) by (nonlinear_arith)
        requires
            0 <= y / 64 < s,
    ;
    assert((s - 1) * s + s == s * s) by (nonlinear_arith);
}

impl Grid {
    pub open spec fn wf(&self) -> bool {
        &&& self@.well_formed()
        &&& all_wf(self.pages_view_exec())
    }

    pub closed spec fn pages_view_exec(&self) -> Seq<Page> {
        self.pages@
    }

    /// A grid of `size * size` pages, each seeded from `seed` and its offsets
    /// and given `body_count` bodies (see `Page::new`).
    pub fn new(size: u32, body_count: u32, seed: &[usize]) -> (r: Grid)
        requires
            1 <= size < MAX_PAGES_PER_SIDE,
        ensures
            r.wf(),
            r@.pages_per_side == size,
            r@.dimension == size * PAGE_WIDTH,
            r@.grows_soundly(),
            forall|k: int| 0 <= k < r@.pages.len() ==> (#[trigger] r@.pages[k]).changes.is_empty(),
            forall|k: int|
                0 <= k < r@.pages.len() ==> (#[trigger] r@.pages[k]).seeded(
                    body_count as nat,
                    ((k % size as int) * PAGE_WIDTH) as u32,
                    ((k / size as int) * PAGE_WIDTH) as u32,
                ),
    {
        assert(size * size < 0x100000) by (nonlinear_arith)
            requires
                size < MAX_PAGES_PER_SIDE,
        ;
        let num_pages = size * size;
        let mut pages: Vec<Page> = Vec::new();
        let mut i: u32 = 0;
        while i < num_pages
            invariant
                1 <= size < MAX_PAGES_PER_SIDE,
                num_pages == size * size,
                i <= num_pages,
                pages@.len() == i,
                all_wf(pages@),
                forall|k: int|
                    0 <= k < i ==> (#[trigger] pages@[k])@.growth_ready()
                        && pages@[k]@.changes.is_empty()
                        && pages@[k]@.offset_x == (k % size as int) * PAGE_WIDTH
                        && pages@[k]@.offset_y == (k / size as int) * PAGE_WIDTH
                        && pages@[k]@.seeded(
                        body_count as nat,
                        ((k % size as int) * PAGE_WIDTH) as u32,
                        ((k / size as int) * PAGE_WIDTH) as u32,
                    ),
            decreases num_pages - i,
        {
            assert(i / size < size) by (nonlinear_arith)
                requires
                    i < size * size,
                    size >= 1,
            ;
            assert((i / size) * PAGE_WIDTH < 0x10000 && (i % size) * PAGE_WIDTH < 0x10000)
                by (nonlinear_arith)
                requires
                    i / size < size,
                    size < MAX_PAGES_PER_SIDE,
                    size >= 1,
            ;
            let offset_x = (i % size) * PAGE_WIDTH;
            let offset_y = (i / size) * PAGE_WIDTH;
            pages.push(Page::new(body_count, offset_x, offset_y, seed));
            i = i + 1;
        }
        let r = Grid { pages: pages, dimension: size * PAGE_WIDTH, pages_per_side: size };
        proof {
            assert forall|k: int| 0 <= k < r@.pages.len() implies (#[trigger] r@.pages[k]).growth_ready()
                && r@.pages[k].changes.is_empty() && r@.pages[k].well_formed()
                && r@.pages[k].pending_in_empty() by {
                assert(r@.pages[k] == pages@[k]@);
                assert(pages@[k].wf());
                assert(r@.pages[k].changes.dom() =~= Set::empty());
            }
            assert(laid_out(r@.pages, size));
        }
        r
    }

    fn page_of(&self, x: u32, y: u32) -> (r: usize)
        requires
            self.wf(),
            x < self@.dimension,
            y < self@.dimension,
        ensures
            r == page_index(x as int, y as int, self@.pages_per_side as int),
            r < self@.pages.len(),
    {
        proof {
            lemma_page_index_bound(x as int, y as int, self.pages_per_side as int);
            let s = self.pages_per_side as int;
            assert(s * s < 0x100000) by (nonlinear_arith)
                requires
                    1 <= s < MAX_PAGES_PER_SIDE,
            ;
        }
        (x / PAGE_WIDTH + (y / PAGE_WIDTH) * self.pages_per_side) as usize
    }

    /// The cell at global `(x, y)`.
    pub fn get_cell(&self, x: u32, y: u32) -> (r: &Cell)
        requires
            self.wf(),
            x < self@.dimension,
            y < self@.dimension,
        ensures
            r@ == self@.pages[page_index(x as int, y as int, self@.pages_per_side as int)].cells[index_of(
                x as int % PAGE_WIDTH as int,
                y as int % PAGE_WIDTH as int,
            )],
    {
        let i = self.page_of(x, y);
        assert(self.pages@[i as int].wf());
        self.pages[i].get_cell(x % PAGE_WIDTH, y % PAGE_WIDTH)
    }
}

proof fn lemma_route_changes_frame(pages: Seq<PageView>, dim: u32, side: u32, cs: Seq<RemoteChangeView>)
    requires
        1 <= side < MAX_PAGES_PER_SIDE,
        dim == side * PAGE_WIDTH,
        pages.len() == side * side,
    ensures
        route_changes(pages, dim, side, cs).len() == pages.len(),
        forall|k: int|
            0 <= k < pages.len() ==> (#[trigger] route_changes(pages, dim, side, cs)[k]).remote_changes
                == pages[k].remote_changes && route_changes(pages, dim, side, cs)[k].offset_x == pages[k].offset_x
                && route_changes(pages, dim, side, cs)[k].offset_y == pages[k].offset_y,
    decreases cs.len(),
{
    if cs.len() > 0 {
        lemma_route_changes_frame(pages, dim, side, cs.drop_last());
        let c = cs.last();
        if routed(c.x as int, c.y as int, dim as int) {
            lemma_page_index_bound(c.x as int, c.y as int, side as int);
        }
    }
}

proof fn lemma_drain_changes_frame(pages: Seq<PageView>, dim: u32, side: u32, sources: Seq<PageView>, n: nat)
    requires
        1 <= side < MAX_PAGES_PER_SIDE,
        dim == side * PAGE_WIDTH,
        pages.len() == side * side,
    ensures
        drain_changes(pages, dim, side, sources, n).len() == pages.len(),
        forall|k: int|
            0 <= k < pages.len() ==> (#[trigger] drain_changes(pages, dim, side, sources, n)[k]).remote_changes
                == pages[k].remote_changes && drain_changes(pages, dim, side, sources, n)[k].offset_x == pages[k].offset_x
                && drain_changes(pages, dim, side, sources, n)[k].offset_y == pages[k].offset_y,
    decreases n,
{
    if n > 0 {
        lemma_drain_changes_frame(pages, dim, side, sources, (n - 1) as nat);
        lemma_route_changes_frame(
            drain_changes(pages, dim, side, sources, (n - 1) as nat),
            dim,
            side,
            sources[n - 1].remote_changes,
        );
    }
}

impl Grid {
    proof fn lemma_view_pages(&self)
        ensures
            self@.pages.len() == self.pages@.len(),
            forall|k: int| 0 <= k < self.pages@.len() ==> #[trigger] self@.pages[k] == self.pages@[k]@,
    {
    }

    /// Routes every page's remote changes, in page order and queue order, to
    /// the pages that own their targets.
    fn route_remote_changes(&mut self)
        requires
            old(self).wf(),
        ensures
            final(self).wf(),
            final(self)@ == (GridView {
                pages: drain_changes(old(self)@.pages, old(self)@.dimension, old(self)@.pages_per_side, old(self)@.pages, old(self)@.pages.len()),
                ..old(self)@
            }),
    {
        let ghost start = self@;
        let n = self.pages.len();
        let mut k: usize = 0;
        while k < n
            invariant
                self.wf(),
                start.well_formed(),
                n == start.pages.len(),
                k <= n,
                self.dimension == start.dimension,
                self.pages_per_side == start.pages_per_side,
                self@.pages == drain_changes(start.pages, start.dimension, start.pages_per_side, start.pages, k as nat),
            decreases n - k,
        {
            proof {
                self.lemma_view_pages();
                lemma_drain_changes_frame(start.pages, start.dimension, start.pages_per_side, start.pages, k as nat);
            }
            let ghost base = self@.pages;
            let ghost cs = start.pages[k as int].remote_changes;
            assert(self@.pages[k as int].remote_changes == cs);
            assert(self.pages@[k as int]@.remote_changes == cs);
            let m = self.pages[k].get_remote_changes().len();
            assert(cs.len() == m);
            let mut j: usize = 0;
            while j < m
                invariant
                    self.wf(),
                    start.well_formed(),
                    n == start.pages.len(),
                    k < n,
                    j <= m,
                    m == cs.len(),
                    cs == start.pages[k as int].remote_changes,
                    base.len() == n,
                    base == drain_changes(start.pages, start.dimension, start.pages_per_side, start.pages, k as nat),
                    self.dimension == start.dimension,
                    self.pages_per_side == start.pages_per_side,
                    self@.pages == route_changes(base, start.dimension, start.pages_per_side, cs.take(j as int)),
                decreases m - j,
            {
                proof {
                    self.lemma_view_pages();
                    lemma_drain_changes_frame(start.pages, start.dimension, start.pages_per_side, start.pages, k as nat);
                    lemma_route_changes_frame(base, start.dimension, start.pages_per_side, cs.take(j as int));
                    assert(self@.pages[k as int].remote_changes == cs);
                }
                let c = self.pages[k].get_remote_changes()[j];
                let ghost before = self@.pages;
                proof {
                    assert(c@ == cs[j as int]);
                    assert(cs.take(j as int + 1).drop_last() =~= cs.take(j as int));
                    assert(cs.take(j as int + 1).last() == cs[j as int]);
                }
                if c.x > 0 && c.x < self.dimension && c.y > 0 && c.y < self.dimension {
                    let idx = self.page_of(c.x, c.y);
                    proof {
                        assert(self.pages@[idx as int].wf());
                    }
                    self.pages[idx].add_change(
                        c.x % PAGE_WIDTH,
                        c.y % PAGE_WIDTH,
                        c.cell,
                        c.travel_direction,
                        c.stim,
                    );
                    proof {
                        self.lemma_view_pages();
                        assert(self@.pages =~= before.update(
                            idx as int,
                            before[idx as int].with_remote_change(
                                c.x as int % PAGE_WIDTH as int,
                                c.y as int % PAGE_WIDTH as int,
                                c.cell@.cell_type,
                                c.travel_direction,
                                c.stim,
                            ),
                        ));
                    }
                }
                j = j + 1;
            }
            proof {
                assert(cs.take(m as int) =~= cs);
            }
            k = k + 1;
        }
    }

    /// One growth step: every page runs its growth kernel (in parallel), the
    /// remote changes are routed to their pages, then every page applies its
    /// pending changes (in parallel). Returns the number of pending local
    /// changes right after the kernels.
    pub fn grow_step(&mut self) -> (r: u32)
        requires
            old(self).wf(),
        ensures
            final(self).wf(),
            final(self)@ == old(self)@.grow_stepped(),
            r as nat == old(self)@.grow_count(),
            final(self)@.pages_per_side == old(self)@.pages_per_side,
            final(self)@.dimension == old(self)@.dimension,
            forall|k: int|
                0 <= k < final(self)@.pages.len() ==> (#[trigger] final(self)@.pages[k]).changes.is_empty()
                    && final(self)@.pages[k].remote_changes.len() == 0,
            old(self)@.grows_soundly() ==> final(self)@.grows_soundly(),
    {
        let ghost start = self@;
        proof {
            if start.grows_soundly() {
                lemma_grow_step_fills_empty_cells(start);
            }
        }
        grow_pages(&mut self.pages);
        proof {
            self.lemma_view_pages();
            assert(self@.pages =~= start.kernels_grown());
            assert forall|k: int| 0 <= k < self@.pages.len() implies (#[trigger] self@.pages[k]).offset_x
                == start.pages[k].offset_x && self@.pages[k].offset_y == start.pages[k].offset_y by {
                crate::page::lemma_grow_all_frame(start.pages[k], start.pages[k].active_order());
            }
            assert(laid_out(self@.pages, self@.pages_per_side));
        }
        let ghost grown = self@;
        let n = self.pages.len();
        let mut active_cells: u32 = 0;
        let mut k: usize = 0;
        while k < n
            invariant
                self.wf(),
                self@ == grown,
                grown.well_formed(),
                n == grown.pages.len(),
                k <= n,
                active_cells as nat == pending_total(grown.pages, k as nat),
                active_cells <= PAGE_SIZE * k,
            decreases n - k,
        {
            proof {
                self.lemma_view_pages();
                assert(n <= 1046529) by (nonlinear_arith)
                    requires
                        n == grown.pages_per_side * grown.pages_per_side,
                        grown.pages_per_side < MAX_PAGES_PER_SIDE,
                ;
                assert(self.pages@[k as int].wf());
                crate::page::lemma_index_set_bound(self@.pages[k as int].changes.dom());
            }
            let c = self.pages[k].get_active_cell_count();
            assert(c <= PAGE_SIZE);
            assert(PAGE_SIZE * k + PAGE_SIZE <= PAGE_SIZE * n);
            active_cells = active_cells + c;
            k = k + 1;
        }
        self.route_remote_changes();
        let ghost routed_pages = self@.pages;
        update_pages(&mut self.pages);
        proof {
            self.lemma_view_pages();
            lemma_grow_stepped_layout(start);
            reveal(GridView::grow_stepped);
            assert(self@.pages =~= start.grow_stepped().pages);
            assert forall|k: int| 0 <= k < self@.pages.len() implies (#[trigger] self@.pages[k]).changes.is_empty()
                && self@.pages[k].remote_changes.len() == 0 by {
                assert(self@.pages[k].changes =~= Map::empty());
            }
        }
        active_cells
    }
}

proof fn lemma_route_signals_frame(pages: Seq<PageView>, dim: u32, side: u32, ss: Seq<RemoteSignal>)
    requires
        1 <= side < MAX_PAGES_PER_SIDE,
        dim == side * PAGE_WIDTH,
        pages.len() == side * side,
    ensures
        route_signals(pages, dim, side, ss).len() == pages.len(),
        forall|k: int|
            0 <= k < pages.len() ==> (#[trigger] route_signals(pages, dim, side, ss)[k]).remote_signal
                == pages[k].remote_signal && route_signals(pages, dim, side, ss)[k].offset_x == pages[k].offset_x
                && route_signals(pages, dim, side, ss)[k].offset_y == pages[k].offset_y,
    decreases ss.len(),
{
    if ss.len() > 0 {
        lemma_route_signals_frame(pages, dim, side, ss.drop_last());
        let s = ss.last();
        if routed(s.x as int, s.y as int, dim as int) {
            lemma_page_index_bound(s.x as int, s.y as int, side as int);
        }
    }
}

proof fn lemma_drain_signals_frame(pages: Seq<PageView>, dim: u32, side: u32, sources: Seq<PageView>, n: nat)
    requires
        1 <= side < MAX_PAGES_PER_SIDE,
        dim == side * PAGE_WIDTH,
        pages.len() == side * side,
    ensures
        drain_signals(pages, dim, side, sources, n).len() == pages.len(),
        forall|k: int|
            0 <= k < pages.len() ==> (#[trigger] drain_signals(pages, dim, side, sources, n)[k]).remote_signal
                == pages[k].remote_signal && drain_signals(pages, dim, side, sources, n)[k].offset_x == pages[k].offset_x
                && drain_signals(pages, dim, side, sources, n)[k].offset_y == pages[k].offset_y,
    decreases n,
{
    if n > 0 {
        lemma_drain_signals_frame(pages, dim, side, sources, (n - 1) as nat);
        lemma_route_signals_frame(
            drain_signals(pages, dim, side, sources, (n - 1) as nat),
            dim,
            side,
            sources[n - 1].remote_signal,
        );
    }
}

impl GridView {
    /// The grid after `n` growth steps.
    pub open spec fn grow_steps(self, n: nat) -> GridView
        decreases n,
    {
        if n == 0 {
            self
        } else {
            self.grow_steps((n - 1) as nat).grow_stepped()
        }
    }

    /// The count a signal step returns: the active cells of all pages after it.
    pub open spec fn signal_count(self) -> nat {
        let next = self.signal_stepped();
        active_total(next.pages, next.pages.len())
    }

    /// The grid after `n` signal steps.
    pub open spec fn signal_steps(self, n: nat) -> GridView
        decreases n,
    {
        if n == 0 {
            self
        } else {
            self.signal_steps((n - 1) as nat).signal_stepped()
        }
    }

    /// `after` is reached from this grid by `n + 1` growth steps, the last
    /// being the first that activated no cell, or the last allowed one.
    pub open spec fn grow_run(self, after: GridView, n: nat) -> bool {
        &&& after == self.grow_steps(n + 1)
        &&& forall|m: nat| m < n ==> #[trigger] self.grow_steps(m).grow_count() > 0
        &&& (self.grow_steps(n).grow_count() == 0 || n == self.cell_count())
    }

    /// `after` is reached from this grid by `n + 1` signal steps, the last
    /// being the first that left no cell active, or the last allowed one.
    pub open spec fn signal_run(self, after: GridView, n: nat) -> bool {
        &&& after == self.signal_steps(n + 1)
        &&& forall|m: nat| m < n ==> #[trigger] self.signal_steps(m).signal_count() > 0
        &&& (self.signal_steps(n).signal_count() == 0 || n == self.cell_count())
    }

    /// The number of cells of the grid.
    pub open spec fn cell_count(self) -> nat {
        (self.dimension * self.dimension) as nat
    }
}

impl Grid {
    /// Routes every page's remote signals, in page order and queue order, to
    /// the pages that own their targets.
    fn route_remote_signals(&mut self)
        requires
            old(self).wf(),
        ensures
            final(self).wf(),
            final(self)@ == (GridView {
                pages: drain_signals(old(self)@.pages, old(self)@.dimension, old(self)@.pages_per_side, old(self)@.pages, old(self)@.pages.len()),
                ..old(self)@
            }),
    {
        let ghost start = self@;
        let n = self.pages.len();
        let mut k: usize = 0;
        while k < n
            invariant
                self.wf(),
                start.well_formed(),
                n == start.pages.len(),
                k <= n,
                self.dimension == start.dimension,
                self.pages_per_side == start.pages_per_side,
                self@.pages == drain_signals(start.pages, start.dimension, start.pages_per_side, start.pages, k as nat),
            decreases n - k,
        {
            proof {
                self.lemma_view_pages();
                lemma_drain_signals_frame(start.pages, start.dimension, start.pages_per_side, start.pages, k as nat);
            }
            let ghost base = self@.pages;
            let ghost ss = start.pages[k as int].remote_signal;
            assert(self@.pages[k as int].remote_signal == ss);
            assert(self.pages@[k as int]@.remote_signal == ss);
            let m = self.pages[k].get_remote_signal().len();
            let mut j: usize = 0;
            while j < m
                invariant
                    self.wf(),
                    start.well_formed(),
                    n == start.pages.len(),
                    k < n,
                    j <= m,
                    m == ss.len(),
                    ss == start.pages[k as int].remote_signal,
                    base.len() == n,
                    base == drain_signals(start.pages, start.dimension, start.pages_per_side, start.pages, k as nat),
                    self.dimension == start.dimension,
                    self.pages_per_side == start.pages_per_side,
                    self@.pages == route_signals(base, start.dimension, start.pages_per_side, ss.take(j as int)),
                decreases m - j,
            {
                proof {
                    self.lemma_view_pages();
                    lemma_drain_signals_frame(start.pages, start.dimension, start.pages_per_side, start.pages, k as nat);
                    lemma_route_signals_frame(base, start.dimension, start.pages_per_side, ss.take(j as int));
                    assert(self@.pages[k as int].remote_signal == ss);
                }
                let c = self.pages[k].get_remote_signal()[j];
                let ghost before = self@.pages;
                proof {
                    assert(c == ss[j as int]);
                    assert(ss.take(j as int + 1).drop_last() =~= ss.take(j as int));
                    assert(ss.take(j as int + 1).last() == ss[j as int]);
                }
                if c.x > 0 && c.x < self.dimension && c.y > 0 && c.y < self.dimension {
                    let idx = self.page_of(c.x, c.y);
                    proof {
                        assert(self.pages@[idx as int].wf());
                    }
                    self.pages[idx].add_signal(c.x % PAGE_WIDTH, c.y % PAGE_WIDTH, c.strength, c.stim);
                    proof {
                        self.lemma_view_pages();
                        assert(self@.pages =~= before.update(
                            idx as int,
                            before[idx as int].with_remote_signal(
                                c.x as int % PAGE_WIDTH as int,
                                c.y as int % PAGE_WIDTH as int,
                                c.strength,
                                c.stim,
                            ),
                        ));
                    }
                }
                j = j + 1;
            }
            proof {
                assert(ss.take(m as int) =~= ss);
            }
            k = k + 1;
        }
    }

    /// One signal step: every page runs its signal kernel (in parallel), the
    /// remote signals are routed to their pages, then every page delivers its
    /// pending local signals (in parallel). Returns the number of active
    /// cells after the step.
    pub fn signal_step(&mut self) -> (r: u32)
        requires
            old(self).wf(),
        ensures
            final(self).wf(),
            final(self)@ == old(self)@.signal_stepped(),
            r as nat == old(self)@.signal_count(),
    {
        let ghost start = self@;
        signal_pages(&mut self.pages);
        proof {
            self.lemma_view_pages();
            assert(self@.pages =~= start.kernels_signalled());
            assert forall|k: int| 0 <= k < self@.pages.len() implies (#[trigger] self@.pages[k]).offset_x
                == start.pages[k].offset_x && self@.pages[k].offset_y == start.pages[k].offset_y by {
                crate::page::lemma_signal_all_frame(start.pages[k], start.pages[k].active_order());
            }
            assert(laid_out(self@.pages, self@.pages_per_side));
        }
        self.route_remote_signals();
        let counts = update_signal_pages(&mut self.pages);
        proof {
            self.lemma_view_pages();
            lemma_signal_stepped_layout(start);
            reveal(GridView::signal_stepped);
            assert(self@.pages =~= start.signal_stepped().pages);
        }
        let ghost done = self@;
        let n = self.pages.len();
        let mut active_cells: u32 = 0;
        let mut k: usize = 0;
        while k < n
            invariant
                self.wf(),
                self@ == done,
                done.well_formed(),
                n == done.pages.len(),
                counts@.len() == n,
                forall|j: int| 0 <= j < n ==> #[trigger] counts@[j] as nat == done.pages[j].active.len(),
                k <= n,
                active_cells as nat == active_total(done.pages, k as nat),
                active_cells <= PAGE_SIZE * k,
            decreases n - k,
        {
            proof {
                self.lemma_view_pages();
                assert(n <= 1046529) by (nonlinear_arith)
                    requires
                        n == done.pages_per_side * done.pages_per_side,
                        done.pages_per_side < MAX_PAGES_PER_SIDE,
                ;
                assert(self.pages@[k as int].wf());
                crate::page::lemma_index_set_bound(self@.pages[k as int].active);
            }
            let c = counts[k];
            assert(c <= PAGE_SIZE);
            assert(PAGE_SIZE * k + PAGE_SIZE <= PAGE_SIZE * n);
            active_cells = active_cells + c;
            k = k + 1;
        }
        active_cells
    }

    /// Sets the signal of the cell at global `(x, y)` (clamped to 15) and
    /// marks it active.
    pub fn set_input(&mut self, x: u32, y: u32, sig: u8)
        requires
            old(self).wf(),
            x < old(self)@.dimension,
            y < old(self)@.dimension,
        ensures
            final(self).wf(),
            final(self)@ == (GridView {
                pages: old(self)@.pages.update(
                    page_index(x as int, y as int, old(self)@.pages_per_side as int),
                    old(self)@.pages[page_index(x as int, y as int, old(self)@.pages_per_side as int)].with_input(
                        x as int % PAGE_WIDTH as int,
                        y as int % PAGE_WIDTH as int,
                        sig as int,
                    ),
                ),
                ..old(self)@
            }),
    {
        let i = self.page_of(x, y);
        proof {
            assert(self.pages@[i as int].wf());
        }
        self.pages[i].set_input(x % PAGE_WIDTH, y % PAGE_WIDTH, sig);
        proof {
            self.lemma_view_pages();
            assert(self@.pages =~= old(self)@.pages.update(
                i as int,
                old(self)@.pages[i as int].with_input(
                    x as int % PAGE_WIDTH as int,
                    y as int % PAGE_WIDTH as int,
                    sig as int,
                ),
            ));
        }
    }

    /// Replaces the cell at global `(x, y)`.
    pub fn set_cell(&mut self, x: u32, y: u32, cell: Cell)
        requires
            old(self).wf(),
            x < old(self)@.dimension,
            y < old(self)@.dimension,
        ensures
            final(self).wf(),
            final(self)@ == (GridView {
                pages: old(self)@.pages.update(
                    page_index(x as int, y as int, old(self)@.pages_per_side as int),
                    PageView {
                        cells: old(self)@.pages[page_index(x as int, y as int, old(self)@.pages_per_side as int)].cells.update(
                            index_of(x as int % PAGE_WIDTH as int, y as int % PAGE_WIDTH as int),
                            cell@,
                        ),
                        ..old(self)@.pages[page_index(x as int, y as int, old(self)@.pages_per_side as int)]
                    },
                ),
                ..old(self)@
            }),
    {
        let i = self.page_of(x, y);
        proof {
            assert(self.pages@[i as int].wf());
        }
        self.pages[i].set_cell(x % PAGE_WIDTH, y % PAGE_WIDTH, cell);
        proof {
            self.lemma_view_pages();
            assert(self@.pages =~= old(self)@.pages.update(
                i as int,
                PageView {
                    cells: old(self)@.pages[i as int].cells.update(
                        index_of(x as int % PAGE_WIDTH as int, y as int % PAGE_WIDTH as int),
                        cell@,
                    ),
                    ..old(self)@.pages[i as int]
                },
            ));
        }
    }

    /// Runs growth steps until one activates no cell, or until as many steps
    /// as the grid has cells have run. When growth is well founded (as
    /// `Grid::new` leaves it), the run always ends at a step that activates
    /// no cell.
    pub fn grow(&mut self)
        requires
            old(self).wf(),
        ensures
            final(self).wf(),
            exists|n: nat| #[trigger] old(self)@.grow_run(final(self)@, n),
            old(self)@.grows_soundly() ==> forall|n: nat|
                #[trigger] old(self)@.grow_run(final(self)@, n) ==> old(self)@.grow_steps(n).grow_count()
                    == 0,
    {
        let ghost start = self@;
        proof {
            let s = self.pages_per_side as int;
            assert(s * PAGE_WIDTH < 0x10000) by (nonlinear_arith)
                requires
                    1 <= s < MAX_PAGES_PER_SIDE,
            ;
            let d = self.dimension as int;
            assert(d * d < 0x1_0000_0000) by (nonlinear_arith)
                requires
                    0 <= d < 0x10000,
            ;
            assert(PAGE_SIZE * (s * s) == d * d) by (nonlinear_arith)
                requires
                    d == s * PAGE_WIDTH,
            ;
            lemma_empty_total_bound(start.pages, start.pages.len());
        }
        let limit: u64 = self.dimension as u64 * self.dimension as u64;
        let mut steps: u64 = 0;
        loop
            invariant
                self.wf(),
                limit == start.cell_count(),
                start == old(self)@,
                steps <= limit,
                self@ == start.grow_steps(steps as nat),
                forall|m: nat| m < steps ==> #[trigger] start.grow_steps(m).grow_count() > 0,
                self@.pages.len() == start.pages.len(),
                self@.pages_per_side == start.pages_per_side,
                empty_total(start.pages, start.pages.len()) <= limit,
                start.grows_soundly() ==> self@.grows_soundly() && empty_total(
                    self@.pages,
                    start.pages.len(),
                ) + steps <= empty_total(start.pages, start.pages.len()),
            decreases limit - steps,
        {
            let ghost before = self@;
            proof {
                if start.grows_soundly() {
                    lemma_grow_step_fills_empty_cells(before);
                }
            }
            let active_cells = self.grow_step();
            if active_cells == 0 || steps == limit {
                proof {
                    assert(start.grow_run(self@, steps as nat));
                    assert forall|n: nat| #[trigger] start.grow_run(self@, n) implies
                        start.grow_steps(n).grow_count() == 0 || !start.grows_soundly() by {
                        if n < steps {
                            assert(start.grow_steps(n).grow_count() > 0);
                            assert(start.grow_steps(n + 1) == start.grow_steps(steps as nat + 1));
                        }
                    }
                }
                return;
            }
            steps = steps + 1;
        }
    }

    /// Runs signal steps until one leaves no cell active, or until as many
    /// steps as the grid has cells have run.
    pub fn signal(&mut self)
        requires
            old(self).wf(),
        ensures
            final(self).wf(),
            exists|n: nat| #[trigger] old(self)@.signal_run(final(self)@, n),
    {
        let ghost start = self@;
        proof {
            let s = self.pages_per_side as int;
            assert(s * PAGE_WIDTH < 0x10000) by (nonlinear_arith)
                requires
                    1 <= s < MAX_PAGES_PER_SIDE,
            ;
            let d = self.dimension as int;
            assert(d * d < 0x1_0000_0000) by (nonlinear_arith)
                requires
                    0 <= d < 0x10000,
            ;
        }
        let limit: u64 = self.dimension as u64 * self.dimension as u64;
        let mut steps: u64 = 0;
        loop
            invariant
                self.wf(),
                limit == start.cell_count(),
                start == old(self)@,
                steps <= limit,
                self@ == start.signal_steps(steps as nat),
                forall|m: nat| m < steps ==> #[trigger] start.signal_steps(m).signal_count() > 0,
            decreases limit - steps,
        {
            let active_cells = self.signal_step();
            if active_cells == 0 || steps == limit {
                assert(start.signal_run(self@, steps as nat));
                return;
            }
            steps = steps + 1;
        }
    }

    /// Side of the grid, in cells.
    pub fn dimension(&self) -> (r: u32)
        ensures
            r == self@.dimension,
    {
        self.dimension
    }
}

pub open spec fn all_ready(pages: Seq<PageView>) -> bool {
    forall|k: int|
        0 <= k < pages.len() ==> (#[trigger] pages[k]).well_formed() && pages[k].growth_ready()
}

proof fn lemma_route_changes_ready(pages: Seq<PageView>, dim: u32, side: u32, cs: Seq<RemoteChangeView>)
    requires
        1 <= side < MAX_PAGES_PER_SIDE,
        dim == side * PAGE_WIDTH,
        pages.len() == side * side,
        all_ready(pages),
        forall|j: int| 0 <= j < cs.len() ==> (#[trigger] cs[j]).cell.cell_type != CellType::Empty,
    ensures
        all_ready(route_changes(pages, dim, side, cs)),
    decreases cs.len(),
{
    if cs.len() > 0 {
        let rest = cs.drop_last();
        assert forall|j: int| 0 <= j < rest.len() implies (#[trigger] rest[j]).cell.cell_type
            != CellType::Empty by {
            assert(rest[j] == cs[j]);
        }
        lemma_route_changes_ready(pages, dim, side, rest);
        lemma_route_changes_frame(pages, dim, side, rest);
        let before = route_changes(pages, dim, side, rest);
        let c = cs.last();
        assert(c == cs[cs.len() - 1]);
        if routed(c.x as int, c.y as int, dim as int) {
            let k = page_index(c.x as int, c.y as int, side as int);
            lemma_page_index_bound(c.x as int, c.y as int, side as int);
            before[k].lemma_remote_change_ready(
                c.x as int % PAGE_WIDTH as int,
                c.y as int % PAGE_WIDTH as int,
                c.cell.cell_type,
                c.travel_direction,
                c.stim,
            );
        }
    }
}

proof fn lemma_drain_changes_ready(pages: Seq<PageView>, dim: u32, side: u32, sources: Seq<PageView>, n: nat)
    requires
        1 <= side < MAX_PAGES_PER_SIDE,
        dim == side * PAGE_WIDTH,
        pages.len() == side * side,
        all_ready(pages),
        n <= sources.len(),
        all_ready(sources),
    ensures
        all_ready(drain_changes(pages, dim, side, sources, n)),
    decreases n,
{
    if n > 0 {
        lemma_drain_changes_ready(pages, dim, side, sources, (n - 1) as nat);
        lemma_drain_changes_frame(pages, dim, side, sources, (n - 1) as nat);
        let src = sources[n - 1];
        assert(src.growth_ready());
        lemma_route_changes_ready(
            drain_changes(pages, dim, side, sources, (n - 1) as nat),
            dim,
            side,
            src.remote_changes,
        );
    }
}

/// After a growth step every active cell is non-EMPTY, provided every
/// active cell and pending growth was of a non-EMPTY type before it (as
/// `Grid::new` establishes).
pub proof fn lemma_grow_step_active_nonempty(g: GridView)
    requires
        g.well_formed(),
        forall|k: int| 0 <= k < g.pages.len() ==> (#[trigger] g.pages[k]).well_formed(),
        g.growth_ready(),
    ensures
        g.grow_stepped().growth_ready(),
        forall|k: int|
            0 <= k < g.grow_stepped().pages.len() ==> (#[trigger] g.grow_stepped().pages[k]).well_formed()
                && g.grow_stepped().pages[k].active_nonempty(),
{
    reveal(GridView::grow_stepped);
    let gr = g.kernels_grown();
    assert forall|k: int| 0 <= k < gr.len() implies (#[trigger] gr[k]).well_formed()
        && gr[k].growth_ready() by {
        g.pages[k].lemma_grown_ready();
    }
    lemma_drain_changes_ready(gr, g.dimension, g.pages_per_side, gr, gr.len());
    lemma_drain_changes_frame(gr, g.dimension, g.pages_per_side, gr, gr.len());
    let d = drain_changes(gr, g.dimension, g.pages_per_side, gr, gr.len());
    let after = g.grow_stepped();
    assert forall|k: int| 0 <= k < after.pages.len() implies (#[trigger] after.pages[k]).well_formed()
        && after.pages[k].active_nonempty() && after.pages[k].growth_ready() by {
        d[k].lemma_updated_ready();
    }
}

/// Cross-page events aimed outside `(0, dimension)` on either axis (in
/// particular at column 0 or row 0 of the grid) change no page.
pub proof fn lemma_unrouted_events_ignored(
    pages: Seq<PageView>,
    dim: u32,
    side: u32,
    c: RemoteChangeView,
    s: RemoteSignal,
)
    ensures
        !routed(c.x as int, c.y as int, dim as int) ==> route_change(pages, dim, side, c) == pages,
        !routed(s.x as int, s.y as int, dim as int) ==> route_signal(pages, dim, side, s) == pages,
        c.x == 0 || c.y == 0 ==> route_change(pages, dim, side, c) == pages,
        s.x == 0 || s.y == 0 ==> route_signal(pages, dim, side, s) == pages,
{
}

/// The number of EMPTY cells in the first `n` pages.
pub open spec fn empty_total(pages: Seq<PageView>, n: nat) -> nat
    decreases n,
{
    if n == 0 {
        0
    } else {
        empty_total(pages, (n - 1) as nat) + pages[n - 1].empty_cells().len()
    }
}

pub open spec fn all_pending_in_empty(pages: Seq<PageView>) -> bool {
    forall|k: int| 0 <= k < pages.len() ==> (#[trigger] pages[k]).pending_in_empty()
}

impl GridView {
    /// Growth is well founded: every page is well formed, every active cell
    /// and pending growth is of a non-EMPTY type, and every pending growth
    /// targets an EMPTY cell.
    pub open spec fn grows_soundly(self) -> bool {
        &&& self.well_formed()
        &&& forall|k: int| 0 <= k < self.pages.len() ==> (#[trigger] self.pages[k]).well_formed()
        &&& self.growth_ready()
        &&& all_pending_in_empty(self.pages)
    }
}

proof fn lemma_route_changes_pending(pages: Seq<PageView>, dim: u32, side: u32, cs: Seq<RemoteChangeView>)
    requires
        1 <= side < MAX_PAGES_PER_SIDE,
        dim == side * PAGE_WIDTH,
        pages.len() == side * side,
        all_pending_in_empty(pages),
    ensures
        all_pending_in_empty(route_changes(pages, dim, side, cs)),
        forall|k: int|
            0 <= k < pages.len() ==> pages[k].changes.dom().subset_of(
                (#[trigger] route_changes(pages, dim, side, cs)[k]).changes.dom(),
            ) && route_changes(pages, dim, side, cs)[k].cells == pages[k].cells,
    decreases cs.len(),
{
    if cs.len() > 0 {
        let rest = cs.drop_last();
        lemma_route_changes_pending(pages, dim, side, rest);
        lemma_route_changes_frame(pages, dim, side, rest);
        let before = route_changes(pages, dim, side, rest);
        let c = cs.last();
        if routed(c.x as int, c.y as int, dim as int) {
            let k = page_index(c.x as int, c.y as int, side as int);
            lemma_page_index_bound(c.x as int, c.y as int, side as int);
            before[k].lemma_remote_change_pending(
                c.x as int % PAGE_WIDTH as int,
                c.y as int % PAGE_WIDTH as int,
                c.cell.cell_type,
                c.travel_direction,
                c.stim,
            );
        }
    }
}

proof fn lemma_drain_changes_pending(pages: Seq<PageView>, dim: u32, side: u32, sources: Seq<PageView>, n: nat)
    requires
        1 <= side < MAX_PAGES_PER_SIDE,
        dim == side * PAGE_WIDTH,
        pages.len() == side * side,
        all_pending_in_empty(pages),
    ensures
        all_pending_in_empty(drain_changes(pages, dim, side, sources, n)),
        forall|k: int|
            0 <= k < pages.len() ==> pages[k].changes.dom().subset_of(
                (#[trigger] drain_changes(pages, dim, side, sources, n)[k]).changes.dom(),
            ) && drain_changes(pages, dim, side, sources, n)[k].cells == pages[k].cells,
    decreases n,
{
    if n > 0 {
        lemma_drain_changes_pending(pages, dim, side, sources, (n - 1) as nat);
        lemma_drain_changes_frame(pages, dim, side, sources, (n - 1) as nat);
        let mid = drain_changes(pages, dim, side, sources, (n - 1) as nat);
        lemma_route_changes_pending(mid, dim, side, sources[n - 1].remote_changes);
        let last = drain_changes(pages, dim, side, sources, n);
        assert forall|k: int| 0 <= k < pages.len() implies pages[k].changes.dom().subset_of(
            (#[trigger] last[k]).changes.dom(),
        ) && last[k].cells == pages[k].cells by {
            assert(pages[k].changes.dom().subset_of(mid[k].changes.dom()));
        }
    }
}

proof fn lemma_empty_total_shrinks(before: Seq<PageView>, kernel: Seq<PageView>, after: Seq<PageView>, n: nat)
    requires
        n <= before.len(),
        n <= kernel.len(),
        n <= after.len(),
        forall|k: int|
            0 <= k < n ==> #[trigger] after[k].empty_cells().len() + kernel[k].changes.len()
                <= before[k].empty_cells().len(),
    ensures
        empty_total(after, n) + pending_total(kernel, n) <= empty_total(before, n),
    decreases n,
{
    if n > 0 {
        lemma_empty_total_shrinks(before, kernel, after, (n - 1) as nat);
        assert(after[n - 1].empty_cells().len() + kernel[n - 1].changes.len()
            <= before[n - 1].empty_cells().len());
    }
}

proof fn lemma_empty_total_bound(pages: Seq<PageView>, n: nat)
    requires
        n <= pages.len(),
    ensures
        empty_total(pages, n) <= PAGE_SIZE * n,
    decreases n,
{
    if n > 0 {
        lemma_empty_total_bound(pages, (n - 1) as nat);
        crate::page::lemma_index_set_bound(pages[n - 1].empty_cells());
    }
}

/// Each growth step fills at least as many EMPTY cells as it reports, and
/// keeps growth well founded.
pub proof fn lemma_grow_step_fills_empty_cells(g: GridView)
    requires
        g.grows_soundly(),
    ensures
        g.grow_stepped().grows_soundly(),
        empty_total(g.grow_stepped().pages, g.pages.len()) + g.grow_count() <= empty_total(
            g.pages,
            g.pages.len(),
        ),
{
    lemma_grow_step_active_nonempty(g);
    lemma_grow_stepped_layout(g);
    reveal(GridView::grow_stepped);
    let n = g.pages.len();
    let gr = g.kernels_grown();
    assert forall|k: int| 0 <= k < gr.len() implies (#[trigger] gr[k]).well_formed()
        && gr[k].growth_ready() && gr[k].pending_in_empty() && gr[k].cells == g.pages[k].cells by {
        g.pages[k].lemma_grown_ready();
        g.pages[k].lemma_grown_pending();
    }
    lemma_drain_changes_ready(gr, g.dimension, g.pages_per_side, gr, n);
    lemma_drain_changes_frame(gr, g.dimension, g.pages_per_side, gr, n);
    lemma_drain_changes_pending(gr, g.dimension, g.pages_per_side, gr, n);
    let d = drain_changes(gr, g.dimension, g.pages_per_side, gr, n);
    let after = g.grow_stepped();
    assert forall|k: int| 0 <= k < n implies #[trigger] after.pages[k].empty_cells().len()
        + gr[k].changes.len() <= g.pages[k].empty_cells().len() by {
        d[k].lemma_updated_empty();
        crate::page::lemma_index_set_bound(d[k].changes.dom());
        vstd::set_lib::lemma_len_subset(gr[k].changes.dom(), d[k].changes.dom());
        assert(d[k].empty_cells() =~= g.pages[k].empty_cells());
    }
    lemma_empty_total_shrinks(g.pages, gr, after.pages, n);
    assert forall|k: int| 0 <= k < after.pages.len() implies (#[trigger] after.pages[k]).pending_in_empty() by {
        assert(after.pages[k].changes =~= Map::empty());
    }
}

/// A growth step keeps the grid's shape and where each page sits.
pub proof fn lemma_grow_stepped_layout(g: GridView)
    requires
        g.well_formed(),
    ensures
        g.grow_stepped().well_formed(),
        g.grow_stepped().pages.len() == g.pages.len(),
{
    reveal(GridView::grow_stepped);
    let gr = g.kernels_grown();
    assert forall|k: int| 0 <= k < gr.len() implies (#[trigger] gr[k]).offset_x == g.pages[k].offset_x
        && gr[k].offset_y == g.pages[k].offset_y by {
        crate::page::lemma_grow_all_frame(g.pages[k], g.pages[k].active_order());
    }
    lemma_drain_changes_frame(gr, g.dimension, g.pages_per_side, gr, gr.len());
    let after = g.grow_stepped();
    assert(laid_out(after.pages, after.pages_per_side));
}

/// A signal step keeps the grid's shape and where each page sits.
pub proof fn lemma_signal_stepped_layout(g: GridView)
    requires
        g.well_formed(),
    ensures
        g.signal_stepped().well_formed(),
        g.signal_stepped().pages.len() == g.pages.len(),
{
    reveal(GridView::signal_stepped);
    let gs = g.kernels_signalled();
    assert forall|k: int| 0 <= k < gs.len() implies (#[trigger] gs[k]).offset_x == g.pages[k].offset_x
        && gs[k].offset_y == g.pages[k].offset_y by {
        crate::page::lemma_signal_all_frame(g.pages[k], g.pages[k].active_order());
    }
    lemma_drain_signals_frame(gs, g.dimension, g.pages_per_side, gs, gs.len());
    let d = drain_signals(gs, g.dimension, g.pages_per_side, gs, gs.len());
    let after = g.signal_stepped();
    assert forall|k: int| 0 <= k < after.pages.len() implies (#[trigger] after.pages[k]).offset_x
        == d[k].offset_x && after.pages[k].offset_y == d[k].offset_y by {
        crate::page::lemma_deliver_all_frame(
            PageView { active: Set::empty(), ..d[k] },
            d[k].local_signal,
        );
    }
    assert(laid_out(after.pages, after.pages_per_side));
}

/// With nothing pending between steps (as after `Grid::new` and after every
/// step), a growth step keeps every active cell non-EMPTY.
pub proof fn lemma_grow_step_keeps_active_nonempty(g: GridView)
    requires
        g.well_formed(),
        forall|k: int|
            0 <= k < g.pages.len() ==> (#[trigger] g.pages[k]).well_formed()
                && g.pages[k].active_nonempty() && g.pages[k].changes.is_empty()
                && g.pages[k].remote_changes.len() == 0,
    ensures
        forall|k: int|
            0 <= k < g.grow_stepped().pages.len() ==> (#[trigger] g.grow_stepped().pages[k]).active_nonempty()
                && g.grow_stepped().pages[k].changes.is_empty()
                && g.grow_stepped().pages[k].remote_changes.len() == 0,
{
    assert forall|k: int| 0 <= k < g.pages.len() implies (#[trigger] g.pages[k]).growth_ready() by {
        assert(g.pages[k].changes.dom() =~= Set::empty());
    }
    lemma_grow_step_active_nonempty(g);
    reveal(GridView::grow_stepped);
    assert forall|k: int| 0 <= k < g.grow_stepped().pages.len() implies (#[trigger] g.grow_stepped().pages[k]).changes.is_empty() by {
        assert(g.grow_stepped().pages[k].changes =~= Map::empty());
    }
}

} // verus!
