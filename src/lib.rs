//! A 2-D cellular automaton of growing neurons: cells on a grid of square
//! pages grow axons and dendrites along their chromosomes, then pass signals.
mod bitmap;
pub mod cell;
pub mod grid;
pub mod page;
mod random;
pub mod zorder;

pub use cell::{Cell, CellType, CellView, Chromosome, Gate};
pub use grid::{Grid, GridView};
pub use page::{
    ChangeType, LocalSignal, Page, PageView, RemoteChange, RemoteSignal, SignalType, PAGE_SIZE,
    PAGE_WIDTH,
};

use crate::grid::{page_index, MAX_PAGES_PER_SIDE};
use crate::page::index_of;
use vstd::prelude::*;

verus! {

/// Bodies per page of the default configuration: a density of 5% of a page's
/// 4096 cells, rounded.
pub const DEFAULT_BODIES_PER_PAGE: u32 = 205;

/// Pages per side of the default configuration.
pub const DEFAULT_PAGES_PER_SIDE: u32 = 10;

impl Default for Grid {
    fn default() -> (r: Grid)
        ensures
            r.wf(),
            r@.pages_per_side == DEFAULT_PAGES_PER_SIDE,
            r@.grows_soundly(),
    {
        Grid::new(DEFAULT_PAGES_PER_SIDE, DEFAULT_BODIES_PER_PAGE, &[1, 2, 3, 4])
    }
}

/// A simulation: a grid bound to its configuration.
pub struct Cajal {
    grid: Grid,
}

impl View for Cajal {
    type V = GridView;

    closed spec fn view(&self) -> GridView {
        self.grid@
    }
}

impl Default for Cajal {
    fn default() -> (r: Cajal)
        ensures
            r.wf(),
            r@.pages_per_side == DEFAULT_PAGES_PER_SIDE,
            r@.grows_soundly(),
    {
        Cajal { grid: Grid::default() }
    }
}

impl Cajal {
    /// The grid and each of its pages are well formed.
    pub closed spec fn wf(&self) -> bool {
        self.grid.wf()
    }

    /// A grid of `size * size` pages with `bodies_per_page` bodies each,
    /// seeded from `seed`.
    pub fn new(size: u32, bodies_per_page: u32, seed: &[usize]) -> (r: Cajal)
        requires
            1 <= size < MAX_PAGES_PER_SIDE,
        ensures
            r.wf(),
            r@.pages_per_side == size,
            r@.dimension == size * PAGE_WIDTH,
            r@.grows_soundly(),
            forall|k: int|
                0 <= k < r@.pages.len() ==> (#[trigger] r@.pages[k]).seeded(
                    bodies_per_page as nat,
                    ((k % size as int) * PAGE_WIDTH) as u32,
                    ((k / size as int) * PAGE_WIDTH) as u32,
                ),
    {
        Cajal { grid: Grid::new(size, bodies_per_page, seed) }
    }

    /// Runs growth to its fixed point (see `Grid::grow`).
    pub fn grow(&mut self)
        requires
            old(self).wf(),
        ensures
            final(self).wf(),
            exists|n: nat| #[trigger] old(self)@.grow_run(final(self)@, n),
            old(self)@.grows_soundly() ==> forall|n: nat|
                #[trigger] old(self)@.grow_run(final(self)@, n) ==> old(self)@.grow_steps(n).grow_count()
                    == 0,
    {
        let ghost before = self@;
        self.grid.grow();
        proof {
            let n = choose|n: nat| #[trigger] before.grow_run(self.grid@, n);
            assert(before.grow_run(self@, n));
        }
    }

    /// One growth step; returns the number of newly activated cells.
    pub fn grow_step(&mut self) -> (r: u32)
        requires
            old(self).wf(),
        ensures
            final(self).wf(),
            final(self)@ == old(self)@.grow_stepped(),
            r as nat == old(self)@.grow_count(),
            old(self)@.grows_soundly() ==> final(self)@.grows_soundly(),
            forall|k: int|
                0 <= k < final(self)@.pages.len() ==> (#[trigger] final(self)@.pages[k]).changes.is_empty()
                    && final(self)@.pages[k].remote_changes.len() == 0,
    {
        self.grid.grow_step()
    }

    /// Runs signal propagation to its fixed point (see `Grid::signal`).
    pub fn signal(&mut self)
        requires
            old(self).wf(),
        ensures
            final(self).wf(),
            exists|n: nat| #[trigger] old(self)@.signal_run(final(self)@, n),
    {
        let ghost before = self@;
        self.grid.signal();
        proof {
            let n = choose|n: nat| #[trigger] before.signal_run(self.grid@, n);
            assert(before.signal_run(self@, n));
        }
    }

    /// One signal step; returns the number of active cells after it.
    pub fn signal_step(&mut self) -> (r: u32)
        requires
            old(self).wf(),
        ensures
            final(self).wf(),
            final(self)@ == old(self)@.signal_stepped(),
            r as nat == old(self)@.signal_count(),
    {
        self.grid.signal_step()
    }

    /// Side of the grid, in cells.
    pub fn dimension(&self) -> (r: u32)
        ensures
            r == self@.dimension,
    {
        self.grid.dimension()
    }

    /// Sets the signal of the cell at `(x, y)` (clamped to 15) and marks it
    /// active.
    pub fn set_input(&mut self, x: u32, y: u32, value: u8)
        requires
            old(self).wf(),
            x < old(self)@.dimension,
            y < old(self)@.dimension,
        ensures
            final(self).wf(),
            final(self)@ == (GridView {
                pages: old(self)@.pages.update(
                    page_index(x as int, y as int, old(self)@.pages_per_side as int),
                    old(self)@.pages[page_index(x as int, y as int, old(self)@.pages_per_side as int)].with_input(
                        x as int % PAGE_WIDTH as int,
                        y as int % PAGE_WIDTH as int,
                        value as int,
                    ),
                ),
                ..old(self)@
            }),
    {
        self.grid.set_input(x, y, value);
    }

    /// Replaces the cell at `(x, y)`.
    pub fn set_cell(&mut self, x: u32, y: u32, cell: Cell)
        requires
            old(self).wf(),
            x < old(self)@.dimension,
            y < old(self)@.dimension,
        ensures
            final(self).wf(),
            final(self)@ == (GridView {
                pages: old(self)@.pages.update(
                    page_index(x as int, y as int, old(self)@.pages_per_side as int),
                    PageView {
                        cells: old(self)@.pages[page_index(x as int, y as int, old(self)@.pages_per_side as int)].cells.update(
                            index_of(x as int % PAGE_WIDTH as int, y as int % PAGE_WIDTH as int),
                            cell@,
                        ),
                        ..old(self)@.pages[page_index(x as int, y as int, old(self)@.pages_per_side as int)]
                    },
                ),
                ..old(self)@
            }),
    {
        self.grid.set_cell(x, y, cell);
    }

    /// The cell at `(x, y)`.
    pub fn get_cell(&self, x: u32, y: u32) -> (r: &Cell)
        requires
            self.wf(),
            x < self@.dimension,
            y < self@.dimension,
        ensures
            r@ == self@.pages[page_index(x as int, y as int, self@.pages_per_side as int)].cells[index_of(
                x as int % PAGE_WIDTH as int,
                y as int % PAGE_WIDTH as int,
            )],
    {
        self.grid.get_cell(x, y)
    }
}

} // verus!
