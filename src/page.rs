//! A page: a square tile of cells with its active set and its queues of
//! pending changes and signals.
use crate::bitmap::{
    ascending, bitmap_clear, bitmap_contents, bitmap_insert, bitmap_len, bitmap_new, bitmap_values,
};
use crate::random::{draw_bool, draw_range, seeded_rng};
use crate::cell::{Cell, CellType, CellView, Chromosome, Gate};
use crate::zorder::{gather, lemma_page_bounds, morton, xy_to_z, z_to_xy};
use roaring::RoaringBitmap;
use std::collections::HashMap;
use vstd::prelude::*;

verus! {

broadcast use vstd::std_specs::hash::group_hash_axioms;

/// Side of a page, in cells.
pub const PAGE_WIDTH: u32 = 64;

/// Number of cells in a page.
pub const PAGE_SIZE: u32 = 4096;

/// Offsets of a page stay below this bound, so global coordinates fit a `u32`.
pub const MAX_OFFSET: u32 = 0x4000_0000;

/// A growth step that crosses into another page, in global coordinates.
#[derive(Clone, Copy, Debug)]
pub struct RemoteChange {
    pub x: u32,
    pub y: u32,
    pub cell: Cell,
    pub travel_direction: Gate,
    pub stim: bool,
}

/// A remote change, with the cell seen through its fields.
pub struct RemoteChangeView {
    pub x: u32,
    pub y: u32,
    pub cell: CellView,
    pub travel_direction: Gate,
    pub stim: bool,
}

impl View for RemoteChange {
    type V = RemoteChangeView;

    open spec fn view(&self) -> RemoteChangeView {
        RemoteChangeView {
            x: self.x,
            y: self.y,
            cell: self.cell@,
            travel_direction: self.travel_direction,
            stim: self.stim,
        }
    }
}

/// The outcome of one growth attempt.
pub enum ChangeType {
    Local((u32, Cell)),
    Remote(RemoteChange),
    NoChange,
}

pub enum ChangeView {
    Local(u32, CellView),
    Remote(RemoteChangeView),
    Nothing,
}

impl View for ChangeType {
    type V = ChangeView;

    open spec fn view(&self) -> ChangeView {
        match self {
            ChangeType::Local((t, c)) => ChangeView::Local(*t, c@),
            ChangeType::Remote(r) => ChangeView::Remote(r@),
            ChangeType::NoChange => ChangeView::Nothing,
        }
    }
}

impl ChangeType {
    /// Whether the attempt produced a change.
    pub fn is_some(&self) -> (r: bool)
        ensures
            r == !(self@ is Nothing),
    {
        match *self {
            ChangeType::NoChange => false,
            _ => true,
        }
    }
}

/// A signal leaving the page, in global coordinates.
#[derive(Clone, Copy, Debug)]
pub struct RemoteSignal {
    pub x: u32,
    pub y: u32,
    pub strength: u8,
    pub stim: bool,
    pub origin_cell_type: CellType,
}

/// A signal between two cells of the page: from `(x, y)` to the cell at
/// `to_index`.
#[derive(Clone, Copy, Debug)]
pub struct LocalSignal {
    pub x: u32,
    pub y: u32,
    pub to_index: usize,
    pub strength: u8,
    pub stim: bool,
    pub origin_cell_type: CellType,
}

/// The outcome of one signal attempt.
#[derive(Clone, Copy, Debug)]
pub enum SignalType {
    Local(LocalSignal),
    Remote(RemoteSignal),
    NoSignal,
}

// ---------------------------------------------------------------------------
// Geometry

/// Whether a step from local `(x, y)` towards `d` stays inside the page.
pub open spec fn in_page_move(x: int, y: int, d: Gate) -> bool {
    match d {
        Gate::North => y < PAGE_WIDTH - 1,
        Gate::South => y > 0,
        Gate::East => x < PAGE_WIDTH - 1,
        Gate::West => x > 0,
    }
}

pub open spec fn step_x(x: int, d: Gate) -> int {
    match d {
        Gate::East => x + 1,
        Gate::West => x - 1,
        _ => x,
    }
}

pub open spec fn step_y(y: int, d: Gate) -> int {
    match d {
        Gate::North => y + 1,
        Gate::South => y - 1,
        _ => y,
    }
}

/// The local column of a page index.
pub open spec fn x_of(i: int) -> int {
    gather(i as nat) as int
}

/// The local row of a page index.
pub open spec fn y_of(i: int) -> int {
    gather((i / 2) as nat) as int
}

pub open spec fn index_of(x: int, y: int) -> int {
    morton(x as nat, y as nat) as int
}

/// The index reached from local `(x, y)` by one step towards `d`.
pub open spec fn neighbor(x: int, y: int, d: Gate) -> int {
    index_of(step_x(x, d), step_y(y, d))
}

/// Steps that leave the grid through its West or South edge are dropped.
pub open spec fn remote_dropped(offset_x: u32, offset_y: u32, d: Gate) -> bool {
    (offset_x == 0 && d == Gate::West) || (offset_y == 0 && d == Gate::South)
}

/// A fresh cell of the given type, gate and stim (all else as in `Cell::new`).
pub open spec fn grown_cell(t: CellType, g: Gate, s: bool) -> CellView {
    CellView::blank().with_cell_type(t).with_gate(g).with_stim(s)
}

/// The result of trying to grow from local `(x, y)` into the neighbour
/// towards `d`, which lies in the page: a change when that cell is EMPTY.
pub open spec fn local_change(
    cells: Seq<CellView>,
    x: int,
    y: int,
    t: CellType,
    d: Gate,
    s: bool,
) -> ChangeView {
    let target = neighbor(x, y, d);
    if cells[target].cell_type == CellType::Empty {
        ChangeView::Local(target as u32, grown_cell(t, d.opposite(), s))
    } else {
        ChangeView::Nothing
    }
}

/// The result of growing out of the page from local `(x, y)` towards `d`.
pub open spec fn remote_change(
    x: int,
    y: int,
    offset_x: u32,
    offset_y: u32,
    t: CellType,
    d: Gate,
    s: bool,
) -> ChangeView {
    if remote_dropped(offset_x, offset_y, d) {
        ChangeView::Nothing
    } else {
        ChangeView::Remote(
            RemoteChangeView {
                x: (offset_x + step_x(x, d)) as u32,
                y: (offset_y + step_y(y, d)) as u32,
                cell: grown_cell(t, d.opposite(), s),
                travel_direction: d,
                stim: s,
            },
        )
    }
}

/// The result of growing from local `(x, y)` towards `d`.
pub open spec fn direction_change(
    cells: Seq<CellView>,
    x: int,
    y: int,
    offset_x: u32,
    offset_y: u32,
    t: CellType,
    d: Gate,
    s: bool,
) -> ChangeView {
    if in_page_move(x, y, d) {
        local_change(cells, x, y, t, d, s)
    } else {
        remote_change(x, y, offset_x, offset_y, t, d, s)
    }
}

// ---------------------------------------------------------------------------
// The page and its model

/// A square tile of `PAGE_WIDTH * PAGE_WIDTH` cells, indexed by Morton order.
pub struct Page {
    cells: Vec<Cell>,
    active: RoaringBitmap,
    changes: HashMap<u32, Cell>,
    remote_changes: Vec<RemoteChange>,
    local_signal: Vec<LocalSignal>,
    remote_signal: Vec<RemoteSignal>,
    offset_x: u32,
    offset_y: u32,
}

/// The state of a page as mathematical values.
pub struct PageView {
    pub cells: Seq<CellView>,
    pub active: Set<u32>,
    pub changes: Map<u32, CellView>,
    pub remote_changes: Seq<RemoteChangeView>,
    pub local_signal: Seq<LocalSignal>,
    pub remote_signal: Seq<RemoteSignal>,
    pub offset_x: u32,
    pub offset_y: u32,
}

pub open spec fn cell_views(s: Seq<Cell>) -> Seq<CellView> {
    s.map_values(|c: Cell| c@)
}

pub open spec fn change_views(m: Map<u32, Cell>) -> Map<u32, CellView> {
    m.map_values(|c: Cell| c@)
}

pub open spec fn remote_views(s: Seq<RemoteChange>) -> Seq<RemoteChangeView> {
    s.map_values(|r: RemoteChange| r@)
}

proof fn lemma_change_views_dom(m: Map<u32, Cell>)
    ensures
        change_views(m).dom() == m.dom(),
{
    assert(change_views(m).dom() =~= m.dom());
}

impl View for Page {
    type V = PageView;

    closed spec fn view(&self) -> PageView {
        PageView {
            cells: cell_views(self.cells@),
            active: bitmap_contents(self.active),
            changes: change_views(self.changes@),
            remote_changes: remote_views(self.remote_changes@),
            local_signal: self.local_signal@,
            remote_signal: self.remote_signal@,
            offset_x: self.offset_x,
            offset_y: self.offset_y,
        }
    }
}

pub open spec fn valid_signal(s: LocalSignal) -> bool {
    &&& s.x < PAGE_WIDTH
    &&& s.y < PAGE_WIDTH
    &&& s.to_index < PAGE_SIZE
}

impl PageView {
    /// The page's own bookkeeping holds: every index it keeps lies in the page.
    pub open spec fn well_formed(self) -> bool {
        &&& self.cells.len() == PAGE_SIZE
        &&& forall|i: u32| #[trigger] self.active.contains(i) ==> i < PAGE_SIZE
        &&& forall|i: u32| #[trigger] self.changes.contains_key(i) ==> i < PAGE_SIZE
        &&& forall|k: int|
            0 <= k < self.local_signal.len() ==> valid_signal(#[trigger] self.local_signal[k])
        &&& self.offset_x < MAX_OFFSET
        &&& self.offset_y < MAX_OFFSET
    }

    /// Every active cell and every pending growth is of a non-EMPTY type.
    pub open spec fn growth_ready(self) -> bool {
        &&& forall|i: u32|
            #[trigger] self.active.contains(i) ==> self.cells[i as int].cell_type
                != CellType::Empty
        &&& forall|i: u32|
            #[trigger] self.changes.contains_key(i) ==> self.changes[i].cell_type
                != CellType::Empty
        &&& forall|k: int|
            0 <= k < self.remote_changes.len() ==> (#[trigger] self.remote_changes[k]).cell.cell_type
                != CellType::Empty
    }

    /// The active indices, in increasing order.
    pub open spec fn active_order(self) -> Seq<u32> {
        self.active.to_sorted_seq(ascending())
    }

    pub open spec fn record(self, c: ChangeView) -> PageView {
        match c {
            ChangeView::Local(t, v) => PageView { changes: self.changes.insert(t, v), ..self },
            ChangeView::Remote(r) => PageView {
                remote_changes: self.remote_changes.push(r),
                ..self
            },
            ChangeView::Nothing => self,
        }
    }

    /// The page after the cell at index `i` has tried to grow towards `d`.
    pub open spec fn grow_towards(self, i: int, d: Gate) -> PageView {
        let c = self.cells[i];
        if c.chromosome.holds(Chromosome::of_gate(d)) {
            self.record(
                direction_change(
                    self.cells,
                    x_of(i),
                    y_of(i),
                    self.offset_x,
                    self.offset_y,
                    c.cell_type,
                    d,
                    c.stim,
                ),
            )
        } else {
            self
        }
    }

    /// The page after the cell at index `i` has tried to grow in each
    /// direction, in the order North, South, East, West.
    pub open spec fn grow_index(self, i: int) -> PageView {
        self.grow_towards(i, Gate::North).grow_towards(i, Gate::South).grow_towards(
            i,
            Gate::East,
        ).grow_towards(i, Gate::West)
    }

    /// The page after each index of `order` has grown, in that order.
    pub open spec fn grow_all(self, order: Seq<u32>) -> PageView
        decreases order.len(),
    {
        if order.len() == 0 {
            self
        } else {
            self.grow_all(order.drop_last()).grow_index(order.last() as int)
        }
    }

    /// The growth kernel: every active cell grows, in increasing index order;
    /// a later change to the same target replaces an earlier one.
    pub open spec fn grown(self) -> PageView {
        self.grow_all(self.active_order())
    }

    /// Pending changes applied: each target takes the type, gate and stim of
    /// its change and becomes the active set; the queues are emptied.
    pub open spec fn updated(self) -> PageView {
        PageView {
            cells: Seq::new(
                self.cells.len(),
                |i: int|
                    if self.changes.contains_key(i as u32) {
                        let c = self.changes[i as u32];
                        self.cells[i].with_cell_type(c.cell_type).with_gate(c.gate).with_stim(
                            c.stim,
                        )
                    } else {
                        self.cells[i]
                    },
            ),
            active: self.changes.dom(),
            changes: Map::empty(),
            remote_changes: Seq::empty(),
            ..self
        }
    }
}

impl PageView {
    /// A growth arriving from another page at local `(x, y)`: recorded when
    /// the target cell is EMPTY, with that direction facing back along the travel
    /// direction.
    pub open spec fn with_remote_change(self, x: int, y: int, t: CellType, d: Gate, s: bool) -> PageView {
        let target = index_of(x, y);
        if self.cells[target].cell_type == CellType::Empty {
            PageView { changes: self.changes.insert(target as u32, grown_cell(t, d.opposite(), s)), ..self }
        } else {
            self
        }
    }

    /// An input at local `(x, y)`: the signal is set (clamped to 15) and the
    /// cell becomes active.
    pub open spec fn with_input(self, x: int, y: int, v: int) -> PageView {
        let target = index_of(x, y);
        PageView {
            cells: self.cells.update(target, self.cells[target].with_signal(v)),
            active: self.active.insert(target as u32),
            ..self
        }
    }
}

/// A set of page indices has at most `PAGE_SIZE` elements.
pub proof fn lemma_index_set_bound(s: Set<u32>)
    requires
        forall|i: u32| #[trigger] s.contains(i) ==> i < PAGE_SIZE,
    ensures
        s.finite(),
        s.len() <= PAGE_SIZE,
{
    let range = vstd::set_lib::set_int_range(0, PAGE_SIZE as int);
    let f = |i: int| i as u32;
    vstd::set_lib::lemma_int_range(0, PAGE_SIZE as int);
    vstd::set_lib::lemma_map_size_bound(range, range.map(f), f);
    assert forall|i: u32| #[trigger] s.contains(i) implies range.map(f).contains(i) by {
        assert(range.contains(i as int));
        assert(f(i as int) == i);
    }
    vstd::set_lib::lemma_len_subset(s, range.map(f));
}

// ---------------------------------------------------------------------------
// Signals

/// The signal sent from the cell at `origin`, at local `(x, y)`, into its
/// neighbour towards `d`, which lies in the page: sent when that cell is not
/// EMPTY.
pub open spec fn local_signal_of(cells: Seq<CellView>, origin: int, x: int, y: int, d: Gate) -> SignalType {
    let c = cells[origin];
    let target = neighbor(x, y, d);
    if cells[target].cell_type != CellType::Empty {
        SignalType::Local(
            LocalSignal {
                x: x as u32,
                y: y as u32,
                to_index: target as usize,
                strength: c.signal as u8,
                stim: c.stim,
                origin_cell_type: c.cell_type,
            },
        )
    } else {
        SignalType::NoSignal
    }
}

/// A signal leaving the page from local `(x, y)` towards `d`, addressed in
/// global coordinates; dropped at the grid's West and South edges.
pub open spec fn remote_signal_of(
    x: int,
    y: int,
    offset_x: u32,
    offset_y: u32,
    d: Gate,
    strength: u8,
    stim: bool,
    t: CellType,
) -> SignalType {
    if remote_dropped(offset_x, offset_y, d) {
        SignalType::NoSignal
    } else {
        SignalType::Remote(
            RemoteSignal {
                x: (offset_x + step_x(x, d)) as u32,
                y: (offset_y + step_y(y, d)) as u32,
                strength,
                stim,
                origin_cell_type: t,
            },
        )
    }
}

/// The signal sent from the cell at `origin`, at local `(x, y)`, towards `d`.
pub open spec fn direction_signal(
    cells: Seq<CellView>,
    origin: int,
    x: int,
    y: int,
    offset_x: u32,
    offset_y: u32,
    d: Gate,
) -> SignalType {
    let c = cells[origin];
    if in_page_move(x, y, d) {
        local_signal_of(cells, origin, x, y, d)
    } else {
        remote_signal_of(x, y, offset_x, offset_y, d, c.signal as u8, c.stim, c.cell_type)
    }
}

/// The directions an axon passes a signal on to: all but its gate.
pub open spec fn axon_targets(g: Gate) -> Chromosome {
    Chromosome::from_mask(Chromosome::of_gate(g).mask() ^ 15)
}

/// The direction of travel of a step from `(fx, fy)` to `(tx, ty)`, named by
/// the side it arrives from; a step that is not one of the four unit moves
/// yields the opposite of `gate`.
pub open spec fn arrival_gate(fx: int, fy: int, tx: int, ty: int, gate: Gate) -> Gate {
    let dx = tx - fx;
    let dy = ty - fy;
    if dx == 1 && dy == 0 {
        Gate::West
    } else if dx == -1 && dy == 0 {
        Gate::East
    } else if dx == 0 && dy == 1 {
        Gate::South
    } else if dx == 0 && dy == -1 {
        Gate::North
    } else {
        gate.opposite()
    }
}

/// The target cell after receiving signal `s`, by the pair (origin type,
/// target type): axon to axon adds only when the signal arrives through the
/// target's gate; axon to dendrite or body adds (stim) or subtracts
/// (inhibitory); dendrite or body to dendrite, body or axon adds; anything
/// else is ignored. Additions saturate at 15, subtractions stop at 0.
pub open spec fn received(target: CellView, t: int, s: LocalSignal) -> CellView {
    let add = target.with_signal(target.signal + s.strength);
    let sub = target.with_signal(target.signal - s.strength);
    match (s.origin_cell_type, target.cell_type) {
        (CellType::Axon, CellType::Axon) => if arrival_gate(
            s.x as int,
            s.y as int,
            x_of(t),
            y_of(t),
            target.gate,
        ) == target.gate {
            add
        } else {
            target
        },
        (CellType::Axon, CellType::Dendrite) | (CellType::Axon, CellType::Body) => if s.stim {
            add
        } else {
            sub
        },
        (CellType::Dendrite, CellType::Dendrite)
        | (CellType::Dendrite, CellType::Body)
        | (CellType::Dendrite, CellType::Axon)
        | (CellType::Body, CellType::Dendrite)
        | (CellType::Body, CellType::Body)
        | (CellType::Body, CellType::Axon) => add,
        _ => target,
    }
}

impl PageView {
    pub open spec fn record_signal(self, s: SignalType) -> PageView {
        match s {
            SignalType::Local(l) => PageView { local_signal: self.local_signal.push(l), ..self },
            SignalType::Remote(r) => PageView { remote_signal: self.remote_signal.push(r), ..self },
            SignalType::NoSignal => self,
        }
    }

    /// The page after the cell at index `i` has sent its signal towards `d`.
    pub open spec fn signal_towards(self, i: int, d: Gate) -> PageView {
        self.record_signal(
            direction_signal(self.cells, i, x_of(i), y_of(i), self.offset_x, self.offset_y, d),
        )
    }

    /// The page after the cell at index `i` has fired, if its signal reaches
    /// its threshold: an axon sends to every direction but its gate (in the
    /// order North, South, East, West), a dendrite or body along its gate.
    pub open spec fn signal_index(self, i: int) -> PageView {
        let c = self.cells[i];
        if c.signal < c.threshold {
            self
        } else {
            match c.cell_type {
                CellType::Axon => {
                    let targets = axon_targets(c.gate);
                    let after_north = if targets.holds(Chromosome::North) {
                        self.signal_towards(i, Gate::North)
                    } else {
                        self
                    };
                    let after_south = if targets.holds(Chromosome::South) {
                        after_north.signal_towards(i, Gate::South)
                    } else {
                        after_north
                    };
                    let after_east = if targets.holds(Chromosome::East) {
                        after_south.signal_towards(i, Gate::East)
                    } else {
                        after_south
                    };
                    if targets.holds(Chromosome::West) {
                        after_east.signal_towards(i, Gate::West)
                    } else {
                        after_east
                    }
                },
                CellType::Dendrite | CellType::Body => self.signal_towards(i, c.gate),
                CellType::Empty => self,
            }
        }
    }

    pub open spec fn signal_all(self, order: Seq<u32>) -> PageView
        decreases order.len(),
    {
        if order.len() == 0 {
            self
        } else {
            self.signal_all(order.drop_last()).signal_index(order.last() as int)
        }
    }

    /// The signal kernel: every active cell fires, in increasing index order.
    pub open spec fn signalled(self) -> PageView {
        self.signal_all(self.active_order())
    }

    /// One pending local signal applied: the target receives it, the
    /// originator's signal is cleared, and the target becomes active.
    pub open spec fn deliver(self, s: LocalSignal) -> PageView {
        let t = s.to_index as int;
        let cells1 = self.cells.update(t, received(self.cells[t], t, s));
        let from = index_of(s.x as int, s.y as int);
        PageView {
            cells: cells1.update(from, cells1[from].with_signal(0)),
            active: self.active.insert(s.to_index as u32),
            ..self
        }
    }

    pub open spec fn deliver_all(self, signals: Seq<LocalSignal>) -> PageView
        decreases signals.len(),
    {
        if signals.len() == 0 {
            self
        } else {
            self.deliver_all(signals.drop_last()).deliver(signals.last())
        }
    }

    /// The pending local signals applied in order, starting from an empty
    /// active set; both signal queues are then emptied.
    pub open spec fn signals_delivered(self) -> PageView {
        let p = PageView { active: Set::empty(), ..self }.deliver_all(self.local_signal);
        PageView { local_signal: Seq::empty(), remote_signal: Seq::empty(), ..p }
    }

    /// A signal arriving from another page at local `(x, y)`: queued when the
    /// target cell is not EMPTY, as if it came from an axon.
    pub open spec fn with_remote_signal(self, x: int, y: int, strength: u8, stim: bool) -> PageView {
        let target = index_of(x, y);
        if self.cells[target].cell_type != CellType::Empty {
            PageView {
                local_signal: self.local_signal.push(
                    LocalSignal {
                        x: x as u32,
                        y: y as u32,
                        to_index: target as usize,
                        strength,
                        stim,
                        origin_cell_type: CellType::Axon,
                    },
                ),
                ..self
            }
        } else {
            self
        }
    }
}

/// Sending signals leaves everything but the two signal queues unchanged.
pub open spec fn same_but_signals(p: PageView, q: PageView) -> bool {
    &&& q.cells == p.cells
    &&& q.active == p.active
    &&& q.changes == p.changes
    &&& q.remote_changes == p.remote_changes
    &&& q.offset_x == p.offset_x
    &&& q.offset_y == p.offset_y
}

proof fn lemma_signal_index_frame(p: PageView, i: int)
    ensures
        same_but_signals(p, p.signal_index(i)),
{
    let c = p.cells[i];
    if c.signal >= c.threshold && c.cell_type == CellType::Axon {
        let targets = axon_targets(c.gate);
        let after_north = if targets.holds(Chromosome::North) {
            p.signal_towards(i, Gate::North)
        } else {
            p
        };
        let after_south = if targets.holds(Chromosome::South) {
            after_north.signal_towards(i, Gate::South)
        } else {
            after_north
        };
        let after_east = if targets.holds(Chromosome::East) {
            after_south.signal_towards(i, Gate::East)
        } else {
            after_south
        };
        assert(same_but_signals(p, after_north));
        assert(same_but_signals(p, after_south));
        assert(same_but_signals(p, after_east));
    }
}

pub proof fn lemma_signal_all_frame(p: PageView, order: Seq<u32>)
    ensures
        same_but_signals(p, p.signal_all(order)),
    decreases order.len(),
{
    if order.len() > 0 {
        lemma_signal_all_frame(p, order.drop_last());
        lemma_signal_index_frame(p.signal_all(order.drop_last()), order.last() as int);
    }
}

impl PageView {
    /// A fresh cell of type `t` grown from `(x, y)` into its neighbour towards
    /// `d`, if that cell is EMPTY: it faces back along `d`, takes stim `s`, and
    /// becomes active.
    pub open spec fn sprout(self, x: int, y: int, t: CellType, d: Gate, s: bool) -> PageView {
        let target = neighbor(x, y, d);
        if self.cells[target].cell_type == CellType::Empty {
            PageView {
                cells: self.cells.update(
                    target,
                    self.cells[target].with_cell_type(t).with_gate(d.opposite()).with_stim(s),
                ),
                active: self.active.insert(target as u32),
                ..self
            }
        } else {
            self
        }
    }

    /// A body placed at `(x, y)` with stim `s`: axons grow along its gate and
    /// along that direction turned a quarter (North to West, West to South, South to
    /// East, East to North), dendrites along the opposites of those two.
    pub open spec fn with_body(self, x: int, y: int, s: bool) -> PageView {
        let i = index_of(x, y);
        let body = self.cells[i].with_cell_type(CellType::Body).with_stim(s);
        let p = PageView { cells: self.cells.update(i, body), ..self };
        let g = body.gate;
        p.sprout(x, y, CellType::Axon, g, s).sprout(x, y, CellType::Axon, g.turned(), s).sprout(
            x,
            y,
            CellType::Dendrite,
            g.opposite(),
            false,
        ).sprout(x, y, CellType::Dendrite, g.turned().opposite(), false)
    }

    pub open spec fn active_nonempty(self) -> bool {
        forall|i: u32|
            #[trigger] self.active.contains(i) ==> self.cells[i as int].cell_type != CellType::Empty
    }
}

proof fn lemma_sprout_keeps(p: PageView, x: int, y: int, t: CellType, d: Gate, s: bool)
    requires
        p.well_formed(),
        0 <= neighbor(x, y, d) < PAGE_SIZE,
        t != CellType::Empty,
        p.active_nonempty(),
    ensures
        p.sprout(x, y, t, d, s).active_nonempty(),
        forall|i: int|
            0 <= i < PAGE_SIZE ==> (#[trigger] p.sprout(x, y, t, d, s).cells[i]).threshold
                == p.cells[i].threshold && p.sprout(x, y, t, d, s).cells[i].signal == p.cells[i].signal,
        p.sprout(x, y, t, d, s).cells.len() == p.cells.len(),
{
}

#[verifier::rlimit(40)]
proof fn lemma_with_body_keeps(p: PageView, x: int, y: int, s: bool)
    requires
        p.well_formed(),
        1 <= x < PAGE_WIDTH - 1,
        1 <= y < PAGE_WIDTH - 1,
        p.growth_ready(),
    ensures
        p.with_body(x, y, s).growth_ready(),
        forall|i: int|
            0 <= i < PAGE_SIZE ==> (#[trigger] p.with_body(x, y, s).cells[i]).threshold
                == p.cells[i].threshold && p.with_body(x, y, s).cells[i].signal == p.cells[i].signal,
{
    let i = index_of(x, y);
    lemma_page_bounds(x as nat, y as nat, 0);
    let body = p.cells[i].with_cell_type(CellType::Body).with_stim(s);
    let placed = PageView { cells: p.cells.update(i, body), ..p };
    let g = body.gate;
    assert(placed.active_nonempty());
    let axon_dir = g;
    let second_axon_dir = g.turned();
    let dendrite_dir = g.opposite();
    let second_dendrite_dir = g.turned().opposite();
    lemma_page_bounds(step_x(x, axon_dir) as nat, step_y(y, axon_dir) as nat, 0);
    lemma_page_bounds(step_x(x, second_axon_dir) as nat, step_y(y, second_axon_dir) as nat, 0);
    lemma_page_bounds(step_x(x, dendrite_dir) as nat, step_y(y, dendrite_dir) as nat, 0);
    lemma_page_bounds(step_x(x, second_dendrite_dir) as nat, step_y(y, second_dendrite_dir) as nat, 0);
    lemma_sprout_keeps(placed, x, y, CellType::Axon, axon_dir, s);
    let one_axon = placed.sprout(x, y, CellType::Axon, axon_dir, s);
    lemma_sprout_keeps(one_axon, x, y, CellType::Axon, second_axon_dir, s);
    let two_axons = one_axon.sprout(x, y, CellType::Axon, second_axon_dir, s);
    lemma_sprout_keeps(two_axons, x, y, CellType::Dendrite, dendrite_dir, false);
    let one_dendrite = two_axons.sprout(x, y, CellType::Dendrite, dendrite_dir, false);
    lemma_sprout_keeps(one_dendrite, x, y, CellType::Dendrite, second_dendrite_dir, false);
}

/// A position at least one cell away from every edge of the page, and a stim.
pub open spec fn body_site(b: (int, int, bool)) -> bool {
    1 <= b.0 < PAGE_WIDTH - 1 && 1 <= b.1 < PAGE_WIDTH - 1
}

impl PageView {
    /// A page before any body is placed: every cell EMPTY with a threshold
    /// below 4 and no signal, nothing active and nothing queued.
    pub open spec fn blank(self) -> bool {
        &&& self.cells.len() == PAGE_SIZE
        &&& forall|i: int|
            0 <= i < PAGE_SIZE ==> (#[trigger] self.cells[i]).cell_type == CellType::Empty
                && self.cells[i].threshold < 4 && self.cells[i].signal == 0
        &&& self.active.is_empty()
        &&& self.changes.is_empty()
        &&& self.remote_changes.len() == 0
        &&& self.local_signal.len() == 0
        &&& self.remote_signal.len() == 0
    }

    /// The page after a body is placed at each `(x, y, stim)` of `bodies`,
    /// in order (see `with_body`).
    pub open spec fn with_bodies(self, bodies: Seq<(int, int, bool)>) -> PageView
        decreases bodies.len(),
    {
        if bodies.len() == 0 {
            self
        } else {
            let b = bodies.last();
            self.with_bodies(bodies.drop_last()).with_body(b.0, b.1, b.2)
        }
    }

    /// What holds of every page `Page::new` can build: a blank page at the
    /// given offsets with `body_count` bodies placed on it, each at least one
    /// cell away from every edge.
    pub open spec fn seeded(self, body_count: nat, offset_x: u32, offset_y: u32) -> bool {
        exists|init: PageView, bodies: Seq<(int, int, bool)>|
            {
                &&& init.blank()
                &&& init.offset_x == offset_x
                &&& init.offset_y == offset_y
                &&& bodies.len() == body_count
                &&& forall|j: int| 0 <= j < bodies.len() ==> body_site(#[trigger] bodies[j])
                &&& self == #[trigger] init.with_bodies(bodies)
            }
    }

    /// Every BODY cell lies at least one cell away from every edge of the page.
    pub open spec fn bodies_inside(self) -> bool {
        forall|i: int|
            0 <= i < PAGE_SIZE && (#[trigger] self.cells[i]).cell_type == CellType::Body ==> 1
                <= x_of(i) < PAGE_WIDTH - 1 && 1 <= y_of(i) < PAGE_WIDTH - 1
    }
}

proof fn lemma_with_body_inside(p: PageView, x: int, y: int, s: bool)
    requires
        p.well_formed(),
        1 <= x < PAGE_WIDTH - 1,
        1 <= y < PAGE_WIDTH - 1,
        p.bodies_inside(),
    ensures
        p.with_body(x, y, s).bodies_inside(),
{
    let i = index_of(x, y);
    lemma_page_bounds(x as nat, y as nat, 0);
    crate::zorder::lemma_zorder_round_trip(x as nat, y as nat);
    assert(x_of(i) == x && y_of(i) == y);
    let body = p.cells[i].with_cell_type(CellType::Body).with_stim(s);
    let placed = PageView { cells: p.cells.update(i, body), ..p };
    assert(placed.bodies_inside());
    let g = body.gate;
    lemma_sprout_inside(placed, x, y, CellType::Axon, g, s);
    let one_axon = placed.sprout(x, y, CellType::Axon, g, s);
    lemma_sprout_inside(one_axon, x, y, CellType::Axon, g.turned(), s);
    let two_axons = one_axon.sprout(x, y, CellType::Axon, g.turned(), s);
    lemma_sprout_inside(two_axons, x, y, CellType::Dendrite, g.opposite(), false);
    let one_dendrite = two_axons.sprout(x, y, CellType::Dendrite, g.opposite(), false);
    lemma_sprout_inside(one_dendrite, x, y, CellType::Dendrite, g.turned().opposite(), false);
}

proof fn lemma_sprout_inside(p: PageView, x: int, y: int, t: CellType, d: Gate, s: bool)
    requires
        p.cells.len() == PAGE_SIZE,
        1 <= x < PAGE_WIDTH - 1,
        1 <= y < PAGE_WIDTH - 1,
        t != CellType::Body,
        p.bodies_inside(),
    ensures
        p.sprout(x, y, t, d, s).bodies_inside(),
        p.sprout(x, y, t, d, s).cells.len() == PAGE_SIZE,
{
    lemma_page_bounds(step_x(x, d) as nat, step_y(y, d) as nat, 0);
    let target = neighbor(x, y, d);
    let q = p.sprout(x, y, t, d, s);
    assert forall|i: int|
        0 <= i < PAGE_SIZE && (#[trigger] q.cells[i]).cell_type == CellType::Body implies 1
        <= x_of(i) < PAGE_WIDTH - 1 && 1 <= y_of(i) < PAGE_WIDTH - 1 by {
        if i != target {
            assert(q.cells[i] == p.cells[i]);
        }
    }
}

pub proof fn lemma_deliver_all_frame(p: PageView, signals: Seq<LocalSignal>)
    ensures
        p.deliver_all(signals).changes == p.changes,
        p.deliver_all(signals).remote_changes == p.remote_changes,
        p.deliver_all(signals).local_signal == p.local_signal,
        p.deliver_all(signals).remote_signal == p.remote_signal,
        p.deliver_all(signals).offset_x == p.offset_x,
        p.deliver_all(signals).offset_y == p.offset_y,
    decreases signals.len(),
{
    if signals.len() > 0 {
        lemma_deliver_all_frame(p, signals.drop_last());
    }
}

/// Every index visited by the kernels is in the active set.
pub proof fn lemma_active_order_in_active(p: PageView)
    requires
        p.well_formed(),
    ensures
        forall|j: int|
            0 <= j < p.active_order().len() ==> p.active.contains(#[trigger] p.active_order()[j]),
{
    lemma_index_set_bound(p.active);
    let leq = ascending();
    assert(vstd::relations::total_ordering(leq));
    p.active.to_seq().lemma_sort_by_ensures(leq);
    p.active.lemma_to_seq_to_set_id();
    assert forall|j: int| 0 <= j < p.active_order().len() implies p.active.contains(
        #[trigger] p.active_order()[j],
    ) by {
        let x = p.active_order()[j];
        assert(p.active_order().contains(x));
        assert(p.active.to_seq().contains(x));
        assert(p.active.to_seq().to_set().contains(x));
    }
}

proof fn lemma_grow_towards_ready(p: PageView, i: int, d: Gate)
    requires
        p.well_formed(),
        p.growth_ready(),
        0 <= i < PAGE_SIZE,
        p.active.contains(i as u32),
    ensures
        p.grow_towards(i, d).well_formed(),
        p.grow_towards(i, d).growth_ready(),
        p.grow_towards(i, d).cells == p.cells,
        p.grow_towards(i, d).active == p.active,
{
    lemma_index_geometry(i, d);
    let q = p.grow_towards(i, d);
    assert forall|k: int| 0 <= k < q.remote_changes.len() implies (
    #[trigger] q.remote_changes[k]).cell.cell_type != CellType::Empty by {
        if k < p.remote_changes.len() {
            assert(q.remote_changes[k] == p.remote_changes[k]);
        }
    }
}

proof fn lemma_grow_all_ready(p: PageView, order: Seq<u32>)
    requires
        p.well_formed(),
        p.growth_ready(),
        forall|j: int| 0 <= j < order.len() ==> p.active.contains(#[trigger] order[j]),
    ensures
        p.grow_all(order).well_formed(),
        p.grow_all(order).growth_ready(),
    decreases order.len(),
{
    if order.len() > 0 {
        let rest = order.drop_last();
        assert forall|j: int| 0 <= j < rest.len() implies p.active.contains(#[trigger] rest[j]) by {
            assert(rest[j] == order[j]);
        }
        lemma_grow_all_ready(p, rest);
        lemma_grow_all_frame(p, rest);
        let q = p.grow_all(rest);
        let i = order.last() as int;
        assert(p.active.contains(order[order.len() - 1]));
        lemma_grow_towards_ready(q, i, Gate::North);
        let q1 = q.grow_towards(i, Gate::North);
        lemma_grow_towards_ready(q1, i, Gate::South);
        let q2 = q1.grow_towards(i, Gate::South);
        lemma_grow_towards_ready(q2, i, Gate::East);
        let q3 = q2.grow_towards(i, Gate::East);
        lemma_grow_towards_ready(q3, i, Gate::West);
    }
}

impl PageView {
    /// The growth kernel keeps every active cell and every pending growth of
    /// a non-EMPTY type.
    pub proof fn lemma_grown_ready(self)
        requires
            self.well_formed(),
            self.growth_ready(),
        ensures
            self.grown().well_formed(),
            self.grown().growth_ready(),
    {
        lemma_active_order_in_active(self);
        lemma_grow_all_ready(self, self.active_order());
    }

    /// Applying pending changes of non-EMPTY types leaves only non-EMPTY
    /// cells active, and nothing pending.
    pub proof fn lemma_updated_ready(self)
        requires
            self.well_formed(),
            self.growth_ready(),
        ensures
            self.updated().well_formed(),
            self.updated().growth_ready(),
            self.updated().active_nonempty(),
    {
        let q = self.updated();
        assert forall|i: u32| #[trigger] q.active.contains(i) implies q.cells[i as int].cell_type
            != CellType::Empty by {
            assert(self.changes.contains_key(i));
        }
        assert forall|i: u32| #[trigger] q.active.contains(i) implies i < PAGE_SIZE by {
            assert(self.changes.contains_key(i));
        }
    }

    /// A growth arriving from another page keeps the page well formed and,
    /// when of a non-EMPTY type, keeps every pending growth non-EMPTY.
    pub proof fn lemma_remote_change_ready(self, x: int, y: int, t: CellType, d: Gate, s: bool)
        requires
            self.well_formed(),
            self.growth_ready(),
            0 <= x < PAGE_WIDTH,
            0 <= y < PAGE_WIDTH,
            t != CellType::Empty,
        ensures
            self.with_remote_change(x, y, t, d, s).well_formed(),
            self.with_remote_change(x, y, t, d, s).growth_ready(),
            self.with_remote_change(x, y, t, d, s).remote_changes == self.remote_changes,
    {
        lemma_page_bounds(x as nat, y as nat, 0);
    }
}

impl PageView {
    /// The EMPTY cells of the page.
    pub open spec fn empty_cells(self) -> Set<u32> {
        Set::new(|i: u32| i < PAGE_SIZE && self.cells[i as int].cell_type == CellType::Empty)
    }

    /// Every pending growth targets an EMPTY cell.
    pub open spec fn pending_in_empty(self) -> bool {
        forall|i: u32|
            #[trigger] self.changes.contains_key(i) ==> self.cells[i as int].cell_type
                == CellType::Empty
    }

    /// A growth arriving from another page only ever targets an EMPTY cell
    /// and never withdraws a pending growth.
    pub proof fn lemma_remote_change_pending(self, x: int, y: int, t: CellType, d: Gate, s: bool)
        requires
            self.pending_in_empty(),
            0 <= x < PAGE_WIDTH,
            0 <= y < PAGE_WIDTH,
        ensures
            self.with_remote_change(x, y, t, d, s).pending_in_empty(),
            self.changes.dom().subset_of(self.with_remote_change(x, y, t, d, s).changes.dom()),
            self.with_remote_change(x, y, t, d, s).cells == self.cells,
    {
        lemma_page_bounds(x as nat, y as nat, 0);
    }

    /// Applying pending growths that all target EMPTY cells, with non-EMPTY
    /// types, fills exactly those cells.
    pub proof fn lemma_updated_empty(self)
        requires
            self.well_formed(),
            self.growth_ready(),
            self.pending_in_empty(),
        ensures
            self.updated().empty_cells().finite(),
            self.empty_cells().finite(),
            self.updated().empty_cells().len() + self.changes.len() == self.empty_cells().len(),
    {
        let before = self.empty_cells();
        let after = self.updated().empty_cells();
        let dom = self.changes.dom();
        lemma_index_set_bound(before);
        lemma_index_set_bound(after);
        lemma_index_set_bound(dom);
        assert(after =~= before.difference(dom)) by {
            assert forall|i: u32| after.contains(i) <==> before.contains(i) && !dom.contains(i) by {
                if i < PAGE_SIZE && dom.contains(i) {
                    assert(self.updated().cells[i as int].cell_type == self.changes[i].cell_type);
                }
            }
        }
        assert(dom.subset_of(before));
        assert(before =~= after + dom);
        assert(after.disjoint(dom));
        vstd::set_lib::lemma_set_disjoint_lens(after, dom);
    }
}

proof fn lemma_grow_towards_pending(p: PageView, i: int, d: Gate)
    requires
        p.well_formed(),
        p.pending_in_empty(),
        0 <= i < PAGE_SIZE,
    ensures
        p.grow_towards(i, d).pending_in_empty(),
        p.changes.dom().subset_of(p.grow_towards(i, d).changes.dom()),
{
    lemma_index_geometry(i, d);
}

proof fn lemma_grow_all_pending(p: PageView, order: Seq<u32>)
    requires
        p.well_formed(),
        p.growth_ready(),
        p.pending_in_empty(),
        forall|j: int| 0 <= j < order.len() ==> p.active.contains(#[trigger] order[j]),
    ensures
        p.grow_all(order).pending_in_empty(),
        p.changes.dom().subset_of(p.grow_all(order).changes.dom()),
    decreases order.len(),
{
    if order.len() > 0 {
        let rest = order.drop_last();
        assert forall|j: int| 0 <= j < rest.len() implies p.active.contains(#[trigger] rest[j]) by {
            assert(rest[j] == order[j]);
        }
        lemma_grow_all_pending(p, rest);
        lemma_grow_all_ready(p, rest);
        lemma_grow_all_frame(p, rest);
        let q = p.grow_all(rest);
        let i = order.last() as int;
        assert(p.active.contains(order[order.len() - 1]));
        lemma_grow_towards_ready(q, i, Gate::North);
        lemma_grow_towards_pending(q, i, Gate::North);
        let q1 = q.grow_towards(i, Gate::North);
        lemma_grow_towards_ready(q1, i, Gate::South);
        lemma_grow_towards_pending(q1, i, Gate::South);
        let q2 = q1.grow_towards(i, Gate::South);
        lemma_grow_towards_ready(q2, i, Gate::East);
        lemma_grow_towards_pending(q2, i, Gate::East);
        let q3 = q2.grow_towards(i, Gate::East);
        lemma_grow_towards_pending(q3, i, Gate::West);
    }
}

impl PageView {
    /// The growth kernel only records growth into EMPTY cells.
    pub proof fn lemma_grown_pending(self)
        requires
            self.well_formed(),
            self.growth_ready(),
            self.pending_in_empty(),
        ensures
            self.grown().pending_in_empty(),
            self.grown().cells == self.cells,
    {
        lemma_active_order_in_active(self);
        lemma_grow_all_pending(self, self.active_order());
        lemma_grow_all_frame(self, self.active_order());
    }
}

/// With a single active index, the kernels visit just that index.
proof fn lemma_single_active_order(p: PageView, i: u32)
    requires
        p.active == Set::empty().insert(i),
    ensures
        p.active_order() == seq![i],
{
    let s = p.active;
    assert(s.contains(i));
    assert(s.remove(s.choose()) =~= Set::<u32>::empty());
    assert(Set::<u32>::empty().to_seq() =~= Seq::<u32>::empty());
    assert(s.to_seq() =~= seq![i]);
    let leq = ascending();
    assert(vstd::relations::total_ordering(leq));
    s.to_seq().lemma_sort_by_ensures(leq);
    vstd::seq_lib::lemma_sorted_unique(s.to_seq().sort_by(leq), seq![i], leq);
}

/// A cell alone in the active set, whose chromosome is exactly North, at
/// local `(1, 1)` with an EMPTY cell at `(1, 2)`, grows exactly one cell:
/// at `(1, 2)`, of its own type and stim, facing South; nothing leaves the
/// page.
pub proof fn lemma_single_cell_grows_north(p: PageView)
    requires
        p.well_formed(),
        p.active == Set::empty().insert(index_of(1, 1) as u32),
        p.cells[index_of(1, 1)].chromosome == Chromosome::North,
        p.cells[index_of(1, 2)].cell_type == CellType::Empty,
        p.changes.is_empty(),
        p.remote_changes.len() == 0,
    ensures
        p.grown().changes == Map::<u32, CellView>::empty().insert(
            index_of(1, 2) as u32,
            grown_cell(p.cells[index_of(1, 1)].cell_type, Gate::South, p.cells[index_of(1, 1)].stim),
        ),
        p.grown().remote_changes.len() == 0,
{
    let i = index_of(1, 1);
    lemma_page_bounds(1, 1, 0);
    lemma_page_bounds(1, 2, 0);
    crate::zorder::lemma_zorder_round_trip(1, 1);
    lemma_single_active_order(p, i as u32);
    assert(seq![i as u32].drop_last() =~= Seq::<u32>::empty());
    assert((i as u32) as int == i);
    assert(p.grow_all(Seq::<u32>::empty()) == p);
    assert(p.grow_all(seq![i as u32]) == p.grow_all(seq![i as u32].drop_last()).grow_index(i));
    assert(p.grown() == p.grow_index(i));
    assert(1u32 & 1u32 == 1u32 && 1u32 & 4u32 == 0u32 && 1u32 & 8u32 == 0u32 && 1u32 & 2u32
        == 0u32) by (bit_vector);
    assert(p.changes =~= Map::<u32, CellView>::empty());
    let q = p.grow_towards(i, Gate::North);
    assert(q.grow_towards(i, Gate::South) == q);
    assert(q.grow_towards(i, Gate::East) == q);
    assert(q.grow_towards(i, Gate::West) == q);
}

/// A cell alone in the active set, whose chromosome is exactly East, on the
/// page's East edge at local `(PAGE_WIDTH - 1, y)`, queues exactly one remote
/// change: to global `(offset_x + PAGE_WIDTH, offset_y + y)`, travelling
/// East, with a cell of its own type and stim facing West; nothing is
/// recorded locally.
pub proof fn lemma_single_cell_grows_east_out(p: PageView, y: int)
    requires
        p.well_formed(),
        0 <= y < PAGE_WIDTH,
        p.active == Set::empty().insert(index_of(PAGE_WIDTH - 1, y) as u32),
        p.cells[index_of(PAGE_WIDTH - 1, y)].chromosome == Chromosome::East,
        p.changes.is_empty(),
        p.remote_changes.len() == 0,
    ensures
        p.grown().changes.is_empty(),
        p.grown().remote_changes == seq![
            RemoteChangeView {
                x: (p.offset_x + PAGE_WIDTH) as u32,
                y: (p.offset_y + y) as u32,
                cell: grown_cell(
                    p.cells[index_of(PAGE_WIDTH - 1, y)].cell_type,
                    Gate::West,
                    p.cells[index_of(PAGE_WIDTH - 1, y)].stim,
                ),
                travel_direction: Gate::East,
                stim: p.cells[index_of(PAGE_WIDTH - 1, y)].stim,
            },
        ],
{
    let i = index_of(PAGE_WIDTH - 1, y);
    lemma_page_bounds((PAGE_WIDTH - 1) as nat, y as nat, 0);
    crate::zorder::lemma_zorder_round_trip((PAGE_WIDTH - 1) as nat, y as nat);
    lemma_single_active_order(p, i as u32);
    assert(seq![i as u32].drop_last() =~= Seq::<u32>::empty());
    assert((i as u32) as int == i);
    assert(p.grow_all(Seq::<u32>::empty()) == p);
    assert(p.grow_all(seq![i as u32]) == p.grow_all(seq![i as u32].drop_last()).grow_index(i));
    assert(p.grown() == p.grow_index(i));
    assert(8u32 & 1u32 == 0u32 && 8u32 & 4u32 == 0u32 && 8u32 & 8u32 == 8u32 && 8u32 & 2u32
        == 0u32) by (bit_vector);
    let q = p.grow_towards(i, Gate::North).grow_towards(i, Gate::South);
    assert(q == p);
    let r = q.grow_towards(i, Gate::East);
    assert(r.remote_changes =~= p.remote_changes.push(
        RemoteChangeView {
            x: (p.offset_x + PAGE_WIDTH) as u32,
            y: (p.offset_y + y) as u32,
            cell: grown_cell(p.cells[i].cell_type, Gate::West, p.cells[i].stim),
            travel_direction: Gate::East,
            stim: p.cells[i].stim,
        },
    ));
    assert(r.grow_towards(i, Gate::West) == r);
}

/// Growth arriving from the West at local `(0, y)` of a page with nothing
/// pending: once applied, the cell there is of the arriving type and faces
/// West if it was EMPTY, and is unchanged otherwise.
pub proof fn lemma_arrival_from_west(p: PageView, y: int, t: CellType, s: bool)
    requires
        p.well_formed(),
        0 <= y < PAGE_WIDTH,
        p.changes.is_empty(),
    ensures
        p.cells[index_of(0, y)].cell_type == CellType::Empty ==> p.with_remote_change(
            0,
            y,
            t,
            Gate::East,
            s,
        ).updated().cells[index_of(0, y)].cell_type == t && p.with_remote_change(
            0,
            y,
            t,
            Gate::East,
            s,
        ).updated().cells[index_of(0, y)].gate == Gate::West,
        p.cells[index_of(0, y)].cell_type != CellType::Empty ==> p.with_remote_change(
            0,
            y,
            t,
            Gate::East,
            s,
        ).updated().cells[index_of(0, y)] == p.cells[index_of(0, y)],
{
    let i = index_of(0, y);
    lemma_page_bounds(0, y as nat, 0);
    assert((i as u32) as int == i);
    assert(p.changes =~= Map::<u32, CellView>::empty());
}

pub proof fn lemma_grow_all_frame(p: PageView, order: Seq<u32>)
    ensures
        p.grow_all(order).cells == p.cells,
        p.grow_all(order).active == p.active,
        p.grow_all(order).local_signal == p.local_signal,
        p.grow_all(order).remote_signal == p.remote_signal,
        p.grow_all(order).offset_x == p.offset_x,
        p.grow_all(order).offset_y == p.offset_y,
    decreases order.len(),
{
    if order.len() > 0 {
        lemma_grow_all_frame(p, order.drop_last());
    }
}

/// Facts about page indices: decoding an index below `PAGE_SIZE` gives local
/// coordinates below `PAGE_WIDTH`, and a step that stays in the page reaches
/// an index below `PAGE_SIZE`.
proof fn lemma_index_geometry(i: int, d: Gate)
    requires
        0 <= i < PAGE_SIZE,
    ensures
        0 <= x_of(i) < PAGE_WIDTH,
        0 <= y_of(i) < PAGE_WIDTH,
        in_page_move(x_of(i), y_of(i), d) ==> 0 <= neighbor(x_of(i), y_of(i), d) < PAGE_SIZE,
{
    lemma_page_bounds(0, 0, i as nat);
    let x = x_of(i);
    let y = y_of(i);
    lemma_page_bounds(step_x(x, d) as nat, step_y(y, d) as nat, 0);
}

impl Page {
    pub open spec fn wf(&self) -> bool {
        self@.well_formed()
    }

    /// A cell of type `cell_type` facing `gate`, with the given stim.
    pub fn create_change(cell_type: CellType, gate: Gate, stim: bool) -> (r: Cell)
        ensures
            r@ == grown_cell(cell_type, gate, stim),
    {
        let mut change = Cell::new();
        change.set_cell_type(cell_type);
        change.set_gate(gate);
        change.set_stim(stim);
        change
    }

    /// The index of the neighbour of `(x, y)` towards `direction`, and the
    /// gate a cell grown there would have.
    fn calc_target(x: u32, y: u32, direction: Gate) -> (r: (u32, Gate))
        requires
            0 <= step_x(x as int, direction) < 0x10000,
            0 <= step_y(y as int, direction) < 0x10000,
        ensures
            r.0 == neighbor(x as int, y as int, direction),
            r.1 == direction.opposite(),
    {
        match direction {
            Gate::North => (xy_to_z(x, y + 1), Gate::South),
            Gate::South => (xy_to_z(x, y - 1), Gate::North),
            Gate::East => (xy_to_z(x + 1, y), Gate::West),
            Gate::West => (xy_to_z(x - 1, y), Gate::East),
        }
    }

    /// Tries to grow from `(x, y)` into its neighbour towards
    /// `travel_direction`: a change when that cell is EMPTY.
    pub fn grow_local(
        cells: &Vec<Cell>,
        x: u32,
        y: u32,
        cell_type: CellType,
        travel_direction: Gate,
        stim: bool,
    ) -> (r: ChangeType)
        requires
            0 <= step_x(x as int, travel_direction) < 0x10000,
            0 <= step_y(y as int, travel_direction) < 0x10000,
            neighbor(x as int, y as int, travel_direction) < cells@.len(),
        ensures
            r@ == local_change(
                cell_views(cells@),
                x as int,
                y as int,
                cell_type,
                travel_direction,
                stim,
            ),
    {
        let (target, gate) = Page::calc_target(x, y, travel_direction);
        if cells[target as usize].get_cell_type() == CellType::Empty {
            ChangeType::Local((target, Page::create_change(cell_type, gate, stim)))
        } else {
            ChangeType::NoChange
        }
    }

    /// Growth out of the page from local `(x, y)` towards `travel_direction`,
    /// addressed in global coordinates; dropped at the grid's West and South
    /// edges.
    fn create_remote_change(
        x: u32,
        y: u32,
        offset_x: u32,
        offset_y: u32,
        cell_type: CellType,
        travel_direction: Gate,
        stim: bool,
    ) -> (r: ChangeType)
        requires
            x < PAGE_WIDTH,
            y < PAGE_WIDTH,
            offset_x < MAX_OFFSET,
            offset_y < MAX_OFFSET,
        ensures
            r@ == remote_change(
                x as int,
                y as int,
                offset_x,
                offset_y,
                cell_type,
                travel_direction,
                stim,
            ),
    {
        if (offset_x == 0 && travel_direction == Gate::West) || (offset_y == 0 && travel_direction
            == Gate::South) {
            return ChangeType::NoChange;
        }
        let (gx, gy) = match travel_direction {
            Gate::North => (offset_x + x, offset_y + y + 1),
            Gate::South => (offset_x + x, offset_y + y - 1),
            Gate::West => (offset_x + x - 1, offset_y + y),
            Gate::East => (offset_x + x + 1, offset_y + y),
        };
        ChangeType::Remote(
            RemoteChange {
                x: gx,
                y: gy,
                cell: Page::create_change(cell_type, travel_direction.not(), stim),
                travel_direction: travel_direction,
                stim: stim,
            },
        )
    }

    /// Growth from local `(x, y)` towards `travel_direction`: local when the
    /// step stays in the page, remote otherwise.
    fn process_chromosome_direction(
        travel_direction: Gate,
        cells: &Vec<Cell>,
        x: u32,
        y: u32,
        offset_x: u32,
        offset_y: u32,
        cell_type: CellType,
        stim: bool,
    ) -> (r: ChangeType)
        requires
            x < PAGE_WIDTH,
            y < PAGE_WIDTH,
            offset_x < MAX_OFFSET,
            offset_y < MAX_OFFSET,
            cells@.len() == PAGE_SIZE,
        ensures
            r@ == direction_change(
                cell_views(cells@),
                x as int,
                y as int,
                offset_x,
                offset_y,
                cell_type,
                travel_direction,
                stim,
            ),
    {
        proof {
            lemma_page_bounds(
                step_x(x as int, travel_direction) as nat,
                step_y(y as int, travel_direction) as nat,
                0,
            );
        }
        let inside = match travel_direction {
            Gate::North => y < PAGE_WIDTH - 1,
            Gate::South => y > 0,
            Gate::East => x < PAGE_WIDTH - 1,
            Gate::West => x > 0,
        };
        if inside {
            Page::grow_local(cells, x, y, cell_type, travel_direction, stim)
        } else {
            Page::create_remote_change(x, y, offset_x, offset_y, cell_type, travel_direction, stim)
        }
    }

    /// Files a change: local ones into the change map (replacing an earlier
    /// change to the same target), remote ones at the end of the remote queue.
    fn persist_change(
        local: &mut HashMap<u32, Cell>,
        remote: &mut Vec<RemoteChange>,
        change: ChangeType,
    )
        ensures
            match change@ {
                ChangeView::Local(t, v) => {
                    &&& change_views(final(local)@) == change_views(old(local)@).insert(t, v)
                    &&& final(remote)@ == old(remote)@
                },
                ChangeView::Remote(r) => {
                    &&& final(local)@ == old(local)@
                    &&& remote_views(final(remote)@) == remote_views(old(remote)@).push(r)
                },
                ChangeView::Nothing => {
                    &&& final(local)@ == old(local)@
                    &&& final(remote)@ == old(remote)@
                },
            },
    {
        let ghost old_local = local@;
        let ghost old_remote = remote@;
        match change {
            ChangeType::Local((target, cell)) => {
                local.insert(target, cell);
                assert(change_views(local@) =~= change_views(old_local).insert(
                    target,
                    cell@,
                ));
            },
            ChangeType::Remote(r) => {
                remote.push(r);
                assert(remote_views(remote@) =~= remote_views(old_remote).push(r@));
            },
            ChangeType::NoChange => {},
        }
    }
    /// Tries to grow the cell at `index`, at local `(x, y)`, towards `d`.
    fn grow_towards(&mut self, index: u32, x: u32, y: u32, d: Gate, cell_type: CellType, stim: bool)
        requires
            old(self).wf(),
            index < PAGE_SIZE,
            x == x_of(index as int),
            y == y_of(index as int),
            cell_type == old(self)@.cells[index as int].cell_type,
            stim == old(self)@.cells[index as int].stim,
        ensures
            final(self).wf(),
            final(self)@ == old(self)@.grow_towards(index as int, d),
    {
        proof {
            lemma_index_geometry(index as int, d);
        }
        let ghost mut change_key: u32 = 0;
        if self.cells[index as usize].chromosome_contains(Chromosome::from(d)) {
            let change = Page::process_chromosome_direction(
                d,
                &self.cells,
                x,
                y,
                self.offset_x,
                self.offset_y,
                cell_type,
                stim,
            );
            proof {
                if change@ is Local {
                    assert(in_page_move(x as int, y as int, d));
                    assert(change@->Local_0 < PAGE_SIZE);
                    change_key = change@->Local_0;
                }
            }
            Page::persist_change(&mut self.changes, &mut self.remote_changes, change);
        }
        proof {
            assert(self@.active == old(self)@.active);
            assert(self@.local_signal == old(self)@.local_signal);
            lemma_change_views_dom(self.changes@);
            lemma_change_views_dom(old(self).changes@);
            assert forall|i: u32| #[trigger] self@.changes.contains_key(i) implies i
                < PAGE_SIZE by {
                if !old(self)@.changes.contains_key(i) {
                    assert(i == change_key);
                }
            }
        }
    }

    /// The growth kernel: each active cell, in increasing index order, grows
    /// along every direction of its chromosome. Growth inside the page is
    /// recorded in the change map (a later change to the same target
    /// replaces an earlier one); growth out of the page is queued as a
    /// remote change.
    pub fn grow(&mut self)
        requires
            old(self).wf(),
        ensures
            final(self).wf(),
            final(self)@ == old(self)@.grown(),
    {
        let order = bitmap_values(&self.active);
        let ghost start = self@;
        let mut k: usize = 0;
        while k < order.len()
            invariant
                self.wf(),
                start.well_formed(),
                0 <= k <= order@.len(),
                order@ == start.active_order(),
                forall|j: int| 0 <= j < order@.len() ==> start.active.contains(#[trigger] order@[j]),
                self@ == start.grow_all(order@.take(k as int)),
            decreases order@.len() - k,
        {
            let index = order[k];
            proof {
                assert(start.active.contains(order@[k as int]));
                lemma_grow_all_frame(start, order@.take(k as int));
                lemma_page_bounds(0, 0, index as nat);
            }
            let (x, y) = z_to_xy(index);
            let cell_type = self.cells[index as usize].get_cell_type();
            let stim = self.cells[index as usize].get_stim();
            self.grow_towards(index, x, y, Gate::North, cell_type, stim);
            self.grow_towards(index, x, y, Gate::South, cell_type, stim);
            self.grow_towards(index, x, y, Gate::East, cell_type, stim);
            self.grow_towards(index, x, y, Gate::West, cell_type, stim);
            proof {
                assert(order@.take(k as int + 1).drop_last() =~= order@.take(k as int));
            }
            k = k + 1;
        }
        proof {
            assert(order@.take(k as int) =~= order@);
        }
    }

    /// The queue of growth leaving this page.
    pub fn get_remote_changes(&self) -> (r: &Vec<RemoteChange>)
        ensures
            remote_views(r@) == self@.remote_changes,
    {
        &self.remote_changes
    }

    /// The number of pending local changes.
    pub fn get_active_cell_count(&self) -> (r: u32)
        requires
            self.wf(),
        ensures
            r as nat == self@.changes.len(),
    {
        proof {
            lemma_index_set_bound(self@.changes.dom());
            assert(self.changes@.dom() =~= self@.changes.dom());
        }
        self.changes.len() as u32
    }

    /// Applies the pending changes: the active set becomes the set of
    /// targets, each target takes its change's type, gate and stim, and both
    /// change queues are emptied.
    pub fn update(&mut self)
        requires
            old(self).wf(),
        ensures
            final(self).wf(),
            final(self)@ == old(self)@.updated(),
    {
        let ghost start = self@;
        bitmap_clear(&mut self.active);
        if !self.changes.is_empty() {
            let mut i: u32 = 0;
            while i < PAGE_SIZE
                invariant
                    start.well_formed(),
                    i <= PAGE_SIZE,
                    self.cells@.len() == PAGE_SIZE,
                    change_views(self.changes@) == start.changes,
                    self.remote_changes@ == old(self).remote_changes@,
                    self.local_signal@ == old(self).local_signal@,
                    self.remote_signal@ == old(self).remote_signal@,
                    self.offset_x == old(self).offset_x,
                    self.offset_y == old(self).offset_y,
                    start == old(self)@,
                    forall|j: int|
                        0 <= j < PAGE_SIZE ==> #[trigger] self@.cells[j] == (if j < i {
                            start.updated().cells[j]
                        } else {
                            start.cells[j]
                        }),
                    bitmap_contents(self.active) == Set::new(
                        |j: u32| j < i && start.changes.contains_key(j),
                    ),
                decreases PAGE_SIZE - i,
            {
                let ghost cells_before = self@.cells;
                match self.changes.get(&i) {
                    Some(c) => {
                        let change = *c;
                        proof {
                            lemma_change_views_dom(self.changes@);
                            assert(start.changes.contains_key(i));
                            assert(start.changes[i] == change@);
                        }
                        let mut cell = self.cells[i as usize];
                        assert(self@.cells[i as int] == start.cells[i as int]);
                        assert(cell@ == start.cells[i as int]);
                        cell.set_cell_type(change.get_cell_type());
                        cell.set_gate(change.get_gate());
                        cell.set_stim(change.get_stim());
                        assert(cell@ == start.updated().cells[i as int]);
                        self.cells.set(i as usize, cell);
                        bitmap_insert(&mut self.active, i);
                        proof {
                            assert(self@.cells =~= cells_before.update(
                                i as int,
                                start.updated().cells[i as int],
                            ));
                            assert(bitmap_contents(self.active) =~= Set::new(
                                |j: u32| j < i + 1 && start.changes.contains_key(j),
                            ));
                        }
                    },
                    None => {
                        proof {
                            lemma_change_views_dom(self.changes@);
                            assert(!start.changes.contains_key(i));
                            assert(start.updated().cells[i as int] == start.cells[i as int]);
                            assert(Set::new(|j: u32| j < i + 1 && start.changes.contains_key(j))
                                =~= Set::new(|j: u32| j < i && start.changes.contains_key(j)));
                        }
                    },
                }
                i = i + 1;
            }
            proof {
                assert(bitmap_contents(self.active) =~= start.changes.dom());
                assert forall|j: int| 0 <= j < PAGE_SIZE implies #[trigger] self@.cells[j]
                    == start.updated().cells[j] by {}
            }
        } else {
            proof {
                lemma_change_views_dom(self.changes@);
                assert(start.changes.dom() =~= Set::empty());
                assert forall|j: int| 0 <= j < PAGE_SIZE implies #[trigger] self@.cells[j]
                    == start.updated().cells[j] by {
                    assert(!start.changes.contains_key(j as u32));
                }
                assert(bitmap_contents(self.active) =~= start.changes.dom());
            }
        }
        proof {
            assert(self@.cells.len() == start.updated().cells.len());
            assert forall|j: int| 0 <= j < self@.cells.len() implies #[trigger] self@.cells[j]
                == start.updated().cells[j] by {}
            assert(self@.cells =~= start.updated().cells);
        }
        let ghost cells_done = self.cells@;
        self.changes.clear();
        self.remote_changes.clear();
        proof {
            assert(self.cells@ == cells_done);
            assert(self@.changes =~= start.updated().changes);
            assert(self@.remote_changes =~= start.updated().remote_changes);
        }
    }

    /// Records growth arriving from another page at local `(x, y)`, when the
    /// target cell is EMPTY; the grown cell faces back along `travel_direction`.
    pub fn add_change(&mut self, x: u32, y: u32, cell: Cell, travel_direction: Gate, stim: bool)
        requires
            old(self).wf(),
            x < PAGE_WIDTH,
            y < PAGE_WIDTH,
        ensures
            final(self).wf(),
            final(self)@ == old(self)@.with_remote_change(
                x as int,
                y as int,
                cell@.cell_type,
                travel_direction,
                stim,
            ),
    {
        let cell_type = cell.get_cell_type();
        let target = xy_to_z(x, y);
        proof {
            lemma_page_bounds(x as nat, y as nat, 0);
            assert(x % 0x10000 == x && y % 0x10000 == y);
        }
        if self.cells[target as usize].get_cell_type() == CellType::Empty {
            let ghost before = self.changes@;
            self.changes.insert(target, Page::create_change(cell_type, travel_direction.not(), stim));
            proof {
                assert(self@.changes =~= change_views(before).insert(
                    target,
                    grown_cell(cell_type, travel_direction.opposite(), stim),
                ));
            }
        }
        proof {
            assert(self@.active == old(self)@.active);
            assert(self@.local_signal == old(self)@.local_signal);
            assert(target < PAGE_SIZE);
            assert forall|i: u32| #[trigger] self@.changes.contains_key(i) implies i
                < PAGE_SIZE by {
                if i != target {
                    lemma_change_views_dom(self.changes@);
                    lemma_change_views_dom(old(self).changes@);
                    assert(old(self)@.changes.contains_key(i));
                }
            }
        }
    }

    /// The cell at local `(x, y)`.
    pub fn get_cell(&self, x: u32, y: u32) -> (r: &Cell)
        requires
            self.wf(),
            x < PAGE_WIDTH,
            y < PAGE_WIDTH,
        ensures
            r@ == self@.cells[index_of(x as int, y as int)],
    {
        proof {
            lemma_page_bounds(x as nat, y as nat, 0);
        }
        let z = xy_to_z(x, y);
        &self.cells[z as usize]
    }

    /// Sets the signal of the cell at local `(x, y)` (clamped to 15) and marks
    /// it active.
    pub fn set_input(&mut self, x: u32, y: u32, sig: u8)
        requires
            old(self).wf(),
            x < PAGE_WIDTH,
            y < PAGE_WIDTH,
        ensures
            final(self).wf(),
            final(self)@ == old(self)@.with_input(x as int, y as int, sig as int),
    {
        proof {
            lemma_page_bounds(x as nat, y as nat, 0);
        }
        let z = xy_to_z(x, y);
        assert(x % 0x10000 == x && y % 0x10000 == y);
        let mut cell = self.cells[z as usize];
        cell.set_signal(sig);
        self.cells.set(z as usize, cell);
        bitmap_insert(&mut self.active, z);
        proof {
            assert(self@.cells =~= old(self)@.cells.update(
                z as int,
                old(self)@.cells[z as int].with_signal(sig as int),
            ));
            assert(self@.active == old(self)@.active.insert(z));
            assert(self@.changes == old(self)@.changes);
            assert(self@.local_signal == old(self)@.local_signal);
        }
    }
}

impl Page {
    /// The signal from the cell at `origin`, at local `(x, y)`, into its
    /// neighbour towards `travel_direction`, which lies in the page.
    fn signal_local(cells: &Vec<Cell>, origin: usize, x: u32, y: u32, travel_direction: Gate) -> (r:
        SignalType)
        requires
            cells@.len() == PAGE_SIZE,
            origin < PAGE_SIZE,
            x < PAGE_WIDTH,
            y < PAGE_WIDTH,
            in_page_move(x as int, y as int, travel_direction),
        ensures
            r == local_signal_of(cell_views(cells@), origin as int, x as int, y as int, travel_direction),
    {
        proof {
            lemma_page_bounds(
                step_x(x as int, travel_direction) as nat,
                step_y(y as int, travel_direction) as nat,
                0,
            );
        }
        let (target, _) = Page::calc_target(x, y, travel_direction);
        if cells[target as usize].get_cell_type() != CellType::Empty {
            SignalType::Local(
                LocalSignal {
                    x: x,
                    y: y,
                    to_index: target as usize,
                    strength: cells[origin].get_signal(),
                    stim: cells[origin].get_stim(),
                    origin_cell_type: cells[origin].get_cell_type(),
                },
            )
        } else {
            SignalType::NoSignal
        }
    }

    /// A signal leaving the page from local `(x, y)` towards
    /// `travel_direction`, addressed in global coordinates.
    fn signal_remote(
        strength: u8,
        stim: bool,
        x: u32,
        y: u32,
        offset_x: u32,
        offset_y: u32,
        travel_direction: Gate,
        cell_type: CellType,
    ) -> (r: SignalType)
        requires
            x < PAGE_WIDTH,
            y < PAGE_WIDTH,
            offset_x < MAX_OFFSET,
            offset_y < MAX_OFFSET,
        ensures
            r == remote_signal_of(
                x as int,
                y as int,
                offset_x,
                offset_y,
                travel_direction,
                strength,
                stim,
                cell_type,
            ),
    {
        if (offset_x == 0 && travel_direction == Gate::West) || (offset_y == 0 && travel_direction
            == Gate::South) {
            return SignalType::NoSignal;
        }
        let (gx, gy) = match travel_direction {
            Gate::North => (offset_x + x, offset_y + y + 1),
            Gate::South => (offset_x + x, offset_y + y - 1),
            Gate::West => (offset_x + x - 1, offset_y + y),
            Gate::East => (offset_x + x + 1, offset_y + y),
        };
        SignalType::Remote(
            RemoteSignal {
                x: gx,
                y: gy,
                strength: strength,
                stim: stim,
                origin_cell_type: cell_type,
            },
        )
    }

    /// The signal from the cell at `origin`, at local `(x, y)`, towards
    /// `travel_direction`: local when the step stays in the page, remote
    /// otherwise.
    fn process_signal(
        travel_direction: Gate,
        cells: &Vec<Cell>,
        origin: usize,
        x: u32,
        y: u32,
        offset_x: u32,
        offset_y: u32,
    ) -> (r: SignalType)
        requires
            cells@.len() == PAGE_SIZE,
            origin < PAGE_SIZE,
            x < PAGE_WIDTH,
            y < PAGE_WIDTH,
            offset_x < MAX_OFFSET,
            offset_y < MAX_OFFSET,
        ensures
            r == direction_signal(
                cell_views(cells@),
                origin as int,
                x as int,
                y as int,
                offset_x,
                offset_y,
                travel_direction,
            ),
    {
        let inside = match travel_direction {
            Gate::North => y < PAGE_WIDTH - 1,
            Gate::South => y > 0,
            Gate::East => x < PAGE_WIDTH - 1,
            Gate::West => x > 0,
        };
        if inside {
            Page::signal_local(cells, origin, x, y, travel_direction)
        } else {
            let strength = cells[origin].get_signal();
            let stim = cells[origin].get_stim();
            let cell_type = cells[origin].get_cell_type();
            Page::signal_remote(strength, stim, x, y, offset_x, offset_y, travel_direction, cell_type)
        }
    }

    /// Files a signal: local ones and remote ones at the end of their queues.
    fn persist_signal(local: &mut Vec<LocalSignal>, remote: &mut Vec<RemoteSignal>, change: SignalType)
        ensures
            match change {
                SignalType::Local(l) => final(local)@ == old(local)@.push(l) && final(remote)@ == old(
                    remote,
                )@,
                SignalType::Remote(r) => final(local)@ == old(local)@ && final(remote)@ == old(
                    remote,
                )@.push(r),
                SignalType::NoSignal => final(local)@ == old(local)@ && final(remote)@ == old(
                    remote,
                )@,
            },
    {
        match change {
            SignalType::Local(l) => {
                local.push(l);
            },
            SignalType::Remote(r) => {
                remote.push(r);
            },
            SignalType::NoSignal => {},
        }
    }

    /// The cell at `index`, at local `(x, y)`, sends its signal towards `d`.
    fn signal_towards(&mut self, index: u32, x: u32, y: u32, d: Gate)
        requires
            old(self).wf(),
            index < PAGE_SIZE,
            x == x_of(index as int),
            y == y_of(index as int),
        ensures
            final(self).wf(),
            final(self)@ == old(self)@.signal_towards(index as int, d),
    {
        proof {
            lemma_index_geometry(index as int, d);
        }
        let sig = Page::process_signal(
            d,
            &self.cells,
            index as usize,
            x,
            y,
            self.offset_x,
            self.offset_y,
        );
        Page::persist_signal(&mut self.local_signal, &mut self.remote_signal, sig);
        proof {
            assert(self@.active == old(self)@.active);
            assert(self@.changes == old(self)@.changes);
            assert forall|k: int| 0 <= k < self@.local_signal.len() implies valid_signal(
                #[trigger] self@.local_signal[k],
            ) by {
                if k < old(self)@.local_signal.len() {
                    assert(self@.local_signal[k] == old(self)@.local_signal[k]);
                }
            }
        }
    }

    /// The cell at `index` fires if its signal reaches its threshold.
    fn signal_cell(&mut self, index: u32)
        requires
            old(self).wf(),
            index < PAGE_SIZE,
        ensures
            final(self).wf(),
            final(self)@ == old(self)@.signal_index(index as int),
    {
        proof {
            lemma_page_bounds(0, 0, index as nat);
        }
        let threshold = self.cells[index as usize].get_threshold();
        let signal = self.cells[index as usize].get_signal();
        if signal < threshold {
            return ;
        }
        let (x, y) = z_to_xy(index);
        let cell_type = self.cells[index as usize].get_cell_type();
        let gate = self.cells[index as usize].get_gate();
        match cell_type {
            CellType::Axon => {
                let targets = Chromosome::from(gate).invert();
                proof {
                    crate::cell::lemma_chromosome_mask(targets);
                    assert(targets == axon_targets(gate));
                }
                if targets.contains(Chromosome::North) {
                    self.signal_towards(index, x, y, Gate::North);
                }
                if targets.contains(Chromosome::South) {
                    self.signal_towards(index, x, y, Gate::South);
                }
                if targets.contains(Chromosome::East) {
                    self.signal_towards(index, x, y, Gate::East);
                }
                if targets.contains(Chromosome::West) {
                    self.signal_towards(index, x, y, Gate::West);
                }
            },
            CellType::Dendrite | CellType::Body => {
                self.signal_towards(index, x, y, gate);
            },
            CellType::Empty => {},
        }
    }

    /// The signal kernel: each active cell, in increasing index order, fires
    /// if its signal reaches its threshold. Signals inside the page are
    /// queued as local signals, those leaving it as remote signals.
    pub fn signal(&mut self)
        requires
            old(self).wf(),
        ensures
            final(self).wf(),
            final(self)@ == old(self)@.signalled(),
    {
        let order = bitmap_values(&self.active);
        let ghost start = self@;
        let mut k: usize = 0;
        while k < order.len()
            invariant
                self.wf(),
                start.well_formed(),
                0 <= k <= order@.len(),
                order@ == start.active_order(),
                forall|j: int| 0 <= j < order@.len() ==> start.active.contains(#[trigger] order@[j]),
                self@ == start.signal_all(order@.take(k as int)),
            decreases order@.len() - k,
        {
            let index = order[k];
            proof {
                assert(start.active.contains(order@[k as int]));
                lemma_signal_all_frame(start, order@.take(k as int));
            }
            self.signal_cell(index);
            proof {
                assert(order@.take(k as int + 1).drop_last() =~= order@.take(k as int));
            }
            k = k + 1;
        }
        proof {
            assert(order@.take(k as int) =~= order@);
        }
    }

    /// The queue of signals leaving this page.
    pub fn get_remote_signal(&self) -> (r: &Vec<RemoteSignal>)
        ensures
            r@ == self@.remote_signal,
    {
        &self.remote_signal
    }
}

impl Page {
    /// The side a step from `(fx, fy)` to `(tx, ty)` arrives from, or the
    /// opposite of `gate` when the step is not a unit move.
    fn arrival(fx: u32, fy: u32, tx: u32, ty: u32, gate: Gate) -> (r: Gate)
        ensures
            r == arrival_gate(fx as int, fy as int, tx as int, ty as int, gate),
    {
        let dx: i64 = tx as i64 - fx as i64;
        let dy: i64 = ty as i64 - fy as i64;
        if dx == 1 && dy == 0 {
            Gate::West
        } else if dx == -1 && dy == 0 {
            Gate::East
        } else if dx == 0 && dy == 1 {
            Gate::South
        } else if dx == 0 && dy == -1 {
            Gate::North
        } else {
            gate.not()
        }
    }

    /// The cell at index `t` after receiving `signal`.
    fn receive(target: Cell, t: usize, signal: LocalSignal) -> (r: Cell)
        requires
            t < PAGE_SIZE,
        ensures
            r@ == received(target@, t as int, signal),
    {
        let mut cell = target;
        match (signal.origin_cell_type, cell.get_cell_type()) {
            (CellType::Axon, CellType::Axon) => {
                let (x, y) = z_to_xy(t as u32);
                let direction = Page::arrival(signal.x, signal.y, x, y, cell.get_gate());
                if direction == cell.get_gate() {
                    cell.add_signal(signal.strength);
                }
            },
            (CellType::Axon, CellType::Dendrite) | (CellType::Axon, CellType::Body) => {
                if signal.stim {
                    cell.add_signal(signal.strength);
                } else {
                    cell.sub_signal(signal.strength);
                }
            },
            (CellType::Dendrite, CellType::Dendrite)
            | (CellType::Dendrite, CellType::Body)
            | (CellType::Dendrite, CellType::Axon)
            | (CellType::Body, CellType::Dendrite)
            | (CellType::Body, CellType::Body)
            | (CellType::Body, CellType::Axon) => {
                cell.add_signal(signal.strength);
            },
            (_, _) => {},
        }
        cell
    }

    /// Applies the pending local signals in order: each target receives its
    /// signal, the originator's signal is cleared, and the targets form the
    /// new active set. Both signal queues are emptied; returns the number of
    /// active cells.
    pub fn update_signal(&mut self) -> (r: u32)
        requires
            old(self).wf(),
        ensures
            final(self).wf(),
            final(self)@ == old(self)@.signals_delivered(),
            r as nat == final(self)@.active.len(),
    {
        let ghost start = self@;
        let ghost base = PageView { active: Set::empty(), ..start };
        bitmap_clear(&mut self.active);
        let n = self.local_signal.len();
        let mut k: usize = 0;
        while k < n
            invariant
                start.well_formed(),
                start == old(self)@,
                n == start.local_signal.len(),
                0 <= k <= n,
                self.local_signal@ == start.local_signal,
                self.remote_signal@ == start.remote_signal,
                self.changes@ == old(self).changes@,
                self.remote_changes@ == old(self).remote_changes@,
                self.offset_x == old(self).offset_x,
                self.offset_y == old(self).offset_y,
                self.cells@.len() == PAGE_SIZE,
                self@.cells == base.deliver_all(start.local_signal.take(k as int)).cells,
                self@.active == base.deliver_all(start.local_signal.take(k as int)).active,
                forall|i: u32| #[trigger] self@.active.contains(i) ==> i < PAGE_SIZE,
            decreases n - k,
        {
            let signal = self.local_signal[k];
            let ghost before = self@;
            proof {
                assert(valid_signal(start.local_signal[k as int]));
                lemma_page_bounds(signal.x as nat, signal.y as nat, 0);
                assert(signal.x % 0x10000 == signal.x && signal.y % 0x10000 == signal.y);
            }
            let t = signal.to_index;
            let received_cell = Page::receive(self.cells[t], t, signal);
            self.cells.set(t, received_cell);
            let from = xy_to_z(signal.x, signal.y);
            let mut origin = self.cells[from as usize];
            origin.clear_signal();
            self.cells.set(from as usize, origin);
            bitmap_insert(&mut self.active, t as u32);
            proof {
                let prev = base.deliver_all(start.local_signal.take(k as int));
                assert(start.local_signal.take(k as int + 1).drop_last() =~= start.local_signal.take(
                    k as int,
                ));
                assert(start.local_signal.take(k as int + 1).last() == signal);
                let cells1 = before.cells.update(t as int, received(before.cells[t as int], t as int, signal));
                assert(self@.cells =~= cells1.update(from as int, cells1[from as int].with_signal(0)));
                assert(self@.active =~= prev.active.insert(t as u32));
            }
            k = k + 1;
        }
        let ghost cells_done = self.cells@;
        self.local_signal.clear();
        self.remote_signal.clear();
        proof {
            assert(start.local_signal.take(n as int) =~= start.local_signal);
            assert(self.cells@ == cells_done);
            let done = base.deliver_all(start.local_signal);
            assert(self@.cells == done.cells);
            assert(self@.active == done.active);
            assert(self@.local_signal =~= Seq::<LocalSignal>::empty());
            assert(self@.remote_signal =~= Seq::<RemoteSignal>::empty());
            lemma_deliver_all_frame(base, start.local_signal);
            lemma_index_set_bound(self@.active);
        }
        bitmap_len(&self.active) as u32
    }

    /// Queues a signal arriving from another page at local `(x, y)`, when the
    /// target cell is not EMPTY; it is treated as coming from an axon.
    pub fn add_signal(&mut self, x: u32, y: u32, strength: u8, stim: bool)
        requires
            old(self).wf(),
            x < PAGE_WIDTH,
            y < PAGE_WIDTH,
        ensures
            final(self).wf(),
            final(self)@ == old(self)@.with_remote_signal(x as int, y as int, strength, stim),
    {
        let target = xy_to_z(x, y);
        proof {
            lemma_page_bounds(x as nat, y as nat, 0);
            assert(x % 0x10000 == x && y % 0x10000 == y);
        }
        if self.cells[target as usize].get_cell_type() != CellType::Empty {
            self.local_signal.push(
                LocalSignal {
                    x: x,
                    y: y,
                    to_index: target as usize,
                    strength: strength,
                    stim: stim,
                    origin_cell_type: CellType::Axon,
                },
            );
        }
        proof {
            assert(self@.active == old(self)@.active);
            assert(self@.changes == old(self)@.changes);
            assert forall|k: int| 0 <= k < self@.local_signal.len() implies valid_signal(
                #[trigger] self@.local_signal[k],
            ) by {
                if k < old(self)@.local_signal.len() {
                    assert(self@.local_signal[k] == old(self)@.local_signal[k]);
                }
            }
        }
    }
}

impl Page {
    /// Grows a fresh cell of type `cell_type` from `(x, y)` into its EMPTY
    /// neighbour towards `d`, facing back, and marks it active.
    fn sprout(&mut self, x: u32, y: u32, cell_type: CellType, d: Gate, stim: bool)
        requires
            old(self).wf(),
            x < PAGE_WIDTH,
            y < PAGE_WIDTH,
            in_page_move(x as int, y as int, d),
        ensures
            final(self).wf(),
            final(self)@ == old(self)@.sprout(x as int, y as int, cell_type, d, stim),
    {
        proof {
            lemma_page_bounds(step_x(x as int, d) as nat, step_y(y as int, d) as nat, 0);
        }
        match Page::grow_local(&self.cells, x, y, cell_type, d, stim) {
            ChangeType::Local((target, change)) => {
                assert(target as int == neighbor(x as int, y as int, d));
                assert(target < PAGE_SIZE);
                let mut cell = self.cells[target as usize];
                cell.set_cell_type(change.get_cell_type());
                cell.set_gate(change.get_gate());
                cell.set_stim(stim);
                self.cells.set(target as usize, cell);
                bitmap_insert(&mut self.active, target);
                proof {
                    assert(self@.active == old(self)@.active.insert(target));
                    assert(self@.cells =~= old(self)@.cells.update(
                        target as int,
                        old(self)@.cells[target as int].with_cell_type(cell_type).with_gate(
                            d.opposite(),
                        ).with_stim(stim),
                    ));
                }
            },
            _ => {
                assert(self@.active == old(self)@.active);
            },
        }
        proof {
            assert(self@.changes == old(self)@.changes);
            assert(self@.local_signal == old(self)@.local_signal);
        }
    }

    /// Makes the cell at `(x, y)` a BODY with the given stim, then grows its
    /// axons along its gate and that direction turned a quarter, and its dendrites
    /// along the opposites of those two, each into an EMPTY neighbour.
    pub fn place_body(&mut self, x: u32, y: u32, stim: bool)
        requires
            old(self).wf(),
            1 <= x < PAGE_WIDTH - 1,
            1 <= y < PAGE_WIDTH - 1,
        ensures
            final(self).wf(),
            final(self)@ == old(self)@.with_body(x as int, y as int, stim),
    {
        proof {
            lemma_page_bounds(x as nat, y as nat, 0);
            assert(x % 0x10000 == x && y % 0x10000 == y);
        }
        let index = xy_to_z(x, y);
        let mut body = self.cells[index as usize];
        body.set_cell_type(CellType::Body);
        body.set_stim(stim);
        self.cells.set(index as usize, body);
        proof {
            assert(self@.cells =~= old(self)@.cells.update(
                index as int,
                old(self)@.cells[index as int].with_cell_type(CellType::Body).with_stim(stim),
            ));
            assert(self@.active == old(self)@.active);
            assert(self@.changes == old(self)@.changes);
            assert(self@.local_signal == old(self)@.local_signal);
        }
        let axon_direction = body.get_gate();
        let secondary_axon = axon_direction.turn();
        let dendrite_direction = axon_direction.not();
        let secondary_dendrite = secondary_axon.not();
        self.sprout(x, y, CellType::Axon, axon_direction, stim);
        self.sprout(x, y, CellType::Axon, secondary_axon, stim);
        self.sprout(x, y, CellType::Dendrite, dendrite_direction, false);
        self.sprout(x, y, CellType::Dendrite, secondary_dendrite, false);
    }

    /// Replaces the cell at local `(x, y)`.
    pub fn set_cell(&mut self, x: u32, y: u32, cell: Cell)
        requires
            old(self).wf(),
            x < PAGE_WIDTH,
            y < PAGE_WIDTH,
        ensures
            final(self).wf(),
            final(self)@ == (PageView {
                cells: old(self)@.cells.update(index_of(x as int, y as int), cell@),
                ..old(self)@
            }),
    {
        proof {
            lemma_page_bounds(x as nat, y as nat, 0);
            assert(x % 0x10000 == x && y % 0x10000 == y);
        }
        let z = xy_to_z(x, y);
        self.cells.set(z as usize, cell);
        proof {
            assert(self@.cells =~= old(self)@.cells.update(z as int, cell@));
            assert(self@.active == old(self)@.active);
            assert(self@.changes == old(self)@.changes);
            assert(self@.local_signal == old(self)@.local_signal);
        }
    }

    /// The seed of the page at `(offset_x, offset_y)`: the two offsets
    /// followed by the user's seed.
    fn page_seed(offset_x: u32, offset_y: u32, seed: &[usize]) -> (r: Vec<usize>)
        ensures
            r@ == seq![offset_x as usize, offset_y as usize] + seed@,
    {
        let mut final_seed: Vec<usize> = Vec::new();
        final_seed.push(offset_x as usize);
        final_seed.push(offset_y as usize);
        let mut s: usize = 0;
        while s < seed.len()
            invariant
                s <= seed@.len(),
                final_seed@ == seq![offset_x as usize, offset_y as usize] + seed@.take(s as int),
            decreases seed@.len() - s,
        {
            final_seed.push(seed[s]);
            proof {
                assert(seed@.take(s as int + 1) =~= seed@.take(s as int).push(seed@[s as int]));
            }
            s = s + 1;
            assert(final_seed@ =~= seq![offset_x as usize, offset_y as usize] + seed@.take(s as int));
        }
        assert(seed@.take(s as int) =~= seed@);
        final_seed
    }

    /// A page at global offset `(offset_x, offset_y)`, populated from the
    /// random stream seeded with `[offset_x, offset_y]` followed by `seed`.
    /// Every cell draws a chromosome, a facing direction and a threshold below 4; then
    /// `body_count` times a position in `[1, PAGE_WIDTH - 1)^2` and a stim
    /// are drawn and a body is placed there (see `place_body`).
    pub fn new(body_count: u32, offset_x: u32, offset_y: u32, seed: &[usize]) -> (r: Page)
        requires
            offset_x < MAX_OFFSET,
            offset_y < MAX_OFFSET,
        ensures
            r.wf(),
            r@.seeded(body_count as nat, offset_x, offset_y),
            r@.offset_x == offset_x,
            r@.offset_y == offset_y,
            r@.growth_ready(),
            r@.changes.is_empty(),
            r@.remote_changes.len() == 0,
            r@.local_signal.len() == 0,
            r@.remote_signal.len() == 0,
            forall|i: int| 0 <= i < PAGE_SIZE ==> (#[trigger] r@.cells[i]).threshold < 4,
            forall|i: int| 0 <= i < PAGE_SIZE ==> (#[trigger] r@.cells[i]).signal == 0,
            r@.bodies_inside(),
    {
        let final_seed = Page::page_seed(offset_x, offset_y, seed);
        let mut rng = seeded_rng(&final_seed);
        let mut cells: Vec<Cell> = Vec::new();
        let mut i: u32 = 0;
        while i < PAGE_SIZE
            invariant
                i <= PAGE_SIZE,
                cells@.len() == i,
                forall|j: int|
                    0 <= j < i ==> (#[trigger] cells@[j])@.cell_type == CellType::Empty
                        && cells@[j]@.threshold < 4 && cells@[j]@.signal == 0,
            decreases PAGE_SIZE - i,
        {
            let mut cell = Cell::new();
            cell.set_chromosome(Chromosome::rand(&mut rng));
            cell.set_gate(Gate::rand(&mut rng));
            cell.set_threshold(draw_range(&mut rng, 0, 4) as u8);
            cells.push(cell);
            i = i + 1;
        }
        let mut page = Page {
            cells: cells,
            active: bitmap_new(),
            changes: HashMap::new(),
            remote_changes: Vec::new(),
            local_signal: Vec::new(),
            remote_signal: Vec::new(),
            offset_x: offset_x,
            offset_y: offset_y,
        };
        let ghost init = page@;
        let ghost mut bodies: Seq<(int, int, bool)> = Seq::empty();
        proof {
            lemma_change_views_dom(page.changes@);
            assert(page@.active =~= Set::empty());
            assert(page@.changes =~= Map::empty());
            assert(init.blank());
            assert(init.with_bodies(bodies) == init);
        }
        let mut b: u32 = 0;
        while b < body_count
            invariant
                page.wf(),
                page@.offset_x == offset_x,
                page@.offset_y == offset_y,
                page@.growth_ready(),
                page@.changes.is_empty(),
                page@.remote_changes.len() == 0,
                page@.local_signal.len() == 0,
                page@.remote_signal.len() == 0,
                forall|i: int|
                    0 <= i < PAGE_SIZE ==> (#[trigger] page@.cells[i]).threshold < 4
                        && page@.cells[i].signal == 0,
                page@.bodies_inside(),
                init.blank(),
                init.offset_x == offset_x,
                init.offset_y == offset_y,
                b <= body_count,
                bodies.len() == b,
                forall|j: int| 0 <= j < bodies.len() ==> body_site(#[trigger] bodies[j]),
                page@ == init.with_bodies(bodies),
            decreases body_count - b,
        {
            let x = draw_range(&mut rng, 1, PAGE_WIDTH - 1);
            let y = draw_range(&mut rng, 1, PAGE_WIDTH - 1);
            let stim = draw_bool(&mut rng);
            let ghost before = page@;
            page.place_body(x, y, stim);
            proof {
                lemma_with_body_keeps(before, x as int, y as int, stim);
                lemma_with_body_inside(before, x as int, y as int, stim);
                let next = bodies.push((x as int, y as int, stim));
                assert(next.drop_last() =~= bodies);
                assert(init.with_bodies(next) == before.with_body(x as int, y as int, stim));
                bodies = next;
            }
            b = b + 1;
        }
        proof {
            assert(init.with_bodies(bodies) == page@);
            assert(bodies.len() == body_count as nat);
            assert(page@.seeded(body_count as nat, offset_x, offset_y));
        }
        page
    }
}

impl Page {
    /// The cell at local `(x, y)`, to be changed in place.
    pub fn get_mut_cell(&mut self, x: u32, y: u32) -> (r: &mut Cell)
        requires
            old(self).wf(),
            x < PAGE_WIDTH,
            y < PAGE_WIDTH,
        ensures
            r@ == old(self)@.cells[index_of(x as int, y as int)],
            final(self)@ == (PageView {
                cells: old(self)@.cells.update(index_of(x as int, y as int), final(r)@),
                ..old(self)@
            }),
    {
        proof {
            lemma_page_bounds(x as nat, y as nat, 0);
            assert(x % 0x10000 == x && y % 0x10000 == y);
        }
        let z = xy_to_z(x, y);
        proof {
            assert forall|c: Cell| #[trigger] cell_views(self.cells@.update(z as int, c)) == cell_views(
                self.cells@,
            ).update(z as int, c@) by {
                assert(cell_views(self.cells@.update(z as int, c)) =~= cell_views(self.cells@).update(
                    z as int,
                    c@,
                ));
            }
        }
        &mut self.cells[z as usize]
    }
}

} // verus!
