//! The bit-packed cell record and the small enums stored in it.
//!
//! A cell is one `u32` word:
//! bits 0-2 cell type, 3-4 gate, 5 stim, 6-9 chromosome, 10-15 threshold,
//! 16-19 signal; the bits above are reserved and stay zero.
use crate::random::draw_range;
use rand::StdRng;
use vstd::prelude::*;

verus! {

pub const CELL_TYPE_MASK: u32 = 0x0000_0007;

pub const GATE_MASK: u32 = 0x0000_0018;

pub const STIM_MASK: u32 = 0x0000_0020;

pub const CHROMO_MASK: u32 = 0x0000_03c0;

pub const THRESHOLD_MASK: u32 = 0x0000_fc00;

pub const SIGNAL_MASK: u32 = 0x000f_0000;

pub const CELL_TYPE_OFFSET: u32 = 0;

pub const GATE_OFFSET: u32 = 3;

pub const STIM_OFFSET: u32 = 5;

pub const CHROMO_OFFSET: u32 = 6;

pub const THRESHOLD_OFFSET: u32 = 10;

pub const SIGNAL_OFFSET: u32 = 16;

/// Largest value the threshold field can hold.
pub const THRESHOLD_MAX: u8 = 63;

/// Largest value the signal field can hold.
pub const SIGNAL_MAX: u8 = 15;

/// What a cell is part of.
#[derive(PartialEq, Eq, Structural, Clone, Copy, Debug)]
pub enum CellType {
    Empty,
    Body,
    Axon,
    Dendrite,
}

impl CellType {
    /// The 3-bit code of the cell type.
    pub open spec fn code(self) -> u32 {
        match self {
            CellType::Empty => 0,
            CellType::Body => 1,
            CellType::Axon => 2,
            CellType::Dendrite => 3,
        }
    }

    pub open spec fn from_code(b: u32) -> CellType {
        if b == 0 {
            CellType::Empty
        } else if b == 1 {
            CellType::Body
        } else if b == 2 {
            CellType::Axon
        } else {
            CellType::Dendrite
        }
    }

    pub fn to_bits(self) -> (r: u32)
        ensures
            r == self.code(),
            r < 4,
    {
        match self {
            CellType::Empty => 0,
            CellType::Body => 1,
            CellType::Axon => 2,
            CellType::Dendrite => 3,
        }
    }

    pub fn from_bits(b: u32) -> (r: CellType)
        requires
            b < 4,
        ensures
            r == CellType::from_code(b),
            r.code() == b,
    {
        if b == 0 {
            CellType::Empty
        } else if b == 1 {
            CellType::Body
        } else if b == 2 {
            CellType::Axon
        } else {
            CellType::Dendrite
        }
    }
}

/// A cardinal direction.
///
/// North is `y + 1`, South is `y - 1`, East is `x + 1`, West is `x - 1`.
#[derive(PartialEq, Eq, Structural, Clone, Copy, Debug)]
pub enum Gate {
    North,
    West,
    South,
    East,
}

impl Gate {
    /// The 2-bit code of the direction.
    pub open spec fn code(self) -> u32 {
        match self {
            Gate::North => 0,
            Gate::West => 1,
            Gate::South => 2,
            Gate::East => 3,
        }
    }

    pub open spec fn from_code(b: u32) -> Gate {
        if b == 0 {
            Gate::North
        } else if b == 1 {
            Gate::West
        } else if b == 2 {
            Gate::South
        } else {
            Gate::East
        }
    }

    /// The direction pointing the other way.
    pub open spec fn opposite(self) -> Gate {
        match self {
            Gate::North => Gate::South,
            Gate::South => Gate::North,
            Gate::East => Gate::West,
            Gate::West => Gate::East,
        }
    }

    /// The direction a quarter turn further in the order North, West, South, East.
    pub open spec fn turned(self) -> Gate {
        match self {
            Gate::North => Gate::West,
            Gate::West => Gate::South,
            Gate::South => Gate::East,
            Gate::East => Gate::North,
        }
    }

    pub fn to_bits(self) -> (r: u32)
        ensures
            r == self.code(),
            r < 4,
    {
        match self {
            Gate::North => 0,
            Gate::West => 1,
            Gate::South => 2,
            Gate::East => 3,
        }
    }

    pub fn from_bits(b: u32) -> (r: Gate)
        requires
            b < 4,
        ensures
            r == Gate::from_code(b),
            r.code() == b,
    {
        if b == 0 {
            Gate::North
        } else if b == 1 {
            Gate::West
        } else if b == 2 {
            Gate::South
        } else {
            Gate::East
        }
    }

    /// The opposite direction.
    pub fn not(self) -> (r: Gate)
        ensures
            r == self.opposite(),
    {
        match self {
            Gate::North => Gate::South,
            Gate::South => Gate::North,
            Gate::East => Gate::West,
            Gate::West => Gate::East,
        }
    }

    /// The direction a quarter turn further in the order North, West, South, East.
    pub fn turn(self) -> (r: Gate)
        ensures
            r == self.turned(),
    {
        match self {
            Gate::North => Gate::West,
            Gate::West => Gate::South,
            Gate::South => Gate::East,
            Gate::East => Gate::North,
        }
    }
}

/// Negating a gate twice gives that direction back.
pub proof fn lemma_gate_not_involutive(g: Gate)
    ensures
        g.opposite().opposite() == g,
        g.opposite() != g,
{
}

/// A set of growth directions, stored as a 4-bit mask
/// (North 1, West 2, South 4, East 8); `Block` is the empty set.
#[derive(PartialEq, Eq, Structural, Clone, Copy, Debug)]
pub enum Chromosome {
    Block,
    North,
    West,
    South,
    East,
    NorthWest,
    NorthSouth,
    NorthEast,
    WestSouth,
    WestEast,
    SouthEast,
    NorthWestSouth,
    NorthEastSouth,
    NorthWestEast,
    WestSouthEast,
    All,
}

impl Chromosome {
    /// The mask of the chromosome.
    pub open spec fn mask(self) -> u32 {
        match self {
            Chromosome::Block => 0,
            Chromosome::North => 1,
            Chromosome::West => 2,
            Chromosome::South => 4,
            Chromosome::East => 8,
            Chromosome::NorthWest => 3,
            Chromosome::NorthSouth => 5,
            Chromosome::NorthEast => 9,
            Chromosome::WestSouth => 6,
            Chromosome::WestEast => 10,
            Chromosome::SouthEast => 12,
            Chromosome::NorthWestSouth => 7,
            Chromosome::NorthEastSouth => 13,
            Chromosome::NorthWestEast => 11,
            Chromosome::WestSouthEast => 14,
            Chromosome::All => 15,
        }
    }

    pub open spec fn from_mask(b: u32) -> Chromosome {
        if b == 0 {
            Chromosome::Block
        } else if b == 1 {
            Chromosome::North
        } else if b == 2 {
            Chromosome::West
        } else if b == 3 {
            Chromosome::NorthWest
        } else if b == 4 {
            Chromosome::South
        } else if b == 5 {
            Chromosome::NorthSouth
        } else if b == 6 {
            Chromosome::WestSouth
        } else if b == 7 {
            Chromosome::NorthWestSouth
        } else if b == 8 {
            Chromosome::East
        } else if b == 9 {
            Chromosome::NorthEast
        } else if b == 10 {
            Chromosome::WestEast
        } else if b == 11 {
            Chromosome::NorthWestEast
        } else if b == 12 {
            Chromosome::SouthEast
        } else if b == 13 {
            Chromosome::NorthEastSouth
        } else if b == 14 {
            Chromosome::WestSouthEast
        } else {
            Chromosome::All
        }
    }

    /// The singleton chromosome of a direction.
    pub open spec fn of_gate(g: Gate) -> Chromosome {
        match g {
            Gate::North => Chromosome::North,
            Gate::South => Chromosome::South,
            Gate::East => Chromosome::East,
            Gate::West => Chromosome::West,
        }
    }

    /// Whether `other` is part of this chromosome: `Block` only contains
    /// itself, any other value is a subset test on the masks.
    pub open spec fn holds(self, other: Chromosome) -> bool {
        if other == Chromosome::Block {
            self == Chromosome::Block
        } else {
            self.mask() & other.mask() == other.mask()
        }
    }

    pub fn to_bits(self) -> (r: u32)
        ensures
            r == self.mask(),
            r < 16,
    {
        match self {
            Chromosome::Block => 0,
            Chromosome::North => 1,
            Chromosome::West => 2,
            Chromosome::South => 4,
            Chromosome::East => 8,
            Chromosome::NorthWest => 3,
            Chromosome::NorthSouth => 5,
            Chromosome::NorthEast => 9,
            Chromosome::WestSouth => 6,
            Chromosome::WestEast => 10,
            Chromosome::SouthEast => 12,
            Chromosome::NorthWestSouth => 7,
            Chromosome::NorthEastSouth => 13,
            Chromosome::NorthWestEast => 11,
            Chromosome::WestSouthEast => 14,
            Chromosome::All => 15,
        }
    }

    pub fn from_bits(b: u32) -> (r: Chromosome)
        requires
            b < 16,
        ensures
            r == Chromosome::from_mask(b),
            r.mask() == b,
    {
        if b == 0 {
            Chromosome::Block
        } else if b == 1 {
            Chromosome::North
        } else if b == 2 {
            Chromosome::West
        } else if b == 3 {
            Chromosome::NorthWest
        } else if b == 4 {
            Chromosome::South
        } else if b == 5 {
            Chromosome::NorthSouth
        } else if b == 6 {
            Chromosome::WestSouth
        } else if b == 7 {
            Chromosome::NorthWestSouth
        } else if b == 8 {
            Chromosome::East
        } else if b == 9 {
            Chromosome::NorthEast
        } else if b == 10 {
            Chromosome::WestEast
        } else if b == 11 {
            Chromosome::NorthWestEast
        } else if b == 12 {
            Chromosome::SouthEast
        } else if b == 13 {
            Chromosome::NorthEastSouth
        } else if b == 14 {
            Chromosome::WestSouthEast
        } else {
            Chromosome::All
        }
    }

    /// The directions present in both chromosomes.
    pub fn bitand(self, rhs: Chromosome) -> (r: Chromosome)
        ensures
            r.mask() == self.mask() & rhs.mask(),
    {
        let a = self.to_bits();
        let b = rhs.to_bits();
        assert(a & b < 16) by (bit_vector)
            requires
                a < 16,
        ;
        Chromosome::from_bits(a & b)
    }

    /// The directions present in either chromosome.
    pub fn bitor(self, rhs: Chromosome) -> (r: Chromosome)
        ensures
            r.mask() == self.mask() | rhs.mask(),
    {
        let a = self.to_bits();
        let b = rhs.to_bits();
        assert(a | b < 16) by (bit_vector)
            requires
                a < 16,
                b < 16,
        ;
        Chromosome::from_bits(a | b)
    }

    /// The directions absent from this chromosome.
    pub fn invert(self) -> (r: Chromosome)
        ensures
            r.mask() == self.mask() ^ 15,
    {
        let a = self.to_bits();
        assert(a ^ 15 < 16) by (bit_vector)
            requires
                a < 16,
        ;
        Chromosome::from_bits(a ^ 15)
    }

    /// Whether `other` is part of this chromosome (see `holds`).
    pub fn contains(self, other: Chromosome) -> (r: bool)
        ensures
            r == self.holds(other),
    {
        match other {
            Chromosome::Block => self == Chromosome::Block,
            _ => self.bitand(other) == other,
        }
    }

    /// A chromosome drawn uniformly over the sixteen values.
    pub fn rand(rng: &mut StdRng) -> (r: Chromosome)
        ensures
            r.mask() < 16,
            r == Chromosome::from_mask(r.mask()),
    {
        let b = draw_range(rng, 0, 16);
        Chromosome::from_bits(b)
    }
}

/// Chromosome masks and chromosomes are in one-to-one correspondence.
pub proof fn lemma_chromosome_mask(c: Chromosome)
    ensures
        Chromosome::from_mask(c.mask()) == c,
        c.mask() < 16,
{
}

/// `contains(m, d)` holds exactly when `m & d == d`, except that `Block`
/// (the empty mask) is only contained in `Block`.
pub proof fn lemma_contains_is_subset(m: Chromosome, d: Chromosome)
    ensures
        d != Chromosome::Block ==> (m.holds(d) <==> m.mask() & d.mask() == d.mask()),
        m.holds(Chromosome::Block) <==> m == Chromosome::Block,
{
}

impl Gate {
    /// A gate drawn uniformly over the four directions.
    pub fn rand(rng: &mut StdRng) -> (r: Gate)
        ensures
            r.code() < 4,
            r == Gate::from_code(r.code()),
    {
        let b = draw_range(rng, 0, 4);
        Gate::from_bits(b)
    }
}

impl From<Gate> for Chromosome {
    fn from(gate: Gate) -> (r: Chromosome) {
        match gate {
            Gate::North => Chromosome::North,
            Gate::South => Chromosome::South,
            Gate::East => Chromosome::East,
            Gate::West => Chromosome::West,
        }
    }
}

impl vstd::std_specs::convert::FromSpecImpl<Gate> for Chromosome {
    open spec fn obeys_from_spec() -> bool {
        true
    }

    open spec fn from_spec(v: Gate) -> Chromosome {
        Chromosome::of_gate(v)
    }
}

/// The fields of a cell, as mathematical values.
pub struct CellView {
    pub cell_type: CellType,
    pub gate: Gate,
    pub stim: bool,
    pub chromosome: Chromosome,
    pub threshold: nat,
    pub signal: nat,
}

pub open spec fn clamp(v: int, max: int) -> nat {
    if v < 0 {
        0
    } else if v > max {
        max as nat
    } else {
        v as nat
    }
}

impl CellView {
    pub open spec fn with_cell_type(self, t: CellType) -> CellView {
        CellView { cell_type: t, ..self }
    }

    pub open spec fn with_gate(self, g: Gate) -> CellView {
        CellView { gate: g, ..self }
    }

    pub open spec fn with_stim(self, s: bool) -> CellView {
        CellView { stim: s, ..self }
    }

    pub open spec fn with_chromosome(self, c: Chromosome) -> CellView {
        CellView { chromosome: c, ..self }
    }

    /// Writes a threshold, clamped to the field's range.
    pub open spec fn with_threshold(self, t: int) -> CellView {
        CellView { threshold: clamp(t, THRESHOLD_MAX as int), ..self }
    }

    /// Writes a signal, clamped to the field's range.
    pub open spec fn with_signal(self, s: int) -> CellView {
        CellView { signal: clamp(s, SIGNAL_MAX as int), ..self }
    }

    /// The view of `Cell::new()`.
    pub open spec fn blank() -> CellView {
        CellView {
            cell_type: CellType::Empty,
            gate: Gate::North,
            stim: false,
            chromosome: Chromosome::Block,
            threshold: 0,
            signal: 0,
        }
    }

    /// Every field lies in its domain.
    pub open spec fn in_range(self) -> bool {
        self.threshold <= THRESHOLD_MAX && self.signal <= SIGNAL_MAX
    }
}

/// Reading a field back after writing it gives the written value, clamped
/// to the field's range; the other fields are untouched.
pub proof fn lemma_field_round_trip(c: CellView, v: int)
    ensures
        c.with_threshold(v).threshold == clamp(v, 63),
        c.with_signal(v).signal == clamp(v, 15),
        c.with_threshold(v).signal == c.signal,
        c.with_signal(v).threshold == c.threshold,
        forall|t: CellType| #[trigger] c.with_cell_type(t).cell_type == t,
        forall|g: Gate| #[trigger] c.with_gate(g).gate == g,
        forall|s: bool| #[trigger] c.with_stim(s).stim == s,
        forall|m: Chromosome| #[trigger] c.with_chromosome(m).chromosome == m,
        0 <= v <= 63 ==> c.with_threshold(v).threshold == v,
        0 <= v <= 15 ==> c.with_signal(v).signal == v,
{
}

/// A cell: one word holding all fields.
#[derive(Clone, Copy, Debug)]
pub struct Cell {
    data: u32,
}

pub open spec fn field_of(d: u32, offset: u32, width_mask: u32) -> u32 {
    (d >> offset) & width_mask
}

impl View for Cell {
    type V = CellView;

    closed spec fn view(&self) -> CellView {
        CellView {
            cell_type: CellType::from_code(self.data & 7),
            gate: Gate::from_code((self.data >> 3) & 3),
            stim: (self.data >> 5) & 1 == 1,
            chromosome: Chromosome::from_mask((self.data >> 6) & 15),
            threshold: ((self.data >> 10) & 63) as nat,
            signal: ((self.data >> 16) & 15) as nat,
        }
    }
}

/// Every cell's fields lie within their domains; in particular the signal
/// never leaves `[0, 15]`.
pub proof fn lemma_cell_in_range(c: Cell)
    ensures
        c@.in_range(),
        c@.signal <= 15,
        c@.threshold <= 63,
{
    lemma_view_in_range(c);
}

proof fn lemma_view_in_range(c: Cell)
    ensures
        c@.in_range(),
{
    let d = c.data;
    assert((d >> 10) & 63 <= 63 && (d >> 16) & 15 <= 15) by (bit_vector);
}

// Bit-level facts about writing one field of the word.

proof fn lemma_write_cell_type(d: u32, v: u32)
    by (bit_vector)
    requires
        v < 4,
    ensures
        ({
            let e = (d & !7u32) | (v << 0u32);
            &&& e & 7 == v
            &&& (e >> 3) & 3 == (d >> 3) & 3
            &&& (e >> 5) & 1 == (d >> 5) & 1
            &&& (e >> 6) & 15 == (d >> 6) & 15
            &&& (e >> 10) & 63 == (d >> 10) & 63
            &&& (e >> 16) & 15 == (d >> 16) & 15
        }),
{
}

proof fn lemma_write_gate(d: u32, v: u32)
    by (bit_vector)
    requires
        v < 4,
    ensures
        ({
            let e = (d & !0x18u32) | (v << 3);
            &&& e & 7 == d & 7
            &&& (e >> 3) & 3 == v
            &&& (e >> 5) & 1 == (d >> 5) & 1
            &&& (e >> 6) & 15 == (d >> 6) & 15
            &&& (e >> 10) & 63 == (d >> 10) & 63
            &&& (e >> 16) & 15 == (d >> 16) & 15
        }),
{
}

proof fn lemma_write_stim(d: u32, v: u32)
    by (bit_vector)
    requires
        v < 2,
    ensures
        ({
            let e = (d & !0x20u32) | (v << 5);
            &&& e & 7 == d & 7
            &&& (e >> 3) & 3 == (d >> 3) & 3
            &&& (e >> 5) & 1 == v
            &&& (e >> 6) & 15 == (d >> 6) & 15
            &&& (e >> 10) & 63 == (d >> 10) & 63
            &&& (e >> 16) & 15 == (d >> 16) & 15
        }),
{
}

proof fn lemma_write_chromosome(d: u32, v: u32)
    by (bit_vector)
    requires
        v < 16,
    ensures
        ({
            let e = (d & !0x3c0u32) | (v << 6);
            &&& e & 7 == d & 7
            &&& (e >> 3) & 3 == (d >> 3) & 3
            &&& (e >> 5) & 1 == (d >> 5) & 1
            &&& (e >> 6) & 15 == v
            &&& (e >> 10) & 63 == (d >> 10) & 63
            &&& (e >> 16) & 15 == (d >> 16) & 15
        }),
{
}

proof fn lemma_write_threshold(d: u32, v: u32)
    by (bit_vector)
    requires
        v < 64,
    ensures
        ({
            let e = (d & !0xfc00u32) | (v << 10);
            &&& e & 7 == d & 7
            &&& (e >> 3) & 3 == (d >> 3) & 3
            &&& (e >> 5) & 1 == (d >> 5) & 1
            &&& (e >> 6) & 15 == (d >> 6) & 15
            &&& (e >> 10) & 63 == v
            &&& (e >> 16) & 15 == (d >> 16) & 15
        }),
{
}

proof fn lemma_write_signal(d: u32, v: u32)
    by (bit_vector)
    requires
        v < 16,
    ensures
        ({
            let e = (d & !0xf0000u32) | (v << 16);
            &&& e & 7 == d & 7
            &&& (e >> 3) & 3 == (d >> 3) & 3
            &&& (e >> 5) & 1 == (d >> 5) & 1
            &&& (e >> 6) & 15 == (d >> 6) & 15
            &&& (e >> 10) & 63 == (d >> 10) & 63
            &&& (e >> 16) & 15 == v
        }),
{
}

impl Cell {
    #[verifier::type_invariant]
    spec fn well_formed(self) -> bool {
        self.data & 7 < 4
    }

    /// An EMPTY cell facing North, with chromosome BLOCK, no stim, threshold 0
    /// and signal 0 (the all-zero word).
    pub fn new() -> (r: Cell)
        ensures
            r@ == CellView::blank(),
    {
        assert(0u32 & 7 == 0 && (0u32 >> 3) & 3 == 0 && (0u32 >> 5) & 1 == 0 && (0u32 >> 6) & 15
            == 0 && (0u32 >> 10) & 63 == 0 && (0u32 >> 16) & 15 == 0) by (bit_vector);
        Cell { data: 0 }
    }

    pub fn set_cell_type(&mut self, cell_type: CellType)
        ensures
            final(self)@ == old(self)@.with_cell_type(cell_type),
    {
        let v = cell_type.to_bits();
        proof {
            use_type_invariant(&*self);
            lemma_write_cell_type(self.data, v);
        }
        self.data = (self.data & !CELL_TYPE_MASK) | (v << CELL_TYPE_OFFSET);
    }

    pub fn get_cell_type(&self) -> (r: CellType)
        ensures
            r == self@.cell_type,
    {
        proof {
            use_type_invariant(&*self);
        }
        let d = self.data;
        assert((d & 7) >> 0 == d & 7) by (bit_vector);
        CellType::from_bits((self.data & CELL_TYPE_MASK) >> CELL_TYPE_OFFSET)
    }

    pub fn set_gate(&mut self, gate: Gate)
        ensures
            final(self)@ == old(self)@.with_gate(gate),
    {
        let v = gate.to_bits();
        proof {
            use_type_invariant(&*self);
            lemma_write_gate(self.data, v);
        }
        self.data = (self.data & !GATE_MASK) | (v << GATE_OFFSET);
    }

    pub fn get_gate(&self) -> (r: Gate)
        ensures
            r == self@.gate,
    {
        let d = self.data;
        assert((d & 0x18) >> 3 == (d >> 3) & 3 && (d >> 3) & 3 < 4) by (bit_vector);
        Gate::from_bits((self.data & GATE_MASK) >> GATE_OFFSET)
    }

    pub fn set_stim(&mut self, stim: bool)
        ensures
            final(self)@ == old(self)@.with_stim(stim),
    {
        let v: u32 = if stim {
            1
        } else {
            0
        };
        proof {
            use_type_invariant(&*self);
            lemma_write_stim(self.data, v);
        }
        self.data = (self.data & !STIM_MASK) | (v << STIM_OFFSET);
    }

    pub fn get_stim(&self) -> (r: bool)
        ensures
            r == self@.stim,
    {
        let d = self.data;
        assert(((d & 0x20) >> 5 == 1) == ((d >> 5) & 1 == 1)) by (bit_vector);
        (self.data & STIM_MASK) >> STIM_OFFSET == 1
    }

    pub fn set_chromosome(&mut self, chromo: Chromosome)
        ensures
            final(self)@ == old(self)@.with_chromosome(chromo),
    {
        let v = chromo.to_bits();
        proof {
            use_type_invariant(&*self);
            lemma_write_chromosome(self.data, v);
            lemma_chromosome_mask(chromo);
        }
        self.data = (self.data & !CHROMO_MASK) | (v << CHROMO_OFFSET);
    }

    pub fn get_chromosome(&self) -> (r: Chromosome)
        ensures
            r == self@.chromosome,
    {
        let d = self.data;
        assert((d & 0x3c0) >> 6 == (d >> 6) & 15 && (d >> 6) & 15 < 16) by (bit_vector);
        Chromosome::from_bits((self.data & CHROMO_MASK) >> CHROMO_OFFSET)
    }

    /// Whether the chromosome contains `other`: `Block` only when the
    /// chromosome is exactly `Block`, any other flag when `mask & other == other`.
    pub fn chromosome_contains(&self, other: Chromosome) -> (r: bool)
        ensures
            r == self@.chromosome.holds(other),
    {
        self.get_chromosome().contains(other)
    }

    /// Writes the threshold, clamped to 63.
    pub fn set_threshold(&mut self, threshold: u8)
        ensures
            final(self)@ == old(self)@.with_threshold(threshold as int),
    {
        let v: u32 = if threshold <= THRESHOLD_MAX {
            threshold as u32
        } else {
            THRESHOLD_MAX as u32
        };
        proof {
            use_type_invariant(&*self);
            lemma_write_threshold(self.data, v);
        }
        self.data = (self.data & !THRESHOLD_MASK) | (v << THRESHOLD_OFFSET);
    }

    pub fn get_threshold(&self) -> (r: u8)
        ensures
            r as nat == self@.threshold,
    {
        let d = self.data;
        assert((d & 0xfc00) >> 10 == (d >> 10) & 63 && (d >> 10) & 63 < 64) by (bit_vector);
        ((self.data & THRESHOLD_MASK) >> THRESHOLD_OFFSET) as u8
    }

    /// Writes a signal value known to fit the field.
    fn write_signal(&mut self, v: u32)
        requires
            v <= 15,
        ensures
            final(self)@ == old(self)@.with_signal(v as int),
    {
        proof {
            use_type_invariant(&*self);
            lemma_write_signal(self.data, v);
        }
        self.data = (self.data & !SIGNAL_MASK) | (v << SIGNAL_OFFSET);
    }

    /// Writes the signal, clamped to 15.
    pub fn set_signal(&mut self, signal: u8)
        ensures
            final(self)@ == old(self)@.with_signal(signal as int),
    {
        let v: u32 = if signal <= SIGNAL_MAX {
            signal as u32
        } else {
            SIGNAL_MAX as u32
        };
        self.write_signal(v);
    }

    pub fn get_signal(&self) -> (r: u8)
        ensures
            r as nat == self@.signal,
            r <= 15,
    {
        let d = self.data;
        assert((d & 0xf0000) >> 16 == (d >> 16) & 15 && (d >> 16) & 15 < 16) by (bit_vector);
        ((self.data & SIGNAL_MASK) >> SIGNAL_OFFSET) as u8
    }

    /// Adds to the signal, saturating at 15.
    pub fn add_signal(&mut self, strength: u8)
        ensures
            final(self)@ == old(self)@.with_signal(old(self)@.signal + strength),
    {
        let cur = self.get_signal() as u32;
        let sum = cur + strength as u32;
        let v: u32 = if sum <= SIGNAL_MAX as u32 {
            sum
        } else {
            SIGNAL_MAX as u32
        };
        self.write_signal(v);
    }

    /// Subtracts from the signal, stopping at 0.
    pub fn sub_signal(&mut self, strength: u8)
        ensures
            final(self)@ == old(self)@.with_signal(old(self)@.signal - strength),
    {
        let cur = self.get_signal() as u32;
        let v: u32 = if cur >= strength as u32 {
            cur - strength as u32
        } else {
            0
        };
        self.write_signal(v);
    }

    /// Sets the signal to 0.
    pub fn clear_signal(&mut self)
        ensures
            final(self)@ == old(self)@.with_signal(0),
    {
        self.write_signal(0);
    }
}

} // verus!
