use cajal::{Cell, CellType, Chromosome, Gate};

#[test]
fn toggle_gates() {
    let mut c = Cell::new();
    assert!(c.get_gate() == Gate::North);

    c.set_gate(Gate::South);
    assert!(c.get_gate() == Gate::South);

    c.set_gate(Gate::East);
    assert!(c.get_gate() == Gate::East);

    c.set_gate(Gate::West);
    assert!(c.get_gate() == Gate::West);

    let c = Cell::new();
    assert!(c.get_gate() == Gate::North);

    let c = Cell::new();
    assert!(c.get_gate() == Gate::North);
}

#[test]
fn toggle_chromo() {
    let mut c = Cell::new();
    assert!(c.get_chromosome() == Chromosome::Block);

    c.set_chromosome(Chromosome::North);
    assert!(c.get_chromosome() == Chromosome::North);

    c.set_chromosome(Chromosome::South);
    assert!(c.get_chromosome() == Chromosome::South);

    c.set_chromosome(Chromosome::Block);
    assert!(c.get_chromosome() == Chromosome::Block);

    c.set_chromosome(Chromosome::WestSouth);
    assert!(c.get_chromosome() == Chromosome::WestSouth);

    c.set_chromosome(Chromosome::North);
    assert!(c.get_chromosome() == Chromosome::North);

    c.set_chromosome(Chromosome::East);
    assert!(c.get_chromosome() == Chromosome::East);

    c.set_chromosome(Chromosome::All);
    assert!(c.get_chromosome() == Chromosome::All);
}

#[test]
fn toggle_chromo_and_gate() {
    let mut c = Cell::new();
    assert!(c.get_chromosome() == Chromosome::Block);
    assert!(c.get_gate() == Gate::North);

    c.set_chromosome(Chromosome::North);
    assert!(c.get_chromosome() == Chromosome::North);

    c.set_gate(Gate::South);
    assert!(c.get_gate() == Gate::South);
    assert!(c.get_chromosome() == Chromosome::North);
}

#[test]
fn chromo_contains() {
    let mut c = Cell::new();
    assert!(c.get_chromosome() == Chromosome::Block);
    assert!(c.chromosome_contains(Chromosome::Block));
    assert!(!c.chromosome_contains(Chromosome::North));

    c.set_chromosome(Chromosome::NorthSouth);
    assert!(c.get_chromosome() == Chromosome::NorthSouth);
    assert!(!c.chromosome_contains(Chromosome::Block));
    assert!(c.chromosome_contains(Chromosome::North));
    assert!(c.chromosome_contains(Chromosome::South));
    assert!(c.chromosome_contains(Chromosome::NorthSouth));
}

#[test]
fn set_threshold() {
    let mut c = Cell::new();
    assert!(c.get_threshold() == 0u8);

    c.set_threshold(16);
    assert!(c.get_threshold() == 16u8);

    // overflow
    c.set_threshold(90);
    assert!(c.get_threshold() == 63u8);
}

const ALL_CHROMOSOMES: [Chromosome; 16] = [
    Chromosome::Block,
    Chromosome::North,
    Chromosome::West,
    Chromosome::South,
    Chromosome::East,
    Chromosome::NorthWest,
    Chromosome::NorthSouth,
    Chromosome::NorthEast,
    Chromosome::WestSouth,
    Chromosome::WestEast,
    Chromosome::SouthEast,
    Chromosome::NorthWestSouth,
    Chromosome::NorthEastSouth,
    Chromosome::NorthWestEast,
    Chromosome::WestSouthEast,
    Chromosome::All,
];

const ALL_GATES: [Gate; 4] = [Gate::North, Gate::West, Gate::South, Gate::East];

#[test]
fn threshold_and_signal_clamp() {
    let mut c = Cell::new();
    c.set_threshold(90);
    assert_eq!(c.get_threshold(), 63);
    c.set_signal(63);
    assert_eq!(c.get_signal(), 15);
    c.set_signal(10);
    c.add_signal(9);
    assert_eq!(c.get_signal(), 15);
    c.sub_signal(4);
    assert_eq!(c.get_signal(), 11);
    c.sub_signal(200);
    assert_eq!(c.get_signal(), 0);
    c.set_signal(7);
    c.clear_signal();
    assert_eq!(c.get_signal(), 0);
}

#[test]
fn setters_keep_other_fields() {
    let mut c = Cell::new();
    c.set_cell_type(CellType::Dendrite);
    c.set_gate(Gate::East);
    c.set_stim(true);
    c.set_chromosome(Chromosome::WestEast);
    c.set_threshold(33);
    c.set_signal(9);
    assert_eq!(c.get_cell_type(), CellType::Dendrite);
    assert_eq!(c.get_gate(), Gate::East);
    assert!(c.get_stim());
    assert_eq!(c.get_chromosome(), Chromosome::WestEast);
    assert_eq!(c.get_threshold(), 33);
    assert_eq!(c.get_signal(), 9);
    c.set_cell_type(CellType::Axon);
    c.set_stim(false);
    assert_eq!(c.get_gate(), Gate::East);
    assert_eq!(c.get_chromosome(), Chromosome::WestEast);
    assert_eq!(c.get_threshold(), 33);
    assert_eq!(c.get_signal(), 9);
    assert_eq!(c.get_cell_type(), CellType::Axon);
    assert!(!c.get_stim());
}

#[test]
fn contains_is_mask_subset() {
    for m in ALL_CHROMOSOMES.iter() {
        let mut c = Cell::new();
        c.set_chromosome(*m);
        for d in ALL_CHROMOSOMES.iter() {
            let expected = if *d == Chromosome::Block {
                *m == Chromosome::Block
            } else {
                m.bitand(*d) == *d
            };
            assert_eq!(c.chromosome_contains(*d), expected);
            assert_eq!(m.contains(*d), expected);
        }
    }
}

#[test]
fn chromosome_masks() {
    assert_eq!(Chromosome::North.bitor(Chromosome::South), Chromosome::NorthSouth);
    assert_eq!(Chromosome::All.bitand(Chromosome::WestSouth), Chromosome::WestSouth);
    assert_eq!(Chromosome::NorthEast.bitand(Chromosome::WestSouth), Chromosome::Block);
    assert_eq!(Chromosome::North.invert(), Chromosome::WestSouthEast);
    assert_eq!(Chromosome::Block.invert(), Chromosome::All);
    assert_eq!(Chromosome::WestSouth.to_bits(), 6);
    assert_eq!(Chromosome::from_bits(13), Chromosome::NorthEastSouth);
    assert_eq!(Chromosome::from(Gate::West), Chromosome::West);
    assert_eq!(Chromosome::from(Gate::East), Chromosome::East);
}

#[test]
fn gate_not_twice() {
    for g in ALL_GATES.iter() {
        assert_eq!(g.not().not(), *g);
        assert_ne!(g.not(), *g);
    }
    assert_eq!(Gate::North.not(), Gate::South);
    assert_eq!(Gate::West.not(), Gate::East);
    assert_eq!(Gate::North.turn(), Gate::West);
    assert_eq!(Gate::East.turn(), Gate::North);
}
