use cajal::{Cajal, Cell, CellType, Chromosome, Gate, Grid};

fn bodies_for(density: f32) -> u32 {
    (4096.0f32 * density).round() as u32
}

fn cell_of(t: CellType, gate: Gate, chromosome: Chromosome, stim: bool) -> Cell {
    let mut c = Cell::new();
    c.set_cell_type(t);
    c.set_gate(gate);
    c.set_chromosome(chromosome);
    c.set_stim(stim);
    c
}

#[test]
fn default_params() {
    let _ = Cajal::default();
}

#[test]
fn single_growth() {
    let mut c = Cajal::new(1, bodies_for(0.0), &[1, 2, 3, 4]);
    c.set_cell(10, 10, cell_of(CellType::Axon, Gate::North, Chromosome::North, true));
    c.set_input(10, 10, 0);
    assert_eq!(c.grow_step(), 1);
    let grown = c.get_cell(10, 11);
    assert_eq!(grown.get_cell_type(), CellType::Axon);
    assert_eq!(grown.get_gate(), Gate::South);
    assert!(grown.get_stim());
}

fn axon_count(c: &Cajal) -> usize {
    let d = c.dimension();
    let mut n = 0;
    for x in 0..d {
        for y in 0..d {
            if c.get_cell(x, y).get_cell_type() == CellType::Axon {
                n += 1;
            }
        }
    }
    n
}

#[test]
fn determinism() {
    let mut a = Cajal::new(2, bodies_for(0.01), &[1, 2, 3, 7]);
    let mut b = Cajal::new(2, bodies_for(0.01), &[1, 2, 3, 7]);
    let mut steps = 0;
    loop {
        let ra = a.grow_step();
        let rb = b.grow_step();
        assert_eq!(ra, rb);
        steps += 1;
        if ra == 0 || steps > 500 {
            break;
        }
    }
    assert_eq!(axon_count(&a), axon_count(&b));
    let d = a.dimension();
    for x in 0..d {
        for y in 0..d {
            let ca = a.get_cell(x, y);
            let cb = b.get_cell(x, y);
            assert_eq!(ca.get_cell_type(), cb.get_cell_type());
            assert_eq!(ca.get_gate(), cb.get_gate());
            assert_eq!(ca.get_signal(), cb.get_signal());
        }
    }
}

#[test]
fn determinism_of_grow() {
    let mut a = Cajal::new(2, bodies_for(0.01), &[1, 2, 3, 7]);
    let mut b = Cajal::new(2, bodies_for(0.01), &[1, 2, 3, 7]);
    a.grow();
    b.grow();
    assert_eq!(axon_count(&a), axon_count(&b));
    assert!(axon_count(&a) > 0);
}

#[test]
fn cross_page_routing() {
    let mut c = Cajal::new(2, bodies_for(0.0), &[1, 2, 3, 4]);
    assert_eq!(c.dimension(), 128);
    c.set_cell(63, 32, cell_of(CellType::Axon, Gate::West, Chromosome::East, true));
    c.set_input(63, 32, 0);
    assert_eq!(c.grow_step(), 0);
    let grown = c.get_cell(64, 32);
    assert_eq!(grown.get_cell_type(), CellType::Axon);
    assert_eq!(grown.get_gate(), Gate::West);
}

#[test]
fn grid_growth_until_fixed_point() {
    let mut g = Grid::new(1, bodies_for(0.01), &[4, 4]);
    g.grow();
    assert_eq!(g.grow_step(), 0);
}

#[test]
fn signal_stays_in_range() {
    let mut c = Cajal::new(1, bodies_for(0.01), &[1, 2, 3, 7]);
    c.grow();
    let d = c.dimension();
    let mut i = 0;
    while i < d {
        c.set_input(i, i, 63);
        c.set_input(i, d - i - 1, 63);
        i += 2;
    }
    for _ in 0..10 {
        c.signal_step();
        for x in 0..d {
            for y in 0..d {
                assert!(c.get_cell(x, y).get_signal() <= 15);
            }
        }
    }
}

#[test]
fn signal_runs_to_rest() {
    let mut c = Cajal::new(1, 0, &[1]);
    c.set_cell(5, 5, cell_of(CellType::Body, Gate::North, Chromosome::Block, true));
    c.set_cell(5, 6, cell_of(CellType::Dendrite, Gate::West, Chromosome::Block, true));
    c.set_input(5, 5, 4);
    c.signal();
    assert_eq!(c.signal_step(), 0);
}
