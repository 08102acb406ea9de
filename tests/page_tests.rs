use cajal::zorder::xy_to_z;
use cajal::{Cell, CellType, ChangeType, Chromosome, Gate, Grid, Page};

fn bodies_for(density: f32) -> u32 {
    (4096.0f32 * density).round() as u32
}

#[test]
fn grid_default_params() {
    let _ = Grid::default();
}

#[test]
fn page_new() {
    let _ = Page::new(bodies_for(0.05), 0, 0, &[1, 2, 3, 4]);
}

#[test]
fn grow() {
    let mut p = Page::new(bodies_for(0.05), 0, 0, &[1, 2, 3, 4]);
    p.grow();
}

#[test]
fn create_change() {
    let change = Page::create_change(CellType::Axon, Gate::North, true);
    assert!(change.get_cell_type() == CellType::Axon);
    assert!(change.get_gate() == Gate::North);

    let change = Page::create_change(CellType::Dendrite, Gate::West, true);
    assert!(change.get_cell_type() == CellType::Dendrite);
    assert!(change.get_gate() == Gate::West);
}

#[test]
fn grow_local() {
    let mut data = vec![Cell::new(), Cell::new(), Cell::new(), Cell::new()];
    assert!(data[0].get_cell_type() == CellType::Empty);
    assert!(data[0].get_gate() == Gate::North);
    assert!(data[1].get_cell_type() == CellType::Empty);
    assert!(data[1].get_gate() == Gate::North);

    let change = Page::grow_local(&mut data, 0, 0, CellType::Axon, Gate::North, true);
    assert!(data[0].get_cell_type() == CellType::Empty);
    assert!(data[0].get_gate() == Gate::North);
    assert!(data[1].get_cell_type() == CellType::Empty);
    assert!(data[1].get_gate() == Gate::North);

    assert!(change.is_some() == true);
    match change {
        ChangeType::Local((target, change)) => {
            assert!(change.get_cell_type() == CellType::Axon);
            assert!(change.get_gate() == Gate::South); // Gate is opposite of the growth direction
            assert!(target == 2);
        }
        _ => assert!(1 == 2),
    }

    let change = Page::grow_local(&mut data, 1, 0, CellType::Dendrite, Gate::West, true);
    assert!(data[0].get_cell_type() == CellType::Empty);
    assert!(data[0].get_gate() == Gate::North);
    assert!(data[1].get_cell_type() == CellType::Empty);
    assert!(data[1].get_gate() == Gate::North);

    assert!(change.is_some() == true);
    match change {
        ChangeType::Local((target, change)) => {
            assert!(change.get_cell_type() == CellType::Dendrite);
            assert!(change.get_gate() == Gate::East); // Gate is opposite of the growth direction
            assert!(target == 0);
        }
        _ => assert!(1 == 2),
    }
}

#[test]
fn grow_local_blocked_target() {
    let mut data = vec![Cell::new(), Cell::new(), Cell::new(), Cell::new()];
    data[2].set_cell_type(CellType::Body);
    let change = Page::grow_local(&data, 0, 0, CellType::Axon, Gate::North, true);
    assert!(!change.is_some());
}

fn cell_of(t: CellType, gate: Gate, chromosome: Chromosome, stim: bool) -> Cell {
    let mut c = Cell::new();
    c.set_cell_type(t);
    c.set_gate(gate);
    c.set_chromosome(chromosome);
    c.set_stim(stim);
    c
}

#[test]
fn body_at_one_one_grows_north() {
    // growth of an axon from (1, 1) northwards lands on (1, 2), facing South
    let cells: Vec<Cell> = (0..4096).map(|_| Cell::new()).collect();
    match Page::grow_local(&cells, 1, 1, CellType::Axon, Gate::North, true) {
        ChangeType::Local((target, cell)) => {
            assert_eq!(target, xy_to_z(1, 2));
            assert_eq!(cell.get_cell_type(), CellType::Axon);
            assert_eq!(cell.get_gate(), Gate::South);
        }
        _ => panic!("expected a local change"),
    }

    // through the kernel: the one active cell grows exactly one cell
    let mut p = Page::new(0, 64, 64, &[9]);
    p.set_cell(1, 1, cell_of(CellType::Body, Gate::North, Chromosome::North, true));
    p.set_input(1, 1, 0);
    p.grow();
    assert_eq!(p.get_active_cell_count(), 1);
    assert!(p.get_remote_changes().is_empty());
    p.update();
    assert_eq!(p.get_active_cell_count(), 0);
    let grown = p.get_cell(1, 2);
    assert_eq!(grown.get_cell_type(), CellType::Body);
    assert_eq!(grown.get_gate(), Gate::South);
    assert!(grown.get_stim());
}

#[test]
fn east_edge_emits_remote_change() {
    let mut p = Page::new(0, 0, 0, &[5]);
    p.set_cell(63, 20, cell_of(CellType::Axon, Gate::West, Chromosome::East, true));
    p.set_input(63, 20, 0);
    p.grow();
    assert_eq!(p.get_active_cell_count(), 0);
    let remote = p.get_remote_changes().clone();
    assert_eq!(remote.len(), 1);
    assert_eq!((remote[0].x, remote[0].y), (64, 20));
    assert_eq!(remote[0].travel_direction, Gate::East);
    assert_eq!(remote[0].cell.get_cell_type(), CellType::Axon);
    p.update();
    assert!(p.get_remote_changes().is_empty());

    // the receiving page takes it when the target is EMPTY
    let mut q = Page::new(0, 64, 0, &[5]);
    q.add_change(0, 20, remote[0].cell, remote[0].travel_direction, remote[0].stim);
    assert_eq!(q.get_active_cell_count(), 1);
    q.update();
    assert_eq!(q.get_cell(0, 20).get_cell_type(), CellType::Axon);
    assert_eq!(q.get_cell(0, 20).get_gate(), Gate::West);

    // and ignores it when the target is taken
    let mut r = Page::new(0, 64, 0, &[5]);
    r.set_cell(0, 20, cell_of(CellType::Dendrite, Gate::North, Chromosome::Block, false));
    r.add_change(0, 20, remote[0].cell, remote[0].travel_direction, remote[0].stim);
    assert_eq!(r.get_active_cell_count(), 0);
}

#[test]
fn west_edge_of_grid_drops_growth() {
    let mut p = Page::new(0, 0, 0, &[5]);
    p.set_cell(0, 20, cell_of(CellType::Axon, Gate::East, Chromosome::West, true));
    p.set_input(0, 20, 0);
    p.grow();
    assert!(p.get_remote_changes().is_empty());
    assert_eq!(p.get_active_cell_count(), 0);
}

#[test]
fn page_new_draws() {
    let p = Page::new(0, 0, 0, &[1, 2, 3, 4]);
    let mut nonzero = 0;
    for x in 0..64 {
        for y in 0..64 {
            let c = p.get_cell(x, y);
            assert_eq!(c.get_cell_type(), CellType::Empty);
            assert!(c.get_threshold() < 4);
            assert_eq!(c.get_signal(), 0);
            if c.get_threshold() > 0 {
                nonzero += 1;
            }
        }
    }
    assert!(nonzero > 0);
}

#[test]
fn page_new_places_bodies_inside() {
    let p = Page::new(bodies_for(0.05), 128, 64, &[1, 2, 3, 4]);
    let mut bodies = 0;
    for x in 0..64 {
        for y in 0..64 {
            if p.get_cell(x, y).get_cell_type() == CellType::Body {
                assert!(x >= 1 && x < 63 && y >= 1 && y < 63);
                bodies += 1;
            }
        }
    }
    assert!(bodies > 0 && bodies <= 205);
}

#[test]
fn update_clears_queues() {
    let mut p = Page::new(bodies_for(0.05), 0, 0, &[1, 2, 3, 4]);
    p.grow();
    p.update();
    assert_eq!(p.get_active_cell_count(), 0);
    assert!(p.get_remote_changes().is_empty());
}

#[test]
fn inhibitory_axon_lowers_dendrite() {
    let mut p = Page::new(0, 64, 64, &[3]);
    // an axon facing West sends North, South and East
    p.set_cell(5, 5, cell_of(CellType::Axon, Gate::West, Chromosome::Block, false));
    let mut d = cell_of(CellType::Dendrite, Gate::North, Chromosome::Block, false);
    d.set_threshold(15);
    d.set_signal(10);
    p.set_cell(6, 5, d);
    p.set_input(5, 5, 4);
    p.signal();
    assert!(p.get_remote_signal().is_empty());
    let active = p.update_signal();
    assert_eq!(active, 1);
    assert_eq!(p.get_cell(6, 5).get_signal(), 6);
    assert_eq!(p.get_cell(5, 5).get_signal(), 0);
}

#[test]
fn excitatory_axon_saturates_dendrite() {
    let mut p = Page::new(0, 64, 64, &[3]);
    p.set_cell(5, 5, cell_of(CellType::Axon, Gate::West, Chromosome::Block, true));
    let mut d = cell_of(CellType::Dendrite, Gate::North, Chromosome::Block, false);
    d.set_signal(10);
    p.set_cell(6, 5, d);
    p.set_input(5, 5, 63);
    p.signal();
    assert_eq!(p.update_signal(), 1);
    assert_eq!(p.get_cell(6, 5).get_signal(), 15);
}

#[test]
fn axon_to_axon_needs_matching_gate() {
    let mut p = Page::new(0, 64, 64, &[3]);
    // axon at (5, 5) facing South sends North to (5, 6)
    p.set_cell(5, 5, cell_of(CellType::Axon, Gate::South, Chromosome::Block, true));
    // the receiver faces South, the side the signal arrives from
    p.set_cell(5, 6, cell_of(CellType::Axon, Gate::South, Chromosome::Block, true));
    // a receiver to the East faces North: the signal arrives from the West
    p.set_cell(6, 5, cell_of(CellType::Axon, Gate::North, Chromosome::Block, true));
    p.set_input(5, 5, 5);
    p.signal();
    assert_eq!(p.update_signal(), 2);
    assert_eq!(p.get_cell(5, 6).get_signal(), 5);
    assert_eq!(p.get_cell(6, 5).get_signal(), 0);
}

#[test]
fn below_threshold_does_not_fire() {
    let mut p = Page::new(0, 64, 64, &[3]);
    let mut a = cell_of(CellType::Body, Gate::North, Chromosome::Block, true);
    a.set_threshold(9);
    p.set_cell(5, 5, a);
    p.set_cell(5, 6, cell_of(CellType::Dendrite, Gate::North, Chromosome::Block, true));
    p.set_input(5, 5, 8);
    p.signal();
    assert_eq!(p.update_signal(), 0);
    assert_eq!(p.get_cell(5, 6).get_signal(), 0);
}

#[test]
fn remote_signal_is_queued_only_for_cells() {
    let mut p = Page::new(0, 64, 64, &[3]);
    p.set_cell(0, 7, cell_of(CellType::Dendrite, Gate::North, Chromosome::Block, true));
    p.add_signal(0, 7, 3, true);
    p.add_signal(1, 7, 3, true);
    assert_eq!(p.update_signal(), 1);
    assert_eq!(p.get_cell(0, 7).get_signal(), 0);
}

#[test]
fn signal_leaving_the_page_is_remote() {
    let mut p = Page::new(0, 64, 64, &[3]);
    p.set_cell(63, 9, cell_of(CellType::Body, Gate::East, Chromosome::Block, true));
    p.set_input(63, 9, 7);
    p.signal();
    let remote = p.get_remote_signal().clone();
    assert_eq!(remote.len(), 1);
    assert_eq!((remote[0].x, remote[0].y), (128, 73));
    assert_eq!(remote[0].strength, 7);
    assert_eq!(remote[0].origin_cell_type, CellType::Body);
}

#[test]
fn get_mut_cell_changes_in_place() {
    let mut p = Page::new(0, 0, 0, &[2]);
    {
        let c = p.get_mut_cell(7, 9);
        c.set_cell_type(CellType::Dendrite);
        c.set_threshold(12);
    }
    assert_eq!(p.get_cell(7, 9).get_cell_type(), CellType::Dendrite);
    assert_eq!(p.get_cell(7, 9).get_threshold(), 12);
    assert_eq!(p.get_cell(9, 7).get_cell_type(), CellType::Empty);
}

#[test]
fn place_body_grows_four_neighbours() {
    let mut p = Page::new(0, 0, 0, &[2]);
    p.set_cell(10, 10, cell_of(CellType::Empty, Gate::North, Chromosome::Block, false));
    p.place_body(10, 10, true);
    let body = p.get_cell(10, 10);
    assert_eq!(body.get_cell_type(), CellType::Body);
    // gate North: axons North and West, dendrites South and East
    assert_eq!(p.get_cell(10, 11).get_cell_type(), CellType::Axon);
    assert_eq!(p.get_cell(10, 11).get_gate(), Gate::South);
    assert!(p.get_cell(10, 11).get_stim());
    assert_eq!(p.get_cell(9, 10).get_cell_type(), CellType::Axon);
    assert_eq!(p.get_cell(9, 10).get_gate(), Gate::East);
    assert_eq!(p.get_cell(10, 9).get_cell_type(), CellType::Dendrite);
    assert_eq!(p.get_cell(10, 9).get_gate(), Gate::North);
    assert!(!p.get_cell(10, 9).get_stim());
    assert_eq!(p.get_cell(11, 10).get_cell_type(), CellType::Dendrite);
    assert_eq!(p.get_cell(11, 10).get_gate(), Gate::West);
}
