use circuit_sim::simulator::extract::label_runs;
use circuit_sim::simulator::not_gate::{random_jitter, SLOW_STATE_MAX, TIME_RANDOM};
use circuit_sim::simulator::{Conductive, DisjointSets, NotGate, PixelBuffer, Simulator, UnionFind, Wire};

const BRIGHT: [u8; 4] = [255, 255, 255, 255];
const DARK: [u8; 4] = [0, 0, 0, 255];

/// Builds an RGBA image from rows of '#' (bright) and '.' (dark).
fn image_from(rows: &[&str]) -> PixelBuffer {
    let height = rows.len() as u32;
    let width = rows[0].len() as u32;
    let mut data = Vec::new();
    for row in rows {
        for c in row.chars() {
            if c == '#' {
                data.extend_from_slice(&BRIGHT);
            } else {
                data.extend_from_slice(&DARK);
            }
        }
    }
    PixelBuffer { width, height, components: 4, data }
}

#[test]
fn find_is_idempotent_and_merge_joins() {
    let mut uf = DisjointSets::new(5);
    assert!(uf.merge(0, 1));
    assert!(uf.merge(3, 1));
    assert!(!uf.merge(0, 3));
    let r = uf.find(0);
    assert_eq!(uf.find(r), r);
    assert_eq!(uf.find(0), uf.find(3));
    assert_ne!(uf.find(0), uf.find(2));
    assert_eq!(uf.find(-1), -1);
    assert!(!uf.merge(-1, 2));
    assert!(!uf.is_root(-1));
}

#[test]
fn merge_direction_does_not_change_partition() {
    let mut a = DisjointSets::new(4);
    let mut b = DisjointSets::new(4);
    a.merge(0, 2);
    b.merge(2, 0);
    for x in 0..4 {
        for y in 0..4 {
            assert_eq!(a.find(x) == a.find(y), b.find(x) == b.find(y));
        }
    }
}

#[test]
fn one_root_per_partition() {
    let mut uf = DisjointSets::new(6);
    uf.merge(0, 1);
    uf.merge(1, 2);
    uf.merge(4, 5);
    let roots_of_first: Vec<i32> = (0..3).filter(|&i| uf.is_root(i)).collect();
    assert_eq!(roots_of_first.len(), 1);
    assert!(uf.is_root(3));
    let roots_of_last: Vec<i32> = (4..6).filter(|&i| uf.is_root(i)).collect();
    assert_eq!(roots_of_last, vec![5]);
}

#[test]
fn threshold_boundary() {
    let p: &[u8] = &[223, 223, 223, 255];
    assert!(!p.is_conductive());
    let p: &[u8] = &[0, 224, 0, 0];
    assert!(p.is_conductive());
    let p: &[u8] = &[255, 255, 255, 255];
    assert!(p.is_conductive());
    let p: &[u8] = &[0, 0, 0, 0];
    assert!(!p.is_conductive());
    let p: &[u8] = &[0, 0, 0, 255];
    assert!(!p.is_conductive());
    let mut buf = [250u8, 10];
    let p: &mut [u8] = &mut buf;
    assert!(p.is_conductive());
}

#[test]
fn separated_runs_get_different_ids() {
    let img = image_from(&["##.##"]);
    let (map, last) = label_runs(&img);
    assert_eq!(map[0], vec![0, 0, -1, 1, 1]);
    assert_eq!(last, 1);
    let img = image_from(&[".###."]);
    let (map, last) = label_runs(&img);
    assert_eq!(map[0], vec![-1, 0, 0, 0, -1]);
    assert_eq!(last, 0);
    let img = image_from(&["....."]);
    let (_, last) = label_runs(&img);
    assert_eq!(last, -1);
}

#[test]
fn run_flag_carries_over_row_end() {
    let img = image_from(&["..#", "#.."]);
    let (map, _) = label_runs(&img);
    assert_eq!(map[0][2], map[1][0]);
    let sim = Simulator::from_image(&img);
    assert_eq!(sim.wires.len(), 1);
    assert_eq!(sim.wire_map[0][2], sim.wire_map[1][0]);
}

#[test]
fn crossing_joins_opposite_sides_only() {
    let img = image_from(&[".#.", "#.#", ".#."]);
    let sim = Simulator::from_image(&img);
    assert_eq!(sim.gates.len(), 0);
    assert_eq!(sim.wire_map[1][0], sim.wire_map[1][2]);
    assert_eq!(sim.wire_map[0][1], sim.wire_map[2][1]);
    assert_ne!(sim.wire_map[1][0], sim.wire_map[0][1]);
    assert_eq!(sim.wire_map[1][1], -1);
    assert_eq!(sim.wires.len(), 2);
}

#[test]
fn two_separate_pixels_make_two_wires() {
    let sim = Simulator::from_image(&image_from(&["#.#"]));
    assert_eq!(sim.wires.len(), 2);
    assert_eq!(sim.gates.len(), 0);
    assert_eq!(sim.wire_map[0][1], -1);
    assert!(sim.wire_map[0][0] >= 0 && sim.wire_map[0][2] >= 0);
    assert_ne!(sim.wire_map[0][0], sim.wire_map[0][2]);
}

#[test]
fn dark_image_has_no_wires() {
    let sim = Simulator::from_image(&image_from(&["...", "..."]));
    assert_eq!(sim.wires.len(), 0);
    assert!(sim.wire_map.iter().all(|row| row.iter().all(|&id| id == -1)));
}

#[test]
fn find_compresses_walked_path_only() {
    let mut uf = DisjointSets::new(5);
    uf.parent = vec![1, 2, -1, 2, -1];
    assert_eq!(uf.find(0), 2);
    assert_eq!(uf.parent, vec![2, 2, -1, 2, -1]);
    let before = uf.parent.clone();
    assert_eq!(uf.find(-1), -1);
    assert!(!uf.merge(-1, 3));
    assert!(!uf.is_root(-4));
    assert_eq!(uf.parent, before);
    assert_eq!(uf.find(2), 2);
    assert_eq!(uf.parent, before);
    assert!(uf.merge(4, 0));
    assert_eq!(uf.parent, vec![2, 2, -1, 2, 2]);
}

#[test]
fn not_gate_up_reads_below_drives_above() {
    let img = image_from(&[".#.", "#.#", "###"]);
    let sim = Simulator::from_image(&img);
    assert_eq!(sim.gates.len(), 1);
    let gate = &sim.gates[0];
    assert_eq!(gate.wire_out_id, sim.wire_map[0][1]);
    assert_eq!(gate.wire_in_id, sim.wire_map[2][1]);
    assert_ne!(gate.wire_in_id, gate.wire_out_id);
    assert_eq!((gate.x, gate.y), (1, 1));
    assert_eq!(sim.wires.len(), 2);
    let out = gate.wire_out_id as usize;
    let inp = gate.wire_in_id as usize;
    assert_eq!(sim.wires[out].gate_in_ids, vec![0]);
    assert_eq!(sim.wires[inp].gate_out_ids, vec![0]);
}

#[test]
fn not_gates_in_other_orientations() {
    let down = Simulator::from_image(&image_from(&["###", "#.#", ".#."]));
    assert_eq!(down.gates.len(), 1);
    assert_eq!(down.gates[0].wire_in_id, down.wire_map[0][1]);
    assert_eq!(down.gates[0].wire_out_id, down.wire_map[2][1]);

    let left = Simulator::from_image(&image_from(&[".##", "#.#", ".##"]));
    assert_eq!(left.gates.len(), 1);
    assert_eq!(left.gates[0].wire_in_id, left.wire_map[1][2]);
    assert_eq!(left.gates[0].wire_out_id, left.wire_map[1][0]);

    let right = Simulator::from_image(&image_from(&["##.", "#.#", "##."]));
    assert_eq!(right.gates.len(), 1);
    assert_eq!(right.gates[0].wire_in_id, right.wire_map[1][0]);
    assert_eq!(right.gates[0].wire_out_id, right.wire_map[1][2]);
}

#[test]
fn other_diagonal_patterns_are_ignored() {
    let sim = Simulator::from_image(&image_from(&["#..", "#.#", ".#."]));
    assert_eq!(sim.gates.len(), 0);
}

#[test]
fn building_twice_gives_same_graph() {
    let img = image_from(&["#.#.#", "###.#", "#.#..", ".#.##"]);
    let a = Simulator::from_image(&img);
    let b = Simulator::from_image(&img);
    assert_eq!(a.wires.len(), b.wires.len());
    assert_eq!(a.gates.len(), b.gates.len());
    assert_eq!(a.wire_map, b.wire_map);
}

#[test]
fn wired_or_of_two_gates() {
    let mut driven = Wire::new();
    driven.gate_in_ids = vec![0, 1];
    let mut input = Wire::new();
    input.gate_out_ids = vec![0, 1];
    let mut sim = Simulator {
        width: 2,
        height: 1,
        raw_image: image_from(&["##"]),
        wire_map: vec![vec![0, 1]],
        gates: vec![NotGate::new(1, 0, 0, 0, 0), NotGate::new(1, 0, 0, 0, 0)],
        wires: vec![driven, input],
    };
    assert!(!sim.get_wire_state(0));
    sim.gates[1].state = true;
    assert!(sim.get_wire_state(0));
    sim.gates[0].state = true;
    assert!(sim.get_wire_state(0));
    sim.gates[1].state = false;
    assert!(sim.get_wire_state(0));
    sim.gates[0].state = false;
    assert!(!sim.get_wire_state(0));
    // writing a driven wire has no effect on what it reads
    assert!(sim.set(0, 0, true));
    assert!(!sim.get_wire_state(0));
}

#[test]
fn gate_rises_within_two_updates() {
    let mut gate = NotGate::new(0, 1, 0, 0, 0);
    gate.update_state(true);
    assert!(!gate.state);
    assert!(gate.slow_state >= SLOW_STATE_MAX / 2 && gate.slow_state < SLOW_STATE_MAX);
    gate.update_state(true);
    assert!(gate.state);
    assert_eq!(gate.slow_state, SLOW_STATE_MAX);
    gate.update_state(true);
    assert!(gate.state);
    assert_eq!(gate.slow_state, SLOW_STATE_MAX);
}

#[test]
fn gate_update_with_jitter_exact() {
    let mut gate = NotGate::new(0, 1, 0, 0, 0);
    gate.update_state_with_jitter(true, 100);
    assert_eq!(gate.slow_state, 612);
    assert!(!gate.state);
    gate.update_state_with_jitter(true, 0);
    assert_eq!(gate.slow_state, 1024);
    assert!(gate.state);
    gate.update_state_with_jitter(false, 511);
    assert_eq!(gate.slow_state, 1);
    assert!(gate.state);
    gate.update_state_with_jitter(false, 0);
    assert_eq!(gate.slow_state, 0);
    assert!(!gate.state);
    // settled low: nothing moves
    gate.update_state_with_jitter(false, 300);
    assert_eq!(gate.slow_state, 0);
    assert!(!gate.state);
}

#[test]
fn jitter_stays_in_range() {
    for _ in 0..100 {
        assert!(random_jitter() < TIME_RANDOM);
    }
}

#[test]
fn single_row_wire_is_externally_set() {
    let img = image_from(&["#####"]);
    let mut sim = Simulator::from_image(&img);
    assert_eq!(sim.wires.len(), 1);
    assert_eq!(sim.gates.len(), 0);
    assert!(sim.wire_map[0].iter().all(|&id| id == 0));
    assert!(!sim.get_wire_state(0));
    assert!(sim.set(3, 0, true));
    assert!(sim.get_wire_state(0));
    sim.simulate(0);
    assert!(sim.wires[0].state);
}

#[test]
fn set_on_empty_pixel_reports_no_wire() {
    let img = image_from(&["#.#"]);
    let mut sim = Simulator::from_image(&img);
    assert!(!sim.set(1, 0, true));
    assert!(sim.set(2, 0, true));
}

#[test]
fn not_gate_end_to_end() {
    let img = image_from(&[".#.", "#.#", "###"]);
    let mut sim = Simulator::from_image(&img);
    assert_eq!(sim.gates.len(), 1);
    let out = sim.gates[0].wire_out_id as u32;
    let zero = vec![0u32; sim.gates.len()];

    // input high: the output stays low
    assert!(sim.set(1, 2, true));
    sim.simulate_one_step_with_jitter(&zero);
    sim.simulate_one_step_with_jitter(&zero);
    assert!(!sim.get_wire_state(out));

    // input low: with no extra progress the output needs exactly two steps
    assert!(sim.set(1, 2, false));
    sim.simulate_one_step_with_jitter(&zero);
    assert!(!sim.get_wire_state(out));
    sim.simulate_one_step_with_jitter(&zero);
    assert!(sim.get_wire_state(out));
    sim.simulate_one_step_with_jitter(&zero);
    assert!(sim.wires[out as usize].state);

    // input high again: the output falls within two steps
    assert!(sim.set(1, 2, true));
    sim.simulate(2);
    assert!(!sim.get_wire_state(out));
}

#[test]
fn random_steps_settle_within_bound() {
    let img = image_from(&[".#.", "#.#", "###"]);
    let mut sim = Simulator::from_image(&img);
    let out = sim.gates[0].wire_out_id as u32;
    sim.simulate(2);
    assert!(sim.get_wire_state(out));
}
