use rubikscube::spaces::{CornerSpace, CosetSpace, SubsetSpace};
use rubikscube::stored_tables::{CORNERS_HISTOGRAM, COSET_HISTOGRAM, SUBSET_HISTOGRAM};
use rubikscube::subset::{coset_index, in_subset, subset_index, C_ori, C_prm, E_non_slice_prm, E_ori, E_slice_loc, E_slice_prm};
use rubikscube::{
    is_corners_table, is_coset_table, is_subset_table, stat_line, AllTwister, Corners, CosetCube,
    Cube, DirectionsAndDistance, DirectionsTable, DistanceTable, Edges, Numbered, RandomTwistGen,
    StateSpace, SubsetCube, Twist, Twistable, Twists,
};

fn flip_index(e: Edges) -> usize {
    e.ori_index() as usize
}

fn flip_state(i: usize) -> Edges {
    Edges::from_index(0, 0, 0, i as u16)
}

/// The space of the edge orientations, numbered by the orientation index.
fn flips() -> Numbered<fn(Edges) -> usize, fn(usize) -> Edges> {
    Numbered { index: flip_index, from_index: flip_state, size: 2048 }
}

/// The distances in the space of the edge orientations by a search with a
/// queue, to hold the tables against.
fn flip_distances(twists: Twists, origin: usize) -> Vec<u8> {
    let mut table = vec![255u8; 2048];
    let mut queue = std::collections::VecDeque::new();
    table[origin] = 0;
    queue.push_back(origin);
    while let Some(i) = queue.pop_front() {
        for twist in twists.iter() {
            let next = flip_index(flip_state(i).twisted(twist));
            if table[next] == 255 {
                table[next] = table[i] + 1;
                queue.push_back(next);
            }
        }
    }
    table
}

#[test]
fn test_distance_table_in_a_numbered_space() {
    let space = flips();
    assert_eq!(space.size(), 2048);
    assert_eq!(space.step(0, Twist::U1), 0);
    assert_eq!(space.step(0, Twist::L1), 400);
    assert_eq!(space.step(400, Twist::L3), 0);

    let table = DistanceTable::create_in(&space, Twists::all(), 0);
    assert_eq!(table.bytes(), &flip_distances(Twists::all(), 0));
    assert_eq!(table.histogram(), vec![1, 2, 25, 202, 620, 900, 285, 13]);
    // from another origin
    let table = DistanceTable::create_in(&space, Twists::all(), 400);
    assert_eq!(table.bytes(), &flip_distances(Twists::all(), 400));
    assert_eq!(table.distance(400), 0);
    assert_eq!(table.distance(0), 1);
    // quarter turns of the left face alone reach two states
    let mut left = Twists::empty();
    left.set(Twist::L1);
    let table = DistanceTable::create_in(&space, left, 0);
    assert_eq!(table.bytes(), &flip_distances(left, 0));
    assert_eq!(table.histogram()[0], 1);
    assert_eq!(table.histogram()[1], 1);
    assert_eq!(table.histogram()[255], 2046);
}

#[test]
fn test_solution_in_a_numbered_space() {
    let space = flips();
    let table = DistanceTable::create_in(&space, Twists::all(), 0);
    assert_eq!(table.solution_in(&space, Twists::all(), 0), Some(vec![]));
    assert_eq!(table.solution_in(&space, Twists::all(), 400), Some(vec![Twist::L1]));
    assert_eq!(table.solution_in(&space, Twists::face_of(Twist::U1), 400), None);
    let mut rnd = RandomTwistGen::new(77, Twists::all());
    for _ in 0..500 {
        let start = (rnd.gen_twist().index() as usize * 113 + rnd.gen_twist().index() as usize * 7) % 2048;
        let solution = table.solution_in(&space, Twists::all(), start).unwrap();
        assert_eq!(solution.len(), table.distance(start) as usize);
        let mut state = start;
        for &twist in &solution {
            let d = table.distance(state);
            for earlier in Twists::all().iter() {
                if earlier.index() < twist.index() {
                    assert!(table.distance(space.step(state, earlier)) >= d);
                }
            }
            state = space.step(state, twist);
            assert_eq!(table.distance(state) + 1, d);
        }
        assert_eq!(state, 0);
    }
}

#[test]
fn test_directions_table_in_a_numbered_space() {
    let space = flips();
    let table = DirectionsTable::create_in(&space, Twists::h0(), 0);
    let expected = flip_distances(Twists::h0(), 0);
    for i in 0..2048 {
        assert_eq!(table.distance(i), expected[i]);
        for twist in Twists::all().iter() {
            let next = expected[space.step(i, twist)];
            let asked = Twists::h0().contains(twist);
            assert_eq!(table.less_distance(i).contains(twist), asked && next < expected[i]);
            assert_eq!(table.more_distance(i).contains(twist), asked && next > expected[i]);
        }
    }
}

#[test]
fn test_histograms_of_the_stored_tables() {
    assert_eq!(CORNERS_HISTOGRAM.iter().sum::<u64>(), Corners::INDEX_SIZE as u64);
    assert_eq!(SUBSET_HISTOGRAM.iter().sum::<u64>(), SubsetCube::INDEX_SIZE);
    assert_eq!(COSET_HISTOGRAM.iter().sum::<u64>(), CosetCube::INDEX_SIZE as u64);
    assert_eq!(CORNERS_HISTOGRAM.len(), 12);
    assert_eq!(SUBSET_HISTOGRAM.len(), 19);
    assert_eq!(COSET_HISTOGRAM.len(), 13);

    // a table with the numbers of another space is none of the three
    let space = flips();
    let table = DistanceTable::create_in(&space, Twists::all(), 0);
    assert!(!is_corners_table(&table));
    assert!(!is_subset_table(&table));
    let directions = DirectionsTable::create_in(&space, Twists::all(), 0);
    assert!(!is_coset_table(&directions));

    // a table with the right greatest distance and the wrong numbers
    let mut entries: Vec<u8> = (0..12).collect();
    entries.extend(std::iter::repeat(1).take(17));
    assert!(!is_corners_table(&DistanceTable::from_vec(entries)));
    // a table with twelve numbers of which the first eleven are right
    let mut entries: Vec<u8> = Vec::new();
    for (d, &n) in [1usize, 18, 243, 2874].iter().enumerate() {
        entries.extend(std::iter::repeat(d as u8).take(n));
    }
    let few = DistanceTable::from_vec(entries);
    assert_eq!(few.histogram(), vec![1, 18, 243, 2874]);
    assert!(!is_corners_table(&few));
    let same = DirectionsTable::from_vec(vec![DirectionsAndDistance::from_u64(0)]);
    assert_eq!(same.histogram(), vec![1]);
    assert!(!is_coset_table(&same));
}

#[test]
fn test_steps_of_the_three_spaces() {
    let twister = AllTwister::new();
    let corners = CornerSpace {};
    let cosets = CosetSpace { twister: &twister };
    let states = SubsetSpace { twister: &twister };
    assert_eq!(corners.size(), 88_179_840);
    assert_eq!(cosets.size(), 2_217_093_120);
    assert_eq!(states.size(), 19_508_428_800);

    let mut rnd = RandomTwistGen::new(11, Twists::all());
    let mut c = Corners::solved();
    let mut cube = Cube::solved();
    let mut corner = c.index() as usize;
    let mut coset = cube.coset_index() as usize;
    for _ in 0..20_000 {
        let twist = rnd.gen_twist();
        c = c.twisted(twist);
        cube = cube.twisted(&twister, twist);
        corner = corners.step(corner, twist);
        coset = cosets.step(coset, twist);
        assert_eq!(corner, c.index() as usize);
        assert_eq!(corner, cube.corners_index() as usize);
        assert_eq!(coset, cube.coset_index() as usize);
    }

    let mut rnd = RandomTwistGen::new(12, Twists::h0());
    let mut cube = Cube::solved();
    let mut state = 0usize;
    for _ in 0..20_000 {
        let twist = rnd.gen_twist();
        cube = cube.twisted(&twister, twist);
        state = states.step(state, twist);
        assert!(cube.in_subset());
        assert_eq!(state as u64, cube.to_subset().index());
        assert_eq!(SubsetCube::from_index(state as u64), cube.to_subset());
    }
}

#[test]
fn test_coordinates_as_types() {
    assert_eq!(subset_index(C_prm(9), E_non_slice_prm(7), E_slice_prm(5)), 4 * 24 * 40320 + 7 * 24 + 5);
    assert_eq!(subset_index(C_prm(8), E_non_slice_prm(7), E_slice_prm(5)), 4 * 24 * 40320 + 7 * 24 + 5);
    assert_eq!(subset_index(C_prm(0), E_non_slice_prm(0), E_slice_prm(0)), 0);
    assert_eq!(coset_index(C_ori(3), E_ori(4), E_slice_loc(5)), 3 * 2048 * 495 + 4 * 495 + 5);
    assert_eq!(coset_index(C_ori(2186), E_ori(2047), E_slice_loc(494)), 2_217_093_119);
    assert!(in_subset(C_ori(0), E_ori(0), E_slice_loc(494)));
    assert!(!in_subset(C_ori(0), E_ori(0), E_slice_loc(0)));
    assert!(!in_subset(C_ori(1), E_ori(0), E_slice_loc(494)));
    assert!(!in_subset(C_ori(0), E_ori(1), E_slice_loc(494)));
}

#[test]
fn test_stat_line_groups_the_digits() {
    assert_eq!(stat_line("Phase 1 probes", 0), "Phase 1 probes: 0");
    assert_eq!(stat_line("Phase 2 probes", 999), "Phase 2 probes: 999");
    assert_eq!(stat_line("Subset cuts", 1000), "Subset cuts: 1\u{2019}000");
    assert_eq!(stat_line("Corner probes", 1_002_030), "Corner probes: 1\u{2019}002\u{2019}030");
    assert_eq!(stat_line("Corner cuts", 12_345_678), "Corner cuts: 12\u{2019}345\u{2019}678");
}

#[test]
fn test_tables_of_a_space_whose_turns_can_be_undone() {
    // all turns, the turns of H0 and the turns of two opposite faces each hold
    // the inverse of every turn of theirs
    let mut sides = Twists::face_of(Twist::L1);
    sides.set_twists(Twists::face_of(Twist::R2));
    for twists in [Twists::all(), Twists::h0(), sides, Twists::empty()] {
        for origin in [0usize, 1, 1000, 2047] {
            let expected = flip_distances(twists, origin);
            let plain = DistanceTable::create_in(&flips(), twists, origin);
            let quick = DistanceTable::create_in_reversible(&flips(), twists, origin);
            assert_eq!(plain.bytes(), &expected);
            assert_eq!(quick.bytes(), &expected);
            assert_eq!(quick.max_distance(), plain.max_distance());

            let directions = DirectionsTable::create_in_reversible(&flips(), twists, origin);
            let same = DirectionsTable::create_in(&flips(), twists, origin);
            assert_eq!(directions.to_bytes(), same.to_bytes());
            for i in 0..2048 {
                assert_eq!(directions.distance(i), expected[i]);
            }
        }
    }
}
