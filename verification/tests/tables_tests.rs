use rubikscube::{
    corners_distance_table, CornerLookup, inversed, is_corners_table, Corners, DirectionsAndDistance,
    DirectionsTable, DistanceTable, Edges, RandomTwistGen, Twist, Twistable, Twists,
};
use std::collections::VecDeque;

fn ori_index(c: Corners) -> usize {
    c.ori_index() as usize
}

fn ori_state(i: usize) -> Corners {
    Corners::from_index(0, i as u16)
}

fn flip_index(e: Edges) -> usize {
    e.ori_index() as usize
}

fn flip_state(i: usize) -> Edges {
    Edges::from_index(0, 0, 0, i as u16)
}

/// The distances by a search with a queue, to hold the tables against.
fn distances_by_queue(size: usize, twists: Twists) -> Vec<u8> {
    let mut table = vec![255u8; size];
    let mut queue = VecDeque::new();
    table[0] = 0;
    queue.push_back(0usize);
    while let Some(i) = queue.pop_front() {
        for twist in twists.iter() {
            let next = ori_index(ori_state(i).twisted(twist));
            if table[next] == 255 {
                table[next] = table[i] + 1;
                queue.push_back(next);
            }
        }
    }
    table
}

#[test]
fn test_distance_table_of_the_corner_orientations() {
    let table = DistanceTable::create(Twists::all(), Corners::solved(), ori_index, ori_state, 2187);
    let expected = distances_by_queue(2187, Twists::all());
    assert_eq!(table.len(), 2187);
    assert_eq!(table.bytes(), &expected);
    assert_eq!(table.distance(0), 0);
    assert_eq!(table.max_distance(), *expected.iter().max().unwrap());
    assert_eq!(table.max_distance(), 6);

    let counts = table.histogram();
    assert_eq!(counts, vec![1, 4, 34, 186, 816, 1018, 128]);
    assert_eq!(counts.iter().sum::<u64>(), 2187);

    // every state but the origin has a neighbour that is nearer by one, and no
    // neighbour is further off than one
    for i in 0..table.len() {
        let d = table.distance(i);
        let mut nearer = false;
        for twist in Twists::all().iter() {
            let next = table.distance(ori_index(ori_state(i).twisted(twist)));
            assert!(next + 1 >= d && next <= d + 1);
            nearer |= next + 1 == d;
        }
        assert_eq!(nearer, d > 0);
    }
}

#[test]
fn test_distance_table_leaves_unreached_states_unset() {
    // the turns of H0 turn no corner out of its orientation but by U and D,
    // which leave the orientation index 0 alone
    let table = DistanceTable::create(Twists::h0(), Corners::solved(), ori_index, ori_state, 2187);
    let expected = distances_by_queue(2187, Twists::h0());
    assert_eq!(table.bytes(), &expected);
    assert_eq!(table.distance(0), 0);
    assert_eq!(table.max_distance(), 255);
    assert!(table.bytes().iter().any(|&d| d == 255));

    let none = DistanceTable::create(Twists::empty(), Corners::solved(), ori_index, ori_state, 2187);
    assert_eq!(none.distance(0), 0);
    assert!((1..2187).all(|i| none.distance(i) == 255));
}

#[test]
fn test_solution_descends_to_the_origin() {
    let table = DistanceTable::create(Twists::all(), Edges::solved(), flip_index, flip_state, 2048);
    assert_eq!(table.max_distance(), 7);
    let mut rnd = RandomTwistGen::new(5989, Twists::all());
    for _ in 0..2_000 {
        let mut cube = Edges::solved();
        for twist in rnd.gen_twists(30) {
            cube = cube.twisted(twist);
        }
        let cube = flip_state(flip_index(cube));
        let solution = table.solution(cube, Twists::all(), flip_index);
        assert_eq!(solution.len(), table.distance(flip_index(cube)) as usize);
        let mut test_cube = cube;
        for &twist in &solution {
            let d = table.distance(flip_index(test_cube));
            // the first turn in order that leads nearer
            let first = Twists::all()
                .iter()
                .into_iter()
                .find(|&t| table.distance(flip_index(test_cube.twisted(t))) < d)
                .unwrap();
            assert_eq!(twist, first);
            test_cube = test_cube.twisted(twist);
        }
        assert_eq!(flip_index(test_cube), 0);
    }
    assert_eq!(table.solution(Edges::solved(), Twists::all(), flip_index), vec![]);
    assert_eq!(table.descent(Edges::solved(), Twists::all(), flip_index), Some(vec![]));
    let flipped = Edges::solved().twisted(Twist::L1);
    assert_eq!(table.solution(flipped, Twists::all(), flip_index), vec![Twist::L1]);
    assert_eq!(table.descent(flipped, Twists::all(), flip_index), Some(vec![Twist::L1]));
}

#[test]
fn test_solution_gets_stuck_without_a_turn_that_leads_nearer() {
    let table = DistanceTable::create(Twists::all(), Edges::solved(), flip_index, flip_state, 2048);
    let flipped = Edges::solved().twisted(Twist::L1);
    // no turn of U leads from the flipped state to the origin
    assert_eq!(table.descent(flipped, Twists::face_of(Twist::U1), flip_index), None);
    // a table that claims a distance which no neighbour undercuts
    let wrong = DistanceTable::from_vec(vec![9; 2048]);
    assert_eq!(wrong.descent(Edges::solved(), Twists::all(), flip_index), None);
}

#[test]
fn test_from_vec() {
    let table = DistanceTable::from_vec(vec![3, 0, 7, 7, 2]);
    assert_eq!(table.len(), 5);
    assert_eq!(table.max_distance(), 7);
    assert_eq!(table.distance(0), 3);
    assert_eq!(table.distance(4), 2);
    assert_eq!(table.bytes(), &vec![3, 0, 7, 7, 2]);
    assert_eq!(table.histogram(), vec![1, 0, 1, 1, 0, 0, 0, 2]);
    assert_eq!(DistanceTable::from_vec(vec![0]).max_distance(), 0);
}

#[test]
fn test_directions_and_distance_layout() {
    let less = Twists::from_bits(0b101);
    let more = Twists::from_bits(0b11 << 16);
    let entry = DirectionsAndDistance::new(less, more, 9);
    assert_eq!(entry.value(), (0b101u64 << 32) | ((0b11u64 << 16) << 8) | 9);
    assert_eq!(entry.less_distance(), less);
    assert_eq!(entry.more_distance(), more);
    assert_eq!(entry.distance(), 9);
    let raw = DirectionsAndDistance::from_u64(0x0003_FFFF_0000_0105);
    assert_eq!(raw.distance(), 5);
    assert_eq!(raw.more_distance(), Twists::from_bits(1));
    assert_eq!(raw.less_distance(), Twists::all());
}

#[test]
fn test_directions_table_of_the_corner_orientations() {
    let table = DirectionsTable::create(Twists::all(), Corners::solved(), ori_index, ori_state, 2187);
    let distances = distances_by_queue(2187, Twists::all());
    assert_eq!(table.len(), 2187);
    assert_eq!(table.max_distance(), 6);
    assert_eq!(table.histogram(), vec![1, 4, 34, 186, 816, 1018, 128]);
    for i in 0..table.len() {
        let d = table.distance(i);
        assert_eq!(d, distances[i]);
        let less = table.less_distance(i);
        let more = table.more_distance(i);
        for twist in Twists::all().iter() {
            let next_d = table.distance(ori_index(ori_state(i).twisted(twist)));
            assert_eq!(less.contains(twist), next_d < d, "less of {} for {:?}", i, twist);
            assert_eq!(more.contains(twist), next_d > d, "more of {} for {:?}", i, twist);
        }
    }
    // only the turns that were asked for are named
    let few = DirectionsTable::create(
        Twists::face_of(Twist::F1),
        Corners::solved(),
        ori_index,
        ori_state,
        2187,
    );
    for i in 0..few.len() {
        let mut named = few.less_distance(i);
        named.set_twists(few.more_distance(i));
        named.unset_twists(Twists::face_of(Twist::F1));
        assert_eq!(named, Twists::empty());
    }
}

#[test]
fn test_directions_table_bytes() {
    let table = DirectionsTable::create(Twists::all(), Edges::solved(), flip_index, flip_state, 2048);
    let bytes = table.to_bytes();
    assert_eq!(bytes.len(), 8 * 2048);
    let entry = DirectionsAndDistance::new(table.less_distance(5), table.more_distance(5), table.distance(5));
    assert_eq!(&bytes[40..48], &entry.value().to_le_bytes());
    let again = DirectionsTable::from_bytes(&bytes);
    assert_eq!(again.len(), table.len());
    assert_eq!(again.max_distance(), table.max_distance());
    for i in 0..table.len() {
        assert_eq!(again.distance(i), table.distance(i));
        assert_eq!(again.less_distance(i), table.less_distance(i));
        assert_eq!(again.more_distance(i), table.more_distance(i));
    }
    // what is left of fewer than eight bytes is not read
    let mut longer = vec![7, 0, 0, 0, 0, 0, 0, 0, 1, 2, 3];
    assert_eq!(DirectionsTable::from_bytes(&longer).len(), 1);
    assert_eq!(DirectionsTable::from_bytes(&longer).distance(0), 7);
    longer.extend_from_slice(&[0, 0, 1, 0, 0]);
    let two = DirectionsTable::from_bytes(&longer);
    assert_eq!(two.len(), 2);
    assert_eq!(two.distance(1), 1);
    assert_eq!(two.more_distance(1), Twists::from_bits(0x0302));
    assert_eq!(two.less_distance(1), Twists::from_bits(0x100));
    assert_eq!(two.max_distance(), 7);
    let _ = inversed(Twist::L1);
}

#[test]
fn test_distance_table() {
    let table = corners_distance_table();
    assert_eq!(table.len(), Corners::INDEX_SIZE as usize);

    let mut counts = vec![0; 12];
    for i in 0..table.len() {
        let d = table.distance(i) as usize;
        counts[d] += 1;
    }
    // According to https://oeis.org/A080629
    assert_eq!(
        counts,
        vec![
            1, 18, 243, 2_874, 28_000, 205_416, 1_168_516, 5_402_628, 20_776_176, 45_391_616,
            15_139_616, 64_736
        ]
    );
    assert_eq!(table.max_distance(), 11);
    assert!(is_corners_table(&table));

    let mut rnd = RandomTwistGen::new(5989, Twists::all());
    for _ in 0..100_000 {
        let mut cube = Corners::solved();
        let twists = rnd.gen_twists(100);
        for &twist in &twists {
            cube = cube.twisted(twist);
        }
        let solution = table.solution(cube, Twists::all(), |c: Corners| c.index() as usize);
        let mut test_cube = cube;
        for &twist in &solution {
            test_cube = test_cube.twisted(twist);
        }
        assert_eq!(test_cube, Corners::solved());
    }
}

#[test]
fn test_directions_table() {
    let table = DirectionsTable::create_in(&CornerLookup::new(), Twists::all(), 0);

    for _ in 0..100_000 {
        let i = rand::random::<usize>() % Corners::INDEX_SIZE as usize;
        let d = table.distance(i);
        let less = table.less_distance(i);
        let more = table.more_distance(i);

        let cube = Corners::from_combined_index(i as u32);
        for twist in Twists::all().iter() {
            let next = cube.twisted(twist);
            let next_d = table.distance(next.index() as usize);
            if next_d < d {
                assert!(less.contains(twist), "Less missing twist {:?} at index {}", twist, i);
            } else if next_d > d {
                assert!(more.contains(twist), "More missing twist {:?} at index {}", twist, i);
            }
        }
    }
}

#[test]
fn test_distance_table_of_all_corners_by_closures() {
    // the turns of H0 reach every permutation of the corners and turn none of
    // them out of its orientation: 40320 of the 88179840 states
    let size = Corners::INDEX_SIZE as usize;
    let table = DistanceTable::create(
        Twists::h0(),
        Corners::solved(),
        |c: Corners| c.index() as usize,
        |i: usize| Corners::from_combined_index(i as u32),
        size,
    );
    assert_eq!(table.len(), size);

    let mut expected = vec![255u8; size];
    let mut queue = VecDeque::new();
    expected[0] = 0;
    queue.push_back(0usize);
    let mut reached = 0;
    while let Some(i) = queue.pop_front() {
        reached += 1;
        assert_eq!(i % 2187, 0);
        for twist in Twists::h0().iter() {
            let next = Corners::from_combined_index(i as u32).twisted(twist).index() as usize;
            if expected[next] == 255 {
                expected[next] = expected[i] + 1;
                queue.push_back(next);
            }
        }
    }
    assert_eq!(reached, 40320);
    assert!(table.bytes() == &expected);
    assert_eq!(table.max_distance(), 255);
    assert_eq!(table.distance(0), 0);
    assert_eq!(table.distance(1), 255);
    let counts = table.histogram();
    assert_eq!(counts.len(), 256);
    assert_eq!(counts[255], 88_179_840 - 40_320);
    assert_eq!(counts[..255].iter().sum::<u64>(), 40_320);
}

#[test]
fn test_directions_table_of_the_corner_permutations_by_closures() {
    let index = |c: Corners| c.prm_index() as usize;
    let state = |i: usize| Corners::from_index(i as u16, 0);
    let table = DirectionsTable::create(Twists::all(), Corners::solved(), index, state, 40320);
    let distances = DistanceTable::create(Twists::all(), Corners::solved(), index, state, 40320);
    assert_eq!(table.len(), 40320);
    assert_eq!(table.max_distance(), distances.max_distance());
    assert_eq!(table.histogram(), distances.histogram());
    assert_eq!(table.histogram().iter().sum::<u64>(), 40320);
    for i in 0..table.len() {
        let d = table.distance(i);
        assert_eq!(d, distances.distance(i));
        let less = table.less_distance(i);
        let more = table.more_distance(i);
        let mut nearer = false;
        for twist in Twists::all().iter() {
            let next_d = table.distance(index(state(i).twisted(twist)));
            assert!(next_d + 1 >= d && next_d <= d + 1);
            assert_eq!(less.contains(twist), next_d < d);
            assert_eq!(more.contains(twist), next_d > d);
            nearer |= next_d < d;
        }
        assert_eq!(nearer, d > 0);
    }
}
