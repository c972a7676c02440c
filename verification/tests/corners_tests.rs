use rubikscube::{inversed, Corners, RandomTwistGen, Twist, Twistable, Twists};

#[test]
fn corners_test_solved() {
    let c = Corners::solved();
    assert!(c.is_solved());
    assert!(!c.twisted(Twist::L1).is_solved());
    assert_eq!(c.to_string(), "0 1 2 3 4 5 6 7 | 0 0 0 0 0 0 0 0");
}

#[test]
fn corners_test_twist_results() {
    let c = Corners::solved();
    assert_eq!(c.twisted(Twist::L1).to_string(), "2 1 6 3 0 5 4 7 | 2 0 2 0 2 0 2 0");
    assert_eq!(c.twisted(Twist::R1).to_string(), "0 5 2 1 4 7 6 3 | 0 2 0 2 0 2 0 2");
    assert_eq!(c.twisted(Twist::U1).to_string(), "1 3 0 2 4 5 6 7 | 0 0 0 0 0 0 0 0");
    assert_eq!(c.twisted(Twist::D1).to_string(), "0 1 2 3 6 4 7 5 | 0 0 0 0 0 0 0 0");
    assert_eq!(c.twisted(Twist::F1).to_string(), "4 0 2 3 5 1 6 7 | 1 1 0 0 1 1 0 0");
    assert_eq!(c.twisted(Twist::B1).to_string(), "0 1 3 7 4 5 2 6 | 0 0 1 1 0 0 1 1");
}

#[test]
fn corners_test_composed_twists() {
    let c = Corners::solved();
    assert_eq!(c.twisted(Twist::L2), c.twisted(Twist::L1).twisted(Twist::L1));
    assert_eq!(c.twisted(Twist::L3), c.twisted(Twist::L1).twisted(Twist::L1).twisted(Twist::L1));
    assert_eq!(c.twisted(Twist::R2), c.twisted(Twist::R1).twisted(Twist::R1));
    assert_eq!(c.twisted(Twist::R3), c.twisted(Twist::R1).twisted(Twist::R1).twisted(Twist::R1));
    assert_eq!(c.twisted(Twist::U2), c.twisted(Twist::U1).twisted(Twist::U1));
    assert_eq!(c.twisted(Twist::U3), c.twisted(Twist::U1).twisted(Twist::U1).twisted(Twist::U1));
    assert_eq!(c.twisted(Twist::D2), c.twisted(Twist::D1).twisted(Twist::D1));
    assert_eq!(c.twisted(Twist::D3), c.twisted(Twist::D1).twisted(Twist::D1).twisted(Twist::D1));
    assert_eq!(c.twisted(Twist::F2), c.twisted(Twist::F1).twisted(Twist::F1));
    assert_eq!(c.twisted(Twist::F3), c.twisted(Twist::F1).twisted(Twist::F1).twisted(Twist::F1));
    assert_eq!(c.twisted(Twist::B2), c.twisted(Twist::B1).twisted(Twist::B1));
    assert_eq!(c.twisted(Twist::B3), c.twisted(Twist::B1).twisted(Twist::B1).twisted(Twist::B1));
}

#[test]
fn corners_test_inverse_twists() {
    for twist in Twists::all().iter() {
        assert!(
            Corners::solved().twisted(twist).twisted(inversed(twist)).is_solved(),
            "Inverse twist failed for {:?}",
            twist
        );
    }
}

#[test]
fn corners_test_twists_cycle() {
    for twist in Twists::all().iter() {
        let mut c = Corners::solved();
        for _ in 0..4 {
            c = c.twisted(twist);
        }
        assert_eq!(c, Corners::solved(), "4x twist failed for {:?}", twist);
    }
}

fn assert_corner_twists_commute(a: Twist, b: Twist) {
    assert_eq!(
        Corners::solved().twisted(a).twisted(b),
        Corners::solved().twisted(b).twisted(a),
        "Twists {:?} and {:?} did not commute",
        a,
        b
    );
}

#[test]
fn corners_test_twist_commutation() {
    assert_corner_twists_commute(Twist::L1, Twist::R1);
    assert_corner_twists_commute(Twist::U1, Twist::D1);
    assert_corner_twists_commute(Twist::F1, Twist::B1);
}

#[test]
fn corners_test_indexing() {
    let mut rnd = RandomTwistGen::new(181086, Twists::all());

    // Test from_index and prm_index/ori_index
    let mut c = Corners::solved();
    for _ in 0..100_000 {
        c = c.twisted(rnd.gen_twist());
        let prm = c.prm_index();
        let ori = c.ori_index();
        assert!(prm < Corners::PRM_SIZE);
        assert!(ori < Corners::ORI_SIZE);
        assert_eq!(c, Corners::from_index(prm, ori));
    }

    // Test from_combined_index and index
    let mut c = Corners::solved();
    for _ in 0..100_000 {
        c = c.twisted(rnd.gen_twist());
        let index = c.index();
        assert!(index < Corners::INDEX_SIZE);
        assert_eq!(c, Corners::from_combined_index(index));
    }
}

#[test]
fn corners_test_laws_on_a_random_walk() {
    let mut rnd = RandomTwistGen::new(3, Twists::all());
    let mut c = Corners::solved();
    for _ in 0..2_000 {
        c = c.twisted(rnd.gen_twist());
        for twist in Twists::all().iter() {
            assert_eq!(c.twisted(twist).twisted(inversed(twist)), c);
            assert_eq!(c.twisted(twist).twisted(twist).twisted(twist).twisted(twist), c);
        }
        for (a, b) in [(Twist::L1, Twist::R3), (Twist::U2, Twist::D1), (Twist::F3, Twist::B2)] {
            assert_eq!(c.twisted(a).twisted(b), c.twisted(b).twisted(a));
        }
    }
}

#[test]
fn corners_test_index_exact() {
    assert_eq!(Corners::solved().prm_index(), 0);
    assert_eq!(Corners::solved().ori_index(), 0);
    assert_eq!(Corners::solved().index(), 0);
    assert_eq!(Corners::from_index(0, 0), Corners::solved());
    let c = Corners::solved().twisted(Twist::L1);
    // orientations 2 0 2 0 2 0 2: 2 + 2 * 9 + 2 * 81 + 2 * 729
    assert_eq!(c.ori_index(), 1640);
    assert_eq!(c.index(), c.prm_index() as u32 * 2187 + 1640);
    assert_eq!(Corners::from_index(40319, 0).to_string(), "7 6 5 4 3 2 1 0 | 0 0 0 0 0 0 0 0");
    assert_eq!(Corners::from_index(0, 1).to_string(), "0 1 2 3 4 5 6 7 | 1 0 0 0 0 0 0 1");
    assert_eq!(Corners::from_combined_index(2187 + 3), Corners::from_index(1, 3));
}
