use rubikscube::{inversed, Edges, RandomTwistGen, Twist, Twistable, Twists};

#[test]
fn edges_test_solved() {
    let e = Edges::solved();
    assert!(e.is_solved());
    assert!(!e.twisted(Twist::L1).is_solved());
    assert_eq!(e.to_string(), "0 1 2 3 4 5 6 7 8 9 10 11 | 0 0 0 0 0 0 0 0 0 0 0 0");
}

#[test]
fn edges_test_twist_results() {
    let e = Edges::solved();
    assert_eq!(e.twisted(Twist::L1).to_string(), "0 1 2 3 11 5 6 8 4 9 10 7 | 0 0 0 0 1 0 0 1 1 0 0 1");
    assert_eq!(e.twisted(Twist::R1).to_string(), "0 1 2 3 4 9 10 7 8 6 5 11 | 0 0 0 0 0 1 1 0 0 1 1 0");
    assert_eq!(e.twisted(Twist::U1).to_string(), "5 4 2 3 0 1 6 7 8 9 10 11 | 0 0 0 0 0 0 0 0 0 0 0 0");
    assert_eq!(e.twisted(Twist::D1).to_string(), "0 1 6 7 4 5 3 2 8 9 10 11 | 0 0 0 0 0 0 0 0 0 0 0 0");
    assert_eq!(e.twisted(Twist::F1).to_string(), "8 1 2 9 4 5 6 7 3 0 10 11 | 0 0 0 0 0 0 0 0 0 0 0 0");
    assert_eq!(e.twisted(Twist::B1).to_string(), "0 10 11 3 4 5 6 7 8 9 2 1 | 0 0 0 0 0 0 0 0 0 0 0 0");
}

#[test]
fn edges_test_composed_twists() {
    let e = Edges::solved();
    assert_eq!(e.twisted(Twist::L2), e.twisted(Twist::L1).twisted(Twist::L1));
    assert_eq!(e.twisted(Twist::L3), e.twisted(Twist::L1).twisted(Twist::L1).twisted(Twist::L1));
    assert_eq!(e.twisted(Twist::R2), e.twisted(Twist::R1).twisted(Twist::R1));
    assert_eq!(e.twisted(Twist::R3), e.twisted(Twist::R1).twisted(Twist::R1).twisted(Twist::R1));
    assert_eq!(e.twisted(Twist::U2), e.twisted(Twist::U1).twisted(Twist::U1));
    assert_eq!(e.twisted(Twist::U3), e.twisted(Twist::U1).twisted(Twist::U1).twisted(Twist::U1));
    assert_eq!(e.twisted(Twist::D2), e.twisted(Twist::D1).twisted(Twist::D1));
    assert_eq!(e.twisted(Twist::D3), e.twisted(Twist::D1).twisted(Twist::D1).twisted(Twist::D1));
    assert_eq!(e.twisted(Twist::F2), e.twisted(Twist::F1).twisted(Twist::F1));
    assert_eq!(e.twisted(Twist::F3), e.twisted(Twist::F1).twisted(Twist::F1).twisted(Twist::F1));
    assert_eq!(e.twisted(Twist::B2), e.twisted(Twist::B1).twisted(Twist::B1));
    assert_eq!(e.twisted(Twist::B3), e.twisted(Twist::B1).twisted(Twist::B1).twisted(Twist::B1));
}

#[test]
fn edges_test_inverse_twists() {
    for twist in Twists::all().iter() {
        assert!(
            Edges::solved().twisted(twist).twisted(inversed(twist)).is_solved(),
            "Inverse twist failed for {:?}",
            twist
        );
    }
}

#[test]
fn edges_test_twists_cycle() {
    for twist in Twists::all().iter() {
        let mut e = Edges::solved();
        for _ in 0..4 {
            e = e.twisted(twist);
        }
        assert_eq!(e, Edges::solved(), "4x twist failed for {:?}", twist);
    }
}

fn assert_edge_twists_commute(a: Twist, b: Twist) {
    assert_eq!(
        Edges::solved().twisted(a).twisted(b),
        Edges::solved().twisted(b).twisted(a),
        "Twists {:?} and {:?} did not commute",
        a,
        b
    );
}

#[test]
fn edges_test_twist_commutation() {
    assert_edge_twists_commute(Twist::L1, Twist::R1);
    assert_edge_twists_commute(Twist::U1, Twist::D1);
    assert_edge_twists_commute(Twist::F1, Twist::B1);
}

#[test]
fn edges_test_indexing() {
    let mut rnd = RandomTwistGen::new(181086, Twists::all());

    // Test from_index and prm_index/ori_index
    let mut e = Edges::solved();
    for _ in 0..100_000 {
        e = e.twisted(rnd.gen_twist());
        let slice_prm = e.slice_prm_index();
        let non_slice_prm = e.non_slice_prm_index();
        let slice_loc = e.slice_loc_index();
        let ori = e.ori_index();
        assert!(slice_prm < Edges::SLICE_PRM_SIZE);
        assert!(non_slice_prm < Edges::NON_SLICE_PRM_SIZE);
        assert!(slice_loc < Edges::SLICE_LOC_SIZE);
        assert!(ori < Edges::ORI_SIZE);
        assert_eq!(e, Edges::from_index(slice_prm, non_slice_prm, slice_loc, ori));
    }
}

#[test]
fn edges_test_laws_on_a_random_walk() {
    let mut rnd = RandomTwistGen::new(5, Twists::all());
    let mut e = Edges::solved();
    for _ in 0..2_000 {
        e = e.twisted(rnd.gen_twist());
        for twist in Twists::all().iter() {
            assert_eq!(e.twisted(twist).twisted(inversed(twist)), e);
            assert_eq!(e.twisted(twist).twisted(twist).twisted(twist).twisted(twist), e);
        }
        for (a, b) in [(Twist::L1, Twist::R3), (Twist::U2, Twist::D1), (Twist::F3, Twist::B2)] {
            assert_eq!(e.twisted(a).twisted(b), e.twisted(b).twisted(a));
        }
    }
}

#[test]
fn edges_test_index_exact() {
    let e = Edges::solved();
    assert_eq!(e.slice_prm_index(), 0);
    assert_eq!(e.non_slice_prm_index(), 0);
    assert_eq!(e.slice_loc_index(), 494);
    assert_eq!(e.ori_index(), 0);
    assert!(e.is_even_permutation());
    assert!(!e.twisted(Twist::U1).is_even_permutation());
    assert!(e.twisted(Twist::U2).is_even_permutation());
    assert_eq!(Edges::from_index(0, 0, 494, 0), Edges::solved());
    assert_eq!(
        Edges::from_index(0, 0, 0, 0).to_string(),
        "8 9 10 11 0 1 2 3 4 5 6 7 | 0 0 0 0 0 0 0 0 0 0 0 0"
    );
    assert_eq!(
        Edges::from_index(23, 0, 494, 1).to_string(),
        "0 1 2 3 4 5 6 7 11 10 9 8 | 1 0 0 0 0 0 0 0 0 0 0 1"
    );
    // flipped places 4, 7 and 8 of the first eleven: 16 + 128 + 256
    assert_eq!(e.twisted(Twist::L1).ori_index(), 400);
    assert_eq!(e.cubies(), [0, 1, 2, 3, 4, 5, 6, 7, 8, 9, 10, 11]);
}
