use rubikscube::{
    inversed, AllTwister, Corners, CornersCube, CosetCube, Cube, Edges, RandomTwistGen, SubsetCube,
    Twist, Twistable, Twists, SOLVED_SLICE_LOC,
};

#[test]
fn test_subset_twisted() {
    let twister = AllTwister::new();
    let mut rnd = RandomTwistGen::new(42, Twists::h0());
    let mut cube = SubsetCube::solved();
    let mut c = Corners::solved();
    let mut e = Edges::solved();
    for _ in 0..100_000 {
        let twist = rnd.gen_twist();
        cube = cube.twisted(&twister, twist);
        c = c.twisted(twist);
        e = e.twisted(twist);
        assert_eq!(cube.c_prm, c.prm_index());
        assert_eq!(cube.e_slice_prm, e.slice_prm_index());
        assert_eq!(cube.e_non_slice_prm, e.non_slice_prm_index());
        // the slice edges stay in their slice, and the parities stay together
        assert_eq!(e.slice_loc_index(), SOLVED_SLICE_LOC);
        assert_eq!(
            rubikscube::is_even_permutation(cube.c_prm as i64),
            rubikscube::is_even_permutation(cube.e_non_slice_prm as i64)
                == rubikscube::is_even_permutation(cube.e_slice_prm as i64)
        );
        assert_eq!(cube.twisted(&twister, twist).twisted(&twister, inversed(twist)), cube);
    }
}

#[test]
fn test_coset_twisted() {
    let twister = AllTwister::new();
    let mut rnd = RandomTwistGen::new(42, Twists::all());
    let mut cube = CosetCube::solved();
    let mut c = Corners::solved();
    let mut e = Edges::solved();
    for _ in 0..100_000 {
        let twist = rnd.gen_twist();
        cube = cube.twisted(&twister, twist);
        c = c.twisted(twist);
        e = e.twisted(twist);
        assert_eq!(cube.c_ori, c.ori_index());
        assert_eq!(cube.e_ori, e.ori_index());
        assert_eq!(cube.e_slice_loc, e.slice_loc_index());
    }
}

#[test]
fn test_subset_index() {
    let twister = AllTwister::new();
    let mut rnd = RandomTwistGen::new(42, Twists::h0());
    let mut cube = SubsetCube::solved();
    for _ in 0..100_000 {
        let twist = rnd.gen_twist();
        cube = cube.twisted(&twister, twist);
        let index = cube.index();
        assert!(index < SubsetCube::INDEX_SIZE);
        assert_eq!(cube, SubsetCube::from_index(index));
    }
}

#[test]
fn test_coset_index() {
    let twister = AllTwister::new();
    let mut rnd = RandomTwistGen::new(42, Twists::all());
    let mut cube = CosetCube::solved();
    for _ in 0..100_000 {
        let twist = rnd.gen_twist();
        cube = cube.twisted(&twister, twist);
        let index = cube.index();
        assert!(index < CosetCube::INDEX_SIZE);
        assert_eq!(cube, CosetCube::from_index(index));
    }
}

#[test]
fn test_cube_twisted_follows_the_cubies() {
    let twister = AllTwister::new();
    let mut rnd = RandomTwistGen::new(9, Twists::all());
    let mut cube = Cube::solved();
    let mut c = Corners::solved();
    let mut e = Edges::solved();
    let mut twists = Vec::new();
    for _ in 0..50_000 {
        let twist = rnd.gen_twist();
        twists.push(twist);
        cube = cube.twisted(&twister, twist);
        c = c.twisted(twist);
        e = e.twisted(twist);
        assert_eq!(cube.c_prm, c.prm_index());
        assert_eq!(cube.c_ori, c.ori_index());
        assert_eq!(cube.e_slice_prm, e.slice_prm_index());
        assert_eq!(cube.e_non_slice_prm, e.non_slice_prm_index());
        assert_eq!(cube.e_slice_loc, e.slice_loc_index());
        assert_eq!(cube.e_ori, e.ori_index());
        assert_eq!(cube.corners_index(), c.index());
        assert_eq!(cube.in_subset(), (CosetCube { c_ori: cube.c_ori, e_ori: cube.e_ori, e_slice_loc: cube.e_slice_loc }).in_subset());
        // the permutation of the corners is even exactly where that of the edges is
        assert_eq!(
            rubikscube::is_even_permutation(cube.c_prm as i64),
            e.is_even_permutation()
        );
    }
    assert_eq!(Cube::solved().twisted_by(&twister, &twists), cube);
    assert_eq!(Cube::solved().twisted_by(&twister, &Vec::new()), Cube::solved());
}

#[test]
fn test_solved_coordinates() {
    assert_eq!(SOLVED_SLICE_LOC, 494);
    assert_eq!(SubsetCube::solved(), SubsetCube { e_slice_prm: 0, e_non_slice_prm: 0, c_prm: 0 });
    assert_eq!(CosetCube::solved(), CosetCube { c_ori: 0, e_ori: 0, e_slice_loc: 494 });
    let cube = Cube::solved();
    assert_eq!(
        cube,
        Cube { c_prm: 0, c_ori: 0, e_non_slice_prm: 0, e_slice_prm: 0, e_slice_loc: 494, e_ori: 0 }
    );
    assert!(cube.is_solved());
    assert!(cube.in_subset());
    assert!(SubsetCube::solved().is_solved());
    assert!(CosetCube::solved().in_subset());
    assert_eq!(cube.to_subset(), SubsetCube::solved());
    assert_eq!(cube.coset_index(), 494);
    assert_eq!(cube.corners_index(), 0);
    assert_eq!(SubsetCube::solved().index(), 0);
    assert_eq!(CosetCube::solved().index(), 494);
    assert!(!Cube { e_ori: 1, ..cube }.is_solved());
    assert!(!Cube { e_ori: 1, ..cube }.in_subset());
    assert!(Cube { c_prm: 5, ..cube }.in_subset());
}

#[test]
fn test_index_formulas() {
    let s = SubsetCube { e_slice_prm: 5, e_non_slice_prm: 7, c_prm: 9 };
    assert_eq!(s.index(), 4 * 24 * 40320 + 7 * 24 + 5);
    let c = CosetCube { c_ori: 3, e_ori: 4, e_slice_loc: 5 };
    assert_eq!(c.index(), 3 * 2048 * 495 + 4 * 495 + 5);
    assert_eq!(CosetCube::from_index(3 * 2048 * 495 + 4 * 495 + 5), c);
    assert_eq!(CosetCube::from_index(CosetCube::INDEX_SIZE - 1), CosetCube { c_ori: 2186, e_ori: 2047, e_slice_loc: 494 });
    assert_eq!(SubsetCube::INDEX_SIZE, 24 * 40320 * 40320 / 2);
    assert_eq!(CosetCube::INDEX_SIZE, 2187 * 2048 * 495);
    // both edge permutations even: the even corner permutation of the pair
    assert_eq!(SubsetCube::from_index(0), SubsetCube { e_slice_prm: 0, e_non_slice_prm: 0, c_prm: 0 });
    // slice permutation 1 is odd: the odd corner permutation of the pair
    assert_eq!(SubsetCube::from_index(1), SubsetCube { e_slice_prm: 1, e_non_slice_prm: 0, c_prm: 1 });
    assert_eq!(SubsetCube::from_index(24 + 1), SubsetCube { e_slice_prm: 1, e_non_slice_prm: 1, c_prm: 0 });
    for index in (0..SubsetCube::INDEX_SIZE).step_by(7_777_777) {
        assert_eq!(SubsetCube::from_index(index).index(), index);
    }
    for index in (0..CosetCube::INDEX_SIZE).step_by(777_777) {
        assert_eq!(CosetCube::from_index(index).index(), index);
    }
    assert_eq!(
        Cube { c_prm: 2, c_ori: 3, e_non_slice_prm: 0, e_slice_prm: 0, e_slice_loc: 0, e_ori: 0 }.corners_index(),
        2 * 2187 + 3
    );
    assert_eq!(s.to_string(), "SubsetCube { e_slice_prm: 5, e_non_slice_prm: 7, c_prm: 9 }");
    assert_eq!(c.to_string(), "CosetCube { c_ori: 3, e_ori: 4, e_slice_loc: 5 }");
    assert_eq!(
        Cube::solved().to_string(),
        "Cube { c_prm: 0, c_ori: 0, e_non_slice_prm: 0, e_slice_prm: 0, e_slice_loc: 494, e_ori: 0 }"
    );
    let _ = Twist::L1;
}

#[test]
fn test_corners_cube() {
    let twister = AllTwister::new();
    assert_eq!(CornersCube::INDEX_SIZE, 40320 * 2187);
    assert!(CornersCube::solved().is_solved());
    assert_eq!(CornersCube::solved().index(), 0);
    assert_eq!(CornersCube::from_index(88_179_839), CornersCube { prm: 40319, ori: 2186 });
    assert_eq!((CornersCube { prm: 1, ori: 5 }).index(), 2192);
    assert!(!CornersCube::from_index(2192).is_solved());
    let mut rnd = RandomTwistGen::new(77, Twists::all());
    let mut cube = CornersCube::solved();
    let mut whole = Cube::solved();
    let mut c = Corners::solved();
    for _ in 0..20_000 {
        let twist = rnd.gen_twist();
        cube = cube.twisted(&twister, twist);
        whole = whole.twisted(&twister, twist);
        c = c.twisted(twist);
        assert_eq!(cube.index(), c.index());
        assert_eq!(CornersCube::from_index(cube.index()), cube);
        assert_eq!(whole.to_corners(), cube);
        assert_eq!(whole.to_coset().index(), whole.coset_index());
    }
}
