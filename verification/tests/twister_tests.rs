use rubikscube::{
    AllTwister, Corners, Cube, Edges, MultiTwister, RandomTwistGen, Twist, Twistable, Twister, Twists,
};

#[test]
fn twister_test_corners() {
    let twister = AllTwister::new();
    let mut rnd = RandomTwistGen::new(42, Twists::all());
    let mut c = Corners::solved();
    let mut prm = c.prm_index();
    let mut ori = c.ori_index();
    for _ in 0..100_000 {
        let twist = rnd.gen_twist();
        c = c.twisted(twist);
        prm = twister.twisted_c_prm(prm, twist);
        ori = twister.twisted_c_ori(ori, twist);
        assert_eq!(c.prm_index(), prm);
        assert_eq!(c.ori_index(), ori);
    }
}

#[test]
fn twister_test_edges() {
    let twister = AllTwister::new();
    let mut rnd = RandomTwistGen::new(42, Twists::all());
    let mut e = Edges::solved();
    let mut ori = e.ori_index();
    let mut slice_prm = e.slice_prm_index();
    let mut non_slice_prm = e.non_slice_prm_index();
    let mut slice_loc = e.slice_loc_index();
    for _ in 0..100_000 {
        let twist = rnd.gen_twist();
        e = e.twisted(twist);
        ori = twister.twisted_e_ori(ori, twist);
        slice_prm = twister.twisted_e_slice_prm(slice_prm, slice_loc, twist);
        non_slice_prm = twister.twisted_e_non_slice_prm(non_slice_prm, slice_loc, twist);
        slice_loc = twister.twisted_e_slice_loc(slice_loc, twist);
        assert_eq!(e.ori_index(), ori);
        assert_eq!(e.slice_prm_index(), slice_prm);
        assert_eq!(e.non_slice_prm_index(), non_slice_prm);
        assert_eq!(e.slice_loc_index(), slice_loc);
    }
}

#[test]
fn test_single_axis_tables() {
    let c_prm = Twister::new(
        |c: Corners| c.prm_index(),
        |i: usize| Corners::from_index(i as u16, 0),
        Corners::PRM_SIZE as usize,
    );
    let e_slice_loc = Twister::new(
        |e: Edges| e.slice_loc_index(),
        |i: usize| Edges::from_index(0, 0, i as u16, 0),
        Edges::SLICE_LOC_SIZE as usize,
    );
    let mut rnd = RandomTwistGen::new(42, Twists::all());
    let mut c = Corners::solved();
    let mut e = Edges::solved();
    let mut prm = c.prm_index();
    let mut loc = e.slice_loc_index();
    for _ in 0..100_000 {
        let twist = rnd.gen_twist();
        c = c.twisted(twist);
        e = e.twisted(twist);
        prm = c_prm.get(prm as usize, twist);
        loc = e_slice_loc.get(loc as usize, twist);
        assert_eq!(c.prm_index(), prm);
        assert_eq!(e.slice_loc_index(), loc);
    }
}

#[test]
fn multi_twister_test_corners() {
    let twister = AllTwister::new();
    let mut multi_twister = MultiTwister::new(twister);
    let mut rnd = RandomTwistGen::new(42, Twists::all());
    let mut c = Corners::solved();
    let mut prm = c.prm_index();
    let mut ori = c.ori_index();
    for _ in 0..5 {
        let twists = rnd.gen_twists(5);
        multi_twister.set_for(&twists);
        for _ in 0..1000 {
            for &twist in &twists {
                c = c.twisted(twist);
            }
            prm = multi_twister.twisted_c_prm(prm);
            ori = multi_twister.twisted_c_ori(ori);
            assert_eq!(c.prm_index(), prm);
            assert_eq!(c.ori_index(), ori);
        }
    }
}

#[test]
fn multi_twister_test_edges() {
    let mut multi_twister = MultiTwister::new(AllTwister::new());
    let mut rnd = RandomTwistGen::new(43, Twists::all());
    let mut e = Edges::solved();
    let mut ori = e.ori_index();
    let mut slice_prm = e.slice_prm_index();
    let mut non_slice_prm = e.non_slice_prm_index();
    let mut slice_loc = e.slice_loc_index();
    for _ in 0..5 {
        let twists = rnd.gen_twists(5);
        multi_twister.set_for(&twists);
        for _ in 0..1000 {
            for &twist in &twists {
                e = e.twisted(twist);
            }
            ori = multi_twister.twisted_e_ori(ori);
            slice_prm = multi_twister.twisted_e_slice_prm(slice_prm, slice_loc);
            non_slice_prm = multi_twister.twisted_e_non_slice_prm(non_slice_prm, slice_loc);
            slice_loc = multi_twister.twisted_e_slice_loc(slice_loc);
            assert_eq!(e.ori_index(), ori);
            assert_eq!(e.slice_prm_index(), slice_prm);
            assert_eq!(e.non_slice_prm_index(), non_slice_prm);
            assert_eq!(e.slice_loc_index(), slice_loc);
        }
    }
}

#[test]
fn multi_twister_follows_the_cubes() {
    let mut multi_twister = MultiTwister::new(AllTwister::new());
    // before the tables are set for a sequence, every entry is 0
    assert_eq!(multi_twister.twisted_c_prm(40319), 0);
    assert_eq!(multi_twister.twisted_c_ori(2186), 0);
    assert_eq!(multi_twister.twisted_e_ori(2047), 0);
    assert_eq!(multi_twister.twisted_e_slice_loc(494), 0);
    assert_eq!(multi_twister.twisted_e_slice_prm(23, 494), 0);
    assert_eq!(multi_twister.twisted_e_non_slice_prm(40319, 494), 0);
    let mut rnd = RandomTwistGen::new(7, Twists::all());
    let twists = rnd.gen_twists(6);
    let start = Cube::solved().twisted_by(multi_twister.twister(), &rnd.gen_twists(12));
    let end = start.twisted_by(multi_twister.twister(), &twists);
    multi_twister.set_for(&twists);
    assert_eq!(multi_twister.twisted_corners_cube(&start.to_corners()), end.to_corners());
    assert_eq!(multi_twister.twisted_coset_cube(&start.to_coset()), end.to_coset());
    let h0 = vec![Twist::U1, Twist::R2, Twist::D3, Twist::F2, Twist::L2, Twist::U2, Twist::B2];
    multi_twister.set_for(&h0);
    let inside =
        Cube::solved().twisted_by(multi_twister.twister(), &vec![Twist::L2, Twist::D1, Twist::B2]);
    assert!(inside.in_subset());
    assert_eq!(
        multi_twister.twisted_subset_cube(&inside.to_subset()),
        inside.twisted_by(multi_twister.twister(), &h0).to_subset()
    );
    multi_twister.set_for(&[]);
    assert_eq!(multi_twister.twisted_c_prm(1234), 1234);
    assert_eq!(multi_twister.twisted_e_non_slice_prm(40319, 3), 40319);
}
