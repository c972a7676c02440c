use rubikscube::{inversed, parse_twists, RandomTwistGen, Twist, Twists};

#[test]
fn test_inversed() {
    for twist in Twists::all().iter() {
        let inv = inversed(twist);
        let inv2 = inversed(inv);
        assert_eq!(twist, inv2, "Inversion failed for {:?}", twist);
    }
}

#[test]
fn test_twists_h0() {
    let h0 = Twists::h0();
    assert!(h0.count() == 10);
    for twist in [
        Twist::L2,
        Twist::R2,
        Twist::U1,
        Twist::U2,
        Twist::U3,
        Twist::D1,
        Twist::D2,
        Twist::D3,
        Twist::F2,
        Twist::B2,
    ] {
        assert!(h0.contains(twist));
    }
}

#[test]
fn test_state() {
    let mut twists = Twists::empty();
    assert!(twists.count() == 0);

    let twist = Twist::L3; // Arbitrary

    twists.set(twist);
    assert!(twists.count() == 1);
    assert!(twists.contains(twist));

    twists.unset(twist);
    assert!(twists.count() == 0);
    assert!(!twists.contains(twist));

    let multiple = Twists::from_bits(0b1010101); // Arbitrary
    twists.set_twists(multiple);
    assert!(twists.count() == 4);

    twists.unset_twists(multiple);
    assert!(twists.count() == 0);
}

#[test]
fn test_iter() {
    assert_eq!(Twists::empty().iter().len(), 0);
    assert_eq!(Twists::all().iter().len(), 18);
}

#[test]
fn test_twist_from_str() {
    // Test that FromStr works directly
    assert_eq!("L1".parse::<Twist>().unwrap(), Twist::L1);
    assert!("XX".parse::<Twist>().is_err());
}

#[test]
fn test_parse_twists() {
    assert_eq!(parse_twists("").unwrap(), vec![]);
    assert_eq!(parse_twists("L1").unwrap(), vec![Twist::L1]);
    assert_eq!(parse_twists("L1 L2").unwrap(), vec![Twist::L1, Twist::L2]);
    assert!(parse_twists("XX").is_err());
}

#[test]
fn test_random_twist_gen() {
    let mut rng = RandomTwistGen::new(42, Twists::h0());
    let twists = rng.gen_twists(100);
    assert_eq!(twists.len(), 100);
    for twist in twists {
        assert!(Twists::h0().contains(twist));
    }
}

#[test]
fn test_twist_names_and_positions() {
    let all = Twists::all().iter();
    for (i, twist) in all.iter().enumerate() {
        assert_eq!(twist.index() as usize, i);
        assert_eq!(Twist::from(i as u8), *twist);
        assert_eq!(Twist::parse(&format!("{:?}", twist)), Some(*twist));
    }
    assert_eq!(Twist::parse("L4"), None);
    assert_eq!(Twist::parse("L"), None);
    assert_eq!(Twist::parse("l1"), None);
    assert_eq!(Twist::parse("L1 "), None);
    assert_eq!("B3".parse::<Twist>().unwrap(), Twist::B3);
    assert_eq!("XX".parse::<Twist>().unwrap_err(), "Unknown twist: 'XX'");
}

#[test]
fn test_parse_twists_splits_at_whitespace() {
    assert_eq!(
        parse_twists("  U1\tR1\nU3   L1 ").unwrap(),
        vec![Twist::U1, Twist::R1, Twist::U3, Twist::L1]
    );
    assert_eq!(parse_twists("U1 R9 XX").unwrap_err(), "Unknown twist: 'R9'");
    assert!(parse_twists("U1R1").is_err());
}

#[test]
fn test_inversed_exact() {
    assert_eq!(inversed(Twist::L1), Twist::L3);
    assert_eq!(inversed(Twist::L2), Twist::L2);
    assert_eq!(inversed(Twist::L3), Twist::L1);
    assert_eq!(inversed(Twist::F1), Twist::F3);
    assert_eq!(inversed(Twist::B3), Twist::B1);
    assert_eq!(inversed(Twist::D2), Twist::D2);
}

#[test]
fn test_set_algebra() {
    assert_eq!(Twists::all().bits(), 0b111_111_111_111_111_111);
    assert_eq!(Twists::h0().bits(), 0b010_010_111_111_010_010);
    assert_eq!(Twists::face_of(Twist::U2).iter(), vec![Twist::U1, Twist::U2, Twist::U3]);
    assert_eq!(Twists::face_of(Twist::B1).bits(), 0b111 << 15);

    let mut twists = Twists::all();
    twists.unset_twists(Twists::face_of(Twist::R3));
    assert_eq!(twists.count(), 15);
    assert!(!twists.contains(Twist::R1));
    assert!(twists.contains(Twist::L3));

    twists.keep_only(Twists::h0());
    assert_eq!(
        twists.iter(),
        vec![
            Twist::L2,
            Twist::U1,
            Twist::U2,
            Twist::U3,
            Twist::D1,
            Twist::D2,
            Twist::D3,
            Twist::F2,
            Twist::B2
        ]
    );

    let mut few = Twists::empty();
    few.set(Twist::B3);
    few.set(Twist::L1);
    few.set(Twist::B3);
    assert_eq!(few.iter(), vec![Twist::L1, Twist::B3]);
    assert_eq!(few.bits(), 1 | (1 << 17));
}

#[test]
fn test_random_twists_follow_the_seed() {
    let mut a = RandomTwistGen::new(7, Twists::all());
    let mut b = RandomTwistGen::new(7, Twists::all());
    assert_eq!(a.gen_twists(50), b.gen_twists(50));
    let mut one = RandomTwistGen::new(1, Twists::face_of(Twist::F1));
    for _ in 0..20 {
        let t = one.gen_twist();
        assert!(t == Twist::F1 || t == Twist::F2 || t == Twist::F3);
    }
}

#[test]
fn test_parse_twists_at_white_space() {
    // white space beyond ASCII parts words, and other characters do not
    assert_eq!(
        parse_twists("\u{3000}L1\u{a0}R2\t\u{2003}\nU3\u{85}"),
        Ok(vec![Twist::L1, Twist::R2, Twist::U3])
    );
    assert_eq!(parse_twists(" \r\n\u{2028} "), Ok(vec![]));
    assert_eq!(
        parse_twists("L1\u{200b}R1"),
        Err("Unknown twist: 'L1\u{200b}R1'".to_string())
    );
    assert_eq!(parse_twists("L1 X1 Y9"), Err("Unknown twist: 'X1'".to_string()));
}
