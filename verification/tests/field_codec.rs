use sharks::{GfTables, RandomSource, Share, SharksError, ThreadRandom};

#[test]
fn tables_check_passes() {
    let t = GfTables::new();
    assert!(t.check_tables());
}

#[test]
fn field_laws_exhaustive() {
    let t = GfTables::new();
    for a in 0..=255u8 {
        assert_eq!(t.mul(a, 1), a);
        assert_eq!(t.mul(1, a), a);
        if a != 0 {
            assert_eq!(t.div(a, a), Ok(1));
        }
        for b in 0..=255u8 {
            assert_eq!(t.add(a, b) ^ b, a);
            assert_eq!(t.sub(a, b), t.add(a, b));
            assert_eq!(t.mul(a, b), t.mul(b, a));
            if b != 0 {
                assert_eq!(t.div(t.mul(a, b), b), Ok(a));
            }
        }
    }
}

#[test]
fn field_sample_products() {
    let t = GfTables::new();
    // 3 is the generator: 3 * 3 = 5 under x^8 + x^4 + x^3 + x + 1.
    assert_eq!(t.mul(3, 3), 5);
    assert_eq!(t.mul(2, 128), 27);
    assert_eq!(t.mul(0, 77), 0);
    assert_eq!(t.mul(77, 0), 0);
    assert_eq!(t.add(0x53, 0xCA), 0x99);
}

#[test]
fn division_by_zero_fails() {
    let t = GfTables::new();
    assert_eq!(t.div(7, 0), Err(SharksError::DivisionByZero));
    assert_eq!(t.div(0, 0), Err(SharksError::DivisionByZero));
    assert_eq!(t.div(0, 9), Ok(0));
}

#[test]
fn scenario_share_wire_format() {
    let share = Share {
        x: 5,
        y: vec![9, 10],
    };
    let bytes = share.to_bytes();
    assert_eq!(bytes, vec![5, 9, 10]);
    let back = Share::from_bytes(&bytes).unwrap();
    assert_eq!(back.x, share.x);
    assert_eq!(back.y, share.y);
}

#[test]
fn decode_of_empty_input_fails() {
    let r = Share::from_bytes(&[]);
    assert_eq!(r.unwrap_err(), SharksError::DecodeError);
}

#[test]
fn codec_round_trips_degenerate_share() {
    let share = Share { x: 200, y: vec![] };
    let bytes = share.to_bytes();
    assert_eq!(bytes, vec![200]);
    let back = Share::from_bytes(&bytes).unwrap();
    assert_eq!(back.x, 200);
    assert!(back.y.is_empty());
}

#[test]
fn thread_random_samples_stay_in_range() {
    let mut rng = ThreadRandom::new();
    for _ in 0..1000 {
        let v = rng.sample_nonzero();
        assert!((1..=255).contains(&v));
    }
}
