use systems::snowflake::Snowflake;

const TEST_EPOCH: u64 = 1_704_067_200_000;

#[test]
fn snowflake_ids_in_one_millisecond_count_up() {
    let mut g = Snowflake::new(TEST_EPOCH, 1);
    let now = TEST_EPOCH + 5;
    let a = g.step(now).unwrap();
    let b = g.step(now).unwrap();
    let c = g.step(now + 1).unwrap();
    assert_eq!(a, (5 << 22) | (1 << 12));
    assert_eq!(b, a + 1);
    assert_eq!(c, (6 << 22) | (1 << 12));
    assert!(a < b && b < c);
}

#[test]
fn test_id_structure() {
    let mut g = Snowflake::new(TEST_EPOCH, 512);
    let id = g.step(TEST_EPOCH + 1000).unwrap();
    assert_eq!((id >> 12) & 1023, 512);
    assert_eq!(id & 4095, 0);
}

#[test]
fn snowflake_clock_behind_waits() {
    let mut g = Snowflake::new(TEST_EPOCH, 3);
    g.step(TEST_EPOCH + 10).unwrap();
    assert_eq!(g.step(TEST_EPOCH + 9), None);
    assert!(g.step(TEST_EPOCH + 11).is_some());
}

#[test]
fn snowflake_sequence_exhausted_waits_for_next_millisecond() {
    let mut g = Snowflake::new(TEST_EPOCH, 0);
    let now = TEST_EPOCH + 1;
    let mut ids = Vec::new();
    for _ in 0..4096 {
        ids.push(g.step(now).unwrap());
    }
    assert_eq!(g.step(now), None);
    let next = g.step(now + 1).unwrap();
    assert_eq!(next & 4095, 0);
    ids.push(next);
    for w in ids.windows(2) {
        assert!(w[0] < w[1]);
    }
}
