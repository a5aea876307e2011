use systems::connection_pool::{Acquire, PoolState};

#[test]
fn pool_state_hands_out_idle_then_opens_then_waits() {
    let mut st: PoolState<&str> = PoolState::new(2);
    assert!(matches!(st.acquire(), Acquire::Connect));
    assert!(matches!(st.acquire(), Acquire::Connect));
    assert_eq!(st.active_count(), 2);
    assert!(matches!(st.acquire(), Acquire::Wait));
    st.release(Some("a"));
    st.release(Some("b"));
    assert_eq!(st.active_count(), 0);
    assert_eq!(st.idle_count(), 2);
    match st.acquire() {
        Acquire::Ready(c) => assert_eq!(c, "b"),
        _ => panic!("expected an idle connection"),
    }
    assert_eq!(st.idle_count(), 1);
    assert_eq!(st.active_count(), 1);
}

#[test]
fn pool_state_failed_connect_and_discard_free_the_slot() {
    let mut st: PoolState<u32> = PoolState::new(1);
    assert!(matches!(st.acquire(), Acquire::Connect));
    st.connect_failed();
    assert_eq!(st.active_count(), 0);
    assert!(matches!(st.acquire(), Acquire::Connect));
    st.release(None);
    assert_eq!(st.idle_count(), 0);
    assert_eq!(st.active_count(), 0);
}

#[test]
fn pool_state_take_idle_after_timeout() {
    let mut st: PoolState<u32> = PoolState::new(1);
    assert_eq!(st.take_idle(), None);
    assert!(matches!(st.acquire(), Acquire::Connect));
    st.release(Some(7));
    assert_eq!(st.take_idle(), Some(7));
    assert_eq!(st.active_count(), 1);
}
