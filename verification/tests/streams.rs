use arc_gateway::h2_streams::{Stream, StreamSet};

#[test]
fn insert_succeeds_below_limit_for_fresh_ids() {
    let mut set = StreamSet::new(3, 7);
    assert!(set.insert(Stream::new(1, 100, 100)));
    assert!(set.insert(Stream::new(3, 100, 100)));
    assert!(!set.insert(Stream::new(3, 100, 100)));
    assert!(set.insert(Stream::new(5, 100, 100)));
    assert!(!set.insert(Stream::new(7, 100, 100)));
    assert_eq!(set.len(), 3);
    let mut oldest = 1u32;
    let mut next = 7u32;
    for _ in 0..2000 {
        assert!(set.remove(oldest).is_some());
        oldest += 2;
        assert!(set.insert(Stream::new(next, 100, 100)));
        next += 2;
        assert_eq!(set.len(), 3);
    }
}

#[test]
fn streams_change_in_place_by_position() {
    let mut set = StreamSet::new(4, 1);
    assert!(set.insert(Stream::new(1, 10, 10)));
    assert!(set.insert(Stream::new(3, 20, 20)));
    for i in 0..set.len() {
        let st = set.iter_mut(i);
        st.flow.send_win += 5;
    }
    assert_eq!(set.get(1).unwrap().flow.send_win, 15);
    assert_eq!(set.get(3).unwrap().flow.send_win, 25);
}

#[test]
fn a_set_holds_exactly_what_was_inserted_and_not_removed() {
    let mut set = StreamSet::new(2, 11);
    assert!(set.insert(Stream::new(1, 10, 10)));
    assert!(set.insert(Stream::new(3, 10, 10)));
    assert!(!set.insert(Stream::new(5, 10, 10)));
    assert!(set.get(5).is_none());
    assert_eq!(set.remove(1).map(|s| s.sid), Some(1));
    assert!(set.remove(1).is_none());
    assert!(set.insert(Stream::new(5, 10, 10)));
    assert!(set.get(1).is_none());
    assert_eq!(set.get(3).map(|s| s.sid), Some(3));
    assert_eq!(set.get(5).map(|s| s.sid), Some(5));
    assert_eq!(set.len(), 2);
    assert!(set.len() <= set.cap());
}
