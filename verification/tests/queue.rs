use circbuf::util::mp::mc::bounded::{Queue, TryRecv};

#[test]
fn send_then_recv_in_order() {
    let mut q = Queue::<char>::new(16);
    q.send('a').unwrap();
    q.send('b').unwrap();
    assert_eq!(q.recv(), Some('a'));
    assert_eq!(q.recv(), Some('b'));
    assert_eq!(q.recv(), None);
}

#[test]
fn lap_is_next_power_of_two() {
    assert_eq!(Queue::<u8>::new(0).lap(), 1);
    assert_eq!(Queue::<u8>::new(1).lap(), 1);
    assert_eq!(Queue::<u8>::new(3).lap(), 4);
    assert_eq!(Queue::<u8>::new(4).lap(), 4);
    assert_eq!(Queue::<u8>::new(5).lap(), 8);
    assert_eq!(Queue::<u8>::new(1000).lap(), 1024);
    assert_eq!(Queue::<u8>::new(5).cap(), 5);
}

#[test]
fn new_queue_is_empty() {
    let q = Queue::<u32>::new(3);
    assert!(q.is_empty());
    assert!(!q.is_full());
    assert_eq!(q.len(), 0);
}

#[test]
fn full_queue_hands_value_back() {
    let mut q = Queue::<u32>::new(3);
    assert_eq!(q.send(1), Ok(()));
    assert_eq!(q.send(2), Ok(()));
    assert_eq!(q.send(3), Ok(()));
    assert!(q.is_full());
    assert!(!q.is_empty());
    assert_eq!(q.len(), 3);
    assert_eq!(q.send(4), Err(4));
    assert_eq!(q.len(), 3);
    assert_eq!(q.recv(), Some(1));
    assert_eq!(q.recv(), Some(2));
    assert_eq!(q.recv(), Some(3));
    assert_eq!(q.recv(), None);
}

#[test]
fn capacity_is_the_requested_one_not_the_lap() {
    // A lap of 8 slots, of which 5 are used.
    let mut q = Queue::<u32>::new(5);
    for i in 0..5 {
        assert_eq!(q.send(i), Ok(()));
    }
    assert!(q.is_full());
    assert_eq!(q.send(5), Err(5));
}

#[test]
fn wraps_around_many_laps() {
    let mut q = Queue::<u64>::new(3);
    let mut next_in = 0u64;
    let mut next_out = 0u64;
    for round in 0..200u64 {
        let k = round % 4;
        for _ in 0..k {
            match q.send(next_in) {
                Ok(()) => next_in += 1,
                Err(v) => {
                    assert_eq!(v, next_in);
                    assert!(q.is_full());
                }
            }
        }
        let held = (next_in - next_out) as usize;
        assert_eq!(q.len(), held);
        assert_eq!(q.is_empty(), held == 0);
        assert_eq!(q.is_full(), held == 3);
        for _ in 0..(4 - k) {
            match q.recv() {
                Some(v) => {
                    assert_eq!(v, next_out);
                    next_out += 1;
                }
                None => assert!(q.is_empty()),
            }
        }
    }
    assert!(next_in > 100);
}

#[test]
fn len_when_tail_has_wrapped_past_head() {
    let mut q = Queue::<u8>::new(4);
    for i in 0..4 {
        q.send(i).unwrap();
    }
    assert_eq!(q.recv(), Some(0));
    assert_eq!(q.recv(), Some(1));
    assert_eq!(q.recv(), Some(2));
    q.send(4).unwrap();
    q.send(5).unwrap();
    // The head is at offset 3, the tail at offset 2 of the next round.
    assert_eq!(q.len(), 3);
    assert_eq!(q.recv(), Some(3));
    assert_eq!(q.recv(), Some(4));
    assert_eq!(q.recv(), Some(5));
    assert!(q.is_empty());
}

#[test]
fn capacity_zero_holds_one_value() {
    let mut q = Queue::<&str>::new(0);
    assert_eq!(q.lap(), 1);
    assert_eq!(q.cap(), 0);
    assert!(q.is_empty());
    assert_eq!(q.send("x"), Ok(()));
    assert!(q.is_full());
    assert!(!q.is_empty());
    assert_eq!(q.len(), 1);
    assert_eq!(q.send("y"), Err("y"));
    assert_eq!(q.recv(), Some("x"));
    assert_eq!(q.len(), 0);
    assert_eq!(q.recv(), None);
    assert_eq!(q.send("z"), Ok(()));
    assert_eq!(q.recv(), Some("z"));
}

#[test]
fn values_that_need_drop_move_through() {
    let mut q = Queue::<String>::new(2);
    q.send(String::from("one")).unwrap();
    q.send(String::from("two")).unwrap();
    assert_eq!(q.send(String::from("three")), Err(String::from("three")));
    assert_eq!(q.recv().as_deref(), Some("one"));
    // Values still held are dropped with the queue.
    drop(q);
}

#[test]
fn try_recv_is_reexported() {
    let t: TryRecv<u8> = TryRecv::Empty;
    assert_eq!(t.map(|x| x + 1), TryRecv::Empty);
}
