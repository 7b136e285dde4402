use circbuf::util::buffer::{Buffer, TryRecv};

#[test]
fn new_buffer_has_invalid_indices() {
    let b = Buffer::<u32>::new(4);
    assert_eq!(b.cap(), 4);
    for i in 0..4 {
        assert_eq!(b.read_index(i), i + 1);
    }
}

#[test]
fn read_of_fresh_slot_is_none() {
    let b = Buffer::<u32>::new(4);
    // Slot 0 is stamped 1 but holds nothing.
    assert_eq!(b.read(0), None);
    assert_eq!(b.read(1), None);
    assert_eq!(b.read_unchecked(0), None);
    assert_eq!(b.read_value(0), None);
}

#[test]
fn write_then_read() {
    let mut b = Buffer::<u32>::new(4);
    b.write(6, 42);
    // Index 6 is offset 2 in lap 1.
    assert_eq!(b.read_index(2), 6);
    assert_eq!(b.read_index(6), 6);
    assert_eq!(b.read(2), None);
    assert_eq!(b.read(10), None);
    assert_eq!(b.read(6), Some(&42));
    // Reading leaves the slot as it was.
    assert_eq!(b.read(6), Some(&42));
    assert_eq!(b.read_index(2), 6);
}

#[test]
fn read_unchecked_ignores_index() {
    let mut b = Buffer::<u32>::new(2);
    b.write(3, 7);
    assert_eq!(b.read_unchecked(1), Some(&7));
    assert_eq!(b.read_unchecked(1), Some(&7));
    assert_eq!(b.read(1), None);
    assert_eq!(b.read(3), Some(&7));
}

#[test]
fn write_index_keeps_value() {
    let mut b = Buffer::<u32>::new(8);
    b.write(5, 9);
    b.write_index(13);
    assert_eq!(b.read_index(5), 13);
    assert_eq!(b.read(5), None);
    assert_eq!(b.read(13), Some(&9));
    assert_eq!(b.read_value(13), Some(&9));
    assert_eq!(b.read_value(5), Some(&9));
}

#[test]
fn take_value_empties_slot_and_keeps_index() {
    let mut b = Buffer::<String>::new(4);
    b.write(6, String::from("six"));
    assert_eq!(b.take_value(2), Some(String::from("six")));
    assert_eq!(b.read_index(2), 6);
    assert_eq!(b.read(6), None);
    assert_eq!(b.take_value(6), None);
}

#[test]
fn writes_to_other_slots_do_not_interfere() {
    let mut b = Buffer::<&str>::new(2);
    b.write(0, "zero");
    b.write(1, "one");
    b.write(3, "three");
    assert_eq!(b.read(0), Some(&"zero"));
    assert_eq!(b.read(1), None);
    assert_eq!(b.read(3), Some(&"three"));
}

#[test]
fn at_names_the_slot_modulo_capacity() {
    let b = Buffer::<u32>::new(4);
    let _slot = b.at(7);
    assert_eq!(b.read_index(7), 4);
}

#[test]
fn single_slot_buffer() {
    let mut b = Buffer::<u8>::new(1);
    assert_eq!(b.cap(), 1);
    assert_eq!(b.read_index(0), 1);
    b.write(5, 1);
    assert_eq!(b.read_index(0), 5);
    assert_eq!(b.read(5), Some(&1));
}

#[test]
fn map_applies_to_data() {
    assert_eq!(TryRecv::Data(3).map(|x| x * 2), TryRecv::Data(6));
    assert_eq!(TryRecv::<u8>::Empty.map(|x| x * 2), TryRecv::Empty);
    assert_eq!(TryRecv::<u8>::Retry.map(|x| x * 2), TryRecv::Retry);
    assert_eq!(TryRecv::Data(1).map(|x| format!("v{}", x)), TryRecv::Data(String::from("v1")));
}

#[test]
fn map_composes() {
    let f = |x: u32| x + 1;
    let g = |x: u32| x * 3;
    for t in [TryRecv::Data(4u32), TryRecv::Empty, TryRecv::Retry] {
        assert_eq!(t.map(f).map(g), t.map(|x| g(f(x))));
    }
}
