use dsa::ringbuffer::RingBuffer;

#[test]
fn push_and_pop() {
    let mut rf: RingBuffer<i32> = RingBuffer::new(5);

    rf.push_back(0);
    rf.push_back(1);
    rf.push_back(2);
    rf.push_back(3);

    assert_eq!(0, rf.pop_front().unwrap());
    assert_eq!(1, rf.pop_front().unwrap());

    rf.push_back(4);
    rf.push_back(5);
    rf.push_back(6);

    assert_eq!(2, rf.pop_front().unwrap());
    assert_eq!(3, rf.pop_front().unwrap());
    assert_eq!(4, rf.pop_front().unwrap());
    assert_eq!(5, rf.pop_front().unwrap());
    assert_eq!(6, rf.pop_front().unwrap());
}

#[test]
fn empty_pop_and_wraparound() {
    let mut rf: RingBuffer<u64> = RingBuffer::new(2);
    assert_eq!(None, rf.pop_front());

    // drive the window around the buffer several times
    for round in 0..5u64 {
        rf.push_back(round);
        rf.push_back(round + 100);
        assert_eq!(Some(round), rf.pop_front());
        assert_eq!(Some(round + 100), rf.pop_front());
    }
    assert_eq!(None, rf.pop_front());
}
