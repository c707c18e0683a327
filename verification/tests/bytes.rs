use bfrs::bytes::{Buffered, BufferedBytes, Fetch};

#[test]
fn new_queue_asks_for_a_chunk() {
    let mut queue = BufferedBytes::new();
    assert_eq!(queue.next(), Fetch::Read(1024));
    let mut queue = BufferedBytes::with_capacity(3);
    assert_eq!(queue.next(), Fetch::Read(3));
    assert_eq!(queue.next(), Fetch::Read(3));
}

#[test]
fn bytes_leave_in_the_order_in_which_they_came() {
    let mut queue = BufferedBytes::with_capacity(4);
    queue.refill(b"abc");
    assert_eq!(queue.next(), Fetch::Byte(b'a'));
    assert_eq!(queue.next(), Fetch::Byte(b'b'));
    assert_eq!(queue.next(), Fetch::Byte(b'c'));
    assert_eq!(queue.next(), Fetch::Read(4));
    queue.refill(b"d");
    assert_eq!(queue.next(), Fetch::Byte(b'd'));
    assert_eq!(queue.next(), Fetch::Read(4));
}

#[test]
fn empty_chunk_ends_the_source() {
    let mut queue = BufferedBytes::with_capacity(4);
    queue.refill(b"x");
    assert_eq!(queue.next(), Fetch::Byte(b'x'));
    queue.refill(b"");
    assert_eq!(queue.next(), Fetch::End);
    assert_eq!(queue.next(), Fetch::End);
}

#[test]
fn failed_source_is_at_its_end() {
    let mut queue = BufferedBytes::with_capacity(4);
    queue.fail();
    assert_eq!(queue.next(), Fetch::End);
}

#[test]
fn buffer_holds_one_chunk() {
    let mut buffer = Buffered::with_capacity(8);
    assert_eq!(buffer.capacity(), 8);
    assert_eq!(buffer.next_byte(), None);
    assert!(buffer.read_buffer(&[1, 2, 3]));
    assert_eq!(buffer.next_byte(), Some(1));
    assert!(buffer.read_buffer(&[9]));
    assert_eq!(buffer.next_byte(), Some(9));
    assert_eq!(buffer.next_byte(), None);
    assert!(!buffer.read_buffer(&[]));
    assert_eq!(buffer.next_byte(), None);
}
