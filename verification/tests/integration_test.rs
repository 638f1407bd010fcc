use shm_ring::ringbuffer_ro::RingbufRo;
use shm_ring::ringbuffer_rw::RingbufRw;
use shm_ring::SZ_OF_USIZE;

const TEST_SHM_SIZE: usize = 52;

/// A region as both ends see it: the two index words and the payload.
struct Shm {
    tail: usize,
    head: usize,
    payload: Vec<u8>,
}

impl Shm {
    fn new(size: usize) -> Self {
        Shm { tail: 0, head: 0, payload: vec![0; size - 2 * SZ_OF_USIZE] }
    }

    fn reader(&mut self) -> RingbufRo<'_> {
        let size = self.payload.len();
        RingbufRo::make(&self.tail, &mut self.head, size, &self.payload)
    }

    fn writer(&mut self) -> RingbufRw<'_> {
        RingbufRw::make(&mut self.tail, &self.head, &mut self.payload)
    }
}

#[test]
fn test_is_full_fn() {
    let mut shm = Shm::new(TEST_SHM_SIZE);

    let msg = b"AAAABBBBCCCCDDDDEEEEFFFFGGG";
    let _result = shm.writer().push(msg);

    let r_ring = shm.reader();
    assert_eq!(true, r_ring.is_full());
    println!("{r_ring:?}");
    let w_ring = shm.writer();
    assert_eq!(true, w_ring.is_full());
    println!("{w_ring:?}");
}

#[test]
fn test_is_empty_fn() {
    let mut shm = Shm::new(TEST_SHM_SIZE);

    let r_ring = shm.reader();
    assert_eq!(true, r_ring.is_empty());
    println!("{r_ring:?}");
    let w_ring = shm.writer();
    assert_eq!(true, w_ring.is_empty());
    println!("{w_ring:?}");
}

#[test]
fn test_push_pop_twice_ring_buffer() {
    let mut shm = Shm::new(TEST_SHM_SIZE);

    let msg = b"AAAABB";
    println!("PUSH {:x?}", &msg);
    let mut w_ring = shm.writer();
    let result = w_ring.push(msg);
    println!("{w_ring:?}");
    assert_eq!(14, result);
    assert_eq!(0, w_ring.get_head());
    assert_eq!(14, w_ring.get_tail());
    assert_eq!(36, w_ring.get_size());
    assert_eq!(14, w_ring.get_curr_bytes());
    assert_eq!(21, w_ring.empty_slots_left());
    assert_eq!(false, w_ring.is_empty());
    assert_eq!(false, w_ring.is_full());

    let mut buffer = [0; 6];
    println!("POP {:x?}", &msg);
    let mut r_ring = shm.reader();
    let sz = r_ring.pop(&mut buffer);
    println!("{r_ring:?}");
    assert_eq!(msg, &buffer);
    assert_eq!(6, sz);
    assert_eq!(14, r_ring.get_head());
    assert_eq!(14, r_ring.get_tail());
    assert_eq!(36, r_ring.get_size());
    assert_eq!(0, r_ring.get_curr_bytes());
    assert_eq!(35, r_ring.empty_slots_left());
    assert_eq!(true, r_ring.is_empty());
    assert_eq!(false, r_ring.is_full());

    println!("PUSH {:x?}", &msg);
    let mut w_ring = shm.writer();
    let result = w_ring.push(msg);
    println!("{w_ring:?}");
    assert_eq!(14, result);
    assert_eq!(14, w_ring.get_head());
    assert_eq!(28, w_ring.get_tail());
    assert_eq!(36, w_ring.get_size());
    assert_eq!(14, w_ring.get_curr_bytes());
    assert_eq!(21, w_ring.empty_slots_left());
    assert_eq!(false, w_ring.is_empty());
    assert_eq!(false, w_ring.is_full());

    let mut buffer = [0; 6];
    println!("POP {:x?}", &msg);
    let mut r_ring = shm.reader();
    let sz = r_ring.pop(&mut buffer);
    println!("{r_ring:?}");
    assert_eq!(msg, &buffer);
    assert_eq!(6, sz);
    assert_eq!(28, r_ring.get_head());
    assert_eq!(28, r_ring.get_tail());
    assert_eq!(36, r_ring.get_size());
    assert_eq!(0, r_ring.get_curr_bytes());
    assert_eq!(35, r_ring.empty_slots_left());
    assert_eq!(true, r_ring.is_empty());
    assert_eq!(false, r_ring.is_full());
}

#[test]
fn test_push_push_full_pop_pop() {
    let mut shm = Shm::new(TEST_SHM_SIZE);

    let msg = b"AAAABBBBCC";
    println!("PUSH {:x?}", &msg);
    let mut w_ring = shm.writer();
    let _result = w_ring.push(msg);
    println!("{w_ring:?}");

    let msg = b"AAAABBBBC";
    println!("PUSH {:x?}", &msg);
    let _result = w_ring.push(msg);
    println!("{w_ring:?}");
    assert_eq!(true, shm.reader().is_full());
    assert_eq!(true, shm.writer().is_full());

    let mut buffer = [0; 10];
    let mut r_ring = shm.reader();
    let _result = r_ring.pop(&mut buffer);
    println!("POP {:x?}", &buffer);
    println!("{r_ring:?}");

    let mut buffer = [0; 9];
    let _result = r_ring.pop(&mut buffer);
    println!("POP {:x?}", &buffer);
    println!("{r_ring:?}");
    assert_eq!(msg, &buffer);
    assert_eq!(true, shm.reader().is_empty());
    assert_eq!(true, shm.writer().is_empty());

    let msg = b"AAAABBBBCCCCDDDDEEEEFFFFGGG";
    let mut w_ring = shm.writer();
    let _result = w_ring.push(msg);
    println!("{w_ring:?}");
}

#[test]
fn test_happy_wrap() {
    let mut shm = Shm::new(TEST_SHM_SIZE);

    let msg = b"AAAA";
    println!("PUSH {:x?}", &msg);
    let mut w_ring = shm.writer();
    let _result = w_ring.push(msg);
    println!("{w_ring:?}");

    let mut buffer = [0; 4];
    let mut r_ring = shm.reader();
    let _result = r_ring.pop(&mut buffer);
    println!("POP {:x?}", &buffer);
    println!("{r_ring:?}");
    assert_eq!(msg, &buffer);

    let msg = b"BBBB";
    println!("PUSH {:x?}", &msg);
    let mut w_ring = shm.writer();
    let _result = w_ring.push(msg);
    println!("{w_ring:?}");

    let mut buffer = [0; 4];
    let mut r_ring = shm.reader();
    let _result = r_ring.pop(&mut buffer);
    println!("POP {:x?}", &buffer);
    println!("{r_ring:?}");
    assert_eq!(msg, &buffer);

    let msg = b"CCCC";
    println!("PUSH {:x?}", &msg);
    let mut w_ring = shm.writer();
    let _result = w_ring.push(msg);
    println!("{w_ring:?}");

    let mut buffer = [0; 4];
    let mut r_ring = shm.reader();
    let _result = r_ring.pop(&mut buffer);
    println!("POP {:x?}", &buffer);
    println!("{r_ring:?}");
    assert_eq!(msg, &buffer);

    let msg = b"DDDD";
    println!("PUSH {:x?}", &msg);
    let mut w_ring = shm.writer();
    let _result = w_ring.push(msg);
    println!("{w_ring:?}");

    let mut buffer = [0; 4];
    let mut r_ring = shm.reader();
    let _result = r_ring.pop(&mut buffer);
    println!("POP {:x?}", &buffer);
    println!("{r_ring:?}");
    assert_eq!(msg, &buffer);
}

#[test]
fn test_sad_wrap() {
    let mut shm = Shm::new(TEST_SHM_SIZE);

    let msg = b"AAAABB";
    println!("PUSH {:x?}", &msg);
    let mut w_ring = shm.writer();
    let _result = w_ring.push(msg);
    println!("{w_ring:?}");

    let mut buffer = [0; 6];
    let mut r_ring = shm.reader();
    let _result = r_ring.pop(&mut buffer);
    println!("POP {:x?}", &buffer);
    println!("{r_ring:?}");
    assert_eq!(msg, &buffer);

    let msg = b"AAAABBBBCCCCDDDDEEEE";
    println!("PUSH {:x?}", &msg);
    let mut w_ring = shm.writer();
    let _result = w_ring.push(msg);
    println!("{w_ring:?}");

    let mut buffer = [0; 20];
    let mut r_ring = shm.reader();
    let _result = r_ring.pop(&mut buffer);
    println!("POP {:x?}", &buffer);
    println!("{r_ring:?}");
    assert_eq!(msg, &buffer);
}

#[test]
fn test_extra_sad_wrap() {
    let mut shm = Shm::new(TEST_SHM_SIZE);

    let msg = b"AAAABBBBCCCCDDDDEEEEFFFF";
    println!("PUSH {:x?}", &msg);
    let mut w_ring = shm.writer();
    let _result = w_ring.push(msg);
    println!("{w_ring:?}");

    let mut buffer = [0; 24];
    let mut r_ring = shm.reader();
    let _result = r_ring.pop(&mut buffer);
    println!("POP {:x?}", &buffer);
    println!("{r_ring:?}");
    assert_eq!(msg, &buffer);

    let msg = b"AAAABBBBCCCCDDDDEEEE";
    println!("PUSH {:x?}", &msg);
    let mut w_ring = shm.writer();
    let _result = w_ring.push(msg);
    println!("{w_ring:?}");

    let mut buffer = [0; 20];
    let mut r_ring = shm.reader();
    let _result = r_ring.pop(&mut buffer);
    println!("POP {:x?}", &buffer);
    println!("{r_ring:?}");
    assert_eq!(msg, &buffer);
}

#[test]
fn test_empty_msg() {
    let mut shm = Shm::new(TEST_SHM_SIZE);

    let msg = b"";
    println!("PUSH {:x?}", &msg);
    let mut w_ring = shm.writer();
    let _result = w_ring.push(msg);
    println!("{w_ring:?}");

    let mut buffer = [0; 0];
    let mut r_ring = shm.reader();
    let _result = r_ring.pop(&mut buffer);
    println!("POP {:x?}", &buffer);
    println!("{r_ring:?}");
    assert_eq!(msg, &buffer);
}

#[test]
fn test_push_msg_when_full() {
    let mut shm = Shm::new(TEST_SHM_SIZE);
    let mut w_ring = shm.writer();
    let msg = b"AAAABBBBCCCCDDDD";
    println!("PUSH {:x?}", &msg);
    let _result = w_ring.push(msg);
    println!("{w_ring:?}");
    println!("PUSH {:x?}", &msg);
    let result = w_ring.push(msg);
    println!("{w_ring:?}");
    assert_eq!(0, result);
}

#[test]
fn test_pop_msg_when_empty() {
    let mut shm = Shm::new(TEST_SHM_SIZE);
    let mut r_ring = shm.reader();

    let mut buffer = [0; 0];
    let result = r_ring.pop(&mut buffer);
    println!("POP {:x?}", &buffer);
    println!("{r_ring:?}");
    assert_eq!(0, result);
}
