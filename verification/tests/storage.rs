use shrev::storage::{RBError, ReadData, ReaderId, RingBufferStorage};
use std::any::TypeId;

#[derive(Debug, Clone, Copy, PartialEq)]
struct Test {
    pub id: u32,
}

#[derive(Debug, Clone, Copy, PartialEq)]
struct Test2 {
    pub id: u32,
}

fn events(n: u32) -> Vec<Test> {
    (0..n).map(|i| Test { id: i }).collect::<Vec<_>>()
}

#[test]
fn test_empty_write() {
    let mut buffer = RingBufferStorage::<Test>::new(10);
    let r = buffer.drain_vec_write(&mut vec![]);
    assert!(r.is_ok());
}

#[test]
fn test_too_large_write() {
    let mut buffer = RingBufferStorage::<Test>::new(10);
    let r = buffer.drain_vec_write(&mut events(15));
    assert!(r.is_err());
    match r {
        Err(RBError::TooLargeWrite) => (),
        _ => panic!(),
    }
}

#[test]
fn test_invalid_reader() {
    let buffer = RingBufferStorage::<Test>::new(10);
    let mut reader_id = ReaderId::new(TypeId::of::<Test2>(), 0, 0);
    let r = buffer.read(&mut reader_id);
    assert!(r.is_err());
    match r {
        Err(RBError::InvalidReader) => (),
        _ => panic!(),
    }
}

#[test]
fn test_empty_read() {
    let buffer = RingBufferStorage::<Test>::new(10);
    let mut reader_id = buffer.new_reader_id();
    match buffer.read(&mut reader_id) {
        Ok(ReadData::Data(data)) => {
            assert_eq!(Vec::<Test>::default(), data.cloned())
        }
        _ => panic!(),
    }
}

#[test]
fn test_empty_read_write_before_id() {
    let mut buffer = RingBufferStorage::<Test>::new(10);
    assert!(buffer.drain_vec_write(&mut events(2)).is_ok());
    let mut reader_id = buffer.new_reader_id();
    match buffer.read(&mut reader_id) {
        Ok(ReadData::Data(data)) => {
            assert_eq!(Vec::<Test>::default(), data.cloned())
        }
        _ => panic!(),
    }
}

#[test]
fn test_read() {
    let mut buffer = RingBufferStorage::<Test>::new(10);
    let mut reader_id = buffer.new_reader_id();
    assert!(buffer.drain_vec_write(&mut events(2)).is_ok());
    match buffer.read(&mut reader_id) {
        Ok(ReadData::Data(data)) => {
            assert_eq!(vec![Test { id: 0 }, Test { id: 1 }], data.cloned())
        }
        _ => panic!(),
    }
}

#[test]
fn test_write_overflow() {
    let mut buffer = RingBufferStorage::<Test>::new(3);
    let mut reader_id = buffer.new_reader_id();
    assert!(buffer.drain_vec_write(&mut events(2)).is_ok());
    assert!(buffer.drain_vec_write(&mut events(2)).is_ok());
    let r = buffer.read(&mut reader_id);
    match r {
        Ok(ReadData::Overflow(lost_data, lost_size)) => {
            // we wrote 4 data points into a buffer of size 3, that means we've lost 1 data
            // point
            assert_eq!(1, lost_size);
            // we wrote 0,1,0,1, we will be able to salvage the last 3 data points, since the
            // buffer is of size 3
            assert_eq!(
                vec![Test { id: 1 }, Test { id: 0 }, Test { id: 1 }],
                lost_data.cloned()
            );
        }
        _ => panic!(),
    }
}

#[test]
fn test_write_slice() {
    let mut buffer = RingBufferStorage::<Test>::new(10);
    let mut reader_id = buffer.new_reader_id();
    assert!(buffer.slice_write(&events(2)).is_ok());
    match buffer.read(&mut reader_id) {
        Ok(ReadData::Data(data)) => {
            assert_eq!(vec![Test { id: 0 }, Test { id: 1 }], data.cloned());
        }
        _ => panic!(),
    }
}

#[test]
fn test_iter_write() {
    let mut buffer = RingBufferStorage::<Test>::new(10);
    let mut reader_id = buffer.new_reader_id();
    assert!(buffer.iter_write(events(3)).is_ok());
    match buffer.read(&mut reader_id) {
        Ok(ReadData::Data(data)) => {
            assert_eq!(
                vec![Test { id: 0 }, Test { id: 1 }, Test { id: 2 }],
                data.cloned()
            );
        }
        _ => panic!(),
    }
}

// A cursor created before any writes reads back all of them, in write order,
// as long as no more than the capacity were written.
#[test]
fn test_single_writes_up_to_capacity() {
    let mut buffer = RingBufferStorage::<Test>::new(5);
    let mut reader_id = buffer.new_reader_id();
    for i in 0..5 {
        buffer.single_write(Test { id: i });
    }
    match buffer.read(&mut reader_id) {
        Ok(ReadData::Data(data)) => {
            assert_eq!(events(5), data.cloned());
        }
        _ => panic!(),
    }
}

// More single writes than the capacity: the read reports the exact number of
// lost elements and recovers the last `capacity` values in write order.
#[test]
fn test_lapped_single_writes() {
    let mut buffer = RingBufferStorage::<Test>::new(3);
    let mut reader_id = buffer.new_reader_id();
    for i in 0..5 {
        buffer.single_write(Test { id: i });
    }
    match buffer.read(&mut reader_id) {
        Ok(ReadData::Overflow(data, lost)) => {
            assert_eq!(2, lost);
            assert_eq!(
                vec![Test { id: 2 }, Test { id: 3 }, Test { id: 4 }],
                data.cloned()
            );
        }
        _ => panic!(),
    }
}

// An oversized bulk write pushes exactly the first `capacity` elements, and a
// cursor created beforehand reads exactly those back.
#[test]
fn test_too_large_write_keeps_prefix() {
    let mut buffer = RingBufferStorage::<Test>::new(10);
    let mut reader_id = buffer.new_reader_id();
    let r = buffer.drain_vec_write(&mut events(15));
    match r {
        Err(RBError::TooLargeWrite) => (),
        _ => panic!(),
    }
    match buffer.read(&mut reader_id) {
        Ok(ReadData::Data(data)) => {
            assert_eq!(events(10), data.cloned());
        }
        _ => panic!(),
    }
}

// Reading twice in a row with no intervening write yields an empty normal
// outcome both times.
#[test]
fn test_empty_read_twice() {
    let mut buffer = RingBufferStorage::<Test>::new(10);
    let mut reader_id = buffer.new_reader_id();
    assert!(buffer.drain_vec_write(&mut events(2)).is_ok());
    match buffer.read(&mut reader_id) {
        Ok(ReadData::Data(data)) => {
            assert_eq!(events(2), data.cloned());
        }
        _ => panic!(),
    }
    for _ in 0..2 {
        match buffer.read(&mut reader_id) {
            Ok(ReadData::Data(data)) => {
                assert_eq!(Vec::<Test>::default(), data.cloned());
            }
            _ => panic!(),
        }
    }
}

// After an overflow read, a subsequent read with no intervening writes is an
// empty normal outcome, never a second overflow.
#[test]
fn test_read_after_overflow_empty() {
    let mut buffer = RingBufferStorage::<Test>::new(3);
    let mut reader_id = buffer.new_reader_id();
    for i in 0..7 {
        buffer.single_write(Test { id: i });
    }
    match buffer.read(&mut reader_id) {
        Ok(ReadData::Overflow(data, lost)) => {
            assert_eq!(4, lost);
            assert_eq!(
                vec![Test { id: 4 }, Test { id: 5 }, Test { id: 6 }],
                data.cloned()
            );
        }
        _ => panic!(),
    }
    match buffer.read(&mut reader_id) {
        Ok(ReadData::Data(data)) => {
            assert_eq!(Vec::<Test>::default(), data.cloned());
        }
        _ => panic!(),
    }
}

// The type check works in both directions between two element types.
#[test]
fn test_invalid_reader_both_directions() {
    let buffer = RingBufferStorage::<Test2>::new(10);
    let mut reader_id = ReaderId::new(TypeId::of::<Test>(), 0, 0);
    match buffer.read(&mut reader_id) {
        Err(RBError::InvalidReader) => (),
        _ => panic!(),
    }
    let mut own_reader = buffer.new_reader_id();
    assert!(buffer.read(&mut own_reader).is_ok());
}

// A zero-capacity buffer never panics: every write is immediately lost and a
// read delivers an empty normal outcome.
#[test]
fn test_zero_capacity() {
    let mut buffer = RingBufferStorage::<Test>::new(0);
    let mut reader_id = buffer.new_reader_id();
    buffer.single_write(Test { id: 0 });
    buffer.single_write(Test { id: 1 });
    assert!(buffer.drain_vec_write(&mut events(1)).is_err());
    match buffer.read(&mut reader_id) {
        Ok(ReadData::Data(data)) => {
            assert_eq!(Vec::<Test>::default(), data.cloned());
        }
        _ => panic!(),
    }
    assert_eq!(0, buffer.max_size());
}

// Across a counter rebase the recovered distance runs one short of the true
// distance: a reader synchronized exactly at the rebase threshold misses the
// next write.  This is the documented behavior of the counter formula, not
// an error.
#[test]
fn test_rebase_undercounts_by_one() {
    let mut buffer = RingBufferStorage::<Test>::new(1);
    let mut reader_id = buffer.new_reader_id();
    for i in 0..1000 {
        buffer.single_write(Test { id: i });
    }
    // resynchronize exactly at the threshold (counter == 1000)
    match buffer.read(&mut reader_id) {
        Ok(ReadData::Overflow(_, lost)) => assert_eq!(999, lost),
        _ => panic!(),
    }
    // the next write rebases the counter to 0
    buffer.single_write(Test { id: 1000 });
    match buffer.read(&mut reader_id) {
        Ok(ReadData::Data(data)) => {
            assert_eq!(Vec::<Test>::default(), data.cloned());
        }
        _ => panic!(),
    }
}

// A reader exactly at the rebase threshold still gets the exact lost count.
#[test]
fn test_long_lag_overflow() {
    let mut buffer = RingBufferStorage::<Test>::new(1);
    let mut reader_id = buffer.new_reader_id();
    for i in 0..1000 {
        buffer.single_write(Test { id: i });
    }
    match buffer.read(&mut reader_id) {
        Ok(ReadData::Overflow(data, lost)) => {
            assert_eq!(999, lost);
            assert_eq!(vec![Test { id: 999 }], data.cloned());
        }
        _ => panic!(),
    }
}
