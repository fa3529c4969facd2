use lol_html::memory::arena::{request_room, reservation, Arena};
use lol_html::memory::limiter::{MemoryLimitExceededError, SharedMemoryLimiter};

#[test]
fn append() {
    let mut limiter = SharedMemoryLimiter::new(10);
    let mut arena = Arena::new(&mut limiter, 2);

    arena.append(&mut limiter, &[1, 2]).unwrap();
    assert_eq!(arena.bytes(), &[1, 2]);
    assert_eq!(limiter.current_usage(), 2);

    arena.append(&mut limiter, &[3, 4]).unwrap();
    assert_eq!(arena.bytes(), &[1, 2, 3, 4]);
    assert_eq!(limiter.current_usage(), 4);

    arena.append(&mut limiter, &[5, 6, 7, 8, 9, 10]).unwrap();
    assert_eq!(arena.bytes(), &[1, 2, 3, 4, 5, 6, 7, 8, 9, 10]);
    assert_eq!(limiter.current_usage(), 10);

    let err = arena.append(&mut limiter, &[11]).unwrap_err();

    assert_eq!(err, MemoryLimitExceededError);
}

#[test]
fn init_with() {
    let mut limiter = SharedMemoryLimiter::new(5);
    let mut arena = Arena::new(&mut limiter, 0);

    arena.init_with(&mut limiter, &[1]).unwrap();
    assert_eq!(arena.bytes(), &[1]);
    assert_eq!(limiter.current_usage(), 1);

    arena.append(&mut limiter, &[1, 2]).unwrap();
    assert_eq!(arena.bytes(), &[1, 1, 2]);
    assert_eq!(limiter.current_usage(), 3);

    arena.init_with(&mut limiter, &[1, 2, 3]).unwrap();
    assert_eq!(arena.bytes(), &[1, 2, 3]);
    assert_eq!(limiter.current_usage(), 3);

    arena.init_with(&mut limiter, &[]).unwrap();
    assert!(arena.bytes().is_empty());
    assert_eq!(limiter.current_usage(), 3);

    let err = arena
        .init_with(&mut limiter, &[1, 2, 3, 4, 5, 6, 7])
        .unwrap_err();

    assert_eq!(err, MemoryLimitExceededError);
}

#[test]
fn shift() {
    let mut limiter = SharedMemoryLimiter::new(10);
    let mut arena = Arena::new(&mut limiter, 0);

    arena.append(&mut limiter, &[0, 1, 2, 3]).unwrap();
    arena.shift(2);
    assert_eq!(arena.bytes(), &[2, 3]);
    assert_eq!(limiter.current_usage(), 4);

    arena.append(&mut limiter, &[0, 1]).unwrap();
    assert_eq!(arena.bytes(), &[2, 3, 0, 1]);
    assert_eq!(limiter.current_usage(), 4);

    arena.shift(3);
    assert_eq!(arena.bytes(), &[1]);
    assert_eq!(limiter.current_usage(), 4);

    arena.append(&mut limiter, &[2, 3, 4, 5]).unwrap();
    arena.shift(1);
    assert_eq!(arena.bytes(), &[2, 3, 4, 5]);
    assert_eq!(limiter.current_usage(), 5);
}

// A suspended rewrite shifts once per resume with no append in between;
// the dead prefix must accumulate and then be reclaimed by the next append.
#[test]
fn consecutive_shifts_without_append() {
    let mut limiter = SharedMemoryLimiter::new(10);
    let mut arena = Arena::new(&mut limiter, 0);

    arena.append(&mut limiter, &[0, 1, 2, 3, 4]).unwrap();
    arena.shift(1);
    arena.shift(2);
    assert_eq!(arena.bytes(), &[3, 4]);

    arena.shift(2);
    assert!(arena.bytes().is_empty());

    arena.append(&mut limiter, &[9]).unwrap();
    assert_eq!(arena.bytes(), &[9]);
}

#[test]
fn failed_append_keeps_the_bytes() {
    let mut limiter = SharedMemoryLimiter::new(3);
    let mut arena = Arena::new(&mut limiter, 3);

    arena.append(&mut limiter, &[1, 2, 3]).unwrap();
    arena.append(&mut limiter, &[4]).unwrap_err();
    assert_eq!(arena.bytes(), &[1, 2, 3]);
}

#[test]
fn failed_init_leaves_nothing() {
    let mut limiter = SharedMemoryLimiter::new(3);
    let mut arena = Arena::new(&mut limiter, 0);

    arena.append(&mut limiter, &[1, 2, 3]).unwrap();
    arena
        .init_with(&mut limiter, &[1, 2, 3, 4, 5])
        .unwrap_err();
    assert!(arena.bytes().is_empty());
}

#[test]
fn arenas_share_a_limiter() {
    let mut limiter = SharedMemoryLimiter::new(6);
    let mut first = Arena::new(&mut limiter, 0);
    let mut second = Arena::new(&mut limiter, 0);

    first.append(&mut limiter, &[1, 2, 3, 4]).unwrap();
    second.append(&mut limiter, &[5, 6]).unwrap();
    assert_eq!(limiter.current_usage(), 6);
    second.append(&mut limiter, &[7]).unwrap_err();
    assert_eq!(second.bytes(), &[5, 6]);
}

#[test]
fn room_that_is_there_costs_nothing() {
    let mut limiter = SharedMemoryLimiter::new(10);

    assert_eq!(request_room(&mut limiter, 8, 5, 3), Ok(false));
    assert_eq!(limiter.current_usage(), 0);
}

#[test]
fn missing_room_is_entered_into_the_books() {
    let mut limiter = SharedMemoryLimiter::new(10);

    assert_eq!(request_room(&mut limiter, 8, 5, 7), Ok(true));
    assert_eq!(limiter.current_usage(), 4);
    assert_eq!(
        request_room(&mut limiter, 12, 12, 7),
        Err(MemoryLimitExceededError)
    );
    assert_eq!(limiter.current_usage(), 11);
}

#[test]
fn usage_does_not_overflow() {
    let mut limiter = SharedMemoryLimiter::new(usize::MAX);

    assert_eq!(limiter.increase_usage(usize::MAX), Ok(()));
    assert_eq!(limiter.increase_usage(1), Err(MemoryLimitExceededError));
    assert_eq!(limiter.current_usage(), usize::MAX);
}

#[test]
fn dropped_bytes_are_used_again_at_the_limit() {
    let mut limiter = SharedMemoryLimiter::new(5);
    let mut arena = Arena::new(&mut limiter, 0);

    arena.append(&mut limiter, &[0, 1, 2, 3, 4]).unwrap();
    assert_eq!(limiter.current_usage(), 5);
    arena.shift(3);
    arena.append(&mut limiter, &[5, 6, 7]).unwrap();
    assert_eq!(arena.bytes(), &[3, 4, 5, 6, 7]);
    assert_eq!(limiter.current_usage(), 5);
    arena.init_with(&mut limiter, &[9, 9, 9, 9, 9]).unwrap();
    assert_eq!(limiter.current_usage(), 5);
}

#[test]
fn memory_is_reserved_for_all_bytes() {
    assert_eq!(reservation(&Ok(true), 7), Some(7));
    assert_eq!(reservation(&Ok(false), 7), None);
    assert_eq!(reservation(&Err(MemoryLimitExceededError), 7), None);
}

#[test]
fn bytes_are_taken_once_there_is_memory() {
    let mut limiter = SharedMemoryLimiter::new(10);
    let mut arena = Arena::new(&mut limiter, 0);

    arena.append_reserved(&[1, 2], Ok(true), true).unwrap();
    assert_eq!(arena.bytes(), &[1, 2]);
    arena.append_reserved(&[3], Ok(false), false).unwrap();
    assert_eq!(arena.bytes(), &[1, 2, 3]);
    assert_eq!(
        arena.append_reserved(&[4], Ok(true), false),
        Err(MemoryLimitExceededError)
    );
    assert_eq!(
        arena.append_reserved(&[4], Err(MemoryLimitExceededError), true),
        Err(MemoryLimitExceededError)
    );
    assert_eq!(arena.bytes(), &[1, 2, 3]);
}
