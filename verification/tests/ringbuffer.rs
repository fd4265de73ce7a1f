use mm_engine::ringbuffer::{channel, make_inner};

#[test]
fn single_threaded_fifo_order() {
    let (p, c) = channel::<u64>(8);
    for i in 0..5 {
        p.try_push(i).unwrap();
    }
    for i in 0..5 {
        assert_eq!(c.try_pop(), Some(i));
    }
    assert_eq!(c.try_pop(), None);
}

#[test]
fn reports_full_without_blocking() {
    let (p, _c) = channel::<u64>(4);
    for i in 0..4 {
        assert!(p.try_push(i).is_ok());
    }
    assert!(p.try_push(999).is_err());
    assert_eq!(p.dropped_count(), 1);
}

#[test]
fn refused_value_comes_back_and_both_ends_count_it() {
    let (p, c) = channel::<u64>(2);
    p.try_push(1).unwrap();
    p.try_push(2).unwrap();
    assert_eq!(p.try_push(3), Err(3));
    assert_eq!(p.try_push(4), Err(4));
    assert_eq!(p.dropped_count(), 2);
    assert_eq!(c.dropped_count(), 2);
    assert_eq!(c.try_pop(), Some(1));
    assert_eq!(p.try_push(5), Ok(()));
    assert_eq!(c.try_pop(), Some(2));
    assert_eq!(c.try_pop(), Some(5));
    assert_eq!(c.try_pop(), None);
    assert_eq!(c.dropped_count(), 2);
}

#[test]
fn capacity_is_rounded_up_to_a_power_of_two_and_at_least_two() {
    for (requested, room) in [(0usize, 2u64), (1, 2), (2, 2), (3, 4), (4, 4), (5, 8), (1000, 1024)] {
        let mut ring = make_inner::<u64>(requested);
        for i in 0..room {
            assert_eq!(ring.try_push(i), Ok(()));
        }
        assert_eq!(ring.try_push(room), Err(room));
        assert_eq!(ring.dropped_count(), 1);
    }
}

#[test]
fn order_is_kept_over_many_turns() {
    let (p, c) = channel::<u64>(8);
    let mut next_in = 0u64;
    let mut next_out = 0u64;
    for turn in 0..1000u64 {
        for _ in 0..(turn % 8) + 1 {
            if p.try_push(next_in).is_ok() {
                next_in += 1;
            }
        }
        for _ in 0..(turn % 5) + 1 {
            if let Some(v) = c.try_pop() {
                assert_eq!(v, next_out);
                next_out += 1;
            }
        }
    }
    while let Some(v) = c.try_pop() {
        assert_eq!(v, next_out);
        next_out += 1;
    }
    assert_eq!(next_in, next_out);
}

#[test]
fn push_then_pop_leaves_the_queue_empty() {
    let mut ring = make_inner::<(u8, bool)>(64);
    for i in 0..200u8 {
        assert_eq!(ring.try_push((i, i % 2 == 0)), Ok(()));
        assert_eq!(ring.try_pop(), Some((i, i % 2 == 0)));
        assert_eq!(ring.try_pop(), None);
    }
    assert_eq!(ring.dropped_count(), 0);
}
