use cool_turkey::{add_mut_stride, add_stride, mut_stride, stride, FftError};

#[test]
fn test_every_other() {
    let count = vec![1i64, 2, 3, 4, 5];
    let odds = stride(&count, 0, 2).unwrap();
    let odds_should_be = vec![1i64, 3, 5];
    let evens = stride(&count, 1, 2).unwrap();
    let evens_should_be = vec![2i64, 4];
    for (a, b) in odds_should_be.iter().zip(odds.collect_forward().iter()) {
        assert_eq!(a, b);
    }
    for (a, b) in evens_should_be.iter().zip(evens.collect_forward().iter()) {
        assert_eq!(a, b);
    }
}

#[test]
fn forward_collection_matches_direct_indexing() {
    let buf = vec![10i64, 11, 12, 13, 14, 15, 16, 17, 18];
    for offset in 0..=buf.len() {
        for step in 1..5usize {
            let mut expected = Vec::new();
            let mut i = offset;
            while i < buf.len() {
                expected.push(buf[i]);
                i += step;
            }
            let view = stride(&buf, offset, step).unwrap();
            assert_eq!(view.collect_forward(), expected);
        }
    }
}

#[test]
fn reverse_collection_is_the_forward_sequence_reversed() {
    let buf = vec![3i64, 1, 4, 1, 5, 9, 2, 6];
    for offset in 0..=buf.len() {
        for step in 1..4usize {
            let forward = stride(&buf, offset, step).unwrap().collect_forward();
            let backward = stride(&buf, offset, step).unwrap().collect_reversed();
            let mut reversed = forward.clone();
            reversed.reverse();
            assert_eq!(backward, reversed);
        }
    }
}

#[test]
fn mixed_ends_meet_in_the_middle() {
    let buf = vec![0i64, 1, 2, 3, 4, 5, 6];
    let mut view = stride(&buf, 0, 2).unwrap();
    assert_eq!(view.next(), Some(&0));
    assert_eq!(view.next_back(), Some(&6));
    assert_eq!(view.next(), Some(&2));
    assert_eq!(view.next_back(), Some(&4));
    assert_eq!(view.next(), None);
    assert_eq!(view.next_back(), None);
}

#[test]
fn nth_and_lengths() {
    let buf = vec![7i64, 8, 9, 10, 11];
    let view = stride(&buf, 1, 3).unwrap();
    assert_eq!(view.remaining_len(), 2);
    assert_eq!(view.stride_len(), 3);
    assert_eq!(*view.nth(0), 8);
    assert_eq!(*view.nth(1), 11);
}

#[test]
fn restriding_a_view() {
    let buf = vec![1i64, 2, 3, 4, 5, 6, 7, 8, 9, 10];
    let base = stride(&buf, 0, 1).unwrap();
    let coarse = add_stride(&base, 3);
    assert_eq!(coarse.collect_forward(), vec![1i64, 4, 7, 10]);
    let base2 = stride(&buf, 1, 2).unwrap();
    let coarse2 = add_stride(&base2, 2);
    assert_eq!(coarse2.collect_forward(), vec![2i64, 6, 10]);
}

#[test]
fn invalid_views_are_rejected() {
    let buf = vec![1i64, 2, 3];
    assert_eq!(stride(&buf, 0, 0).err(), Some(FftError::InvalidView));
    assert_eq!(stride(&buf, 4, 1).err(), Some(FftError::InvalidView));
    assert!(stride(&buf, 3, 1).is_ok());
    assert_eq!(mut_stride(3, 0, 0).err(), Some(FftError::InvalidView));
    assert_eq!(mut_stride(3, 4, 1).err(), Some(FftError::InvalidView));
    assert!(mut_stride(3, 3, 1).is_ok());
}

#[test]
fn mutable_positions_walk_the_grid() {
    let mut view = mut_stride(9, 1, 3).unwrap();
    assert_eq!(view.remaining_len(), 3);
    assert_eq!(view.next_index(), Some(1));
    assert_eq!(view.next_back_index(), Some(7));
    assert_eq!(view.next_index(), Some(4));
    assert_eq!(view.next_index(), None);
    assert_eq!(view.next_back_index(), None);
}

#[test]
fn restriding_mutable_positions() {
    let base = mut_stride(10, 0, 1).unwrap();
    let mut coarse = add_mut_stride(&base, 4);
    assert_eq!(coarse.next_index(), Some(0));
    assert_eq!(coarse.next_index(), Some(4));
    assert_eq!(coarse.next_index(), Some(8));
    assert_eq!(coarse.next_index(), None);
}
