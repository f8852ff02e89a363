use packed_array::bits::div_round_up;
use packed_array::fixed::Array;
use packed_array::fixed::IndexOutOfBounds;

/// Drains a fresh iteration of `a` into a plain vector.
fn collect(a: &Array) -> Vec<u32> {
    let mut out: Vec<u32> = Vec::new();
    let mut it = a.iter();
    while let Some(v) = it.next() {
        out.push(v);
    }
    out
}

#[test]
fn round_trip_small_widths() {
    for l in 1..=8usize {
        let modulus: u32 = 1u32 << l;
        let values: Vec<u32> = (0..20u32).map(|v| (v * 7 + 3) % modulus).collect();
        let a = Array::from_vec(l, &values);
        assert_eq!(a.len(), values.len());
        for (i, v) in values.iter().enumerate() {
            assert_eq!(a.get(i), Ok(*v));
        }
    }
}

#[test]
fn round_trip_full_word_width() {
    let values = vec![0u32, 1, 0xFFFF_FFFF, 0x8000_0001, 0x1234_5678];
    let a = Array::from_vec(32, &values);
    assert_eq!(a.len(), 5);
    for (i, v) in values.iter().enumerate() {
        assert_eq!(a.get(i), Ok(*v));
    }
}

#[test]
fn round_trip_one_bit() {
    let values = vec![1u32, 0, 1, 1, 0, 0, 1, 0, 1, 1, 1, 0, 0, 0, 1];
    let a = Array::from_vec(1, &values);
    for (i, v) in values.iter().enumerate() {
        assert_eq!(a.get(i), Ok(*v));
    }
}

#[test]
fn write_isolation() {
    let values: Vec<u32> = (0..10u32).map(|v| v * 3 % 32).collect();
    let mut a = Array::from_vec(5, &values);
    let before = collect(&a);
    assert_eq!(a.set(4, 17), Ok(()));
    for j in 0..10usize {
        if j == 4 {
            assert_eq!(a.get(j), Ok(17));
        } else {
            assert_eq!(a.get(j), Ok(before[j]));
        }
    }
}

#[test]
fn straddle_correctness() {
    // With 5-bit elements in 32-bit words, element 6 occupies bits 30..=34,
    // straddling words 0 and 1.
    let values = vec![1u32, 2, 3, 4, 5, 6, 7, 8, 9, 10];
    let mut a = Array::from_vec(5, &values);
    assert_eq!(a.set(6, 0b10101), Ok(()));
    assert_eq!(a.get(6), Ok(0b10101));
    // The neighbours on both sides of the straddling range, and every other
    // element of the two touched words, are unchanged.
    for j in 0..10usize {
        if j != 6 {
            assert_eq!(a.get(j), Ok(values[j]));
        }
    }
}

#[test]
fn truncation_on_set() {
    let mut a = Array::from_vec(3, &vec![0u32; 4]);
    assert_eq!(a.set(1, 0xFF), Ok(()));
    assert_eq!(a.get(1), Ok(7));
    assert_eq!(a.set(2, 9), Ok(()));
    assert_eq!(a.get(2), Ok(1));
}

#[test]
fn truncation_on_construction() {
    let a = Array::from_vec(4, &vec![16u32, 17, 31, 15]);
    assert_eq!(collect(&a), vec![0, 1, 15, 15]);
}

#[test]
fn length_and_iteration_order() {
    let values = vec![3u32, 1, 4, 1, 5, 9, 2];
    let a = Array::from_vec(4, &values);
    assert_eq!(a.len(), 7);
    assert_eq!(collect(&a), values);
}

#[test]
fn iteration_restarts_and_stays_exhausted() {
    let values = vec![6u32, 2, 8, 3];
    let a = Array::from_vec(4, &values);
    assert_eq!(collect(&a), collect(&a));
    let mut it = a.iter();
    for _ in 0..4 {
        assert!(it.next().is_some());
    }
    assert_eq!(it.next(), None);
    assert_eq!(it.next(), None);
}

#[test]
fn bounds_checking() {
    let mut a = Array::from_vec(6, &vec![1u32, 2, 3]);
    assert_eq!(a.get(3), Err(IndexOutOfBounds));
    assert_eq!(a.set(3, 1), Err(IndexOutOfBounds));
    assert_eq!(a.get(usize::MAX), Err(IndexOutOfBounds));
    assert_eq!(a.get(2), Ok(3));
}

#[test]
fn empty_array() {
    let values: Vec<u32> = Vec::new();
    let mut a = Array::from_vec(5, &values);
    assert_eq!(a.len(), 0);
    assert_eq!(collect(&a), Vec::<u32>::new());
    assert_eq!(a.get(0), Err(IndexOutOfBounds));
    assert_eq!(a.set(0, 1), Err(IndexOutOfBounds));
}

#[test]
fn div_round_up_samples() {
    for y in 1..6usize {
        assert_eq!(div_round_up(0, y), 0);
    }
    assert_eq!(div_round_up(1, 4), 1);
    assert_eq!(div_round_up(4, 4), 1);
    assert_eq!(div_round_up(5, 4), 2);
    assert_eq!(div_round_up(31, 32), 1);
    assert_eq!(div_round_up(32, 32), 1);
    assert_eq!(div_round_up(33, 32), 2);
}
