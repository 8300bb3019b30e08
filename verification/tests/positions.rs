// SPDX-License-Identifier: Apache-2.0

use bit_positions::BitIterator;

/// Every position the scan of `data` produces, by repeated requests.
fn drain(data: &[u8]) -> Vec<usize> {
    let mut it = BitIterator::new(data);
    let mut out: Vec<usize> = Vec::new();
    while let Some(p) = it.next() {
        out.push(p);
    }
    out
}

/// The set positions of `data`, found bit by bit without the library.
fn expected(data: &[u8]) -> Vec<usize> {
    let mut out: Vec<usize> = Vec::new();
    let mut p: usize = 0;
    while p < data.len() * 8 {
        if (data[p / 8] >> (p % 8)) & 1 == 1 {
            out.push(p);
        }
        p += 1;
    }
    out
}

#[test]
fn empty_input_produces_nothing() {
    let data: [u8; 0] = [];
    assert_eq!(drain(&data), Vec::<usize>::new());
    assert_eq!(BitIterator::new(&data).collect(), Vec::<usize>::new());
    let mut it = BitIterator::new(&data);
    assert_eq!(it.next(), None);
}

#[test]
fn zero_bytes_produce_nothing() {
    let lengths: [usize; 6] = [0, 1, 2, 7, 64, 1000];
    for n in lengths {
        let data: Vec<u8> = vec![0u8; n];
        assert_eq!(drain(&data), Vec::<usize>::new());
        assert_eq!(BitIterator::new(&data).collect(), Vec::<usize>::new());
    }
}

#[test]
fn lowest_bit_of_one_byte() {
    assert_eq!(drain(&[1u8]), vec![0usize]);
    assert_eq!(BitIterator::new(&[1u8]).collect(), vec![0usize]);
}

#[test]
fn highest_bit_of_one_byte() {
    assert_eq!(drain(&[128u8]), vec![7usize]);
    assert_eq!(BitIterator::new(&[128u8]).collect(), vec![7usize]);
}

#[test]
fn each_single_bit_of_one_byte() {
    let mut k: usize = 0;
    while k < 8 {
        let data: [u8; 1] = [1u8 << k];
        assert_eq!(drain(&data), vec![k]);
        k += 1;
    }
}

#[test]
fn rotating_bit_over_four_bytes() {
    assert_eq!(drain(&[1u8, 2, 4, 8]), vec![0usize, 9, 18, 27]);
    assert_eq!(BitIterator::new(&[1u8, 2, 4, 8]).collect(), vec![0usize, 9, 18, 27]);
}

#[test]
fn position_is_eight_times_index_plus_offset() {
    assert_eq!(drain(&[0u8, 0, 0x10]), vec![20usize]);
    assert_eq!(drain(&[0u8, 0x80, 0, 0x01]), vec![15usize, 24]);
    assert_eq!(drain(&[0u8, 0, 0, 0, 0, 0x20]), vec![45usize]);
}

#[test]
fn full_byte_lists_all_eight() {
    assert_eq!(drain(&[0xffu8]), vec![0usize, 1, 2, 3, 4, 5, 6, 7]);
    assert_eq!(
        drain(&[0xffu8, 0xff]),
        vec![0usize, 1, 2, 3, 4, 5, 6, 7, 8, 9, 10, 11, 12, 13, 14, 15]
    );
}

#[test]
fn least_significant_bit_comes_first() {
    assert_eq!(drain(&[0b1000_0001u8]), vec![0usize, 7]);
    assert_eq!(drain(&[0b0000_0110u8, 0b0100_0000]), vec![1usize, 2, 14]);
}

#[test]
fn produced_positions_ascend_strictly() {
    let inputs: [&[u8]; 5] = [
        &[0xff, 0x00, 0xa5],
        &[0x80, 0x01],
        &[0x55, 0xaa, 0x55, 0xaa],
        &[0x00, 0x00, 0xff],
        &[0x13, 0x37, 0xc0, 0xde, 0x80],
    ];
    for data in inputs {
        let got: Vec<usize> = drain(data);
        let mut i: usize = 1;
        while i < got.len() {
            assert!(got[i - 1] < got[i]);
            i += 1;
        }
    }
}

#[test]
fn produced_positions_are_exactly_the_set_bits() {
    let inputs: [&[u8]; 6] = [
        &[],
        &[0x00],
        &[0xff, 0x00, 0xa5],
        &[0x55, 0xaa, 0x55, 0xaa],
        &[0x13, 0x37, 0xc0, 0xde, 0x80],
        &[0x80, 0x00, 0x00, 0x00, 0x00, 0x00, 0x00, 0x00, 0x80],
    ];
    for data in inputs {
        let got: Vec<usize> = drain(data);
        assert_eq!(got, expected(data));
        let mut p: usize = 0;
        while p < data.len() * 8 {
            let set: bool = (data[p / 8] >> (p % 8)) & 1 == 1;
            let times: usize = got.iter().filter(|q| **q == p).count();
            assert_eq!(times, if set { 1 } else { 0 });
            p += 1;
        }
        assert!(got.iter().all(|q| *q < data.len() * 8));
    }
}

#[test]
fn every_single_byte_value() {
    let mut b: u16 = 0;
    while b < 256 {
        let data: [u8; 2] = [0, b as u8];
        let got: Vec<usize> = drain(&data);
        assert_eq!(got, expected(&data));
        assert_eq!(got.len(), (b as u8).count_ones() as usize);
        b += 1;
    }
}

#[test]
fn collect_agrees_with_repeated_requests() {
    let data: [u8; 5] = [0x13, 0x37, 0xc0, 0xde, 0x80];
    assert_eq!(BitIterator::new(&data).collect(), drain(&data));
    assert_eq!(
        BitIterator::new(&data).collect(),
        vec![0usize, 1, 4, 8, 9, 10, 12, 13, 22, 23, 25, 26, 27, 28, 30, 31, 39]
    );
}

#[test]
fn collect_gives_what_is_left() {
    let data: [u8; 4] = [1, 2, 4, 8];
    let mut it = BitIterator::new(&data);
    assert_eq!(it.next(), Some(0));
    assert_eq!(it.next(), Some(9));
    assert_eq!(it.collect(), vec![18usize, 27]);
}

#[test]
fn end_to_end_scenario() {
    let mut a: Vec<u8> = vec![1u8, 2, 4, 8];
    let collected: Vec<usize> = BitIterator::new(&a).collect();
    assert_eq!(collected, vec![0usize, 9, 18, 27]);
    let mut pending_changes: Vec<u8> = Vec::new();
    for pos in collected {
        pending_changes.push(pos as u8);
    }
    for change in pending_changes {
        a.push(change);
    }
    assert_eq!(a, vec![1u8, 2, 4, 8, 0, 9, 18, 27]);
}
