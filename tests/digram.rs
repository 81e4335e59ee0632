use bytes_view::{
    byte_pairs, digram_intensities, intensity, normalize, Histogram, Intensity, PairExtractor,
    CELLS, SIDE,
};

fn cell(first: u8, second: u8) -> usize {
    first as usize + SIDE * second as usize
}

fn to_unit(v: Intensity) -> f64 {
    match v {
        Intensity::Zero => 0.0,
        Intensity::Full => 1.0,
        Intensity::Scaled { count, max } => (count as f64).log2() / (max as f64).log2(),
    }
}

#[test]
fn pair_count_is_length_minus_one() {
    for n in 0usize..6 {
        let bytes: Vec<u8> = (0..n as u8).collect();
        let pairs = byte_pairs(&bytes);
        assert_eq!(pairs.len(), n.saturating_sub(1));
    }
}

#[test]
fn pairs_overlap() {
    let pairs = byte_pairs(&[10, 20, 30, 40]);
    assert_eq!(pairs, vec![(10, 20), (20, 30), (30, 40)]);
    assert_ne!(pairs, vec![(10, 20), (30, 40)]);
}

#[test]
fn extractor_streams_the_same_pairs() {
    let bytes = [7u8, 3, 3, 9, 0];
    let mut ex = PairExtractor::new();
    let mut streamed = Vec::new();
    for &b in bytes.iter() {
        if let Some(p) = ex.push(b) {
            streamed.push(p);
        }
    }
    assert_eq!(streamed, byte_pairs(&bytes));
    let mut first = PairExtractor::new();
    assert_eq!(first.push(1), None);
    assert_eq!(first.push(2), Some((1, 2)));
}

#[test]
fn histogram_sum_is_pair_count() {
    let bytes: Vec<u8> = (0..1000u32).map(|i| (i * 37 % 251) as u8).collect();
    let h = Histogram::from_bytes(&bytes);
    let sum: u64 = (0..CELLS).map(|i| h.cell(i)).sum();
    assert_eq!(sum, 999);
    assert_eq!(h.total(), 999);
    let empty = Histogram::from_bytes(&[]);
    assert_eq!(empty.total(), 0);
    assert_eq!((0..CELLS).map(|i| empty.cell(i)).sum::<u64>(), 0);
}

#[test]
fn row_is_first_byte_column_is_second() {
    let h = Histogram::from_bytes(&[1, 2]);
    assert_eq!(h.count(1, 2), 1);
    assert_eq!(h.count(2, 1), 0);
    assert_eq!(h.cell(1 + 256 * 2), 1);
    assert_eq!(h.cell(2 + 256 * 1), 0);
}

#[test]
fn streaming_counts_match_batch_counts() {
    let bytes = [0u8, 255, 0, 255, 255, 4];
    let mut ex = PairExtractor::new();
    let mut h = Histogram::new();
    for &b in bytes.iter() {
        if let Some((f, s)) = ex.push(b) {
            h.add(f, s);
        }
    }
    let batch = Histogram::from_bytes(&bytes);
    for i in 0..CELLS {
        assert_eq!(h.cell(i), batch.cell(i));
    }
    assert_eq!(h.count(0, 255), 2);
    assert_eq!(h.count(255, 0), 1);
    assert_eq!(h.count(255, 255), 1);
    assert_eq!(h.count(255, 4), 1);
    assert_eq!(h.total(), 5);
}

#[test]
fn max_count_is_largest_cell() {
    let h = Histogram::from_bytes(&[9, 9, 9, 9, 1, 2]);
    assert_eq!(h.max_count(), 3);
    assert_eq!(Histogram::new().max_count(), 0);
}

#[test]
fn empty_source_gives_all_zero() {
    let m = digram_intensities(&[]);
    assert_eq!(m.len(), CELLS);
    assert!(m.iter().all(|&v| v == Intensity::Zero));
    assert!(m.iter().all(|&v| to_unit(v) == 0.0));
    let one = digram_intensities(&[42]);
    assert!(one.iter().all(|&v| v == Intensity::Zero));
}

#[test]
fn single_pair_dominant() {
    let bytes = [0x05u8, 0x05, 0x05];
    assert_eq!(byte_pairs(&bytes), vec![(5, 5), (5, 5)]);
    let h = Histogram::from_bytes(&bytes);
    assert_eq!(h.count(5, 5), 2);
    assert_eq!(h.total(), 2);
    let m = normalize(&h);
    for i in 0..CELLS {
        if i == cell(5, 5) {
            assert_eq!(m[i], Intensity::Full);
            assert_eq!(to_unit(m[i]), 1.0);
        } else {
            assert_eq!(m[i], Intensity::Zero);
            assert_eq!(to_unit(m[i]), 0.0);
        }
    }
}

#[test]
fn alternating_pairs() {
    let bytes = [0x00u8, 0x01, 0x00, 0x01];
    assert_eq!(byte_pairs(&bytes), vec![(0, 1), (1, 0), (0, 1)]);
    let h = Histogram::from_bytes(&bytes);
    assert_eq!(h.count(0, 1), 2);
    assert_eq!(h.count(1, 0), 1);
    let m = digram_intensities(&bytes);
    for i in 0..CELLS {
        if i == cell(0, 1) {
            assert_eq!(to_unit(m[i]), 1.0);
        } else {
            assert_eq!(m[i], Intensity::Zero);
            assert_eq!(to_unit(m[i]), 0.0);
        }
    }
}

#[test]
fn lone_pair_is_full() {
    let m = digram_intensities(&[3, 4]);
    assert_eq!(m[cell(3, 4)], Intensity::Full);
    assert_eq!(m.iter().filter(|&&v| v != Intensity::Zero).count(), 1);
}

#[test]
fn scaled_cell_is_ratio_of_logs() {
    // (0,0) four times, (0,1) once, (1,1) twice
    let m = digram_intensities(&[0, 0, 0, 0, 0, 1, 1, 1]);
    assert_eq!(m[cell(0, 0)], Intensity::Full);
    assert_eq!(m[cell(0, 1)], Intensity::Zero);
    assert_eq!(m[cell(1, 1)], Intensity::Scaled { count: 2, max: 4 });
    assert_eq!(to_unit(m[cell(1, 1)]), 0.5);
}

#[test]
fn intensity_rule() {
    assert_eq!(intensity(0, 0), Intensity::Zero);
    assert_eq!(intensity(0, 7), Intensity::Zero);
    assert_eq!(intensity(1, 1), Intensity::Full);
    assert_eq!(intensity(1, 5), Intensity::Zero);
    assert_eq!(intensity(3, 5), Intensity::Scaled { count: 3, max: 5 });
    assert_eq!(intensity(5, 5), Intensity::Full);
}

#[test]
fn every_cell_in_unit_range() {
    let bytes: Vec<u8> = (0..5000u32).map(|i| ((i * i + 7 * i) % 253) as u8).collect();
    let m = digram_intensities(&bytes);
    assert_eq!(m.len(), CELLS);
    for &v in m.iter() {
        if let Intensity::Scaled { count, max } = v {
            assert!(2 <= count && count < max);
        }
        let x = to_unit(v);
        assert!(x.is_finite());
        assert!((0.0..=1.0).contains(&x));
    }
}

#[test]
fn pipeline_is_deterministic() {
    let bytes: Vec<u8> = (0..3000u32).map(|i| (i * 131 % 256) as u8).collect();
    let a = digram_intensities(&bytes);
    let b = digram_intensities(&bytes);
    assert_eq!(a, b);
    let fa: Vec<u64> = a.iter().map(|&v| to_unit(v).to_bits()).collect();
    let fb: Vec<u64> = b.iter().map(|&v| to_unit(v).to_bits()).collect();
    assert_eq!(fa, fb);
}
