use lipsi::{Fundamentals, PcSet, SetAnalysis, SetOperations};

#[test]
fn aliases_and_compositions() {
    let x: PcSet = vec![1, 2, 3];
    assert_eq!(x.i(), vec![11, 10, 9]);
    assert_eq!(x.t(4), vec![5, 6, 7]);
    assert_eq!(x.tni(4), vec![3, 2, 1]);
    assert_eq!(x.ixy(4, 5), vec![8, 7, 6]);
}

#[test]
fn ixy_with_a_large_axis() {
    let x: PcSet = vec![0, 1];
    assert_eq!(x.ixy(127, 127), vec![2, 1]);
    assert_eq!(x.ixy(-128, -128), vec![8, 7]);
}

#[test]
fn raw_values_are_reduced() {
    let x: PcSet = vec![13, -1, 24];
    assert_eq!(x.invert(), vec![11, 1, 0]);
    assert_eq!(x.transpose(0), vec![1, 11, 0]);
    assert_eq!(x.transpose(-128), vec![5, 3, 4]);
    let y: PcSet = vec![-128, 127];
    assert_eq!(y.zero(), vec![0, 3]);
    assert_eq!(y.intervals(), vec![3, 0]);
}

#[test]
fn chroma_examples() {
    let x: PcSet = vec![1, 2, 3];
    assert_eq!(x.chroma(), 14);
    let all: PcSet = (0..12).collect();
    assert_eq!(all.chroma(), 4095);
    let none: PcSet = vec![];
    assert_eq!(none.chroma(), 0);
    let raw: PcSet = vec![13, 11, 11];
    assert_eq!(raw.chroma(), 2048);
}

#[test]
fn complement_examples() {
    let x: PcSet = vec![1, 2, 3];
    assert_eq!(x.complement(), vec![0, 4, 5, 6, 7, 8, 9, 10, 11]);
    let none: PcSet = vec![];
    assert_eq!(none.complement(), (0..12).collect::<PcSet>());
}

#[test]
fn empty_sets_stay_empty() {
    let e: PcSet = vec![];
    assert_eq!(e.invert(), e);
    assert_eq!(e.sort(), e);
    assert_eq!(e.rotate(3), e);
    assert_eq!(e.zero(), e);
    assert_eq!(e.normal(), e);
    assert_eq!(e.reduced(), e);
    assert_eq!(e.prime(), e);
    assert_eq!(e.intervals(), Vec::<i8>::new());
    assert_eq!(e.retrograde(), e);
}

#[test]
fn sort_keeps_repeats() {
    let x: PcSet = vec![5, -3, 5, 0, 11, 0];
    assert_eq!(x.sort(), vec![-3, 0, 0, 5, 5, 11]);
}

#[test]
fn rotate_wraps_around() {
    let x: PcSet = vec![1, 2, 3];
    assert_eq!(x.rotate(0), vec![2, 3, 1]);
    assert_eq!(x.rotate(2), vec![1, 2, 3]);
    assert_eq!(x.rotate(4), vec![3, 1, 2]);
    assert_eq!(x.rotate(usize::MAX), vec![2, 3, 1]);
}

#[test]
fn normal_drops_repeats_and_breaks_ties_by_first_rotation() {
    let x: PcSet = vec![7, 0, 7, 0];
    assert_eq!(x.normal(), vec![7, 0]);
    let aug: PcSet = vec![4, 0, 8];
    assert_eq!(aug.normal(), vec![0, 4, 8]);
}

#[test]
fn normal_ignores_rotation() {
    let s: PcSet = vec![2, 1, 3, 7, 6];
    for k in 0..7 {
        assert_eq!(s.rotate(k).normal(), vec![1, 2, 3, 6, 7]);
    }
}

#[test]
fn invert_twice_gives_back_the_set() {
    let s: PcSet = vec![0, 5, 11, 3];
    assert_eq!(s.invert().invert(), s);
}

#[test]
fn transpose_there_and_back() {
    let s: PcSet = vec![0, 5, 11, 3];
    assert_eq!(s.transpose(7).transpose(-7), s);
    let raw: PcSet = vec![14, -1];
    assert_eq!(raw.transpose(-128).transpose(127).transpose(1), vec![2, 11]);
}

#[test]
fn prime_ignores_inversion() {
    let s: PcSet = vec![0, 3, 7];
    assert_eq!(s.prime(), vec![0, 3, 7]);
    assert_eq!(s.invert().prime(), vec![0, 3, 7]);
    let t: PcSet = vec![11, 2, 7];
    assert_eq!(t.prime(), t.invert().prime());
}

#[test]
fn reduced_form_starts_at_zero() {
    let s: PcSet = vec![9, 1, 5];
    assert_eq!(s.reduced(), vec![0, 4, 8]);
    let t: PcSet = vec![7, 3];
    assert_eq!(t.reduced()[0], 0);
}

#[test]
fn icvec_examples() {
    let x: PcSet = vec![1, 2, 3];
    assert_eq!(x.icvec(), [2, 1, 0, 0, 0, 0]);
    let dim: PcSet = vec![0, 3, 6, 9];
    assert_eq!(dim.icvec(), [0, 0, 4, 0, 0, 2]);
    assert_eq!(dim.icvec().iter().sum::<usize>(), 6);
    let down: PcSet = vec![5, 1];
    assert_eq!(down.icvec(), [0, 0, 0, 1, 0, 0]);
}

#[test]
fn icvec_skips_pairs_of_one_residue() {
    let x: PcSet = vec![0, 0, 1];
    assert_eq!(x.icvec(), [2, 0, 0, 0, 0, 0]);
    let y: PcSet = vec![0, 12];
    assert_eq!(y.icvec(), [0, 0, 0, 0, 0, 0]);
}

#[test]
fn ivec_examples() {
    let x: PcSet = vec![1, 2, 3];
    assert_eq!(x.ivec(), [0, 0, 1, 2, 3, 2, 1, 0, 0, 0, 0, 0]);
    let raw: PcSet = vec![-1, 5];
    assert_eq!(raw.ivec(), [0, 0, 0, 0, 2, 0, 0, 0, 0, 0, 2, 0]);
    let s: PcSet = vec![0, 0, 4, 9, 9];
    assert_eq!(s.ivec().iter().sum::<usize>(), 25);
}

#[test]
fn relation_numbers() {
    let x: PcSet = vec![1, 2, 3];
    let y: PcSet = vec![5, 6, 7];
    assert_eq!(x.transposition_number(&y), Some(4));
    assert_eq!(y.transposition_number(&x), Some(8));
    let z: PcSet = vec![3, 2, 1];
    assert_eq!(x.index_number(&z), Some(4));
}

#[test]
fn relation_numbers_absent() {
    let x: PcSet = vec![1, 2, 3];
    let shorter: PcSet = vec![1, 2];
    let e: PcSet = vec![];
    let unrelated: PcSet = vec![1, 2, 4];
    assert_eq!(x.transposition_number(&shorter), None);
    assert_eq!(e.transposition_number(&e), None);
    assert_eq!(x.transposition_number(&unrelated), None);
    assert_eq!(x.index_number(&shorter), None);
    assert_eq!(e.index_number(&e), None);
    assert_eq!(x.index_number(&unrelated), None);
}

#[test]
fn relation_numbers_on_raw_values() {
    let x: PcSet = vec![-128, 127];
    let y: PcSet = vec![-125, 118];
    assert_eq!(x.transposition_number(&y), Some(3));
    let z: PcSet = vec![127, -128];
    assert_eq!(x.transposition_number(&z), None);
    assert_eq!(x.index_number(&z), Some(11));
}

#[test]
fn prime_of_raw_values_with_shared_residues() {
    let s: PcSet = vec![-3, -2, 9];
    assert_eq!(s.normal(), vec![-3, -2, 9]);
    assert_eq!(s.prime(), vec![0, 1, 0]);
    assert_eq!(s.invert().prime(), vec![0, 1]);
}
