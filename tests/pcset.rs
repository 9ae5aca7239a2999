use lipsi::{Fundamentals, PcSet, SetAnalysis, SetOperations};

#[test]
fn invert() {
    let w: PcSet = vec![0, 2, 4, 8];
    assert_eq!(w.invert(), vec![0, 10, 8, 4]);
    let x: PcSet = vec![1, 2, 3];
    assert_eq!(x.invert(), vec![11, 10, 9]);
    let y: PcSet = vec![0, 4, 6, 8];
    assert_eq!(y.invert(), vec![0, 8, 6, 4]);
    let z: PcSet = vec![8, 0, 4, 6];
    assert_eq!(z.invert(), vec![4, 0, 8, 6]);
}

#[test]
fn transpose() {
    let x: PcSet = vec![1, 2, 3];
    assert_eq!(x.transpose(-14), vec![11, 0, 1]);
}

#[test]
fn chroma() {
    let x: PcSet = vec![0, 2, 4];
    assert_eq!(x.chroma(), 21);
    let y: PcSet = vec![0];
    assert_eq!(y.chroma(), 1);
}

#[test]
fn complement() {
    let x: PcSet = vec![0, 1, 2, 3, 4, 5, 6, 7];
    assert_eq!(x.complement(), vec![8, 9, 10, 11]);
}

#[test]
fn retrograde() {
    let x: PcSet = vec![0, 1, 2];
    assert_eq!(x.retrograde(), vec![2, 1, 0]);
}

#[test]
fn sort() {
    let x: PcSet = vec![3, 1, 2];
    assert_eq!(x.sort(), vec![1, 2, 3]);
}

#[test]
fn rotate() {
    let x: PcSet = vec![1, 2, 3];
    assert_eq!(x.rotate(1), vec![3, 1, 2]);
    assert_eq!(x, vec![1, 2, 3]);
}

#[test]
fn zero() {
    let x: PcSet = vec![1, 2, 3];
    assert_eq!(x.zero(), vec![0, 1, 2]);
    let y: PcSet = vec![0, 1, 2];
    assert_eq!(y.zero(), vec![0, 1, 2]);
}

#[test]
fn normal() {
    let x: PcSet = vec![8, 0, 4, 6];
    assert_eq!(x.normal(), vec![4, 6, 8, 0]);
    let y: PcSet = vec![2, 1, 3, 7, 6];
    assert_eq!(y.normal(), vec![1, 2, 3, 6, 7]);
    assert_eq!(x, vec![8, 0, 4, 6]);
    assert_eq!(y, vec![2, 1, 3, 7, 6]);
}

#[test]
fn reduced() {
    let x: PcSet = vec![2, 1, 3, 7, 6];
    assert_eq!(x.reduced(), vec![0, 1, 2, 5, 6]);
}

#[test]
fn prime() {
    let v: PcSet = vec![0, 4, 6, 8];
    assert_eq!(v.prime(), vec![0, 2, 4, 8]);
    let w: PcSet = vec![8, 0, 4, 6];
    assert_eq!(w.prime(), vec![0, 2, 4, 8]);
    let x: PcSet = vec![1, 5, 6, 7];
    assert_eq!(x.prime(), vec![0, 1, 2, 6]);
    let y: PcSet = vec![3, 4, 5];
    assert_eq!(y.prime(), vec![0, 1, 2]);
    let z: PcSet = vec![2, 4, 8, 9];
    assert_eq!(z.prime(), vec![0, 1, 5, 7]);
}

#[test]
fn icvec() {
    let v: PcSet = vec![0, 2, 4, 5, 7, 9, 11];
    assert_eq!(v.icvec(), [2, 5, 4, 3, 6, 1]);
}

#[test]
fn ivec() {
    let x: PcSet = vec![8, 9, 0];
    assert_eq!(x.ivec(), [1, 0, 0, 0, 1, 2, 1, 0, 2, 2, 0, 0]);
    let y: PcSet = vec![0, 3, 4];
    assert_eq!(y.ivec(), [1, 0, 0, 2, 2, 0, 1, 2, 1, 0, 0, 0]);
}

#[test]
fn intervals() {
    let x: PcSet = vec![4, 9, 3];
    assert_eq!(x.intervals(), vec![11, 5, 0]);
}

#[test]
fn index_number() {
    let x: PcSet = vec![7, 8, 11];
    let y: PcSet = vec![5, 4, 1];
    assert_eq!(x.index_number(&y), Some(0));
    assert_eq!(x.tni(0), y);
    let z: PcSet = vec![11, 10, 7];
    assert_eq!(x.index_number(&z), Some(6));
    assert_eq!(x.tni(6), z);
}

#[test]
fn transposition_number() {
    let x: PcSet = vec![1, 3, 4, 7];
    let y: PcSet = vec![5, 7, 8, 11];
    assert_eq!(x.transposition_number(&y), Some(4));
    assert_eq!(x.transpose(4), y);
}
