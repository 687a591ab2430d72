use dft::complex::Complex;

fn c(re: i64, im: i64) -> Complex<i64> {
    Complex { re, im }
}

#[test]
fn unpack() {
    let data = (0..4).map(|i| (i + 1) as i64).collect::<Vec<_>>();
    assert_eq!(dft::unpack::unpack(&data), vec![c(1, 0), c(3, 4), c(2, 0), c(3, -4)]);

    let data = (0..8).map(|i| (i + 1) as i64).collect::<Vec<_>>();
    assert_eq!(
        dft::unpack::unpack(&data),
        vec![c(1, 0), c(3, 4), c(5, 6), c(7, 8), c(2, 0), c(7, -8), c(5, -6), c(3, -4)]
    );
}

#[test]
fn unpack_two_points() {
    assert_eq!(dft::unpack::unpack(&[5i64, -7]), vec![c(5, 0), c(-7, 0)]);
}

#[test]
fn unpack_mirrors_by_conjugation() {
    let data: Vec<i64> = vec![3, -1, 4, 1, -5, 9, 2, -6, 5, 3, -5, 8, 9, 7, -9, 3];
    let n = data.len();
    let full = dft::unpack::unpack(&data);
    assert_eq!(full.len(), n);
    assert_eq!(full[0].im, 0);
    assert_eq!(full[n / 2].im, 0);
    for i in 1..n {
        assert_eq!(full[n - i], full[i].conj());
    }
    assert_eq!(full[0], c(3, 0));
    assert_eq!(full[n / 2], c(-1, 0));
    assert_eq!(full[3], c(2, -6));
    assert_eq!(full[13], c(2, 6));
}

#[test]
fn unpack_leaves_input_alone() {
    let data: Vec<i64> = vec![1, 2, 3, 4];
    let _ = dft::unpack::unpack(&data);
    assert_eq!(data, vec![1, 2, 3, 4]);
}
