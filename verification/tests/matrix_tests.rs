use pathtracer::matrix::{Matrix, Vector};

type Matrix4i = Matrix<i64, 4, 4>;
type Vector3 = Vector<i64, 3>;

fn mat4(rows: [[i64; 4]; 4]) -> Matrix4i {
    Matrix4i::new(rows.iter().map(|r| r.to_vec()).collect())
}

#[test]
fn test_multiply_by_scalar() {
    let m = mat4([
        [1, 2, 3, 4],
        [5, 6, 7, 8],
        [9, 10, 11, 12],
        [13, 14, 15, 16],
    ]);
    let expected = mat4([
        [2, 4, 6, 8],
        [10, 12, 14, 16],
        [18, 20, 22, 24],
        [26, 28, 30, 32],
    ]);
    assert_eq!(m.scale(2), expected);
}

#[test]
fn test_multiply_two_identity_matrices() {
    let a = Matrix4i::identity();
    let b = Matrix4i::identity();
    assert_eq!(a.matmul(&b), Matrix4i::identity());
}

#[test]
fn test_transpose() {
    let m = mat4([
        [1, 2, 3, 4],
        [5, 6, 7, 8],
        [9, 10, 11, 12],
        [13, 14, 15, 16],
    ]);
    let expected = mat4([
        [1, 5, 9, 13],
        [2, 6, 10, 14],
        [3, 7, 11, 15],
        [4, 8, 12, 16],
    ]);
    assert_eq!(m.transpose(), expected);
}

#[test]
fn test_multiply_two_matrices() {
    let a = mat4([
        [1, 2, 3, 4],
        [5, 6, 7, 8],
        [9, 10, 11, 12],
        [13, 14, 15, 16],
    ]);
    let b = mat4([
        [17, 18, 19, 20],
        [21, 22, 23, 24],
        [25, 26, 27, 28],
        [29, 30, 31, 32],
    ]);
    let expected = mat4([
        [250, 260, 270, 280],
        [618, 644, 670, 696],
        [986, 1028, 1070, 1112],
        [1354, 1412, 1470, 1528],
    ]);
    assert_eq!(a.matmul(&b), expected);
}

#[test]
fn test_identity() {
    let m = Matrix4i::identity();
    let expected = mat4([
        [1, 0, 0, 0],
        [0, 1, 0, 0],
        [0, 0, 1, 0],
        [0, 0, 0, 1],
    ]);
    assert_eq!(m, expected);
}

#[test]
fn test_dot() {
    let a = Vector3::xyz(1, 2, 3);
    let b = Vector3::xyz(4, 5, 6);
    assert_eq!(a.dot(&b), 32);
}

#[test]
fn test_add_matrices() {
    let a = mat4([
        [1, 2, 3, 4],
        [5, 6, 7, 8],
        [9, 10, 11, 12],
        [13, 14, 15, 16],
    ]);
    let b = mat4([
        [17, 18, 19, 20],
        [21, 22, 23, 24],
        [25, 26, 27, 28],
        [29, 30, 31, 32],
    ]);
    let expected = mat4([
        [18, 20, 22, 24],
        [26, 28, 30, 32],
        [34, 36, 38, 40],
        [42, 44, 46, 48],
    ]);
    assert_eq!(a.plus(&b), expected);
}

#[test]
fn test_add_two_vectors() {
    let a = Vector3::xyz(1, 2, 3);
    let b = Vector3::xyz(4, 5, 6);
    let expected = Vector3::xyz(5, 7, 9);
    assert_eq!(a.plus(&b), expected);
}

#[test]
fn test_subtract_two_vectors() {
    let a = Vector3::xyz(1, 2, 3);
    let b = Vector3::xyz(4, 5, 6);
    let expected = Vector3::xyz(-3, -3, -3);
    assert_eq!(a.minus(&b), expected);
}

#[test]
fn test_cross_of_axes() {
    let x = Vector3::xyz(1, 0, 0);
    let y = Vector3::xyz(0, 1, 0);
    assert_eq!(x.cross(&y), Vector3::xyz(0, 0, 1));
    assert_eq!(y.cross(&x), Vector3::xyz(0, 0, -1));
}

#[test]
fn test_cross_general() {
    let a = Vector3::xyz(1, 2, 3);
    let b = Vector3::xyz(4, 5, 6);
    assert_eq!(a.cross(&b), Vector3::xyz(-3, 6, -3));
}

#[test]
fn test_homogeneous() {
    let v = Vector3::xyz(7, 8, 9);
    let h = v.homogeneous();
    assert_eq!(h.at(0, 0), 7);
    assert_eq!(h.at(1, 0), 8);
    assert_eq!(h.at(2, 0), 9);
    assert_eq!(h.at(3, 0), 1);
}

#[test]
fn test_getters() {
    let v = Vector3::xyz(10, 20, 30);
    assert_eq!(v.x(), 10);
    assert_eq!(v.y(), 20);
    assert_eq!(v.z(), 30);
    let p = Vector::<i64, 2>::xy(-4, 11);
    assert_eq!(p.x(), -4);
    assert_eq!(p.y(), 11);
}

#[test]
fn test_zeros_and_set() {
    let mut m = Matrix::<i64, 2, 3>::zeros();
    for i in 0..2 {
        for j in 0..3 {
            assert_eq!(m.at(i, j), 0);
        }
    }
    m.set_at(1, 2, 42);
    assert_eq!(m.at(1, 2), 42);
    assert_eq!(m.at(0, 2), 0);
    assert_eq!(m.at(1, 1), 0);
}

#[test]
fn test_cast_widens() {
    let rows = vec![vec![1i32, -2], vec![3, -4]];
    let m = Matrix::<i32, 2, 2>::new(rows);
    let w: Matrix<i64, 2, 2> = m.cast();
    assert_eq!(w, Matrix::<i64, 2, 2>::new(vec![vec![1i64, -2], vec![3, -4]]));
}

#[test]
fn test_transpose_rectangular() {
    let m = Matrix::<i64, 2, 3>::new(vec![vec![1, 2, 3], vec![4, 5, 6]]);
    let t = m.transpose();
    assert_eq!(t, Matrix::<i64, 3, 2>::new(vec![vec![1, 4], vec![2, 5], vec![3, 6]]));
}

#[test]
fn test_matmul_rectangular() {
    let a = Matrix::<i64, 2, 3>::new(vec![vec![1, 2, 3], vec![4, 5, 6]]);
    let b = Matrix::<i64, 3, 2>::new(vec![vec![7, 8], vec![9, 10], vec![11, 12]]);
    let p = a.matmul(&b);
    assert_eq!(p, Matrix::<i64, 2, 2>::new(vec![vec![58, 64], vec![139, 154]]));
}

#[test]
fn test_add_in_place() {
    let mut a = Vector3::xyz(1, 2, 3);
    let b = Vector3::xyz(10, 20, 30);
    a.add_in_place(&b);
    assert_eq!(a, Vector3::xyz(11, 22, 33));
}
