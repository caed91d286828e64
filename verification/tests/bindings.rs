use stwo_cuda::bindings::{CirclePoint, CirclePointBaseField, CirclePointSecureField, CudaSecureField, LayerIndexPair};
use stwo_cuda::column::{BaseFieldVec, SecureColumnByCoords, SecureFieldVec};
use stwo_cuda::fields::{BaseField, SecureField, M31, QM31};

#[test]
fn zero_has_zero_coordinates() {
    let z = CudaSecureField::zero();
    assert_eq!(z, CudaSecureField { a: M31(0), b: M31(0), c: M31(0), d: M31(0) });
}

#[test]
fn secure_field_device_layout_roundtrip() {
    let x = SecureField::from_u32_unchecked(1, 2, 3, 4);
    let c = CudaSecureField::from(x);
    assert_eq!(c, CudaSecureField { a: M31(1), b: M31(2), c: M31(3), d: M31(4) });
    assert_eq!(SecureField::from(c), x);
    assert_eq!(x.to_m31_array(), [M31(1), M31(2), M31(3), M31(4)]);
}

#[test]
fn circle_points_in_device_layout() {
    let p = CirclePoint { x: M31(5), y: M31(6) };
    assert_eq!(CirclePointBaseField::from(p), CirclePointBaseField { x: M31(5), y: M31(6) });
    let q = CirclePoint { x: QM31::from_u32_unchecked(1, 2, 3, 4), y: QM31::from_u32_unchecked(5, 6, 7, 8) };
    let d = CirclePointSecureField::from(q);
    assert_eq!(d.y, CudaSecureField { a: M31(5), b: M31(6), c: M31(7), d: M31(8) });
    let pair = LayerIndexPair { layer_idx: 1, hash_idx: 2 };
    assert_eq!(pair.hash_idx, 2);
}

#[test]
fn base_field_reduces_modulo_p() {
    assert_eq!(BaseField::from(2147483647u32), M31(0));
    assert_eq!(BaseField::from(2147483650usize), M31(3));
    assert_eq!(M31::reduce(u64::MAX), M31(3));
}

#[test]
fn secure_column_by_coords_to_vec() {
    let col = SecureColumnByCoords {
        columns: [
            BaseFieldVec::from_vec(vec![M31(1), M31(5)]),
            BaseFieldVec::from_vec(vec![M31(2), M31(6)]),
            BaseFieldVec::from_vec(vec![M31(3), M31(7)]),
            BaseFieldVec::from_vec(vec![M31(4), M31(8), M31(9)]),
        ],
    };
    assert_eq!(col.to_vec(), vec![QM31::from_u32_unchecked(1, 2, 3, 4), QM31::from_u32_unchecked(5, 6, 7, 8)]);
}

#[test]
fn columns_of_zeros_and_updates() {
    let mut c = BaseFieldVec::zeros(3);
    c.set(1, M31(9));
    assert_eq!(c.to_cpu(), vec![M31(0), M31(9), M31(0)]);
    let s = SecureFieldVec::zeros(2);
    assert_eq!(s.at(1), QM31::from_u32_unchecked(0, 0, 0, 0));
}
