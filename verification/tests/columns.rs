use stwo_cuda::column::{BaseFieldVec, Blake2sHashVec, ColumnOps, CudaBackend, SecureFieldVec};
use stwo_cuda::hash::Blake2sHash;
use stwo_cuda::fields::{BaseField, SecureField};

/// Bit-reverses a power-of-two-length slice in place, the plain way.
fn reference_bit_reverse<T>(v: &mut [T]) {
    let n = v.len();
    let log_n = n.ilog2();
    for i in 0..n {
        let j = if log_n == 0 { 0 } else { i.reverse_bits() >> (usize::BITS - log_n) };
        if i < j {
            v.swap(i, j);
        }
    }
}

#[test]
fn test_bit_reverse_base_field() {
    let size: usize = 1 << 10;
    let column_data = (0..size as u32).map(BaseField::from).collect::<Vec<_>>();
    let mut expected_result = column_data.clone();
    reference_bit_reverse(&mut expected_result);

    let mut column = BaseFieldVec::from_vec(column_data);
    <CudaBackend as ColumnOps<BaseField>>::bit_reverse_column(&mut column);

    assert_eq!(column.to_cpu(), expected_result);
}

#[test]
fn test_bit_reverse_secure_field() {
    let size: usize = 1 << 16;

    let from_raw = (1..(size + 1) as u32).collect::<Vec<u32>>();
    let from_cpu = from_raw
        .chunks(4)
        .map(|a| SecureField::from_u32_unchecked(a[0], a[1], a[2], a[3]))
        .collect::<Vec<_>>();
    let mut array_expected = from_cpu.clone();

    reference_bit_reverse(&mut array_expected);

    let mut array = SecureFieldVec::from_vec(from_cpu.clone());
    <CudaBackend as ColumnOps<SecureField>>::bit_reverse_column(&mut array);

    assert_eq!(array.to_cpu(), array_expected);
}

#[test]
fn bit_reverse_twice_restores_column() {
    let column_data = (0..16u32).map(BaseField::from).collect::<Vec<_>>();
    let mut column = BaseFieldVec::from_vec(column_data.clone());
    <CudaBackend as ColumnOps<BaseField>>::bit_reverse_column(&mut column);
    assert_eq!(column.at(1), BaseField::from(8u32));
    assert_eq!(column.at(3), BaseField::from(12u32));
    <CudaBackend as ColumnOps<BaseField>>::bit_reverse_column(&mut column);
    assert_eq!(column.to_cpu(), column_data);
}

#[test]
fn bit_reverse_of_single_element() {
    let mut column = BaseFieldVec::from_vec(vec![BaseField::from(7u32)]);
    <CudaBackend as ColumnOps<BaseField>>::bit_reverse_column(&mut column);
    assert_eq!(column.to_cpu(), vec![BaseField::from(7u32)]);
}

#[test]
fn batch_at_gathers_hashes_in_index_order() {
    let hashes: Vec<Blake2sHash> = (0..5u8).map(|i| Blake2sHash([i; 32])).collect();
    let column = Blake2sHashVec::from_vec(hashes.clone());
    let picked = column.batch_at(&[3, 0, 3, 4]);
    assert_eq!(picked, vec![hashes[3], hashes[0], hashes[3], hashes[4]]);
    assert!(column.batch_at(&[]).is_empty());
}
