use blake2::{Blake2s256, Digest};
use stwo_cuda::column::{BaseFieldVec, Blake2sHashVec, CudaBackend};
use stwo_cuda::fields::{BaseField, M31};
use stwo_cuda::hash::{Blake2sHash, Blake2sMerkleHasher};
use stwo_cuda::merkle::{build_leaves_path, LeavesPath, MerkleOps};

/// The layer computed on the host the plain way: each node hashes its two
/// children (if any) and its column values, little-endian.
fn reference_commit_on_layer(
    log_size: u32,
    prev_layer: Option<&Vec<Blake2sHash>>,
    columns: &[&Vec<BaseField>],
) -> Vec<Blake2sHash> {
    let size = 1usize << log_size;
    let mut out = Vec::with_capacity(size);
    let mut buf: Vec<u8> = Vec::with_capacity(64 + 4 * columns.len());
    for i in 0..size {
        buf.clear();
        if let Some(prev) = prev_layer {
            buf.extend_from_slice(&prev[2 * i].0);
            buf.extend_from_slice(&prev[2 * i + 1].0);
        }
        for column in columns {
            buf.extend_from_slice(&column[i].0.to_le_bytes());
        }
        out.push(Blake2sHash(Blake2s256::digest(&buf).into()));
    }
    out
}

fn gpu_columns_from(columns: &Vec<Vec<BaseField>>) -> Vec<BaseFieldVec> {
    columns.clone().into_iter().map(BaseFieldVec::from_vec).collect()
}

fn columns_test_vector(number_of_columns: usize, size_of_columns: usize) -> Vec<Vec<BaseField>> {
    (0..number_of_columns)
        .map(|index_of_column| {
            (0..size_of_columns)
                .map(|index_in_column| M31::from(index_in_column * index_of_column))
                .collect()
        })
        .collect()
}

#[test]
fn test_commit_on_first_layer_with_many_columns_compared_with_cpu() {
    let log_size = 16;
    let size = 1 << log_size;

    let cpu_columns_vector: Vec<Vec<BaseField>> = columns_test_vector(100, size);
    let gpu_columns_vector: Vec<BaseFieldVec> = gpu_columns_from(&cpu_columns_vector);

    let expected_result =
        reference_commit_on_layer(log_size, None, &cpu_columns_vector.iter().collect::<Vec<_>>());
    let result: Blake2sHashVec = <CudaBackend as MerkleOps<Blake2sMerkleHasher>>::commit_on_layer(
        log_size,
        None,
        &gpu_columns_vector.iter().collect::<Vec<_>>(),
    );

    assert_eq!(result.to_cpu(), expected_result);
}

#[test]
fn test_commit_on_layer_with_previous_layer_compared_with_cpu() {
    let current_layer_log_size = 10;
    let current_layer_size = 1 << current_layer_log_size;
    let previous_layer_log_size = current_layer_log_size + 1;
    let previous_layer_size = 1 << previous_layer_log_size;

    // First layer

    let cpu_columns_vector: Vec<Vec<BaseField>> = columns_test_vector(35, previous_layer_size);
    let gpu_columns_vector: Vec<BaseFieldVec> = gpu_columns_from(&cpu_columns_vector);

    let cpu_previous_layer = reference_commit_on_layer(
        previous_layer_log_size,
        None,
        &cpu_columns_vector.iter().collect::<Vec<_>>(),
    );
    let gpu_previous_layer: Blake2sHashVec = <CudaBackend as MerkleOps<Blake2sMerkleHasher>>::commit_on_layer(
        previous_layer_log_size,
        None,
        &gpu_columns_vector.iter().collect::<Vec<_>>(),
    );

    // Current layer

    let cpu_columns_vector: Vec<Vec<BaseField>> = columns_test_vector(16, current_layer_size);
    let gpu_columns_vector: Vec<BaseFieldVec> = gpu_columns_from(&cpu_columns_vector);

    let expected_result = reference_commit_on_layer(
        current_layer_log_size,
        Some(&cpu_previous_layer),
        &cpu_columns_vector.iter().collect::<Vec<_>>(),
    );
    let result: Blake2sHashVec = <CudaBackend as MerkleOps<Blake2sMerkleHasher>>::commit_on_layer(
        current_layer_log_size,
        Some(&gpu_previous_layer),
        &gpu_columns_vector.iter().collect::<Vec<_>>(),
    );

    assert_eq!(result.to_cpu(), expected_result);
}

#[test]
fn commit_on_first_layer_large_checks_ends() {
    let log_size = 16u32;
    let size = 1 << log_size;

    let cpu_columns_vector: Vec<Vec<BaseField>> = columns_test_vector(4, size);
    let gpu_columns_vector: Vec<BaseFieldVec> = gpu_columns_from(&cpu_columns_vector);

    let expected_result =
        reference_commit_on_layer(log_size, None, &cpu_columns_vector.iter().collect::<Vec<_>>());
    let result: Blake2sHashVec = <CudaBackend as MerkleOps<Blake2sMerkleHasher>>::commit_on_layer(
        log_size,
        None,
        &gpu_columns_vector.iter().collect::<Vec<_>>(),
    );
    let gpu_hashes = result.to_cpu();

    assert_eq!(gpu_hashes.len(), size);
    assert_eq!(gpu_hashes[..100], expected_result[..100], "First 100 hashes mismatch");
    assert_eq!(gpu_hashes[size - 100..], expected_result[size - 100..], "Last 100 hashes mismatch");
    assert_eq!(gpu_hashes, expected_result);
}

#[test]
fn build_leaves_path_chooses_fused_only_for_uniform_lifted_columns() {
    assert_eq!(build_leaves_path(&vec![], 4), LeavesPath::NoColumns);
    assert_eq!(build_leaves_path(&vec![16, 16, 16], 4), LeavesPath::Fused);
    assert_eq!(build_leaves_path(&vec![16, 16, 16], 5), LeavesPath::PerSize);
    assert_eq!(build_leaves_path(&vec![8, 16, 16], 4), LeavesPath::PerSize);
}
