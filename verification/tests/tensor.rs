use tensor_core::storage::{Device, Storage};
use tensor_core::tensor::{Tensor, TensorError};

/// A contiguous tensor over `shape`, with a storage holding 0, 1, 2, ...
fn counted(shape: Vec<usize>) -> (Tensor, Storage<i64>) {
    let t = Tensor::from_shape(shape).unwrap();
    let mut storage: Storage<i64> = Storage::new(t.numel(), Device::CPU);
    for i in 0..storage.len() {
        storage.as_mut_slice()[i] = i as i64;
    }
    (t, storage)
}

#[test]
fn from_shape_gives_row_major_strides() {
    let t = Tensor::from_shape(vec![2, 3, 4]).unwrap();
    assert_eq!(t.shape().as_slice(), &[2, 3, 4]);
    assert_eq!(t.strides().as_slice(), &[12, 4, 1]);
    assert_eq!(t.offset(), 0);
    assert_eq!(t.numel(), 24);
}

#[test]
fn from_shape_handles_empty_and_scalar_shapes() {
    let empty = Tensor::from_shape(vec![0, 3]).unwrap();
    assert_eq!(empty.shape().as_slice(), &[0, 3]);
    assert_eq!(empty.strides().as_slice(), &[3, 1]);
    assert_eq!(empty.numel(), 0);

    let scalar = Tensor::from_shape(vec![]).unwrap();
    assert_eq!(scalar.shape().len(), 0);
    assert_eq!(scalar.numel(), 1);
    let mut storage: Storage<i64> = Storage::new(1, Device::CPU);
    scalar.set(&mut storage, &vec![], 7).unwrap();
    assert_eq!(*scalar.get(&storage, &vec![]).unwrap(), 7);
}

#[test]
fn from_shape_rejects_overflowing_shapes() {
    let r = Tensor::from_shape(vec![usize::MAX, usize::MAX]);
    assert_eq!(r.unwrap_err(), TensorError::ShapeError);
    // Even a zero-element shape is rejected when a stride itself overflows.
    let r = Tensor::from_shape(vec![0, usize::MAX, usize::MAX]);
    assert_eq!(r.unwrap_err(), TensorError::ShapeError);
}

#[test]
fn get_and_set_follow_the_strided_mapping() {
    let (t, mut storage) = counted(vec![2, 3]);
    // Row-major: element [i, j] sits at linear position 3*i + j.
    assert_eq!(*t.get(&storage, &vec![0, 0]).unwrap(), 0);
    assert_eq!(*t.get(&storage, &vec![0, 2]).unwrap(), 2);
    assert_eq!(*t.get(&storage, &vec![1, 0]).unwrap(), 3);
    assert_eq!(*t.get(&storage, &vec![1, 2]).unwrap(), 5);

    t.set(&mut storage, &vec![1, 1], 100).unwrap();
    assert_eq!(*t.get(&storage, &vec![1, 1]).unwrap(), 100);
    assert_eq!(storage.as_slice()[4], 100);
}

#[test]
fn get_and_set_reject_bad_indices() {
    let (t, mut storage) = counted(vec![2, 3]);
    // Wrong rank.
    assert_eq!(t.get(&storage, &vec![1]).unwrap_err(), TensorError::IndexError);
    // A component at its extent.
    assert_eq!(t.get(&storage, &vec![2, 0]).unwrap_err(), TensorError::IndexError);
    assert_eq!(t.get(&storage, &vec![0, 3]).unwrap_err(), TensorError::IndexError);
    // A failed write leaves the buffer untouched.
    let before: Vec<i64> = storage.as_slice().to_vec();
    assert_eq!(t.set(&mut storage, &vec![2, 0], 9).unwrap_err(), TensorError::IndexError);
    assert_eq!(storage.as_slice(), before.as_slice());
}

#[test]
fn transpose_swaps_shape_and_strides() {
    let (t, mut storage) = counted(vec![2, 3]);
    let tr = t.transpose(0, 1).unwrap();
    assert_eq!(tr.shape().as_slice(), &[3, 2]);
    assert_eq!(tr.strides().as_slice(), &[1, 3]);
    assert_eq!(tr.offset(), 0);
    // The transposed view reads the same elements, indices exchanged.
    assert_eq!(
        t.get(&storage, &vec![0, 1]).unwrap(),
        tr.get(&storage, &vec![1, 0]).unwrap()
    );
    // No data moved: a write through one view is seen through the other.
    tr.set(&mut storage, &vec![2, 1], 50).unwrap();
    assert_eq!(*t.get(&storage, &vec![1, 2]).unwrap(), 50);
}

#[test]
fn transpose_twice_restores_the_view() {
    let (t, _storage) = counted(vec![2, 3, 4]);
    let back = t.transpose(0, 2).unwrap().transpose(0, 2).unwrap();
    assert_eq!(back.shape().as_slice(), t.shape().as_slice());
    assert_eq!(back.strides().as_slice(), t.strides().as_slice());
    assert_eq!(back.offset(), t.offset());
}

#[test]
fn transpose_rejects_out_of_range_dimensions() {
    let (t, _storage) = counted(vec![2, 3]);
    assert_eq!(t.transpose(0, 2).unwrap_err(), TensorError::DimensionError);
    assert_eq!(t.transpose(7, 1).unwrap_err(), TensorError::DimensionError);
}

#[test]
fn reshape_keeps_contents_in_row_major_order() {
    let (t, storage) = counted(vec![2, 3]);
    let r = t.reshape(vec![3, 2]).unwrap();
    assert_eq!(r.shape().as_slice(), &[3, 2]);
    assert_eq!(r.strides().as_slice(), &[2, 1]);
    assert_eq!(r.offset(), 0);
    // Same linear position, same element: rank 5 is [1,2] before, [2,1] after.
    assert_eq!(*r.get(&storage, &vec![2, 1]).unwrap(), 5);
    assert_eq!(
        t.get(&storage, &vec![1, 2]).unwrap(),
        r.get(&storage, &vec![2, 1]).unwrap()
    );
    // Flattening works too.
    let flat = t.reshape(vec![6]).unwrap();
    for i in 0..6 {
        assert_eq!(*flat.get(&storage, &vec![i]).unwrap(), i as i64);
    }
}

#[test]
fn reshape_rejects_count_mismatch_and_non_contiguous_views() {
    let (t, _storage) = counted(vec![2, 3]);
    assert_eq!(t.reshape(vec![4, 2]).unwrap_err(), TensorError::ShapeError);
    // A transposed view is not contiguous: reshape refuses rather than copy.
    let tr = t.transpose(0, 1).unwrap();
    assert_eq!(tr.reshape(vec![6]).unwrap_err(), TensorError::ShapeError);
}

#[test]
fn slice_narrows_one_dimension_without_moving_data() {
    let (t, storage) = counted(vec![6]);
    let s = t.slice(0, 2, 5).unwrap();
    assert_eq!(s.shape().as_slice(), &[3]);
    assert_eq!(s.strides().as_slice(), &[1]);
    assert_eq!(s.offset(), 2);
    assert_eq!(*s.get(&storage, &vec![0]).unwrap(), 2);
    assert_eq!(*s.get(&storage, &vec![2]).unwrap(), 4);
    // The narrowed extent is enforced.
    assert_eq!(s.get(&storage, &vec![3]).unwrap_err(), TensorError::IndexError);
}

#[test]
fn slice_of_matrix_rows_offsets_the_origin() {
    let (t, storage) = counted(vec![3, 4]);
    let rows = t.slice(0, 1, 3).unwrap();
    assert_eq!(rows.shape().as_slice(), &[2, 4]);
    assert_eq!(rows.strides().as_slice(), &[4, 1]);
    assert_eq!(rows.offset(), 4);
    assert_eq!(*rows.get(&storage, &vec![0, 0]).unwrap(), 4);
    assert_eq!(*rows.get(&storage, &vec![1, 3]).unwrap(), 11);
}

#[test]
fn slice_rejects_bad_bounds() {
    let (t, _storage) = counted(vec![6]);
    // end beyond the extent
    assert_eq!(t.slice(0, 2, 7).unwrap_err(), TensorError::IndexError);
    // start beyond end
    assert_eq!(t.slice(0, 4, 3).unwrap_err(), TensorError::IndexError);
    // dimension out of range
    assert_eq!(t.slice(1, 0, 0).unwrap_err(), TensorError::DimensionError);
    // empty slices are legal
    let empty = t.slice(0, 3, 3).unwrap();
    assert_eq!(empty.shape().as_slice(), &[0]);
    assert_eq!(empty.numel(), 0);
}

#[test]
fn overlapping_slices_alias_the_same_buffer() {
    let (t, mut storage) = counted(vec![6]);
    let s1 = t.slice(0, 0, 4).unwrap();
    let s2 = t.slice(0, 2, 6).unwrap();
    // Linear position 3 is [3] through s1 and [1] through s2.
    s1.set(&mut storage, &vec![3], 99).unwrap();
    assert_eq!(*s2.get(&storage, &vec![1]).unwrap(), 99);
    assert_eq!(*t.get(&storage, &vec![3]).unwrap(), 99);
    // Positions outside the written one are untouched.
    assert_eq!(*s2.get(&storage, &vec![0]).unwrap(), 2);
}

#[test]
fn clone_copies_the_descriptor_and_shares_the_buffer() {
    let (t, mut storage) = counted(vec![2, 3]);
    let u = t.clone();
    assert_eq!(u.shape().as_slice(), t.shape().as_slice());
    assert_eq!(u.strides().as_slice(), t.strides().as_slice());
    assert_eq!(u.offset(), t.offset());
    u.set(&mut storage, &vec![0, 1], -8).unwrap();
    assert_eq!(*t.get(&storage, &vec![0, 1]).unwrap(), -8);
}

#[test]
fn empty_tensor_addresses_nothing() {
    let t = Tensor::from_shape(vec![0, 3]).unwrap();
    let storage: Storage<i64> = Storage::new(0, Device::CPU);
    assert_eq!(t.get(&storage, &vec![0, 0]).unwrap_err(), TensorError::IndexError);
}

#[test]
fn views_stay_inside_a_shared_buffer() {
    // Deriving views never reaches outside the original allocation.
    let (t, storage) = counted(vec![2, 3, 4]);
    let v = t
        .transpose(0, 2)
        .unwrap()
        .slice(0, 1, 4)
        .unwrap()
        .transpose(1, 2)
        .unwrap();
    for i in 0..v.shape()[0] {
        for j in 0..v.shape()[1] {
            for k in 0..v.shape()[2] {
                assert!(v.get(&storage, &vec![i, j, k]).is_ok());
            }
        }
    }
}
