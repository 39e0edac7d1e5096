use tensor_core::storage::{Device, Storage};

#[test]
fn test_storage_creation() {
    let storage: Storage<f32> = Storage::new(10, Device::CPU);
    assert_eq!(storage.len(), 10);
}

#[test]
fn test_storage_slice_access() {
    let mut storage: Storage<i32> = Storage::new(5, Device::CPU);

    // Write through the mutable slice.
    let slice = storage.as_mut_slice();
    slice[0] = 42;
    slice[4] = 24;

    // Read back through the immutable slice.
    let slice = storage.as_slice();
    assert_eq!(slice[0], 42);
    assert_eq!(slice[4], 24);
    assert_eq!(slice.len(), 5);
}

#[test]
fn test_zero_sized_storage() {
    let storage: Storage<f64> = Storage::new(0, Device::CPU);
    assert_eq!(storage.len(), 0);
    assert_eq!(storage.as_slice().len(), 0);
}

#[test]
fn storage_len_matches_request_for_various_sizes() {
    for size in [0usize, 1, 7, 100] {
        let storage: Storage<u8> = Storage::new(size, Device::CPU);
        assert_eq!(storage.len(), size);
        assert_eq!(storage.as_slice().len(), size);
    }
}

#[test]
fn storage_round_trip_every_index() {
    let mut storage: Storage<u64> = Storage::new(8, Device::CPU);
    for i in 0..8 {
        storage.as_mut_slice()[i] = (i as u64) * 11 + 3;
        assert_eq!(storage.as_slice()[i], (i as u64) * 11 + 3);
    }
    // Every position still holds the value written to it.
    for i in 0..8 {
        assert_eq!(storage.as_slice()[i], (i as u64) * 11 + 3);
    }
}

#[test]
fn storage_f32_write_then_read_scenario() {
    let mut storage: Storage<f32> = Storage::new(10, Device::CPU);
    assert_eq!(storage.len(), 10);
    let slice = storage.as_mut_slice();
    slice[0] = 42.0;
    slice[4] = 24.0;
    let slice = storage.as_slice();
    assert_eq!(slice[0], 42.0);
    assert_eq!(slice[4], 24.0);
}

#[test]
fn storage_read_write_single_elements() {
    let mut storage: Storage<i32> = Storage::new(3, Device::CPU);
    storage.write(1, -5);
    assert_eq!(*storage.read(1), -5);
    storage.write(1, 9);
    assert_eq!(*storage.read(1), 9);
}

#[test]
fn storage_keeps_its_device_tag() {
    let cpu: Storage<u8> = Storage::new(4, Device::CPU);
    assert_eq!(cpu.device(), Device::CPU);
    // A Metal request is served by the CPU path but keeps its tag.
    let metal: Storage<u8> = Storage::new(4, Device::Metal);
    assert_eq!(metal.device(), Device::Metal);
    assert_eq!(metal.len(), 4);
}
