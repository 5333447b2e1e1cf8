use rust_examples::mock_storage::{FileUploader, MockStorage, Storage};

#[test]
fn upload_within_capacity() {
    let mut s = MockStorage::new(100);
    assert_eq!(s.capacity(), 100);
    assert_eq!(s.used(), 0);
    assert_eq!(s.upload("a", 40), Ok(()));
    assert_eq!(s.upload("b", 60), Ok(()));
    assert_eq!(s.used(), 100);
}

#[test]
fn upload_over_capacity_reports_free_space() {
    let mut s = MockStorage::new(100);
    s.upload("a", 70).unwrap();
    assert_eq!(s.upload("b", 31), Err(30));
    assert_eq!(s.used(), 70);
}

#[test]
fn overwrite_replaces_size() {
    let mut s = MockStorage::new(100);
    s.upload("a", 50).unwrap();
    assert_eq!(s.upload("a", 20), Ok(()));
    assert_eq!(s.used(), 20);
    // the file being replaced still counts against the space left
    assert_eq!(s.upload("a", 90), Err(80));
}

#[test]
fn uploader_writes_through() {
    let mut u = FileUploader::new(MockStorage::new(10));
    assert_eq!(u.upload("x", 4), Ok(()));
    assert_eq!(u.upload("y", 7), Err(6));
    assert_eq!(u.storage_ref().used(), 4);
}
