use ruft::storage::utils::{checksum, node_storage_dir, StoragePath};

#[test]
fn checksum_of_the_standard_check_string() {
    assert_eq!(checksum(b"123456789"), 0xcbf4_3926);
    assert_eq!(checksum(b""), 0);
}

#[test]
fn node_dir_is_hashed() {
    let dir = node_storage_dir(&StoragePath::new("data"), 7);
    let hash = checksum(&7_u64.to_le_bytes());
    assert_eq!(dir.components, vec!["data".to_string(), format!("node-{hash:08x}")]);
}
