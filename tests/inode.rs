use rkernel::inode::{BlockRange, FileType, Inode, MAX_BLOCKS};

#[test]
fn test_inode_creation() {
    let inode = Inode::new(1, FileType::Regular, 0o644, 1000, 1000, 1234567890);
    assert_eq!(inode.inode_number, 1);
    assert_eq!(inode.file_type, FileType::Regular);
    assert_eq!(inode.permissions, 0o644);
    assert_eq!(inode.uid, 1000);
    assert_eq!(inode.gid, 1000);
    assert_eq!(inode.size, 0);
    assert_eq!(inode.link_count, 1);
    assert_eq!(inode.data_blocks, [0; MAX_BLOCKS]);
    assert!(inode.is_valid());
}

#[test]
fn test_add_data_block() {
    let mut inode = Inode::new(2, FileType::Directory, 0o755, 1000, 1000, 1234567890);
    assert!(inode.add_data_block(42).is_ok());
    assert_eq!(inode.data_blocks[0], 42);
    assert!(inode.add_data_block(43).is_ok());
    assert_eq!(inode.data_blocks[1], 43);
}

#[test]
fn inode_full_rejects_block() {
    let mut inode = Inode::new(3, FileType::Regular, 0o600, 1, 1, 5);
    for b in 0..MAX_BLOCKS as u64 {
        assert!(inode.add_data_block(b + 1).is_ok());
    }
    assert!(inode.add_data_block(99).is_err());
    assert_eq!(inode.data_blocks[MAX_BLOCKS - 1], MAX_BLOCKS as u64);
}

#[test]
fn inode_timestamps_and_validity() {
    let mut inode = Inode::new(0, FileType::Symlink, 0o777, 0, 0, 10);
    assert!(!inode.is_valid());
    inode.update_accessed(20);
    inode.update_modified(30, 4096);
    assert_eq!(inode.accessed_at, 20);
    assert_eq!(inode.modified_at, 30);
    assert_eq!(inode.size, 4096);
    assert_eq!(inode.created_at, 10);
    assert_eq!(FileType::Symlink.code(), 3);
}

#[test]
fn block_range_offsets() {
    let r = BlockRange { block: 3, begin: 100, end: 512, block_size_log2: 9 };
    assert!(!r.is_empty());
    assert_eq!(r.len(), 412);
    assert!(!r.is_full());
    assert_eq!(r.origin_begin(), 3 * 512 + 100);
    assert_eq!(r.origin_end(), 4 * 512);
    let full = BlockRange { block: 0, begin: 0, end: 512, block_size_log2: 9 };
    assert!(full.is_full());
}
