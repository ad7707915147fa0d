use kukios::{
    split_path, BlockBitmap, FileSystem, FsError, Inode, MemDisk, SuperBlock, MAGIC, MAX_FILES,
};

#[test]
fn split_path_skips_empty_segments() {
    assert_eq!(split_path("/a/bc//d/"), vec![b"a".to_vec(), b"bc".to_vec(), b"d".to_vec()]);
    assert_eq!(split_path("/"), Vec::<Vec<u8>>::new());
    assert_eq!(split_path(""), Vec::<Vec<u8>>::new());
    assert_eq!(split_path("x"), vec![b"x".to_vec()]);
}

#[test]
fn bitmap_first_fit_and_release() {
    let mut bm = BlockBitmap::new(20);
    assert_eq!(bm.free_blocks(), 20);
    assert_eq!(bm.allocate(3), Ok(vec![0, 1, 2]));
    assert_eq!(bm.allocate(2), Ok(vec![3, 4]));
    bm.release(&vec![1, 3]);
    assert_eq!(bm.free_blocks(), 17);
    assert!(!bm.is_allocated(1));
    assert!(bm.is_allocated(2));
    assert_eq!(bm.allocate(3), Ok(vec![1, 3, 5]));
    // Releasing a free block is a no-op.
    bm.release(&vec![19, 19]);
    assert_eq!(bm.free_blocks(), 14);
}

#[test]
fn bitmap_bits_cross_bytes() {
    let mut bm = BlockBitmap::new(17);
    assert_eq!(bm.allocate(17).map(|v| v.len()), Ok(17));
    bm.release(&vec![7, 8, 16]);
    assert_eq!(bm.allocate(3), Ok(vec![7, 8, 16]));
    assert_eq!(bm.free_blocks(), 0);
}

#[test]
fn bitmap_failure_claims_nothing() {
    let mut bm = BlockBitmap::new(10);
    bm.allocate(7).unwrap();
    assert_eq!(bm.allocate(4), Err(FsError::InsufficientSpace));
    assert_eq!(bm.free_blocks(), 3);
    for i in 7..10 {
        assert!(!bm.is_allocated(i));
    }
    assert_eq!(bm.allocate(0), Ok(vec![]));
}

#[test]
fn superblock_and_inode_new() {
    let sb = SuperBlock::new(1024, 512);
    assert_eq!(sb.magic, MAGIC);
    assert_eq!(sb.total_blocks, 1024);
    assert_eq!(sb.free_blocks, 1022);
    assert_eq!(sb.block_size, 512);
    assert_eq!(sb.root_dir_block, 1);
    assert_eq!(SuperBlock::new(1, 512).free_blocks, 0);
    let ino = Inode::new();
    assert_eq!(ino.size, 0);
    assert!(ino.blocks.is_empty());
}

#[test]
fn handles_create_write_read_delete() {
    let mut fs = FileSystem::new(MemDisk::new(64, 512));
    assert_eq!(fs.total_blocks(), 64);
    assert_eq!(fs.free_blocks(), 62);
    let h = fs.create_file().unwrap();
    assert_eq!(h, 0);
    assert!(fs.is_live(0));
    assert!(!fs.is_live(1));
    assert_eq!(fs.create_file(), Ok(1));
    let data: Vec<u8> = (0..1300).map(|k| (k % 200) as u8).collect();
    assert_eq!(fs.write_file(h, &data), Ok(()));
    assert_eq!(fs.free_blocks(), 59);
    let ino = fs.read_inode(h).unwrap();
    assert_eq!(ino.size, 1300);
    assert_eq!(ino.blocks, vec![2, 3, 4]);
    let mut buf = vec![0u8; 1300];
    assert_eq!(fs.read_file(h, &mut buf[..]), Ok(1300));
    assert_eq!(buf, data);
    assert_eq!(fs.delete_file(h), Ok(()));
    assert_eq!(fs.free_blocks(), 62);
    assert!(fs.read_inode(h).is_none());
    assert!(!fs.is_live(h));
    assert_eq!(fs.delete_file(h), Err(FsError::NotFound));
    assert_eq!(fs.write_file(h, b"x"), Err(FsError::NotFound));
    assert_eq!(fs.create_file(), Ok(0));
}

#[test]
fn handles_run_out() {
    let mut fs = FileSystem::new(MemDisk::new(4, 512));
    for i in 0..MAX_FILES {
        assert_eq!(fs.create_file(), Ok(i));
    }
    assert_eq!(fs.create_file(), Err(FsError::NoFreeRecords));
}

#[test]
fn allocate_block_takes_first_free() {
    let mut fs = FileSystem::new(MemDisk::new(4, 512));
    assert_eq!(fs.allocate_block(), Ok(2));
    assert_eq!(fs.allocate_block(), Ok(3));
    assert_eq!(fs.allocate_block(), Err(FsError::InsufficientSpace));
    assert_eq!(fs.free_blocks(), 0);
}
