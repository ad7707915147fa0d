use kukios::{FsError, KukiSystem, MemDisk, BLOCK_PTRS, MAX_ENTRIES, MAX_FILES};

fn engine(total: usize, block_size: usize) -> KukiSystem<MemDisk> {
    KukiSystem::new(MemDisk::new(total, block_size))
}

fn read_all(fs: &KukiSystem<MemDisk>, path: &str, cap: usize) -> Result<Vec<u8>, FsError> {
    let mut buf = vec![0u8; cap];
    let n = fs.open(path, &mut buf[..])?;
    buf.truncate(n);
    Ok(buf)
}

#[test]
fn scenario_create_read_write_delete() {
    let mut fs = engine(1024, 512);
    let start = fs.free_blocks();
    assert_eq!(start, 1022);

    assert_eq!(fs.save("/a.txt", &[b'A'; 1200]), Ok(()));
    assert_eq!(fs.free_blocks(), start - 3);

    let mut buf = [0u8; 2000];
    assert_eq!(fs.open("/a.txt", &mut buf[..]), Ok(1200));
    assert!(buf[..1200].iter().all(|&b| b == b'A'));
    assert!(buf[1200..].iter().all(|&b| b == 0));

    assert_eq!(fs.write("/a.txt", &[b'B'; 512]), Ok(()));
    assert_eq!(fs.free_blocks(), start - 1);
    assert_eq!(read_all(&fs, "/a.txt", 2000), Ok(vec![b'B'; 512]));

    assert_eq!(fs.delete("/a.txt"), Ok(()));
    assert_eq!(fs.free_blocks(), start);
    assert_eq!(read_all(&fs, "/a.txt", 2000), Err(FsError::NotFound));
}

#[test]
fn round_trip_lengths() {
    let mut fs = engine(1024, 512);
    let lens = [0usize, 1, 176, 511, 512, 513, 1024, 1200, 5119, 5120];
    for (i, &len) in lens.iter().enumerate() {
        let path = format!("/f{}", i);
        let data: Vec<u8> = (0..len).map(|k| (k % 251) as u8).collect();
        assert_eq!(fs.save(&path, &data), Ok(()));
        assert_eq!(read_all(&fs, &path, 6000), Ok(data));
    }
}

#[test]
fn read_into_short_buffer_copies_prefix() {
    let mut fs = engine(64, 512);
    let data: Vec<u8> = (0..1000).map(|k| (k % 7) as u8).collect();
    fs.save("/x", &data).unwrap();
    let mut buf = [9u8; 600];
    assert_eq!(fs.open("/x", &mut buf[..]), Ok(600));
    assert_eq!(&buf[..], &data[..600]);
}

#[test]
fn read_past_size_stops_at_size() {
    let mut fs = engine(64, 512);
    fs.save("/x", b"hello").unwrap();
    let mut buf = [7u8; 20];
    assert_eq!(fs.open("/x", &mut buf[..]), Ok(5));
    assert_eq!(&buf[..5], b"hello");
    assert!(buf[5..].iter().all(|&b| b == 7));
}

#[test]
fn name_bound() {
    let mut fs = engine(64, 512);
    assert_eq!(fs.make_dir("/dir"), Ok(()));
    let long = format!("/dir/{}", "x".repeat(33));
    assert_eq!(fs.save(&long, b"data"), Err(FsError::NameTooLong));
    assert_eq!(fs.list("/dir"), Ok(vec![]));
    let fits = format!("/dir/{}", "x".repeat(32));
    assert_eq!(fs.save(&fits, b"data"), Ok(()));
    assert_eq!(fs.list("/dir"), Ok(vec![vec![b'x'; 32]]));
    assert_eq!(fs.make_dir(&format!("/{}", "y".repeat(33))), Err(FsError::NameTooLong));
}

#[test]
fn delete_of_missing_changes_nothing() {
    let mut fs = engine(64, 512);
    fs.save("/keep", &[1u8; 700]).unwrap();
    let free = fs.free_blocks();
    assert_eq!(fs.delete("/missing"), Err(FsError::NotFound));
    assert_eq!(fs.delete("/missing"), Err(FsError::NotFound));
    assert_eq!(fs.free_blocks(), free);
    assert_eq!(fs.list("/"), Ok(vec![b"keep".to_vec()]));
    assert_eq!(fs.delete("/keep"), Ok(()));
    assert_eq!(fs.delete("/keep"), Err(FsError::NotFound));
}

#[test]
fn delete_does_not_remove_directories() {
    let mut fs = engine(64, 512);
    fs.make_dir("/d").unwrap();
    assert_eq!(fs.delete("/d"), Err(FsError::NotFound));
    assert_eq!(fs.list("/"), Ok(vec![b"d".to_vec()]));
}

#[test]
fn insufficient_space_is_atomic() {
    let mut fs = engine(5, 512);
    assert_eq!(fs.free_blocks(), 3);
    assert_eq!(fs.save("/big", &[5u8; 2048]), Err(FsError::InsufficientSpace));
    assert_eq!(fs.free_blocks(), 3);
    assert_eq!(fs.list("/"), Ok(vec![]));
    assert_eq!(fs.save("/fits", &[5u8; 1536]), Ok(()));
    assert_eq!(fs.free_blocks(), 0);
}

#[test]
fn empty_file_needs_no_block() {
    let mut fs = engine(2, 512);
    assert_eq!(fs.free_blocks(), 0);
    assert_eq!(fs.save("/e.txt", b""), Ok(()));
    assert_eq!(read_all(&fs, "/e.txt", 16), Ok(vec![]));
    assert_eq!(fs.write("/e.txt", b""), Ok(()));
    let mut none: [u8; 0] = [];
    assert_eq!(fs.open("/e.txt", &mut none[..]), Ok(0));
}

#[test]
fn write_that_needs_more_space_fails_whole() {
    let mut fs = engine(5, 512);
    fs.save("/a", &[1u8; 512]).unwrap();
    assert_eq!(fs.write("/a", &[2u8; 2048]), Err(FsError::InsufficientSpace));
    assert_eq!(read_all(&fs, "/a", 4096), Ok(vec![1u8; 512]));
    assert_eq!(fs.free_blocks(), 2);
}

#[test]
fn same_block_count_rewrites_in_place() {
    let mut fs = engine(8, 512);
    fs.save("/a", &[1u8; 700]).unwrap();
    let free = fs.free_blocks();
    assert_eq!(fs.write("/a", &[2u8; 1000]), Ok(()));
    assert_eq!(fs.free_blocks(), free);
    assert_eq!(read_all(&fs, "/a", 4096), Ok(vec![2u8; 1000]));
}

#[test]
fn full_disk_rewrites_same_size_in_place() {
    let mut fs = engine(4, 512);
    fs.save("/a", &[1u8; 1024]).unwrap();
    assert_eq!(fs.free_blocks(), 0);
    assert_eq!(fs.write("/a", &[2u8; 900]), Ok(()));
    assert_eq!(read_all(&fs, "/a", 2048), Ok(vec![2u8; 900]));
    assert_eq!(fs.write("/a", &[3u8; 1100]), Err(FsError::InsufficientSpace));
}

#[test]
fn file_too_large() {
    let mut fs = engine(1024, 512);
    assert_eq!(BLOCK_PTRS, 10);
    assert_eq!(fs.save("/big", &vec![0u8; 5121]), Err(FsError::FileTooLarge));
    assert_eq!(fs.save("/max", &vec![0u8; 5120]), Ok(()));
    assert_eq!(fs.write("/max", &vec![0u8; 5121]), Err(FsError::FileTooLarge));
}

#[test]
fn parent_not_found() {
    let mut fs = engine(64, 512);
    assert_eq!(fs.save("/nope/x", b"1"), Err(FsError::ParentNotFound));
    assert_eq!(fs.save("/", b"1"), Err(FsError::ParentNotFound));
    fs.save("/file", b"1").unwrap();
    assert_eq!(fs.save("/file/x", b"1"), Err(FsError::ParentNotFound));
    assert_eq!(fs.make_dir("/a/b"), Err(FsError::ParentNotFound));
}

#[test]
fn duplicate_name() {
    let mut fs = engine(64, 512);
    fs.save("/a", b"1").unwrap();
    assert_eq!(fs.save("/a", b"2"), Err(FsError::DuplicateName));
    assert_eq!(fs.make_dir("/a"), Err(FsError::DuplicateName));
    assert_eq!(read_all(&fs, "/a", 10), Ok(b"1".to_vec()));
}

#[test]
fn nested_directories_and_empty_segments() {
    let mut fs = engine(64, 512);
    fs.make_dir("/docs").unwrap();
    fs.make_dir("/docs/notes").unwrap();
    fs.save("/docs/notes/n.txt", b"note").unwrap();
    assert_eq!(read_all(&fs, "//docs///notes/n.txt", 10), Ok(b"note".to_vec()));
    assert_eq!(fs.list("/docs"), Ok(vec![b"notes".to_vec()]));
    assert_eq!(fs.list("docs/notes/"), Ok(vec![b"n.txt".to_vec()]));
    assert_eq!(fs.list("/docs/notes/n.txt"), Err(FsError::NotFound));
    assert_eq!(fs.list("/nowhere"), Err(FsError::NotFound));
}

#[test]
fn list_keeps_insertion_order() {
    let mut fs = engine(64, 512);
    fs.save("/c", b"").unwrap();
    fs.make_dir("/a").unwrap();
    fs.save("/b", b"").unwrap();
    assert_eq!(fs.list("/"), Ok(vec![b"c".to_vec(), b"a".to_vec(), b"b".to_vec()]));
    fs.delete("/a").unwrap_err();
    fs.delete("/c").unwrap();
    assert_eq!(fs.list("/"), Ok(vec![b"a".to_vec(), b"b".to_vec()]));
}

#[test]
fn directory_entry_slots_run_out() {
    let mut fs = engine(16, 512);
    for i in 0..MAX_ENTRIES {
        fs.save(&format!("/f{}", i), b"").unwrap();
    }
    assert_eq!(fs.save("/one_more", b""), Err(FsError::NoFreeEntrySlot));
    assert_eq!(fs.make_dir("/one_more"), Err(FsError::NoFreeEntrySlot));
}

#[test]
fn file_records_run_out() {
    let mut fs = engine(16, 512);
    fs.make_dir("/d").unwrap();
    for i in 0..MAX_FILES - 1 {
        fs.save(&format!("/f{}", i), b"").unwrap();
    }
    assert!(fs.has_free_record());
    fs.save("/d/last", b"").unwrap();
    assert!(!fs.has_free_record());
    assert_eq!(fs.save("/d/extra", b""), Err(FsError::NoFreeRecords));
    fs.delete("/f0").unwrap();
    assert!(fs.has_free_record());
    assert_eq!(fs.save("/d/extra", b"ok"), Ok(()));
}

#[test]
fn write_missing_file_is_not_found() {
    let mut fs = engine(64, 512);
    assert_eq!(fs.write("/ghost", b"x"), Err(FsError::NotFound));
    let mut buf = [0u8; 4];
    assert_eq!(fs.open("/ghost", &mut buf[..]), Err(FsError::NotFound));
}
