use mem_fs::FsError;
use mem_fs::MemoryFs;
use mem_fs::NameFault;
use mem_fs::FLAG_APPEND_ONLY;
use mem_fs::FLAG_IMMUTABLE;
use mem_fs::FLAG_SEALED_NAMES;
use mem_fs::MAX_NUM_FILES;
use mem_fs::PAGE_SIZE;
use mem_fs::STORAGE_SIZE;

#[test]
fn write_replaces_content() {
    let mut fs = MemoryFs::new();
    fs.create("f", b"old content").unwrap();
    fs.write("f", b"new").unwrap();
    assert_eq!(fs.read("f").unwrap(), b"new");
    // Shrinking within the allocated pages keeps the capacity.
    assert_eq!(fs.capacity("f"), Some(PAGE_SIZE));
}

#[test]
fn write_creates_missing_file() {
    let mut fs = MemoryFs::new();
    fs.write("fresh", b"made by write").unwrap();
    assert_eq!(fs.read("fresh").unwrap(), b"made by write");
}

#[test]
fn write_grows_with_relocation() {
    let mut fs = MemoryFs::new();
    fs.create("a", &[1u8; PAGE_SIZE]).unwrap();
    fs.create("b", &[2u8; PAGE_SIZE]).unwrap();
    // "a" cannot grow in place, but a full write may relocate it.
    let big = [3u8; 3 * PAGE_SIZE];
    fs.write("a", &big).unwrap();
    assert_eq!(fs.read("a").unwrap(), &big as &[u8]);
    assert_eq!(fs.read("b").unwrap(), &[2u8; PAGE_SIZE] as &[u8]);
}

#[test]
fn write_fails_no_space() {
    let mut fs = MemoryFs::new();
    fs.create("x", &[0u8; STORAGE_SIZE - PAGE_SIZE]).unwrap();
    fs.create("y", &[1u8; PAGE_SIZE]).unwrap();
    assert_eq!(fs.write("y", &[2u8; 2 * PAGE_SIZE]), Err(FsError::NoSpace));
    // The failed write rolled back: "y" is unchanged.
    assert_eq!(fs.read("y").unwrap(), &[1u8; PAGE_SIZE] as &[u8]);
}

#[test]
fn append_in_place() {
    let mut fs = MemoryFs::new();
    fs.create("f", b"ab").unwrap();
    fs.append("f", b"cd").unwrap();
    assert_eq!(fs.read("f").unwrap(), b"abcd");
    assert_eq!(fs.capacity("f"), Some(PAGE_SIZE));
}

#[test]
fn append_to_empty_file_allocates() {
    let mut fs = MemoryFs::new();
    fs.create("f", b"").unwrap();
    fs.append("f", b"hello").unwrap();
    assert_eq!(fs.read("f").unwrap(), b"hello");
}

#[test]
fn append_neighbor_extension() {
    let mut fs = MemoryFs::new();
    fs.create("f", &[1u8; PAGE_SIZE]).unwrap();
    fs.append("f", &[2u8; PAGE_SIZE]).unwrap();
    assert_eq!(fs.capacity("f"), Some(2 * PAGE_SIZE));
    let mut expected = vec![1u8; PAGE_SIZE];
    expected.extend(vec![2u8; PAGE_SIZE]);
    assert_eq!(fs.read("f").unwrap(), expected.as_slice());
}

#[test]
fn append_strict_refuses_relocation() {
    let mut fs = MemoryFs::new();
    fs.create("a", &[1u8; PAGE_SIZE]).unwrap();
    fs.create("b", &[2u8; PAGE_SIZE]).unwrap();
    assert_eq!(fs.append_strict("a", &[3u8; PAGE_SIZE]), Err(FsError::WouldFragment));
    // The relocating variants move the file instead.
    fs.append_strict_or_repack("a", &[3u8; PAGE_SIZE]).unwrap();
    let mut expected = vec![1u8; PAGE_SIZE];
    expected.extend(vec![3u8; PAGE_SIZE]);
    assert_eq!(fs.read("a").unwrap(), expected.as_slice());
    assert_eq!(fs.read("b").unwrap(), &[2u8; PAGE_SIZE] as &[u8]);
}

#[test]
fn append_no_space_on_first_allocation() {
    let mut fs = MemoryFs::new();
    fs.create("x", &[0u8; STORAGE_SIZE]).unwrap();
    fs.create("y", b"").unwrap();
    assert_eq!(fs.append("y", b"a"), Err(FsError::NoSpace));
}

#[test]
fn empty_append_and_write_at_are_noops() {
    let mut fs = MemoryFs::new();
    fs.create("f", b"stay").unwrap();
    fs.append("f", b"").unwrap();
    fs.write_at("f", 2, b"").unwrap();
    assert_eq!(fs.read("f").unwrap(), b"stay");
    assert_eq!(fs.capacity("f"), Some(PAGE_SIZE));
}

#[test]
fn write_at_extends_size_at_end() {
    let mut fs = MemoryFs::new();
    fs.create("f", b"abc").unwrap();
    fs.write_at("f", 3, b"def").unwrap();
    assert_eq!(fs.read("f").unwrap(), b"abcdef");
}

#[test]
fn write_at_neighbor_growth_only() {
    let mut fs = MemoryFs::new();
    fs.create("a", &[1u8; PAGE_SIZE]).unwrap();
    fs.create("b", &[2u8; PAGE_SIZE]).unwrap();
    // Growing "a" past its page would need relocation, which write_at
    // never does.
    assert_eq!(fs.write_at("a", PAGE_SIZE - 1, b"xyz"), Err(FsError::WouldFragment));
    fs.delete("b").unwrap();
    fs.write_at("a", PAGE_SIZE - 1, b"xyz").unwrap();
    assert_eq!(fs.read("a").unwrap().len(), PAGE_SIZE + 2);
}

#[test]
fn truncate_shrinks_and_frees() {
    let mut fs = MemoryFs::new();
    fs.create("f", &[5u8; 3 * PAGE_SIZE]).unwrap();
    fs.truncate("f", PAGE_SIZE + 1).unwrap();
    assert_eq!(fs.read("f").unwrap(), &[5u8; PAGE_SIZE + 1] as &[u8]);
    assert_eq!(fs.capacity("f"), Some(2 * PAGE_SIZE));
    fs.truncate("f", 0).unwrap();
    assert_eq!(fs.read("f").unwrap(), b"");
    assert_eq!(fs.capacity("f"), Some(0));
}

#[test]
fn truncate_never_grows() {
    let mut fs = MemoryFs::new();
    fs.create("f", b"abc").unwrap();
    assert_eq!(fs.truncate("f", 4), Err(FsError::InvalidOp));
    assert_eq!(fs.read("f").unwrap(), b"abc");
    fs.truncate("f", 3).unwrap();
    assert_eq!(fs.read("f").unwrap(), b"abc");
}

#[test]
fn reserve_keeps_size_and_bytes() {
    let mut fs = MemoryFs::new();
    fs.create("f", b"tiny").unwrap();
    fs.reserve("f", 3 * PAGE_SIZE).unwrap();
    assert_eq!(fs.read("f").unwrap(), b"tiny");
    assert_eq!(fs.capacity("f"), Some(3 * PAGE_SIZE));
    // Enough capacity already: a smaller reserve is a no-op.
    fs.reserve("f", PAGE_SIZE).unwrap();
    assert_eq!(fs.capacity("f"), Some(3 * PAGE_SIZE));
}

#[test]
fn rename_moves_only_the_name() {
    let mut fs = MemoryFs::new();
    fs.create("old", b"content").unwrap();
    fs.rename("old", "new").unwrap();
    assert!(!fs.file_exists("old"));
    assert_eq!(fs.read("new").unwrap(), b"content");
    assert_eq!(fs.rename("new", "new"), Err(FsError::Duplicate));
    assert_eq!(fs.rename("missing", "other"), Err(FsError::NotFound));
    assert_eq!(
        fs.rename("new", "has space"),
        Err(FsError::FileNameInvalid(NameFault::HasWhitespace))
    );
}

#[test]
fn immutable_blocks_mutation_but_not_rename() {
    let mut fs = MemoryFs::new();
    fs.create_with_flags("f", b"frozen", FLAG_IMMUTABLE).unwrap();
    assert_eq!(fs.write("f", b"x"), Err(FsError::ReadOnly));
    assert_eq!(fs.write_at("f", 0, b"x"), Err(FsError::ReadOnly));
    assert_eq!(fs.append("f", b"x"), Err(FsError::ReadOnly));
    assert_eq!(fs.truncate("f", 0), Err(FsError::ReadOnly));
    assert_eq!(fs.reserve("f", PAGE_SIZE), Err(FsError::ReadOnly));
    assert_eq!(fs.delete("f"), Err(FsError::ReadOnly));
    fs.rename("f", "g").unwrap();
    assert_eq!(fs.read("g").unwrap(), b"frozen");
}

#[test]
fn append_only_blocks_write_at() {
    let mut fs = MemoryFs::new();
    fs.create_with_flags("log", b"line1", FLAG_APPEND_ONLY).unwrap();
    assert_eq!(fs.write_at("log", 0, b"XXXXX"), Err(FsError::InvalidOp));
    fs.append("log", b" line2").unwrap();
    assert_eq!(fs.read("log").unwrap(), b"line1 line2");
}

#[test]
fn sealed_names_block_rename() {
    let mut fs = MemoryFs::new();
    fs.create_with_flags("fixed", b"x", FLAG_SEALED_NAMES).unwrap();
    assert_eq!(fs.rename("fixed", "other"), Err(FsError::FileNameSealed));
    fs.write("fixed", b"y").unwrap();
}

#[test]
fn name_validation_faults() {
    let mut fs = MemoryFs::new();
    assert_eq!(fs.create("", b""), Err(FsError::FileNameInvalid(NameFault::Empty)));
    let long = "x".repeat(mem_fs::MAX_FILE_NAME_LENGTH + 1);
    assert_eq!(fs.create(&long, b""), Err(FsError::FileNameInvalid(NameFault::TooLong)));
    assert_eq!(fs.create("a b", b""), Err(FsError::FileNameInvalid(NameFault::HasWhitespace)));
    assert_eq!(fs.create("tab\tbed", b""), Err(FsError::FileNameInvalid(NameFault::HasWhitespace)));
    let just_fits = "x".repeat(mem_fs::MAX_FILE_NAME_LENGTH);
    fs.create(&just_fits, b"ok").unwrap();
}

#[test]
fn oversized_first_allocation_is_too_many_extents() {
    let mut fs = MemoryFs::new();
    let data = vec![0u8; STORAGE_SIZE + 1];
    assert_eq!(fs.create("huge", &data), Err(FsError::TooManyExtents));
    // A full arena fails the same way: after these creations every page
    // is claimed, so no run of two pages exists.
    fs.create("a", &[1u8; PAGE_SIZE]).unwrap();
    fs.create("b", &[2u8; STORAGE_SIZE - 2 * PAGE_SIZE]).unwrap();
    fs.create("c", &[3u8; PAGE_SIZE]).unwrap();
    fs.delete("a").unwrap();
    fs.delete("b").unwrap();
    fs.create("d", &[4u8; STORAGE_SIZE - PAGE_SIZE]).unwrap();
    assert_eq!(fs.create("e", &[5u8; 2 * PAGE_SIZE]), Err(FsError::TooManyExtents));
}

#[test]
fn table_capacity_is_bounded() {
    let mut fs = MemoryFs::new();
    for i in 0..MAX_NUM_FILES {
        fs.create(&format!("file{}", i), b"").unwrap();
    }
    assert_eq!(fs.create("one_more", b""), Err(FsError::TooManyFiles));
}

#[test]
fn entries_lists_metadata_in_order() {
    let mut fs = MemoryFs::new();
    fs.create("first", b"aa").unwrap();
    fs.create_with_flags("second", b"bbbb", FLAG_IMMUTABLE).unwrap();
    let meta = fs.entries();
    assert_eq!(meta.len(), 2);
    assert_eq!(meta[0].name(), b"first");
    assert_eq!(meta[0].size(), 2);
    assert_eq!(meta[0].flags(), 0);
    assert_eq!(meta[1].name(), b"second");
    assert_eq!(meta[1].size(), 4);
    assert_eq!(meta[1].flags(), FLAG_IMMUTABLE);
}

#[test]
fn delete_compacts_and_reuses_pages() {
    let mut fs = MemoryFs::new();
    fs.create("a", &[1u8; PAGE_SIZE]).unwrap();
    fs.create("b", &[2u8; PAGE_SIZE]).unwrap();
    fs.create("c", &[3u8; PAGE_SIZE]).unwrap();
    fs.delete("b").unwrap();
    let meta = fs.entries();
    assert_eq!(meta.len(), 2);
    assert_eq!(meta[0].name(), b"a");
    assert_eq!(meta[1].name(), b"c");
    // The freed page is reused by first fit.
    fs.create("d", &[4u8; PAGE_SIZE]).unwrap();
    assert_eq!(fs.read("d").unwrap(), &[4u8; PAGE_SIZE] as &[u8]);
    assert_eq!(fs.read("c").unwrap(), &[3u8; PAGE_SIZE] as &[u8]);
}

#[test]
fn multibyte_names_work() {
    let mut fs = MemoryFs::new();
    fs.create("héllo", b"data").unwrap();
    assert!(fs.file_exists("héllo"));
    assert_eq!(fs.read("héllo").unwrap(), b"data");
    fs.rename("héllo", "wörld").unwrap();
    assert_eq!(fs.read("wörld").unwrap(), b"data");
    let bytes = fs.dump();
    let mut fresh = MemoryFs::new();
    fresh.restore(&bytes).unwrap();
    assert_eq!(fresh.read("wörld").unwrap(), b"data");
}

#[test]
fn capacity_rounds_up_to_pages() {
    let mut fs = MemoryFs::new();
    fs.create("f", &[0u8; PAGE_SIZE + 1]).unwrap();
    assert_eq!(fs.capacity("f"), Some(2 * PAGE_SIZE));
    assert_eq!(fs.capacity("missing"), None);
}

#[test]
fn file_exists_tracks_lifecycle() {
    let mut fs = MemoryFs::new();
    assert!(!fs.file_exists("f"));
    fs.create("f", b"x").unwrap();
    assert!(fs.file_exists("f"));
    fs.delete("f").unwrap();
    assert!(!fs.file_exists("f"));
}
