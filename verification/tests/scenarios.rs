use mem_fs::FsError;
use mem_fs::MemoryFs;
use mem_fs::PAGE_SIZE;
use mem_fs::STORAGE_SIZE;

#[test]
fn overwrite_not_insert() {
    let mut fs = MemoryFs::new();
    fs.create("foo", b"Hello").unwrap();
    // No holes: writing past the current size is rejected.
    assert_eq!(fs.write_at("foo", 6, b"World"), Err(FsError::InvalidOp));

    fs.create("bar", b"Hello World!").unwrap();
    fs.write_at("bar", 6, b"Rust!").unwrap();
    assert_eq!(fs.read("bar").unwrap(), b"Hello Rust!!");
}

#[test]
fn reserve_blocked_then_repacked() {
    let mut fs = MemoryFs::new();
    // Two one-page files sit in adjacent pages.
    fs.create("a", &[1u8; PAGE_SIZE]).unwrap();
    fs.create("b", &[2u8; PAGE_SIZE]).unwrap();

    assert_eq!(fs.reserve("a", 3 * PAGE_SIZE), Err(FsError::WouldFragment));
    fs.reserve_or_repack("a", 3 * PAGE_SIZE).unwrap();
    assert_eq!(fs.read("a").unwrap(), &[1u8; PAGE_SIZE]);
    assert_eq!(fs.capacity("a"), Some(3 * PAGE_SIZE));
    assert_eq!(fs.read("b").unwrap(), &[2u8; PAGE_SIZE]);
}

#[test]
fn shrink_to_empty_releases_pages() {
    let mut fs = MemoryFs::new();
    fs.create("big", &[7u8; STORAGE_SIZE]).unwrap();
    fs.write("big", b"").unwrap();
    assert_eq!(fs.read("big").unwrap(), b"");
    assert_eq!(fs.capacity("big"), Some(0));
    // The whole arena is free again.
    fs.create("second", &[8u8; STORAGE_SIZE]).unwrap();
    assert_eq!(fs.read("second").unwrap(), &[8u8; STORAGE_SIZE] as &[u8]);
}

#[test]
fn dump_format_layout_of_empty_instance() {
    let fs = MemoryFs::new();
    let bytes = fs.dump();
    // Header: magic, version, page size, page count, entry count.
    assert_eq!(&bytes[0..5], b"MEMFS");
    assert_eq!(bytes[5], 2);
    assert_eq!(&bytes[6..10], &(PAGE_SIZE as u32).to_le_bytes());
    assert_eq!(&bytes[10..14], &(128u32).to_le_bytes());
    assert_eq!(&bytes[14..18], &0u32.to_le_bytes());
    // Arena: its length, then the zeroed bytes.
    assert_eq!(&bytes[18..22], &(STORAGE_SIZE as u32).to_le_bytes());
    assert!(bytes[22..22 + STORAGE_SIZE].iter().all(|b| *b == 0));
    // Footer: magic, total length of everything before it, checksum.
    let body_end = 22 + STORAGE_SIZE;
    assert_eq!(&bytes[body_end..body_end + 8], b"MEMFSEND");
    assert_eq!(
        &bytes[body_end + 8..body_end + 12],
        &(body_end as u32).to_le_bytes()
    );
    // The CRC-32 (polynomial 0x04C11DB7, unreflected, complemented) of
    // this exact body, computed independently.
    assert_eq!(&bytes[body_end + 12..body_end + 16], &0xAE11610Eu32.to_le_bytes());
    assert_eq!(bytes.len(), body_end + 16);
}

#[test]
fn restore_rejects_flipped_magic() {
    let mut fs = MemoryFs::new();
    fs.create("foo", b"payload").unwrap();
    let mut bytes = fs.dump();
    bytes[0] ^= 0xFF;
    let mut fresh = MemoryFs::new();
    assert_eq!(fresh.restore(&bytes), Err(FsError::Corrupt));
    // The failed restore left the target untouched.
    assert_eq!(fresh.entries().len(), 0);
}

#[test]
fn restore_rejects_truncated_stream() {
    let mut fs = MemoryFs::new();
    fs.create("foo", b"payload").unwrap();
    let mut bytes = fs.dump();
    bytes.pop();
    let mut fresh = MemoryFs::new();
    assert_eq!(fresh.restore(&bytes), Err(FsError::Corrupt));
}

#[test]
fn restore_rejects_corrupted_content() {
    let mut fs = MemoryFs::new();
    fs.create("foo", b"payload").unwrap();
    let mut bytes = fs.dump();
    // Flip one byte in the middle of the arena image.
    let mid = bytes.len() / 2;
    bytes[mid] ^= 0x01;
    let mut fresh = MemoryFs::new();
    assert_eq!(fresh.restore(&bytes), Err(FsError::Corrupt));
}

#[test]
fn restore_requires_empty_table() {
    let mut fs = MemoryFs::new();
    fs.create("foo", b"payload").unwrap();
    let bytes = fs.dump();
    let mut busy = MemoryFs::new();
    busy.create("bar", b"x").unwrap();
    assert_eq!(busy.restore(&bytes), Err(FsError::InvalidOp));
    // The target is untouched.
    assert_eq!(busy.read("bar").unwrap(), b"x");
}

#[test]
fn dump_restore_round_trip() {
    let mut fs = MemoryFs::new();
    fs.create("alpha", b"first file").unwrap();
    fs.create_with_flags("beta", b"second", mem_fs::FLAG_APPEND_ONLY).unwrap();
    fs.create("gamma", b"").unwrap();
    fs.reserve("gamma", 2 * PAGE_SIZE).unwrap();
    fs.append("alpha", b" grew").unwrap();
    fs.truncate("beta", 3).unwrap();
    fs.delete("alpha").unwrap();
    fs.create("delta", &[9u8; 100]).unwrap();

    let bytes = fs.dump();
    let mut fresh = MemoryFs::new();
    fresh.restore(&bytes).unwrap();

    for name in ["beta", "gamma", "delta", "alpha"] {
        assert_eq!(fs.read(name).is_some(), fresh.read(name).is_some());
        if fs.read(name).is_some() {
            assert_eq!(fs.read(name).unwrap(), fresh.read(name).unwrap());
        }
        assert_eq!(fs.capacity(name), fresh.capacity(name));
    }
    let a = fs.entries();
    let b = fresh.entries();
    assert_eq!(a.len(), b.len());
    for (x, y) in a.iter().zip(b.iter()) {
        assert_eq!(x.name(), y.name());
        assert_eq!(x.size(), y.size());
        assert_eq!(x.flags(), y.flags());
    }
    // A second dump of the restored instance is bit-identical.
    assert_eq!(bytes, fresh.dump());
}
