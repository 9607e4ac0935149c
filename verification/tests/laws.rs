// Tests of the library's promises on concrete values.
use easy_store::crc::crc32;
use easy_store::format::{data_span, gen_newer, need_clusters};
use easy_store::v1::{find_v1_file_start, parse_v1_header, split_v1_payload, V1Header};
use easy_store::{Flash, RamFlash, Store, StoreError};

const CLUSTER: usize = 4096;
const SIZE: u32 = 0x20000; // 32 clusters

fn fresh() -> Store<RamFlash> {
    Store::new(RamFlash::new(SIZE as usize), 0, SIZE)
}

fn bytes(n: usize, seed: u8) -> Vec<u8> {
    (0..n).map(|i| (i as u8).wrapping_mul(7).wrapping_add(seed)).collect()
}

#[test]
fn crc32_check_value() {
    assert_eq!(crc32(b"123456789"), 0xCBF4_3926);
    assert_eq!(crc32(b""), 0);
}

#[test]
fn generation_order_wraps() {
    assert!(gen_newer(1, 0));
    assert!(gen_newer(0, 0xFFFF_FFFF));
    assert!(!gen_newer(5, 5));
    assert!(!gen_newer(0, 1));
    assert!(!(gen_newer(3, 0x8000_0003) && gen_newer(0x8000_0003, 3)));
}

#[test]
fn cluster_counts_and_spans() {
    assert_eq!(need_clusters(11, 0), 1);
    assert_eq!(need_clusters(11, 4049), 1);
    assert_eq!(need_clusters(11, 4050), 2);
    assert_eq!(need_clusters(11, 4049 + 4080), 2);
    assert_eq!(need_clusters(11, 4049 + 4081), 3);
    assert_eq!(need_clusters(4060, 1), 2);
    assert_eq!(data_span(11, 10000, 0), (0, 4049));
    assert_eq!(data_span(11, 10000, 1), (4049, 8129));
    assert_eq!(data_span(11, 10000, 2), (8129, 10000));
}

#[test]
fn write_then_read_keeps_other_files() {
    let mut s = fresh();
    let a = bytes(5000, 1);
    let b = bytes(300, 2);
    s.write_bytes("/a", &a).unwrap();
    s.write_bytes("/b", &b).unwrap();
    let a2 = bytes(9000, 3);
    s.write_bytes("/a", &a2).unwrap();
    assert_eq!(s.read_bytes("/a").unwrap(), a2);
    assert_eq!(s.read_bytes("/b").unwrap(), b);
    assert_eq!(s.file_size("/a").unwrap(), 9000);
}

#[test]
fn delete_keeps_other_files() {
    let mut s = fresh();
    s.write("/x", "one").unwrap();
    s.write("/y", "two").unwrap();
    s.delete("/x").unwrap();
    assert_eq!(s.read("/x"), Err(StoreError::NotFound));
    assert_eq!(s.read("/y").unwrap(), "two");
    assert_eq!(s.delete("/x"), Err(StoreError::NotFound));
}

#[test]
fn read_range_is_a_window_of_read_bytes() {
    let mut s = fresh();
    let data = bytes(13000, 9);
    s.write_bytes("/w", &data).unwrap();
    let whole = s.read_bytes("/w").unwrap();
    for &(off, len) in &[(0usize, 1usize), (4057, 3), (4058, 5000), (8137, 4081), (12999, 10), (100, 12900)] {
        let mut buf = vec![0xAAu8; len];
        let n = s.read_range("/w", off, &mut buf).unwrap();
        let end = (off + len).min(whole.len());
        assert_eq!(n, end - off);
        assert_eq!(&buf[..n], &whole[off..end]);
        assert!(buf[n..].iter().all(|&b| b == 0xAA));
    }
}

#[test]
fn read_dir_with_and_without_trailing_slash() {
    let mut s = fresh();
    s.write("/d/a", "1").unwrap();
    s.write("/d/e/b", "2").unwrap();
    s.write("/dd/c", "3").unwrap();
    assert_eq!(s.read_dir("/d"), s.read_dir("/d/"));
    assert_eq!(s.read_dir("/d"), vec!["/d/a", "/d/e/"]);
    assert_eq!(s.read_dir(""), s.read_dir("/"));
}

#[test]
fn used_and_free_add_up_to_capacity() {
    let mut s = fresh();
    assert_eq!(s.capacity(), SIZE);
    assert_eq!(s.free_space(), SIZE);
    s.write_bytes("/p", &bytes(8200, 4)).unwrap();
    assert_eq!(s.used_space(), 3 * CLUSTER as u32);
    assert_eq!(s.used_space() + s.free_space(), s.capacity());
}

#[test]
fn error_messages() {
    assert_eq!(StoreError::NotFound.message(), "file not found");
    assert_eq!(StoreError::Corrupted.message(), "data corrupted");
    assert_eq!(StoreError::NoSpace.message(), "not enough free space");
    assert_eq!(StoreError::NameTooLong.message(), "file name too long");
    assert_eq!(StoreError::NotUtf8.message(), "content is not valid UTF-8");
    assert_eq!(StoreError::Storage.message(), "flash access error");
}

/// A device that reads but refuses every write.
struct ReadOnly {
    mem: Vec<u8>,
}

impl Flash for ReadOnly {
    fn read(&mut self, offset: u32, bytes: &mut [u8]) -> Result<(), ()> {
        let o = offset as usize;
        if o + bytes.len() > self.mem.len() {
            return Err(());
        }
        bytes.copy_from_slice(&self.mem[o..o + bytes.len()]);
        Ok(())
    }

    fn write(&mut self, _offset: u32, _bytes: &[u8]) -> Result<(), ()> {
        Err(())
    }
}

#[test]
fn storage_error_from_the_device() {
    let mut s = Store::new(ReadOnly { mem: vec![0xFF; SIZE as usize] }, 0, SIZE);
    assert_eq!(s.write("/f", "data"), Err(StoreError::Storage));
    assert_eq!(s.read("/f"), Err(StoreError::NotFound));
}

#[test]
fn usage_and_file_cluster_maps() {
    let mut s = fresh();
    s.write_bytes("/m", &bytes(5000, 5)).unwrap();
    s.write("/n", "tiny").unwrap();
    let usage = s.cluster_usage();
    assert_eq!(usage.len(), 32);
    assert_eq!(usage.iter().filter(|&&u| u).count(), 3);
    let m = s.file_clusters("/m");
    assert_eq!(m.iter().filter(|&&u| u).count(), 2);
    let n = s.file_clusters("/n");
    assert_eq!(n.iter().filter(|&&u| u).count(), 1);
    for c in 0..32 {
        assert_eq!(usage[c], m[c] || n[c]);
    }
    assert!(s.file_clusters("/none").iter().all(|&u| !u));
}

#[test]
fn reopen_keeps_every_file_and_empties_after_delete_all() {
    let mut s = fresh();
    s.write("/k1", "a").unwrap();
    s.write_bytes("/k2", &bytes(7000, 6)).unwrap();
    let mut s = Store::new(s.into_storage(), 0, SIZE);
    assert_eq!(s.read("/k1").unwrap(), "a");
    assert_eq!(s.read_bytes("/k2").unwrap(), bytes(7000, 6));
    s.delete_all_data().unwrap();
    let mut s = Store::new(s.into_storage(), 0, SIZE);
    assert!(s.files().is_empty());
    assert_eq!(s.used_space(), 0);
}

#[test]
fn append_and_rename_laws() {
    let mut s = fresh();
    s.append_bytes("/l", b"ab").unwrap();
    s.append_bytes("/l", b"cd").unwrap();
    assert_eq!(s.read_bytes("/l").unwrap(), b"abcd".to_vec());
    s.write("/other", "kept").unwrap();
    s.rename("/l", "/m").unwrap();
    assert_eq!(s.read_bytes("/m").unwrap(), b"abcd".to_vec());
    assert_eq!(s.read_bytes("/l"), Err(StoreError::NotFound));
    assert_eq!(s.read("/other").unwrap(), "kept");
}

#[test]
fn older_format_header_parsing() {
    // A header at byte 5 after 0xFF padding: name "/n" (2 bytes), data "hi" (2 bytes).
    let mut p: Vec<u8> = Vec::new();
    p.extend_from_slice(&0x01311AABu32.to_be_bytes());
    p.extend_from_slice(&2u32.to_be_bytes());
    p.extend_from_slice(&2u32.to_be_bytes());
    let mut lens = Vec::new();
    lens.extend_from_slice(&2u32.to_be_bytes());
    lens.extend_from_slice(&2u32.to_be_bytes());
    p.extend_from_slice(&crc32(&lens).to_be_bytes());
    p.extend_from_slice(b"/n");
    p.extend_from_slice(&crc32(b"/n").to_be_bytes());
    p.extend_from_slice(b"hi");
    p.extend_from_slice(&crc32(b"hi").to_be_bytes());
    let mut buf = vec![0xFFu8; CLUSTER];
    buf[5..5 + p.len()].copy_from_slice(&p);
    assert_eq!(find_v1_file_start(&buf), Some(5));
    let h = parse_v1_header(&buf, 5, SIZE as usize).unwrap();
    assert_eq!((h.start, h.name_len, h.data_len), (5, 2, 2));
    assert_eq!(h.payload_len(), 28);
    assert_eq!(h.need_clusters(), 1);
    assert_eq!(split_v1_payload(&p, &h), Some((22, 24)));
    let mut bad = p.clone();
    bad[22] ^= 1;
    assert_eq!(split_v1_payload(&bad, &h), None);
    assert_eq!(find_v1_file_start(&vec![0xFFu8; CLUSTER]), None);
    let big = V1Header { start: 0, name_len: 10, data_len: 4060 };
    assert_eq!(big.payload_len(), 4094);
    assert_eq!(big.need_clusters(), 2);
}

#[test]
fn write_beside_a_corrupted_file() {
    let mut s = fresh();
    s.write_bytes("/a", &bytes(200, 1)).unwrap();
    s.write_bytes("/b", &bytes(200, 2)).unwrap();
    let mut flash = s.into_storage();
    flash.mem[CLUSTER + 100] ^= 0x5A;
    let mut s = Store::new(flash, 0, SIZE);
    assert_eq!(s.read_bytes("/b"), Err(StoreError::Corrupted));
    s.write_bytes("/c", &bytes(5000, 3)).unwrap();
    assert_eq!(s.read_bytes("/c").unwrap(), bytes(5000, 3));
    assert_eq!(s.read_bytes("/a").unwrap(), bytes(200, 1));
    assert_eq!(s.read_bytes("/b"), Err(StoreError::Corrupted));
}
