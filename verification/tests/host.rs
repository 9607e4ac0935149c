// Host tests: a RAM-backed device stands in for the flash.
use easy_store::{RamFlash, Store, StoreError, MAX_NAME_LEN};

const CLUSTER: usize = 4096;
const FLASH_SIZE: u32 = 0x50000; // 80 clusters

fn new_store() -> Store<RamFlash> {
    Store::new(RamFlash::new(FLASH_SIZE as usize), 0, FLASH_SIZE)
}

// Simulates a restart (runs the healing again).
fn reopen(store: Store<RamFlash>) -> Store<RamFlash> {
    Store::new(store.into_storage(), 0, FLASH_SIZE)
}

fn pattern(n: usize) -> Vec<u8> {
    (0..n).map(|i| (i % 251) as u8).collect()
}

// Indices of the clusters that start with MAGIC.
fn magic_clusters(store: &mut Store<RamFlash>) -> Vec<usize> {
    let magic = [0x01, 0x31, 0x2A, 0xAB];
    let mem = &store.storage_mut().mem;
    (0..mem.len() / CLUSTER)
        .filter(|i| mem[i * CLUSTER..i * CLUSTER + 4] == magic)
        .collect()
}

// Writers of the older format, laid out as that format's own writer did.
const V1_MAGIC: u32 = 0x01311AAB;
const V1_CONT_A: u32 = 0x01311AAC;
const V1_CONT_B: u32 = 0x01311AAD;

fn v1_crc32(data: &[u8]) -> u32 {
    let mut crc: u32 = 0xFFFF_FFFF;
    for &b in data {
        crc ^= b as u32;
        for _ in 0..8 {
            let mask = if (crc & 1) != 0 { 0xEDB8_8320 } else { 0 };
            crc = (crc >> 1) ^ mask;
        }
    }
    !crc
}

fn v1_payload(name: &str, data: &[u8]) -> Vec<u8> {
    let mut p = Vec::new();
    p.extend_from_slice(&V1_MAGIC.to_be_bytes());
    p.extend_from_slice(&(name.len() as u32).to_be_bytes());
    p.extend_from_slice(&(data.len() as u32).to_be_bytes());
    let mut len_block = [0u8; 8];
    len_block[0..4].copy_from_slice(&(name.len() as u32).to_be_bytes());
    len_block[4..8].copy_from_slice(&(data.len() as u32).to_be_bytes());
    p.extend_from_slice(&v1_crc32(&len_block).to_be_bytes());
    p.extend_from_slice(name.as_bytes());
    p.extend_from_slice(&v1_crc32(name.as_bytes()).to_be_bytes());
    p.extend_from_slice(data);
    p.extend_from_slice(&v1_crc32(data).to_be_bytes());
    p
}

// A single-cluster file (the older format pads the front with 0xFF; front_pad stands for it).
fn v1_write_single(mem: &mut [u8], cluster: usize, name: &str, data: &[u8], front_pad: usize) {
    let p = v1_payload(name, data);
    assert!(front_pad + p.len() <= CLUSTER - 8, "payload does not fit one cluster");
    let base = cluster * CLUSTER;
    mem[base..base + CLUSTER].fill(0xFF);
    mem[base + front_pad..base + front_pad + p.len()].copy_from_slice(&p);
}

// A file of several clusters: 4088 payload bytes in the first, 4080 in each later one,
// linked by absolute addresses.
fn v1_write_multi(mem: &mut [u8], clusters: &[usize], name: &str, data: &[u8]) {
    let p = v1_payload(name, data);
    let mut off = 0usize;
    for (k, &c) in clusters.iter().enumerate() {
        let base = c * CLUSTER;
        mem[base..base + CLUSTER].fill(0xFF);
        if k == 0 {
            let take = (CLUSTER - 8).min(p.len());
            mem[base..base + take].copy_from_slice(&p[..take]);
            off = take;
        } else {
            mem[base..base + 4].copy_from_slice(&V1_CONT_B.to_be_bytes());
            let prev = (clusters[k - 1] * CLUSTER) as u32;
            mem[base + 4..base + 8].copy_from_slice(&prev.to_be_bytes());
            let take = (CLUSTER - 16).min(p.len() - off);
            mem[base + 8..base + 8 + take].copy_from_slice(&p[off..off + take]);
            off += take;
        }
        if k + 1 < clusters.len() {
            mem[base + CLUSTER - 8..base + CLUSTER - 4].copy_from_slice(&V1_CONT_A.to_be_bytes());
            let next = (clusters[k + 1] * CLUSTER) as u32;
            mem[base + CLUSTER - 4..base + CLUSTER].copy_from_slice(&next.to_be_bytes());
        }
    }
    assert_eq!(off, p.len(), "cluster count does not match the payload length");
}

#[test]
fn roundtrip_small() {
    let mut s = new_store();
    s.write("/data/a.txt", "Hello World!!!").unwrap();
    assert_eq!(s.read("/data/a.txt").unwrap(), "Hello World!!!");
    assert_eq!(s.read_bytes("/data/a.txt").unwrap(), b"Hello World!!!");
}

#[test]
fn roundtrip_multi_cluster() {
    let mut s = new_store();
    let data = pattern(12000);
    s.write_bytes("/data/big.bin", &data).unwrap();
    assert_eq!(s.read_bytes("/data/big.bin").unwrap(), data);
}

#[test]
fn roundtrip_empty_file() {
    let mut s = new_store();
    s.write_bytes("/empty", &[]).unwrap();
    assert!(s.file_exists("/empty"));
    assert_eq!(s.read_bytes("/empty").unwrap(), Vec::<u8>::new());
    assert_eq!(s.file_size("/empty").unwrap(), 0);
}

// Sizes around every cluster boundary.
#[test]
fn boundary_size_sweep() {
    let name = "/data/x.bin"; // 11 bytes: the first cluster holds 4060 - 11 = 4049 data bytes
    let cap0 = 4060 - name.len();
    let mut sizes: Vec<usize> = Vec::new();
    for base in [cap0, cap0 + 4080, cap0 + 2 * 4080] {
        for delta in -6i64..=6 {
            let v = base as i64 + delta;
            if v >= 0 {
                sizes.push(v as usize);
            }
        }
    }
    for d in sizes {
        let mut s = new_store();
        let data = pattern(d);
        s.write_bytes(name, &data).unwrap();
        let r = s.read_bytes(name).unwrap();
        assert_eq!(r, data, "round trip of {} bytes failed", d);
        assert_eq!(s.file_size(name).unwrap(), d);
    }
}

#[test]
fn max_name_length() {
    // A name of the maximum length leaves no data room in the first cluster.
    let name: String = std::iter::repeat('n').take(MAX_NAME_LEN).collect();
    let data = pattern(5000);
    let mut s = new_store();
    s.write_bytes(&name, &data).unwrap();
    assert_eq!(s.read_bytes(&name).unwrap(), data);

    // Empty data is stored too.
    s.write_bytes(&name, &[]).unwrap();
    assert_eq!(s.read_bytes(&name).unwrap(), Vec::<u8>::new());
}

#[test]
fn name_too_long_rejected() {
    let name: String = std::iter::repeat('n').take(MAX_NAME_LEN + 1).collect();
    let mut s = new_store();
    assert_eq!(s.write_bytes(&name, b"hi"), Err(StoreError::NameTooLong));
    assert!(s.files().is_empty());
}

#[test]
fn not_found_errors() {
    let mut s = new_store();
    assert_eq!(s.read("/none"), Err(StoreError::NotFound));
    assert_eq!(s.read_bytes("/none"), Err(StoreError::NotFound));
    assert_eq!(s.file_size("/none"), Err(StoreError::NotFound));
    assert_eq!(s.delete("/none"), Err(StoreError::NotFound));
    assert_eq!(s.read_range("/none", 0, &mut [0u8; 4]), Err(StoreError::NotFound));
    assert!(!s.file_exists("/none"));
}

#[test]
fn not_utf8_error() {
    let mut s = new_store();
    s.write_bytes("/bin", &[0xFF, 0xFE, 0x00, 0x9C]).unwrap();
    assert_eq!(s.read("/bin"), Err(StoreError::NotUtf8));
    assert_eq!(s.read_bytes("/bin").unwrap(), vec![0xFF, 0xFE, 0x00, 0x9C]);
}

#[test]
fn overwrite_replaces_content() {
    let mut s = new_store();
    let big = pattern(9000);
    s.write_bytes("/cfg", &big).unwrap();
    s.write("/cfg", "v2").unwrap();
    assert_eq!(s.read("/cfg").unwrap(), "v2");
    assert_eq!(s.files(), vec![String::from("/cfg")]);
    // The three old clusters are released; one is left.
    assert_eq!(s.used_space(), CLUSTER as u32);
}

#[test]
fn exists_is_exact_match() {
    let mut s = new_store();
    s.write("/data/foo.txt", "x").unwrap();
    assert!(s.file_exists("/data/foo.txt"));
    assert!(!s.file_exists("/data"));
    assert!(!s.file_exists("/data/"));
}

#[test]
fn delete_frees_space() {
    let mut s = new_store();
    let data = pattern(10000);
    s.write_bytes("/a", &data).unwrap();
    assert!(s.used_space() > 0);
    s.delete("/a").unwrap();
    assert_eq!(s.used_space(), 0);
    assert_eq!(s.read_bytes("/a"), Err(StoreError::NotFound));
    // The space is reused after the delete.
    s.write_bytes("/a", &data).unwrap();
    assert_eq!(s.read_bytes("/a").unwrap(), data);
}

#[test]
fn delete_all_data() {
    let mut s = new_store();
    s.write("/a", "1").unwrap();
    s.write_bytes("/b", &pattern(9000)).unwrap();
    s.delete_all_data().unwrap();
    assert!(s.files().is_empty());
    assert_eq!(s.used_space(), 0);
}

#[test]
fn wear_leveling_cursor_rotates() {
    let mut s = new_store();
    s.write("/w", "1").unwrap();
    assert_eq!(magic_clusters(&mut s), vec![0]);
    s.delete("/w").unwrap();
    // The next write goes on with cluster 1 instead of going back to cluster 0.
    s.write("/w", "2").unwrap();
    assert_eq!(magic_clusters(&mut s), vec![1]);
}

#[test]
fn no_space_rejected_cleanly() {
    let mut s = new_store();
    // 81 clusters needed, 80 available.
    let too_big = 4060 - 2 + 80 * 4080; // name "/f": 4058 bytes in the first cluster, 80 more clusters are not enough
    assert_eq!(
        s.write_bytes("/f", &pattern(too_big)),
        Err(StoreError::NoSpace)
    );
    assert!(s.files().is_empty());
    assert_eq!(s.used_space(), 0);
}

#[test]
fn overwrite_needs_space_for_both_copies() {
    let mut s = new_store();
    // Takes 79 clusters: 4056 bytes in the first one ("/big" has 4 bytes), then 78 more.
    let d79 = 4056 + 78 * 4080;
    s.write_bytes("/big", &pattern(d79)).unwrap();
    s.write("/one", "x").unwrap(); // the 80th cluster
    assert_eq!(s.free_space(), 0);
    // Full: a new file is refused.
    assert_eq!(s.write("/more", "y"), Err(StoreError::NoSpace));
    // Overwriting /one needs room for both copies, so it fails and the old copy stays.
    assert_eq!(s.write("/one", "changed"), Err(StoreError::NoSpace));
    assert_eq!(s.read("/one").unwrap(), "x");
    // After deleting the big file the write goes through.
    s.delete("/big").unwrap();
    s.write("/one", "changed").unwrap();
    assert_eq!(s.read("/one").unwrap(), "changed");
}

#[test]
fn read_range_windows() {
    let mut s = new_store();
    let name = "/r.bin"; // 6 bytes: 4054 data bytes in the first cluster
    let data = pattern(10000);
    s.write_bytes(name, &data).unwrap();

    // Start of the file.
    let mut buf = [0u8; 100];
    assert_eq!(s.read_range(name, 0, &mut buf).unwrap(), 100);
    assert_eq!(&buf[..], &data[0..100]);

    // Across the boundary between the first and the second cluster.
    let mut buf = [0u8; 20];
    assert_eq!(s.read_range(name, 4044, &mut buf).unwrap(), 20);
    assert_eq!(&buf[..], &data[4044..4064]);

    // End of the file: asking for more than is left gives what is left.
    let mut buf = [0u8; 100];
    assert_eq!(s.read_range(name, 9990, &mut buf).unwrap(), 10);
    assert_eq!(&buf[..10], &data[9990..10000]);

    // An offset at or past the end gives 0.
    assert_eq!(s.read_range(name, 10000, &mut buf).unwrap(), 0);
    assert_eq!(s.read_range(name, 99999, &mut buf).unwrap(), 0);

    // An empty buffer gives 0.
    assert_eq!(s.read_range(name, 0, &mut []).unwrap(), 0);

    // The whole file through read_range matches read_bytes.
    let mut all = vec![0u8; 10000];
    assert_eq!(s.read_range(name, 0, &mut all).unwrap(), 10000);
    assert_eq!(all, data);

    // Only the last cluster (the earlier ones are skipped by their chain marks).
    let mut tail = vec![0u8; 500];
    assert_eq!(s.read_range(name, 9000, &mut tail).unwrap(), 500);
    assert_eq!(&tail[..], &data[9000..9500]);
}

#[test]
fn append_cases() {
    let mut s = new_store();
    // Missing: the file is created.
    s.append("/log", "line1\n").unwrap();
    s.append("/log", "line2\n").unwrap();
    s.append("/log", "line3\n").unwrap();
    assert_eq!(s.read("/log").unwrap(), "line1\nline2\nline3\n");

    // Appending across a cluster boundary.
    let mut expect = pattern(4000);
    s.write_bytes("/grow", &expect).unwrap();
    let extra = pattern(5000);
    s.append_bytes("/grow", &extra).unwrap();
    expect.extend_from_slice(&extra);
    assert_eq!(s.read_bytes("/grow").unwrap(), expect);
    assert_eq!(s.file_size("/grow").unwrap(), 9000);
}

#[test]
fn rename_cases() {
    let mut s = new_store();
    s.write("/old", "content").unwrap();
    s.rename("/old", "/new").unwrap();
    assert_eq!(s.read("/new").unwrap(), "content");
    assert_eq!(s.read("/old"), Err(StoreError::NotFound));

    // An existing target is replaced.
    s.write("/target", "will be replaced").unwrap();
    s.rename("/new", "/target").unwrap();
    assert_eq!(s.read("/target").unwrap(), "content");
    assert!(!s.file_exists("/new"));

    // A missing source gives NotFound.
    assert_eq!(s.rename("/ghost", "/x"), Err(StoreError::NotFound));

    // Same name: nothing to do.
    s.rename("/target", "/target").unwrap();
    assert_eq!(s.read("/target").unwrap(), "content");
    assert_eq!(s.rename("/ghost", "/ghost"), Err(StoreError::NotFound));
}

#[test]
fn read_dir_semantics() {
    let mut s = new_store();
    s.write("/data/foo.txt", "1").unwrap();
    s.write("/data/sub/a.txt", "2").unwrap();
    s.write("/data/sub/b.txt", "3").unwrap();
    s.write("/data2/other.txt", "4").unwrap();
    s.write("/top", "5").unwrap();

    let mut entries = s.read_dir("/data");
    entries.sort();
    assert_eq!(entries, vec!["/data/foo.txt", "/data/sub/"]);

    // A trailing slash names the same directory.
    assert_eq!(s.read_dir("/data"), s.read_dir("/data/"));

    let mut root = s.read_dir("/");
    root.sort();
    assert_eq!(root, vec!["/data/", "/data2/", "/top"]);

    let mut sub = s.read_dir("/data/sub");
    sub.sort();
    assert_eq!(sub, vec!["/data/sub/a.txt", "/data/sub/b.txt"]);
}

#[test]
fn delete_dir_cases() {
    let mut s = new_store();
    s.write("/data/a", "1").unwrap();
    s.write("/data/sub/b", "2").unwrap();
    s.write("/data2/c", "3").unwrap();
    s.write("/top", "4").unwrap();

    assert_eq!(s.delete_dir("/data").unwrap(), 2);
    let mut left = s.files();
    left.sort();
    assert_eq!(left, vec!["/data2/c", "/top"]);

    // Nothing to delete gives 0.
    assert_eq!(s.delete_dir("/none").unwrap(), 0);
}

#[test]
fn persistence_across_reopen() {
    let mut s = new_store();
    let data = pattern(9000);
    s.write_bytes("/keep.bin", &data).unwrap();
    s.write("/keep.txt", "still here").unwrap();
    let mut s = reopen(s);
    assert_eq!(s.read_bytes("/keep.bin").unwrap(), data);
    assert_eq!(s.read("/keep.txt").unwrap(), "still here");
}

#[test]
fn torn_write_reads_as_corrupted_not_panic() {
    // A file of several clusters cut by a power loss: a continuation cluster is gone.
    let mut s = new_store();
    let data = pattern(10000);
    s.write_bytes("/torn.bin", &data).unwrap();
    let chain = magic_clusters(&mut s);
    let first = chain[0];
    // The second cluster of the chain (the address at the end of the first one).
    let next_addr = {
        let mem = &s.storage_mut().mem;
        let off = first * CLUSTER + CLUSTER - 4;
        u32::from_be_bytes(mem[off..off + 4].try_into().unwrap()) as usize
    };
    // Erase it, as if it had never been written.
    s.storage_mut().mem[next_addr..next_addr + CLUSTER].fill(0xFF);

    // Reading reports the damage instead of panicking.
    assert_eq!(s.read_bytes("/torn.bin"), Err(StoreError::Corrupted));

    // After a restart, healing reclaims the remains.
    let mut s = reopen(s);
    assert_eq!(s.read_bytes("/torn.bin"), Err(StoreError::NotFound));
    assert_eq!(s.used_space(), 0);
}

#[test]
fn heal_collects_orphan_continuation() {
    // A continuation cluster whose header never landed.
    let mut s = new_store();
    let cont_b = [0x01u8, 0x31, 0x2A, 0xAD];
    s.storage_mut().mem[3 * CLUSTER..3 * CLUSTER + 4].copy_from_slice(&cont_b);
    assert_eq!(s.used_space(), CLUSTER as u32); // counted as taken for now
    let mut s = reopen(s);
    assert_eq!(s.used_space(), 0); // reclaimed by healing
}

#[test]
fn interrupted_overwrite_keeps_newest_generation() {
    // An overwrite cut after the new copy landed and before the old one was deleted: two copies.
    let mut s = new_store();
    s.write("/cfg", "version-1").unwrap();
    let v1_cluster = magic_clusters(&mut s)[0];
    let snapshot = s.storage_mut().mem[v1_cluster * CLUSTER..(v1_cluster + 1) * CLUSTER].to_vec();

    s.write("/cfg", "version-2").unwrap();
    // Put the first copy's cluster back as it was.
    s.storage_mut().mem[v1_cluster * CLUSTER..(v1_cluster + 1) * CLUSTER].copy_from_slice(&snapshot);
    assert_eq!(magic_clusters(&mut s).len(), 2);

    // Before a restart, a read picks the newer generation.
    assert_eq!(s.read("/cfg").unwrap(), "version-2");
    // files() lists the name once.
    assert_eq!(s.files(), vec![String::from("/cfg")]);

    // After a restart, healing removes the older copy.
    let mut s = reopen(s);
    assert_eq!(magic_clusters(&mut s).len(), 1);
    assert_eq!(s.read("/cfg").unwrap(), "version-2");
}

#[test]
fn corrupted_data_detected_by_crc() {
    let mut s = new_store();
    s.write("/c.txt", "important data").unwrap();
    let first = magic_clusters(&mut s)[0];
    // Flip a data byte (data starts at 28 + name length).
    let data_off = first * CLUSTER + 28 + "/c.txt".len();
    s.storage_mut().mem[data_off] ^= 0x01;
    assert_eq!(s.read("/c.txt"), Err(StoreError::Corrupted));
}

#[test]
fn corrupted_header_makes_file_invisible_and_healed() {
    let mut s = new_store();
    s.write("/h.txt", "data").unwrap();
    let first = magic_clusters(&mut s)[0];
    // Damage the name length: the header CRC fails and the file is invisible.
    s.storage_mut().mem[first * CLUSTER + 7] ^= 0xFF;
    assert_eq!(s.read("/h.txt"), Err(StoreError::NotFound));
    assert!(s.files().is_empty());
    // After a restart the cluster is reclaimed.
    let mut s = reopen(s);
    assert_eq!(s.used_space(), 0);
}

#[test]
fn used_free_capacity_consistency() {
    let mut s = new_store();
    assert_eq!(s.capacity(), FLASH_SIZE);
    s.write_bytes("/a", &pattern(5000)).unwrap();
    s.write("/b", "x").unwrap();
    assert_eq!(s.used_space() + s.free_space(), s.capacity());
    assert_eq!(s.used_space(), 3 * CLUSTER as u32); // 2 + 1 clusters
    s.delete("/a").unwrap();
    assert_eq!(s.used_space(), CLUSTER as u32);
}

#[test]
fn unicode_names_and_content() {
    let mut s = new_store();
    s.write("/資料/系統紀錄檔.txt", "繁體中文內容，含表情符號 \u{1F980}").unwrap();
    assert!(s.file_exists("/資料/系統紀錄檔.txt"));
    assert_eq!(
        s.read("/資料/系統紀錄檔.txt").unwrap(),
        "繁體中文內容，含表情符號 \u{1F980}"
    );
    assert_eq!(s.read_dir("/資料"), vec!["/資料/系統紀錄檔.txt"]);
}

#[test]
fn many_files_fill_and_list() {
    let mut s = new_store();
    for i in 0..40 {
        s.write(&format!("/n/{i:02}.txt"), &format!("file {i}")).unwrap();
    }
    assert_eq!(s.files().len(), 40);
    for i in 0..40 {
        assert_eq!(s.read(&format!("/n/{i:02}.txt")).unwrap(), format!("file {i}"));
    }
    assert_eq!(s.delete_dir("/n").unwrap(), 40);
    assert_eq!(s.used_space(), 0);
}

// ============================ migration of the older format ============================
// Files of the older format are laid out in RAM and Store::new migrates them.

// No cluster holds a mark of the older format after its 0xFF padding.
fn no_v1_left(mem: &[u8]) -> bool {
    for c in 0..mem.len() / CLUSTER {
        let cl = &mem[c * CLUSTER..(c + 1) * CLUSTER];
        let mut i = 0;
        while i < cl.len() && cl[i] == 0xFF {
            i += 1;
        }
        if i + 4 <= cl.len() {
            let w = u32::from_be_bytes(cl[i..i + 4].try_into().unwrap());
            if w == 0x01311AAB || w == 0x01311AAD {
                return false;
            }
        }
    }
    true
}

#[test]
fn migrate_v1_basic() {
    let mut flash = RamFlash::new(FLASH_SIZE as usize);
    let big = pattern(12000);
    v1_write_single(&mut flash.mem, 0, "/wifi/ssid.txt", b"MyHomeWiFi", 0);
    v1_write_single(&mut flash.mem, 2, "/wifi/pass.txt", b"secret123", 37); // with front padding
    v1_write_multi(&mut flash.mem, &[5, 6, 7], "/data/big.bin", &big);

    let mut s = Store::new(flash, 0, FLASH_SIZE);
    assert_eq!(s.read("/wifi/ssid.txt").unwrap(), "MyHomeWiFi");
    assert_eq!(s.read("/wifi/pass.txt").unwrap(), "secret123");
    assert_eq!(s.read_bytes("/data/big.bin").unwrap(), big);
    assert_eq!(s.files().len(), 3);
    assert!(no_v1_left(&s.storage_mut().mem));
    assert_eq!(s.used_space() + s.free_space(), s.capacity());

    // Stable across another restart.
    let mut s = reopen(s);
    assert_eq!(s.read("/wifi/ssid.txt").unwrap(), "MyHomeWiFi");
    assert_eq!(s.files().len(), 3);
}

#[test]
fn migrate_v1_rescues_sizes_v1_could_not_read() {
    // Sizes whose data CRC straddles a cluster boundary.
    for d in [4054usize, 4055, 4056] {
        let mut flash = RamFlash::new(FLASH_SIZE as usize);
        let data = pattern(d);
        v1_write_multi(&mut flash.mem, &[0, 1], "/data/x.bin", &data);
        let mut s = Store::new(flash, 0, FLASH_SIZE);
        assert_eq!(s.read_bytes("/data/x.bin").unwrap(), data, "size {} should be recovered", d);
        assert!(no_v1_left(&s.storage_mut().mem));
    }
}

#[test]
fn migrate_v1_resumes_after_interrupted_migration() {
    // A migration cut after the new copy landed and before the old file was erased:
    // the old file is erased and the new copy stays.
    let mut flash = RamFlash::new(FLASH_SIZE as usize);
    v1_write_single(&mut flash.mem, 10, "/cfg", b"from-v1", 0);
    let mut s = Store::new(flash, 0, FLASH_SIZE); // migrated
    assert_eq!(s.read("/cfg").unwrap(), "from-v1");

    v1_write_single(&mut s.storage_mut().mem, 20, "/cfg", b"from-v1", 0);
    let mut s = reopen(s);
    assert_eq!(s.read("/cfg").unwrap(), "from-v1");
    assert_eq!(s.files(), vec![String::from("/cfg")]);
    assert!(no_v1_left(&s.storage_mut().mem));
}

#[test]
fn migrate_v1_corrupt_and_torn_are_reclaimed() {
    let mut flash = RamFlash::new(FLASH_SIZE as usize);
    // A single-cluster file with a bad data CRC.
    v1_write_single(&mut flash.mem, 0, "/bad.bin", &pattern(100), 0);
    flash.mem[28 + "/bad.bin".len()] ^= 0x01; // damages the payload
    // A file of several clusters whose continuation is missing.
    let p = v1_payload("/torn.bin", &pattern(9000));
    let base = 3 * CLUSTER;
    flash.mem[base..base + 4088].copy_from_slice(&p[..4088]);
    flash.mem[base + 4088..base + 4092].copy_from_slice(&0x01311AACu32.to_be_bytes());
    flash.mem[base + 4092..base + 4096].copy_from_slice(&((5 * CLUSTER) as u32).to_be_bytes());
    // An orphan continuation cluster.
    flash.mem[8 * CLUSTER..8 * CLUSTER + 4].copy_from_slice(&0x01311AADu32.to_be_bytes());

    let mut s = Store::new(flash, 0, FLASH_SIZE);
    assert!(s.files().is_empty());
    assert_eq!(s.used_space(), 0); // everything reclaimed
    assert!(no_v1_left(&s.storage_mut().mem));
}

#[test]
fn migrate_v1_duplicate_names_keep_one() {
    // Two copies of one name (the older format has no generation): one is kept.
    let mut flash = RamFlash::new(FLASH_SIZE as usize);
    v1_write_single(&mut flash.mem, 3, "/cfg", b"copy-A", 0);
    v1_write_single(&mut flash.mem, 30, "/cfg", b"copy-B", 0);
    let mut s = Store::new(flash, 0, FLASH_SIZE);
    assert_eq!(s.files(), vec![String::from("/cfg")]);
    let content = s.read("/cfg").unwrap();
    assert!(content == "copy-A" || content == "copy-B");
    assert!(no_v1_left(&s.storage_mut().mem));
}

#[test]
fn migrate_v1_no_space_preserves_data_until_it_fits() {
    // Two free clusters left and the old file needs three: it cannot move yet,
    // stays untouched, and moves at the first start after space is freed.
    let mut s = new_store();
    let big = pattern(4056 + 73 * 4080); // "/big": 74 clusters
    s.write_bytes("/big", &big).unwrap();
    s.write("/one", "x").unwrap(); // the 75th
    let mut flash = s.into_storage();

    let v1_data = pattern(9000); // three clusters either way, two free
    v1_write_multi(&mut flash.mem, &[75, 76, 77], "/keep.bin", &v1_data);
    let snapshot = flash.mem[75 * CLUSTER..78 * CLUSTER].to_vec();

    let mut s = Store::new(flash, 0, FLASH_SIZE);
    assert!(!s.file_exists("/keep.bin")); // not moved yet
    assert_eq!(s.free_space(), 2 * CLUSTER as u32); // the old file's clusters count as taken
    // Filling the free space leaves the old file's clusters alone.
    s.write("/fill1", "a").unwrap();
    s.write("/fill2", "b").unwrap();
    assert_eq!(s.write("/fill3", "c"), Err(StoreError::NoSpace));
    assert_eq!(
        &s.storage_mut().mem[75 * CLUSTER..78 * CLUSTER],
        &snapshot[..],
        "the old file must stay untouched"
    );

    // Free space, restart, and the file moves.
    s.delete("/big").unwrap();
    let mut s = reopen(s);
    assert_eq!(s.read_bytes("/keep.bin").unwrap(), v1_data);
    assert!(no_v1_left(&s.storage_mut().mem));
    assert_eq!(s.read("/one").unwrap(), "x"); // other files unaffected
}

#[test]
fn migrate_v1_mixed_with_v2_files() {
    // Files of both formats in one partition: all of them survive.
    let mut s = new_store();
    s.write("/v2/a.txt", "already v2").unwrap();
    s.write_bytes("/v2/b.bin", &pattern(5000)).unwrap();
    let mut flash = s.into_storage();
    v1_write_single(&mut flash.mem, 40, "/v1/c.txt", "舊格式檔案".as_bytes(), 5);

    let mut s = Store::new(flash, 0, FLASH_SIZE);
    assert_eq!(s.read("/v2/a.txt").unwrap(), "already v2");
    assert_eq!(s.read_bytes("/v2/b.bin").unwrap(), pattern(5000));
    assert_eq!(s.read("/v1/c.txt").unwrap(), "舊格式檔案");
    assert_eq!(s.files().len(), 3);
    assert!(no_v1_left(&s.storage_mut().mem));
}
