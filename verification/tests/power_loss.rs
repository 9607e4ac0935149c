// A power loss cut in at every device write of an operation, then the store reopened.
use easy_store::{Flash, RamFlash, Store, StoreError};

const SIZE: u32 = 0x10000; // 16 clusters

/// A device in RAM that loses power after a given number of writes: later writes fail
/// and change nothing.
struct CutFlash {
    mem: Vec<u8>,
    writes_left: usize,
}

impl Flash for CutFlash {
    fn read(&mut self, offset: u32, bytes: &mut [u8]) -> Result<(), ()> {
        let o = offset as usize;
        if o + bytes.len() > self.mem.len() {
            return Err(());
        }
        bytes.copy_from_slice(&self.mem[o..o + bytes.len()]);
        Ok(())
    }

    fn write(&mut self, offset: u32, bytes: &[u8]) -> Result<(), ()> {
        let o = offset as usize;
        if self.writes_left == 0 || o + bytes.len() > self.mem.len() {
            return Err(());
        }
        self.writes_left -= 1;
        self.mem[o..o + bytes.len()].copy_from_slice(bytes);
        Ok(())
    }
}

fn big(n: usize, seed: u8) -> Vec<u8> {
    (0..n).map(|i| (i as u8).wrapping_mul(13).wrapping_add(seed)).collect()
}

/// A partition holding `/a` (spanning three clusters) and `/b`.
fn start() -> Vec<u8> {
    let mut s = Store::new(RamFlash::new(SIZE as usize), 0, SIZE);
    s.write_bytes("/a", &big(9000, 1)).unwrap();
    s.write("/b", "other").unwrap();
    s.into_storage().mem
}

/// Runs `op` on a store over `mem` whose device loses power after `cut` writes, and
/// reopens the store on what is left.
fn cut_then_reopen(mem: &[u8], cut: usize, op: &dyn Fn(&mut Store<CutFlash>)) -> Store<RamFlash> {
    let mut s = Store::new(CutFlash { mem: mem.to_vec(), writes_left: cut }, 0, SIZE);
    op(&mut s);
    let left = s.into_storage().mem;
    Store::new(RamFlash { mem: left }, 0, SIZE)
}

#[test]
fn power_loss_during_write_keeps_old_or_new() {
    let mem = start();
    let old = big(9000, 1);
    let new = big(13000, 2);
    let mut saw_old = false;
    let mut saw_new = false;
    for cut in 0..12 {
        let mut r = cut_then_reopen(&mem, cut, &|s| {
            let _ = s.write_bytes("/a", &new);
        });
        let got = r.read_bytes("/a").unwrap();
        assert!(got == old || got == new, "cut after {} writes", cut);
        saw_old |= got == old;
        saw_new |= got == new;
        assert_eq!(r.read("/b").unwrap(), "other");
        assert_eq!(r.files().len(), 2);
    }
    assert!(saw_old && saw_new);
}

#[test]
fn power_loss_during_append_keeps_old_or_new() {
    let mem = start();
    let old = big(9000, 1);
    let mut grown = old.clone();
    grown.extend_from_slice(b"tail");
    for cut in 0..10 {
        let mut r = cut_then_reopen(&mem, cut, &|s| {
            let _ = s.append_bytes("/a", b"tail");
        });
        let got = r.read_bytes("/a").unwrap();
        assert!(got == old || got == grown, "cut after {} writes", cut);
        assert_eq!(r.read("/b").unwrap(), "other");
    }
}

#[test]
fn power_loss_during_delete_keeps_old_or_nothing() {
    let mem = start();
    let old = big(9000, 1);
    let mut saw_gone = false;
    for cut in 0..6 {
        let mut r = cut_then_reopen(&mem, cut, &|s| {
            let _ = s.delete("/a");
        });
        match r.read_bytes("/a") {
            Ok(got) => assert_eq!(got, old, "cut after {} writes", cut),
            Err(e) => {
                assert_eq!(e, StoreError::NotFound, "cut after {} writes", cut);
                saw_gone = true;
            },
        }
        assert_eq!(r.read("/b").unwrap(), "other");
    }
    assert!(saw_gone);
}

#[test]
fn power_loss_during_rename_never_loses_the_content() {
    let mem = start();
    let old = big(9000, 1);
    for cut in 0..12 {
        let mut r = cut_then_reopen(&mem, cut, &|s| {
            let _ = s.rename("/a", "/c");
        });
        let a = r.read_bytes("/a");
        let c = r.read_bytes("/c");
        assert!(a == Ok(old.clone()) || a == Err(StoreError::NotFound), "cut after {} writes", cut);
        assert!(c == Ok(old.clone()) || c == Err(StoreError::NotFound), "cut after {} writes", cut);
        assert!(a == Ok(old.clone()) || c == Ok(old.clone()), "cut after {} writes", cut);
        assert_eq!(r.read("/b").unwrap(), "other");
    }
}
