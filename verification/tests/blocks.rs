use kernel_core::cache::{
    recover, BlockCacheImpl, Disk, OpContext, SuperBlock, EVICTION_THRESHOLD,
    OP_MAX_NUM_BLOCKS,
};
use kernel_core::mbr::MBR;
use kernel_core::BLOCK_SIZE;

fn small_layout() -> SuperBlock {
    SuperBlock {
        num_blocks: 2000,
        num_data_blocks: 1000,
        num_inodes: 200,
        num_log_blocks: 50,
        log_start: 2,
        inode_start: 52,
        bitmap_start: 900,
    }
}

fn fresh_cache() -> BlockCacheImpl {
    let sblock = small_layout();
    let disk = Disk::new(sblock.num_blocks as usize);
    BlockCacheImpl::init_bcache(sblock, disk)
}

#[test]
fn acquire_reads_and_caches() {
    let mut cache = fresh_cache();
    let s = cache.acquire(1000);
    cache.release(s);
    let reads = cache.disk.reads;
    let s2 = cache.acquire(1000);
    cache.release(s2);
    assert_eq!(cache.disk.reads, reads, "a cached block must not be read again");
}

#[test]
fn dirty_release_then_acquire_sees_synced_bytes() {
    let mut cache = fresh_cache();
    let mut ctx = OpContext::new();
    cache.begin_op(&mut ctx);
    let s = cache.acquire(1500);
    let mut data = vec![0u8; BLOCK_SIZE];
    data[0] = 0xCD;
    cache.set_data(s, data);
    cache.sync(&mut ctx, s);
    cache.release(s);
    let s2 = cache.acquire(1500);
    assert_eq!(cache.slots[s2].data[0], 0xCD);
    cache.release(s2);
    cache.end_op(&mut ctx);
}

#[test]
fn absorption_bounds_disk_writes() {
    // One context syncs the same tail blocks over many rounds; the log
    // absorbs the repeats and the checkpoint writes each block twice plus
    // two header writes.
    let mut cache = fresh_cache();
    let top = cache.sblock.num_blocks as usize;
    let mut ctx = OpContext::new();
    cache.begin_op(&mut ctx);
    for _round in 0..1000 {
        for j in 0..OP_MAX_NUM_BLOCKS {
            let b = top - 1 - j;
            let s = cache.acquire(b);
            let mut data = vec![0u8; BLOCK_SIZE];
            data[0] = 0xCD;
            cache.set_data(s, data);
            cache.sync(&mut ctx, s);
            cache.release(s);
        }
    }
    cache.end_op(&mut ctx);
    assert!(cache.disk.writes < 5 * OP_MAX_NUM_BLOCKS);
    for j in 0..OP_MAX_NUM_BLOCKS {
        let b = top - 1 - j;
        assert_eq!(cache.disk.blocks[b][0], 0xCD);
    }
}

#[test]
fn group_commit_last_writer_wins() {
    // An outer context paints the tail; workers repaint the last three
    // blocks; after the whole group closes, the disk shows the repaint on
    // those three and the outer paint on the rest.
    let mut cache = fresh_cache();
    let top = cache.sblock.num_blocks as usize;
    let mut outer = OpContext::new();
    cache.begin_op(&mut outer);
    for j in 0..OP_MAX_NUM_BLOCKS {
        let b = top - 1 - j;
        let s = cache.acquire(b);
        let mut data = vec![0u8; BLOCK_SIZE];
        data[0] = 0xCC;
        cache.set_data(s, data);
        cache.sync(&mut outer, s);
        cache.release(s);
    }
    let mut workers: Vec<OpContext> = Vec::new();
    for _ in 0..100 {
        let mut w = OpContext::new();
        cache.begin_op(&mut w);
        for j in 0..3 {
            let b = top - 1 - j;
            let s = cache.acquire(b);
            let mut data = vec![0u8; BLOCK_SIZE];
            data[0] = 0xDD;
            cache.set_data(s, data);
            cache.sync(&mut w, s);
            cache.release(s);
        }
        workers.push(w);
    }
    for mut w in workers {
        cache.end_op(&mut w);
    }
    cache.end_op(&mut outer);
    for j in 0..OP_MAX_NUM_BLOCKS {
        let b = top - 1 - j;
        let want = if j < 3 { 0xDD } else { 0xCC };
        assert_eq!(cache.disk.blocks[b][0], want);
    }
}

#[test]
fn boot_replays_cleanly_after_commit() {
    let mut cache = fresh_cache();
    let mut ctx = OpContext::new();
    cache.begin_op(&mut ctx);
    let s = cache.acquire(1600);
    let mut data = vec![0u8; BLOCK_SIZE];
    data[3] = 9;
    cache.set_data(s, data);
    cache.sync(&mut ctx, s);
    cache.release(s);
    cache.end_op(&mut ctx);
    // Crash: only the disk survives; boot replays the (clear) log.
    let snapshot = cache.disk.blocks.clone();
    let rebooted = BlockCacheImpl::boot_bcache(small_layout(), cache.disk);
    assert_eq!(rebooted.disk.blocks, snapshot);
    assert_eq!(rebooted.disk.blocks[1600][3], 9);
}

#[test]
fn replay_after_commit_changes_nothing() {
    let mut cache = fresh_cache();
    let mut ctx = OpContext::new();
    cache.begin_op(&mut ctx);
    let s = cache.acquire(1700);
    let mut data = vec![0u8; BLOCK_SIZE];
    data[7] = 42;
    cache.set_data(s, data);
    cache.sync(&mut ctx, s);
    cache.release(s);
    cache.end_op(&mut ctx);
    // Crash now: only the disk survives. Replay must be a no-op.
    let snapshot: Vec<Vec<u8>> = cache.disk.blocks.clone();
    let n = recover(&mut cache.disk, 2, 50);
    assert_eq!(n, 0);
    assert_eq!(cache.disk.blocks, snapshot);
    assert_eq!(cache.disk.blocks[1700][7], 42);
}

#[test]
fn hot_set_stays_cached() {
    // Accesses that mostly hit a hot set smaller than the threshold read
    // the device far less often than they touch blocks.
    let mut cache = fresh_cache();
    let hot = EVICTION_THRESHOLD * 4 / 5;
    let mut reads_done: usize = 0;
    let mut state: u64 = 12345;
    for i in 0..1000usize {
        state = state.wrapping_mul(6364136223846793005).wrapping_add(1442695040888963407);
        let b = if i % 10 != 0 {
            1000 + (state as usize % hot)
        } else {
            1100 + (state as usize % 800)
        };
        let s = cache.acquire(b);
        cache.release(s);
        reads_done += 1;
    }
    assert_eq!(reads_done, 1000);
    assert!(cache.disk.reads < 233, "reads were {}", cache.disk.reads);
    assert!(cache.disk.writes < 5);
}

#[test]
fn mbr_parses_little_endian_fields() {
    let mut sector = vec![0u8; 512];
    let base = 0x1BE;
    sector[base] = 0x80;
    sector[base + 0x8..base + 0xC].copy_from_slice(&2048u32.to_le_bytes());
    sector[base + 0xC..base + 0x10].copy_from_slice(&409600u32.to_le_bytes());
    let mbr = MBR::parse(&sector);
    assert!(mbr.partitions[0].bootable);
    assert_eq!(mbr.partitions[0].start, 2048);
    assert_eq!(mbr.partitions[0].size, 409600);
    assert!(!mbr.partitions[1].bootable);
    assert_eq!(mbr.partitions[3].size, 0);
}
