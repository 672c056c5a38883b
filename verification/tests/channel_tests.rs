use rasterbuf::channel::Channel;
use rasterbuf::chunk::chunk_count_exec;
use rasterbuf::error::AllocError;

#[test]
fn channel_test_mt() {
    let mut c = Channel::new(2, 2).unwrap();
    {
        let wl = c.write();
        let mut iter = wl.iter_mut();
        let mut i = 0;
        while let Some(mut block) = iter.next() {
            println!("{}. {:?}", i, block.offset());
            block.set(0, 0, 0);
            block.set(1, 0, 1);
            block.set(0, 1, 2);
            block.set(1, 1, 3);
            iter.absorb(block);
            i += 1;
        }
        let wl = iter.finish();
        c.release_write(wl);
    }
    let g = c.read();
    assert_eq!(
        g.raw().as_slice(),
        &[0, 1, 2, 3],
        "Channel should contain values, but doesn't"
    );
    c.release_read(g);
}

#[test]
fn new_channel_is_zeroed() {
    for &(w, h) in &[(1, 1), (2, 2), (5, 3), (64, 64), (130, 70)] {
        let mut c = Channel::new(w, h).unwrap();
        assert_eq!(c.locked(), 0);
        let g = c.read();
        assert_eq!(g.size(), (w, h));
        assert_eq!(g.raw().len(), w * h, "Channel should be zeroed");
        assert!(g.raw().iter().all(|&v| v == 0), "Channel should be zeroed");
        c.release_read(g);
        assert_eq!(c.locked(), 0);
    }
}

#[test]
fn new_rejects_zero_dimension() {
    assert!(matches!(Channel::new(0, 7), Err(AllocError::Layout)));
    assert!(matches!(Channel::new(7, 0), Err(AllocError::Layout)));
    assert!(matches!(Channel::new(0, 0), Err(AllocError::Layout)));
}

#[test]
fn new_rejects_overflowing_product() {
    assert!(matches!(
        Channel::new(usize::MAX, 2),
        Err(AllocError::Layout)
    ));
    assert!(matches!(
        Channel::new(usize::MAX, usize::MAX),
        Err(AllocError::Layout)
    ));
}

#[test]
fn write_read_round_trip_is_exact() {
    let mut c = Channel::new(2, 2).unwrap();
    {
        let mut wl = c.write();
        let writeable = wl.raw_mut();
        writeable[1] = 25;
        writeable[2] = 50;
        writeable[3] = 75;
        c.release_write(wl);
    }
    assert_eq!(c.locked(), 0);
    let g = c.read();
    assert_eq!(
        g.raw().as_slice(),
        &[0, 25, 50, 75],
        "Channel should contain values, but doesn't"
    );
    c.release_read(g);
    assert_eq!(c.locked(), 0);
}

#[test]
fn indexed_access_matches_raw() {
    let mut c = Channel::new(3, 2).unwrap();
    let mut wl = c.write();
    wl.set(2, 1, 42);
    wl.set(0, 1, 9);
    assert_eq!(wl.get(2, 1), 42);
    assert_eq!(wl.get(0, 0), 0);
    c.release_write(wl);
    let g = c.read();
    assert_eq!(g.get(2, 1), 42);
    assert_eq!(g.get(0, 1), 9);
    assert_eq!(g.raw().as_slice(), &[0, 0, 0, 9, 0, 42]);
    c.release_read(g);
}

#[test]
fn writer_excludes_readers_and_writers() {
    let mut c = Channel::new(2, 2).unwrap();
    let wl = c.try_write().expect("free channel must grant a writer");
    assert_eq!(c.locked(), -1);
    assert!(c.try_read().is_none());
    assert!(c.try_write().is_none());
    c.release_write(wl);
    assert_eq!(c.locked(), 0);
    let g = c.try_read().expect("released channel must grant a reader");
    c.release_read(g);
}

#[test]
fn readers_share_and_exclude_writer() {
    let mut c = Channel::new(2, 2).unwrap();
    let g1 = c.try_read().unwrap();
    let g2 = c.try_read().unwrap();
    let g3 = c.try_read().unwrap();
    assert_eq!(c.locked(), 3);
    assert!(c.try_write().is_none());
    c.release_read(g1);
    assert_eq!(c.locked(), 2);
    assert!(c.try_write().is_none());
    c.release_read(g2);
    c.release_read(g3);
    assert_eq!(c.locked(), 0);
    let wl = c.try_write().expect("all readers gone, writer must enter");
    c.release_write(wl);
}

#[test]
fn chunk_partition_covers_exactly() {
    // 130 x 70 at the default edge of 64: 3 columns, 2 rows, 6 chunks.
    let (w, h) = (130usize, 70usize);
    let mut c = Channel::new(w, h).unwrap();
    let wl = c.write();
    let mut iter = wl.iter_mut();
    let (lo, hi) = iter.size_hint();
    assert_eq!(lo, 6);
    assert_eq!(hi, Some(6));
    let mut covered = vec![0u32; w * h];
    let mut count = 0;
    while let Some(block) = iter.next() {
        let ((x0, y0), (x1, y1)) = block.bounds();
        assert!(x0 < x1 && x1 <= w && y0 < y1 && y1 <= h);
        assert_eq!(block.width(), x1 - x0);
        assert_eq!(block.height(), y1 - y0);
        assert_eq!(block.raw().len(), (x1 - x0) * (y1 - y0));
        for y in y0..y1 {
            for x in x0..x1 {
                covered[y * w + x] += 1;
            }
        }
        count += 1;
        iter.absorb(block);
    }
    assert_eq!(count, 6, "count must equal ceil(h/s) * ceil(w/s)");
    assert!(
        covered.iter().all(|&n| n == 1),
        "chunks must cover every cell exactly once"
    );
    let wl = iter.finish();
    c.release_write(wl);
}

#[test]
fn chunk_count_matches_formula() {
    assert_eq!(chunk_count_exec(100, 100, 64), 4);
    assert_eq!(chunk_count_exec(130, 70, 64), 6);
    assert_eq!(chunk_count_exec(1, 1, 1), 1);
    assert_eq!(chunk_count_exec(64, 64, 64), 1);
    assert_eq!(chunk_count_exec(65, 64, 64), 2);
    assert_eq!(chunk_count_exec(2, 2, 64), 1);
}

#[test]
fn chunk_iterator_is_not_restartable() {
    let mut c = Channel::new(65, 1).unwrap();
    let wl = c.write();
    let mut iter = wl.iter_mut();
    let first = iter.next().unwrap();
    let second = iter.next().unwrap();
    assert_eq!(first.offset(), (0, 0));
    assert_eq!(second.offset(), (64, 0));
    assert!(iter.next().is_none());
    assert!(iter.next().is_none());
    assert_eq!(iter.size_hint(), (0, Some(0)));
    iter.absorb(first);
    iter.absorb(second);
    let wl = iter.finish();
    c.release_write(wl);
}

#[test]
fn chunk_mutations_land_on_disjoint_regions() {
    // 65 x 2 at edge 64 splits into a 64-wide and a 1-wide chunk.
    let (w, h) = (65usize, 2usize);
    let mut c = Channel::new(w, h).unwrap();
    let wl = c.write();
    let mut iter = wl.iter_mut();
    let mut blocks = Vec::new();
    while let Some(block) = iter.next() {
        blocks.push(block);
    }
    assert_eq!(blocks.len(), 2);
    for block in blocks.iter_mut() {
        let ((x0, _), _) = block.bounds();
        let marker = if x0 == 0 { 1 } else { 2 };
        for y in 0..block.height() {
            for x in 0..block.width() {
                block.set(x, y, marker);
            }
        }
    }
    for block in blocks {
        iter.absorb(block);
    }
    let wl = iter.finish();
    c.release_write(wl);
    let g = c.read();
    for y in 0..h {
        for x in 0..w {
            let expected = if x < 64 { 1 } else { 2 };
            assert_eq!(g.get(x, y), expected);
        }
    }
    c.release_read(g);
}

#[test]
fn sized_chunks_partition_small_buffer() {
    // A 4 x 4 buffer at edge 2: four 2 x 2 chunks in row-major order.
    let mut c = Channel::new(4, 4).unwrap();
    let wl = c.write();
    let mut iter = wl.iter_mut_sized(2);
    let mut offsets = Vec::new();
    while let Some(block) = iter.next() {
        offsets.push(block.offset());
        iter.absorb(block);
    }
    assert_eq!(offsets, vec![(0, 0), (2, 0), (0, 2), (2, 2)]);
    let wl = iter.finish();
    c.release_write(wl);
}

#[test]
fn copy_from_replaces_contents_and_dimensions() {
    let mut c = Channel::new(2, 2).unwrap();
    let mut wl = c.write();
    let data = vec![1, 2, 3, 4, 5, 6];
    wl.copy_from(&data, 3, 2);
    assert_eq!(wl.size(), (3, 2));
    c.release_write(wl);
    let g = c.read();
    assert_eq!(g.size(), (3, 2));
    assert_eq!(g.raw().as_slice(), &[1, 2, 3, 4, 5, 6]);
    c.release_read(g);
}

#[test]
fn destruction_is_clean_after_any_sequence() {
    // Channels with zero outstanding guards drop cleanly whatever the prior
    // acquire/release history.
    for _ in 0..3 {
        let mut c = Channel::new(8, 8).unwrap();
        let g1 = c.read();
        let g2 = c.read();
        c.release_read(g2);
        c.release_read(g1);
        let wl = c.write();
        c.release_write(wl);
        let wl = c.write();
        let mut iter = wl.iter_mut();
        let block = iter.next().unwrap();
        iter.absorb(block);
        let wl = iter.finish();
        c.release_write(wl);
        assert_eq!(c.locked(), 0);
        drop(c);
    }
}
