use bidiff::{
    join_chunks, apply_controls, assert_cycle, diff, scan_matches, translate_all, BsdiffIterator, Control,
    DiffParams, Match, OldIndex, ParamError, Translator,
};

fn seeded_bytes(seed: u64, n: usize) -> Vec<u8> {
    let mut x = seed.wrapping_mul(6364136223846793005).wrapping_add(1442695040888963407);
    let mut v = Vec::with_capacity(n);
    for _ in 0..n {
        x = x.wrapping_mul(6364136223846793005).wrapping_add(1442695040888963407);
        v.push((x >> 56) as u8);
    }
    v
}

fn check_tiling(ms: &[Match], old_len: usize, new_len: usize) {
    let mut at = 0;
    for m in ms {
        assert_eq!(m.add_new_start, at);
        assert!(m.add_old_start + m.add_length <= old_len);
        assert!(m.copy_start() <= m.copy_end);
        assert!(m.copy_end <= new_len);
        at = m.copy_end;
    }
    assert_eq!(at, new_len);
}

fn round_trip(older: &[u8], newer: &[u8], params: &DiffParams) -> (Vec<Match>, Vec<Control>) {
    let ms = diff(older, newer, params);
    check_tiling(&ms, older.len(), newer.len());
    let cs = translate_all(older, newer, &ms);
    assert_eq!(cs.len(), ms.len());
    if let Some(last) = cs.last() {
        assert_eq!(last.seek, 0);
    }
    let rebuilt = apply_controls(older, &cs).expect("controls stay inside the old buffer");
    assert_eq!(rebuilt, newer);
    (ms, cs)
}

fn short_older() -> Vec<u8> {
    let mut v = vec![0u8; 29];
    v.extend_from_slice(&[1, 2, 0]);
    v
}

#[test]
fn identical_buffers() {
    let older = short_older();
    let (ms, cs) = round_trip(&older, &older, &DiffParams::default());
    assert!(!ms.is_empty());
    assert_eq!(cs.last().unwrap().seek, 0);
    assert!(assert_cycle(&older, &older));
}

#[test]
fn single_flipped_byte() {
    let older = seeded_bytes(7, 64);
    let k = 20;
    let mut newer = older.clone();
    newer[k] ^= 0x5a;
    let (ms, cs) = round_trip(&older, &newer, &DiffParams::default());
    let hit = ms.iter().zip(cs.iter()).any(|(m, c)| {
        m.add_new_start <= k && k < m.add_new_start + m.add_length && c.add[k - m.add_new_start] != 0
    });
    assert!(hit);
    assert!(assert_cycle(&older, &newer));
}

#[test]
fn prefix_deletion() {
    let older = seeded_bytes(11, 80);
    let d = 13;
    let newer = older[d..].to_vec();
    let (ms, cs) = round_trip(&older, &newer, &DiffParams::default());
    assert_eq!(ms[0].add_old_start, 0);
    assert_eq!(cs.last().unwrap().seek, 0);
    // the old cursor ends past the last diff region
    let mut cursor: i64 = 0;
    for (m, c) in ms.iter().zip(cs.iter()) {
        assert_eq!(cursor, m.add_old_start as i64);
        cursor += c.add.len() as i64 + c.seek;
    }
    let last = ms.last().unwrap();
    assert_eq!(cursor, (last.add_old_start + last.add_length) as i64);
    assert!(assert_cycle(&older, &newer));
}

#[test]
fn empty_new_buffer() {
    let older = seeded_bytes(3, 40);
    let newer: Vec<u8> = Vec::new();
    let (ms, _cs) = round_trip(&older, &newer, &DiffParams::default());
    assert!(ms.is_empty() || (ms.len() == 1 && ms[0].add_length == 0 && ms[0].copy_end == 0));
    assert!(assert_cycle(&older, &newer));
}

#[test]
fn empty_old_buffer() {
    let older: Vec<u8> = Vec::new();
    let newer = seeded_bytes(5, 50);
    let (ms, cs) = round_trip(&older, &newer, &DiffParams::default());
    assert_eq!(ms.len(), 1);
    assert!(cs.iter().all(|c| c.add.is_empty()));
    let copied: Vec<u8> = cs.iter().flat_map(|c| c.copy.iter().copied()).collect();
    assert_eq!(copied, newer);
    assert_eq!(cs.last().unwrap().seek, 0);
    assert!(assert_cycle(&older, &newer));
}

fn perturb(older: &[u8], ops: &[u8]) -> Vec<u8> {
    let mut v = older.to_vec();
    for pair in ops.chunks(2) {
        if pair.len() < 2 || v.is_empty() {
            continue;
        }
        let at = pair[1] as usize % v.len();
        match pair[0] % 4 {
            0 => v[at] = v[at].wrapping_add(pair[1]),
            1 => {
                v.remove(at);
            }
            2 => v.insert(at, pair[1]),
            _ => {
                let src = (at * 7) % v.len();
                let b = v[src];
                v.insert(at, b);
            }
        }
    }
    v
}

#[test]
fn random_perturbations() {
    for seed in 0..200u64 {
        let older = seeded_bytes(seed, 32);
        let ops = seeded_bytes(seed + 1000, 32);
        let newer = perturb(&older, &ops);
        round_trip(&older, &newer, &DiffParams::default());
        assert!(assert_cycle(&older, &newer));
    }
}

#[test]
fn chunked_scan_still_rebuilds() {
    for seed in 0..50u64 {
        let older = seeded_bytes(seed, 120);
        let ops = seeded_bytes(seed + 77, 16);
        let newer = perturb(&older, &ops);
        for chunk in [1usize, 7, 32, 1000] {
            let params = DiffParams::new(2, Some(chunk)).unwrap();
            let (ms, _) = round_trip(&older, &newer, &params);
            if chunk < newer.len() {
                // no match crosses a chunk boundary
                for m in &ms {
                    if m.copy_end > m.add_new_start {
                        assert_eq!(m.add_new_start / chunk, (m.copy_end - 1) / chunk);
                    }
                }
            }
        }
    }
}

#[test]
fn partitions_still_rebuild() {
    let older = seeded_bytes(42, 300);
    let mut newer = older[100..].to_vec();
    newer.extend_from_slice(&older[..90]);
    for parts in [1usize, 2, 3, 16] {
        let params = DiffParams::new(parts, None).unwrap();
        round_trip(&older, &newer, &params);
    }
}

#[test]
fn deterministic_output() {
    let older = seeded_bytes(9, 100);
    let newer = perturb(&older, &seeded_bytes(10, 20));
    let params = DiffParams::new(1, Some(16)).unwrap();
    let a = diff(&older, &newer, &params);
    let b = diff(&older, &newer, &params);
    assert_eq!(a, b);
    let ca = translate_all(&older, &newer, &a);
    let cb = translate_all(&older, &newer, &b);
    for (x, y) in ca.iter().zip(cb.iter()) {
        assert_eq!(x.add, y.add);
        assert_eq!(x.copy, y.copy);
        assert_eq!(x.seek, y.seek);
    }
}

#[test]
fn params_are_checked() {
    assert_eq!(DiffParams::new(0, None).err(), Some(ParamError::SortPartitions));
    assert_eq!(DiffParams::new(0, Some(0)).err(), Some(ParamError::SortPartitions));
    assert_eq!(DiffParams::new(1, Some(0)).err(), Some(ParamError::ScanChunkSize));
    let p = DiffParams::new(4, Some(8)).unwrap();
    assert_eq!(p.sort_partitions(), 4);
    assert_eq!(p.scan_chunk_size(), Some(8));
    let d = DiffParams::default();
    assert_eq!(d.sort_partitions(), 1);
    assert_eq!(d.scan_chunk_size(), None);
    assert_eq!(
        ParamError::SortPartitions.message(),
        "number of sort partitions cannot be less than 1"
    );
    assert_eq!(ParamError::ScanChunkSize.message(), "scan chunk size cannot be less than 1");
}

#[test]
fn translator_records_and_close_once() {
    let older = [10u8, 200, 7, 7];
    let newer = [5u8, 100, 1, 2, 3];
    let mut t = Translator::new(&older, &newer);
    let first = Match { add_old_start: 0, add_new_start: 0, add_length: 2, copy_end: 3 };
    let second = Match { add_old_start: 3, add_new_start: 3, add_length: 1, copy_end: 5 };
    assert!(t.translate(first).is_none());
    let c = t.translate(second).unwrap();
    assert_eq!(c.add, vec![251, 156]);
    assert_eq!(c.copy, vec![1]);
    assert_eq!(c.seek, 1);
    let last = t.close().unwrap();
    assert_eq!(last.add, vec![2u8.wrapping_sub(7)]);
    assert_eq!(last.copy, vec![3]);
    assert_eq!(last.seek, 0);
    assert!(t.close().is_none());
}

#[test]
fn translator_negative_seek() {
    let older = [1u8, 2, 3, 4, 5, 6];
    let newer = [1u8, 2, 3, 4, 2, 3];
    let mut t = Translator::new(&older, &newer);
    assert!(t.translate(Match { add_old_start: 0, add_new_start: 0, add_length: 4, copy_end: 4 }).is_none());
    let c = t.translate(Match { add_old_start: 1, add_new_start: 4, add_length: 2, copy_end: 6 }).unwrap();
    assert_eq!(c.add, vec![0, 0, 0, 0]);
    assert!(c.copy.is_empty());
    assert_eq!(c.seek, -3);
    let rebuilt = apply_controls(&older, &vec![c, t.close().unwrap()]).unwrap();
    assert_eq!(rebuilt, newer);
}

#[test]
fn close_without_matches_sends_nothing() {
    let older = [1u8];
    let newer: [u8; 0] = [];
    let mut t = Translator::new(&older, &newer);
    assert!(t.close().is_none());
    assert!(t.close().is_none());
}

#[test]
fn index_finds_longest_prefix() {
    let text = b"totor";
    let idx = OldIndex::new(text, 1);
    assert_eq!(idx.longest_substring_match(b"tor"), (2, 3));
    assert_eq!(idx.longest_substring_match(b"otor"), (1, 4));
    let (start, len) = idx.longest_substring_match(b"tx");
    assert_eq!(len, 1);
    assert_eq!(text[start], b't');
    assert_eq!(idx.longest_substring_match(b"zzz").1, 0);
    let parts = OldIndex::new(text, 2);
    let (start, len) = parts.longest_substring_match(b"tor");
    assert_eq!(&text[start..start + len], &b"tor"[..len]);
    assert!(len >= 1);
}

#[test]
fn index_over_empty_text() {
    let idx = OldIndex::new(&[], 1);
    assert_eq!(idx.longest_substring_match(b"abc"), (0, 0));
}

#[test]
fn scanner_steps_in_order() {
    let older = seeded_bytes(21, 64);
    let mut newer = older.clone();
    newer[30] ^= 1;
    newer.extend_from_slice(b"tail bytes");
    let idx = OldIndex::new(&older, 1);
    let mut it = BsdiffIterator::new(&older, &newer, &idx);
    let mut ms = Vec::new();
    while let Some(m) = it.next() {
        ms.push(m);
    }
    assert!(it.next().is_none());
    check_tiling(&ms, older.len(), newer.len());
    assert_eq!(ms, scan_matches(&older, &newer, &idx));
}

#[test]
fn joining_chunks_shifts_by_chunk_start() {
    let a = vec![Match { add_old_start: 3, add_new_start: 0, add_length: 2, copy_end: 4 }];
    let b: Vec<Match> = Vec::new();
    let c = vec![
        Match { add_old_start: 1, add_new_start: 0, add_length: 1, copy_end: 2 },
        Match { add_old_start: 9, add_new_start: 2, add_length: 0, copy_end: 4 },
    ];
    let joined = join_chunks(&vec![a, b, c], 4);
    assert_eq!(
        joined,
        vec![
            Match { add_old_start: 3, add_new_start: 0, add_length: 2, copy_end: 4 },
            Match { add_old_start: 1, add_new_start: 8, add_length: 1, copy_end: 10 },
            Match { add_old_start: 9, add_new_start: 10, add_length: 0, copy_end: 12 },
        ]
    );
}

#[test]
fn fresh_scanner_over_empty_new_is_done() {
    let older = seeded_bytes(1, 10);
    let idx = OldIndex::new(&older, 1);
    let mut it = BsdiffIterator::new(&older, &[], &idx);
    assert!(it.next().is_none());
    assert!(it.next().is_none());
}

#[test]
fn empty_old_gives_one_copy_match() {
    let newer = seeded_bytes(8, 30);
    let idx = OldIndex::new(&[], 1);
    let ms = scan_matches(&[], &newer, &idx);
    assert_eq!(ms, vec![Match { add_old_start: 0, add_new_start: 0, add_length: 0, copy_end: 30 }]);
}
