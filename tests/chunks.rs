use atomic_chunks::cas::StepRule;
use atomic_chunks::chunks::grant;
use atomic_chunks::AtomicChunksMut;

fn drain<'a, T>(it: &AtomicChunksMut<'a, T>) -> Vec<(usize, &'a [T])> {
    let mut out = vec![];
    while let Some(c) = it.next() {
        out.push(c);
    }
    out
}

#[test]
fn test_ait() {
    let mut v = vec![0, 1, 2, 3, 4, 5, 6, 7, 8, 9, 10];
    let it = AtomicChunksMut::new(&mut v[..], 3);
    let c: Vec<_> = drain(&it);

    assert_eq!(c.iter().map(|&(i, _)| i).collect::<Vec<_>>(), vec![0, 1, 2, 3]);
    assert_eq!(c.iter().map(|&(_, s)| s[0]).collect::<Vec<_>>(), vec![0, 3, 6, 9]);
}

#[test]
fn stress_test_ait() {
    let mut v: Vec<usize> = (0..10000).collect();
    let it = AtomicChunksMut::new(&mut v[..], 3);

    crossbeam::scope(|scope| {
        let mut threads = vec![];
        for _ in 0..10 {
            threads.push(scope.spawn(|_| {
                let mut v = vec![];
                while let Some((_, chunk)) = it.next() {
                    v.push(chunk[0]);
                }
                v
            }));
        }

        let mut seen = vec![false; 10000];
        for thread in threads {
            for first in thread.join().unwrap() {
                assert!(first % 3 == 0);
                assert!(!seen[first]);
                seen[first] = true;
            }
        }
    })
    .unwrap();
}

#[test]
fn single_drain_last_chunk_is_short() {
    let mut v: Vec<i32> = (0..11).collect();
    let it = AtomicChunksMut::new(&mut v[..], 3);
    let c = drain(&it);
    let lens: Vec<usize> = c.iter().map(|&(_, s)| s.len()).collect();
    assert_eq!(lens, vec![3, 3, 3, 2]);
    assert_eq!(c[3].1, &[9, 10][..]);
}

#[test]
fn exact_multiple_has_full_last_chunk() {
    let mut v: Vec<u8> = (0..12).collect();
    let it = AtomicChunksMut::new(&mut v[..], 4);
    let c = drain(&it);
    assert_eq!(c.len(), 3);
    assert_eq!(c[2], (2, &[8u8, 9, 10, 11][..]));
}

#[test]
fn step_longer_than_buffer_gives_one_chunk() {
    let mut v = vec![7, 8];
    let it = AtomicChunksMut::new(&mut v[..], 5);
    let c = drain(&it);
    assert_eq!(c, vec![(0, &[7, 8][..])]);
}

#[test]
fn exhausted_partitioner_stays_exhausted() {
    let mut v: Vec<u32> = (0..5).collect();
    let it = AtomicChunksMut::new(&mut v[..], 2);
    assert_eq!(drain(&it).len(), 3);
    for _ in 0..1000 {
        assert!(it.next().is_none());
    }
}

#[test]
fn concurrent_ranges_tile_the_buffer() {
    for &(len, step) in &[(1usize, 1usize), (10, 4), (997, 7), (1000, 10), (5000, 1)] {
        let mut v: Vec<usize> = (0..len).collect();
        let it = AtomicChunksMut::new(&mut v[..], step);
        let mut ranges = vec![];
        crossbeam::scope(|scope| {
            let mut threads = vec![];
            for _ in 0..8 {
                threads.push(scope.spawn(|_| {
                    let mut got = vec![];
                    while let Some((i, s)) = it.next() {
                        got.push((i, s[0], s[0] + s.len()));
                    }
                    got
                }));
            }
            for t in threads {
                ranges.extend(t.join().unwrap());
            }
        })
        .unwrap();
        ranges.sort();
        assert_eq!(ranges.len(), (len + step - 1) / step);
        let mut expected_start = 0;
        for (k, &(i, start, end)) in ranges.iter().enumerate() {
            assert_eq!(i, k);
            assert_eq!(start, expected_start);
            assert!(end > start && end - start <= step);
            expected_start = end;
        }
        assert_eq!(expected_start, len);
        let last = ranges[ranges.len() - 1];
        let expected_last = if len % step != 0 { len % step } else { step };
        assert_eq!(last.2 - last.1, expected_last);
    }
}

#[test]
fn advance_rule_values() {
    let rule = StepRule::Advance { len: 11, step: 3 };
    assert_eq!(rule.apply(0), Some(3));
    assert_eq!(rule.apply(6), Some(9));
    assert_eq!(rule.apply(9), Some(11));
    assert_eq!(rule.apply(11), None);
    assert_eq!(rule.apply(12), None);
    let near_max = StepRule::Advance { len: usize::MAX, step: 10 };
    assert_eq!(near_max.apply(usize::MAX - 4), Some(usize::MAX));
}

#[test]
fn grant_cuts_the_chunk_at_a_start() {
    let v: Vec<i32> = (0..11).collect();
    assert_eq!(grant(&v[..], 3, 0), (0, &[0, 1, 2][..]));
    assert_eq!(grant(&v[..], 3, 9), (3, &[9, 10][..]));
    assert_eq!(grant(&v[..], 4, 8), (2, &[8, 9, 10][..]));
}

#[test]
fn cursor_rule_follows_buffer_and_step() {
    let mut v: Vec<i32> = (0..11).collect();
    let it = AtomicChunksMut::new(&mut v[..], 3);
    assert_eq!(it.cursor_rule(), StepRule::Advance { len: 11, step: 3 });
}
