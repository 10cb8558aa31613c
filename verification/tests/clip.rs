use mini_canvas::cache::LruClock;
use mini_canvas::clip::{ClipKey, ClipMemo, CLIP_MEMO_LIMIT};

fn key(kind: u8, x: u32) -> ClipKey {
    ClipKey { kind, params: [x, 2, 3, 4, 0], transform: [1, 0, 0, 1, 0, 0] }
}

#[test]
fn same_key_compares_all_fields() {
    assert!(key(0, 1).same_as(&key(0, 1)));
    assert!(!key(0, 1).same_as(&key(1, 1)));
    assert!(!key(0, 1).same_as(&key(0, 9)));
    let mut other = key(0, 1);
    other.transform[5] = 7;
    assert!(!key(0, 1).same_as(&other));
}

#[test]
fn remembered_mask_is_reused_only_on_matching_clip_state() {
    let mut clock = LruClock::new();
    let mut memo: ClipMemo<&str> = ClipMemo::new();
    let id = memo.remember(key(2, 20), "circle", false, &mut clock);
    assert_eq!(id, 0);
    assert_eq!(memo.reuse(&key(2, 20), None, &mut clock), Some(0));
    assert_eq!(memo.reuse(&key(2, 20), Some(42), &mut clock), None);
    assert_eq!(memo.reuse(&key(2, 20), Some(0), &mut clock), Some(0));
    assert_eq!(memo.reuse(&key(0, 20), None, &mut clock), None);
    assert_eq!(memo.mask(&key(2, 20)), Some(&"circle"));
    let second = memo.remember(key(0, 5), "rect-on-circle", true, &mut clock);
    assert_eq!(second, 1);
    assert_eq!(memo.reuse(&key(0, 5), None, &mut clock), None);
    assert_eq!(memo.reuse(&key(0, 5), Some(1), &mut clock), Some(1));
}

#[test]
fn remembering_same_key_replaces() {
    let mut clock = LruClock::new();
    let mut memo: ClipMemo<u32> = ClipMemo::new();
    memo.remember(key(1, 1), 10, false, &mut clock);
    memo.remember(key(1, 1), 11, true, &mut clock);
    assert_eq!(memo.len(), 1);
    assert_eq!(memo.mask(&key(1, 1)), Some(&11));
}

#[test]
fn memo_evicts_older_half_when_full() {
    let mut clock = LruClock::new();
    let mut memo: ClipMemo<u32> = ClipMemo::new();
    for x in 0..8u32 {
        memo.remember(key(0, x), x, false, &mut clock);
    }
    assert_eq!(memo.len(), 8);
    memo.remember(key(0, 100), 100, false, &mut clock);
    assert_eq!(memo.len(), 5);
    for x in 0..4u32 {
        assert_eq!(memo.mask(&key(0, x)), None);
    }
    for x in 4..8u32 {
        assert_eq!(memo.mask(&key(0, x)), Some(&x));
    }
}

#[test]
fn clip_memo_stays_within_limit_when_alternating() {
    let mut clock = LruClock::new();
    let mut memo: ClipMemo<u32> = ClipMemo::new();
    for round in 0..5u32 {
        for kind in 0..3u8 {
            let k = key(kind, 10);
            if memo.reuse(&k, None, &mut clock).is_none() {
                memo.remember(k, round, false, &mut clock);
            }
        }
    }
    assert_eq!(memo.len(), 3);
    for x in 0..40u32 {
        memo.remember(key(5, x), x, false, &mut clock);
        assert!(memo.len() <= CLIP_MEMO_LIMIT);
    }
}
