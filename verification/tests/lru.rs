use kvs::{BoundedLRU, CacheError};
use std::cell::RefCell;

fn cache_of(capacity: usize) -> BoundedLRU<String, u32> {
    match BoundedLRU::new(capacity) {
        Ok(cache) => cache,
        Err(e) => panic!("capacity {} refused: {:?}", capacity, e),
    }
}

fn key(name: &str) -> String {
    name.to_string()
}

#[test]
fn zero_capacity_is_refused() {
    let built = BoundedLRU::<u64, u64>::new(0);
    assert_eq!(built.err(), Some(CacheError::InvalidCapacity));
}

#[test]
fn positive_capacity_is_accepted() {
    assert!(BoundedLRU::<u64, u64>::new(1).is_ok());
    assert!(BoundedLRU::<String, String>::new(1000).is_ok());
}

#[test]
fn new_cache_is_empty() {
    let cache = cache_of(4);
    assert_eq!(cache.len(), 0);
    assert!(cache.is_empty());
    assert_eq!(cache.capacity(), 4);
    assert_eq!(cache.keys(), Vec::<String>::new());
}

#[test]
fn len_never_exceeds_capacity() {
    let mut cache = BoundedLRU::<u64, u64>::new(3).unwrap_or_else(|e| panic!("{:?}", e));
    for i in 0..50u64 {
        cache.put(i % 7, i);
        assert!(cache.len() <= cache.capacity());
        let expected = if i < 3 { i as usize + 1 } else { 3 };
        assert_eq!(cache.len(), expected);
    }
    assert_eq!(cache.capacity(), 3);
}

#[test]
fn get_refreshes_recency() {
    let capacity = 4;
    let mut cache = BoundedLRU::<u64, u64>::new(capacity).unwrap_or_else(|e| panic!("{:?}", e));
    for k in 1..=capacity as u64 {
        assert_eq!(cache.put(k, k * 10), None);
    }
    assert_eq!(cache.get(&1), Some(&10));
    let (previous, evicted) = cache.put_evicted(99, 990);
    assert_eq!(previous, None);
    assert_eq!(evicted, Some((2, 20)));
    assert_eq!(cache.peek(&1), Some(&10));
    assert_eq!(cache.peek(&2), None);
    assert_eq!(cache.keys(), vec![99, 1, 4, 3]);
}

#[test]
fn overflow_evicts_least_recently_used() {
    let mut cache = cache_of(2);
    cache.put(key("a"), 1);
    cache.put(key("b"), 2);
    cache.put(key("c"), 3);
    assert_eq!(cache.len(), 2);
    assert_eq!(cache.peek(&key("a")), None);
    assert_eq!(cache.peek(&key("b")), Some(&2));
    assert_eq!(cache.peek(&key("c")), Some(&3));
    assert_eq!(cache.keys(), vec![key("c"), key("b")]);
}

#[test]
fn overwrite_keeps_one_entry() {
    let mut cache = cache_of(1);
    assert_eq!(cache.put(key("a"), 1), None);
    assert_eq!(cache.put(key("a"), 2), Some(1));
    assert_eq!(cache.len(), 1);
    assert_eq!(cache.get(&key("a")), Some(&2));
}

#[test]
fn overwrite_moves_entry_to_front() {
    let mut cache = cache_of(3);
    cache.put(key("a"), 1);
    cache.put(key("b"), 2);
    cache.put(key("c"), 3);
    assert_eq!(cache.put_evicted(key("a"), 10), (Some(1), None));
    assert_eq!(cache.keys(), vec![key("a"), key("c"), key("b")]);
    assert_eq!(cache.put_evicted(key("d"), 4), (None, Some((key("b"), 2))));
    assert_eq!(cache.keys(), vec![key("d"), key("a"), key("c")]);
}

#[test]
fn removed_slot_is_reused() {
    let mut cache = cache_of(1);
    assert_eq!(cache.put(key("a"), 1), None);
    assert_eq!(cache.remove(&key("a")), Some(1));
    assert_eq!(cache.len(), 0);
    assert_eq!(cache.put_evicted(key("b"), 2), (None, None));
    assert_eq!(cache.get(&key("a")), None);
    assert_eq!(cache.get(&key("b")), Some(&2));
    assert_eq!(cache.len(), 1);
}

#[test]
fn removing_absent_key_changes_nothing() {
    let mut cache = cache_of(3);
    assert_eq!(cache.remove(&key("a")), None);
    assert_eq!(cache.len(), 0);
    cache.put(key("a"), 1);
    cache.put(key("b"), 2);
    assert_eq!(cache.remove(&key("z")), None);
    assert_eq!(cache.remove(&key("z")), None);
    assert_eq!(cache.len(), 2);
    assert_eq!(cache.keys(), vec![key("b"), key("a")]);
}

#[test]
fn remove_unlinks_head_middle_and_tail() {
    let mut cache = BoundedLRU::<u64, u64>::new(5).unwrap_or_else(|e| panic!("{:?}", e));
    for k in 1..=5u64 {
        cache.put(k, k + 100);
    }
    assert_eq!(cache.keys(), vec![5, 4, 3, 2, 1]);
    assert_eq!(cache.remove(&3), Some(103));
    assert_eq!(cache.keys(), vec![5, 4, 2, 1]);
    assert_eq!(cache.remove(&5), Some(105));
    assert_eq!(cache.keys(), vec![4, 2, 1]);
    assert_eq!(cache.remove(&1), Some(101));
    assert_eq!(cache.keys(), vec![4, 2]);
    assert_eq!(cache.len(), 2);
    cache.put(6, 106);
    cache.put(7, 107);
    cache.put(8, 108);
    assert_eq!(cache.keys(), vec![8, 7, 6, 4, 2]);
    assert_eq!(cache.put_evicted(9, 109), (None, Some((2, 102))));
}

#[test]
fn get_miss_changes_nothing() {
    let mut cache = cache_of(2);
    cache.put(key("a"), 1);
    cache.put(key("b"), 2);
    assert_eq!(cache.get(&key("c")), None);
    assert_eq!(cache.keys(), vec![key("b"), key("a")]);
    assert_eq!(cache.len(), 2);
}

#[test]
fn get_moves_each_position_to_front() {
    let mut cache = BoundedLRU::<u64, u64>::new(3).unwrap_or_else(|e| panic!("{:?}", e));
    cache.put(1, 10);
    cache.put(2, 20);
    cache.put(3, 30);
    assert_eq!(cache.get(&3), Some(&30));
    assert_eq!(cache.keys(), vec![3, 2, 1]);
    assert_eq!(cache.get(&2), Some(&20));
    assert_eq!(cache.keys(), vec![2, 3, 1]);
    assert_eq!(cache.get(&1), Some(&10));
    assert_eq!(cache.keys(), vec![1, 2, 3]);
}

#[test]
fn peek_does_not_refresh() {
    let mut cache = BoundedLRU::<u64, u64>::new(2).unwrap_or_else(|e| panic!("{:?}", e));
    cache.put(1, 10);
    cache.put(2, 20);
    assert_eq!(cache.peek(&1), Some(&10));
    assert_eq!(cache.keys(), vec![2, 1]);
    assert_eq!(cache.put_evicted(3, 30), (None, Some((1, 10))));
    assert_eq!(cache.peek(&1), None);
}

#[test]
fn eviction_hook_sees_the_evicted_entry() {
    let seen: RefCell<Vec<(u64, u64)>> = RefCell::new(Vec::new());
    let mut cache = BoundedLRU::<u64, u64>::new(2).unwrap_or_else(|e| panic!("{:?}", e));
    assert_eq!(cache.put_with(1, 10, |k, v| seen.borrow_mut().push((k, v))), None);
    assert_eq!(cache.put_with(2, 20, |k, v| seen.borrow_mut().push((k, v))), None);
    assert_eq!(cache.put_with(1, 11, |k, v| seen.borrow_mut().push((k, v))), Some(10));
    assert!(seen.borrow().is_empty());
    assert_eq!(cache.put_with(3, 30, |k, v| seen.borrow_mut().push((k, v))), None);
    assert_eq!(*seen.borrow(), vec![(2, 20)]);
    assert_eq!(cache.put_with(4, 40, |k, v| seen.borrow_mut().push((k, v))), None);
    assert_eq!(*seen.borrow(), vec![(2, 20), (1, 11)]);
    assert_eq!(cache.keys(), vec![4, 3]);
}

#[test]
fn clear_empties_and_keeps_capacity() {
    let mut cache = cache_of(3);
    cache.put(key("a"), 1);
    cache.put(key("b"), 2);
    cache.put(key("c"), 3);
    cache.clear();
    assert_eq!(cache.len(), 0);
    assert!(cache.is_empty());
    assert_eq!(cache.capacity(), 3);
    assert_eq!(cache.peek(&key("a")), None);
    assert_eq!(cache.keys(), Vec::<String>::new());
    for (i, name) in ["p", "q", "r", "s"].iter().enumerate() {
        cache.put(key(name), i as u32);
    }
    assert_eq!(cache.len(), 3);
    assert_eq!(cache.keys(), vec![key("s"), key("r"), key("q")]);
}

#[test]
fn walk_and_index_agree_after_mixed_operations() {
    let mut cache = BoundedLRU::<u64, u64>::new(4).unwrap_or_else(|e| panic!("{:?}", e));
    let mut step: u64 = 0;
    while step < 200 {
        let k = (step * 7 + step / 3) % 9;
        match step % 4 {
            0 | 1 => {
                cache.put(k, step);
            }
            2 => {
                cache.get(&k);
            }
            _ => {
                cache.remove(&k);
            }
        }
        let walked = cache.keys();
        assert_eq!(walked.len(), cache.len());
        assert!(cache.len() <= cache.capacity());
        let mut found: Vec<u64> = Vec::new();
        for candidate in 0..9u64 {
            if cache.peek(&candidate).is_some() {
                found.push(candidate);
            }
        }
        let mut sorted = walked.clone();
        sorted.sort();
        assert_eq!(sorted, found);
        step += 1;
    }
}

#[test]
fn is_empty_follows_len() {
    let mut cache = cache_of(2);
    assert!(cache.is_empty());
    cache.put(key("a"), 1);
    assert!(!cache.is_empty());
    cache.remove(&key("a"));
    assert!(cache.is_empty());
}

/// A cache kept the slow way: a vector of entries, most recently used first.
struct Plain {
    capacity: usize,
    entries: Vec<(u64, u64)>,
}

impl Plain {
    fn find(&self, key: u64) -> Option<usize> {
        self.entries.iter().position(|e| e.0 == key)
    }

    fn get(&mut self, key: u64) -> Option<u64> {
        let at = self.find(key)?;
        let entry = self.entries.remove(at);
        self.entries.insert(0, entry);
        Some(entry.1)
    }

    fn put(&mut self, key: u64, value: u64) -> (Option<u64>, Option<(u64, u64)>) {
        if let Some(at) = self.find(key) {
            let entry = self.entries.remove(at);
            self.entries.insert(0, (key, value));
            return (Some(entry.1), None);
        }
        let evicted = if self.entries.len() == self.capacity { self.entries.pop() } else { None };
        self.entries.insert(0, (key, value));
        (None, evicted)
    }

    fn remove(&mut self, key: u64) -> Option<u64> {
        let at = self.find(key)?;
        Some(self.entries.remove(at).1)
    }
}

#[test]
fn agrees_with_plain_list_on_long_run() {
    for capacity in [1usize, 2, 3, 8] {
        let mut cache =
            BoundedLRU::<u64, u64>::new(capacity).unwrap_or_else(|e| panic!("{:?}", e));
        let mut plain = Plain { capacity, entries: Vec::new() };
        let mut state: u64 = 0x2545_f491_4f6c_dd1d ^ capacity as u64;
        for step in 0..4000u64 {
            state = state.wrapping_mul(6364136223846793005).wrapping_add(1442695040888963407);
            let key = (state >> 33) % 12;
            match (state >> 20) % 7 {
                0 | 1 => assert_eq!(cache.put_evicted(key, step), plain.put(key, step)),
                2 => assert_eq!(cache.put(key, step), plain.put(key, step).0),
                3 => assert_eq!(cache.get(&key).copied(), plain.get(key)),
                4 => assert_eq!(cache.remove(&key), plain.remove(key)),
                5 => assert_eq!(
                    cache.peek(&key).copied(),
                    plain.find(key).map(|at| plain.entries[at].1)
                ),
                _ => {
                    if step % 97 == 0 {
                        cache.clear();
                        plain.entries.clear();
                    }
                }
            }
            assert_eq!(cache.len(), plain.entries.len());
            assert_eq!(cache.is_empty(), plain.entries.is_empty());
            let expected: Vec<u64> = plain.entries.iter().map(|e| e.0).collect();
            assert_eq!(cache.keys(), expected);
        }
        assert_eq!(cache.capacity(), capacity);
    }
}
