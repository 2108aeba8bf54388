use revel::random::Random;
use revel::skiplist::{Cmp, Iter, SkipList, MAX_HEIGHT};
use std::collections::BTreeSet;

struct KeyCmp;

impl Cmp<i32> for KeyCmp {
    // The order of the integers is a strict total order.
    fn lemma_order(&self, _: i32, _: i32, _: i32) {}

    fn compare(&self, a: &i32, b: &i32) -> std::cmp::Ordering {
        a.cmp(b)
    }
}

/// Orders pairs by their first part only.
struct FirstCmp;

impl Cmp<(i32, i32)> for FirstCmp {
    // Pairs with one first part count as equal: a strict weak order.
    fn lemma_order(&self, _: (i32, i32), _: (i32, i32), _: (i32, i32)) {}

    fn compare(&self, a: &(i32, i32), b: &(i32, i32)) -> std::cmp::Ordering {
        a.0.cmp(&b.0)
    }
}

#[test]
fn test_skiplist_empty() {
    let list = SkipList::new(KeyCmp {});
    assert!(!list.contains(&10));

    let mut iter = Iter::new(&list);
    assert!(!iter.valid());
    iter.seek_to_first();
    assert!(!iter.valid());
    iter.seek(&100);
    assert!(!&iter.valid());
    iter.seek_to_last();
    assert!(!iter.valid());
}

#[test]
fn test_skiplist_insert_and_lookup() {
    const N: i32 = 2000;
    const R: i32 = 5000;
    let mut rnd = Random::new(1000);
    let mut keys = BTreeSet::new();
    let mut skiplist = SkipList::new(KeyCmp {});
    for _ in 0..N {
        let n = rnd.next();
        let key = n as i32 % R;
        if keys.insert(key) {
            skiplist.insert(key);
        }
    }

    for i in 0..R {
        if skiplist.contains(&i) {
            assert!(keys.contains(&i));
        } else {
            assert!(!keys.contains(&i));
        }
    }

    // Simple iterator tests
    {
        let mut iter = Iter::new(&skiplist);
        assert!(!iter.valid());

        iter.seek(&0);
        assert!(iter.valid());
        assert_eq!(keys.iter().next().unwrap(), iter.key());

        iter.seek_to_first();
        assert!(iter.valid());
        assert_eq!(keys.iter().next().unwrap(), iter.key());

        iter.seek_to_last();
        assert!(iter.valid());
        assert_eq!(keys.iter().next_back().unwrap(), iter.key());
    }

    // Forward iteration test
    for i in 0..R {
        let mut iter = Iter::new(&skiplist);
        iter.seek(&i);

        // Compare against model iterator
        let cmp_keys = keys.iter().filter(|&k| *k >= i).collect::<BTreeSet<&i32>>();
        let mut model_iter = cmp_keys.iter();
        for _ in 0..3 {
            match model_iter.next() {
                None => {
                    assert!(!iter.valid());
                    break;
                }
                Some(&key) => {
                    assert!(iter.valid());
                    assert_eq!(key, iter.key());
                    iter.next();
                }
            }
        }
    }

    // Backward iteration test
    {
        let mut iter = Iter::new(&skiplist);
        iter.seek_to_last();
        // Compare against model iterator
        let mut reversed = BTreeSet::new();
        for v in &keys {
            reversed.insert(std::cmp::Reverse(v));
        }

        let mut model_iter = reversed.iter();
        while let Some(&std::cmp::Reverse(key)) = model_iter.next() {
            assert!(iter.valid());
            assert_eq!(key, iter.key());
            iter.prev();
        }
        assert!(!iter.valid());
    }
}

#[test]
fn skiplist_iterates_in_order_both_ways() {
    let mut list = SkipList::new(KeyCmp {});
    let mut rnd = Random::new(42);
    let mut model = Vec::new();
    for _ in 0..500 {
        let key = (rnd.next() % 100_000) as i32;
        if !list.contains(&key) {
            list.insert(key);
            model.push(key);
        }
    }
    model.sort();
    assert_eq!(list.len(), model.len());
    let mut iter = Iter::new(&list);
    iter.seek_to_first();
    let mut forward = Vec::new();
    while iter.valid() {
        forward.push(*iter.key());
        iter.next();
    }
    assert_eq!(forward, model);
    iter.seek_to_last();
    let mut backward = Vec::new();
    while iter.valid() {
        backward.push(*iter.key());
        iter.prev();
    }
    backward.reverse();
    assert_eq!(backward, model);
    assert!(list.get_max_height() >= 1 && list.get_max_height() <= MAX_HEIGHT);
}

#[test]
fn skiplist_puts_a_later_equal_key_first() {
    let mut list = SkipList::new(FirstCmp {});
    list.insert((5, 1));
    list.insert((3, 1));
    list.insert((5, 2));
    list.insert((7, 1));
    list.insert((5, 3));
    assert!(list.contains(&(5, 99)));
    assert!(!list.contains(&(4, 1)));
    let mut iter = Iter::new(&list);
    iter.seek_to_first();
    let mut seen = Vec::new();
    while iter.valid() {
        seen.push(*iter.key());
        iter.next();
    }
    assert_eq!(seen, vec![(3, 1), (5, 3), (5, 2), (5, 1), (7, 1)]);
    // Seeking lands on the first of the equal keys; stepping back from an
    // equal key passes all of them.
    iter.seek(&(5, 0));
    assert_eq!(*iter.key(), (5, 3));
    iter.next();
    iter.next();
    assert_eq!(*iter.key(), (5, 1));
    iter.prev();
    assert_eq!(*iter.key(), (3, 1));
    iter.prev();
    assert!(!iter.valid());
    assert_eq!(list.compare(&(1, 9), &(2, 0)), std::cmp::Ordering::Less);
    assert!(list.equal(&(2, 9), &(2, 0)));
}

#[test]
fn skiplist_random_height_is_drawn_one_in_four() {
    let mut rnd = Random::new(0xdeadbeef);
    let mut model = Random::new(0xdeadbeef);
    let mut counts = [0usize; MAX_HEIGHT + 1];
    for _ in 0..20_000 {
        let h = SkipList::<i32, KeyCmp>::random_height(&mut rnd);
        let mut expected = 1;
        while expected < MAX_HEIGHT && model.next() % 4 == 0 {
            expected += 1;
        }
        assert_eq!(h, expected);
        counts[h] += 1;
    }
    assert!(counts[1] > 14_000 && counts[1] < 16_000);
    assert!(counts[2] > 3_000 && counts[2] < 4_500);
}
