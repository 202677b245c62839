use ika::{OutOfBounds, Pool};

fn alive_of(p: &Pool<i32>) -> Vec<i32> {
    let mut out = Vec::new();
    let mut it = p.iter();
    while let Some(x) = it.next() {
        out.push(*x);
    }
    out
}

fn pool_with(values: &[i32], spare: usize) -> Pool<i32> {
    let mut p: Pool<i32> = Pool::new(values.len() + spare);
    let handles = p.spawn_exact(values.len());
    for (h, v) in handles.into_iter().zip(values.iter()) {
        *h = *v;
    }
    p
}

#[test]
fn example_scenario() {
    let mut p: Pool<String> = Pool::new(3);
    assert_eq!(p.available(), 3);
    assert_eq!(p.len(), 0);
    assert!(p.spawn().is_some());
    assert!(p.spawn().is_some());
    assert_eq!(p.len(), 2);
    assert_eq!(p.available(), 1);
    p.reclaim(|_| true);
    assert_eq!(p.len(), 0);
    assert_eq!(p.available(), 3);
    assert_eq!(p.attach(0, "X".to_string()), Ok(()));
    assert_eq!(p.len(), 1);
    assert_eq!(p.get(0), Some(&"X".to_string()));
    assert_eq!(p.detach(0), Ok("X".to_string()));
    assert_eq!(p.len(), 0);
}

#[test]
fn new_pool_is_all_free_defaults() {
    let mut p: Pool<i32> = Pool::new(4);
    assert_eq!(p.capacity(), 4);
    assert_eq!(p.available(), 4);
    assert_eq!(p.len(), 0);
    assert!(!p.is_empty());
    let handles = p.spawn_exact(4);
    assert_eq!(handles.len(), 4);
    for h in handles {
        assert_eq!(*h, 0);
    }
    assert!(p.is_empty());
}

#[test]
fn empty_pool_of_size_zero() {
    let mut p: Pool<i32> = Pool::new(0);
    assert_eq!(p.capacity(), 0);
    assert!(p.is_empty());
    assert!(p.spawn().is_none());
    assert!(p.spawn_exact(1).is_empty());
    assert_eq!(p.spawn_exact(0).len(), 0);
}

#[test]
fn spawn_until_exhausted() {
    let mut p: Pool<i32> = Pool::new(5);
    let cap = p.capacity();
    for i in 0..cap {
        let h = p.spawn().expect("a free object");
        *h = i as i32;
    }
    assert_eq!(p.available(), 0);
    assert!(p.spawn().is_none());
    assert_eq!(p.len(), 5);
    assert_eq!(alive_of(&p), vec![0, 1, 2, 3, 4]);
}

#[test]
fn len_and_available_add_up() {
    let mut p: Pool<i32> = Pool::new(6);
    assert_eq!(p.len() + p.available(), p.capacity());
    p.spawn_some(4);
    assert_eq!(p.len() + p.available(), p.capacity());
    p.reclaim_unstable(|x| *x == 0);
    assert_eq!(p.len() + p.available(), p.capacity());
    p.attach(0, 9).unwrap();
    assert_eq!(p.len() + p.available(), p.capacity());
    p.detach(0).unwrap();
    assert_eq!(p.len() + p.available(), p.capacity());
    p.please_spawn_some(10);
    assert_eq!(p.len() + p.available(), p.capacity());
    assert_eq!(p.capacity(), 10);
}

#[test]
fn reclaim_keeps_survivor_order() {
    let mut p = pool_with(&[10, 11, 12, 13], 0);
    p.reclaim(|x| *x == 11);
    assert_eq!(alive_of(&p), vec![10, 12, 13]);
    assert_eq!(p.len(), 3);
    assert_eq!(p.available(), 1);
}

#[test]
fn reclaim_unstable_keeps_survivor_set() {
    let mut p = pool_with(&[10, 11, 12, 13], 0);
    p.reclaim_unstable(|x| *x == 11);
    let mut got = alive_of(&p);
    got.sort();
    assert_eq!(got, vec![10, 12, 13]);
    assert_eq!(p.len(), 3);
}

#[test]
fn reclaim_unstable_checks_swapped_in_objects() {
    let mut p = pool_with(&[1, 2], 0);
    p.reclaim_unstable(|_| true);
    assert_eq!(p.len(), 0);
    assert_eq!(p.available(), 2);
    let mut q = pool_with(&[5, 6, 5, 6, 5], 1);
    q.reclaim_unstable(|x| *x == 5);
    assert_eq!(alive_of(&q), vec![6, 6]);
}

#[test]
fn reclaim_edge_cases() {
    let mut empty: Pool<i32> = Pool::new(3);
    empty.reclaim(|_| true);
    assert_eq!(empty.len(), 0);
    assert_eq!(empty.available(), 3);

    let mut p = pool_with(&[1, 2, 3], 2);
    p.reclaim(|_| false);
    assert_eq!(alive_of(&p), vec![1, 2, 3]);
    p.reclaim(|_| true);
    assert_eq!(p.len(), 0);
    assert_eq!(p.available(), 5);
}

#[test]
fn reclaimed_objects_are_reused() {
    let mut p = pool_with(&[1, 2, 3], 0);
    p.reclaim(|x| *x == 2);
    let h = p.spawn().expect("the reclaimed slot");
    assert_eq!(*h, 2);
    assert_eq!(alive_of(&p), vec![1, 3, 2]);
}

#[test]
fn detach_then_attach_restores_alive_values() {
    let mut p = pool_with(&[4, 5, 6, 7], 2);
    let before = alive_of(&p);
    let v = p.detach(1).unwrap();
    assert_eq!(v, 5);
    assert_eq!(alive_of(&p), vec![4, 6, 7]);
    p.attach(1, v).unwrap();
    assert_eq!(alive_of(&p), before);
}

#[test]
fn attach_out_of_bounds_changes_nothing() {
    let mut p = pool_with(&[1, 2], 1);
    let err = p.attach(3, 9);
    assert_eq!(err, Err(OutOfBounds { at: 3, len: 2 }));
    assert_eq!(p.len(), 2);
    assert_eq!(p.available(), 1);
    assert_eq!(p.capacity(), 3);
    assert_eq!(alive_of(&p), vec![1, 2]);
}

#[test]
fn detach_out_of_bounds_changes_nothing() {
    let mut p = pool_with(&[1, 2], 1);
    assert_eq!(p.detach(2), Err(OutOfBounds { at: 2, len: 2 }));
    assert_eq!(p.len(), 2);
    assert_eq!(p.available(), 1);
    assert_eq!(alive_of(&p), vec![1, 2]);
}

#[test]
fn attach_at_end_and_front() {
    let mut p = pool_with(&[1, 2], 0);
    p.attach(2, 3).unwrap();
    p.attach(0, 0).unwrap();
    assert_eq!(alive_of(&p), vec![0, 1, 2, 3]);
    assert_eq!(p.capacity(), 4);
    assert_eq!(p.available(), 0);
}

#[test]
fn detach_last_alive_renumbers_table() {
    let mut p: Pool<i32> = Pool::new(3);
    *p.spawn().unwrap() = 8;
    assert_eq!(p.detach(0), Ok(8));
    assert_eq!(p.capacity(), 2);
    assert_eq!(p.len(), 0);
    let handles = p.spawn_exact(2);
    assert_eq!(handles.len(), 2);
    for h in handles {
        *h = 1;
    }
    assert_eq!(alive_of(&p), vec![1, 1]);
}

#[test]
fn spawn_exact_is_all_or_nothing() {
    let mut p = pool_with(&[1], 2);
    let none = p.spawn_exact(3);
    assert!(none.is_empty());
    assert_eq!(p.len(), 1);
    assert_eq!(p.available(), 2);
    let two = p.spawn_exact(2);
    assert_eq!(two.len(), 2);
    assert_eq!(p.len(), 3);
    assert_eq!(p.available(), 0);
}

#[test]
fn spawn_some_takes_what_is_free() {
    let mut p = pool_with(&[1], 2);
    let got = p.spawn_some(5);
    assert_eq!(got.len(), 2);
    assert_eq!(p.len(), 3);
    assert_eq!(p.available(), 0);
    assert_eq!(p.spawn_some(1).len(), 0);
}

#[test]
fn spawn_unchecked_hands_out_next_free() {
    let mut p: Pool<i32> = Pool::new(2);
    *p.spawn_unchecked() = 3;
    assert_eq!(p.len(), 1);
    assert_eq!(alive_of(&p), vec![3]);
}

#[test]
fn please_spawn_grows_when_full() {
    let mut p = pool_with(&[1, 2], 0);
    let h = p.please_spawn();
    assert_eq!(*h, 0);
    *h = 3;
    assert_eq!(p.capacity(), 3);
    assert_eq!(alive_of(&p), vec![1, 2, 3]);
    let mut q = pool_with(&[1], 1);
    *q.please_spawn() = 2;
    assert_eq!(q.capacity(), 2);
}

#[test]
fn please_spawn_some_grows_by_the_shortfall() {
    let mut p = pool_with(&[1], 2);
    let handles = p.please_spawn_some(5);
    assert_eq!(handles.len(), 5);
    for (i, h) in handles.into_iter().enumerate() {
        *h = 10 + i as i32;
    }
    assert_eq!(p.capacity(), 6);
    assert_eq!(p.available(), 0);
    assert_eq!(alive_of(&p), vec![1, 10, 11, 12, 13, 14]);
    let mut q = pool_with(&[1], 3);
    assert_eq!(q.please_spawn_some(2).len(), 2);
    assert_eq!(q.capacity(), 4);
    assert_eq!(q.available(), 1);
}

#[test]
fn get_and_get_mut_bounds() {
    let mut p = pool_with(&[1, 2], 1);
    assert_eq!(p.get(1), Some(&2));
    assert_eq!(p.get(2), None);
    *p.get_mut(0).unwrap() = 7;
    assert!(p.get_mut(2).is_none());
    assert_eq!(alive_of(&p), vec![7, 2]);
}

#[test]
fn iter_mut_writes_alive_objects_only() {
    let mut p = pool_with(&[1, 2, 3], 2);
    {
        let mut it = p.iter_mut();
        while let Some(h) = it.next() {
            *h *= 10;
        }
    }
    assert_eq!(alive_of(&p), vec![10, 20, 30]);
    let free = p.spawn_exact(2);
    for h in free {
        assert_eq!(*h, 0);
    }
}

#[test]
fn iter_is_restartable() {
    let p = pool_with(&[3, 1], 1);
    assert_eq!(alive_of(&p), vec![3, 1]);
    assert_eq!(alive_of(&p), vec![3, 1]);
    let mut it = p.iter();
    assert_eq!(it.next(), Some(&3));
    assert_eq!(it.next(), Some(&1));
    assert_eq!(it.next(), None);
    assert_eq!(it.next(), None);
}

#[test]
fn sort_the_dead_orders_free_slots() {
    let mut p = pool_with(&[0, 1, 2, 3], 0);
    p.reclaim_unstable(|_| true);
    p.sort_the_dead();
    let handles = p.spawn_exact(4);
    let got: Vec<i32> = handles.into_iter().map(|h| *h).collect();
    assert_eq!(got, vec![0, 1, 2, 3]);
}

#[test]
fn sort_the_dead_keeps_alive_order() {
    let mut p = pool_with(&[5, 6, 7, 8], 1);
    p.reclaim(|x| *x == 6 || *x == 8);
    p.sort_the_dead();
    assert_eq!(alive_of(&p), vec![5, 7]);
    assert_eq!(p.available(), 3);
}

#[test]
fn mixed_operations_keep_objects_distinct() {
    let mut p: Pool<i32> = Pool::new(4);
    let mut next = 1;
    for h in p.spawn_exact(4) {
        *h = next;
        next += 1;
    }
    p.reclaim(|x| *x % 2 == 0);
    for h in p.please_spawn_some(3) {
        *h = next;
        next += 1;
    }
    p.detach(1).unwrap();
    p.attach(0, 100).unwrap();
    p.reclaim_unstable(|x| *x == 1);
    p.sort_the_dead();
    {
        let mut it = p.iter_mut();
        while let Some(h) = it.next() {
            *h += 1000;
        }
    }
    let mut got = alive_of(&p);
    got.sort();
    let mut dedup = got.clone();
    dedup.dedup();
    assert_eq!(got, dedup);
    assert_eq!(got, vec![1005, 1006, 1007, 1100]);
    assert_eq!(p.len() + p.available(), p.capacity());
}

#[test]
fn pools_compare_by_alive_objects() {
    let a = pool_with(&[1, 2, 3], 0);
    let mut b = pool_with(&[9, 1, 2, 3], 4);
    assert!(a != b);
    b.reclaim(|x| *x == 9);
    assert!(a == b);
    b.attach(1, 5).unwrap();
    assert!(a != b);
    let c = pool_with(&[1, 2, 4], 0);
    assert!(a != c);
    let empty_small: Pool<i32> = Pool::new(1);
    let empty_large: Pool<i32> = Pool::new(7);
    assert!(empty_small == empty_large);
}

#[test]
fn default_pool_is_empty() {
    let mut p: Pool<i32> = Pool::default();
    assert_eq!(p.capacity(), 0);
    assert_eq!(p.len(), 0);
    assert!(p.spawn().is_none());
    *p.please_spawn() = 4;
    assert_eq!(alive_of(&p), vec![4]);
}

#[test]
fn cloned_pool_is_independent() {
    let p = pool_with(&[1, 2], 1);
    let mut q = p.clone();
    assert!(p == q);
    *q.get_mut(0).unwrap() = 5;
    assert_eq!(alive_of(&p), vec![1, 2]);
    assert_eq!(alive_of(&q), vec![5, 2]);
}
