use data_structures::cache::{Cache, CacheStep};

#[test]
fn cache_first_lookup_computes() {
    let mut c: Cache<i32, i32> = Cache::new();
    assert_eq!(c.get_step(10), CacheStep::Compute);
    assert_eq!(c.value(&10), None);
}

#[test]
fn cache_second_lookup_waits_until_filled() {
    let mut c: Cache<i32, i32> = Cache::new();
    assert_eq!(c.get_step(10), CacheStep::Compute);
    assert_eq!(c.get_step(10), CacheStep::Wait);
    assert_eq!(c.get_step(10), CacheStep::Wait);
    c.fill(10, 20);
    assert_eq!(c.get_step(10), CacheStep::Ready);
    assert_eq!(c.value(&10), Some(&20));
}

#[test]
fn cache_keys_are_independent() {
    let mut c: Cache<u64, String> = Cache::new();
    assert_eq!(c.get_step(1), CacheStep::Compute);
    c.fill(1, String::from("one"));
    assert_eq!(c.get_step(2), CacheStep::Compute);
    assert_eq!(c.value(&1), Some(&String::from("one")));
    assert_eq!(c.value(&2), None);
    assert_eq!(c.get_step(1), CacheStep::Ready);
    assert_eq!(c.get_step(2), CacheStep::Wait);
}

#[test]
fn cache_value_is_computed_once() {
    let mut c: Cache<i32, i32> = Cache::new();
    let mut computed = 0;
    for _ in 0..5 {
        match c.get_step(7) {
            CacheStep::Compute => {
                computed += 1;
                c.fill(7, 7 * 2);
            }
            CacheStep::Ready => {}
            CacheStep::Wait => panic!("nobody is computing"),
        }
    }
    assert_eq!(computed, 1);
    assert_eq!(c.value(&7), Some(&14));
}

#[test]
fn cache_every_ready_lookup_reads_one_value() {
    let mut c: Cache<u32, u32> = Cache::new();
    assert_eq!(c.get_step(4), CacheStep::Compute);
    assert_eq!(c.get_step(5), CacheStep::Compute);
    assert_eq!(c.get_step(4), CacheStep::Wait);
    c.fill(4, 40);
    c.fill(5, 50);
    for _ in 0..3 {
        assert_eq!(c.get_step(4), CacheStep::Ready);
        assert_eq!(c.value(&4), Some(&40));
    }
}
