use orlando_transducers::collectors::to_vec;
use orlando_transducers::step::cont;
use orlando_transducers::transducer::{Apply, Transducer};
use orlando_transducers::transforms::{
    Chunk, Drop, DropWhile, Filter, FlatMap, Interpose, MapFn, Reject, RepeatEach, Scan, Take,
    TakeWhile, Tap, Unique, UniqueBy,
};

fn push_reducer(acc: Vec<i32>, x: i32) -> orlando_transducers::step::Step<Vec<i32>> {
    let mut v = acc;
    v.push(x);
    cont(v)
}

#[test]
fn transforms_test_map() {
    let double = MapFn::new(|x: i32| x * 2);
    let mut transformed = double.apply(push_reducer);
    let result = transformed.call(vec![], 5);
    assert_eq!(result.unwrap(), vec![10]);
}

#[test]
fn test_filter() {
    let evens = Filter::new(|x: &i32| x % 2 == 0);
    let mut transformed = evens.apply(push_reducer);
    let r1 = transformed.call(vec![], 2);
    let r2 = transformed.call(r1.unwrap(), 3);
    assert_eq!(r2.unwrap(), vec![2]);
}

#[test]
fn test_reject() {
    let no_evens = Reject::new(|x: &i32| x % 2 == 0);
    let mut transformed = no_evens.apply(push_reducer);
    let r1 = transformed.call(vec![], 2); // even, rejected
    let r2 = transformed.call(r1.unwrap(), 3); // odd, passes
    assert_eq!(r2.unwrap(), vec![3]);
}

#[test]
fn test_reject_composition() {
    let pipeline = Reject::new(|x: &i32| x % 2 == 0).compose(MapFn::new(|x: i32| x * 2));
    let result = to_vec(&pipeline, vec![1, 2, 3, 4, 5]);
    assert_eq!(result, vec![2, 6, 10]);
}

#[test]
fn test_reject_vs_filter() {
    let data = vec![1, 2, 3, 4, 5, 6];
    let reject_evens = Reject::new(|x: &i32| x % 2 == 0);
    let filter_odds = Filter::new(|x: &i32| x % 2 != 0);
    let result1 = to_vec(&reject_evens, data.clone());
    let result2 = to_vec(&filter_odds, data);
    assert_eq!(result1, result2);
}

#[test]
fn test_chunk() {
    let chunker = Chunk::new(2);
    let result = to_vec(&chunker, vec![1, 2, 3, 4, 5, 6]);
    assert_eq!(result, vec![vec![1, 2], vec![3, 4], vec![5, 6]]);
}

#[test]
fn test_chunk_partial() {
    // Partial chunk at end is dropped
    let chunker = Chunk::new(2);
    let result = to_vec(&chunker, vec![1, 2, 3, 4, 5]);
    assert_eq!(result, vec![vec![1, 2], vec![3, 4]]);
}

#[test]
fn test_chunk_exact() {
    let chunker = Chunk::new(3);
    let result = to_vec(&chunker, vec![1, 2, 3, 4, 5, 6, 7, 8, 9]);
    assert_eq!(result, vec![vec![1, 2, 3], vec![4, 5, 6], vec![7, 8, 9]]);
}

#[test]
fn test_chunk_composition() {
    let pipeline = MapFn::new(|x: i32| x * 2).compose(Chunk::new(2));
    let result = to_vec(&pipeline, vec![1, 2, 3, 4]);
    assert_eq!(result, vec![vec![2, 4], vec![6, 8]]);
}

#[test]
fn test_take() {
    let take_2 = Take::<i32>::new(2);
    let mut transformed = take_2.apply(push_reducer);
    let r1 = transformed.call(vec![], 1);
    assert!(r1.is_continue());
    let r2 = transformed.call(r1.unwrap(), 2);
    assert!(r2.is_stop()); // stops after 2 elements
}

#[test]
fn test_flatmap() {
    let flat = FlatMap::new(|x: i32| vec![x, x + 1]);
    let result = to_vec(&flat, vec![1, 2, 3]);
    assert_eq!(result, vec![1, 2, 2, 3, 3, 4]);
}

#[test]
fn test_flatmap_empty() {
    let flat = FlatMap::new(|x: i32| if x % 2 == 0 { vec![x] } else { vec![] });
    let result = to_vec(&flat, vec![1, 2, 3, 4]);
    assert_eq!(result, vec![2, 4]);
}

#[test]
fn test_flatmap_composition() {
    let pipeline = MapFn::new(|x: i32| x * 2).compose(FlatMap::new(|x: i32| vec![x, x + 1]));
    let result = to_vec(&pipeline, vec![1, 2, 3]);
    assert_eq!(result, vec![2, 3, 4, 5, 6, 7]);
}

#[test]
fn test_flatmap_early_termination() {
    let pipeline = FlatMap::new(|x: i32| vec![x, x + 1, x + 2]).compose(Take::new(5));
    let result = to_vec(&pipeline, vec![1, 2, 3, 4, 5]);
    assert_eq!(result.len(), 5);
    assert_eq!(result, vec![1, 2, 3, 2, 3]);
}

#[test]
fn take_while_stops_at_first_failure() {
    let t = TakeWhile::new(|x: &i32| *x < 4);
    assert_eq!(to_vec(&t, vec![1, 2, 3, 4, 1, 2]), vec![1, 2, 3]);
}

#[test]
fn drop_skips_first_n() {
    let t = Drop::<i32>::new(2);
    assert_eq!(to_vec(&t, vec![1, 2, 3, 4]), vec![3, 4]);
    assert_eq!(to_vec(&t, vec![1]), Vec::<i32>::new());
}

#[test]
fn drop_while_skips_prefix() {
    let t = DropWhile::new(|x: &i32| *x < 3);
    assert_eq!(to_vec(&t, vec![1, 2, 3, 1, 4]), vec![3, 1, 4]);
}

#[test]
fn unique_removes_consecutive_duplicates() {
    let t = Unique::<i32>::new();
    assert_eq!(to_vec(&t, vec![1, 1, 2, 2, 1, 3, 3]), vec![1, 2, 1, 3]);
}

#[test]
fn unique_by_keeps_first_of_each_key() {
    let t = UniqueBy::new(|x: &i32| x % 3);
    assert_eq!(to_vec(&t, vec![1, 4, 2, 3, 5, 6]), vec![1, 2, 3]);
}

#[test]
fn scan_emits_running_totals() {
    let t = Scan::new(0, |acc: &i32, x: &i32| acc + x);
    assert_eq!(to_vec(&t, vec![1, 2, 3, 4]), vec![1, 3, 6, 10]);
}

#[test]
fn tap_passes_values_through() {
    let t = Tap::new(|_x: &i32| {});
    assert_eq!(to_vec(&t, vec![5, 6]), vec![5, 6]);
}

#[test]
fn interpose_puts_separator_between() {
    let t = Interpose::new(0);
    assert_eq!(to_vec(&t, vec![1, 2, 3]), vec![1, 0, 2, 0, 3]);
    assert_eq!(to_vec(&t, Vec::<i32>::new()), Vec::<i32>::new());
}

#[test]
fn repeat_each_repeats_every_value() {
    let t = RepeatEach::new(2);
    assert_eq!(to_vec(&t, vec![1, 2]), vec![1, 1, 2, 2]);
}

#[test]
fn take_zero_produces_nothing() {
    let t = Take::<i32>::new(0);
    assert_eq!(to_vec(&t, vec![1, 2, 3]), Vec::<i32>::new());
}
