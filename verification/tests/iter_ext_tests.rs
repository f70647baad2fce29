use orlando_transducers::iter_ext::{PipelineBuilder, TransduceExt};
use orlando_transducers::transducer::Transducer;
use orlando_transducers::transforms::{Filter, MapFn, Take};

#[test]
fn test_transduce_map() {
    let pipeline = MapFn::new(|x: i32| x * 2);
    let result: Vec<_> = vec![1, 2, 3].transduce(&pipeline).collect();
    assert_eq!(result, vec![2, 4, 6]);
}

#[test]
fn test_transduce_filter() {
    let pipeline = Filter::new(|x: &i32| *x > 3);
    let source: Vec<i32> = (1..=5).collect();
    let result: Vec<_> = source.transduce(&pipeline).collect();
    assert_eq!(result, vec![4, 5]);
}

#[test]
fn test_transduce_take() {
    let pipeline = Take::<i32>::new(3);
    let source: Vec<i32> = (1..=1_000_000).collect();
    let result: Vec<_> = source.transduce(&pipeline).collect();
    assert_eq!(result, vec![1, 2, 3]);
}

#[test]
fn test_transduce_composed() {
    let pipeline = MapFn::new(|x: i32| x * 2)
        .compose(Filter::new(|x: &i32| *x > 5))
        .compose(Take::new(3));

    let source: Vec<i32> = (1..100).collect();
    let result: Vec<_> = source.transduce(&pipeline).collect();
    assert_eq!(result, vec![6, 8, 10]);
}

#[test]
fn test_transduce_with_for_loop() {
    let pipeline = MapFn::new(|x: i32| x * x);
    let mut sum = 0;
    let source: Vec<i32> = (1..=4).collect();
    let mut it = source.transduce(&pipeline);
    while let Some(val) = it.next() {
        sum += val;
    }
    assert_eq!(sum, 1 + 4 + 9 + 16);
}

#[test]
fn test_transduce_chaining_with_std_iterators() {
    let pipeline = MapFn::new(|x: i32| x * 2);
    let source: Vec<i32> = (1..=5).collect();
    let result: Vec<_> = source
        .transduce(&pipeline)
        .collect()
        .into_iter()
        .filter(|x| x % 3 == 0)
        .collect();
    assert_eq!(result, vec![6]);
}

#[test]
fn test_transduce_empty_iterator() {
    let pipeline = MapFn::new(|x: i32| x * 2);
    let result: Vec<i32> = Vec::<i32>::new().transduce(&pipeline).collect();
    assert_eq!(result, Vec::<i32>::new());
}

#[test]
fn test_pipeline_builder_map_filter_take() {
    let result = PipelineBuilder::new().map(|x: i32| x * 2).run(vec![1, 2, 3, 4, 5]);
    assert_eq!(result, vec![2, 4, 6, 8, 10]);
}

#[test]
fn test_pipeline_builder_filter() {
    let result = PipelineBuilder::new().filter(|x: &i32| *x > 3).run((1..=5).collect());
    assert_eq!(result, vec![4, 5]);
}

#[test]
fn test_pipeline_builder_take() {
    let result: Vec<i32> = PipelineBuilder::new().take(3).run((1..=1000).collect());
    assert_eq!(result, vec![1, 2, 3]);
}

#[test]
fn transduced_iterator_is_exhausted_after_none() {
    let pipeline = Take::<i32>::new(1);
    let mut it = vec![7, 8, 9].transduce(&pipeline);
    assert_eq!(it.next(), Some(7));
    assert_eq!(it.next(), None);
    assert_eq!(it.next(), None);
}

#[test]
fn transduced_iterator_hands_out_flat_outputs_one_by_one() {
    let pipeline = orlando_transducers::transforms::FlatMap::new(|x: i32| vec![x, x]);
    let mut it = vec![1, 2].transduce(&pipeline);
    assert_eq!(it.next(), Some(1));
    assert_eq!(it.next(), Some(1));
    assert_eq!(it.collect(), vec![2, 2]);
}
