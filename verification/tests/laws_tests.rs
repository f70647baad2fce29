use orlando_transducers::collectors::{partition, sort_by, to_vec, to_vec_chunked};
use orlando_transducers::iter_ext::PipelineBuilder;
use orlando_transducers::step::{cont, stop, Step};
use orlando_transducers::transducer::{Identity, Transducer};
use orlando_transducers::transforms::{
    Chunk, Drop, DropWhile, Filter, FlatMap, MapFn, Reject, Scan, Take, TakeWhile, Unique,
};

#[test]
fn drop_skips_leading_inputs() {
    assert_eq!(to_vec(&Drop::new(2), vec![1, 2, 3, 4, 5]), vec![3, 4, 5]);
    assert_eq!(to_vec(&Drop::new(10), vec![1, 2, 3]), Vec::<i32>::new());
}

#[test]
fn drop_then_take_is_a_window() {
    let p = Drop::new(2).compose(Take::new(2));
    assert_eq!(to_vec(&p, vec![1, 2, 3, 4, 5, 6]), vec![3, 4]);
    let q = Drop::new(5).compose(Take::new(3));
    assert_eq!(to_vec(&q, vec![1, 2, 3, 4, 5, 6]), vec![6]);
}

#[test]
fn take_while_is_the_leading_run() {
    let p = TakeWhile::new(|x: &i32| *x < 3);
    assert_eq!(to_vec(&p, vec![1, 2, 5, 1]), vec![1, 2]);
}

#[test]
fn drop_while_is_what_follows_the_leading_run() {
    let p = DropWhile::new(|x: &i32| *x < 3);
    assert_eq!(to_vec(&p, vec![1, 2, 5, 1]), vec![5, 1]);
}

#[test]
fn take_while_and_drop_while_split_the_input() {
    let data = vec![2, 4, 7, 8, 1];
    let mut joined = to_vec(&TakeWhile::new(|x: &i32| x % 2 == 0), data.clone());
    joined.extend(to_vec(&DropWhile::new(|x: &i32| x % 2 == 0), data.clone()));
    assert_eq!(joined, data);
}

#[test]
fn map_fusion_concrete() {
    let twice = MapFn::new(|x: i32| x + 1).compose(MapFn::new(|x: i32| x * 2));
    let fused = MapFn::new(|x: i32| (x + 1) * 2);
    let data = vec![-3, 0, 4, 9];
    assert_eq!(to_vec(&twice, data.clone()), to_vec(&fused, data));
}

#[test]
fn filter_composition_concrete() {
    let both = Filter::new(|x: &i32| x % 2 == 0).compose(Filter::new(|x: &i32| *x > 10));
    let single = Filter::new(|x: &i32| x % 2 == 0 && *x > 10);
    let data = vec![4, 12, 13, 20, 7, 30];
    assert_eq!(to_vec(&both, data.clone()), vec![12, 20, 30]);
    assert_eq!(to_vec(&single, data), vec![12, 20, 30]);
}

#[test]
fn map_filter_interchange_concrete() {
    let a = MapFn::new(|x: i32| x * 2).compose(Filter::new(|x: &i32| x % 4 == 0));
    let b = Filter::new(|x: &i32| (x * 2) % 4 == 0).compose(MapFn::new(|x: i32| x * 2));
    let data = vec![1, 2, 3, 4, 5, 6];
    assert_eq!(to_vec(&a, data.clone()), to_vec(&b, data));
}

#[test]
fn flat_map_concatenates() {
    let p = FlatMap::new(|x: i32| vec![x; x as usize]);
    assert_eq!(to_vec(&p, vec![2, 0, 1, 3]), vec![2, 2, 1, 3, 3, 3]);
}

#[test]
fn unique_has_no_repeats() {
    let out = to_vec(&Unique::<i32>::new(), vec![1, 1, 2, 2, 2, 1, 3, 3]);
    assert_eq!(out, vec![1, 2, 1, 3]);
    for i in 1..out.len() {
        assert_ne!(out[i - 1], out[i]);
    }
}

#[test]
fn scan_outputs_running_folds() {
    let p = Scan::new(0, |acc: &i32, x: &i32| acc + x);
    assert_eq!(to_vec(&p, vec![1, 2, 3, 4]), vec![1, 3, 6, 10]);
}

#[test]
fn partition_loses_nothing() {
    let data = vec![5, 2, 8, 1, 9, 4];
    let (even, odd) = partition(&Identity::<i32>::new(), data.clone(), |x: &i32| x % 2 == 0);
    assert_eq!(even.len() + odd.len(), data.len());
    assert_eq!(even, vec![2, 8, 4]);
    assert_eq!(odd, vec![5, 1, 9]);
}

#[test]
fn sort_by_is_stable() {
    let data = vec![(1, 'a'), (0, 'b'), (1, 'c'), (0, 'd'), (2, 'e'), (1, 'f')];
    let sorted = sort_by(&Identity::<(i32, char)>::new(), data, |p: &(i32, char)| p.0);
    assert_eq!(sorted, vec![(0, 'b'), (0, 'd'), (1, 'a'), (1, 'c'), (1, 'f'), (2, 'e')]);
}

#[test]
fn builder_chain_runs_stages_in_order() {
    let result = PipelineBuilder::new()
        .map(|x: i32| x * 2)
        .filter(|x: &i32| *x > 10)
        .take(5)
        .run((1..100).collect());
    assert_eq!(result, vec![12, 14, 16, 18, 20]);
}

#[test]
fn chunk_run_keeps_full_chunks_only() {
    assert_eq!(to_vec(&Chunk::new(2), vec![1, 2, 3, 4, 5]), vec![vec![1, 2], vec![3, 4]]);
    assert_eq!(to_vec(&Chunk::new(3), vec![1, 2]), Vec::<Vec<i32>>::new());
}

#[test]
fn and_then_laws_concrete() {
    let f = |x: i32| cont(x * 2);
    let g = |x: i32| cont(x + 10);
    assert_eq!(cont(42).and_then(f), f(42));
    assert_eq!(stop(42).and_then(f), stop(42));
    let m: Step<i32> = cont(42);
    assert_eq!(m.and_then(cont), cont(42));
    assert_eq!(cont(42).and_then(f).and_then(g), cont(42).and_then(|x| f(x).and_then(g)));
}

#[test]
fn chunked_collector_gives_full_chunks() {
    let c = Chunk::new(2);
    let r = to_vec_chunked(&c, vec![1, 2, 3, 4, 5]);
    assert_eq!(r, vec![vec![1, 2], vec![3, 4]]);
    assert_eq!(r, to_vec(&Chunk::new(2), vec![1, 2, 3, 4, 5]));
    assert_eq!(to_vec_chunked(&Chunk::new(3), vec![1, 2]), Vec::<Vec<i32>>::new());
}

#[test]
fn reject_equals_filter_of_negation() {
    let data = vec![1, 2, 3, 4, 5];
    let r = to_vec(&Reject::new(|x: &i32| x % 2 == 0), data.clone());
    let f = to_vec(&Filter::new(|x: &i32| x % 2 != 0), data);
    assert_eq!(r, vec![1, 3, 5]);
    assert_eq!(r, f);
}
