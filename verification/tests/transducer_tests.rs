use orlando_transducers::collectors::to_vec;
use orlando_transducers::step::cont;
use orlando_transducers::transducer::{Apply, Identity, Transducer};
use orlando_transducers::transforms::{Filter, MapFn, Take};

#[test]
fn test_identity() {
    let id = Identity::<i32>::new();
    let reducer = |acc: Vec<i32>, x: i32| {
        let mut v = acc;
        v.push(x);
        cont(v)
    };

    let mut transformed = id.apply(reducer);
    let result = transformed.call(vec![], 42);
    assert_eq!(result.unwrap(), vec![42]);
}

#[test]
fn transducer_test_identity_laws() {
    // Identity should pass values through unchanged
    let id = Identity::<i32>::new();
    let reducer = |acc: i32, x: i32| cont(acc + x);

    let mut transformed = id.apply(reducer);
    assert_eq!(transformed.call(0, 5).unwrap(), 5);
    assert_eq!(transformed.call(10, 5).unwrap(), 15);
}

#[test]
fn test_basic_pipeline() {
    let pipeline = MapFn::new(|x: i32| x * 2)
        .compose(Filter::new(|x: &i32| x % 3 == 0))
        .compose(Take::new(5));

    let result = to_vec(&pipeline, (1..100).collect());
    assert_eq!(result, vec![6, 12, 18, 24, 30]);
}

#[test]
fn test_early_termination() {
    let pipeline = Take::<i32>::new(3);
    let result = to_vec(&pipeline, (1..1_000_000).collect());
    assert_eq!(result, vec![1, 2, 3]);
}

#[test]
fn test_composition_laws() {
    // Identity law: id . f = f . id = f
    let f = MapFn::new(|x: i32| x * 2);
    let id = Identity::<i32>::new();

    let left = id.compose(MapFn::new(|x: i32| x * 2));
    let right = MapFn::new(|x: i32| x * 2).compose(Identity::<i32>::new());

    let data = vec![1, 2, 3, 4, 5];
    assert_eq!(to_vec(&left, data.clone()), to_vec(&f, data.clone()));
    assert_eq!(to_vec(&right, data.clone()), to_vec(&f, data.clone()));
}

#[test]
fn test_no_intermediate_allocations() {
    let pipeline = MapFn::new(|x: i32| x * 2)
        .compose(Filter::new(|x: &i32| *x > 5))
        .compose(MapFn::new(|x: i32| x + 1))
        .compose(Take::new(3));

    let result = to_vec(&pipeline, (1..100).collect());
    assert_eq!(result, vec![7, 9, 11]);
}

#[test]
fn composition_is_associative_on_values() {
    let data: Vec<i32> = (1..20).collect();
    let left = MapFn::new(|x: i32| x + 1)
        .compose(Filter::new(|x: &i32| x % 2 == 0))
        .compose(Take::new(4));
    let right = MapFn::new(|x: i32| x + 1)
        .compose(Filter::new(|x: &i32| x % 2 == 0).compose(Take::new(4)));
    assert_eq!(to_vec(&left, data.clone()), vec![2, 4, 6, 8]);
    assert_eq!(to_vec(&left, data.clone()), to_vec(&right, data));
}

#[test]
fn reducing_stops_when_reducer_stops() {
    let id = Identity::<i32>::new();
    let reducer = |acc: i32, x: i32| {
        if x > 2 {
            orlando_transducers::step::stop(acc)
        } else {
            cont(acc + x)
        }
    };
    let mut transformed = id.apply(reducer);
    assert!(transformed.call(0, 1).is_continue());
    assert!(transformed.call(1, 3).is_stop());
}
