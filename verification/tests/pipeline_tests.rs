use orlando_transducers::pipeline::{aperture, create_pipeline, Pipeline};
use orlando_transducers::collectors::to_vec;
use orlando_transducers::transforms::DropWhile;

type Ints = Pipeline<i32, fn(i32) -> i32, fn(&i32) -> bool, fn(i32) -> Vec<i32>, fn(&i32)>;

fn one_to(n: i32) -> Vec<i32> {
    (1..=n).collect()
}

#[test]
fn pipeline_map_doubles() {
    let p = Ints::new().map(|x| x * 2);
    assert_eq!(p.to_array(vec![1, 2, 3]), vec![2, 4, 6]);
}

#[test]
fn pipeline_filter_keeps_even() {
    let p = Ints::new().filter(|x| x % 2 == 0);
    assert_eq!(p.to_array(vec![1, 2, 3, 4]), vec![2, 4]);
}

#[test]
fn pipeline_take_with_filter() {
    let p = Ints::new().map(|x| x * 30).filter(|x| *x > 10).take(1);
    let source = vec![-1, 2, 3, 4, 5, -6, 7, 8, 9, 10];
    assert_eq!(p.to_array(source), vec![60]);
}

#[test]
fn pipeline_take_multiple_with_filter() {
    let p = Ints::new().filter(|x| *x > 0).take(3);
    assert_eq!(p.to_array(vec![-1, 1, 2, -3, 3, 4, 5]), vec![1, 2, 3]);
}

#[test]
fn pipeline_drop_with_filter() {
    let p = Ints::new().filter(|x| *x > 0).drop(2).take(2);
    assert_eq!(p.to_array(vec![-1, 1, -2, 2, 3, 4, 5]), vec![3, 4]);
}

#[test]
fn pipeline_take_without_filter() {
    let p = Ints::new().map(|x| x * 2).take(5);
    assert_eq!(p.to_array(one_to(10)), vec![2, 4, 6, 8, 10]);
}

#[test]
fn pipeline_takewhile_with_map() {
    let p = Ints::new().map(|x| x * 2).take_while(|x| *x < 20);
    assert_eq!(p.to_array(one_to(20)), vec![2, 4, 6, 8, 10, 12, 14, 16, 18]);
}

#[test]
fn pipeline_dropwhile_with_filter() {
    let p = Ints::new().filter(|x| x % 2 == 0).drop_while(|x| *x < 10).take(3);
    assert_eq!(p.to_array(one_to(20)), vec![10, 12, 14]);
}

#[test]
fn pipeline_dropwhile_stops_dropping() {
    let p = Ints::new().drop_while(|x| *x < 3);
    assert_eq!(p.to_array(vec![1, 5, 2, 6]), vec![5, 2, 6]);
}

#[test]
fn pipeline_complex_stateful_combination() {
    let p = Ints::new().map(|x| x + 1).filter(|x| x % 2 == 0).drop(1).take(2);
    assert_eq!(p.to_array(one_to(10)), vec![4, 6]);
}

#[test]
fn pipeline_flatmap_with_take() {
    let p = Ints::new().flat_map(|x| vec![x, x + 1]).take(5);
    assert_eq!(p.to_array(one_to(10)), vec![1, 2, 2, 3, 3]);
}

#[test]
fn pipeline_flatmap_then_map() {
    let p = Ints::new().flat_map(|x| vec![x; x as usize]).map(|x| x * 10);
    assert_eq!(p.to_array(vec![1, 0, 2]), vec![10, 20, 20]);
}

#[test]
fn pipeline_multiple_takes() {
    let p = Ints::new().take(10).take(5);
    assert_eq!(p.to_array(one_to(20)), vec![1, 2, 3, 4, 5]);
}

#[test]
fn pipeline_multiple_drops() {
    let p = Ints::new().drop(2).drop(1);
    assert_eq!(p.to_array(one_to(5)), vec![4, 5]);
}

#[test]
fn pipeline_filter_after_take_keeps_take() {
    let p = Ints::new().take(2).filter(|x| x % 2 == 0);
    assert_eq!(p.to_array(vec![2, 4, 6, 8]), vec![2, 4]);
}

#[test]
fn pipeline_tap_passes_values() {
    let p = Ints::new().tap(|_x| {}).map(|x| x - 1);
    assert_eq!(p.to_array(vec![1, 2]), vec![0, 1]);
}

#[test]
fn pipeline_reduce_with_stateful_ops() {
    let p = Ints::new().filter(|x| x % 2 == 0).take(3);
    assert_eq!(p.reduce(one_to(20), |acc: i32, v: i32| acc + v, 0), 12);
}

#[test]
fn pipeline_fused_and_unfused_agree() {
    let fused = Ints::new().map(|x| x * 3).filter(|x| x % 2 == 0);
    let unfused = Ints::new().map(|x| x * 3).tap(|_x| {}).filter(|x| x % 2 == 0);
    assert_eq!(fused.to_array(one_to(8)), unfused.to_array(one_to(8)));
    assert_eq!(fused.to_array(one_to(8)), vec![6, 12, 18, 24]);
}

#[test]
fn pipeline_empty_is_identity() {
    let p: Ints = create_pipeline();
    assert_eq!(p.to_array(vec![3, 1, 2]), vec![3, 1, 2]);
    assert_eq!(p.to_array(Vec::new()), Vec::<i32>::new());
}

#[test]
fn aperture_windows() {
    let r = aperture(&vec![1, 2, 3, 4, 5], 3);
    assert_eq!(r, vec![vec![1, 2, 3], vec![2, 3, 4], vec![3, 4, 5]]);
}

#[test]
fn aperture_edges() {
    assert_eq!(aperture(&vec![1, 2, 3], 0), Vec::<Vec<i32>>::new());
    assert_eq!(aperture(&vec![1, 2, 3], 4), Vec::<Vec<i32>>::new());
    assert_eq!(aperture(&vec![1, 2, 3], 3), vec![vec![1, 2, 3]]);
}

#[test]
fn pipeline_filter_filters_outputs() {
    let p = Ints::new().filter(|x| x % 2 == 0).filter(|x| *x > 2);
    assert_eq!(p.to_array(vec![1, 2, 3, 4, 5, 6]), vec![4, 6]);
    let base = Ints::new().map(|x| x + 1).take(4);
    let filtered = Ints::new().map(|x| x + 1).take(4).filter(|x| x % 2 == 1);
    let expected: Vec<i32> = base.to_array(vec![1, 2, 3, 4, 5]).into_iter().filter(|x| x % 2 == 1).collect();
    assert_eq!(filtered.to_array(vec![1, 2, 3, 4, 5]), expected);
}

#[test]
fn pipeline_last_stage_runs_over_outputs() {
    let base = Ints::new().flat_map(|x| vec![x, x * 10]).take(5);
    let longer = Ints::new().flat_map(|x| vec![x, x * 10]).take(5).drop_while(|x| *x < 10);
    let src = vec![1, 2, 3, 4];
    let expected = to_vec(&DropWhile::new(|x: &i32| *x < 10), base.to_array(src.clone()));
    assert_eq!(longer.to_array(src), expected);
    assert_eq!(expected, vec![10, 2, 20, 3]);
}

#[test]
fn pipeline_drop_while_stops_for_good() {
    let p = Ints::new().drop_while(|x| *x < 3);
    assert_eq!(p.to_array(vec![1, 5, 2]), vec![5, 2]);
    assert_eq!(p.to_array(vec![1, 2, 3, 1, 2]), vec![3, 1, 2]);
}
