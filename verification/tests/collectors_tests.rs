use orlando_transducers::collectors::{
    cartesian_product, contains, count, cycle, difference, drop_last, every, find, first,
    group_by, intersection, max, max_by, merge, min, min_by, mode, none, partition, product,
    range, repeat, reverse, some, sort_by, sort_with, sum, symmetric_difference, take_last,
    to_vec, unfold, union, zip, zip_with,
};
use orlando_transducers::transducer::Identity;
use orlando_transducers::transforms::{Filter, MapFn};

#[test]
fn test_to_vec() {
    let double = MapFn::new(|x: i32| x * 2);
    let result = to_vec(&double, vec![1, 2, 3]);
    assert_eq!(result, vec![2, 4, 6]);
}

#[test]
fn test_sum() {
    let double = MapFn::new(|x: i32| x * 2);
    let result = sum(&double, vec![1, 2, 3]);
    assert_eq!(result, 12);
}

#[test]
fn test_count() {
    let evens = Filter::new(|x: &i32| x % 2 == 0);
    let result = count(&evens, vec![1, 2, 3, 4, 5]);
    assert_eq!(result, 2);
}

#[test]
fn test_first() {
    let evens = Filter::new(|x: &i32| x % 2 == 0);
    let result = first(&evens, vec![1, 3, 4, 5]);
    assert_eq!(result, Some(4));
}

#[test]
fn test_every() {
    
    let id = Identity::<i32>::new();
    assert!(every(&id, vec![2, 4, 6], |x| x % 2 == 0));
    assert!(!every(&id, vec![2, 3, 6], |x| x % 2 == 0));
}

#[test]
fn test_partition() {
    
    let id = Identity::<i32>::new();
    let (evens, odds) = partition(&id, vec![1, 2, 3, 4, 5], |x| x % 2 == 0);
    assert_eq!(evens, vec![2, 4]);
    assert_eq!(odds, vec![1, 3, 5]);
}

#[test]
fn test_partition_with_transform() {
    // Partition after transformation
    let double = MapFn::new(|x: i32| x * 2);
    let (greater, lesser) = partition(&double, vec![1, 2, 3, 4, 5], |x| *x > 5);
    assert_eq!(greater, vec![6, 8, 10]); // doubled: 3->6, 4->8, 5->10
    assert_eq!(lesser, vec![2, 4]); // doubled: 1->2, 2->4
}

#[test]
fn test_partition_all_pass() {
    
    let id = Identity::<i32>::new();
    let (pass, fail) = partition(&id, vec![2, 4, 6], |x| x % 2 == 0);
    assert_eq!(pass, vec![2, 4, 6]);
    assert_eq!(fail, Vec::<i32>::new());
}

#[test]
fn test_partition_all_fail() {
    
    let id = Identity::<i32>::new();
    let (pass, fail) = partition(&id, vec![1, 3, 5], |x| x % 2 == 0);
    assert_eq!(pass, Vec::<i32>::new());
    assert_eq!(fail, vec![1, 3, 5]);
}

#[test]
fn test_find() {
    
    let id = Identity::<i32>::new();
    let result = find(&id, vec![1, 3, 4, 5], |x| x % 2 == 0);
    assert_eq!(result, Some(4));
}

#[test]
fn test_find_with_transform() {
    let double = MapFn::new(|x: i32| x * 2);
    let result = find(&double, vec![1, 2, 3, 4, 5], |x| *x > 5);
    assert_eq!(result, Some(6)); // 3*2 = 6, first element >5
}

#[test]
fn test_find_not_found() {
    
    let id = Identity::<i32>::new();
    let result = find(&id, vec![1, 3, 5, 7], |x| x % 2 == 0);
    assert_eq!(result, None);
}

#[test]
fn test_find_empty() {
    
    let id = Identity::<i32>::new();
    let result = find(&id, Vec::<i32>::new(), |x| x % 2 == 0);
    assert_eq!(result, None);
}

#[test]
fn test_group_by() {
    
    let id = Identity::<i32>::new();
    let groups = group_by(&id, vec![1, 2, 3, 4, 5, 6], |x| x % 3);

    assert_eq!(groups.get(&0), Some(&vec![3, 6]));
    assert_eq!(groups.get(&1), Some(&vec![1, 4]));
    assert_eq!(groups.get(&2), Some(&vec![2, 5]));
}

#[test]
fn test_group_by_with_transform() {
    // Group after doubling
    let double = MapFn::new(|x: i32| x * 2);
    let groups = group_by(&double, vec![1, 2, 3, 4, 5, 6], |x| x % 4);

    assert_eq!(groups.get(&0), Some(&vec![4, 8, 12])); // 2*2=4, 4*2=8, 6*2=12
    assert_eq!(groups.get(&2), Some(&vec![2, 6, 10])); // 1*2=2, 3*2=6, 5*2=10
}

#[test]
fn test_group_by_empty() {
    
    let id = Identity::<i32>::new();
    let groups = group_by(&id, Vec::<i32>::new(), |x| x % 3);

    assert!(groups.is_empty());
}

#[test]
fn test_group_by_single_group() {
    
    let id = Identity::<i32>::new();
    let groups = group_by(&id, vec![3, 6, 9, 12], |x| x % 3);

    // All should be in group 0
    assert_eq!(groups.get(&0), Some(&vec![3, 6, 9, 12]));
    assert_eq!(groups.len(), 1);
}

#[test]
fn test_none() {
    
    let id = Identity::<i32>::new();
    assert!(none(&id, vec![1, 3, 5, 7], |x| x % 2 == 0)); // No evens
    assert!(!none(&id, vec![1, 2, 3], |x| x % 2 == 0)); // Has evens
}

#[test]
fn test_none_empty() {
    
    let id = Identity::<i32>::new();
    assert!(none(&id, vec![], |_x| true)); // Empty collection = none match
}

#[test]
fn test_none_with_transducer() {
    
    let pipeline = MapFn::new(|x: i32| x * 2);
    assert!(none(&pipeline, vec![1, 2, 3], |x| *x > 10));
    assert!(!none(&pipeline, vec![1, 2, 6], |x| *x > 10)); // 6*2 = 12 > 10
}

#[test]
fn test_none_all_match() {
    
    let id = Identity::<i32>::new();
    // None should return false when all elements match
    assert!(!none(&id, vec![2, 4, 6, 8], |x| x % 2 == 0));
}

#[test]
fn test_contains() {
    
    let id = Identity::<i32>::new();
    assert!(contains(&id, vec![1, 2, 3, 4, 5], &3));
    assert!(!contains(&id, vec![1, 2, 4, 5], &3));
}

#[test]
fn test_contains_empty() {
    
    let id = Identity::<i32>::new();
    assert!(!contains(&id, vec![], &42));
}

#[test]
fn test_contains_first_element() {
    
    let id = Identity::<i32>::new();
    assert!(contains(&id, vec![1, 2, 3], &1));
}

#[test]
fn test_contains_last_element() {
    
    let id = Identity::<i32>::new();
    assert!(contains(&id, vec![1, 2, 3, 4, 5], &5));
}

#[test]
fn test_contains_with_transducer() {
    
    let pipeline = MapFn::new(|x: i32| x * 2);
    assert!(contains(&pipeline, vec![1, 2, 3], &4)); // 2 * 2 = 4
    assert!(!contains(&pipeline, vec![1, 2, 3], &5)); // No element maps to 5
}

#[test]
fn test_zip() {
    let a = vec![1, 2, 3];
    let b = vec!['a', 'b', 'c', 'd'];
    let result = zip(a, b);
    assert_eq!(result, vec![(1, 'a'), (2, 'b'), (3, 'c')]);
}

#[test]
fn test_zip_equal_length() {
    let a = vec![1, 2, 3];
    let b = vec![4, 5, 6];
    let result = zip(a, b);
    assert_eq!(result, vec![(1, 4), (2, 5), (3, 6)]);
}

#[test]
fn test_zip_with() {
    let a = vec![1, 2, 3];
    let b = vec![10, 20, 30];
    let result = zip_with(a, b, |x, y| x + y);
    assert_eq!(result, vec![11, 22, 33]);
}

#[test]
fn test_zip_with_different_types() {
    let numbers = vec![1, 2, 3];
    let strings = vec!["a", "b", "c"];
    let result = zip_with(numbers, strings, |n, s| format!("{}{}", n, s));
    assert_eq!(result, vec!["1a", "2b", "3c"]);
}

#[test]
fn test_merge_two_equal_length() {
    let a = vec![1, 2, 3];
    let b = vec![4, 5, 6];
    let result = merge(vec![a, b]);
    assert_eq!(result, vec![1, 4, 2, 5, 3, 6]);
}

#[test]
fn test_merge_different_lengths() {
    let a = vec![1, 2];
    let b = vec![3, 4, 5, 6];
    let result = merge(vec![a, b]);
    assert_eq!(result, vec![1, 3, 2, 4, 5, 6]);
}

#[test]
fn test_merge_three_streams() {
    let a = vec![1, 2];
    let b = vec![3, 4];
    let c = vec![5, 6];
    let result = merge(vec![a, b, c]);
    assert_eq!(result, vec![1, 3, 5, 2, 4, 6]);
}

#[test]
fn test_merge_empty_stream() {
    let a = vec![1, 2, 3];
    let b: Vec<i32> = vec![];
    let result = merge(vec![a, b]);
    assert_eq!(result, vec![1, 2, 3]);
}

#[test]
fn test_merge_single_stream() {
    let a = vec![1, 2, 3];
    let result = merge(vec![a]);
    assert_eq!(result, vec![1, 2, 3]);
}

#[test]
fn test_merge_with_transducers() {
    // Hybrid composition: process streams, then merge
    let pipeline_a = MapFn::new(|x: i32| x * 2);
    let pipeline_b = MapFn::new(|x: i32| x + 10);

    let a_result = to_vec(&pipeline_a, vec![1, 2, 3]);
    let b_result = to_vec(&pipeline_b, vec![1, 2, 3]);

    let merged = merge(vec![a_result, b_result]);
    assert_eq!(merged, vec![2, 11, 4, 12, 6, 13]);
}

#[test]
fn test_intersection_basic() {
    let a = vec![1, 2, 3, 4];
    let b = vec![3, 4, 5, 6];
    let result = intersection(a, b);
    assert_eq!(result, vec![3, 4]);
}

#[test]
fn test_intersection_no_overlap() {
    let a = vec![1, 2, 3];
    let b = vec![4, 5, 6];
    let result: Vec<i32> = intersection(a, b);
    assert_eq!(result, Vec::<i32>::new());
}

#[test]
fn test_intersection_complete_overlap() {
    let a = vec![1, 2, 3];
    let b = vec![1, 2, 3];
    let result = intersection(a, b);
    assert_eq!(result, vec![1, 2, 3]);
}

#[test]
fn test_intersection_preserves_duplicates() {
    let a = vec![1, 2, 2, 3];
    let b = vec![2, 3, 4];
    let result = intersection(a, b);
    assert_eq!(result, vec![2, 2, 3]);
}

#[test]
fn test_intersection_with_transducers() {
    // Hybrid composition: process then intersect
    let pipeline = MapFn::new(|x: i32| x * 2);
    let a_processed = to_vec(&pipeline, vec![1, 2, 3, 4]);
    let b_processed = to_vec(&pipeline, vec![3, 4, 5, 6]);

    let result = intersection(a_processed, b_processed);
    assert_eq!(result, vec![6, 8]); // 3*2=6, 4*2=8
}

#[test]
fn test_difference_basic() {
    let a = vec![1, 2, 3, 4];
    let b = vec![3, 4, 5, 6];
    let result = difference(a, b);
    assert_eq!(result, vec![1, 2]);
}

#[test]
fn test_difference_no_overlap() {
    let a = vec![1, 2, 3];
    let b = vec![4, 5, 6];
    let result = difference(a, b);
    assert_eq!(result, vec![1, 2, 3]);
}

#[test]
fn test_difference_complete_overlap() {
    let a = vec![1, 2, 3];
    let b = vec![1, 2, 3];
    let result: Vec<i32> = difference(a, b);
    assert_eq!(result, Vec::<i32>::new());
}

#[test]
fn test_difference_removes_all_occurrences() {
    let a = vec![1, 2, 2, 3];
    let b = vec![2];
    let result = difference(a, b);
    assert_eq!(result, vec![1, 3]);
}

#[test]
fn test_union_basic() {
    let a = vec![1, 2, 3];
    let b = vec![3, 4, 5];
    let result = union(a, b);
    assert_eq!(result, vec![1, 2, 3, 4, 5]);
}

#[test]
fn test_union_no_overlap() {
    let a = vec![1, 2, 3];
    let b = vec![4, 5, 6];
    let result = union(a, b);
    assert_eq!(result, vec![1, 2, 3, 4, 5, 6]);
}

#[test]
fn test_union_complete_overlap() {
    let a = vec![1, 2, 3];
    let b = vec![1, 2, 3];
    let result = union(a, b);
    assert_eq!(result, vec![1, 2, 3]);
}

#[test]
fn test_union_removes_duplicates() {
    let a = vec![1, 2, 2, 3];
    let b = vec![3, 4, 4, 5];
    let result = union(a, b);
    assert_eq!(result, vec![1, 2, 3, 4, 5]);
}

#[test]
fn test_union_empty() {
    let a: Vec<i32> = vec![];
    let b = vec![1, 2, 3];
    let result = union(a, b);
    assert_eq!(result, vec![1, 2, 3]);
}

#[test]
fn test_symmetric_difference_basic() {
    let a = vec![1, 2, 3, 4];
    let b = vec![3, 4, 5, 6];
    let result = symmetric_difference(a, b);
    assert_eq!(result, vec![1, 2, 5, 6]);
}

#[test]
fn test_symmetric_difference_no_overlap() {
    let a = vec![1, 2];
    let b = vec![3, 4];
    let result = symmetric_difference(a, b);
    assert_eq!(result, vec![1, 2, 3, 4]);
}

#[test]
fn test_symmetric_difference_complete_overlap() {
    let a = vec![1, 2, 3];
    let b = vec![1, 2, 3];
    let result: Vec<i32> = symmetric_difference(a, b);
    assert_eq!(result, Vec::<i32>::new());
}

#[test]
fn test_symmetric_difference_preserves_order() {
    let a = vec![4, 3, 2, 1];
    let b = vec![6, 5, 2, 1];
    let result = symmetric_difference(a, b);
    assert_eq!(result, vec![4, 3, 6, 5]);
}

#[test]
fn test_symmetric_difference_duplicates() {
    let a = vec![1, 1, 2, 3];
    let b = vec![3, 4, 4];
    let result = symmetric_difference(a, b);
    assert_eq!(result, vec![1, 2, 4]);
}

#[test]
fn test_take_last_basic() {
    
    let id = Identity::new();
    let result = take_last(&id, vec![1, 2, 3, 4, 5], 3);
    assert_eq!(result, vec![3, 4, 5]);
}

#[test]
fn test_take_last_more_than_available() {
    
    let id = Identity::new();
    let result = take_last(&id, vec![1, 2, 3], 10);
    assert_eq!(result, vec![1, 2, 3]);
}

#[test]
fn test_take_last_zero() {
    
    let id = Identity::new();
    let result = take_last(&id, vec![1, 2, 3, 4, 5], 0);
    assert_eq!(result, Vec::<i32>::new());
}

#[test]
fn test_take_last_with_transducer() {
    let pipeline = MapFn::new(|x: i32| x * 2);
    let result = take_last(&pipeline, vec![1, 2, 3, 4, 5], 2);
    assert_eq!(result, vec![8, 10]); // Last 2 after doubling
}

#[test]
fn test_drop_last_basic() {
    
    let id = Identity::new();
    let result = drop_last(&id, vec![1, 2, 3, 4, 5], 2);
    assert_eq!(result, vec![1, 2, 3]);
}

#[test]
fn test_drop_last_more_than_available() {
    
    let id = Identity::new();
    let result = drop_last(&id, vec![1, 2, 3], 10);
    assert_eq!(result, Vec::<i32>::new());
}

#[test]
fn test_drop_last_zero() {
    
    let id = Identity::new();
    let result = drop_last(&id, vec![1, 2, 3, 4, 5], 0);
    assert_eq!(result, vec![1, 2, 3, 4, 5]);
}

#[test]
fn test_drop_last_with_transducer() {
    let pipeline = MapFn::new(|x: i32| x * 2);
    let result = drop_last(&pipeline, vec![1, 2, 3, 4, 5], 2);
    assert_eq!(result, vec![2, 4, 6]); // [2, 4, 6, 8, 10] with last 2 dropped
}

#[test]
fn test_take_last_empty() {
    
    let id = Identity::new();
    let result = take_last(&id, Vec::<i32>::new(), 5);
    assert_eq!(result, Vec::<i32>::new());
}

#[test]
fn test_drop_last_empty() {
    
    let id = Identity::new();
    let result = drop_last(&id, Vec::<i32>::new(), 5);
    assert_eq!(result, Vec::<i32>::new());
}

#[test]
fn test_take_last_one() {
    
    let id = Identity::new();
    let result = take_last(&id, vec![1, 2, 3, 4, 5], 1);
    assert_eq!(result, vec![5]);
}

#[test]
fn test_take_last_all() {
    
    let id = Identity::new();
    let result = take_last(&id, vec![1, 2, 3], 3);
    assert_eq!(result, vec![1, 2, 3]);
}

#[test]
fn test_take_last_single_element() {
    
    let id = Identity::new();
    let result = take_last(&id, vec![42], 1);
    assert_eq!(result, vec![42]);
}

#[test]
fn test_take_last_with_filter() {
    let pipeline = Filter::new(|x: &i32| x % 2 == 0);
    let result = take_last(&pipeline, vec![1, 2, 3, 4, 5, 6, 7, 8], 2);
    assert_eq!(result, vec![6, 8]); // Last 2 evens
}

#[test]
fn test_take_last_strings() {
    
    let id = Identity::new();
    let result = take_last(&id, vec!["a", "b", "c", "d"], 2);
    assert_eq!(result, vec!["c", "d"]);
}

#[test]
fn test_take_last_large_data() {
    
    let id = Identity::new();
    let data: Vec<i32> = (1..=1000).collect();
    let result = take_last(&id, data, 10);
    assert_eq!(
        result,
        vec![991, 992, 993, 994, 995, 996, 997, 998, 999, 1000]
    );
}

#[test]
fn test_take_last_composed_operations() {
    // Map then take last
    let pipeline = MapFn::new(|x: i32| x * x);
    let result = take_last(&pipeline, vec![1, 2, 3, 4, 5], 3);
    assert_eq!(result, vec![9, 16, 25]);
}

#[test]
fn test_drop_last_one() {
    
    let id = Identity::new();
    let result = drop_last(&id, vec![1, 2, 3, 4, 5], 1);
    assert_eq!(result, vec![1, 2, 3, 4]);
}

#[test]
fn test_drop_last_all() {
    
    let id = Identity::new();
    let result = drop_last(&id, vec![1, 2, 3], 3);
    assert_eq!(result, Vec::<i32>::new());
}

#[test]
fn test_drop_last_single_element() {
    
    let id = Identity::new();
    let result = drop_last(&id, vec![42], 1);
    assert_eq!(result, Vec::<i32>::new());
}

#[test]
fn test_drop_last_with_filter() {
    let pipeline = Filter::new(|x: &i32| x % 2 == 0);
    let result = drop_last(&pipeline, vec![1, 2, 3, 4, 5, 6, 7, 8], 2);
    assert_eq!(result, vec![2, 4]); // Evens [2,4,6,8], drop last 2 -> [2,4]
}

#[test]
fn test_drop_last_strings() {
    
    let id = Identity::new();
    let result = drop_last(&id, vec!["a", "b", "c", "d"], 2);
    assert_eq!(result, vec!["a", "b"]);
}

#[test]
fn test_drop_last_large_data() {
    
    let id = Identity::new();
    let data: Vec<i32> = (1..=1000).collect();
    let result = drop_last(&id, data, 10);
    assert_eq!(result.len(), 990);
    assert_eq!(result[0], 1);
    assert_eq!(result[989], 990);
}

#[test]
fn test_drop_last_composed_operations() {
    // Map then drop last
    let pipeline = MapFn::new(|x: i32| x * x);
    let result = drop_last(&pipeline, vec![1, 2, 3, 4, 5], 2);
    assert_eq!(result, vec![1, 4, 9]); // [1,4,9,16,25] drop last 2
}

#[test]
fn test_take_last_drop_last_equivalence() {
    
    let id = Identity::new();
    let data = vec![1, 2, 3, 4, 5, 6, 7, 8, 9, 10];

    // take_last 3 should equal dropping first 7
    let taken = take_last(&id, data.clone(), 3);
    let remaining_after_drop_first: Vec<i32> = data.iter().skip(7).cloned().collect();
    assert_eq!(taken, remaining_after_drop_first);
}

#[test]
fn test_drop_last_take_last_coverage() {
    
    let id = Identity::new();
    let data = vec![1, 2, 3, 4, 5, 6, 7, 8, 9, 10];

    // drop_last 3 + take_last 3 should cover all elements
    let dropped = drop_last(&id, data.clone(), 3);
    let taken = take_last(&id, data, 3);

    assert_eq!(dropped.len() + taken.len(), 10);
    assert_eq!(dropped, vec![1, 2, 3, 4, 5, 6, 7]);
    assert_eq!(taken, vec![8, 9, 10]);
}

#[test]
fn test_product_basic() {
    
    let id = Identity::new();
    let result = product(&id, vec![2, 3, 4]);
    assert_eq!(result, 24);
}

#[test]
fn test_product_empty() {
    
    let id = Identity::new();
    let result: i32 = product(&id, Vec::<i32>::new());
    assert_eq!(result, 1); // Multiplicative identity
}

#[test]
fn test_product_with_map() {
    let double = MapFn::new(|x: i32| x * 2);
    let result = product(&double, vec![1, 2, 3]);
    assert_eq!(result, 48); // 2 * 4 * 6
}

#[test]
fn test_product_with_zero() {
    
    let id = Identity::new();
    let result = product(&id, vec![1, 2, 0, 3, 4]);
    assert_eq!(result, 0);
}

#[test]
fn test_min_basic() {
    
    let id = Identity::new();
    let result = min(&id, vec![3, 1, 4, 1, 5]);
    assert_eq!(result, Some(1));
}

#[test]
fn test_min_empty() {
    
    let id = Identity::new();
    let result = min(&id, Vec::<i32>::new());
    assert_eq!(result, None);
}

#[test]
fn test_min_with_map() {
    let double = MapFn::new(|x: i32| x * 2);
    let result = min(&double, vec![3, 1, 4, 1, 5]);
    assert_eq!(result, Some(2)); // Min of [6, 2, 8, 2, 10]
}

#[test]
fn test_max_basic() {
    
    let id = Identity::new();
    let result = max(&id, vec![3, 1, 4, 1, 5]);
    assert_eq!(result, Some(5));
}

#[test]
fn test_max_empty() {
    
    let id = Identity::new();
    let result = max(&id, Vec::<i32>::new());
    assert_eq!(result, None);
}

#[test]
fn test_max_with_map() {
    let double = MapFn::new(|x: i32| x * 2);
    let result = max(&double, vec![3, 1, 4, 1, 5]);
    assert_eq!(result, Some(10)); // Max of [6, 2, 8, 2, 10]
}

#[test]
fn test_min_by_basic() {
    
    #[derive(Debug, PartialEq, Clone)]
    struct Product {
        name: &'static str,
        price: i32,
    }

    let id = Identity::new();
    let products = vec![
        Product {
            name: "Apple",
            price: 100,
        },
        Product {
            name: "Banana",
            price: 50,
        },
        Product {
            name: "Cherry",
            price: 150,
        },
    ];

    let cheapest = min_by(&id, products, |p| p.price);
    assert_eq!(cheapest.unwrap().name, "Banana");
}

#[test]
fn test_min_by_empty() {
    
    #[derive(Debug, PartialEq)]
    struct Item {
        value: i32,
    }

    let id = Identity::new();
    let result = min_by(&id, Vec::<Item>::new(), |item| item.value);
    assert_eq!(result, None);
}

#[test]
fn test_max_by_basic() {
    
    #[derive(Debug, PartialEq, Clone)]
    struct Product {
        name: &'static str,
        price: i32,
    }

    let id = Identity::new();
    let products = vec![
        Product {
            name: "Apple",
            price: 100,
        },
        Product {
            name: "Banana",
            price: 50,
        },
        Product {
            name: "Cherry",
            price: 150,
        },
    ];

    let most_expensive = max_by(&id, products, |p| p.price);
    assert_eq!(most_expensive.unwrap().name, "Cherry");
}

#[test]
fn test_max_by_empty() {
    
    #[derive(Debug, PartialEq)]
    struct Item {
        value: i32,
    }

    let id = Identity::new();
    let result = max_by(&id, Vec::<Item>::new(), |item| item.value);
    assert_eq!(result, None);
}

#[test]
fn test_mode_basic() {
    
    let id = Identity::new();
    let result = mode(&id, vec![1, 2, 2, 3, 3, 3, 4]);
    assert_eq!(result, Some(3));
}

#[test]
fn test_mode_empty() {
    
    let id = Identity::new();
    let result = mode(&id, Vec::<i32>::new());
    assert_eq!(result, None);
}

#[test]
fn test_mode_all_unique() {
    
    let id = Identity::new();
    let result = mode(&id, vec![1, 2, 3, 4, 5]);
    // All have frequency 1, should return one of them
    assert!(result.is_some());
    assert!([1, 2, 3, 4, 5].contains(&result.unwrap()));
}

#[test]
fn test_mode_with_map() {
    let mod_3 = MapFn::new(|x: i32| x % 3);
    // Use data where 0 clearly appears most frequently
    let result = mode(&mod_3, vec![3, 6, 9, 12, 1, 2]);
    // 0 appears 4 times (3, 6, 9, 12), while 1 and 2 appear once each
    assert_eq!(result, Some(0));
}

#[test]
fn test_mode_strings() {
    
    let id = Identity::new();
    let result = mode(&id, vec!["a", "b", "a", "c", "a", "b"]);
    assert_eq!(result, Some("a"));
}

#[test]
fn test_sort_by_basic() {
    
    #[derive(Debug, Clone, PartialEq)]
    struct Person {
        name: &'static str,
        age: i32,
    }

    let id = Identity::new();
    let people = vec![
        Person {
            name: "Alice",
            age: 30,
        },
        Person {
            name: "Bob",
            age: 25,
        },
        Person {
            name: "Charlie",
            age: 35,
        },
    ];

    let sorted = sort_by(&id, people, |p| p.age);
    assert_eq!(sorted[0].name, "Bob");
    assert_eq!(sorted[1].name, "Alice");
    assert_eq!(sorted[2].name, "Charlie");
}

#[test]
fn test_sort_by_empty() {
    
    let id = Identity::new();
    let result: Vec<i32> = sort_by(&id, Vec::<i32>::new(), |x| *x);
    assert_eq!(result, Vec::<i32>::new());
}

#[test]
fn test_sort_by_with_map() {
    let pipeline = MapFn::new(|x: i32| x * x);
    let result = sort_by(&pipeline, vec![3, 1, 4, 2], |x| *x);
    assert_eq!(result, vec![1, 4, 9, 16]);
}

#[test]
fn test_sort_with_descending() {
    
    let id = Identity::new();
    let numbers = vec![3, 1, 4, 1, 5, 9, 2, 6];
    let sorted = sort_with(&id, numbers, |a, b| b.cmp(a));
    assert_eq!(sorted, vec![9, 6, 5, 4, 3, 2, 1, 1]);
}

#[test]
fn test_sort_with_ascending() {
    
    let id = Identity::new();
    let numbers = vec![3, 1, 4, 1, 5, 9, 2, 6];
    let sorted = sort_with(&id, numbers, |a, b| a.cmp(b));
    assert_eq!(sorted, vec![1, 1, 2, 3, 4, 5, 6, 9]);
}

#[test]
fn test_reverse_basic() {
    
    let id = Identity::new();
    let result = reverse(&id, vec![1, 2, 3, 4, 5]);
    assert_eq!(result, vec![5, 4, 3, 2, 1]);
}

#[test]
fn test_reverse_empty() {
    
    let id = Identity::new();
    let result: Vec<i32> = reverse(&id, Vec::<i32>::new());
    assert_eq!(result, Vec::<i32>::new());
}

#[test]
fn test_reverse_single() {
    
    let id = Identity::new();
    let result = reverse(&id, vec![42]);
    assert_eq!(result, vec![42]);
}

#[test]
fn test_reverse_with_map() {
    let double = MapFn::new(|x: i32| x * 2);
    let result = reverse(&double, vec![1, 2, 3, 4, 5]);
    assert_eq!(result, vec![10, 8, 6, 4, 2]);
}

#[test]
fn test_range_basic() {
    let result = range(0, 10, 1);
    assert_eq!(result, vec![0, 1, 2, 3, 4, 5, 6, 7, 8, 9]);
}

#[test]
fn test_range_step_2() {
    let evens = range(0, 20, 2);
    assert_eq!(evens, vec![0, 2, 4, 6, 8, 10, 12, 14, 16, 18]);
}

#[test]
fn test_range_descending() {
    let desc = range(10, 0, -1);
    assert_eq!(desc, vec![10, 9, 8, 7, 6, 5, 4, 3, 2, 1]);
}

#[test]
fn test_range_empty() {
    let result = range(0, 0, 1);
    assert_eq!(result, Vec::<i32>::new());
}

#[test]
fn test_range_negative_step() {
    let result = range(5, 0, -2);
    assert_eq!(result, vec![5, 3, 1]);
}

#[test]
fn test_repeat_basic() {
    let zeros = repeat(0, 5);
    assert_eq!(zeros, vec![0, 0, 0, 0, 0]);
}

#[test]
fn test_repeat_strings() {
    let words = repeat("hello", 3);
    assert_eq!(words, vec!["hello", "hello", "hello"]);
}

#[test]
fn test_repeat_zero() {
    let result: Vec<i32> = repeat(42, 0);
    assert_eq!(result, Vec::<i32>::new());
}

#[test]
fn test_cycle_basic() {
    let pattern = cycle(vec![1, 2, 3], 3);
    assert_eq!(pattern, vec![1, 2, 3, 1, 2, 3, 1, 2, 3]);
}

#[test]
fn test_cycle_strings() {
    let repeated = cycle(vec!["a", "b"], 2);
    assert_eq!(repeated, vec!["a", "b", "a", "b"]);
}

#[test]
fn test_cycle_zero() {
    let result: Vec<i32> = cycle(vec![1, 2, 3], 0);
    assert_eq!(result, Vec::<i32>::new());
}

#[test]
fn test_cycle_empty_vec() {
    let result: Vec<i32> = cycle(Vec::new(), 5);
    assert_eq!(result, Vec::<i32>::new());
}

#[test]
fn test_unfold_powers_of_2() {
    let powers = unfold(
        1,
        |x| {
            let next = x * 2;
            if next <= 1000 {
                Some(next)
            } else {
                None
            }
        },
        20,
    );
    assert_eq!(powers, vec![2, 4, 8, 16, 32, 64, 128, 256, 512]);
}

#[test]
fn test_unfold_countdown() {
    let countdown = unfold(5, |x| if *x > 0 { Some(x - 1) } else { None }, 10);
    assert_eq!(countdown, vec![4, 3, 2, 1, 0]);
}

#[test]
fn test_unfold_limit() {
    // Even if function doesn't return None, limit should stop it
    let result = unfold(1, |x| Some(x + 1), 5);
    assert_eq!(result, vec![2, 3, 4, 5, 6]);
}

#[test]
fn test_unfold_early_stop() {
    // Function returns None immediately
    let result: Vec<i32> = unfold(1, |_x| None, 10);
    assert_eq!(result, Vec::<i32>::new());
}

#[test]
fn test_unfold_fibonacci() {
    let fibonacci = unfold(
        (0, 1),
        |(a, b)| {
            let next = (*b, a + b);
            if next.0 <= 100 {
                Some(next)
            } else {
                None
            }
        },
        20,
    );
    let fib_numbers: Vec<i32> = fibonacci.iter().map(|(a, _)| *a).collect();
    assert_eq!(fib_numbers, vec![1, 1, 2, 3, 5, 8, 13, 21, 34, 55, 89]);
}

#[test]
fn test_phase5_integration() {
    
    let id = Identity::new();

    // Generate range, filter evens, sort descending, reverse
    let numbers = range(1, 11, 1);
    let pipeline = Filter::new(|x: &i32| x % 2 == 0);
    let evens = to_vec(&pipeline, numbers);
    let sorted = sort_with(&id, evens, |a, b| b.cmp(a));
    let reversed = reverse(&id, sorted);

    assert_eq!(reversed, vec![2, 4, 6, 8, 10]);
}

#[test]
fn test_phase5_cycle_with_transducer() {
    // Cycle pattern, then transform with map
    let pattern = cycle(vec![1, 2, 3], 2);
    let double = MapFn::new(|x: i32| x * 2);
    let result = to_vec(&double, pattern);
    assert_eq!(result, vec![2, 4, 6, 2, 4, 6]);
}
