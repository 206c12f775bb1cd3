use combee::dataframe::DataFrame;
use combee::functions::{all, max, min};

#[derive(Clone, PartialEq, Debug)]
struct D {
    value: u32,
}

#[test]
fn test_functions_max_min() {
    let df = DataFrame::new(vec![D { value: 9 }, D { value: 2 }, D { value: 13 }]);

    let result = df
        .groupby(all)
        .agg(|_, g| ((max(g, |x| x.value)), min(g, |x| x.value)))
        .take(10);

    assert_eq!(result.len(), 1);
    assert_eq!(result.first().unwrap(), &(13, 2));
}

#[test]
fn test_functions_vec() {
    let df = DataFrame::new(vec![D { value: 9 }, D { value: 2 }, D { value: 13 }]);
    let result = df.groupby(all).agg(|_, g| combee::functions::vec(g, |x| x.value)).take(10);

    assert_eq!(result.len(), 1);
    let collected = result.first().unwrap();
    assert_eq!(collected.len(), 3);
    assert_eq!(collected[0], 9);
    assert_eq!(collected[1], 2);
    assert_eq!(collected[2], 13);
}

#[test]
fn test_functions_sum_exact() {
    let df = DataFrame::new(vec![D { value: 9 }, D { value: 2 }, D { value: 13 }]);
    let result = df.groupby(all).agg(|_, g| combee::functions::sum(g, |x| x.value as u64));
    let total = result.find(|_| true).unwrap();
    assert_eq!(*total, 24u64);
}

#[test]
fn test_functions_count_exact() {
    let df = DataFrame::new(vec![D { value: 9 }, D { value: 2 }, D { value: 13 }]);
    let result = df.groupby(all).agg(|_, g| combee::functions::count(g));
    assert_eq!(*result.find(|_| true).unwrap(), 3usize);
}
