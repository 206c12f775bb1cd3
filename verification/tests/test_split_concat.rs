use combee::dataframe::DataFrame;

#[test]
fn test_split() {
    let df = DataFrame::new(vec![32, 13, 4, 5, 89, 32, 42, 13]);

    let (df1, df2) = df.split(3, 10);

    assert_eq!(df1.len(), 6);
    assert_eq!(df2.len(), 2);

    let new_df = combee::dataframe::concat(&[df1, df2]);

    assert_eq!(new_df.len(), 8);
}

#[test]
fn test_split_rounds_to_nearest() {
    let df = DataFrame::new(vec![1u32, 2, 3, 4, 5]);
    // a half-row remainder rounds up: 5 * 1/2 = 2.5 rows, so 3 go right
    let (left, right) = df.split(1, 2);
    assert_eq!(left.len(), 2);
    assert_eq!(right.len(), 3);
    assert_eq!(left.take(5), vec![1, 2]);
    assert_eq!(right.take(5), vec![3, 4, 5]);
}

#[test]
fn test_split_whole_and_none() {
    let df = DataFrame::new(vec![7u32, 8, 9]);
    let (left, right) = df.split(0, 1);
    assert_eq!(left.len(), 3);
    assert_eq!(right.len(), 0);
    let (left2, right2) = df.split(1, 1);
    assert_eq!(left2.len(), 0);
    assert_eq!(right2.len(), 3);
}

#[test]
fn test_concat_orders_rows() {
    let a = DataFrame::new(vec![1u32, 2]);
    let b = DataFrame::new(vec![3u32]);
    let c = DataFrame::new(Vec::<u32>::new());
    let joined = combee::dataframe::concat(&[a, b, c]);
    assert_eq!(joined.len(), 3);
    assert_eq!(joined.take(3), vec![1, 2, 3]);
    let empty = combee::dataframe::concat(&Vec::<DataFrame<u32>>::new());
    assert_eq!(empty.len(), 0);
}
