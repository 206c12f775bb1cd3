use combee::dataframe::DataFrame;
use combee::functions::{all, count, sum};

#[derive(Clone, PartialEq, Debug)]
struct Data {
    name: String,
    age: u32,
}

#[derive(Clone, PartialEq, Debug)]
struct Stats<V: Clone + PartialEq + std::fmt::Debug> {
    index: u32,
    value: V,
}

#[derive(Clone, PartialEq, Debug)]
struct Data2 {
    index: String,
    value: f64,
}

fn unsorted_rows() -> Vec<Data> {
    vec![
        Data { name: String::from("Daniel"), age: 26 },
        Data { name: String::from("Sergio"), age: 30 },
        Data { name: String::from("Leticia"), age: 22 },
        Data { name: String::from("Mateus"), age: 31 },
        Data { name: String::from("Lucas"), age: 26 },
        Data { name: String::from("Francisco"), age: 22 },
    ]
}

fn grouped_rows() -> Vec<Stats<f64>> {
    vec![
        Stats { index: 1, value: 0.2 },
        Stats { index: 2, value: 0.4 },
        Stats { index: 3, value: 0.5 },
        Stats { index: 1, value: 0.22 },
        Stats { index: 2, value: 0.5 },
        Stats { index: 3, value: 0.7 },
    ]
}

fn string_rows() -> Vec<Data2> {
    vec![
        Data2 { index: String::from("Daniel"), value: 9.0 },
        Data2 { index: String::from("Daniel"), value: 9.0 },
        Data2 { index: String::from("Daniel"), value: 10.6 },
        Data2 { index: String::from("Sergio"), value: 22.0 },
        Data2 { index: String::from("Leticia"), value: 5.0 },
        Data2 { index: String::from("Leticia"), value: 5.07 },
        Data2 { index: String::from("Sergio"), value: 22.0 },
    ]
}

#[test]
fn test_unsorted_groupby_count() {
    let df = DataFrame::new(unsorted_rows());
    let df_grouped = df
        .groupby(|x: &Data| x.age)
        .agg(|index, g| Stats { index: *index, value: count(g) });

    assert_eq!(df_grouped.len(), 4);

    let row_26 = df_grouped.find(|x| x.index == 26).unwrap();
    assert_eq!(row_26.value, 2);

    let row_30 = df_grouped.find(|x| x.index == 30).unwrap();
    assert_eq!(row_30.value, 1);

    let row_22 = df_grouped.find(|x| x.index == 22).unwrap();
    assert_eq!(row_22.value, 2);

    let row_31 = df_grouped.find(|x| x.index == 31).unwrap();
    assert_eq!(row_31.value, 1);
}

#[test]
fn test_unsorted_groupby_sum() {
    let df = DataFrame::new(unsorted_rows());
    let df_grouped = df
        .groupby(|_: &Data| 1u32)
        .agg(|index, g| Stats { index: *index, value: sum(g, |x| x.age as u64) });

    assert_eq!(df_grouped.len(), 1);

    let row = df_grouped.find(|_| true).unwrap();

    assert_eq!(row.index, 1);
    assert_eq!(row.value, 157);
}

#[test]
fn test_unsorted_groupby_avg() {
    let df = DataFrame::new(unsorted_rows());
    let df_grouped = df.groupby(|_: &Data| 1u32).agg(|index, g| Stats {
        index: *index,
        value: sum(g, |x| x.age as f64) / (count(g) as f64),
    });

    assert_eq!(df_grouped.len(), 1);

    let row = df_grouped.find(|_| true).unwrap();

    assert_eq!(row.index, 1);
    assert_eq!(row.value, 157.0 / 6.0);
}

#[test]
fn test_groupby_groupby_avg() {
    let df = DataFrame::new(grouped_rows());

    let df_grouped = df.groupby(|x: &Stats<f64>| x.index).agg(|index, group| Stats {
        index: *index,
        value: sum(group, |x| x.value) / (count(group) as f64),
    });

    assert_eq!(df_grouped.len(), 3);

    let row_1 = df_grouped.find(|x| x.index == 1).unwrap();
    assert_eq!(row_1.index, 1);
    assert!(row_1.value - 0.21 < 0.0001);
    assert!(0.21 - row_1.value < 0.001);

    let row_2 = df_grouped.find(|x| x.index == 2).unwrap();
    assert_eq!(row_2.index, 2);
    assert!(row_2.value - 0.45 < 0.0001);
    assert!(0.45 - row_2.value < 0.0001);

    let row_3 = df_grouped.find(|x| x.index == 3).unwrap();
    assert_eq!(row_3.index, 3);
    assert!(row_3.value - 0.6 < 0.0001);
    assert!(0.6 - row_3.value < 0.0001);
}

#[test]
fn test_groupby_groupby_count() {
    let df = DataFrame::new(grouped_rows());

    let df_grouped = df
        .groupby(|x: &Stats<f64>| x.index)
        .agg(|index, group| Stats { index: *index, value: count(group) });

    assert_eq!(df_grouped.len(), 3);

    let row_1 = df_grouped.find(|x| x.index == 1).unwrap();
    assert_eq!(row_1.index, 1);
    assert_eq!(row_1.value, 2);

    let row_2 = df_grouped.find(|x| x.index == 2).unwrap();
    assert_eq!(row_2.index, 2);
    assert_eq!(row_2.value, 2);

    let row_3 = df_grouped.find(|x| x.index == 3).unwrap();
    assert_eq!(row_3.index, 3);
    assert_eq!(row_3.value, 2);
}

#[test]
fn test_groupby_groupby_sum() {
    let df = DataFrame::new(grouped_rows());

    let df_grouped = df
        .groupby(|x: &Stats<f64>| x.index)
        .agg(|index, group| Stats { index: *index, value: sum(group, |x| x.value) });

    assert_eq!(df_grouped.len(), 3);

    let row_1 = df_grouped.find(|x| x.index == 1).unwrap();
    assert_eq!(row_1.index, 1);
    assert!(row_1.value - 0.42 < 0.0001);
    assert!(0.42 - row_1.value < 0.001);

    let row_2 = df_grouped.find(|x| x.index == 2).unwrap();
    assert_eq!(row_2.index, 2);
    assert!(row_2.value - 0.9 < 0.0001);
    assert!(0.9 - row_2.value < 0.0001);

    let row_3 = df_grouped.find(|x| x.index == 3).unwrap();
    assert_eq!(row_3.index, 3);
    assert!(row_3.value - 1.2 < 0.0001);
    assert!(1.2 - row_3.value < 0.0001);
}

#[test]
fn test_groupby_string() {
    let df = DataFrame::new(string_rows());

    let df_grouped = df.groupby(|x: &Data2| x.index.clone()).agg(|index, g| {
        (
            index.clone(),
            count(g),
            sum(g, |x| x.value) / (count(g) as f64),
            sum(g, |x| x.value),
        )
    });

    assert_eq!(df_grouped.len(), 3);

    let rowd = df_grouped.find(|x| x.0 == "Daniel").unwrap();
    assert_eq!(rowd, &(String::from("Daniel"), 3 as usize, 28.6 / 3.0, 28.6));

    let rows = df_grouped.find(|x| x.0 == "Sergio").unwrap();
    assert_eq!(rows, &(String::from("Sergio"), 2 as usize, 44.0 / 2.0, 44.0));

    let rowl = df_grouped.find(|x| x.0 == "Leticia").unwrap();
    assert_eq!(rowl, &(String::from("Leticia"), 2 as usize, 10.07 / 2.0, 10.07));
}

#[test]
fn test_groupby_all() {
    let df = DataFrame::new(string_rows());

    let df_grouped = df.groupby(all).agg(|_, g| {
        (
            count(g),
            sum(g, |x| x.value) / (count(g) as f64),
            sum(g, |x| x.value),
        )
    });

    assert_eq!(df_grouped.len(), 1);
    let row = df_grouped.find(|_| true).unwrap();

    assert_eq!(row.0, 7);
    assert_eq!(row.1, 82.67 / 7.0);
    assert_eq!(row.2, 82.67)
}

#[test]
fn test_groupby_empty_source() {
    let df = DataFrame::new(Vec::<Data>::new());
    let df_grouped = df.groupby(all).agg(|_, g| count(g));
    assert_eq!(df_grouped.len(), 0);
}

#[test]
fn test_constant_key_count_and_mean() {
    let df = DataFrame::new(vec![
        Data { name: String::from("a"), age: 26 },
        Data { name: String::from("b"), age: 40 },
        Data { name: String::from("c"), age: 30 },
    ]);
    let counted = df.groupby(all).agg(|_, g| count(g));
    assert_eq!(*counted.find(|_| true).unwrap(), 3usize);

    let mean = df
        .groupby(all)
        .agg(|_, g| sum(g, |x| x.age as f64) / (count(g) as f64));
    assert_eq!(*mean.find(|_| true).unwrap(), 32.0);
}

#[test]
fn test_groupby_matches_manual_filter() {
    let df = DataFrame::new(unsorted_rows());
    let df_grouped = df
        .groupby(|x: &Data| x.age)
        .agg(|index, g| (*index, sum(g, |x| x.age as u64)));

    let manual_26: u64 = unsorted_rows()
        .iter()
        .filter(|x| x.age == 26)
        .map(|x| x.age as u64)
        .sum();
    let row_26 = df_grouped.find(|x| x.0 == 26).unwrap();
    assert_eq!(row_26.1, manual_26);
}
