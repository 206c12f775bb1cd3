use combee::dataframe::DataFrame;

#[derive(Clone, PartialEq, Debug)]
struct Data {
    name: String,
    age: u32,
}

fn basic_rows() -> Vec<Data> {
    vec![
        Data { name: String::from("Daniel"), age: 26 },
        Data { name: String::from("Sergio"), age: 30 },
        Data { name: String::from("Leticia"), age: 22 },
    ]
}

fn unsorted_rows() -> Vec<Data> {
    vec![
        Data { name: String::from("Daniel"), age: 26 },
        Data { name: String::from("Sergio"), age: 30 },
        Data { name: String::from("Leticia"), age: 22 },
        Data { name: String::from("Mateus"), age: 31 },
        Data { name: String::from("Lucas"), age: 26 },
        Data { name: String::from("Francisco"), age: 22 },
    ]
}

#[test]
fn test_basic_csv_sort_by_age() {
    let df = DataFrame::new(basic_rows());
    let df_sorted = df.sort(|x1: &Data, x2: &Data| x1.age > x2.age);

    let result = df_sorted.take(20);
    assert_eq!(result.len(), 3);

    assert_eq!(result[0], Data { name: String::from("Leticia"), age: 22 });
    assert_eq!(result[1], Data { name: String::from("Daniel"), age: 26 });
    assert_eq!(result[2], Data { name: String::from("Sergio"), age: 30 });
}

// The sort is not stable: with a comparator that ties rows of equal age, the
// relative order inside a tie is unspecified, so this checks the partition
// order (ages) and the membership of each tie class, not one fixed order.
#[test]
fn test_unsorted_csv_sort_by_age() {
    let df = DataFrame::new(unsorted_rows());
    let df_sorted = df.sort(|x1: &Data, x2: &Data| x1.age <= x2.age);

    assert_eq!(df.len(), 6);
    assert_eq!(df_sorted.len(), 6);

    let result = df_sorted.take(30);
    assert_eq!(result.len(), 6);

    let ages: Vec<u32> = result.iter().map(|d| d.age).collect();
    assert_eq!(ages, vec![31, 30, 26, 26, 22, 22]);

    let mut mid: Vec<&str> = vec![result[2].name.as_str(), result[3].name.as_str()];
    mid.sort();
    assert_eq!(mid, vec!["Daniel", "Lucas"]);

    let mut tail: Vec<&str> = vec![result[4].name.as_str(), result[5].name.as_str()];
    tail.sort();
    assert_eq!(tail, vec!["Francisco", "Leticia"]);

    assert_eq!(result[0].name, "Mateus");
    assert_eq!(result[1].name, "Sergio");
}

#[test]
fn test_sort_is_permutation() {
    let df = DataFrame::new(unsorted_rows());
    let df_sorted = df.sort(|x1: &Data, x2: &Data| x1.age > x2.age);
    let mut expected = unsorted_rows();
    expected.sort_by_key(|d| (d.age, d.name.clone()));
    let mut actual = df_sorted.take(6);
    actual.sort_by_key(|d| (d.age, d.name.clone()));
    assert_eq!(actual, expected);
}
