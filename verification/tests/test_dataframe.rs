use combee::dataframe::DataFrame;

#[derive(Clone, PartialEq, Debug)]
struct Data {
    name: String,
    age: u32,
}

#[derive(Clone, PartialEq, Debug)]
struct Message {
    message: String,
}

fn basic_rows() -> Vec<Data> {
    vec![
        Data { name: String::from("Daniel"), age: 26 },
        Data { name: String::from("Sergio"), age: 30 },
        Data { name: String::from("Leticia"), age: 22 },
    ]
}

#[test]
fn test_basic_csv_head_2() {
    let df = DataFrame::new(basic_rows());

    let df_head = df.head(2);
    assert_eq!(df_head.len(), 2);

    let result = df_head.take(2);
    assert_eq!(
        result[0],
        Data {
            name: String::from("Daniel"),
            age: 26
        }
    );
    assert_eq!(
        result[1],
        Data {
            name: String::from("Sergio"),
            age: 30
        }
    );
}

#[test]
fn test_basic_csv_head_20() {
    let df = DataFrame::new(basic_rows());

    let df_head = df.head(20);
    assert_eq!(df_head.len(), 3);

    let result = df_head.take(3);
    assert_eq!(
        result[0],
        Data {
            name: String::from("Daniel"),
            age: 26
        }
    );
    assert_eq!(
        result[1],
        Data {
            name: String::from("Sergio"),
            age: 30
        }
    );
    assert_eq!(
        result[2],
        Data {
            name: String::from("Leticia"),
            age: 22
        }
    );
}

#[test]
fn test_basic_csv_apply() {
    let df = DataFrame::new(basic_rows());

    let df_message = df.apply(|row| Message {
        message: format!("Hello {} with {} years!", row.name, row.age),
    });

    assert_eq!(df_message.len(), 3);

    let messages = df_message.take(3);
    assert_eq!(
        messages[0],
        Message {
            message: String::from("Hello Daniel with 26 years!")
        }
    );
    assert_eq!(
        messages[1],
        Message {
            message: String::from("Hello Sergio with 30 years!")
        }
    );
    assert_eq!(
        messages[2],
        Message {
            message: String::from("Hello Leticia with 22 years!")
        }
    );
}

#[test]
fn test_basic_csv_filter() {
    let df = DataFrame::new(basic_rows());

    let df_filtered = df.filter(|row| row.age < 27);
    assert_eq!(df_filtered.len(), 2);

    let result = df_filtered.take(3);
    assert_eq!(result.len(), 2);
    assert_eq!(
        result[0],
        Data {
            name: String::from("Daniel"),
            age: 26
        }
    );
    assert_eq!(
        result[1],
        Data {
            name: String::from("Leticia"),
            age: 22
        }
    );
}

#[test]
fn test_filter_all_kept_is_copy() {
    let df = DataFrame::new(basic_rows());
    let copied = df.filter(|_| true);
    assert_eq!(copied.len(), 3);
    assert_eq!(copied.take(3), basic_rows());
}

#[test]
fn test_find_first_match() {
    let df = DataFrame::new(basic_rows());
    let found = df.find(|row| row.age < 31).unwrap();
    assert_eq!(found.name, "Daniel");
    assert!(df.find(|row| row.age > 99).is_none());
}

#[test]
fn test_take_more_than_len() {
    let df = DataFrame::new(basic_rows());
    assert_eq!(df.take(0).len(), 0);
    assert_eq!(df.take(10).len(), 3);
}

#[test]
fn test_slice_find_and_clone() {
    let df = DataFrame::new(basic_rows());
    let slice = df.head(2);
    let found = slice.find(|row| row.age == 30).unwrap();
    assert_eq!(found.name, "Sergio");
    assert!(slice.find(|row| row.age == 22).is_none());
    let copied = slice.clone();
    assert_eq!(copied.len(), 2);
    assert_eq!(copied.take(2), basic_rows()[0..2].to_vec());
}

#[test]
fn test_head_and_take_agree() {
    let df = DataFrame::new(basic_rows());
    assert_eq!(df.head(2).take(2), df.take(2));
    assert_eq!(df.head(20).take(20), df.take(20));
}

#[test]
fn test_empty_dataframe_transforms() {
    let df = DataFrame::new(Vec::<Data>::new());
    assert_eq!(df.len(), 0);
    assert_eq!(df.take(3).len(), 0);
    assert_eq!(df.head(3).len(), 0);
    assert_eq!(df.filter(|_| true).len(), 0);
    assert_eq!(df.sort(|a: &Data, b: &Data| a.age > b.age).len(), 0);
    let (l, r) = df.split(1, 2);
    assert_eq!(l.len() + r.len(), 0);
}
