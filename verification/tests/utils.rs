use aoc::utils::{FileReader, StringUtils};

#[test]
fn test_partition_by() {
    assert_eq!(
        vec![String::from("123456789")],
        StringUtils::partition_by(String::from("123456789"), 0)
    );

    assert_eq!(
        vec![
            String::from("123"),
            String::from("456"),
            String::from("789")
        ],
        StringUtils::partition_by(String::from("123456789"), 3)
    );

    assert_eq!(
        vec![
            String::from("1234"),
            String::from("5678"),
            String::from("9")
        ],
        StringUtils::partition_by(String::from("123456789"), 4)
    )
}

#[test]
fn test_all_equal() {
    let test1 = vec![
        String::from("123"),
        String::from("123"),
        String::from("123"),
    ];
    let test2 = vec![
        String::from("123"),
        String::from("456"),
        String::from("789"),
    ];
    let test3 = vec![
        String::from("123"),
        String::from("456"),
        String::from("123"),
    ];
    let test4 = vec![String::from("1234"), String::from("1234")];

    assert!(StringUtils::all_equal(test1));
    assert!(!StringUtils::all_equal(test2));
    assert!(!StringUtils::all_equal(test3));
    assert!(StringUtils::all_equal(test4));
}

#[test]
fn partition_by_counts_characters_not_bytes() {
    assert_eq!(
        vec![String::from("äö"), String::from("ü")],
        StringUtils::partition_by(String::from("äöü"), 2)
    );
}

#[test]
fn partition_by_of_nothing() {
    let none: Vec<String> = vec![];
    assert_eq!(none, StringUtils::partition_by(String::new(), 3));
    assert_eq!(vec![String::new()], StringUtils::partition_by(String::new(), 0));
    assert_eq!(
        vec![String::from("ab")],
        StringUtils::partition_by(String::from("ab"), usize::MAX)
    );
}

#[test]
fn all_equal_of_few() {
    assert!(StringUtils::all_equal(vec![]));
    assert!(StringUtils::all_equal(vec![String::from("a")]));
    assert!(!StringUtils::all_equal(vec![String::from("a"), String::new()]));
}

#[test]
fn file_reader_keeps_its_path() {
    let reader = FileReader::new("../test-resources/sample_file.txt");
    assert_eq!("../test-resources/sample_file.txt", reader.path());
}
