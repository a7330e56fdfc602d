use textsum::word_counter::find_common_words;

#[test]
fn word_counter_test_find_common_words() {
    assert_eq!(find_common_words(&vec![], 1), (vec![], vec![]));
    assert_eq!(find_common_words(&vec![], 2), (vec![], vec![]));
    assert_eq!(find_common_words(&vec![], 3), (vec![], vec![]));
    assert_eq!(find_common_words(&vec![], 4), (vec![], vec![]));
    assert_eq!(
        find_common_words(&vec![String::from("Hi")], 1),
        (vec![String::from("Hi")], vec![1])
    );
    assert_eq!(
        find_common_words(&vec![String::from("Hi"); 2], 1),
        (vec![String::from("Hi")], vec![2])
    );
    assert_eq!(
        find_common_words(
            &vec![String::from("Hi"), String::from("hi"), String::from("Hi")],
            1
        ),
        (vec![String::from("Hi")], vec![2])
    );
    assert_eq!(
        find_common_words(
            &vec![
                String::from("abc"),
                String::from("abcd"),
                String::from("abc"),
                String::from("abc"),
                String::from("abc"),
                String::from("ba"),
                String::from("ba"),
                String::from("ba"),
                String::from("ba"),
            ],
            1
        ),
        (vec![String::from("abc")], vec![4])
    );
    assert_eq!(
        find_common_words(
            &vec![
                String::from("abc"),
                String::from("abcd"),
                String::from("abc"),
                String::from("abc"),
                String::from("abc"),
                String::from("ba"),
                String::from("ba"),
                String::from("ba"),
                String::from("ba"),
            ],
            2
        ),
        (vec![String::from("abc"), String::from("ba"),], vec![4, 4])
    );
    assert_eq!(
        find_common_words(
            &vec![
                String::from("abc"),
                String::from("abcd"),
                String::from("abc"),
                String::from("abc"),
                String::from("abc"),
                String::from("ba"),
                String::from("ba"),
                String::from("ba"),
                String::from("ba"),
            ],
            3
        ),
        (
            vec![
                String::from("abc"),
                String::from("ba"),
                String::from("abcd")
            ],
            vec![4, 4, 1]
        )
    );
}
