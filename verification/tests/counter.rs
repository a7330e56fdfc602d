use textsum::counter::find_common_words;

#[test]
fn counter_test_find_common_words() {
    assert_eq!(find_common_words(&vec![], 1), (vec![], vec![]));
    assert_eq!(find_common_words(&vec![], 2), (vec![], vec![]));
    assert_eq!(find_common_words(&vec![], 3), (vec![], vec![]));
    assert_eq!(find_common_words(&vec![], 4), (vec![], vec![]));
    assert_eq!(
        find_common_words(&vec![String::from("Hi")], 1),
        (vec![String::from("Hi")], vec![1])
    );
    assert_eq!(
        find_common_words(&vec![String::from("Hi"); 2], 1),
        (vec![String::from("Hi")], vec![2])
    );
    assert_eq!(
        find_common_words(
            &vec![String::from("Hi"), String::from("hi"), String::from("Hi")],
            1
        ),
        (vec![String::from("Hi")], vec![2])
    );
    assert_eq!(
        find_common_words(
            &vec![
                String::from("abc"),
                String::from("abcd"),
                String::from("abc"),
                String::from("abc"),
                String::from("abc"),
                String::from("ba"),
                String::from("ba"),
                String::from("ba"),
                String::from("ba"),
            ],
            1
        ),
        (vec![String::from("abc")], vec![4])
    );
    assert_eq!(
        find_common_words(
            &vec![
                String::from("abc"),
                String::from("abcd"),
                String::from("abc"),
                String::from("abc"),
                String::from("abc"),
                String::from("ba"),
                String::from("ba"),
                String::from("ba"),
                String::from("ba"),
            ],
            2
        ),
        (vec![String::from("abc"), String::from("ba"),], vec![4, 4])
    );
    assert_eq!(
        find_common_words(
            &vec![
                String::from("abc"),
                String::from("abcd"),
                String::from("abc"),
                String::from("abc"),
                String::from("abc"),
                String::from("ba"),
                String::from("ba"),
                String::from("ba"),
                String::from("ba"),
            ],
            3
        ),
        (
            vec![
                String::from("abc"),
                String::from("ba"),
                String::from("abcd")
            ],
            vec![4, 4, 1]
        )
    );
}

#[test]
fn test_count_characters_words_and_counts() {
    let text = String::from("abc a");
    let (words, alphabetic, numeric, whitespace) = textsum::counter::count_characters(&text);
    assert_eq!(words, vec![String::from("abc"), String::from("a")]);
    assert_eq!(alphabetic, 4);
    assert_eq!(numeric, 0);
    assert_eq!(whitespace, 1);
}

#[test]
fn test_count_characters_digits() {
    let text = String::from("a1 2");
    let (words, alphabetic, numeric, whitespace) = textsum::counter::count_characters(&text);
    assert_eq!(words, vec![String::from("a1"), String::from("2")]);
    assert_eq!(alphabetic, 1);
    assert_eq!(numeric, 2);
    assert_eq!(whitespace, 1);
}

#[test]
fn test_count_characters_skips_symbols() {
    let text = String::from("a-b c!");
    let (words, alphabetic, numeric, whitespace) = textsum::counter::count_characters(&text);
    assert_eq!(words, vec![String::from("ab"), String::from("c")]);
    assert_eq!(alphabetic, 3);
    assert_eq!(numeric, 0);
    assert_eq!(whitespace, 1);
}

#[test]
fn test_count_characters_empty() {
    let text = String::new();
    let (words, alphabetic, numeric, whitespace) = textsum::counter::count_characters(&text);
    assert_eq!(words, Vec::<String>::new());
    assert_eq!(alphabetic, 0);
    assert_eq!(numeric, 0);
    assert_eq!(whitespace, 0);
}

#[test]
fn test_find_common_words_case_insensitive_tie() {
    // Equal counts: "a" comes before "B" in case-insensitive order even
    // though 'B' precedes 'a' by code point.
    let words = vec![String::from("B"), String::from("a")];
    assert_eq!(
        find_common_words(&words, 2),
        (vec![String::from("a"), String::from("B")], vec![1, 1])
    );
}

#[test]
fn test_find_common_words_case_sensitive_counts() {
    // Case-sensitive identity: "Hi" and "hi" are distinct words; with
    // folded forms equal, the raw order decides the tie.
    let words = vec![
        String::from("hi"),
        String::from("Hi"),
        String::from("hi"),
        String::from("Hi"),
    ];
    assert_eq!(
        find_common_words(&words, 2),
        (vec![String::from("Hi"), String::from("hi")], vec![2, 2])
    );
}

#[test]
fn test_find_common_words_fewer_than_n() {
    let words = vec![String::from("one"), String::from("one")];
    assert_eq!(
        find_common_words(&words, 9),
        (vec![String::from("one")], vec![2])
    );
}
