use textsum::display::centre_text;
use textsum::display::comma_separate_number;
use textsum::display::get_display;
use textsum::display::limit_width;

#[test]
fn test_comma_separate_number() {
    assert_eq!(comma_separate_number(&1), String::from("1"));
    assert_eq!(comma_separate_number(&10), String::from("10"));
    assert_eq!(comma_separate_number(&222), String::from("222"));
    assert_eq!(comma_separate_number(&1_000), String::from("1,000"));
    assert_eq!(comma_separate_number(&1_005_502), String::from("1,005,502"));
}

#[test]
fn test_centre_text() {
    assert_eq!(centre_text(&String::from(""), &3), String::from("   "));
    assert_eq!(centre_text(&String::from("a"), &3), String::from(" a "));
    assert_eq!(centre_text(&String::from("a"), &4), String::from("  a "));
    assert_eq!(centre_text(&String::from("ab"), &3), String::from(" ab"));
    assert_eq!(centre_text(&String::from("abc"), &3), String::from("abc"));
    assert_eq!(centre_text(&String::from("ab"), &5), String::from("  ab "));
    assert_eq!(centre_text(&String::from("abc"), &5), String::from(" abc "));
    assert_eq!(
        centre_text(&String::from("abcd edds"), &4),
        limit_width(&String::from("abcd edds"), &4, None)
    );
}

#[test]
fn test_limit_width() {
    assert_eq!(
        limit_width(&String::from("abcd"), &10, None),
        String::from("abcd")
    );

    assert_eq!(
        limit_width(&String::from("abcd"), &4, None),
        String::from("abcd")
    );

    let mut expect = String::from("abcd e");
    expect.push_str("...");
    assert_eq!(limit_width(&String::from("abcd efghi"), &9, None), expect);

    assert_eq!(
        limit_width(
            &String::from("abcd efghi"),
            &9,
            Option::from(&String::from("II"))
        ),
        String::from("abcd efII")
    );
    assert_eq!(
        limit_width(
            &String::from("abcd efghi"),
            &99,
            Option::from(&String::from("II"))
        ),
        String::from("abcd efghi")
    );
}

#[test]
fn test_limit_width_idempotent() {
    let text = String::from("a very long phrase that needs truncation");
    let once = limit_width(&text, &12, None);
    let twice = limit_width(&once, &12, None);
    assert_eq!(once, twice);
    let short = String::from("short");
    let once_short = limit_width(&short, &12, None);
    let twice_short = limit_width(&once_short, &12, None);
    assert_eq!(once_short, twice_short);
}

#[test]
fn test_comma_separate_number_round_trip() {
    let rendered = comma_separate_number(&1_005_502);
    assert_eq!(rendered, String::from("1,005,502"));
    let parsed: usize = rendered.replace(",", "").parse().unwrap();
    assert_eq!(parsed, 1_005_502);
    let rendered_zero = comma_separate_number(&0);
    assert_eq!(rendered_zero, String::from("0"));
    let parsed_zero: usize = rendered_zero.replace(",", "").parse().unwrap();
    assert_eq!(parsed_zero, 0);
}

#[test]
fn test_get_display_empty_ranking() {
    let lines = get_display(&0, &0, &0, &0, &vec![], &vec![], &80);
    // A border line, the headings, a border line, the four aggregate
    // rows, and a closing border line.
    assert_eq!(lines.len(), 8);
    for line in &lines {
        assert_eq!(line.chars().count(), 80);
    }
    assert_eq!(lines[0], "=".repeat(80));
    assert_eq!(lines[2], "=".repeat(80));
    assert_eq!(lines[7], "=".repeat(80));
    assert_eq!(
        lines[1],
        String::from("|")
            + &" ".repeat(15)
            + "Most common words/phrases"
            + &" ".repeat(14)
            + "|"
            + &" ".repeat(9)
            + "Counts"
            + &" ".repeat(8)
            + "|"
    );
    assert_eq!(
        lines[3],
        String::from("|") + &" ".repeat(54) + "|" + &" ".repeat(8) + "Word: 0" + &" ".repeat(8)
            + "|"
    );
}

#[test]
fn test_get_display_with_entries() {
    let words = vec![String::from("abc"), String::from("ba")];
    let counts = vec![4, 2];
    let lines = get_display(&6, &14, &0, &5, &words, &counts, &80);
    assert_eq!(lines.len(), 8);
    for line in &lines {
        assert_eq!(line.chars().count(), 80);
    }
    // The first content row carries the top entry with its count.
    assert!(lines[3].contains("abc (4)"));
    assert!(lines[4].contains("ba (2)"));
    assert!(lines[3].contains("Word: 6"));
    assert!(lines[4].contains("Character: 14"));
    assert!(lines[5].contains("Digit: 0"));
    assert!(lines[6].contains("Whitespace: 5"));
}

#[test]
fn test_get_display_narrow_width() {
    let lines = get_display(&1, &3, &0, &0, &vec![String::from("abc")], &vec![1], &16);
    for line in &lines {
        assert_eq!(line.chars().count(), 16);
    }
}
