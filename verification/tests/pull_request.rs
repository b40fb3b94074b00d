use st::{label_rgb, parse_assignees, select_label, PRCreationMetadata, SelectLabel};

fn strings(names: &[&str]) -> Vec<String> {
    names.iter().map(|s| s.to_string()).collect()
}

#[test]
fn assignees_are_separated_by_commas() {
    assert_eq!(parse_assignees("alice, bob,carol"), strings(&["alice", "bob", "carol"]));
    assert_eq!(parse_assignees("alice"), strings(&["alice"]));
    assert_eq!(parse_assignees(" a l i c e "), strings(&["alice"]));
}

#[test]
fn empty_parts_are_kept() {
    assert_eq!(parse_assignees(""), strings(&[""]));
    assert_eq!(parse_assignees("   "), strings(&[""]));
    assert_eq!(parse_assignees(","), strings(&["", ""]));
    assert_eq!(parse_assignees("a,,b,"), strings(&["a", "", "b", ""]));
    assert_eq!(parse_assignees(" , é "), strings(&["", "é"]));
}

#[test]
fn answer_is_read_as_the_standard_library_splits_it() {
    for answer in ["alice, bob", "", ",", " x ,y z,, ", "a\tb, c"] {
        let expected: Vec<String> =
            answer.replace(' ', "").split(',').map(|s| s.to_string()).collect();
        assert_eq!(parse_assignees(answer), expected);
    }
}

#[test]
fn label_colour_is_read_from_hexadecimal_digits() {
    assert_eq!(label_rgb("d73a4a"), Some((0xd7, 0x3a, 0x4a)));
    assert_eq!(label_rgb("D73A4A"), Some((0xd7, 0x3a, 0x4a)));
    assert_eq!(label_rgb("000000"), Some((0, 0, 0)));
    assert_eq!(label_rgb("ffffff"), Some((255, 255, 255)));
    assert_eq!(label_rgb("ff"), Some((0, 0, 255)));
    assert_eq!(label_rgb("+0102fe"), Some((1, 2, 254)));
    // the highest byte of a number of four bytes does not count
    assert_eq!(label_rgb("ff010203"), Some((1, 2, 3)));
    assert_eq!(label_rgb("0000000000abcdef"), Some((0xab, 0xcd, 0xef)));
}

#[test]
fn label_colour_that_is_no_number_is_refused() {
    assert_eq!(label_rgb(""), None);
    assert_eq!(label_rgb("+"), None);
    assert_eq!(label_rgb("++1"), None);
    assert_eq!(label_rgb("-1"), None);
    assert_eq!(label_rgb("#d73a4a"), None);
    assert_eq!(label_rgb("d73a4g"), None);
    assert_eq!(label_rgb(" d73a4a"), None);
    assert_eq!(label_rgb("100000000"), None);
    assert_eq!(label_rgb("fffffffffffffffffffff"), None);
}

#[test]
fn label_colour_agrees_with_the_standard_library() {
    for text in ["d73a4a", "", "+", "+7f", "-7f", "fffffffff", "0x10", "FFFFFFFF", "1", "g"] {
        let expected = u32::from_str_radix(text, 16).ok().map(|v| {
            ((v >> 16 & 0xff) as u8, (v >> 8 & 0xff) as u8, (v & 0xff) as u8)
        });
        assert_eq!(label_rgb(text), expected);
    }
}

#[test]
fn label_is_shown_in_its_colour() {
    assert_eq!(
        select_label("bug", "d73a4a"),
        Some(SelectLabel {
            name: "bug".to_string(),
            formatted: "\u{1b}[38;2;215;58;74mbug\u{1b}[0m".to_string(),
        })
    );
    assert_eq!(
        select_label("", "000000").unwrap().formatted,
        "\u{1b}[38;2;0;0;0m\u{1b}[0m"
    );
    assert_eq!(select_label("bug", "red"), None);
}

#[test]
fn metadata_of_a_new_pull_request() {
    let metadata = PRCreationMetadata {
        title: "Add feature".to_string(),
        body: "It works.".to_string(),
        is_draft: true,
        labels: None,
        assignees: Some(parse_assignees("alice, bob")),
    };
    assert_eq!(metadata.assignees, Some(strings(&["alice", "bob"])));
    assert!(metadata.is_draft);
    assert_eq!(metadata.labels, None);
}
