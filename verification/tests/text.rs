use wglib::text::{begins_with, chars_of, ends_with, find, slice_of, string_of};

fn chars(s: &str) -> Vec<char> {
    s.chars().collect()
}

#[test]
fn chars_of_gives_each_character() {
    assert_eq!(chars_of(""), Vec::<char>::new());
    assert_eq!(chars_of("a\u{e9}\u{1F333}\n"), vec!['a', '\u{e9}', '\u{1F333}', '\n']);
}

#[test]
fn string_of_and_slice_of_cut_a_part() {
    let cs = chars("gr\u{fc}n und blau");
    assert_eq!(string_of(&cs, 0, 4), "gr\u{fc}n");
    assert_eq!(string_of(&cs, 5, 8), "und");
    assert_eq!(string_of(&cs, 3, 3), "");
    assert_eq!(string_of(&cs, 0, cs.len()), "gr\u{fc}n und blau");
    assert_eq!(slice_of(&cs, 9, 13), chars("blau"));
    assert_eq!(slice_of(&cs, 13, 13), Vec::<char>::new());
}

#[test]
fn find_gives_the_first_place() {
    let cs = chars("a#b#c");
    assert_eq!(find(&cs, 0, 5, '#'), 1);
    assert_eq!(find(&cs, 2, 5, '#'), 3);
    assert_eq!(find(&cs, 4, 5, '#'), 5);
    assert_eq!(find(&cs, 0, 1, '#'), 1);
    assert_eq!(find(&cs, 1, 1, '#'), 1);
    assert_eq!(find(&cs, 0, 5, 'c'), 4);
    assert_eq!(find(&cs, 0, 5, 'x'), 5);
}

#[test]
fn begins_with_and_ends_with_stay_in_the_part() {
    let cs = chars("/wiki/Tree");
    assert!(begins_with(&cs, 0, 10, &chars("/wiki/")));
    assert!(begins_with(&cs, 6, 10, &chars("Tree")));
    assert!(begins_with(&cs, 6, 10, &chars("")));
    assert!(!begins_with(&cs, 0, 5, &chars("/wiki/")));
    assert!(!begins_with(&cs, 1, 10, &chars("/wiki/")));
    assert!(!begins_with(&cs, 6, 10, &chars("Trees")));
    assert!(ends_with(&cs, 0, 10, &chars("Tree")));
    assert!(ends_with(&cs, 0, 6, &chars("wiki/")));
    assert!(ends_with(&cs, 3, 3, &chars("")));
    assert!(!ends_with(&cs, 8, 10, &chars("Tree")));
    assert!(!ends_with(&cs, 0, 9, &chars("Tree")));
}
