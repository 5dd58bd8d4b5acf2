use wglib::order::{precedes, sort};
use wglib::URL;

fn chars(s: &str) -> Vec<char> {
    s.chars().collect()
}

fn name(s: &str) -> URL {
    URL::new(&format!("/wiki/{}", s)).unwrap()
}

#[test]
fn precedes_goes_by_the_first_difference() {
    assert!(precedes(&chars(""), &chars("")));
    assert!(precedes(&chars(""), &chars("a")));
    assert!(!precedes(&chars("a"), &chars("")));
    assert!(precedes(&chars("abc"), &chars("abc")));
    assert!(precedes(&chars("abc"), &chars("abd")));
    assert!(!precedes(&chars("abd"), &chars("abc")));
    assert!(precedes(&chars("ab"), &chars("abc")));
    assert!(!precedes(&chars("abc"), &chars("ab")));
    assert!(precedes(&chars("Z"), &chars("a")));
    assert!(precedes(&chars("z"), &chars("\u{e9}")));
    assert!(precedes(&chars("\u{ffff}"), &chars("\u{10000}")));
}

#[test]
fn precedes_agrees_with_the_order_of_strings() {
    let words = ["", "a", "A", "ab", "b", "B\u{e4}ume", "Baum", "\u{1F333}", "\u{ffff}", "z_1", "z1"];
    for a in words.iter() {
        for b in words.iter() {
            assert_eq!(precedes(&chars(a), &chars(b)), a <= b, "{:?} {:?}", a, b);
        }
    }
}

#[test]
fn sort_puts_names_in_order() {
    let ns = vec![name("Tree"), name("Apple"), name("tree"), name("Apple"), name("\u{c4}pfel"), name("")];
    let sorted = sort(&ns);
    let mut expected = ns.clone();
    expected.sort();
    assert_eq!(sorted, expected);
    assert_eq!(sorted, vec![name(""), name("Apple"), name("Apple"), name("Tree"), name("tree"), name("\u{c4}pfel")]);
    assert_eq!(sort(&Vec::new()), Vec::new());
    assert_eq!(sort(&vec![name("A")]), vec![name("A")]);
}

#[test]
fn sort_of_many_names() {
    let ns: Vec<URL> = (0..300).map(|i| name(&format!("N{}", (i * 7919) % 1000))).collect();
    let sorted = sort(&ns);
    let mut expected = ns.clone();
    expected.sort();
    assert_eq!(sorted, expected);
}
