use wglib::pathfinder::{nearest_unknown, position};
use wglib::urlset::UrlSet;
use wglib::URL;

fn name(s: &str) -> URL {
    URL::new(&format!("/wiki/{}", s)).unwrap()
}

#[test]
fn position_gives_the_first_place() {
    let ns = vec![name("A"), name("B"), name("A"), name("C")];
    assert_eq!(position(&ns, &name("A")), Some(0));
    assert_eq!(position(&ns, &name("B")), Some(1));
    assert_eq!(position(&ns, &name("C")), Some(3));
    assert_eq!(position(&ns, &name("D")), None);
    assert_eq!(position(&Vec::new(), &name("A")), None);
}

#[test]
fn nearest_unknown_takes_the_nearest() {
    let known = vec![true, false, false, true, false, false];
    let dist = vec![Some(0), Some(2), Some(1), Some(1), None, Some(1)];
    assert_eq!(nearest_unknown(&known, &dist, None), vec![2, 5]);
    assert_eq!(nearest_unknown(&known, &dist, Some(3)), vec![2, 5]);
    assert_eq!(nearest_unknown(&known, &dist, Some(2)), Vec::<usize>::new());
    assert_eq!(nearest_unknown(&known, &dist, Some(0)), Vec::<usize>::new());
    assert_eq!(nearest_unknown(&known, &dist, Some(usize::MAX)), vec![2, 5]);
}

#[test]
fn nearest_unknown_passes_over_what_is_known_or_cut_off() {
    let dist = vec![Some(0), Some(1), None];
    assert_eq!(nearest_unknown(&vec![true, true, false], &dist, None), Vec::<usize>::new());
    assert_eq!(nearest_unknown(&vec![false, false, false], &dist, None), vec![0]);
    assert_eq!(nearest_unknown(&vec![true, false, false], &dist, Some(3)), vec![1]);
    assert_eq!(nearest_unknown(&Vec::new(), &Vec::new(), None), Vec::<usize>::new());
    let far = vec![Some(usize::MAX), Some(usize::MAX)];
    assert_eq!(nearest_unknown(&vec![false, false], &far, Some(usize::MAX)), Vec::<usize>::new());
    assert_eq!(nearest_unknown(&vec![false, false], &far, None), vec![0, 1]);
}

#[test]
fn a_set_keeps_each_name_once_in_order() {
    let mut s = UrlSet::new();
    assert!(s.is_empty());
    assert!(s.insert(&name("B")));
    assert!(s.insert(&name("A")));
    assert!(!s.insert(&name("B")));
    assert!(s.contains(&name("A")));
    assert!(!s.contains(&name("C")));
    assert_eq!(s.len(), 2);
    assert!(!s.is_empty());
    assert_eq!(s.as_vec(), &vec![name("B"), name("A")]);
    assert_eq!(s.into_vec(), vec![name("B"), name("A")]);
}
