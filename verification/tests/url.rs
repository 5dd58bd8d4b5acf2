use wglib::{URLErr, URL};

#[test]
fn url_is_wikipedia_article_valid() -> Result<(), URLErr> {
    URL::extract_body("https://en.wikipedia.org/wiki/Wikipedia")?;
    URL::extract_body("https://en.wikipedia.org/wiki/Help!_(film)")?;
    Ok(())
}

#[test]
fn url_is_wikipedia_article_invalid() {
    if let Ok(_) = URL::extract_body("https://en.wikipedia.org/wiki/Help:Contents") {
        panic!("Test1 failed.");
    }
    if let Ok(_) = URL::extract_body("https://en.wikipedia.org/wiki/Wikipedia:Contact_us") {
        panic!("Test 2 failed.")
    }
}

#[test]
fn extract_body_gives_the_name() {
    assert_eq!(URL::extract_body("https://en.wikipedia.org/wiki/Wikipedia"), Ok("Wikipedia"));
    assert_eq!(URL::extract_body("/wiki/Tree"), Ok("Tree"));
    assert_eq!(URL::extract_body("/wiki/"), Ok(""));
    assert_eq!(URL::extract_body("/wiki/Caf\u{e9}_au_lait"), Ok("Caf\u{e9}_au_lait"));
}

#[test]
fn new_accepts_an_address_with_or_without_the_domain() {
    let a = URL::new("https://en.wikipedia.org/wiki/Wikipedia").unwrap();
    let b = URL::new("/wiki/Wikipedia").unwrap();
    assert_eq!(a, b);
    assert_eq!(a.as_str(), "Wikipedia");
    assert!(a.same(&b));
}

#[test]
fn new_refuses_another_domain() {
    assert_eq!(URL::new("https://de.wikipedia.org/wiki/Wikipedia"), Err(URLErr::MissingPrefix));
    assert_eq!(URL::new(""), Err(URLErr::MissingPrefix));
    assert_eq!(URL::new("Wikipedia"), Err(URLErr::MissingPrefix));
    assert_eq!(URL::new("https://en.wikipedia.org"), Err(URLErr::MissingPrefix));
    assert_eq!(URL::new("https://en.wikipedia.org/w/index.php"), Err(URLErr::MissingPrefix));
}

#[test]
fn new_refuses_a_colon() {
    assert_eq!(
        URL::new("https://en.wikipedia.org/wiki/Wikipedia:Contact_us"),
        Err(URLErr::BlacklistedPrefix(String::new()))
    );
    assert_eq!(URL::new("/wiki/Help:X"), Err(URLErr::BlacklistedPrefix(String::new())));
    assert_eq!(URL::new("/wiki/Category:Trees"), Err(URLErr::BlacklistedPrefix(String::new())));
    assert_eq!(URL::new("/wiki/Star_Trek:_Voyager"), Err(URLErr::BlacklistedPrefix(String::new())));
    assert_eq!(URL::new("/wiki/Tree#a:b"), Err(URLErr::BlacklistedPrefix(String::new())));
}

#[test]
fn new_refuses_the_main_page() {
    assert_eq!(URL::new("/wiki/Main_Page"), Err(URLErr::BlacklistedPrefix(String::from("Main_Page"))));
    assert_eq!(
        URL::new("https://en.wikipedia.org/wiki/Main_Page#top"),
        Err(URLErr::BlacklistedPrefix(String::from("Main_Page")))
    );
}

#[test]
fn new_refuses_a_disambiguation_page() {
    assert_eq!(
        URL::new("/wiki/Mercury_(disambiguation)"),
        Err(URLErr::BlacklistedSuffix(String::from("_(disambiguation)")))
    );
}

#[test]
fn the_fragment_goes_before_the_ending_is_tested() {
    assert_eq!(
        URL::new("/wiki/Mercury_(disambiguation)#Science"),
        Err(URLErr::BlacklistedSuffix(String::from("_(disambiguation)")))
    );
    assert_eq!(URL::new("/wiki/Mercury#_(disambiguation)").unwrap().as_str(), "Mercury");
}

#[test]
fn new_strips_the_fragment() {
    let u = URL::new("https://en.wikipedia.org/wiki/Tree#Overview").unwrap();
    assert_eq!(u.as_str(), "Tree");
    assert_eq!(u, URL::new("/wiki/Tree").unwrap());
    assert_eq!(URL::new("/wiki/Tree#a#b").unwrap().as_str(), "Tree");
    assert_eq!(URL::new("/wiki/#x").unwrap().as_str(), "");
}

#[test]
fn to_string_gives_the_address() {
    let u = URL::new("https://en.wikipedia.org/wiki/Help!_(film)").unwrap();
    assert_eq!(u.to_string(), "https://en.wikipedia.org/wiki/Help!_(film)");
    let v = URL::new("/wiki/Tree#Overview").unwrap();
    assert_eq!(v.to_string(), "https://en.wikipedia.org/wiki/Tree");
}

#[test]
fn the_address_gives_the_name_back() {
    for s in ["/wiki/Tree", "/wiki/Help!_(film)", "/wiki/Caf\u{e9}#x", "https://en.wikipedia.org/wiki/A_B_C"] {
        let u = URL::new(s).unwrap();
        assert_eq!(URL::new(&u.to_string()), Ok(u));
    }
}

#[test]
fn get_name_puts_spaces_for_underscores() {
    let u = URL::new("https://en.wikipedia.org/wiki/Help!_(film)").unwrap();
    assert_eq!(u.get_name(), "Help! (film)");
    assert_eq!(URL::new("/wiki/__a_").unwrap().get_name(), "  a ");
    assert_eq!(URL::new("/wiki/Tree").unwrap().get_name(), "Tree");
}

#[test]
fn new_list_keeps_the_valid_lines_in_order() {
    let contents = String::from(
        "https://en.wikipedia.org/wiki/Wikipedia\n\
         https://de.wikipedia.org/wiki/Wikipedia\n\
         https://en.wikipedia.org/wiki/Wikipedia:Contact_us",
    );
    let list = URL::new_list(&contents);
    assert_eq!(list.len(), 1);
    assert_eq!(list[0].to_string(), "https://en.wikipedia.org/wiki/Wikipedia");
}

#[test]
fn new_list_reads_every_kind_of_line_end() {
    let contents = String::from("/wiki/B\r\n/wiki/A\n\nnothing\n/wiki/B\n/wiki/C");
    let names: Vec<String> = URL::new_list(&contents).iter().map(|u| u.as_str().to_string()).collect();
    assert_eq!(names, vec!["B", "A", "B", "C"]);
    assert_eq!(URL::new_list(&String::new()).len(), 0);
    assert_eq!(URL::new_list(&String::from("\n\n")).len(), 0);
    assert_eq!(URL::new_list(&String::from("/wiki/A\n")).len(), 1);
}

#[test]
fn a_carriage_return_without_a_line_feed_stays() {
    let list = URL::new_list(&String::from("/wiki/A\r"));
    assert_eq!(list.len(), 1);
    assert_eq!(list[0].as_str(), "A\r");
    let list = URL::new_list(&String::from("/wiki/A\rB\n/wiki/C"));
    assert_eq!(list[0].as_str(), "A\rB");
    assert_eq!(list[1].as_str(), "C");
}

#[test]
fn from_chars_reads_as_new_does() {
    let cs: Vec<char> = "/wiki/Tree#x".chars().collect();
    assert_eq!(URL::from_chars(&cs), URL::new("/wiki/Tree#x"));
    let cs: Vec<char> = "/wiki/Help:X".chars().collect();
    assert_eq!(URL::from_chars(&cs), URL::new("/wiki/Help:X"));
}

#[test]
fn names_are_ordered() {
    let a = URL::new("/wiki/A").unwrap();
    let b = URL::new("/wiki/B").unwrap();
    assert!(a < b);
    let mut v = vec![b.clone(), a.clone()];
    v.sort();
    assert_eq!(v, vec![a, b]);
}

#[test]
fn an_error_says_what_went_wrong() {
    assert_eq!(URLErr::MissingPrefix.to_string(), "Missing prefix.");
    assert_eq!(
        URLErr::BlacklistedPrefix(String::from("Main_Page")).to_string(),
        "Blacklisted article prefix found. (Main_Page)"
    );
    assert_eq!(
        URLErr::BlacklistedSuffix(String::from("_(disambiguation)")).to_string(),
        "Blacklisted article suffix found. (_(disambiguation))"
    );
}
