use wglib::scraper::{validate_wikipedia_article, ArticleErr};

#[test]
fn mod_is_wikipedia_article_valid() -> Result<(), ArticleErr> {
    validate_wikipedia_article("https://en.wikipedia.org/wiki/Wikipedia")?;
    validate_wikipedia_article("https://en.wikipedia.org/wiki/Help!_(film)")?;
    Ok(())
}

#[test]
fn mod_is_wikipedia_article_invalid() {
    if let Ok(_) = validate_wikipedia_article("https://en.wikipedia.org/wiki/Help:Contents") {
        panic!("Test1 failed.");
    }
    if let Ok(_) = validate_wikipedia_article("https://en.wikipedia.org/wiki/Wikipedia:Contact_us")
    {
        panic!("Test 2 failed.")
    }
}

#[test]
fn the_prefix_is_wanted_in_full() {
    assert_eq!(validate_wikipedia_article("/wiki/Tree"), Err(ArticleErr::MissingPrefix));
    assert_eq!(validate_wikipedia_article(""), Err(ArticleErr::MissingPrefix));
    assert_eq!(
        validate_wikipedia_article("https://de.wikipedia.org/wiki/Tree"),
        Err(ArticleErr::MissingPrefix)
    );
    assert_eq!(validate_wikipedia_article("https://en.wikipedia.org/wiki/"), Ok(()));
}

#[test]
fn the_error_names_the_beginning() {
    assert_eq!(
        validate_wikipedia_article("https://en.wikipedia.org/wiki/Help:Contents"),
        Err(ArticleErr::BlacklistedPrefix(String::from("Help:")))
    );
    assert_eq!(
        validate_wikipedia_article("https://en.wikipedia.org/wiki/Main_Page"),
        Err(ArticleErr::BlacklistedPrefix(String::from("Main_Page")))
    );
    assert_eq!(
        validate_wikipedia_article("https://en.wikipedia.org/wiki/Special:Random"),
        Err(ArticleErr::BlacklistedPrefix(String::from("Special:")))
    );
    assert_eq!(validate_wikipedia_article("https://en.wikipedia.org/wiki/Category:Trees"), Ok(()));
    assert_eq!(validate_wikipedia_article("https://en.wikipedia.org/wiki/A_Help:"), Ok(()));
}

#[test]
fn a_repeated_prefix_is_passed_over() {
    assert_eq!(
        validate_wikipedia_article(
            "https://en.wikipedia.org/wiki/https://en.wikipedia.org/wiki/Help:Contents"
        ),
        Err(ArticleErr::BlacklistedPrefix(String::from("Help:")))
    );
    assert_eq!(
        validate_wikipedia_article("https://en.wikipedia.org/wiki/https://en.wikipedia.org/wiki/Tree"),
        Ok(())
    );
}

#[test]
fn a_refusal_says_what_went_wrong() {
    assert_eq!(ArticleErr::MissingPrefix.to_string(), "Missing prefix.");
    assert_eq!(
        ArticleErr::BlacklistedPrefix(String::from("Help:")).to_string(),
        "Blacklisted article prefix found. (Help:)"
    );
}
