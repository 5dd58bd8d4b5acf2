use std::collections::{HashMap, HashSet};
use wglib::{Article, ArticleErr, CollectionErr, Collector, Fetched, Step, URL};

/// Pages to fetch from, with a record of what was fetched.
struct Web {
    pages: HashMap<String, String>,
    broken: HashSet<String>,
    fetched: Vec<String>,
}

impl Web {
    fn of(links: &[(&str, &[&str])]) -> Web {
        let mut pages = HashMap::new();
        for (from, to) in links {
            let mut site = format!("<html>\n<h1>{}</h1>\n", from);
            for t in to.iter() {
                site.push_str(&format!("<p>see <a href=\"/wiki/{}\">{}</a></p>\r\n", t, t));
            }
            site.push_str("</html>");
            pages.insert(from.to_string(), site);
        }
        Web { pages, broken: HashSet::new(), fetched: Vec::new() }
    }

    fn fetch(&mut self, url: &URL) -> Fetched {
        let name = url.as_str().to_string();
        self.fetched.push(name.clone());
        let body = if self.broken.contains(&name) { None } else { self.pages.get(&name).cloned() };
        Fetched { url: url.clone(), body }
    }

    fn fetch_all(&mut self, urls: &[URL]) -> Vec<Fetched> {
        urls.iter().map(|u| self.fetch(u)).collect()
    }
}

fn six() -> Web {
    Web::of(&[
        ("A", &["B", "D"]),
        ("B", &["C"]),
        ("C", &["F"]),
        ("D", &["E"]),
        ("E", &["C"]),
        ("F", &[]),
    ])
}

fn name(s: &str) -> URL {
    URL::new(&format!("/wiki/{}", s)).unwrap()
}

fn names_of(arts: &[Article]) -> Vec<String> {
    arts.iter().map(|a| a.name().to_string()).collect()
}

fn sorted(mut v: Vec<String>) -> Vec<String> {
    v.sort();
    v
}

fn get(c: &mut Collector, web: &mut Web, url: &URL) -> Result<Article, CollectionErr> {
    for _ in 0..3 {
        match c.get(url) {
            Some(a) => return Ok(a),
            None => c.store(vec![web.fetch(url)])?,
        }
    }
    panic!("the article is not held after it was stored")
}

fn drive(
    c: &mut Collector,
    web: &mut Web,
    ask: &dyn Fn(&mut Collector) -> Result<Step<Vec<Article>>, CollectionErr>,
) -> Result<Vec<Article>, CollectionErr> {
    for _ in 0..1000 {
        match ask(c)? {
            Step::Done(arts) => return Ok(arts),
            Step::Fetch(urls) => {
                assert!(!urls.is_empty());
                c.store(web.fetch_all(&urls))?
            },
        }
    }
    panic!("the query does not end")
}

fn list(c: &mut Collector, web: &mut Web, urls: &Vec<URL>) -> Result<Vec<Article>, CollectionErr> {
    drive(c, web, &|c| Ok(c.get_list(urls)))
}

fn list_stable(c: &mut Collector, web: &mut Web, urls: &Vec<URL>) -> Result<Vec<Article>, CollectionErr> {
    drive(c, web, &|c| Ok(c.get_list_stable(urls)))
}

fn neighbourhood(c: &mut Collector, web: &mut Web, url: &URL, depth: u32) -> Result<Vec<Article>, CollectionErr> {
    drive(c, web, &|c| Ok(c.get_neighbourhood(url, depth)))
}

fn path(c: &mut Collector, web: &mut Web, og: &URL, tg: &URL) -> Result<Vec<Article>, CollectionErr> {
    drive(c, web, &|c| c.get_path(og, tg))
}

#[test]
fn get_is_deterministic() -> Result<(), CollectionErr> {
    let mut web = Web::of(&[("Wikipedia", &["Encyclopedia", "Tree"])]);
    let u = URL::new("https://en.wikipedia.org/wiki/Wikipedia").unwrap();
    let mut c = Collector::new();
    let r = get(&mut c, &mut web, &u)?;
    for _ in 0..100 {
        assert_eq!(get(&mut c, &mut web, &u)?, r);
    }
    assert_eq!(web.fetched, vec!["Wikipedia"]);
    Ok(())
}

#[test]
fn get_list_is_deterministic() -> Result<(), CollectionErr> {
    let mut web = Web::of(&[("Wikipedia", &["Tree"]), ("Tree", &["Wikipedia", "Forest"])]);
    let us = vec![
        URL::new("https://en.wikipedia.org/wiki/Wikipedia").unwrap(),
        URL::new("https://en.wikipedia.org/wiki/Tree").unwrap(),
    ];
    let mut c = Collector::new();
    let r = list(&mut c, &mut web, &us)?;
    for _ in 0..100 {
        assert_eq!(list(&mut c, &mut web, &us)?, r);
    }
    assert_eq!(web.fetched.len(), 2);
    Ok(())
}

#[test]
fn a_new_collector_holds_nothing() {
    let mut c = Collector::new();
    assert_eq!(c.len(), 0);
    assert_eq!(c.processed(), 0);
    assert_eq!(c.get(&name("A")), None);
    assert_eq!(c.processed(), 1);
}

#[test]
fn get_gives_what_was_stored() {
    let mut web = six();
    let mut c = Collector::new();
    let a = get(&mut c, &mut web, &name("A")).unwrap();
    assert_eq!(a.get_url(), name("A"));
    assert_eq!(a.references(), &vec![name("B"), name("D")]);
    assert_eq!(c.len(), 1);
    assert_eq!(c.get(&name("A")), Some(a));
    assert_eq!(c.get(&name("B")), None);
    assert_eq!(web.fetched, vec!["A"]);
}

#[test]
fn get_counts_each_lookup() {
    let mut web = six();
    let mut c = Collector::new();
    get(&mut c, &mut web, &name("A")).unwrap();
    assert_eq!(c.processed(), 2);
    c.get(&name("A"));
    c.get(&name("Z"));
    assert_eq!(c.processed(), 4);
}

#[test]
fn get_fails_where_the_page_cannot_be_fetched() {
    let mut web = six();
    web.broken.insert(String::from("A"));
    let mut c = Collector::new();
    assert_eq!(get(&mut c, &mut web, &name("A")), Err(CollectionErr::RequestError));
    assert_eq!(get(&mut c, &mut web, &name("Nowhere")), Err(CollectionErr::RequestError));
    assert_eq!(c.len(), 0);
}

#[test]
fn get_fails_where_the_page_cannot_be_read() {
    let mut c = Collector::new();
    let page = Fetched { url: name("A"), body: Some(String::from("<a href=\"/wiki/B")) };
    assert_eq!(c.store(vec![page]), Err(CollectionErr::ParseError(ArticleErr::UnexpectedEOL)));
    assert_eq!(c.get(&name("A")), None);
}

#[test]
fn get_list_stable_keeps_the_order() {
    let mut web = six();
    let mut c = Collector::new();
    let urls = vec![name("C"), name("A"), name("C"), name("B"), name("A")];
    let arts = list_stable(&mut c, &mut web, &urls).unwrap();
    assert_eq!(arts.len(), urls.len());
    for i in 0..urls.len() {
        assert_eq!(arts[i].get_url(), urls[i]);
    }
    assert_eq!(web.fetched, vec!["C", "A", "B"]);
    assert_eq!(list_stable(&mut c, &mut web, &Vec::new()).unwrap(), Vec::new());
}

#[test]
fn get_list_stable_asks_for_one_page_at_a_time() {
    let mut web = six();
    let mut c = Collector::new();
    get(&mut c, &mut web, &name("A")).unwrap();
    let before = c.processed();
    let urls = vec![name("A"), name("B"), name("C")];
    assert_eq!(c.get_list_stable(&urls), Step::Fetch(vec![name("B")]));
    assert_eq!(c.processed(), before + 2);
    assert_eq!(c.len(), 1);
}

#[test]
fn get_list_stable_stops_at_the_first_failure() {
    let mut web = six();
    web.broken.insert(String::from("B"));
    let mut c = Collector::new();
    let urls = vec![name("A"), name("B"), name("C")];
    assert_eq!(list_stable(&mut c, &mut web, &urls), Err(CollectionErr::RequestError));
    assert_eq!(web.fetched, vec!["A", "B"]);
    assert_eq!(c.len(), 1);
}

#[test]
fn get_list_asks_for_all_that_is_wanting() {
    let mut web = six();
    let mut c = Collector::new();
    get(&mut c, &mut web, &name("B")).unwrap();
    let before = c.processed();
    let urls = vec![name("A"), name("B"), name("C"), name("A")];
    assert_eq!(c.get_list(&urls), Step::Fetch(vec![name("A"), name("C"), name("A")]));
    assert_eq!(c.processed(), before + 4);
    let arts = list(&mut c, &mut web, &urls).unwrap();
    assert_eq!(names_of(&arts), vec!["A", "B", "C", "A"]);
    assert_eq!(c.len(), 3);
    assert_eq!(c.get_list(&Vec::new()), Step::Done(Vec::new()));
}

#[test]
fn what_a_list_fetched_is_held_afterwards() {
    let mut web = six();
    let mut c = Collector::new();
    let urls = vec![name("A"), name("B"), name("C")];
    let arts = list(&mut c, &mut web, &urls).unwrap();
    let fetched = web.fetched.len();
    for (u, a) in urls.iter().zip(arts.iter()) {
        assert_eq!(c.get(u).as_ref(), Some(a));
    }
    assert_eq!(list(&mut c, &mut web, &urls).unwrap(), arts);
    assert_eq!(web.fetched.len(), fetched);
}

#[test]
fn store_takes_in_all_or_nothing() {
    let mut web = six();
    web.broken.insert(String::from("C"));
    let mut c = Collector::new();
    get(&mut c, &mut web, &name("F")).unwrap();
    let urls = vec![name("A"), name("B"), name("C"), name("D")];
    assert_eq!(list(&mut c, &mut web, &urls), Err(CollectionErr::RequestError));
    assert_eq!(web.fetched, vec!["F", "A", "B", "C", "D"]);
    assert_eq!(c.len(), 1);
    for u in urls.iter() {
        assert_eq!(c.get(u), None);
    }
    assert!(c.get(&name("F")).is_some());
}

#[test]
fn store_gives_the_first_failure() {
    let mut c = Collector::new();
    let good = || Fetched { url: name("A"), body: Some(String::from("<a href=\"/wiki/B\">")) };
    let cut = || Fetched { url: name("B"), body: Some(String::from("<a href=\"/wiki/C")) };
    let lost = || Fetched { url: name("C"), body: None };
    assert_eq!(c.store(vec![good(), cut(), lost()]), Err(CollectionErr::ParseError(ArticleErr::UnexpectedEOL)));
    assert_eq!(c.store(vec![good(), lost(), cut()]), Err(CollectionErr::RequestError));
    assert_eq!(c.len(), 0);
    assert_eq!(c.store(vec![good()]), Ok(()));
    assert_eq!(c.store(Vec::new()), Ok(()));
    assert_eq!(c.len(), 1);
    assert_eq!(c.processed(), 0);
}

#[test]
fn store_keeps_what_is_held() {
    let mut c = Collector::new();
    let first = Fetched { url: name("A"), body: Some(String::from("<a href=\"/wiki/B\">")) };
    let second = Fetched { url: name("A"), body: Some(String::from("<a href=\"/wiki/C\">")) };
    let third = Fetched { url: name("A"), body: Some(String::from("<a href=\"/wiki/D\">")) };
    assert_eq!(c.store(vec![first, second]), Ok(()));
    assert_eq!(c.get(&name("A")).unwrap().references(), &vec![name("B")]);
    assert_eq!(c.store(vec![third]), Ok(()));
    assert_eq!(c.get(&name("A")).unwrap().references(), &vec![name("B")]);
    assert_eq!(c.len(), 1);
}

#[test]
fn a_neighbourhood_of_no_depth_is_empty() {
    for start in ["A", "F", "Nowhere"] {
        for depth in [0, 1] {
            let mut web = six();
            let mut c = Collector::new();
            assert_eq!(c.get_neighbourhood(&name(start), depth), Step::Done(Vec::new()));
            assert_eq!(neighbourhood(&mut c, &mut web, &name(start), depth), Ok(Vec::new()));
            assert!(web.fetched.is_empty());
        }
    }
}

#[test]
fn a_neighbourhood_leaves_its_last_frontier_out() {
    let expected: [&[&str]; 5] =
        [&["A"], &["A", "B", "D"], &["A", "B", "C", "D", "E"], &["A", "B", "C", "D", "E", "F"], &[
            "A", "B", "C", "D", "E", "F",
        ]];
    for (i, want) in expected.iter().enumerate() {
        let mut web = six();
        let mut c = Collector::new();
        let arts = neighbourhood(&mut c, &mut web, &name("A"), i as u32 + 2).unwrap();
        let want: Vec<String> = want.iter().map(|s| s.to_string()).collect();
        assert_eq!(sorted(names_of(&arts)), want);
        assert_eq!(sorted(web.fetched.clone()), want);
        for a in arts.iter() {
            assert_eq!(c.get(&a.get_url()).as_ref(), Some(a));
        }
    }
}

#[test]
fn a_neighbourhood_asks_for_a_frontier_at_a_time() {
    let mut web = six();
    let mut c = Collector::new();
    assert_eq!(c.get_neighbourhood(&name("A"), 3), Step::Fetch(vec![name("A")]));
    c.store(web.fetch_all(&[name("A")])).unwrap();
    assert_eq!(c.get_neighbourhood(&name("A"), 3), Step::Fetch(vec![name("B"), name("D")]));
    c.store(web.fetch_all(&[name("D")])).unwrap();
    assert_eq!(c.get_neighbourhood(&name("A"), 3), Step::Fetch(vec![name("B")]));
    assert_eq!(c.len(), 2);
}

#[test]
fn a_neighbourhood_visits_an_article_once() {
    let mut web = Web::of(&[("A", &["A", "B"]), ("B", &["A", "B"])]);
    let mut c = Collector::new();
    let arts = neighbourhood(&mut c, &mut web, &name("A"), 10).unwrap();
    assert_eq!(names_of(&arts), vec!["A", "B"]);
    assert_eq!(web.fetched, vec!["A", "B"]);
}

#[test]
fn a_neighbourhood_fails_with_its_pages() {
    let mut web = six();
    web.broken.insert(String::from("D"));
    let mut c = Collector::new();
    assert_eq!(neighbourhood(&mut c, &mut web, &name("A"), 3), Err(CollectionErr::RequestError));
    assert_eq!(c.len(), 1);
    assert_eq!(neighbourhood(&mut c, &mut web, &name("A"), 2).map(|v| names_of(&v)), Ok(vec![String::from("A")]));
}

#[test]
fn get_path_finds_the_three_hops() {
    let mut web = six();
    let mut c = Collector::new();
    let arts = path(&mut c, &mut web, &name("A"), &name("F")).unwrap();
    assert_eq!(arts.len(), 4);
    assert_eq!(names_of(&arts), vec!["A", "B", "C", "F"]);
    assert_eq!(sorted(web.fetched.clone()), vec!["A", "B", "C", "D", "E", "F"]);
    assert_eq!(path(&mut c, &mut web, &name("A"), &name("F")).unwrap(), arts);
    assert_eq!(web.fetched.len(), 6);
}

#[test]
fn get_path_finds_two_hops() {
    let mut web = Web::of(&[("A", &["B"]), ("B", &["C"]), ("C", &["A"])]);
    let mut c = Collector::new();
    let arts = path(&mut c, &mut web, &name("A"), &name("C")).unwrap();
    assert_eq!(names_of(&arts), vec!["A", "B", "C"]);
    assert_eq!(arts[2].references(), &vec![name("A")]);
    assert_eq!(web.fetched, vec!["A", "B", "C"]);
}

#[test]
fn get_path_of_one_hop_and_of_none() {
    let mut web = six();
    let mut c = Collector::new();
    assert_eq!(names_of(&path(&mut c, &mut web, &name("A"), &name("B")).unwrap()), vec!["A", "B"]);
    assert_eq!(web.fetched, vec!["A", "B"]);
    assert_eq!(names_of(&path(&mut c, &mut web, &name("A"), &name("A")).unwrap()), vec!["A"]);
    assert_eq!(web.fetched, vec!["A", "B"]);
}

#[test]
fn get_path_takes_a_shortest_of_several() {
    let mut web = Web::of(&[
        ("A", &["B", "C", "D"]),
        ("B", &["E"]),
        ("C", &["G"]),
        ("D", &["E"]),
        ("E", &["G"]),
        ("G", &[]),
    ]);
    let mut c = Collector::new();
    let arts = path(&mut c, &mut web, &name("A"), &name("G")).unwrap();
    assert_eq!(names_of(&arts), vec!["A", "C", "G"]);
    let mut web = Web::of(&[("A", &["B", "C"]), ("B", &["D"]), ("C", &["D"]), ("D", &[])]);
    let mut c = Collector::new();
    let arts = path(&mut c, &mut web, &name("A"), &name("D")).unwrap();
    assert_eq!(arts.len(), 3);
    assert_eq!(arts[0].name(), "A");
    assert_eq!(arts[2].name(), "D");
    assert!(arts[0].references().contains(&arts[1].get_url()));
    assert!(arts[1].references().contains(&arts[2].get_url()));
}

#[test]
fn get_path_fails_where_no_route_leads() {
    let mut web = six();
    let mut c = Collector::new();
    assert_eq!(path(&mut c, &mut web, &name("F"), &name("A")), Err(CollectionErr::PathFindingError));
    assert_eq!(web.fetched, vec!["F"]);
    assert_eq!(path(&mut c, &mut web, &name("B"), &name("A")), Err(CollectionErr::PathFindingError));
    assert_eq!(sorted(web.fetched.clone()), vec!["B", "C", "F"]);
}

#[test]
fn get_path_fails_with_its_pages() {
    let mut web = six();
    web.broken.insert(String::from("E"));
    let mut c = Collector::new();
    assert_eq!(path(&mut c, &mut web, &name("A"), &name("F")), Err(CollectionErr::RequestError));
    assert_eq!(c.get(&name("C")), None);
    assert!(c.get(&name("B")).is_some());
}

#[test]
fn find_path_stays_among_the_nodes() {
    let mut web = six();
    let mut c = Collector::new();
    let all = vec![name("A"), name("B"), name("C"), name("D"), name("E"), name("F")];
    list(&mut c, &mut web, &all).unwrap();
    let ask = |c: &mut Collector, ns: &[&str]| c.find_path(&name("A"), &name("F"), ns.iter().map(|s| name(s)).collect());
    match ask(&mut c, &["F", "E", "D", "C", "B", "A"]) {
        Ok(Step::Done(arts)) => assert_eq!(names_of(&arts), vec!["A", "B", "C", "F"]),
        other => panic!("{:?}", other),
    }
    match ask(&mut c, &["A", "C", "D", "E", "F"]) {
        Ok(Step::Done(arts)) => assert_eq!(names_of(&arts), vec!["A", "D", "E", "C", "F"]),
        other => panic!("{:?}", other),
    }
    assert_eq!(ask(&mut c, &["A", "B", "D", "E", "F"]), Err(CollectionErr::PathFindingError));
    assert_eq!(ask(&mut c, &["B", "C", "F"]), Err(CollectionErr::PathFindingError));
    assert_eq!(ask(&mut c, &["A", "B", "C"]), Err(CollectionErr::PathFindingError));
    assert_eq!(ask(&mut c, &[]), Err(CollectionErr::PathFindingError));
    match ask(&mut c, &["A", "A", "B", "C", "F", "B", "F"]) {
        Ok(Step::Done(arts)) => assert_eq!(names_of(&arts), vec!["A", "B", "C", "F"]),
        other => panic!("{:?}", other),
    }
}

#[test]
fn find_path_asks_for_the_nearest_first() {
    let mut web = six();
    let mut c = Collector::new();
    let nodes = || vec![name("A"), name("B"), name("C"), name("D"), name("E"), name("F")];
    assert_eq!(c.find_path(&name("A"), &name("F"), nodes()), Ok(Step::Fetch(vec![name("A")])));
    c.store(web.fetch_all(&[name("A")])).unwrap();
    assert_eq!(c.find_path(&name("A"), &name("F"), nodes()), Ok(Step::Fetch(vec![name("B"), name("D")])));
    c.store(web.fetch_all(&[name("B"), name("D"), name("E")])).unwrap();
    assert_eq!(c.find_path(&name("A"), &name("F"), nodes()), Ok(Step::Fetch(vec![name("C")])));
    c.store(web.fetch_all(&[name("C")])).unwrap();
    assert_eq!(c.find_path(&name("A"), &name("F"), nodes()), Ok(Step::Fetch(vec![name("F")])));
    c.store(web.fetch_all(&[name("F")])).unwrap();
    match c.find_path(&name("A"), &name("F"), nodes()) {
        Ok(Step::Done(arts)) => assert_eq!(names_of(&arts), vec!["A", "B", "C", "F"]),
        other => panic!("{:?}", other),
    }
}

#[test]
fn find_path_asks_before_it_settles_for_a_longer_route() {
    let mut web = Web::of(&[("A", &["B", "X"]), ("B", &["C"]), ("C", &["T"]), ("X", &["T"]), ("T", &[])]);
    let mut c = Collector::new();
    c.store(web.fetch_all(&[name("A"), name("B"), name("C"), name("T")])).unwrap();
    let nodes = || vec![name("A"), name("B"), name("C"), name("X"), name("T")];
    assert_eq!(c.find_path(&name("A"), &name("T"), nodes()), Ok(Step::Fetch(vec![name("X")])));
    c.store(web.fetch_all(&[name("X")])).unwrap();
    match c.find_path(&name("A"), &name("T"), nodes()) {
        Ok(Step::Done(arts)) => assert_eq!(names_of(&arts), vec!["A", "X", "T"]),
        other => panic!("{:?}", other),
    }
}

#[test]
fn find_path_does_not_ask_for_what_cannot_help() {
    let mut web = Web::of(&[("A", &["B", "X"]), ("B", &["T"]), ("X", &["T"]), ("T", &[])]);
    let mut c = Collector::new();
    c.store(web.fetch_all(&[name("A"), name("B"), name("T")])).unwrap();
    let nodes = vec![name("A"), name("B"), name("X"), name("T")];
    match c.find_path(&name("A"), &name("T"), nodes) {
        Ok(Step::Done(arts)) => assert_eq!(names_of(&arts), vec!["A", "B", "T"]),
        other => panic!("{:?}", other),
    }
}

#[test]
fn an_error_of_the_collector_says_what_went_wrong() {
    assert_eq!(CollectionErr::RequestError.to_string(), "HTTP request failed.");
    assert_eq!(CollectionErr::PathFindingError.to_string(), "Could not find path in given neighbourhood.");
    assert_eq!(
        CollectionErr::ParseError(ArticleErr::UnexpectedEOL).to_string(),
        "Line ended while parsing URL"
    );
}
