use legend_of_link::engine::{check, note_link, note_links, Engine, Fetched};
use legend_of_link::extract::{Attribute, Tag};
use legend_of_link::fetch::FetchError;
use legend_of_link::normalize::Url;
use legend_of_link::report::{CheckError, PageStatus, Report};

fn url(text: &str) -> Url {
    Url::parse(text).unwrap()
}

fn texts(urls: &Vec<Url>) -> Vec<String> {
    urls.iter().map(|u| u.as_str().to_string()).collect()
}

fn page(hrefs: &[&str]) -> Fetched {
    Ok(hrefs
        .iter()
        .map(|h| Tag {
            name: "a".to_string(),
            attrs: vec![Attribute { name: "href".to_string(), value: h.to_string() }],
        })
        .collect())
}

fn site(pages: &[(&str, &[&str])], address: &str) -> Fetched {
    if !address.starts_with("file:") {
        return Err(FetchError::MalformedUrl);
    }
    for (name, hrefs) in pages {
        if *name == address {
            return page(hrefs);
        }
    }
    Err(FetchError::NotFound)
}

fn run(root: &str, pages: &[(&str, &[&str])]) -> Report {
    let mut engine = Engine::new(url(root));
    let mut steps = 0;
    loop {
        let next = match engine.pending() {
            Some(u) => u.clone(),
            None => break,
        };
        engine.advance(site(pages, next.as_str()));
        steps += 1;
        assert!(steps < 1000);
    }
    engine.into_report()
}

fn keys(report: &Report) -> Vec<String> {
    (0..report.len()).map(|i| report.url_at(i).as_str().to_string()).collect()
}

#[test]
fn root_with_two_retrievable_pages() {
    let report = run(
        "file:///s/index.html",
        &[("file:///s/index.html", &["a.html", "b.html"]), ("file:///s/a.html", &[]), ("file:///s/b.html", &[])],
    );
    assert_eq!(report.len(), 3);
    assert_eq!(keys(&report), vec!["file:///s/index.html", "file:///s/a.html", "file:///s/b.html"]);
    for i in 0..3 {
        assert_eq!(report.page_at(i).status, PageStatus::Valid);
        assert!(report.page_at(i).references.is_empty());
    }
    assert!(report.findings().is_empty());
}

#[test]
fn root_with_one_missing_file() {
    let report = run("file:///s/index.html", &[("file:///s/index.html", &["m.html"])]);
    assert_eq!(report.len(), 2);
    let m = report.get(&url("file:///s/m.html")).unwrap();
    assert_eq!(m.status, PageStatus::Invalid(CheckError::NotFound));
    assert_eq!(texts(&m.references), vec!["file:///s/index.html"]);
    assert_eq!(report.findings(), vec![1]);
}

#[test]
fn two_pages_link_to_one_missing_file() {
    let report = run(
        "file:///s/index.html",
        &[
            ("file:///s/index.html", &["a.html", "b.html"]),
            ("file:///s/a.html", &["c.html", "c.html#again"]),
            ("file:///s/b.html", &["c.html"]),
        ],
    );
    assert_eq!(report.len(), 4);
    let c = report.get(&url("file:///s/c.html")).unwrap();
    assert_eq!(c.status, PageStatus::Invalid(CheckError::NotFound));
    assert_eq!(texts(&c.references), vec!["file:///s/a.html", "file:///s/a.html", "file:///s/b.html"]);
}

#[test]
fn root_that_links_to_its_own_fragment_only() {
    let report = run("file:///s/index.html", &[("file:///s/index.html", &["#top"])]);
    assert_eq!(report.len(), 1);
    assert_eq!(report.page_at(0).status, PageStatus::Valid);
    assert!(report.page_at(0).references.is_empty());
}

#[test]
fn missing_root_is_the_only_entry() {
    let report = run("file:///s/index.html", &[]);
    assert_eq!(report.len(), 1);
    assert_eq!(report.page_at(0).status, PageStatus::Invalid(CheckError::NotFound));
    assert!(report.page_at(0).references.is_empty());
    assert_eq!(report.findings(), vec![0]);
}

#[test]
fn links_that_do_not_resolve_are_dropped() {
    let report = run("file:///s/index.html", &[("file:///s/index.html", &["http://[::1", "ok.html"]), ("file:///s/ok.html", &[])]);
    assert_eq!(keys(&report), vec!["file:///s/index.html", "file:///s/ok.html"]);
    assert!(report.findings().is_empty());
}

#[test]
fn other_schemes_are_recorded_as_malformed_and_not_listed() {
    let report = run("file:///s/index.html", &[("file:///s/index.html", &["http://example.com/"])]);
    let web = report.get(&url("http://example.com/")).unwrap();
    assert_eq!(web.status, PageStatus::Invalid(CheckError::MalformedUrl));
    assert_eq!(texts(&web.references), vec!["file:///s/index.html"]);
    assert!(report.findings().is_empty());
}

#[test]
fn io_failures_keep_their_detail() {
    let mut engine = Engine::new(url("file:///s/index.html"));
    engine.advance(Err(FetchError::IoError("permission denied".to_string())));
    assert!(engine.pending().is_none());
    let report = engine.into_report();
    assert_eq!(
        report.page_at(0).status,
        PageStatus::Invalid(CheckError::IoError("permission denied".to_string()))
    );
    assert_eq!(report.findings(), vec![0]);
}

#[test]
fn cyclic_site_is_closed_and_every_page_is_checked_once() {
    let pages: &[(&str, &[&str])] = &[
        ("file:///s/a.html", &["b.html", "a.html"]),
        ("file:///s/b.html", &["c.html", "a.html"]),
        ("file:///s/c.html", &["a.html", "b.html", "d.html", "c.html#self"]),
    ];
    let mut engine = Engine::new(url("file:///s/a.html"));
    let mut checked: Vec<String> = Vec::new();
    while let Some(next) = engine.pending().cloned() {
        assert!(!checked.contains(&next.as_str().to_string()));
        checked.push(next.as_str().to_string());
        engine.advance(site(pages, next.as_str()));
    }
    let report = engine.into_report();
    assert_eq!(checked, vec!["file:///s/a.html", "file:///s/b.html", "file:///s/c.html", "file:///s/d.html"]);
    assert_eq!(keys(&report), checked);
    let d = report.get(&url("file:///s/d.html")).unwrap();
    assert_eq!(d.status, PageStatus::Invalid(CheckError::NotFound));
    assert_eq!(texts(&d.references), vec!["file:///s/c.html"]);
}

#[test]
fn references_name_every_page_that_links_to_a_dead_target() {
    let pages: &[(&str, &[&str])] = &[
        ("file:///s/r.html", &["x.html", "p.html", "q.html"]),
        ("file:///s/p.html", &["x.html"]),
        ("file:///s/q.html", &["p.html"]),
    ];
    let report = run("file:///s/r.html", pages);
    let x = report.get(&url("file:///s/x.html")).unwrap();
    assert_eq!(texts(&x.references), vec!["file:///s/r.html", "file:///s/p.html"]);
}

#[test]
fn verdicts_never_change_once_given() {
    let pages: &[(&str, &[&str])] = &[
        ("file:///s/a.html", &["b.html", "gone.html"]),
        ("file:///s/b.html", &["a.html", "gone.html", "c.html"]),
        ("file:///s/c.html", &["b.html", "gone.html"]),
    ];
    let mut engine = Engine::new(url("file:///s/a.html"));
    let mut given: Vec<(String, PageStatus)> = Vec::new();
    while let Some(next) = engine.pending().cloned() {
        engine.advance(site(pages, next.as_str()));
        for (address, status) in &given {
            assert_eq!(&engine.report().get(&url(address)).unwrap().status, status);
        }
        let report = engine.report();
        for i in 0..report.len() {
            let address = report.url_at(i).as_str().to_string();
            if !report.page_at(i).status.is_in_progress() && !given.iter().any(|(a, _)| *a == address) {
                let status = match &report.page_at(i).status {
                    PageStatus::Valid => PageStatus::Valid,
                    PageStatus::InProgress => PageStatus::InProgress,
                    PageStatus::Invalid(CheckError::NotFound) => PageStatus::Invalid(CheckError::NotFound),
                    _ => unreachable!(),
                };
                given.push((address, status));
            }
        }
    }
    assert_eq!(given.len(), 4);
}

#[test]
fn two_runs_give_the_same_report() {
    let pages: &[(&str, &[&str])] = &[
        ("file:///s/a.html", &["b.html", "c.html", "http://example.com/"]),
        ("file:///s/b.html", &["a.html", "missing.html"]),
    ];
    let first = run("file:///s/a.html", pages);
    let second = run("file:///s/a.html", pages);
    assert_eq!(keys(&first), keys(&second));
    assert_eq!(first.len(), 5);
    for i in 0..first.len() {
        assert_eq!(first.page_at(i).status, second.page_at(i).status);
    }
}

#[test]
fn waves_follow_the_distance_from_the_root() {
    let pages: &[(&str, &[&str])] = &[
        ("file:///s/a.html", &["b.html", "c.html"]),
        ("file:///s/b.html", &["d.html"]),
        ("file:///s/c.html", &[]),
        ("file:///s/d.html", &[]),
    ];
    let mut engine = Engine::new(url("file:///s/a.html"));
    assert_eq!((engine.current_wave_len(), engine.next_wave_len()), (1, 0));
    assert_eq!(engine.pending().unwrap().as_str(), "file:///s/a.html");
    engine.advance(site(pages, "file:///s/a.html"));
    assert_eq!((engine.current_wave_len(), engine.next_wave_len()), (2, 0));
    assert_eq!(engine.pending().unwrap().as_str(), "file:///s/b.html");
    engine.advance(site(pages, "file:///s/b.html"));
    assert_eq!((engine.current_wave_len(), engine.next_wave_len()), (1, 1));
    assert_eq!(engine.pending().unwrap().as_str(), "file:///s/c.html");
    engine.advance(site(pages, "file:///s/c.html"));
    assert_eq!((engine.current_wave_len(), engine.next_wave_len()), (1, 0));
    assert_eq!(engine.pending().unwrap().as_str(), "file:///s/d.html");
    assert_eq!(engine.report().len(), 4);
    engine.advance(site(pages, "file:///s/d.html"));
    assert_eq!((engine.current_wave_len(), engine.next_wave_len()), (0, 0));
    assert!(engine.pending().is_none());
}

#[test]
fn check_resolves_links_and_passes_failures_on() {
    let base = url("file:///s/dir/index.html");
    let found = check(&base, page(&["a.html", "http://[::1", "../b.html#x", "a.html"])).unwrap();
    assert_eq!(texts(&found), vec!["file:///s/dir/a.html", "file:///s/b.html", "file:///s/dir/a.html"]);
    assert_eq!(check(&base, Err(FetchError::NotFound)), Err(CheckError::NotFound));
    assert_eq!(check(&base, Err(FetchError::MalformedUrl)), Err(CheckError::MalformedUrl));
    assert_eq!(
        check(&base, Err(FetchError::IoError("e".to_string()))),
        Err(CheckError::IoError("e".to_string()))
    );
    assert_eq!(check(&base, Ok(Vec::new())), Ok(Vec::new()));
}

#[test]
fn note_link_enters_queues_or_refers() {
    let mut report = Report::new();
    let mut queue: Vec<Url> = Vec::new();
    let from = url("file:///from");
    let to = url("file:///to");
    note_link(&mut report, &mut queue, &from, &to);
    assert_eq!(texts(&queue), vec!["file:///to"]);
    assert_eq!(report.get(&to).unwrap().status, PageStatus::InProgress);
    note_link(&mut report, &mut queue, &from, &to);
    assert_eq!(queue.len(), 1);
    assert_eq!(texts(&report.get(&to).unwrap().references), vec!["file:///from", "file:///from"]);
    let mut more = Report::new();
    more.set_terminal(to.clone(), PageStatus::Valid);
    note_links(&mut more, &mut queue, &from, &vec![to.clone(), url("file:///new"), to.clone()]);
    assert_eq!(texts(&queue), vec!["file:///to", "file:///new"]);
    assert!(more.get(&to).unwrap().references.is_empty());
    assert_eq!(more.len(), 2);
}
