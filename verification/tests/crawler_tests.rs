use guten_rs::crawler::Crawler;
use guten_rs::parser::{extract_links, ExtractedLinks};

#[test]
fn end_to_end_one_round() {
    // root page /0/ with anchors 1/, 1.zip, 2.html and the parent link
    let whitelist = vec!["/0/".to_string()];
    let mut crawler = Crawler::new("", &whitelist);
    assert!(!crawler.is_done());

    let batch = crawler.next_batch(4);
    assert_eq!(batch, vec!["/0/".to_string()]);

    let html = "<a href=\"1/\">1/</a>\
<a href=\"1.zip\">1.zip</a>\
<a href=\"2.html\">2.html</a>\
<a href=\"../\">../</a>";
    let extracted = extract_links(&batch[0], html);
    // the directory 1/ is suppressed by its archive sibling and is
    // never pushed onto the frontier
    assert_eq!(extracted.directories, Vec::<String>::new());
    crawler.record_page(extracted);

    assert!(crawler.is_done());
    let results = crawler.into_results();
    assert_eq!(results, vec!["/0/1.zip".to_string(), "/0/2.html".to_string()]);
}

#[test]
fn visited_url_claimed_once() {
    // the same URL queued twice is drained and claimed only once
    let whitelist = vec!["/a/".to_string(), "/a/".to_string()];
    let mut crawler = Crawler::new("", &whitelist);
    let batch = crawler.next_batch(10);
    assert_eq!(batch, vec!["/a/".to_string()]);
    assert!(crawler.is_done());

    // a page discovered later that links the same URL again does not
    // revive it
    let again = ExtractedLinks { directories: vec!["/a/".to_string()], files: Vec::new() };
    crawler.record_page(again);
    assert!(crawler.is_done());
    assert_eq!(crawler.next_batch(10), Vec::<String>::new());
}

#[test]
fn batch_respects_concurrency_bound() {
    let whitelist: Vec<String> =
        vec!["/1/".into(), "/2/".into(), "/3/".into(), "/4/".into(), "/5/".into()];
    let mut crawler = Crawler::new("", &whitelist);
    let first = crawler.next_batch(2);
    assert_eq!(first.len(), 2);
    let second = crawler.next_batch(2);
    assert_eq!(second.len(), 2);
    let third = crawler.next_batch(2);
    assert_eq!(third.len(), 1);
    assert!(crawler.is_done());
}

#[test]
fn seeding_joins_base_and_paths() {
    let whitelist = vec!["0".to_string(), "/1/".to_string()];
    let crawler = Crawler::new("https://h", &whitelist);
    assert_eq!(crawler.frontier, vec!["https://h/0".to_string(), "https://h/1/".to_string()]);
}
