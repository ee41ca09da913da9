use guten_rs::parser::{extract_links, filter_href};

#[test]
fn test_filter_href() {
    let hrefs = vec!["1.zip", "1.txt", "2.zip", "2/", "3/"];
    let filtered = filter_href("", hrefs);

    println!("{:?}", filtered);
    // contain 3/ only
    assert_eq!(filtered.directories.len(), 1);
    // contain 1.zip, 2.zip
    assert_eq!(filtered.files.len(), 2);
}

#[test]
fn archive_preference() {
    let filtered = filter_href("https://h/0/", vec!["a.zip", "a.txt", "a/", "b/"]);
    assert_eq!(filtered.directories, vec!["https://h/0/b/".to_string()]);
    assert_eq!(filtered.files, vec!["https://h/0/a.zip".to_string()]);
}

#[test]
fn classify_own_output_unchanged() {
    // first run, under a server-absolute directory
    let first = filter_href("/0/", vec!["b/", "a.zip", "c.html"]);
    assert_eq!(first.directories, vec!["/0/b/".to_string()]);
    assert_eq!(
        first.files,
        vec!["/0/a.zip".to_string(), "/0/c.html".to_string()]
    );
    // the classifier's own output re-fed under the empty current URL
    let mut again: Vec<&str> = Vec::new();
    for d in &first.directories {
        again.push(d.as_str());
    }
    for f in &first.files {
        again.push(f.as_str());
    }
    let second = filter_href("", again);
    assert_eq!(second.directories, first.directories);
    assert_eq!(second.files, first.files);
}

#[test]
fn len_and_is_empty() {
    let filtered = filter_href("", vec!["a/", "b.txt"]);
    assert_eq!(filtered.len(), 2);
    assert!(!filtered.is_empty());
    let nothing = filter_href("", Vec::new());
    assert_eq!(nothing.len(), 0);
    assert!(nothing.is_empty());
}

#[test]
fn extract_links_reads_anchors() {
    let html = "<html><body><pre>\
<a href=\"../\">../</a>\n\
<a href=\"1/\">1/</a>\n\
<a href=\"1.zip\">1.zip</a>\n\
<a href=\"2.html\">2.html</a>\n\
</pre></body></html>";
    let extracted = extract_links("/0/", html);
    // the directory 1/ is superseded by its archive sibling
    assert_eq!(extracted.directories, Vec::<String>::new());
    assert_eq!(
        extracted.files,
        vec!["/0/1.zip".to_string(), "/0/2.html".to_string()]
    );
}

#[test]
fn extract_links_skips_parent_only() {
    let html = "<a href=\"../\">up</a><a href=\"sub/\">sub</a>";
    let extracted = extract_links("https://h/base/", html);
    assert_eq!(extracted.directories, vec!["https://h/base/sub/".to_string()]);
    assert_eq!(extracted.files, Vec::<String>::new());
}
