use guten_rs::linkset::{file_is_part_of_zip, parse, suffix};

#[test]
fn test_parse() {
    let links: Vec<String> = vec![
        "https://abc.0/".into(),
        "https://abc.0/1/2".into(),
        "https://abc.0/1/2.html".into(),
        "https://abc.0/1/2/3".into(),
        "https://abc.0/1.zip".into(),
        "https://abc.0/1.html".into(),
        "https://abc.0/3.html".into(),
    ];
    let result = parse(links, "https://abc.0/");
    println!("{:?}", result);
    // should only contain "https://abc.0/1.zip"
    assert_eq!(result.len(), 2);
    assert_eq!(result[0], "https://abc.0/1.zip");
    assert_eq!(result[1], "https://abc.0/3.html");
}

#[test]
fn test_zip_filter() {
    let links: Vec<String> = vec!["1".into(), "1/2".into(), "1/2/3".into()];
    let path = "1";
    let result = file_is_part_of_zip(path, &links);
    assert!(result);
    // different path
    let path = "2";
    let result = file_is_part_of_zip(path, &links);
    assert!(!result);
}

#[test]
fn test_basename() {
    let website_url = "https://abc.0/";
    let link = "https://abc.0/1/2/3";
    let result = suffix(website_url, link);
    assert_eq!(result, None);
    let link = "https://abc.0/1/2.zip";
    let result = suffix(website_url, link);
    assert_eq!(result, Some("1/2".to_string()));
}

#[test]
fn test_suffix() {
    let website_url = "https://abc.0/";
    let link = "https://abc.0/1/2/3";
    let result = suffix(website_url, link);
    assert_eq!(result, None);
    let link = "https://abc.0/1/2.zip";
    let result = suffix(website_url, link);
    assert_eq!(result, Some("1/2".to_string()));
    let link = "https://abc.0/1/2.html";
    let result = suffix(website_url, link);
    assert_eq!(result, Some("1/2".to_string()));
}
