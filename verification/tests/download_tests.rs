use guten_rs::download::build_download_path;
use guten_rs::urljoin::handle_slashes;

#[test]
fn test_build_download_path() {
    let url = "https://abc.0/1/2/3.zip";
    let website_url = "https://abc.0/";
    let download_folder = "output";

    let clean_name = build_download_path(url, website_url, download_folder).unwrap();
    assert_eq!(clean_name, "output/1/2/3.zip");

    let url = "https://abc.0/1.html";
    let download_folder = "download";
    let clean_name = build_download_path(url, website_url, download_folder).unwrap();
    assert_eq!(clean_name, "download/1.html");

    // wrong suffix
    let url = "https://abc.1/1.html";
    let download_folder = "download";
    let clean_name = build_download_path(url, website_url, download_folder);
    assert!(clean_name.is_err());
}

#[test]
fn handle_slashes_single_slash_join() {
    assert_eq!(handle_slashes("https://h/", "/a"), "https://h/a");
    assert_eq!(handle_slashes("https://h/", "a"), "https://h/a");
    assert_eq!(handle_slashes("https://h", "/a"), "https://h/a");
    assert_eq!(handle_slashes("https://h", "a"), "https://h/a");
}
