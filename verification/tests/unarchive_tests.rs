use guten_rs::parser::ExtractedLinks;

#[test]
fn test_unzip() {}

#[test]
fn extracted_links_fields_carry_over() {
    let links = ExtractedLinks {
        directories: vec!["a/".to_string()],
        files: vec!["a.zip".to_string(), "b.txt".to_string()],
    };
    assert_eq!(links.len(), 3);
    assert!(!links.is_empty());
}
