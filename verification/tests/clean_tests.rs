use guten_rs::clean::{lines_starts_with, strip_headers};

fn markers(items: &[&str]) -> Vec<String> {
    items.iter().map(|s| s.to_string()).collect()
}

#[test]
fn test_lines_start() {
    let string = "<<THIS ELECTRONIC VERSION OF";
    let legalese_end_markers = markers(&["<<THIS ELECTRONIC VERSION OF"]);
    let result = lines_starts_with(string, &legalese_end_markers);
    assert!(result);
}

#[test]
fn lines_starts_with_needs_a_prefix() {
    let set = markers(&["*** START", "<<THIS"]);
    assert!(lines_starts_with("*** START OF THE BOOK", &set));
    assert!(!lines_starts_with("chapter one", &set));
    assert!(!lines_starts_with("", &set));
}

#[test]
fn strip_headers_drops_header_and_legalese() {
    let text = "junk before\n*** START OF THE BOOK\nfirst line\n<<LEGAL\nsmall print\n>>LEGAL END\nsecond line".to_string();
    let cleaned = strip_headers(
        text,
        &markers(&["*** START"]),
        &markers(&["*** END"]),
        &markers(&["<<LEGAL"]),
        &markers(&[">>LEGAL END"]),
    );
    assert_eq!(cleaned, "first line\nsecond line");
}

#[test]
fn strip_headers_keeps_plain_text() {
    let text = "a\nb\nc".to_string();
    let none: Vec<String> = Vec::new();
    let cleaned = strip_headers(text, &none, &none, &none, &none);
    assert_eq!(cleaned, "a\nb\nc");
}
