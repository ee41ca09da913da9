use guten_rs::index::{index, parse_line};

#[test]
fn test_clean() {
    let input_string =
        "Memoirs of Arsène Lupin, by Maurice Le Blanc                             70719";
    let (index, title) = parse_line(input_string);
    assert_eq!(index, 70719);
    assert_eq!(title, "Memoirs of Arsène Lupin, by Maurice Le Blanc");
    let input_string =
        "The inter ocean curiosity shop for the year 1883, by Various             70718";
    let (index, title) = parse_line(input_string);
    assert_eq!(index, 70718);
    assert_eq!(
        title,
        "The inter ocean curiosity shop for the year 1883, by Various"
    );
}

#[test]
fn test_get_index() {
    let input_string = r#"
TITLE and AUTHOR
Submerged forests, by Clement Reid                                       70654

Rattle of bones, by Robert E. Howard                                     70653
 [Illustrator: Doak]"#;
    println!("input_string: {}", input_string);
    let output = index(input_string);
    println!("output: {:?}", output);
    assert_eq!(output.len(), 2);
    assert_eq!(
        output.get(&70654).unwrap(),
        "Submerged forests, by Clement Reid"
    );
    assert_eq!(
        output.get(&70653).unwrap(),
        r#"Rattle of bones, by Robert E. Howard
[Illustrator: Doak]"#
    );
}

#[test]
fn parse_line_without_digits() {
    let (number, title) = parse_line("No digits here   ");
    assert_eq!(number, 0);
    assert_eq!(title, "No digits here");
}

#[test]
fn parse_line_overflowing_number() {
    let (number, title) = parse_line("A very long book  99999999999999999999");
    assert_eq!(number, 0);
    assert_eq!(title, "A very long book");
}

#[test]
fn index_stops_at_footer() {
    let input_string = "TITLE and AUTHOR\nOne, by A                1\n\n<==End of the list\nTwo, by B                2\n";
    let output = index(input_string);
    assert_eq!(output.len(), 1);
    assert_eq!(output.get(&1).unwrap(), "One, by A");
}
