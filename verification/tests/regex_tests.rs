use resharp::{Regex};

#[test]
fn test_compile() {
    let re = Regex::new(r"\d+").expect("valid pattern");
    assert!(!re.pattern().is_empty());
}

#[test]
fn test_compile_conjunction() {
    let re = Regex::new(r".*foo.*&.*bar.*").expect("valid pattern");
    assert!(!re.pattern().is_empty());
}

#[test]
fn test_compile_negation() {
    let re = Regex::new(r"~(.*error.*)").expect("valid pattern");
    assert!(!re.pattern().is_empty());
}

#[test]
fn test_pretty_print() {
    let re = Regex::new("a|b").expect("valid pattern");
    let pp = re.pretty_print();
    // The pretty print should contain something
    assert!(!pp.is_empty());
}
