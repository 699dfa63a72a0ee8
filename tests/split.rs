use exa_options::parser::split_on_equals;

fn split(input: &str) -> Option<(Vec<u8>, Vec<u8>)> {
    split_on_equals(input.as_bytes())
}

fn pair(before: &str, after: &str) -> Option<(Vec<u8>, Vec<u8>)> {
    Some((before.as_bytes().to_vec(), after.as_bytes().to_vec()))
}

#[test]
fn split_empty() {
    assert_eq!(split(""), None);
}

#[test]
fn split_letter() {
    assert_eq!(split("a"), None);
}

#[test]
fn split_just() {
    assert_eq!(split("="), None);
}

#[test]
fn split_intro() {
    assert_eq!(split("=bbb"), None);
}

#[test]
fn split_denou() {
    assert_eq!(split("aaa="), None);
}

#[test]
fn split_equals() {
    assert_eq!(split("aaa=bbb"), pair("aaa", "bbb"));
}

#[test]
fn split_sort() {
    assert_eq!(split("--sort=size"), pair("--sort", "size"));
}

#[test]
fn split_more() {
    assert_eq!(split("this=that=other"), pair("this", "that=other"));
}

#[test]
fn split_skips_a_leading_equals() {
    assert_eq!(split("=a=b"), pair("=a", "b"));
}

#[test]
fn split_value_may_be_an_equals() {
    assert_eq!(split("a=="), pair("a", "="));
}
