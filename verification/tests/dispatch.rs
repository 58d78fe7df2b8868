use octane::dispatch::{smallest, Source};
use octane::trie::MatchedPath;

fn list<'a>(data: &'a u8, indices: &[usize]) -> Vec<MatchedPath<'a, u8>> {
    indices.iter().map(|index| MatchedPath { data, index: *index, vars: Vec::new() }).collect()
}

#[test]
fn smallest_takes_the_least_index() {
    let d = 0u8;
    let a = list(&d, &[4, 9]);
    let b = list(&d, &[2]);
    let c = list(&d, &[3, 5]);
    assert_eq!(smallest(&a, &b, &c, 0, 0, 0), Some(Source::Any));
    assert_eq!(smallest(&a, &b, &c, 0, 1, 0), Some(Source::Middleware));
    assert_eq!(smallest(&a, &b, &c, 0, 1, 1), Some(Source::Method));
    assert_eq!(smallest(&a, &b, &c, 1, 1, 1), Some(Source::Middleware));
    assert_eq!(smallest(&a, &b, &c, 1, 1, 2), Some(Source::Method));
    assert_eq!(smallest(&a, &b, &c, 2, 1, 2), None);
}

#[test]
fn smallest_prefers_the_earlier_list_on_equal_indices() {
    let d = 0u8;
    let a = list(&d, &[1]);
    let b = list(&d, &[1]);
    let c = list(&d, &[1]);
    assert_eq!(smallest(&a, &b, &c, 0, 0, 0), Some(Source::Method));
    assert_eq!(smallest(&a, &b, &c, 1, 0, 0), Some(Source::Any));
    assert_eq!(smallest(&a, &b, &c, 1, 1, 0), Some(Source::Middleware));
}

#[test]
fn smallest_takes_the_greatest_index_too() {
    let d = 0u8;
    let none = list(&d, &[]);
    let c = list(&d, &[usize::MAX]);
    assert_eq!(smallest(&none, &none, &c, 0, 0, 0), Some(Source::Middleware));
}
