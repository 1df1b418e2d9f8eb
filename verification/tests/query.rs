use cix::crawler::RawFile;
use cix::index::{IndexBuilder, IndexStore};
use cix::query::{search, search_advanced};
use cix::trigram::extract_batch;

fn store_of(docs: &[(&str, &str)]) -> IndexStore {
    let files: Vec<RawFile> = docs
        .iter()
        .map(|(p, c)| RawFile { path: p.to_string(), content: c.as_bytes().to_vec() })
        .collect();
    let mut builder = IndexBuilder::new();
    builder.add_batch(extract_batch(files));
    let (bytes, _) = builder.finish().expect("index fits");
    IndexStore::open(bytes).ok().unwrap()
}

#[test]
fn search_finds_files_with_the_query() {
    let store = store_of(&[
        ("a.rs", "fn render(frame: &Frame) {}"),
        ("b.rs", "use tokio::runtime;"),
        ("c.rs", "fn main() { render(); }"),
    ]);
    assert_eq!(search(&store, "render"), vec!["a.rs".to_string(), "c.rs".to_string()]);
    assert_eq!(search(&store, "tokio"), vec!["b.rs".to_string()]);
    assert_eq!(search(&store, "fn "), vec!["a.rs".to_string(), "c.rs".to_string()]);
}

#[test]
fn search_missing_trigram_finds_nothing() {
    let store = store_of(&[("a.rs", "hello world"), ("b.rs", "goodbye")]);
    assert!(search(&store, "xyz").is_empty());
    assert!(search(&store, "hello xyz").is_empty());
}

#[test]
fn search_empty_intersection_finds_nothing() {
    let store = store_of(&[("a.rs", "abcdef"), ("b.rs", "uvwxyz")]);
    // "abc" and "xyz" both exist, but in different files.
    assert!(search(&store, "abcxyz").is_empty());
}

#[test]
fn search_short_query_lists_every_document() {
    let store = store_of(&[("a.rs", "ab"), ("b.rs", "abc"), ("c.rs", "")]);
    let all = vec!["a.rs".to_string(), "b.rs".to_string(), "c.rs".to_string()];
    assert_eq!(search(&store, "ab"), all);
    assert_eq!(search(&store, "x"), all);
    assert_eq!(search(&store, ""), all);
    assert_eq!(search_advanced(&store, "zz"), all);
    assert_eq!(search(&store, "abc"), vec!["b.rs".to_string()]);
}

#[test]
fn search_short_query_on_empty_index_finds_nothing() {
    let store = store_of(&[]);
    assert!(search(&store, "ab").is_empty());
}

#[test]
fn search_may_return_trigram_false_positives() {
    // Both trigrams of "abcd" ("abc", "bcd") are in the file, but not "abcd" itself.
    let store = store_of(&[("a.rs", "abc bcd"), ("b.rs", "abcd")]);
    assert_eq!(search(&store, "abcd"), vec!["a.rs".to_string(), "b.rs".to_string()]);
}

#[test]
fn search_never_misses_a_substring() {
    let docs = [
        ("one", "the quick brown fox jumps"),
        ("two", "over the lazy dog"),
        ("three", "quick quick quick"),
        ("four", "brown bread"),
    ];
    let store = store_of(&docs);
    for (_, content) in docs.iter() {
        for start in 0..content.len() {
            for end in (start + 3)..=content.len() {
                let q = &content[start..end];
                let found = search(&store, q);
                for (path, other) in docs.iter() {
                    if other.contains(q) {
                        assert!(found.contains(&path.to_string()), "{q:?} missed in {path}");
                    }
                }
            }
        }
    }
}

#[test]
fn search_results_in_id_order_without_repeats() {
    let store = store_of(&[("z", "needle"), ("y", "no"), ("x", "needle needle")]);
    assert_eq!(search(&store, "needle"), vec!["z".to_string(), "x".to_string()]);
}

#[test]
fn search_advanced_is_plain_search() {
    let store = store_of(&[("a.rs", "fn render AND tokio")]);
    assert_eq!(search_advanced(&store, "render"), search(&store, "render"));
    assert_eq!(search_advanced(&store, "fn render AND tokio"), vec!["a.rs".to_string()]);
}
