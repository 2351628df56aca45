use modelator::cache::{
    key, sort_by_path, tla_file_names, Cache, NextStatesCache, SourceFile, TlaTraceCache,
};
use modelator::digest::{digest_files, Digest};

fn s(text: &str) -> String {
    text.to_string()
}

fn file(path: &str, content: &str) -> SourceFile {
    SourceFile {
        path: s(path),
        content: content.as_bytes().to_vec(),
    }
}

#[test]
fn cache_index_works() {
    let mut cache = Cache::new("my_cache", "cache_works", vec![]);
    let key_a = s("A");
    let key_b = s("B");

    // at the beginning, no key is cached
    assert_eq!(cache.get(&key_a), None);
    assert_eq!(cache.get(&key_b), None);
    assert!(!cache.contains(&key_a));

    // cache key A
    assert_eq!(cache.key_path(&key_a), "cache_works/cache/my_cache/A");
    cache.insert(key_a.clone());

    // now key A is cached
    assert_eq!(cache.get(&key_a), Some(s("cache_works/cache/my_cache/A")));
    assert_eq!(cache.get(&key_b), None);

    // start a new cache over the files that the directory holds now
    let cache = Cache::new("my_cache", "cache_works", vec![s("A")]);
    assert_eq!(cache.get(&key_a), Some(s("cache_works/cache/my_cache/A")));
    assert_eq!(cache.get(&key_b), None);
}

#[test]
fn cache_tables() {
    let mut traces = TlaTraceCache::new("dir", vec![s("k1"), s("k1")]);
    assert_eq!(traces.get(&s("k1")), Some(s("dir/cache/tla_trace/k1")));
    assert_eq!(traces.get(&s("k2")), None);
    assert_eq!(traces.key_path(&s("k2")), "dir/cache/tla_trace/k2");
    traces.insert(s("k2"));
    assert_eq!(traces.get(&s("k2")), Some(s("dir/cache/tla_trace/k2")));

    let mut next = NextStatesCache::new("dir", vec![]);
    assert_eq!(next.get(&s("k")), None);
    next.insert(s("k"));
    assert_eq!(next.get(&s("k")), Some(s("dir/cache/next_states/k")));
}

#[test]
fn digest_of_known_inputs() {
    assert_eq!(
        Digest::new().encode(),
        "e3b0c44298fc1c149afbf4c8996fb92427ae41e4649b934ca495991b7852b855"
    );
    let mut digest = Digest::new();
    digest.update(b"a");
    digest.update_str("bc");
    assert_eq!(
        digest.encode(),
        "ba7816bf8f01cfea414140de5dae2223b00361a396177a9cb410ff61f20015ad"
    );
    assert_eq!(
        digest_files(&vec![b"ab".to_vec(), vec![], b"c".to_vec()]).encode(),
        "ba7816bf8f01cfea414140de5dae2223b00361a396177a9cb410ff61f20015ad"
    );
}

#[test]
fn key_is_the_digest_of_the_files_in_path_order_and_the_path() {
    let files = vec![file("/m/B.tla", "b"), file("/m/A.tla", "a"), file("/m/A.cfg", "")];
    // "/m/A.cfg" < "/m/A.tla" < "/m/B.tla": the digest of "ab" and then "c"
    assert_eq!(
        key(&files, "c"),
        "ba7816bf8f01cfea414140de5dae2223b00361a396177a9cb410ff61f20015ad"
    );
}

#[test]
fn key_does_not_depend_on_the_order_of_the_listing() {
    let a = vec![file("/m/A.tla", "one"), file("/m/B.tla", "two"), file("/m/M.cfg", "cfg")];
    let b = vec![file("/m/M.cfg", "cfg"), file("/m/B.tla", "two"), file("/m/A.tla", "one")];
    assert_eq!(key(&a, "/m/A.tla"), key(&b, "/m/A.tla"));
    assert_eq!(key(&a, "/m/A.tla"), key(&a, "/m/A.tla"));
}

#[test]
fn key_changes_with_contents_and_with_the_test() {
    let files = vec![file("/m/A.tla", "one"), file("/m/B.tla", "two"), file("/m/M.cfg", "cfg")];
    let sibling = vec![file("/m/A.tla", "one"), file("/m/B.tla", "2"), file("/m/M.cfg", "cfg")];
    let config = vec![file("/m/A.tla", "one"), file("/m/B.tla", "two"), file("/m/M.cfg", "c")];
    let base = key(&files, "/m/A.tla");
    assert_eq!(base.len(), 64);
    assert_ne!(base, key(&sibling, "/m/A.tla"));
    assert_ne!(base, key(&config, "/m/A.tla"));
    assert_ne!(base, key(&files, "/m/B.tla"));
}

#[test]
fn files_are_sorted_by_path_and_kept_once() {
    let files = vec![
        file("b", "1"),
        file("a", "2"),
        file("b", "3"),
        file("", "4"),
        file("ab", "5"),
        file("B", "6"),
    ];
    assert_eq!(
        sort_by_path(&files),
        vec![file("", "4"), file("B", "6"), file("a", "2"), file("ab", "5"), file("b", "1")]
    );
}

#[test]
fn tla_files_are_those_that_end_in_tla() {
    let names = vec![s("A.tla"), s("A.cfg"), s(".tla"), s("tla"), s("B.tla.bak"), s("C.TLA.tla")];
    assert_eq!(tla_file_names(&names), vec![s("A.tla"), s(".tla"), s("C.TLA.tla")]);
}
