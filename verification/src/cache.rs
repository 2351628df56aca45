//! A write-once cache of blobs that lie in a directory, one file for each
//! key, and the keys under which the results of the model checker are kept.
//!
//! The cache holds the set of the keys that are written. A key that was
//! written is never written again, so what was read under a key stays what
//! is read under it.

use vstd::prelude::*;
use crate::artifact::holds_text;
use crate::digest::{lower_hex, sha256, Digest};
use crate::order::{
    ascending, lemma_ascending_unique, lemma_text_lt_total, lemma_text_lt_transitive, place_of,
    text_lt, Place,
};
use crate::text::{chars_of, has_suffix, push_str, string_of, strs};

verus! {

/// The directory of the table `name` below the directory `dir`.
pub open spec fn table_dir(dir: Seq<char>, name: Seq<char>) -> Seq<char> {
    dir + "/cache/"@ + name
}

/// The file that holds the blob of `key` in the table directory
/// `cache_dir`.
pub open spec fn blob_path(cache_dir: Seq<char>, key: Seq<char>) -> Seq<char> {
    cache_dir + "/"@ + key
}

/// Where the blob of `key` is read in a table with the directory
/// `cache_dir` where the keys `keys` are written: in the file of the key,
/// where the key is written, and nowhere else.
pub open spec fn lookup(keys: Set<Seq<char>>, cache_dir: Seq<char>, key: Seq<char>) -> Option<
    Seq<char>,
> {
    if keys.contains(key) {
        Some(blob_path(cache_dir, key))
    } else {
        None
    }
}

/// Whether `out` is the path `expected`, if there is one.
pub open spec fn is_path_text(out: Option<String>, expected: Option<Seq<char>>) -> bool {
    match expected {
        Some(path) => out matches Some(p) && p@ == path,
        None => out is None,
    }
}

/// A table that is opened again over the directory of a table, with the
/// files of the keys that the first has written, finds what the first
/// finds.
pub proof fn lemma_cache_reopened(
    written: Set<Seq<char>>,
    file_names: Seq<Seq<char>>,
    cache_dir: Seq<char>,
    key: Seq<char>,
)
    requires
        file_names.to_set() == written,
    ensures
        lookup(file_names.to_set(), cache_dir, key) == lookup(written, cache_dir, key),
{
}

/// A key that is not written is not found. Once it is written it is found,
/// in its file, and what is found under the other keys is what was found
/// before.
pub proof fn lemma_cache(keys: Set<Seq<char>>, cache_dir: Seq<char>, key: Seq<char>, other: Seq<char>)
    requires
        other != key,
    ensures
        !keys.contains(key) ==> lookup(keys, cache_dir, key) is None,
        lookup(keys.insert(key), cache_dir, key) == Some(blob_path(cache_dir, key)),
        lookup(keys.insert(key), cache_dir, other) == lookup(keys, cache_dir, other),
{
}

/// The index of one table of the cache: the directory of the table and the
/// keys that it holds.
pub struct Cache {
    cache_dir: String,
    cached_keys: Vec<String>,
}

impl Cache {
    /// Whether the value is one that this type's functions built.
    pub closed spec fn wf(&self) -> bool {
        strs(self.cached_keys@).no_duplicates()
    }

    /// The keys that are written.
    pub closed spec fn keys(&self) -> Set<Seq<char>> {
        strs(self.cached_keys@).to_set()
    }

    /// The directory of the table.
    pub closed spec fn dir(&self) -> Seq<char> {
        self.cache_dir@
    }

    /// The index of the table `name` below `dir`, whose directory holds the
    /// files `file_names`: each file name is a key that is written.
    pub fn new(name: &str, dir: &str, file_names: Vec<String>) -> (out: Self)
        ensures
            out.wf(),
            out.dir() == table_dir(dir@, name@),
            out.keys() == strs(file_names@).to_set(),
    {
        let mut cache_dir: Vec<char> = Vec::new();
        push_str(&mut cache_dir, dir);
        push_str(&mut cache_dir, "/cache/");
        push_str(&mut cache_dir, name);
        let mut keys: Vec<String> = Vec::new();
        let mut i: usize = 0;
        assert(strs(keys@) =~= Seq::<Seq<char>>::empty());
        while i < file_names.len()
            invariant
                i <= file_names.len(),
                strs(keys@).no_duplicates(),
                strs(keys@).to_set() == strs(file_names@).take(i as int).to_set(),
            decreases file_names.len() - i,
        {
            let ghost before = strs(keys@);
            let ghost names = strs(file_names@);
            if !holds_text(&keys, &file_names[i]) {
                keys.push(file_names[i].clone());
                assert(strs(keys@) =~= before.push(names[i as int]));
            }
            proof {
                assert(names.take(i + 1) =~= names.take(i as int).push(names[i as int]));
                lemma_push_to_set(names.take(i as int), names[i as int]);
                lemma_push_to_set(before, names[i as int]);
                if before.contains(names[i as int]) {
                    assert(before.to_set().insert(names[i as int]) =~= before.to_set());
                }
            }
            i += 1;
        }
        assert(strs(file_names@).take(file_names@.len() as int) == strs(file_names@));
        Cache { cache_dir: string_of(&cache_dir, 0, cache_dir.len()), cached_keys: keys }
    }

    /// Whether `key` is written.
    pub fn contains(&self, key: &String) -> (b: bool)
        ensures
            b == self.keys().contains(key@),
    {
        holds_text(&self.cached_keys, key)
    }

    /// The directory of the table.
    pub fn cache_dir(&self) -> (out: &String)
        ensures
            out@ == self.dir(),
    {
        &self.cache_dir
    }

    /// The file that holds, or is to hold, the blob of `key`.
    pub fn key_path(&self, key: &String) -> (out: String)
        ensures
            out@ == blob_path(self.dir(), key@),
    {
        let mut path: Vec<char> = Vec::new();
        push_str(&mut path, self.cache_dir.as_str());
        push_str(&mut path, "/");
        push_str(&mut path, key.as_str());
        string_of(&path, 0, path.len())
    }

    /// Where to read the blob of `key`: its file where `key` is written, and
    /// `None` where it is not.
    pub fn get(&self, key: &String) -> (out: Option<String>)
        ensures
            is_path_text(out, lookup(self.keys(), self.dir(), key@)),
    {
        if self.contains(key) {
            Some(self.key_path(key))
        } else {
            None
        }
    }

    /// Marks `key` as written, once its blob lies in the file
    /// [`Cache::key_path`]. A key is written once only.
    pub fn insert(&mut self, key: String)
        requires
            old(self).wf(),
            !old(self).keys().contains(key@),
        ensures
            final(self).wf(),
            final(self).dir() == old(self).dir(),
            final(self).keys() == old(self).keys().insert(key@),
    {
        let ghost before = strs(self.cached_keys@);
        self.cached_keys.push(key);
        proof {
            assert(strs(self.cached_keys@) =~= before.push(key@));
            lemma_push_to_set(before, key@);
        }
    }
}

/// The set of a sequence with one more element.
pub proof fn lemma_push_to_set<A>(s: Seq<A>, x: A)
    ensures
        s.push(x).to_set() == s.to_set().insert(x),
{
    let t = s.push(x);
    assert forall|v: A| t.contains(v) <==> (s.contains(v) || v == x) by {
        if t.contains(v) {
            let i = choose|i: int| 0 <= i < t.len() && t[i] == v;
            if i < s.len() {
                assert(s[i] == v);
            }
        }
        if s.contains(v) {
            let i = choose|i: int| 0 <= i < s.len() && s[i] == v;
            assert(t[i] == v);
        }
        if v == x {
            assert(t[s.len() as int] == v);
        }
    }
    assert(t.to_set() =~= s.to_set().insert(x));
}


/// The name of the table of traces.
pub const TLA_TRACE_CACHE: &'static str = "tla_trace";

/// The name of the table of next states.
pub const NEXT_STATES_CACHE: &'static str = "next_states";

/// The table that holds the trace found for a test.
pub struct TlaTraceCache {
    cache: Cache,
}

impl TlaTraceCache {
    /// Whether the value is one that this type's functions built.
    pub closed spec fn wf(&self) -> bool {
        self.cache.wf()
    }

    /// The keys that are written.
    pub closed spec fn keys(&self) -> Set<Seq<char>> {
        self.cache.keys()
    }

    /// The directory of the table.
    pub closed spec fn dir(&self) -> Seq<char> {
        self.cache.dir()
    }

    /// The index of the table of traces below `dir`, whose directory holds
    /// the files `file_names`.
    pub fn new(dir: &str, file_names: Vec<String>) -> (out: Self)
        ensures
            out.wf(),
            out.dir() == table_dir(dir@, TLA_TRACE_CACHE@),
            out.keys() == strs(file_names@).to_set(),
    {
        TlaTraceCache { cache: Cache::new(TLA_TRACE_CACHE, dir, file_names) }
    }

    /// Whether `key` is written.
    pub fn contains(&self, key: &String) -> (b: bool)
        ensures
            b == self.keys().contains(key@),
    {
        self.cache.contains(key)
    }

    /// The directory of the table.
    pub fn cache_dir(&self) -> (out: &String)
        ensures
            out@ == self.dir(),
    {
        self.cache.cache_dir()
    }

    /// Where to read the trace of `key`, where `key` is written.
    pub fn get(&self, key: &String) -> (out: Option<String>)
        ensures
            is_path_text(out, lookup(self.keys(), self.dir(), key@)),
    {
        self.cache.get(key)
    }

    /// The file that is to hold the trace of `key`.
    pub fn key_path(&self, key: &String) -> (out: String)
        ensures
            out@ == blob_path(self.dir(), key@),
    {
        self.cache.key_path(key)
    }

    /// Marks `key` as written, once its trace lies in its file.
    pub fn insert(&mut self, key: String)
        requires
            old(self).wf(),
            !old(self).keys().contains(key@),
        ensures
            final(self).wf(),
            final(self).dir() == old(self).dir(),
            final(self).keys() == old(self).keys().insert(key@),
    {
        self.cache.insert(key);
    }
}

/// The table that holds what is known of the next states of a model.
pub struct NextStatesCache {
    cache: Cache,
}

impl NextStatesCache {
    /// Whether the value is one that this type's functions built.
    pub closed spec fn wf(&self) -> bool {
        self.cache.wf()
    }

    /// The keys that are written.
    pub closed spec fn keys(&self) -> Set<Seq<char>> {
        self.cache.keys()
    }

    /// The directory of the table.
    pub closed spec fn dir(&self) -> Seq<char> {
        self.cache.dir()
    }

    /// The index of the table of next states below `dir`, whose directory
    /// holds the files `file_names`.
    pub fn new(dir: &str, file_names: Vec<String>) -> (out: Self)
        ensures
            out.wf(),
            out.dir() == table_dir(dir@, NEXT_STATES_CACHE@),
            out.keys() == strs(file_names@).to_set(),
    {
        NextStatesCache { cache: Cache::new(NEXT_STATES_CACHE, dir, file_names) }
    }

    /// Whether `key` is written.
    pub fn contains(&self, key: &String) -> (b: bool)
        ensures
            b == self.keys().contains(key@),
    {
        self.cache.contains(key)
    }

    /// The directory of the table.
    pub fn cache_dir(&self) -> (out: &String)
        ensures
            out@ == self.dir(),
    {
        self.cache.cache_dir()
    }

    /// Where to read what is known under `key`, where `key` is written.
    pub fn get(&self, key: &String) -> (out: Option<String>)
        ensures
            is_path_text(out, lookup(self.keys(), self.dir(), key@)),
    {
        self.cache.get(key)
    }

    /// The file that is to hold what is known under `key`.
    pub fn key_path(&self, key: &String) -> (out: String)
        ensures
            out@ == blob_path(self.dir(), key@),
    {
        self.cache.key_path(key)
    }

    /// Marks `key` as written, once its blob lies in its file.
    pub fn insert(&mut self, key: String)
        requires
            old(self).wf(),
            !old(self).keys().contains(key@),
        ensures
            final(self).wf(),
            final(self).dir() == old(self).dir(),
            final(self).keys() == old(self).keys().insert(key@),
    {
        self.cache.insert(key);
    }
}

/// A file that a key depends on: its absolute path and its bytes.
#[derive(Debug, Clone, PartialEq, Eq)]
pub struct SourceFile {
    /// The absolute path of the file.
    pub path: String,
    /// The bytes of the file.
    pub content: Vec<u8>,
}

/// What a [`SourceFile`] holds, as mathematical values.
pub struct FileText {
    pub path: Seq<char>,
    pub content: Seq<u8>,
}

impl View for SourceFile {
    type V = FileText;

    open spec fn view(&self) -> FileText {
        FileText { path: self.path@, content: self.content@ }
    }
}

/// What a vector of files holds.
pub open spec fn file_texts(v: Seq<SourceFile>) -> Seq<FileText> {
    v.map_values(|f: SourceFile| f@)
}

/// The paths of `files`.
pub open spec fn paths_of(files: Seq<FileText>) -> Seq<Seq<char>> {
    files.map_values(|f: FileText| f.path)
}

/// `sorted` with `f` at its place in the order of the paths; where `sorted`
/// holds a file of the same path already, `f` is left out.
pub open spec fn insert_path(sorted: Seq<FileText>, f: FileText) -> Seq<FileText>
    decreases sorted.len(),
{
    if sorted.len() == 0 {
        seq![f]
    } else if text_lt(sorted.last().path, f.path) {
        sorted.push(f)
    } else if sorted.last().path == f.path {
        sorted
    } else {
        insert_path(sorted.drop_last(), f).push(sorted.last())
    }
}

/// `files` in the order of their paths, with one file for each path: the
/// first that has it.
pub open spec fn by_path(files: Seq<FileText>) -> Seq<FileText>
    decreases files.len(),
{
    if files.len() == 0 {
        Seq::empty()
    } else {
        insert_path(by_path(files.drop_last()), files.last())
    }
}

/// The bytes of `files`, one file behind the other.
pub open spec fn all_content(files: Seq<FileText>) -> Seq<u8>
    decreases files.len(),
{
    if files.len() == 0 {
        Seq::empty()
    } else {
        all_content(files.drop_last()) + files.last().content
    }
}

/// The bytes that the key of a test is the digest of: the files, in the
/// order of their paths, and then the path of the test's own file.
pub open spec fn key_input(files: Seq<FileText>, tla_file_path: Seq<char>) -> Seq<u8> {
    all_content(by_path(files)) + vstd::utf8::encode_utf8(tla_file_path)
}

/// The key of a test.
pub open spec fn key_text(files: Seq<FileText>, tla_file_path: Seq<char>) -> Seq<char> {
    lower_hex(sha256(key_input(files, tla_file_path)))
}

/// Inserting at a place: where the files before `at` have smaller paths
/// than `f` and the file at `at`, if there is one, has a greater path, the
/// result has `f` at `at`.
proof fn lemma_insert_at(sorted: Seq<FileText>, f: FileText, at: int)
    requires
        0 <= at <= sorted.len(),
        forall|j: int| at <= j < sorted.len() ==> text_lt(f.path, #[trigger] sorted[j].path),
        at > 0 ==> text_lt(sorted[at - 1].path, f.path),
    ensures
        insert_path(sorted, f) == sorted.take(at).push(f) + sorted.skip(at),
    decreases sorted.len() - at,
{
    if at == sorted.len() {
        assert(sorted.take(at) == sorted);
        assert(sorted.push(f) + sorted.skip(at) =~= sorted.push(f));
        if sorted.len() > 0 {
            assert(sorted.last() == sorted[at - 1]);
        }
    } else {
        let last = sorted.last();
        assert(text_lt(f.path, sorted[sorted.len() - 1].path));
        lemma_text_lt_total(last.path, f.path);
        let shorter = sorted.drop_last();
        assert forall|j: int| at <= j < shorter.len() implies text_lt(
            f.path,
            #[trigger] shorter[j].path,
        ) by {
            assert(shorter[j] == sorted[j]);
        }
        if at > 0 {
            assert(shorter[at - 1] == sorted[at - 1]);
        }
        lemma_insert_at(shorter, f, at);
        assert(shorter.take(at) == sorted.take(at));
        assert((shorter.take(at).push(f) + shorter.skip(at)).push(last) =~= sorted.take(at).push(f)
            + sorted.skip(at));
    }
}

/// Inserting a file whose path is there already changes nothing.
proof fn lemma_insert_same(sorted: Seq<FileText>, f: FileText, at: int)
    requires
        0 <= at < sorted.len(),
        sorted[at].path == f.path,
        forall|j: int| at < j < sorted.len() ==> text_lt(f.path, #[trigger] sorted[j].path),
    ensures
        insert_path(sorted, f) == sorted,
    decreases sorted.len() - at,
{
    let last = sorted.last();
    lemma_text_lt_total(last.path, f.path);
    if at < sorted.len() - 1 {
        assert(text_lt(f.path, sorted[sorted.len() - 1].path));
        let shorter = sorted.drop_last();
        assert forall|j: int| at < j < shorter.len() implies text_lt(
            f.path,
            #[trigger] shorter[j].path,
        ) by {
            assert(shorter[j] == sorted[j]);
        }
        assert(shorter[at] == sorted[at]);
        lemma_insert_same(shorter, f, at);
        assert(shorter.push(last) =~= sorted);
    } else {
        assert(last == sorted[at]);
    }
}

/// The files of `files` in the order of their paths, one for each path.
pub fn sort_by_path(files: &Vec<SourceFile>) -> (out: Vec<SourceFile>)
    ensures
        file_texts(out@) == by_path(file_texts(files@)),
        ascending(paths_of(file_texts(out@))),
{
    let ghost all = file_texts(files@);
    let mut out: Vec<SourceFile> = Vec::new();
    let mut i: usize = 0;
    assert(file_texts(out@) =~= Seq::<FileText>::empty());
    assert(all.take(0) =~= Seq::<FileText>::empty());
    while i < files.len()
        invariant
            i <= files.len(),
            all == file_texts(files@),
            file_texts(out@) == by_path(all.take(i as int)),
            ascending(paths_of(file_texts(out@))),
        decreases files.len() - i,
    {
        let f = &files[i];
        let path = chars_of(f.path.as_str());
        let ghost sorted = file_texts(out@);
        proof {
            assert(all.take(i + 1).drop_last() == all.take(i as int));
            assert(all.take(i + 1).last() == f@);
        }
        // the place of `f`: behind every file with a smaller path
        let mut at: usize = out.len();
        let mut same = false;
        let mut placed = false;
        while at > 0 && !placed
            invariant
                at <= out.len(),
                sorted == file_texts(out@),
                path@ == f@.path,
                same ==> placed,
                forall|j: int| at <= j < sorted.len() && !same ==> text_lt(
                    f@.path,
                    #[trigger] sorted[j].path,
                ),
                same ==> at < sorted.len() && sorted[at as int].path == f@.path && forall|j: int|
                    at < j < sorted.len() ==> text_lt(f@.path, #[trigger] sorted[j].path),
                placed && !same ==> at > 0 && text_lt(sorted[at - 1].path, f@.path),
            decreases at + (if placed { 0int } else { 1int }),
        {
            let other = chars_of(out[at - 1].path.as_str());
            assert(other@ == sorted[at - 1].path);
            match place_of(&other, &path) {
                Place::Before => {
                    placed = true;
                },
                Place::Same => {
                    same = true;
                    placed = true;
                    at = at - 1;
                },
                Place::Behind => {
                    at = at - 1;
                },
            }
        }
        if same {
            proof {
                lemma_insert_same(sorted, f@, at as int);
            }
        } else {
            proof {
                lemma_insert_at(sorted, f@, at as int);
            }
            out.insert(at, SourceFile { path: f.path.clone(), content: copy_bytes(&f.content) });
            proof {
                let after = file_texts(out@);
                assert(after =~= sorted.take(at as int).push(f@) + sorted.skip(at as int));
                let paths = paths_of(after);
                let old_paths = paths_of(sorted);
                assert forall|a: int, b: int| 0 <= a < b < paths.len() implies text_lt(
                    #[trigger] paths[a],
                    #[trigger] paths[b],
                ) by {
                    let pa = if a < at { a } else { a - 1 };
                    let pb = if b < at { b } else { b - 1 };
                    if a != at {
                        assert(paths[a] == old_paths[pa]);
                    }
                    if b != at {
                        assert(paths[b] == old_paths[pb]);
                    }
                    if a == at {
                        assert(text_lt(f@.path, sorted[pb].path));
                    } else if b == at {
                        assert(pa <= at - 1);
                        assert(text_lt(sorted[at - 1].path, f@.path));
                        if pa < at - 1 {
                            assert(text_lt(old_paths[pa], old_paths[at - 1]));
                            lemma_text_lt_transitive(old_paths[pa], old_paths[at - 1], f@.path);
                        }
                    } else {
                        assert(text_lt(old_paths[pa], old_paths[pb]));
                    }
                }
            }
        }
        i += 1;
    }
    assert(all.take(files@.len() as int) == all);
    out
}

/// A copy of `v`.
pub fn copy_bytes(v: &Vec<u8>) -> (out: Vec<u8>)
    ensures
        out@ == v@,
{
    let mut out: Vec<u8> = Vec::new();
    let mut i: usize = 0;
    while i < v.len()
        invariant
            i <= v.len(),
            out@ == v@.take(i as int),
        decreases v.len() - i,
    {
        out.push(v[i]);
        assert(v@.take(i + 1) == v@.take(i as int).push(v@[i as int]));
        i += 1;
    }
    assert(v@.take(v@.len() as int) == v@);
    out
}

/// Compute a unique key given the files that a test depends on—the TLA+
/// files of its directory and its configuration—and the absolute path of
/// the test's own file.
///
/// The files are digested in the order of their paths, whatever their order
/// in `files`; the path of the test's own file is digested last, so that two
/// tests in one directory, with one configuration, get keys of their own.
pub fn key(files: &Vec<SourceFile>, tla_file_path: &str) -> (out: String)
    ensures
        out@ == key_text(file_texts(files@), tla_file_path@),
{
    let sorted = sort_by_path(files);
    let ghost texts = file_texts(sorted@);
    let mut digest = Digest::new();
    let mut i: usize = 0;
    assert(texts.take(0) =~= Seq::<FileText>::empty());
    while i < sorted.len()
        invariant
            i <= sorted.len(),
            texts == file_texts(sorted@),
            digest@ == all_content(texts.take(i as int)),
        decreases sorted.len() - i,
    {
        assert(texts.take(i + 1).drop_last() == texts.take(i as int));
        assert(texts.take(i + 1).last() == sorted@[i as int]@);
        digest.update(sorted[i].content.as_slice());
        i += 1;
    }
    assert(texts.take(sorted@.len() as int) == texts);
    digest.update_str(tla_file_path);
    digest.encode()
}


/// Whether a file name is that of a TLA+ file.
pub open spec fn is_tla_name(name: Seq<char>) -> bool {
    ".tla"@.is_suffix_of(name)
}

/// The names among `file_names` that end in `.tla`, in order.
pub fn tla_file_names(file_names: &Vec<String>) -> (out: Vec<String>)
    ensures
        strs(out@) == strs(file_names@).filter(|n: Seq<char>| is_tla_name(n)),
{
    let ghost names = strs(file_names@);
    let ghost pred = |n: Seq<char>| is_tla_name(n);
    let ending = chars_of(".tla");
    let mut out: Vec<String> = Vec::new();
    let mut i: usize = 0;
    proof {
        reveal(Seq::filter);
        assert(names.take(0) =~= Seq::<Seq<char>>::empty());
        assert(strs(out@) =~= names.take(0).filter(pred));
    }
    while i < file_names.len()
        invariant
            i <= file_names.len(),
            names == strs(file_names@),
            pred == |n: Seq<char>| is_tla_name(n),
            ending@ == ".tla"@,
            strs(out@) == names.take(i as int).filter(pred),
        decreases file_names.len() - i,
    {
        let ghost before = strs(out@);
        let name = chars_of(file_names[i].as_str());
        proof {
            reveal(Seq::filter);
            assert(names.take(i + 1).drop_last() == names.take(i as int));
            assert(names.take(i + 1).last() == name@);
        }
        if has_suffix(&name, &ending) {
            out.push(file_names[i].clone());
            assert(strs(out@) =~= before.push(name@));
        }
        i += 1;
    }
    assert(names.take(file_names@.len() as int) == names);
    out
}

/// The keys of two tests with the same files are digests of different
/// bytes, where the paths of the tests' own files differ.
pub proof fn lemma_key_input_tells_tests_apart(
    files: Seq<FileText>,
    first: Seq<char>,
    second: Seq<char>,
)
    requires
        first != second,
    ensures
        key_input(files, first) != key_input(files, second),
{
    let head = all_content(by_path(files));
    let a = vstd::utf8::encode_utf8(first);
    let b = vstd::utf8::encode_utf8(second);
    if head + a == head + b {
        assert((head + a).skip(head.len() as int) =~= a);
        assert((head + b).skip(head.len() as int) =~= b);
        vstd::utf8::encode_utf8_decode_utf8(first);
        vstd::utf8::encode_utf8_decode_utf8(second);
    }
}

/// The files in the order of their paths hold each path once, in ascending
/// order, and hold the paths of the files given and no other.
pub proof fn lemma_by_path(files: Seq<FileText>)
    ensures
        ascending(paths_of(by_path(files))),
        paths_of(by_path(files)).to_set() == paths_of(files).to_set(),
    decreases files.len(),
{
    let sorted = by_path(files);
    if files.len() == 0 {
        assert(paths_of(sorted) =~= paths_of(files));
    } else {
        let shorter = files.drop_last();
        let f = files.last();
        lemma_by_path(shorter);
        lemma_insert_path(by_path(shorter), f);
        assert(paths_of(files) =~= paths_of(shorter).push(f.path));
        lemma_push_to_set(paths_of(shorter), f.path);
    }
}

/// Inserting a file into files in ascending order of their paths keeps the
/// order, and adds the file's path to the paths held.
proof fn lemma_insert_path(sorted: Seq<FileText>, f: FileText)
    requires
        ascending(paths_of(sorted)),
    ensures
        ascending(paths_of(insert_path(sorted, f))),
        paths_of(insert_path(sorted, f)).to_set() == paths_of(sorted).to_set().insert(f.path),
    decreases sorted.len(),
{
    let out = insert_path(sorted, f);
    let paths = paths_of(sorted);
    if sorted.len() == 0 {
        assert(paths_of(out) =~= paths.push(f.path));
        lemma_push_to_set(paths, f.path);
    } else if text_lt(sorted.last().path, f.path) {
        assert(paths_of(out) =~= paths.push(f.path));
        lemma_push_to_set(paths, f.path);
        assert forall|a: int, b: int| 0 <= a < b < paths_of(out).len() implies text_lt(
            #[trigger] paths_of(out)[a],
            #[trigger] paths_of(out)[b],
        ) by {
            if b == sorted.len() {
                if a < sorted.len() - 1 {
                    assert(text_lt(paths[a], paths[sorted.len() - 1]));
                    lemma_text_lt_transitive(paths[a], paths[sorted.len() - 1], f.path);
                }
            } else {
                assert(text_lt(paths[a], paths[b]));
            }
        }
    } else if sorted.last().path == f.path {
        assert(paths[sorted.len() - 1] == f.path);
        assert(paths.to_set().insert(f.path) =~= paths.to_set());
    } else {
        let shorter = sorted.drop_last();
        let last = sorted.last();
        let inner = insert_path(shorter, f);
        assert(paths_of(shorter) =~= paths.drop_last());
        assert forall|a: int, b: int| 0 <= a < b < paths_of(shorter).len() implies text_lt(
            #[trigger] paths_of(shorter)[a],
            #[trigger] paths_of(shorter)[b],
        ) by {
            assert(text_lt(paths[a], paths[b]));
        }
        lemma_insert_path(shorter, f);
        lemma_text_lt_total(last.path, f.path);
        assert(paths_of(out) =~= paths_of(inner).push(last.path));
        lemma_push_to_set(paths_of(inner), last.path);
        assert(paths =~= paths_of(shorter).push(last.path));
        lemma_push_to_set(paths_of(shorter), last.path);
        assert(paths_of(out).to_set() =~= paths.to_set().insert(f.path));
        assert forall|a: int, b: int| 0 <= a < b < paths_of(out).len() implies text_lt(
            #[trigger] paths_of(out)[a],
            #[trigger] paths_of(out)[b],
        ) by {
            if b == inner.len() {
                // every path of `inner` is `f.path` or a path of `shorter`
                let p = paths_of(inner)[a];
                assert(paths_of(inner).to_set().contains(p));
                if p == f.path {
                } else {
                    assert(paths_of(shorter).to_set().contains(p));
                    let k = choose|k: int|
                        0 <= k < paths_of(shorter).len() && paths_of(shorter)[k] == p;
                    assert(text_lt(paths[k], paths[sorted.len() - 1]));
                }
            } else {
                assert(text_lt(paths_of(inner)[a], paths_of(inner)[b]));
            }
        }
    }
}


/// Inserting a file gives files that were there, or the file inserted.
proof fn lemma_insert_path_members(sorted: Seq<FileText>, f: FileText)
    ensures
        forall|i: int|
            0 <= i < insert_path(sorted, f).len() ==> sorted.contains(
                #[trigger] insert_path(sorted, f)[i],
            ) || insert_path(sorted, f)[i] == f,
    decreases sorted.len(),
{
    let out = insert_path(sorted, f);
    if sorted.len() == 0 {
    } else if text_lt(sorted.last().path, f.path) {
        assert forall|i: int| 0 <= i < out.len() implies sorted.contains(#[trigger] out[i])
            || out[i] == f by {
            if i < sorted.len() {
                assert(sorted[i] == out[i]);
            }
        }
    } else if sorted.last().path == f.path {
        assert forall|i: int| 0 <= i < out.len() implies sorted.contains(#[trigger] out[i])
            || out[i] == f by {
            assert(sorted[i] == out[i]);
        }
    } else {
        let shorter = sorted.drop_last();
        let inner = insert_path(shorter, f);
        lemma_insert_path_members(shorter, f);
        assert forall|i: int| 0 <= i < out.len() implies sorted.contains(#[trigger] out[i])
            || out[i] == f by {
            if i < inner.len() {
                assert(out[i] == inner[i]);
                if shorter.contains(inner[i]) {
                    let k = choose|k: int| 0 <= k < shorter.len() && shorter[k] == inner[i];
                    assert(sorted[k] == inner[i]);
                }
            } else {
                assert(sorted[sorted.len() - 1] == out[i]);
            }
        }
    }
}

/// The files in the order of their paths are among the files given.
pub proof fn lemma_by_path_members(files: Seq<FileText>)
    ensures
        forall|i: int| 0 <= i < by_path(files).len() ==> files.contains(#[trigger] by_path(files)[i]),
    decreases files.len(),
{
    if files.len() > 0 {
        let shorter = files.drop_last();
        let before = by_path(shorter);
        lemma_by_path_members(shorter);
        lemma_insert_path_members(before, files.last());
        let out = by_path(files);
        assert forall|i: int| 0 <= i < out.len() implies files.contains(#[trigger] out[i]) by {
            if before.contains(out[i]) {
                let k = choose|k: int| 0 <= k < before.len() && before[k] == out[i];
                assert(shorter.contains(before[k]));
                let m = choose|m: int| 0 <= m < shorter.len() && shorter[m] == out[i];
                assert(files[m] == out[i]);
            } else {
                assert(files[files.len() - 1] == out[i]);
            }
        }
    }
}

/// The key of a test does not depend on the order in which its files are
/// listed: the same files, no two of them with one path, give the same
/// key in whatever order they come.
pub proof fn lemma_key_whatever_the_order(
    a: Seq<FileText>,
    b: Seq<FileText>,
    tla_file_path: Seq<char>,
)
    requires
        paths_of(a).no_duplicates(),
        a.to_set() == b.to_set(),
    ensures
        by_path(a) == by_path(b),
        key_input(a, tla_file_path) == key_input(b, tla_file_path),
        key_text(a, tla_file_path) == key_text(b, tla_file_path),
{
    let x = by_path(a);
    let y = by_path(b);
    lemma_by_path(a);
    lemma_by_path(b);
    lemma_by_path_members(a);
    lemma_by_path_members(b);
    assert forall|p: Seq<char>| paths_of(a).contains(p) <==> paths_of(b).contains(p) by {
        if paths_of(a).contains(p) {
            let i = choose|i: int| 0 <= i < paths_of(a).len() && paths_of(a)[i] == p;
            assert(a.contains(a[i]));
            assert(b.to_set().contains(a[i]));
            let j = choose|j: int| 0 <= j < b.len() && b[j] == a[i];
            assert(paths_of(b)[j] == p);
        }
        if paths_of(b).contains(p) {
            let i = choose|i: int| 0 <= i < paths_of(b).len() && paths_of(b)[i] == p;
            assert(b.contains(b[i]));
            assert(a.to_set().contains(b[i]));
            let j = choose|j: int| 0 <= j < a.len() && a[j] == b[i];
            assert(paths_of(a)[j] == p);
        }
    }
    assert(paths_of(a).to_set() =~= paths_of(b).to_set());
    lemma_ascending_unique(paths_of(x), paths_of(y));
    assert(x.len() == paths_of(x).len());
    assert(y.len() == paths_of(y).len());
    assert forall|i: int| 0 <= i < x.len() implies x[i] == y[i] by {
        assert(paths_of(x)[i] == x[i].path);
        assert(paths_of(y)[i] == y[i].path);
        assert(a.contains(x[i]));
        assert(b.contains(y[i]));
        assert(a.to_set().contains(y[i]));
        let m = choose|m: int| 0 <= m < a.len() && a[m] == x[i];
        let n = choose|n: int| 0 <= n < a.len() && a[n] == y[i];
        assert(paths_of(a)[m] == paths_of(a)[n]);
    }
    assert(x =~= y);
}

} // verus!
