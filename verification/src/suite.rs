//! All that the model checker needs to check a model: the model's file, its
//! configuration, and the files of the modules that the model extends,
//! directly or through other modules.

use vstd::prelude::*;
use crate::artifact::{TlaConfigFile, TlaFile};
use crate::error::Error;
use crate::order::{
    ascending, lemma_ascending_unique, lemma_text_lt_total, lemma_text_lt_transitive, place_of,
    Place,
};
use crate::text::{
    chars_of, concat2, has_prefix, lines_of, same_text, slice_of, split_lines, split_on,
    split_trimmed, string_of, strip_starts, strip_starts_at, strs, texts, trim,
};

verus! {

/// Whether `name` is one of the modules that come with the TLA+ tools.
pub open spec fn standard_module(name: Seq<char>) -> bool {
    ||| name == "Bags"@
    ||| name == "FiniteSets"@
    ||| name == "Integers"@
    ||| name == "Json"@
    ||| name == "Naturals"@
    ||| name == "Randomization"@
    ||| name == "Reals"@
    ||| name == "RealTime"@
    ||| name == "Sequences"@
    ||| name == "TLC"@
    ||| name == "TLCExt"@
    ||| name == "Toolbox"@
}

/// Whether `name` is one of the modules that come with the TLA+ tools.
pub fn is_standard_module(name: &str) -> (b: bool)
    ensures
        b == standard_module(name@),
{
    same_text(name, "Bags") || same_text(name, "FiniteSets") || same_text(name, "Integers")
        || same_text(name, "Json") || same_text(name, "Naturals") || same_text(
        name,
        "Randomization",
    ) || same_text(name, "Reals") || same_text(name, "RealTime") || same_text(name, "Sequences")
        || same_text(name, "TLC") || same_text(name, "TLCExt") || same_text(name, "Toolbox")
}

/// The names that a line lists behind `EXTENDS`: the parts between the
/// commas, trimmed.
pub open spec fn names_on(line: Seq<char>) -> Seq<Seq<char>> {
    split_on(strip_starts(line, "EXTENDS"@), ',').map_values(|p: Seq<char>| trim(p))
}

/// The names of `names` that are no standard modules, in order.
pub open spec fn own_modules(names: Seq<Seq<char>>) -> Seq<Seq<char>>
    decreases names.len(),
{
    if names.len() == 0 {
        Seq::empty()
    } else {
        let before = own_modules(names.drop_last());
        if standard_module(names.last()) {
            before
        } else {
            before.push(names.last())
        }
    }
}

/// The modules that the lines `lines` extend: for each line that begins
/// with `EXTENDS`, the names that it lists, but for the standard modules.
pub open spec fn extended(lines: Seq<Seq<char>>) -> Seq<Seq<char>>
    decreases lines.len(),
{
    if lines.len() == 0 {
        Seq::empty()
    } else {
        let before = extended(lines.drop_last());
        if "EXTENDS"@.is_prefix_of(lines.last()) {
            before + own_modules(names_on(lines.last()))
        } else {
            before
        }
    }
}

/// The modules that a module with the text `content` extends.
pub open spec fn dependencies(content: Seq<char>) -> Seq<Seq<char>> {
    extended(lines_of(content))
}

/// The modules that a module with the text `content` extends, but for the
/// standard modules.
pub fn find_dependencies(content: &str) -> (out: Vec<String>)
    ensures
        strs(out@) == dependencies(content@),
{
    let text = chars_of(content);
    let lines = split_lines(&text);
    let word = chars_of("EXTENDS");
    let mut out: Vec<String> = Vec::new();
    let mut i: usize = 0;
    proof {
        assert(texts(lines@).take(0) =~= Seq::<Seq<char>>::empty());
        assert(strs(out@) =~= Seq::<Seq<char>>::empty());
    }
    while i < lines.len()
        invariant
            i <= lines.len(),
            word@ == "EXTENDS"@,
            texts(lines@) == lines_of(content@),
            strs(out@) == extended(texts(lines@).take(i as int)),
        decreases lines.len() - i,
    {
        let line = &lines[i];
        proof {
            assert(texts(lines@).take(i + 1).drop_last() == texts(lines@).take(i as int));
            assert(texts(lines@).take(i + 1).last() == line@);
        }
        if has_prefix(line, &word) {
            let at = strip_starts_at(line, &word);
            let list = slice_of(line, at, line.len());
            assert(list@ == strip_starts(line@, "EXTENDS"@));
            let names = split_trimmed(&list, ',');
            assert(texts(names@) == names_on(line@));
            let ghost before = strs(out@);
            let mut k: usize = 0;
            proof {
                assert(texts(names@).take(0) =~= Seq::<Seq<char>>::empty());
                assert(before + Seq::<Seq<char>>::empty() =~= before);
            }
            while k < names.len()
                invariant
                    k <= names.len(),
                    strs(out@) == before + own_modules(texts(names@).take(k as int)),
                decreases names.len() - k,
            {
                let name = string_of(&names[k], 0, names[k].len());
                let ghost so_far = strs(out@);
                proof {
                    assert(names@[k as int]@.subrange(0, names@[k as int]@.len() as int)
                        == names@[k as int]@);
                    assert(texts(names@).take(k + 1).drop_last() == texts(names@).take(k as int));
                    assert(texts(names@).take(k + 1).last() == name@);
                }
                if !is_standard_module(name.as_str()) {
                    out.push(name);
                    assert(strs(out@) =~= so_far.push(name@));
                    assert(strs(out@) =~= before + own_modules(texts(names@).take(k + 1)));
                }
                k += 1;
            }
            assert(texts(names@).take(names@.len() as int) == texts(names@));
        }
        i += 1;
    }
    assert(texts(lines@).take(lines@.len() as int) == texts(lines@));
    out
}


/// The name of the file that holds the module `name`.
pub open spec fn file_name_of(name: Seq<char>) -> Seq<char> {
    name + ".tla"@
}

/// Whether the file at `k` is the first file of `library` that holds the
/// module `name`.
pub open spec fn is_file_of(library: Seq<TlaFile>, name: Seq<char>, k: int) -> bool {
    &&& 0 <= k < library.len()
    &&& library[k].file_name() == file_name_of(name)
    &&& forall|j: int| 0 <= j < k ==> (#[trigger] library[j]).file_name() != file_name_of(name)
}

/// Whether `library` has a file for the module `name`.
pub open spec fn has_file(library: Seq<TlaFile>, name: Seq<char>) -> bool {
    exists|k: int| is_file_of(library, name, k)
}

/// Whether the module at `i + 1` in `chain` is extended by the module
/// at `i`, as the file of that module in `library` has it.
pub open spec fn chain_step(library: Seq<TlaFile>, chain: Seq<Seq<char>>, i: int) -> bool {
    exists|k: int|
        is_file_of(library, chain[i], k) && dependencies(library[k].content()).contains(
            chain[i + 1],
        )
}

/// Whether `chain` leads from a module with the text `main` to a module
/// that it needs: `main` extends the first module of `chain`, and each
/// module of `chain` extends the next.
pub open spec fn is_chain(main: Seq<char>, library: Seq<TlaFile>, chain: Seq<Seq<char>>) -> bool {
    &&& chain.len() >= 1
    &&& dependencies(main).contains(chain[0])
    &&& forall|i: int| 0 <= i < chain.len() - 1 ==> #[trigger] chain_step(library, chain, i)
}

/// Whether a module with the text `main` needs the module `name`: it
/// extends it, or extends a module that needs it.
pub open spec fn needed(main: Seq<char>, library: Seq<TlaFile>, name: Seq<char>) -> bool {
    exists|chain: Seq<Seq<char>>| is_chain(main, library, chain) && chain.last() == name
}

/// Whether the file of the module `name` is among those taken.
pub open spec fn covered(library: Seq<TlaFile>, taken: Seq<bool>, name: Seq<char>) -> bool {
    exists|k: int| is_file_of(library, name, k) && k < taken.len() && taken[k]
}

/// Whether every name of `names` waits in `stack` or has its file taken.
pub open spec fn all_reached(
    library: Seq<TlaFile>,
    taken: Seq<bool>,
    stack: Seq<Seq<char>>,
    names: Seq<Seq<char>>,
) -> bool {
    forall|i: int|
        0 <= i < names.len() ==> stack.contains(#[trigger] names[i]) || covered(
            library,
            taken,
            names[i],
        )
}

/// The number of entries of `taken` that are `false`.
pub open spec fn count_free(taken: Seq<bool>) -> nat
    decreases taken.len(),
{
    if taken.len() == 0 {
        0
    } else {
        count_free(taken.drop_last()) + if taken.last() {
            0nat
        } else {
            1nat
        }
    }
}

/// Taking one more file leaves one free entry fewer.
proof fn lemma_count_free_update(taken: Seq<bool>, k: int)
    requires
        0 <= k < taken.len(),
        !taken[k],
    ensures
        count_free(taken.update(k, true)) + 1 == count_free(taken),
    decreases taken.len(),
{
    let after = taken.update(k, true);
    if k == taken.len() - 1 {
        assert(after.drop_last() == taken.drop_last());
    } else {
        assert(after.drop_last() == taken.drop_last().update(k, true));
        lemma_count_free_update(taken.drop_last(), k);
    }
}

/// With every file of the modules needed taken, in the end: where nothing
/// waits any more, and each module that `main` extends and each module
/// that a taken file extends has its file taken, every module needed has.
proof fn lemma_all_needed_covered(
    main: Seq<char>,
    library: Seq<TlaFile>,
    taken: Seq<bool>,
    chain: Seq<Seq<char>>,
)
    requires
        taken.len() == library.len(),
        all_reached(library, taken, Seq::empty(), dependencies(main)),
        forall|k: int|
            0 <= k < library.len() && taken[k] ==> all_reached(
                library,
                taken,
                Seq::empty(),
                dependencies((#[trigger] library[k]).content()),
            ),
        is_chain(main, library, chain),
    ensures
        covered(library, taken, chain.last()),
    decreases chain.len(),
{
    let none = Seq::<Seq<char>>::empty();
    if chain.len() == 1 {
        let deps = dependencies(main);
        let i = choose|i: int| 0 <= i < deps.len() && deps[i] == chain[0];
        assert(none.contains(deps[i]) || covered(library, taken, deps[i]));
    } else {
        let shorter = chain.drop_last();
        assert forall|i: int| 0 <= i < shorter.len() - 1 implies #[trigger] chain_step(
            library,
            shorter,
            i,
        ) by {
            assert(chain_step(library, chain, i));
            assert(shorter[i] == chain[i]);
            assert(shorter[i + 1] == chain[i + 1]);
        }
        assert(shorter[0] == chain[0]);
        lemma_all_needed_covered(main, library, taken, shorter);
        let n = chain.len() - 2;
        assert(chain_step(library, chain, n));
        let k = choose|k: int|
            is_file_of(library, chain[n], k) && dependencies(library[k].content()).contains(
                chain[n + 1],
            );
        let j = choose|j: int| is_file_of(library, shorter.last(), j) && j < taken.len() && taken[j];
        assert(shorter.last() == chain[n]);
        assert(j == k) by {
            if j < k {
                assert(library[j].file_name() != file_name_of(chain[n]));
            } else if k < j {
                assert(library[k].file_name() != file_name_of(chain[n]));
            }
        }
        let deps = dependencies(library[k].content());
        assert(all_reached(library, taken, none, deps));
        let i = choose|i: int| 0 <= i < deps.len() && deps[i] == chain[n + 1];
        assert(none.contains(deps[i]) || covered(library, taken, deps[i]));
    }
}

/// The position of the first file of `library` that holds the module
/// `name`.
pub fn find_file(library: &Vec<TlaFile>, name: &str) -> (out: Option<usize>)
    ensures
        match out {
            Some(k) => is_file_of(library@, name@, k as int),
            None => !has_file(library@, name@),
        },
{
    let wanted = concat2(name, ".tla");
    let mut k: usize = 0;
    while k < library.len()
        invariant
            k <= library.len(),
            wanted@ == file_name_of(name@),
            forall|j: int| 0 <= j < k ==> (#[trigger] library@[j]).file_name() != file_name_of(name@),
        decreases library.len() - k,
    {
        if same_text(library[k].name(), wanted.as_str()) {
            return Some(k);
        }
        k += 1;
    }
    assert forall|j: int| !is_file_of(library@, name@, j) by {
        if 0 <= j < library.len() {
            assert(library@[j].file_name() != file_name_of(name@));
        }
    }
    None
}


/// Whether `a` and `b` hold the same.
pub open spec fn same_file(a: TlaFile, b: TlaFile) -> bool {
    &&& a.spec_path() == b.spec_path()
    &&& a.spec_dir() == b.spec_dir()
    &&& a.file_name() == b.file_name()
    &&& a.content() == b.content()
}

/// Whether the file at `k` is the file of a module that is needed.
pub open spec fn needed_at(main: Seq<char>, library: Seq<TlaFile>, k: int) -> bool {
    exists|name: Seq<char>| needed(main, library, name) && is_file_of(library, name, k)
}

/// Whether `f` is a copy of the file of a module that is needed.
pub open spec fn is_needed_file(main: Seq<char>, library: Seq<TlaFile>, f: TlaFile) -> bool {
    exists|k: int| needed_at(main, library, k) && same_file(f, library[k])
}

/// Whether `files` holds the file of the module `name`.
pub open spec fn holds_module(files: Seq<TlaFile>, name: Seq<char>) -> bool {
    exists|i: int| 0 <= i < files.len() && (#[trigger] files[i]).file_name() == file_name_of(name)
}

/// What stays reached when one name leaves the stack and its file is
/// taken.
proof fn lemma_reached_step(
    library: Seq<TlaFile>,
    taken: Seq<bool>,
    taken2: Seq<bool>,
    stack: Seq<Seq<char>>,
    stack2: Seq<Seq<char>>,
    names: Seq<Seq<char>>,
    popped: Seq<char>,
)
    requires
        all_reached(library, taken, stack, names),
        forall|x: Seq<char>| stack.contains(x) ==> stack2.contains(x) || x == popped,
        covered(library, taken2, popped),
        taken.len() == taken2.len(),
        forall|k: int| 0 <= k < taken.len() && taken[k] ==> taken2[k],
    ensures
        all_reached(library, taken2, stack2, names),
{
    assert forall|i: int| 0 <= i < names.len() implies stack2.contains(#[trigger] names[i])
        || covered(library, taken2, names[i]) by {
        if !stack.contains(names[i]) {
            let k = choose|k: int| is_file_of(library, names[i], k) && k < taken.len() && taken[k];
            assert(is_file_of(library, names[i], k) && k < taken2.len() && taken2[k]);
        }
    }
}

/// Appends copies of `names` to `stack`.
fn push_names(stack: &mut Vec<String>, names: &Vec<String>)
    ensures
        strs(final(stack)@) == strs(old(stack)@) + strs(names@),
{
    let mut i: usize = 0;
    assert(strs(stack@) =~= strs(old(stack)@) + strs(names@).take(0));
    while i < names.len()
        invariant
            i <= names.len(),
            strs(stack@) == strs(old(stack)@) + strs(names@).take(i as int),
        decreases names.len() - i,
    {
        let ghost before = strs(stack@);
        let name = names[i].clone();
        stack.push(name);
        assert(strs(stack@) =~= before.push(names@[i as int]@));
        assert(strs(stack@) =~= strs(old(stack)@) + strs(names@).take(i + 1));
        i += 1;
    }
    assert(strs(names@).take(names@.len() as int) == strs(names@));
}

/// The names of `files`.
pub open spec fn file_names(files: Seq<TlaFile>) -> Seq<Seq<char>> {
    files.map_values(|f: TlaFile| f.file_name())
}

/// The files of `files` in the order of their names.
fn sort_by_name(files: Vec<TlaFile>) -> (out: Vec<TlaFile>)
    requires
        forall|i: int, j: int|
            0 <= i < j < files.len() ==> (#[trigger] files@[i]).file_name() != (
            #[trigger] files@[j]).file_name(),
    ensures
        ascending(file_names(out@)),
        forall|v: TlaFile| out@.contains(v) <==> files@.contains(v),
{
    let ghost all = files@;
    let mut rest = files;
    let mut out: Vec<TlaFile> = Vec::new();
    while rest.len() > 0
        invariant
            ascending(file_names(out@)),
            forall|i: int, j: int|
                0 <= i < j < rest.len() ==> (#[trigger] rest@[i]).file_name() != (
                #[trigger] rest@[j]).file_name(),
            forall|i: int, j: int|
                0 <= i < rest.len() && 0 <= j < out.len() ==> (#[trigger] rest@[i]).file_name() != (
                #[trigger] out@[j]).file_name(),
            forall|v: TlaFile| (out@.contains(v) || rest@.contains(v)) <==> all.contains(v),
        decreases rest.len(),
    {
        let ghost rest0 = rest@;
        let ghost out0 = out@;
        let popped = rest.pop();
        let f = popped.unwrap();
        let name = chars_of(f.name());
        proof {
            assert(rest@ =~= rest0.drop_last());
            assert(f == rest0[rest0.len() - 1]);
            assert forall|j: int| 0 <= j < out0.len() implies out0[j].file_name()
                != f.file_name() by {
                assert(rest0[rest0.len() - 1].file_name() != out0[j].file_name());
            }
        }
        // the place of `f`: behind every file with a smaller name
        let mut at: usize = out.len();
        while at > 0 && is_before(&name, &out[at - 1])
            invariant
                at <= out.len(),
                out@ == out0,
                name@ == f.file_name(),
                forall|j: int| at <= j < out0.len() ==> crate::order::text_lt(
                    f.file_name(),
                    #[trigger] file_names(out0)[j],
                ),
            decreases at,
        {
            at = at - 1;
        }
        out.insert(at, f);
        proof {
            let names0 = file_names(out0);
            let names = file_names(out@);
            assert(out@ =~= out0.take(at as int).push(f) + out0.skip(at as int));
            if at > 0 {
                assert(names0[at - 1] == out0[at - 1].file_name());
                lemma_text_lt_total(names0[at - 1], f.file_name());
            }
            assert forall|a: int, b: int| 0 <= a < b < names.len() implies crate::order::text_lt(
                #[trigger] names[a],
                #[trigger] names[b],
            ) by {
                let pa = if a < at { a } else { a - 1 };
                let pb = if b < at { b } else { b - 1 };
                if a != at {
                    assert(names[a] == names0[pa]);
                }
                if b != at {
                    assert(names[b] == names0[pb]);
                }
                if a == at {
                    assert(crate::order::text_lt(f.file_name(), names0[pb]));
                } else if b == at {
                    if pa < at - 1 {
                        assert(crate::order::text_lt(names0[pa], names0[at - 1]));
                        lemma_text_lt_transitive(names0[pa], names0[at - 1], f.file_name());
                    }
                } else {
                    assert(crate::order::text_lt(names0[pa], names0[pb]));
                }
            }
            assert forall|v: TlaFile| (out@.contains(v) || rest@.contains(v)) <==> all.contains(
                v,
            ) by {
                if out@.contains(v) {
                    let k = choose|k: int| 0 <= k < out@.len() && out@[k] == v;
                    if k < at {
                        assert(out0[k] == v);
                        assert(out0.contains(v));
                    } else if k == at {
                        assert(rest0.contains(v));
                    } else {
                        assert(out0[k - 1] == v);
                        assert(out0.contains(v));
                    }
                }
                if rest@.contains(v) {
                    let k = choose|k: int| 0 <= k < rest@.len() && rest@[k] == v;
                    assert(rest0[k] == v);
                    assert(rest0.contains(v));
                }
                if all.contains(v) {
                    if out0.contains(v) {
                        let k = choose|k: int| 0 <= k < out0.len() && out0[k] == v;
                        if k < at {
                            assert(out@[k] == v);
                        } else {
                            assert(out@[k + 1] == v);
                        }
                    } else {
                        assert(rest0.contains(v));
                        let k = choose|k: int| 0 <= k < rest0.len() && rest0[k] == v;
                        if k < rest@.len() {
                            assert(rest@[k] == v);
                        } else {
                            assert(out@[at as int] == v);
                        }
                    }
                }
            }
            assert forall|i: int, j: int|
                0 <= i < rest.len() && 0 <= j < out.len() implies (#[trigger] rest@[i]).file_name()
                != (#[trigger] out@[j]).file_name() by {
                assert(rest@[i] == rest0[i]);
                if j < at {
                    assert(out@[j] == out0[j]);
                } else if j == at {
                    assert(rest0[i].file_name() != rest0[rest0.len() - 1].file_name());
                } else {
                    assert(out@[j] == out0[j - 1]);
                }
            }
            assert forall|i: int, j: int| 0 <= i < j < rest.len() implies (
            #[trigger] rest@[i]).file_name() != (#[trigger] rest@[j]).file_name() by {
                assert(rest@[i] == rest0[i]);
                assert(rest@[j] == rest0[j]);
            }
        }
    }
    proof {
        assert forall|v: TlaFile| out@.contains(v) <==> all.contains(v) by {
            if rest@.contains(v) {
                let k = choose|k: int| 0 <= k < rest@.len() && rest@[k] == v;
            }
        }
    }
    out
}

/// Whether the name `name` stands before the name of `f`.
fn is_before(name: &Vec<char>, f: &TlaFile) -> (b: bool)
    ensures
        b == crate::order::text_lt(name@, f.file_name()),
{
    let other = chars_of(f.name());
    match place_of(name, &other) {
        Place::Before => true,
        _ => false,
    }
}

/// The files of the modules that a module with the text `content` needs:
/// those that it extends, and those that they need in turn, each file
/// once, in the order of the files' names. Each is looked up in `library`
/// under the name of its module and `.tla`.
///
/// Where the file of a module that is needed is not in `library`, the
/// result is [`Error::FileNotFound`] with the name of one such file.
pub fn gather_dependencies(content: &str, library: &Vec<TlaFile>) -> (out: Result<
    Vec<TlaFile>,
    Error,
>)
    ensures
        match out {
            Ok(files) => {
                &&& forall|name: Seq<char>| #[trigger]
                    needed(content@, library@, name) ==> has_file(library@, name)
                        && holds_module(files@, name)
                &&& forall|i: int|
                    0 <= i < files.len() ==> is_needed_file(
                        content@,
                        library@,
                        #[trigger] files@[i],
                    )
                &&& ascending(file_names(files@))
            },
            Err(e) => exists|name: Seq<char>|
                {
                    &&& needed(content@, library@, name)
                    &&& !has_file(library@, name)
                    &&& e matches Error::FileNotFound(p)
                    &&& p@ == file_name_of(name)
                },
        },
{
    let ghost main = content@;
    let ghost lib = library@;
    let mut stack = find_dependencies(content);
    let mut taken: Vec<bool> = Vec::new();
    let mut n: usize = 0;
    while n < library.len()
        invariant
            n <= library.len(),
            taken.len() == n,
            forall|k: int| 0 <= k < n ==> !taken@[k],
        decreases library.len() - n,
    {
        taken.push(false);
        n += 1;
    }
    let mut out: Vec<TlaFile> = Vec::new();
    let ghost mut picked: Seq<int> = Seq::empty();
    proof {
        assert forall|i: int| 0 <= i < stack.len() implies needed(
            main,
            lib,
            #[trigger] strs(stack@)[i],
        ) by {
            let chain = seq![strs(stack@)[i]];
            assert(dependencies(main).contains(chain[0]));
            assert(is_chain(main, lib, chain));
            assert(chain.last() == strs(stack@)[i]);
        }
        assert forall|i: int| 0 <= i < dependencies(main).len() implies strs(stack@).contains(
            #[trigger] dependencies(main)[i],
        ) || covered(lib, taken@, dependencies(main)[i]) by {
            assert(strs(stack@)[i] == dependencies(main)[i]);
        }
    }
    while stack.len() > 0
        invariant
            main == content@,
            lib == library@,
            taken.len() == library.len(),
            forall|i: int| 0 <= i < stack.len() ==> needed(main, lib, #[trigger] strs(stack@)[i]),
            forall|k: int| 0 <= k < lib.len() && taken@[k] ==> #[trigger] needed_at(main, lib, k),
            all_reached(lib, taken@, strs(stack@), dependencies(main)),
            forall|k: int|
                0 <= k < lib.len() && taken@[k] ==> all_reached(
                    lib,
                    taken@,
                    strs(stack@),
                    dependencies((#[trigger] lib[k]).content()),
                ),
            picked.len() == out.len(),
            forall|i: int|
                0 <= i < picked.len() ==> 0 <= #[trigger] picked[i] < lib.len() && taken@[picked[i]]
                    && same_file(out@[i], lib[picked[i]]),
            forall|k: int| 0 <= k < lib.len() && taken@[k] ==> #[trigger] picked.contains(k),
            picked.no_duplicates(),
        decreases count_free(taken@), stack.len(),
    {
        let ghost stack0 = strs(stack@);
        let ghost taken0 = taken@;
        let ghost picked0 = picked;
        let popped = stack.pop();
        let name = popped.unwrap();
        let ghost stack1 = strs(stack@);
        proof {
            assert(stack1 =~= stack0.drop_last());
            assert(name@ == stack0[stack0.len() - 1]);
            assert(needed(main, lib, name@));
            assert forall|x: Seq<char>| stack0.contains(x) implies stack1.contains(x) || x
                == name@ by {
                let i = choose|i: int| 0 <= i < stack0.len() && stack0[i] == x;
                if i < stack1.len() {
                    assert(stack1[i] == x);
                }
            }
        }
        match find_file(library, name.as_str()) {
            None => {
                return Err(Error::FileNotFound(concat2(name.as_str(), ".tla")));
            },
            Some(k) => {
                if !taken[k] {
                    taken.set(k, true);
                    out.push(library[k].duplicate());
                    let deps = find_dependencies(library[k].file_contents_backing());
                    push_names(&mut stack, &deps);
                    proof {
                        picked = picked.push(k as int);
                        let stack2 = strs(stack@);
                        let taken2 = taken@;
                        lemma_count_free_update(taken0, k as int);
                        assert(taken2 == taken0.update(k as int, true));
                        assert(is_file_of(lib, name@, k as int) && k < taken2.len()
                            && taken2[k as int]);
                        assert(covered(lib, taken2, name@));
                        assert forall|x: Seq<char>| stack0.contains(x) implies stack2.contains(x)
                            || x == name@ by {
                            if stack1.contains(x) {
                                let i = choose|i: int| 0 <= i < stack1.len() && stack1[i] == x;
                                assert(stack2[i] == x);
                            }
                        }
                        lemma_reached_step(
                            lib,
                            taken0,
                            taken2,
                            stack0,
                            stack2,
                            dependencies(main),
                            name@,
                        );
                        assert forall|j: int| 0 <= j < lib.len() && taken2[j] implies all_reached(
                            lib,
                            taken2,
                            stack2,
                            dependencies((#[trigger] lib[j]).content()),
                        ) by {
                            let names = dependencies(lib[j].content());
                            if j == k {
                                assert forall|i: int| 0 <= i < names.len() implies stack2.contains(
                                    #[trigger] names[i],
                                ) || covered(lib, taken2, names[i]) by {
                                    assert(stack2[stack1.len() + i] == names[i]);
                                }
                            } else {
                                assert(taken0[j]);
                                lemma_reached_step(
                                    lib,
                                    taken0,
                                    taken2,
                                    stack0,
                                    stack2,
                                    names,
                                    name@,
                                );
                            }
                        }
                        assert forall|i: int| 0 <= i < stack2.len() implies needed(
                            main,
                            lib,
                            #[trigger] stack2[i],
                        ) by {
                            if i < stack1.len() {
                                assert(stack2[i] == stack0[i]);
                            } else {
                                let d = stack2[i];
                                let names = dependencies(lib[k as int].content());
                                assert(names[i - stack1.len()] == d);
                                let chain = choose|chain: Seq<Seq<char>>|
                                    is_chain(main, lib, chain) && chain.last() == name@;
                                let longer = chain.push(d);
                                assert forall|m: int| 0 <= m < longer.len() - 1 implies #[trigger] chain_step(
                                    lib,
                                    longer,
                                    m,
                                ) by {
                                    if m < chain.len() - 1 {
                                        assert(chain_step(lib, chain, m));
                                        assert(longer[m] == chain[m]);
                                        assert(longer[m + 1] == chain[m + 1]);
                                        let w = choose|w: int|
                                            is_file_of(lib, chain[m], w) && dependencies(
                                                lib[w].content(),
                                            ).contains(chain[m + 1]);
                                        assert(is_file_of(lib, longer[m], w) && dependencies(
                                            lib[w].content(),
                                        ).contains(longer[m + 1]));
                                    } else {
                                        assert(longer[m] == name@);
                                        assert(longer[m + 1] == d);
                                        assert(is_file_of(lib, longer[m], k as int)
                                            && dependencies(lib[k as int].content()).contains(
                                            longer[m + 1],
                                        ));
                                    }
                                }
                                assert(longer[0] == chain[0]);
                                assert(is_chain(main, lib, longer));
                                assert(longer.last() == d);
                            }
                        }
                        assert(needed_at(main, lib, k as int));
                        assert forall|j: int| 0 <= j < lib.len() && taken2[j] implies #[trigger] picked.contains(
                            j,
                        ) by {
                            if j == k {
                                assert(picked[picked.len() - 1] == k);
                            } else {
                                assert(taken0[j]);
                                assert(picked0.contains(j));
                                let i = choose|i: int| 0 <= i < picked0.len() && picked0[i] == j;
                                assert(picked[i] == j);
                            }
                        }
                        assert forall|a: int, b: int| 0 <= a < b < picked.len() implies picked[a]
                            != picked[b] by {
                            if b == picked.len() - 1 {
                                assert(picked0[a] == picked[a]);
                                assert(taken0[picked0[a]]);
                            } else {
                                assert(picked0[a] != picked0[b]);
                            }
                        }
                    }
                } else {
                    proof {
                        assert(covered(lib, taken0, name@));
                        lemma_reached_step(
                            lib,
                            taken0,
                            taken0,
                            stack0,
                            stack1,
                            dependencies(main),
                            name@,
                        );
                        assert forall|j: int| 0 <= j < lib.len() && taken0[j] implies all_reached(
                            lib,
                            taken0,
                            stack1,
                            dependencies((#[trigger] lib[j]).content()),
                        ) by {
                            lemma_reached_step(
                                lib,
                                taken0,
                                taken0,
                                stack0,
                                stack1,
                                dependencies(lib[j].content()),
                                name@,
                            );
                        }
                        assert forall|i: int| 0 <= i < stack1.len() implies needed(
                            main,
                            lib,
                            #[trigger] stack1[i],
                        ) by {
                            assert(stack1[i] == stack0[i]);
                        }
                    }
                }
            },
        }
    }
    proof {
        let none = Seq::<Seq<char>>::empty();
        assert(strs(stack@) =~= none);
        assert forall|name: Seq<char>| #[trigger] needed(main, lib, name) implies has_file(
            lib,
            name,
        ) && holds_module(out@, name) by {
            let chain = choose|chain: Seq<Seq<char>>|
                is_chain(main, lib, chain) && chain.last() == name;
            lemma_all_needed_covered(main, lib, taken@, chain);
            let k = choose|k: int| is_file_of(lib, name, k) && k < taken@.len() && taken@[k];
            assert(picked.contains(k));
            let i = choose|i: int| 0 <= i < picked.len() && picked[i] == k;
            assert(out@[i].file_name() == file_name_of(name));
        }
        assert forall|i: int| 0 <= i < out.len() implies is_needed_file(
            main,
            lib,
            #[trigger] out@[i],
        ) by {
            assert(needed_at(main, lib, picked[i]));
            assert(same_file(out@[i], lib[picked[i]]));
        }
        assert forall|i: int, j: int| 0 <= i < j < out.len() implies (
        #[trigger] out@[i]).file_name() != (#[trigger] out@[j]).file_name() by {
            let a = picked[i];
            let b = picked[j];
            assert(needed_at(main, lib, a));
            assert(needed_at(main, lib, b));
            let na = choose|name: Seq<char>| needed(main, lib, name) && is_file_of(lib, name, a);
            let nb = choose|name: Seq<char>| needed(main, lib, name) && is_file_of(lib, name, b);
            if out@[i].file_name() == out@[j].file_name() {
                assert(file_name_of(na) == file_name_of(nb));
                if a < b {
                    assert(lib[a].file_name() != file_name_of(nb));
                } else {
                    assert(lib[b].file_name() != file_name_of(na));
                }
            }
        }
    }
    let ghost found = out@;
    let sorted = sort_by_name(out);
    proof {
        assert forall|name: Seq<char>| #[trigger] needed(main, lib, name) implies has_file(
            lib,
            name,
        ) && holds_module(sorted@, name) by {
            assert(holds_module(found, name));
            let i = choose|i: int|
                0 <= i < found.len() && (#[trigger] found[i]).file_name() == file_name_of(name);
            assert(found.contains(found[i]));
            assert(sorted@.contains(found[i]));
            let k = choose|k: int| 0 <= k < sorted@.len() && sorted@[k] == found[i];
            assert(sorted@[k].file_name() == file_name_of(name));
        }
        assert forall|i: int| 0 <= i < sorted.len() implies is_needed_file(
            main,
            lib,
            #[trigger] sorted@[i],
        ) by {
            assert(sorted@.contains(sorted@[i]));
            assert(found.contains(sorted@[i]));
            let k = choose|k: int| 0 <= k < found.len() && found[k] == sorted@[i];
            assert(is_needed_file(main, lib, found[k]));
        }
    }
    Ok(sorted)
}

/// All the resources needed to perform model checking: the main TLA+ file
/// and the configuration file, and the TLA+ files that the main one
/// depends on.
#[derive(Debug)]
pub struct TlaFileSuite {
    /// The tla file being used as a target for a model checker command
    pub tla_file: TlaFile,
    /// The config file being used for a model checker command
    pub tla_config_file: TlaConfigFile,
    /// Depended-on TLA files (via transitive closure of EXTENDS)
    pub dependency_tla_files: Vec<TlaFile>,
}

impl TlaFileSuite {
    /// Gather all model checking resources from a main TLA+ file and a
    /// configuration file, with the files of `library` to take the modules
    /// needed from. The configuration is given the name of the main module,
    /// and `.cfg`.
    pub fn from_tla_and_config_paths(
        tla_file: TlaFile,
        tla_config_file: TlaConfigFile,
        library: &Vec<TlaFile>,
    ) -> (out: Result<Self, Error>)
        ensures
            match out {
                Ok(suite) => {
                    &&& suite.tla_file == tla_file
                    &&& suite.tla_config_file.spec_content() == tla_config_file.spec_content()
                    &&& suite.tla_config_file.spec_path() == tla_file.module_name() + ".cfg"@
                    &&& is_closure(
                        tla_file.content(),
                        library@,
                        suite.dependency_tla_files@,
                    )
                },
                Err(e) => is_missing(tla_file.content(), library@, e),
            },
    {
        let mut config = tla_config_file;
        let module = tla_file.tla_module_name();
        config.set_path(concat2(module.as_str(), ".cfg"));
        match gather_dependencies(tla_file.file_contents_backing(), library) {
            Ok(files) => Ok(
                TlaFileSuite { tla_file, tla_config_file: config, dependency_tla_files: files },
            ),
            Err(e) => Err(e),
        }
    }

    /// Gather all resources from a main TLA+ file without a configuration
    /// file: the configuration is empty.
    pub fn from_tla_path(tla_file: TlaFile, library: &Vec<TlaFile>) -> (out: Result<Self, Error>)
        ensures
            match out {
                Ok(suite) => {
                    &&& suite.tla_file == tla_file
                    &&& suite.tla_config_file.spec_content() == Seq::<char>::empty()
                    &&& suite.tla_config_file.spec_path() == Seq::<char>::empty()
                    &&& is_closure(
                        tla_file.content(),
                        library@,
                        suite.dependency_tla_files@,
                    )
                },
                Err(e) => is_missing(tla_file.content(), library@, e),
            },
    {
        let config = TlaConfigFile::new(String::new(), String::new());
        match gather_dependencies(tla_file.file_contents_backing(), library) {
            Ok(files) => Ok(
                TlaFileSuite { tla_file, tla_config_file: config, dependency_tla_files: files },
            ),
            Err(e) => Err(e),
        }
    }
}

/// A file to write: its name and its text.
#[derive(Debug, Clone, PartialEq, Eq)]
pub struct SavedFile {
    /// The name of the file.
    pub name: String,
    /// The text of the file.
    pub content: String,
}

/// The files that `files` is to be written as: the name and the text of
/// each.
pub open spec fn saved_modules(files: Seq<TlaFile>) -> Seq<(Seq<char>, Seq<char>)> {
    files.map_values(|f: TlaFile| (f.file_name(), f.content()))
}

/// What a vector of files to write holds.
pub open spec fn saved_texts(files: Seq<SavedFile>) -> Seq<(Seq<char>, Seq<char>)> {
    files.map_values(|f: SavedFile| (f.name@, f.content@))
}

impl TlaFileSuite {
    /// The files to write for the model checker: the files that the main
    /// file depends on, the main file, and the configuration file unless it
    /// is empty.
    pub fn into_iter(&self) -> (out: Vec<SavedFile>)
        ensures
            saved_texts(out@) == saved_modules(self.dependency_tla_files@).push(
                (self.tla_file.file_name(), self.tla_file.content()),
            ) + if self.tla_config_file.spec_content().len() == 0 {
                Seq::<(Seq<char>, Seq<char>)>::empty()
            } else {
                seq![(self.tla_config_file.spec_path(), self.tla_config_file.spec_content())]
            },
    {
        let mut out: Vec<SavedFile> = Vec::new();
        let mut i: usize = 0;
        assert(saved_texts(out@) =~= saved_modules(self.dependency_tla_files@.take(0)));
        while i < self.dependency_tla_files.len()
            invariant
                i <= self.dependency_tla_files.len(),
                saved_texts(out@) == saved_modules(self.dependency_tla_files@.take(i as int)),
            decreases self.dependency_tla_files.len() - i,
        {
            let f = &self.dependency_tla_files[i];
            let ghost before = saved_texts(out@);
            let name = f.name().to_owned();
            let content = f.file_contents_backing().to_owned();
            out.push(SavedFile { name, content });
            proof {
                let files = self.dependency_tla_files@;
                assert(saved_texts(out@) =~= before.push((f.file_name(), f.content())));
                assert(files.take(i + 1) =~= files.take(i as int).push(files[i as int]));
                assert(saved_modules(files.take(i + 1)) =~= saved_modules(
                    files.take(i as int),
                ).push((f.file_name(), f.content())));
            }
            i += 1;
        }
        assert(self.dependency_tla_files@.take(self.dependency_tla_files@.len() as int)
            == self.dependency_tla_files@);
        let ghost modules = saved_texts(out@);
        out.push(
            SavedFile {
                name: self.tla_file.name().to_owned(),
                content: self.tla_file.file_contents_backing().to_owned(),
            },
        );
        if self.tla_config_file.content().unicode_len() != 0 {
            out.push(
                SavedFile {
                    name: self.tla_config_file.path().clone(),
                    content: self.tla_config_file.content().to_owned(),
                },
            );
        }
        assert(saved_texts(out@) =~= modules.push(
            (self.tla_file.file_name(), self.tla_file.content()),
        ) + if self.tla_config_file.spec_content().len() == 0 {
            Seq::<(Seq<char>, Seq<char>)>::empty()
        } else {
            seq![(self.tla_config_file.spec_path(), self.tla_config_file.spec_content())]
        });
        out
    }
}

/// Whether `files` holds the files of the modules that a module with the
/// text `main` needs, each once and in the order of the files' names, and
/// no other file.
pub open spec fn is_closure(main: Seq<char>, library: Seq<TlaFile>, files: Seq<TlaFile>) -> bool {
    &&& forall|name: Seq<char>| #[trigger]
        needed(main, library, name) ==> has_file(library, name) && holds_module(files, name)
    &&& forall|i: int| 0 <= i < files.len() ==> is_needed_file(main, library, #[trigger] files[i])
    &&& ascending(file_names(files))
}

/// There is one list only of the files that a module needs: two lists
/// that both are one hold the same files in the same order.
pub proof fn lemma_closure_unique(
    main: Seq<char>,
    library: Seq<TlaFile>,
    a: Seq<TlaFile>,
    b: Seq<TlaFile>,
)
    requires
        is_closure(main, library, a),
        is_closure(main, library, b),
    ensures
        a.len() == b.len(),
        forall|i: int| 0 <= i < a.len() ==> same_file(#[trigger] a[i], b[i]),
{
    let na = file_names(a);
    let nb = file_names(b);
    assert forall|v: Seq<char>| na.contains(v) ==> nb.contains(v) by {
        if na.contains(v) {
            let i = choose|i: int| 0 <= i < na.len() && na[i] == v;
            lemma_closure_member(main, library, a, b, i);
            let j = choose|j: int| 0 <= j < b.len() && (#[trigger] b[j]).file_name() == a[i].file_name();
            assert(nb[j] == v);
        }
    }
    assert forall|v: Seq<char>| nb.contains(v) ==> na.contains(v) by {
        if nb.contains(v) {
            let i = choose|i: int| 0 <= i < nb.len() && nb[i] == v;
            lemma_closure_member(main, library, b, a, i);
            let j = choose|j: int| 0 <= j < a.len() && (#[trigger] a[j]).file_name() == b[i].file_name();
            assert(na[j] == v);
        }
    }
    assert(na.to_set() =~= nb.to_set());
    lemma_ascending_unique(na, nb);
    assert(a.len() == na.len());
    assert(b.len() == nb.len());
    assert forall|i: int| 0 <= i < a.len() implies same_file(#[trigger] a[i], b[i]) by {
        assert(na[i] == a[i].file_name());
        assert(nb[i] == b[i].file_name());
        assert(is_needed_file(main, library, a[i]));
        assert(is_needed_file(main, library, b[i]));
        let x = choose|x: int| needed_at(main, library, x) && same_file(a[i], library[x]);
        let y = choose|y: int| needed_at(main, library, y) && same_file(b[i], library[y]);
        let nx = choose|name: Seq<char>| needed(main, library, name) && is_file_of(library, name, x);
        let ny = choose|name: Seq<char>| needed(main, library, name) && is_file_of(library, name, y);
        assert(file_name_of(nx) == file_name_of(ny));
        if x < y {
            assert(library[x].file_name() != file_name_of(ny));
        } else if y < x {
            assert(library[y].file_name() != file_name_of(nx));
        }
    }
}

/// Each file of one list of the files that a module needs has its name
/// in every other.
proof fn lemma_closure_member(
    main: Seq<char>,
    library: Seq<TlaFile>,
    a: Seq<TlaFile>,
    b: Seq<TlaFile>,
    i: int,
)
    requires
        is_closure(main, library, a),
        is_closure(main, library, b),
        0 <= i < a.len(),
    ensures
        exists|j: int| 0 <= j < b.len() && (#[trigger] b[j]).file_name() == a[i].file_name(),
{
    assert(is_needed_file(main, library, a[i]));
    let x = choose|x: int| needed_at(main, library, x) && same_file(a[i], library[x]);
    let name = choose|name: Seq<char>| needed(main, library, name) && is_file_of(library, name, x);
    assert(holds_module(b, name));
}

/// Whether `e` names the file of a module that a module with the text
/// `main` needs and that `library` lacks.
pub open spec fn is_missing(main: Seq<char>, library: Seq<TlaFile>, e: Error) -> bool {
    exists|name: Seq<char>|
        {
            &&& needed(main, library, name)
            &&& !has_file(library, name)
            &&& e matches Error::FileNotFound(p)
            &&& p@ == file_name_of(name)
        }
}

} // verus!
