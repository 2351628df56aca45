//! The artifacts that the library works with.

use vstd::prelude::*;
use crate::text::{chars_of, string_of, strip_ends, strip_ends_len, strs};

verus! {

/// Artifact representing the variables of a TLA+ model, each named once, in
/// the order in which they were given.
#[derive(Debug, Clone, PartialEq, Eq)]
pub struct TlaVariables {
    vars: Vec<String>,
}

impl View for TlaVariables {
    type V = Seq<Seq<char>>;

    closed spec fn view(&self) -> Seq<Seq<char>> {
        strs(self.vars@)
    }
}

impl TlaVariables {
    /// Whether no variable is named twice.
    pub open spec fn wf(&self) -> bool {
        self@.no_duplicates()
    }

    /// The variables of `vars`, each once: a name that occurs again is left
    /// out where it occurs again.
    pub fn new(vars: Vec<String>) -> (out: Self)
        ensures
            out.wf(),
            out@ == first_occurrences(strs(vars@)),
    {
        let mut kept: Vec<String> = Vec::new();
        let mut i: usize = 0;
        assert(strs(vars@).take(0) =~= Seq::<Seq<char>>::empty());
        assert(strs(kept@) =~= Seq::<Seq<char>>::empty());
        while i < vars.len()
            invariant
                i <= vars.len(),
                strs(kept@) == first_occurrences(strs(vars@).take(i as int)),
                strs(kept@).no_duplicates(),
            decreases vars.len() - i,
        {
            let ghost before = strs(kept@);
            proof {
                assert(strs(vars@).take(i + 1).drop_last() == strs(vars@).take(i as int));
                assert(strs(vars@).take(i + 1).last() == vars@[i as int]@);
            }
            if !holds_text(&kept, &vars[i]) {
                kept.push(vars[i].clone());
                assert(strs(kept@) =~= before.push(vars@[i as int]@));
            }
            i += 1;
        }
        assert(strs(vars@).take(vars@.len() as int) == strs(vars@));
        TlaVariables { vars: kept }
    }

    /// Returns the TLA+ variables.
    pub fn vars(&self) -> (out: &Vec<String>)
        ensures
            strs(out@) == self@,
    {
        &self.vars
    }
}

/// Artifact representing a TLA+ file: where it lies, and what it holds.
#[derive(Debug, Clone, PartialEq, Eq)]
pub struct TlaFile {
    path: String,
    dir: String,
    file_name: String,
    content: String,
}

impl TlaFile {
    /// A TLA+ file that lies at `path`, which names the file `file_name`
    /// in the directory `dir`, and holds `content`.
    pub fn new(path: String, dir: String, file_name: String, content: String) -> (out: Self)
        ensures
            out.spec_path() == path@,
            out.spec_dir() == dir@,
            out.file_name() == file_name@,
            out.content() == content@,
    {
        TlaFile { path, dir, file_name, content }
    }

    /// The path of the file.
    pub closed spec fn spec_path(&self) -> Seq<char> {
        self.path@
    }

    /// The directory in which the file lies.
    pub closed spec fn spec_dir(&self) -> Seq<char> {
        self.dir@
    }

    /// The name of the file within its directory.
    pub closed spec fn file_name(&self) -> Seq<char> {
        self.file_name@
    }

    /// The text of the file.
    pub closed spec fn content(&self) -> Seq<char> {
        self.content@
    }

    /// The name of the module that the file holds: the name of the file
    /// without the `.tla` that it ends with.
    pub open spec fn module_name(&self) -> Seq<char> {
        strip_ends(self.file_name(), ".tla"@)
    }

    /// Returns the path to the TLA+ file.
    pub fn path(&self) -> (out: &String)
        ensures
            out@ == self.spec_path(),
    {
        &self.path
    }

    /// Returns the path to the directory where the TLA+ file is.
    pub fn dir(&self) -> (out: String)
        ensures
            out@ == self.spec_dir(),
    {
        self.dir.clone()
    }

    /// Returns the text of the TLA+ file.
    pub fn file_contents_backing(&self) -> (out: &str)
        ensures
            out@ == self.content(),
    {
        self.content.as_str()
    }

    /// A copy of the file.
    pub fn duplicate(&self) -> (out: Self)
        ensures
            out.spec_path() == self.spec_path(),
            out.spec_dir() == self.spec_dir(),
            out.file_name() == self.file_name(),
            out.content() == self.content(),
    {
        TlaFile {
            path: self.path.clone(),
            dir: self.dir.clone(),
            file_name: self.file_name.clone(),
            content: self.content.clone(),
        }
    }

    /// Returns the name of the file within its directory.
    pub fn name(&self) -> (out: &str)
        ensures
            out@ == self.file_name(),
    {
        self.file_name.as_str()
    }

    /// Infer the TLA+ module name. We assume that the module name matches
    /// the name of the file.
    pub fn tla_module_name(&self) -> (out: String)
        ensures
            out@ == self.module_name(),
    {
        let name = chars_of(self.file_name.as_str());
        let ending = chars_of(".tla");
        let n = strip_ends_len(&name, &ending);
        assert(name@.subrange(0, n as int) == name@.take(n as int));
        string_of(&name, 0, n)
    }
}

/// Artifact representing a TLA+ configuration file: where it lies, and
/// what it holds.
#[derive(Debug, Clone, PartialEq, Eq)]
pub struct TlaConfigFile {
    path: String,
    content: String,
}

impl TlaConfigFile {
    /// A configuration file that lies at `path` and holds `content`.
    pub fn new(path: String, content: String) -> (out: Self)
        ensures
            out.spec_path() == path@,
            out.spec_content() == content@,
    {
        TlaConfigFile { path, content }
    }

    /// The path of the file.
    pub closed spec fn spec_path(&self) -> Seq<char> {
        self.path@
    }

    /// The text of the file.
    pub closed spec fn spec_content(&self) -> Seq<char> {
        self.content@
    }

    /// Returns the path to the configuration file.
    pub fn path(&self) -> (out: &String)
        ensures
            out@ == self.spec_path(),
    {
        &self.path
    }

    /// Returns the text of the configuration file.
    pub fn content(&self) -> (out: &str)
        ensures
            out@ == self.spec_content(),
    {
        self.content.as_str()
    }

    /// Sets the path of the configuration file.
    pub fn set_path(&mut self, path: String)
        ensures
            final(self).spec_path() == path@,
            final(self).spec_content() == old(self).spec_content(),
    {
        self.path = path;
    }
}

/// The texts of `s`, each once, in the order in which they first occur.
pub open spec fn first_occurrences(s: Seq<Seq<char>>) -> Seq<Seq<char>>
    decreases s.len(),
{
    if s.len() == 0 {
        Seq::empty()
    } else {
        let before = first_occurrences(s.drop_last());
        if before.contains(s.last()) {
            before
        } else {
            before.push(s.last())
        }
    }
}

/// Whether `v` holds a string with the text of `x`.
pub fn holds_text(v: &Vec<String>, x: &String) -> (b: bool)
    ensures
        b == strs(v@).contains(x@),
{
    let mut i: usize = 0;
    while i < v.len()
        invariant
            i <= v.len(),
            forall|j: int| 0 <= j < i ==> strs(v@)[j] != x@,
        decreases v.len() - i,
    {
        if v[i] == *x {
            assert(strs(v@)[i as int] == x@);
            return true;
        }
        i += 1;
    }
    false
}

} // verus!
