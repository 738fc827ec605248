//! The text of the files that are written: one for each module in which a
//! reference was redirected, one for the shared declarations, and an index
//! of all modules.

use crate::text::{same_text, texts};
use vstd::prelude::*;
use vstd::string::StringExecFns;

verus! {

/// What the file of shared declarations begins with.
pub const COMMON_TYPES_FILE_PREAMBLE: &'static str = "#[allow(unused_imports)]
mod prelude {
    pub use k8s_openapi::apimachinery::pkg::apis::meta::v1::Condition;
    pub use kube::CustomResource;
    pub use schemars::JsonSchema;
    pub use serde::{Deserialize, Serialize};
    pub use std::collections::BTreeMap;
}
use self::prelude::*;";

/// What brings the shared declarations into a module.
pub const COMMON_TYPES_USE_PREAMBLE: &'static str = "use super::common_types::*;\n\n";

/// What every written module begins with.
pub const GENERATED_PREAMBLE: &'static str = "// WARNING! generated file do not edit\n\n";

/// The name of the index file.
pub const INDEX_FILE: &'static str = "mod.rs";

/// The name of the file of shared declarations.
pub const COMMON_TYPES_FILE: &'static str = "common_types.rs";

/// The suffix of a module's file.
pub const MODULE_SUFFIX: &'static str = ".rs";

/// Whether a file of this name holds a module to read: it ends in the
/// suffix of modules and is not the index.
pub open spec fn is_module_name(name: Seq<char>) -> bool {
    &&& name.len() >= 3
    &&& name.subrange(name.len() - 3, name.len() as int) == MODULE_SUFFIX@
    &&& name != INDEX_FILE@
}

/// A file's name without the three characters of its suffix.
pub open spec fn stem(name: Seq<char>) -> Seq<char> {
    if name.len() >= 3 {
        name.subrange(0, name.len() - 3)
    } else {
        Seq::empty()
    }
}

/// The index's line for a module.
pub open spec fn index_line(name: Seq<char>) -> Seq<char> {
    "pub mod "@ + stem(name) + ";\n"@
}

/// The index's lines for the first `upto` modules.
pub open spec fn index_lines(names: Seq<Seq<char>>, upto: int) -> Seq<char>
    decreases upto,
{
    if upto <= 0 {
        Seq::empty()
    } else {
        index_lines(names, upto - 1) + index_line(names[upto - 1])
    }
}

/// The index: the shared declarations and every module, changed or not.
pub open spec fn index_of(names: Seq<Seq<char>>) -> Seq<char> {
    GENERATED_PREAMBLE@ + "pub mod common_types;\n\n"@ + index_lines(names, names.len() as int)
}

/// The text of a module's file, given the module as it is printed.
pub open spec fn module_file(content: Seq<char>) -> Seq<char> {
    GENERATED_PREAMBLE@ + COMMON_TYPES_USE_PREAMBLE@ + content
}

/// The text of the file of shared declarations, given them as printed.
pub open spec fn shared_file(content: Seq<char>) -> Seq<char> {
    COMMON_TYPES_FILE_PREAMBLE@ + "\n\n\n"@ + content
}

/// The file names of modules as they go out. Such a module is given by its
/// file's name, by the module as it is printed, and by whether a reference
/// in it was redirected.
pub open spec fn names_of(modules: Seq<(String, String, bool)>) -> Seq<Seq<char>> {
    modules.map_values(|m: (String, String, bool)| m.0@)
}

/// The files of the first `upto` modules: a file for each module in which a
/// reference was redirected, and none for the others.
pub open spec fn module_files(modules: Seq<(String, String, bool)>, upto: int) -> Seq<
    (Seq<char>, Seq<char>),
>
    decreases upto,
{
    if upto <= 0 {
        Seq::empty()
    } else if modules[upto - 1].2 {
        module_files(modules, upto - 1).push(
            (modules[upto - 1].0@, module_file(modules[upto - 1].1@)),
        )
    } else {
        module_files(modules, upto - 1)
    }
}

/// All files to write, each with its name and its text: the index, the
/// modules' files, and the shared declarations.
pub open spec fn emitted(modules: Seq<(String, String, bool)>, shared: Seq<char>) -> Seq<
    (Seq<char>, Seq<char>),
> {
    seq![(INDEX_FILE@, index_of(names_of(modules)))] + module_files(
        modules,
        modules.len() as int,
    ) + seq![(COMMON_TYPES_FILE@, shared_file(shared))]
}

/// Whether a file of this name holds a module to read.
pub fn is_module_file(name: &str) -> (r: bool)
    ensures
        r == is_module_name(name@),
{
    let n: usize = name.unicode_len();
    n >= 3 && same_text(name.substring_char(n - 3, n), MODULE_SUFFIX) && !same_text(
        name,
        INDEX_FILE,
    )
}

/// The text of the index for the modules with the given file names.
pub fn index_text(names: &Vec<String>) -> (r: String)
    ensures
        r@ == index_of(texts(names@)),
{
    let mut text = String::from_str(GENERATED_PREAMBLE);
    text.append("pub mod common_types;\n\n");
    let ghost head = text@;
    let mut i: usize = 0;
    assert(text@ =~= head + index_lines(texts(names@), 0));
    while i < names.len()
        invariant
            i <= names.len(),
            head == GENERATED_PREAMBLE@ + "pub mod common_types;\n\n"@,
            text@ == head + index_lines(texts(names@), i as int),
        decreases names.len() - i,
    {
        let name = names[i].as_str();
        assert(texts(names@)[i as int] == name@);
        let n: usize = name.unicode_len();
        let ghost before = text@;
        text.append("pub mod ");
        if n >= 3 {
            text.append(name.substring_char(0, n - 3));
        }
        text.append(";\n");
        assert(text@ =~= before + index_line(name@));
        assert(text@ =~= head + index_lines(texts(names@), i + 1));
        i += 1;
    }
    text
}

/// The text of a module's file.
pub fn module_text(content: &str) -> (r: String)
    ensures
        r@ == module_file(content@),
{
    let mut text = String::from_str(GENERATED_PREAMBLE);
    text.append(COMMON_TYPES_USE_PREAMBLE);
    text.append(content);
    text
}

/// The text of the file of shared declarations.
pub fn shared_text(content: &str) -> (r: String)
    ensures
        r@ == shared_file(content@),
{
    let mut text = String::from_str(COMMON_TYPES_FILE_PREAMBLE);
    text.append("\n\n\n");
    text.append(content);
    text
}

/// The files to write, in the order in which they are written.
pub fn emit(modules: &Vec<(String, String, bool)>, shared: &str) -> (r: Vec<(String, String)>)
    ensures
        crate::syntax::views(r@) == emitted(modules@, shared@),
{
    let mut names: Vec<String> = Vec::new();
    let mut i: usize = 0;
    while i < modules.len()
        invariant
            i <= modules.len(),
            names@.len() == i,
            forall|j: int| 0 <= j < i ==> (#[trigger] names@[j])@ == modules@[j].0@,
        decreases modules.len() - i,
    {
        names.push(modules[i].0.clone());
        i += 1;
    }
    assert(texts(names@) =~= names_of(modules@));
    let mut files: Vec<(String, String)> = Vec::new();
    files.push((String::from_str(INDEX_FILE), index_text(&names)));
    let ghost first = crate::syntax::views(files@);
    assert(first =~= seq![(INDEX_FILE@, index_of(names_of(modules@)))]);
    let mut k: usize = 0;
    assert(crate::syntax::views(files@) =~= first + module_files(modules@, 0));
    while k < modules.len()
        invariant
            k <= modules.len(),
            crate::syntax::views(files@) == first + module_files(modules@, k as int),
        decreases modules.len() - k,
    {
        if modules[k].2 {
            let ghost before = crate::syntax::views(files@);
            files.push((modules[k].0.clone(), module_text(modules[k].1.as_str())));
            assert(crate::syntax::views(files@) =~= before.push(
                (modules@[k as int].0@, module_file(modules@[k as int].1@)),
            ));
            assert(crate::syntax::views(files@) =~= first + module_files(modules@, k + 1));
        }
        k += 1;
    }
    let ghost before = crate::syntax::views(files@);
    files.push((String::from_str(COMMON_TYPES_FILE), shared_text(shared)));
    assert(crate::syntax::views(files@) =~= before + seq![
        (COMMON_TYPES_FILE@, shared_file(shared@)),
    ]);
    files
}

/// The text of a file of lines: each line, closed by a line feed.
pub open spec fn text_of_lines(lines: Seq<Seq<char>>, upto: int) -> Seq<char>
    decreases upto,
{
    if upto <= 0 {
        Seq::empty()
    } else {
        text_of_lines(lines, upto - 1) + lines[upto - 1] + "\n"@
    }
}

/// Joins lines into the text of a file.
pub fn lines_text(lines: &Vec<String>) -> (r: String)
    ensures
        r@ == text_of_lines(texts(lines@), lines@.len() as int),
{
    let mut text = String::new();
    let mut i: usize = 0;
    while i < lines.len()
        invariant
            i <= lines.len(),
            text@ == text_of_lines(texts(lines@), i as int),
        decreases lines.len() - i,
    {
        assert(texts(lines@)[i as int] == lines@[i as int]@);
        text.append(lines[i].as_str());
        text.append("\n");
        i += 1;
    }
    text
}

} // verus!
