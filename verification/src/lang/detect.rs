//! Language detection by file extension, grouping of source files by
//! language, and the directories that source collection skips.

use vstd::prelude::*;

use crate::text::{chars_equal, chars_of};

verus! {

/// The position of the last `c` in `s`, or -1 when there is none.
pub open spec fn last_index_of(s: Seq<char>, c: char) -> int
    decreases s.len(),
{
    if s.len() == 0 {
        -1
    } else if s.last() == c {
        s.len() - 1
    } else {
        last_index_of(s.drop_last(), c)
    }
}

/// Where the last occurrence of a character stands.
pub proof fn lemma_last_index_of(s: Seq<char>, c: char)
    ensures
        -1 <= last_index_of(s, c) < s.len(),
        last_index_of(s, c) >= 0 ==> s[last_index_of(s, c)] == c,
        forall|i: int| last_index_of(s, c) < i < s.len() ==> s[i] != c,
    decreases s.len(),
{
    if s.len() > 0 && s.last() != c {
        lemma_last_index_of(s.drop_last(), c);
        assert forall|i: int| last_index_of(s, c) < i < s.len() implies s[i] != c by {
            if i < s.len() - 1 {
                assert(s.drop_last()[i] == s[i]);
            }
        }
    }
}

/// The final component of a path (as `Path::file_name` finds it on Unix):
/// trailing `/` and `.` components are passed over, and there is none when
/// the path ends in `..` or has no normal component.
pub open spec fn file_name_of(p: Seq<char>) -> Option<Seq<char>>
    decreases p.len(),
{
    if p.len() == 0 {
        None
    } else if p.last() == '/' {
        file_name_of(p.drop_last())
    } else {
        let k = last_index_of(p, '/');
        proof {
            lemma_last_index_of(p, '/');
        }
        let seg = p.subrange(k + 1, p.len() as int);
        if seg == seq!['.'] {
            file_name_of(p.subrange(0, k + 1))
        } else if seg == seq!['.', '.'] {
            None
        } else {
            Some(seg)
        }
    }
}

/// The extension of a file name: what follows its last `.`, unless there is
/// no `.` or the only one starts the name.
pub open spec fn name_extension(name: Seq<char>) -> Option<Seq<char>> {
    let d = last_index_of(name, '.');
    if d <= 0 {
        None
    } else {
        Some(name.subrange(d + 1, name.len() as int))
    }
}

/// The extension that `Path::extension` finds in a path (Unix separators).
pub open spec fn path_extension(path: Seq<char>) -> Option<Seq<char>> {
    match file_name_of(path) {
        Some(name) => name_extension(name),
        None => None,
    }
}

/// Calls `Path::extension` on the path and keeps it as text.
/// Trusted: as documented, the extension is the part of the file name after
/// its final `.`, and there is none without a file name, without a `.`, or
/// when the name's only `.` is its first character; the file name is the last
/// normal component, `.` components being normalized away. This is stated for
/// Unix targets, where `/` is the only separator.
#[verifier::external_body]
fn extension_of(path: &str) -> (r: Option<String>)
    ensures
        match r {
            Some(e) => path_extension(path@) == Some(e@),
            None => path_extension(path@) is None,
        },
{
    std::path::Path::new(path).extension().and_then(|e| e.to_str()).map(|e| e.to_string())
}

/// The languages with a built-in backend.
#[derive(Clone, Copy, Debug, PartialEq, Eq, Structural)]
pub enum Language {
    Rust,
    TypeScript,
    TypeScriptTsx,
    Python,
}

/// The name of a language's backend.
pub open spec fn language_name(l: Language) -> Seq<char> {
    match l {
        Language::Rust => "rust"@,
        Language::TypeScript => "typescript"@,
        Language::TypeScriptTsx => "typescript-tsx"@,
        Language::Python => "python"@,
    }
}

impl Language {
    /// The name of this language's backend.
    pub fn name(&self) -> (r: &'static str)
        ensures
            r@ == language_name(*self),
    {
        match self {
            Language::Rust => "rust",
            Language::TypeScript => "typescript",
            Language::TypeScriptTsx => "typescript-tsx",
            Language::Python => "python",
        }
    }
}

/// The language of files with extension `ext`, if a backend supports it.
pub open spec fn extension_language(ext: Seq<char>) -> Option<Language> {
    if ext == seq!['r', 's'] {
        Some(Language::Rust)
    } else if ext == seq!['t', 's'] {
        Some(Language::TypeScript)
    } else if ext == seq!['t', 's', 'x'] {
        Some(Language::TypeScriptTsx)
    } else if ext == seq!['p', 'y'] {
        Some(Language::Python)
    } else {
        None
    }
}

/// The language of the file at `path`, by its extension.
pub open spec fn path_language(path: Seq<char>) -> Option<Language> {
    match path_extension(path) {
        Some(e) => extension_language(e),
        None => None,
    }
}

/// The language of files with extension `ext`.
pub fn language_of_extension(ext: &str) -> (r: Option<Language>)
    ensures
        r == extension_language(ext@),
{
    let v = chars_of(ext);
    if chars_equal(v.as_slice(), &['r', 's']) {
        Some(Language::Rust)
    } else if chars_equal(v.as_slice(), &['t', 's']) {
        Some(Language::TypeScript)
    } else if chars_equal(v.as_slice(), &['t', 's', 'x']) {
        Some(Language::TypeScriptTsx)
    } else if chars_equal(v.as_slice(), &['p', 'y']) {
        Some(Language::Python)
    } else {
        None
    }
}

/// The language of the file at `path`.
pub fn language_of_path(path: &str) -> (r: Option<Language>)
    ensures
        r == path_language(path@),
{
    match extension_of(path) {
        Some(e) => language_of_extension(e.as_str()),
        None => None,
    }
}

/// Detect language from file extension: the backend's name, or `None` for an
/// unsupported file.
pub fn detect_language(path: &str) -> (r: Option<&'static str>)
    ensures
        match r {
            Some(name) => path_language(path@) matches Some(l) && name@ == language_name(l),
            None => path_language(path@) is None,
        },
{
    match language_of_path(path) {
        Some(l) => Some(l.name()),
        None => None,
    }
}

/// All file extensions supported by built-in backends.
pub fn supported_extensions() -> (r: &'static [&'static str])
    ensures
        r@.len() == 4,
        r@[0]@ == seq!['r', 's'],
        r@[1]@ == seq!['t', 's'],
        r@[2]@ == seq!['t', 's', 'x'],
        r@[3]@ == seq!['p', 'y'],
{
    let r: &'static [&'static str] = &["rs", "ts", "tsx", "py"];
    proof {
        reveal_strlit("rs");
        reveal_strlit("ts");
        reveal_strlit("tsx");
        reveal_strlit("py");
    }
    r
}

/// The supported extensions are exactly those that map to a language.
pub proof fn lemma_supported_extensions_complete(ext: Seq<char>)
    ensures
        extension_language(ext) is Some <==> (ext == seq!['r', 's'] || ext == seq!['t', 's']
            || ext == seq!['t', 's', 'x'] || ext == seq!['p', 'y']),
{
}

/// Whether a directory name is skipped during source collection: hidden
/// directories and vendored or generated trees.
pub open spec fn excluded_dir(name: Seq<char>) -> bool {
    (name.len() > 0 && name[0] == '.')
    || name == seq!['t', 'a', 'r', 'g', 'e', 't']
    || name == seq!['n', 'o', 'd', 'e', '_', 'm', 'o', 'd', 'u', 'l', 'e', 's']
    || name == seq!['_', '_', 'p', 'y', 'c', 'a', 'c', 'h', 'e', '_', '_']
    || name == seq!['v', 'e', 'n', 'v']
    || name == seq!['v', 'e', 'n', 'd', 'o', 'r']
}

/// Directories that must never be walked during source collection:
/// hidden directories (VCS, editor state) and vendored/generated trees
/// whose contents would pollute the graph with third-party symbols.
pub fn is_excluded_dir(dir_name: &str) -> (r: bool)
    ensures
        r == excluded_dir(dir_name@),
{
    let v = chars_of(dir_name);
    (v.len() > 0 && v[0] == '.')
        || chars_equal(v.as_slice(), &['t', 'a', 'r', 'g', 'e', 't'])
        || chars_equal(v.as_slice(), &['n', 'o', 'd', 'e', '_', 'm', 'o', 'd', 'u', 'l', 'e', 's'])
        || chars_equal(v.as_slice(), &['_', '_', 'p', 'y', 'c', 'a', 'c', 'h', 'e', '_', '_'])
        || chars_equal(v.as_slice(), &['v', 'e', 'n', 'v'])
        || chars_equal(v.as_slice(), &['v', 'e', 'n', 'd', 'o', 'r'])
}

/// A source file: its path and its contents.
pub type SourceFile = (String, Vec<u8>);

/// The path and bytes of a source file.
pub open spec fn source_view(f: SourceFile) -> (Seq<char>, Seq<u8>) {
    (f.0@, f.1@)
}

/// The files of `files` in language `l`, in order.
pub open spec fn files_in_language(files: Seq<SourceFile>, l: Language) -> Seq<(Seq<char>, Seq<u8>)>
    decreases files.len(),
{
    if files.len() == 0 {
        Seq::empty()
    } else {
        let rest = files_in_language(files.drop_last(), l);
        if path_language(files.last().0@) == Some(l) {
            rest.push(source_view(files.last()))
        } else {
            rest
        }
    }
}

/// The files of one language.
#[derive(Debug)]
pub struct LanguageGroup {
    pub language: Language,
    pub files: Vec<SourceFile>,
}

/// The paths and bytes of a list of source files.
pub open spec fn sources_view(v: Seq<SourceFile>) -> Seq<(Seq<char>, Seq<u8>)> {
    v.map_values(|f: SourceFile| source_view(f))
}

/// A copy of a byte vector.
pub fn copy_bytes(v: &Vec<u8>) -> (r: Vec<u8>)
    ensures
        r@ == v@,
{
    let mut r: Vec<u8> = Vec::new();
    let mut i: usize = 0;
    while i < v.len()
        invariant
            i <= v@.len(),
            r@ == v@.take(i as int),
        decreases v@.len() - i,
    {
        r.push(v[i]);
        assert(v@.take(i as int).push(v@[i as int]) =~= v@.take(i + 1));
        i = i + 1;
    }
    assert(v@.take(v@.len() as int) =~= v@);
    r
}

/// A copy of a source file.
pub fn copy_source(f: &SourceFile) -> (r: SourceFile)
    ensures
        source_view(r) == source_view(*f),
{
    (f.0.clone(), copy_bytes(&f.1))
}

proof fn lemma_files_in_language_empty(files: Seq<SourceFile>, l: Language)
    ensures
        files_in_language(files, l).len() == 0 <==>
            (forall|k: int| 0 <= k < files.len() ==> path_language((#[trigger] files[k]).0@) != Some(l)),
    decreases files.len(),
{
    if files.len() > 0 {
        lemma_files_in_language_empty(files.drop_last(), l);
        assert forall|k: int| 0 <= k < files.drop_last().len() implies files.drop_last()[k] == files[k] by {}
        if path_language(files.last().0@) != Some(l) {
            assert forall|k: int| 0 <= k < files.len() && path_language((#[trigger] files[k]).0@) == Some(l)
                implies k < files.len() - 1 by {}
        }
    }
}

/// The files in language `l`.
fn filter_language(files: &[SourceFile], l: Language) -> (r: Vec<SourceFile>)
    ensures
        sources_view(r@) == files_in_language(files@, l),
{
    let mut r: Vec<SourceFile> = Vec::new();
    let mut i: usize = 0;
    while i < files.len()
        invariant
            i <= files@.len(),
            sources_view(r@) == files_in_language(files@.take(i as int), l),
        decreases files@.len() - i,
    {
        assert(files@.take(i + 1).drop_last() =~= files@.take(i as int));
        assert(files@.take(i + 1).last() == files@[i as int]);
        if language_of_path(files[i].0.as_str()) == Some(l) {
            let ghost before = r@;
            r.push(copy_source(&files[i]));
            assert(sources_view(r@) =~= sources_view(before).push(source_view(files@[i as int])));
        }
        i = i + 1;
    }
    assert(files@.take(files@.len() as int) =~= files@);
    r
}

fn contains_language(langs: &Vec<Language>, l: Language) -> (r: bool)
    ensures
        r == langs@.contains(l),
{
    let mut g: usize = 0;
    while g < langs.len()
        invariant
            g <= langs@.len(),
            forall|a: int| 0 <= a < g ==> langs@[a] != l,
        decreases langs@.len() - g,
    {
        if langs[g] == l {
            return true;
        }
        g = g + 1;
    }
    false
}

proof fn lemma_files_in_language_grows(files: Seq<SourceFile>, i: int, m: Language)
    requires
        0 <= i < files.len(),
    ensures
        files_in_language(files.take(i + 1), m).len() >= files_in_language(files.take(i), m).len(),
        path_language(files[i].0@) == Some(m) ==> files_in_language(files.take(i + 1), m).len() > 0,
{
    assert(files.take(i + 1).drop_last() =~= files.take(i));
    assert(files.take(i + 1).last() == files[i]);
}

/// The languages that occur among `files`, each once, in order of first occurrence.
fn languages_in_order(files: &[SourceFile]) -> (langs: Vec<Language>)
    ensures
        forall|a: int, b: int| 0 <= a < b < langs@.len() ==> langs@[a] != langs@[b],
        forall|a: int| 0 <= a < langs@.len() ==> files_in_language(files@, #[trigger] langs@[a]).len() > 0,
        forall|k: int| 0 <= k < files@.len() && (#[trigger] path_language(files@[k].0@)) is Some
            ==> langs@.contains(path_language(files@[k].0@).unwrap()),
{
    let mut langs: Vec<Language> = Vec::new();
    let mut i: usize = 0;
    while i < files.len()
        invariant
            i <= files@.len(),
            forall|a: int, b: int| 0 <= a < b < langs@.len() ==> langs@[a] != langs@[b],
            forall|a: int| 0 <= a < langs@.len() ==> files_in_language(files@.take(i as int), #[trigger] langs@[a]).len() > 0,
            forall|k: int| 0 <= k < i && (#[trigger] path_language(files@[k].0@)) is Some
                ==> langs@.contains(path_language(files@[k].0@).unwrap()),
        decreases files@.len() - i,
    {
        let ghost before = langs@;
        if let Some(l) = language_of_path(files[i].0.as_str()) {
            if !contains_language(&langs, l) {
                langs.push(l);
                proof {
                    assert forall|k: int| 0 <= k < i && (#[trigger] path_language(files@[k].0@)) is Some
                        implies langs@.contains(path_language(files@[k].0@).unwrap()) by {
                        let m = path_language(files@[k].0@).unwrap();
                        let a = choose|a: int| 0 <= a < before.len() && before[a] == m;
                        assert(langs@[a] == m);
                    }
                    assert(langs@[langs@.len() - 1] == l);
                }
            }
        }
        proof {
            assert forall|a: int| 0 <= a < langs@.len() implies files_in_language(files@.take(i + 1), #[trigger] langs@[a]).len() > 0 by {
                lemma_files_in_language_grows(files@, i as int, langs@[a]);
            }
        }
        i = i + 1;
    }
    assert(files@.take(files@.len() as int) =~= files@);
    langs
}

/// Group files by detected language: one group per language that occurs,
/// each keeping its files in input order. Unsupported files are dropped.
pub fn group_by_language(files: &[SourceFile]) -> (groups: Vec<LanguageGroup>)
    ensures
        forall|i: int, j: int| 0 <= i < j < groups@.len() ==> groups@[i].language != groups@[j].language,
        forall|i: int| 0 <= i < groups@.len() ==> {
            &&& sources_view((#[trigger] groups@[i]).files@) == files_in_language(files@, groups@[i].language)
            &&& groups@[i].files@.len() > 0
        },
        forall|l: Language| files_in_language(files@, l).len() > 0
            ==> exists|i: int| 0 <= i < groups@.len() && (#[trigger] groups@[i]).language == l,
{
    let langs = languages_in_order(files);
    let mut groups: Vec<LanguageGroup> = Vec::new();
    let mut g: usize = 0;
    while g < langs.len()
        invariant
            g <= langs@.len(),
            forall|a: int, b: int| 0 <= a < b < langs@.len() ==> langs@[a] != langs@[b],
            forall|a: int| 0 <= a < langs@.len() ==> files_in_language(files@, #[trigger] langs@[a]).len() > 0,
            groups@.len() == g,
            forall|a: int| 0 <= a < g ==> (#[trigger] groups@[a]).language == langs@[a],
            forall|a: int| 0 <= a < g ==> sources_view((#[trigger] groups@[a]).files@) == files_in_language(files@, langs@[a]),
        decreases langs@.len() - g,
    {
        let l = langs[g];
        let fs = filter_language(files, l);
        groups.push(LanguageGroup { language: l, files: fs });
        g = g + 1;
    }
    proof {
        assert forall|a: int| 0 <= a < groups@.len() implies (#[trigger] groups@[a]).files@.len() > 0 by {
            assert(files_in_language(files@, langs@[a]).len() > 0);
            assert(sources_view(groups@[a].files@).len() == groups@[a].files@.len());
        }
        assert forall|l: Language| files_in_language(files@, l).len() > 0
            implies exists|a: int| 0 <= a < groups@.len() && (#[trigger] groups@[a]).language == l by {
            lemma_files_in_language_empty(files@, l);
            let k = choose|k: int| 0 <= k < files@.len() && path_language((#[trigger] files@[k]).0@) == Some(l);
            assert(langs@.contains(path_language(files@[k].0@).unwrap()));
            let a = choose|a: int| 0 <= a < langs@.len() && langs@[a] == l;
            assert(groups@[a].language == l);
        }
    }
    groups
}

} // verus!
