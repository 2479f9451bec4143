use regex::Regex;
use vstd::prelude::*;
use vstd::string::*;

verus! {

#[verifier::external_type_specification]
#[verifier::external_body]
pub struct ExRegex(regex::Regex);

#[verifier::external_type_specification]
#[verifier::external_body]
pub struct ExRegexError(regex::Error);

/// Whether the regex crate accepts `pattern` with its default limits.
pub uninterp spec fn regex_compiles(pattern: Seq<char>) -> bool;

/// Whether `pattern` matches somewhere in `haystack`.
pub uninterp spec fn regex_finds(pattern: Seq<char>, haystack: Seq<char>) -> bool;

/// Relies on `regex::Regex::new`: whether it succeeds depends on the pattern alone.
#[verifier::external_body]
fn compile(pattern: &str) -> (r: Result<Regex, regex::Error>)
    ensures
        r is Ok <==> regex_compiles(pattern@),
{
    Regex::new(pattern)
}

/// A `--name` pattern and the regex compiled from it.
#[derive(Debug)]
pub struct NamePattern {
    pattern: String,
    re: Regex,
}

impl View for NamePattern {
    type V = Seq<char>;

    closed spec fn view(&self) -> Seq<char> {
        self.pattern@
    }
}

/// Relies on `regex::Regex::is_match`, on a regex that `NamePattern::new`
/// compiled from `p`'s pattern (the only way to build a `NamePattern`).
#[verifier::external_body]
fn is_match(p: &NamePattern, haystack: &str) -> (r: bool)
    ensures
        r == regex_finds(p@, haystack@),
{
    p.re.is_match(haystack)
}

/// The message for a pattern that does not compile.
pub open spec fn invalid_name_message(pattern: Seq<char>) -> Seq<char> {
    "Invalid --name \""@ + pattern + "\""@
}

impl NamePattern {
    /// Compiles a `--name` pattern.
    pub fn new(pattern: &str) -> (r: Result<NamePattern, String>)
        ensures
            r is Ok <==> regex_compiles(pattern@),
            r is Ok ==> r->Ok_0@ == pattern@,
            r is Err ==> r->Err_0@ == invalid_name_message(pattern@),
    {
        match compile(pattern) {
            Ok(re) => Ok(NamePattern { pattern: String::from_str(pattern), re }),
            Err(_) => {
                let mut m = String::from_str("Invalid --name \"");
                m.append(pattern);
                m.append("\"");
                Err(m)
            },
        }
    }
}

/// The kinds of entry that `--type` selects.
#[derive(PartialEq, Eq, Structural, Clone, Copy, Debug)]
pub enum EntryType {
    Dir,
    File,
    Link,
}

/// Reads a `--type` value: `d`, `f` or `l`.
pub fn parse_entry_type(s: &str) -> (r: Option<EntryType>)
    ensures
        s@ == seq!['d'] ==> r == Some(EntryType::Dir),
        s@ == seq!['f'] ==> r == Some(EntryType::File),
        s@ == seq!['l'] ==> r == Some(EntryType::Link),
        s@ != seq!['d'] && s@ != seq!['f'] && s@ != seq!['l'] ==> r is None,
{
    if s.unicode_len() != 1 {
        return None;
    }
    let c = s.get_char(0);
    assert(s@ =~= seq![c]);
    if c == 'd' {
        Some(EntryType::Dir)
    } else if c == 'f' {
        Some(EntryType::File)
    } else if c == 'l' {
        Some(EntryType::Link)
    } else {
        None
    }
}

/// What kind a directory entry is, as its file type says.
#[derive(Clone, Copy, Debug)]
pub struct EntryKind {
    pub is_dir: bool,
    pub is_file: bool,
    pub is_symlink: bool,
}

pub open spec fn type_fits(t: EntryType, k: EntryKind) -> bool {
    match t {
        EntryType::Dir => k.is_dir,
        EntryType::File => k.is_file,
        EntryType::Link => k.is_symlink,
    }
}

/// What to search and what to print.
#[derive(Debug)]
pub struct Config {
    pub paths: Vec<String>,
    pub names: Vec<NamePattern>,
    pub entry_types: Vec<EntryType>,
}

/// Whether an entry of kind `k` passes the `--type` filter: no types given, or one fits.
pub fn type_matches(types: &Vec<EntryType>, k: EntryKind) -> (r: bool)
    ensures
        r == (types.len() == 0 || exists|i: int| 0 <= i < types.len() && type_fits(#[trigger] types@[i], k)),
{
    if types.len() == 0 {
        return true;
    }
    let mut i: usize = 0;
    while i < types.len()
        invariant
            i <= types.len(),
            forall|m: int| 0 <= m < i ==> !type_fits(#[trigger] types@[m], k),
        decreases types.len() - i,
    {
        let fits = match types[i] {
            EntryType::Dir => k.is_dir,
            EntryType::File => k.is_file,
            EntryType::Link => k.is_symlink,
        };
        if fits {
            return true;
        }
        i += 1;
    }
    false
}

/// Whether a file name passes the `--name` filter: no patterns given, or one matches.
pub fn name_matches(names: &Vec<NamePattern>, name: &str) -> (r: bool)
    ensures
        r == (names.len() == 0 || exists|i: int| 0 <= i < names.len() && regex_finds(#[trigger] names@[i]@, name@)),
{
    if names.len() == 0 {
        return true;
    }
    let mut i: usize = 0;
    while i < names.len()
        invariant
            i <= names.len(),
            forall|m: int| 0 <= m < i ==> !regex_finds(#[trigger] names@[m]@, name@),
        decreases names.len() - i,
    {
        if is_match(&names[i], name) {
            return true;
        }
        i += 1;
    }
    false
}

/// Whether an entry is printed: it passes both filters.
pub fn is_selected(config: &Config, name: &str, k: EntryKind) -> (r: bool)
    ensures
        r == ((config.entry_types.len() == 0 || exists|i: int| 0 <= i < config.entry_types.len() && type_fits(#[trigger] config.entry_types@[i], k))
            && (config.names.len() == 0 || exists|i: int| 0 <= i < config.names.len() && regex_finds(#[trigger] config.names@[i]@, name@))),
{
    type_matches(&config.entry_types, k) && name_matches(&config.names, name)
}

} // verus!
