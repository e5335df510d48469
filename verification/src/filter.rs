//! Deciding which filesystem entries are candidates for review.
//!
//! An entry is a candidate when it is a file, no component of its path is
//! hidden, its path ends with one of the configured extension suffixes,
//! and, if a filter pattern is configured, the path contains a match of
//! that pattern.

use vstd::prelude::*;

use crate::config::ConfigError;
use crate::text::split_on;
use crate::text::split_string;

verus! {

/// A name starting with `.` and longer than one character: dotfiles and
/// dotdirs are hidden, the single `.` of the current directory is not.
pub open spec fn hidden_name(name: Seq<char>) -> bool {
    name.len() > 1 && name[0] == '.'
}

/// Whether `file_name` is a hidden entry. The current directory's name
/// `.` is never hidden.
pub fn is_hidden(file_name: &str) -> (r: bool)
    ensures
        r == hidden_name(file_name@),
{
    let n: usize = file_name.unicode_len();
    if n <= 1 {
        false
    } else {
        file_name.get_char(0) == '.'
    }
}

/// Some `/`-separated component of the path is hidden; such paths lie in a
/// pruned subtree and are never candidates.
pub open spec fn has_hidden_component(path: Seq<char>) -> bool {
    exists|i: int|
        0 <= i < split_on(path, '/').len() && hidden_name(#[trigger] split_on(path, '/')[i])
}

/// Whether any component of the path is hidden.
pub fn path_has_hidden_component(path: &str) -> (r: bool)
    ensures
        r == has_hidden_component(path@),
{
    let parts = split_string(path, '/');
    let n: usize = parts.len();
    let mut i: usize = 0;
    while i < n
        invariant
            n == parts@.len(),
            parts.deep_view() == split_on(path@, '/'),
            i <= n,
            forall|j: int| 0 <= j < i ==> !hidden_name(#[trigger] parts.deep_view()[j]),
        decreases n - i,
    {
        if is_hidden(parts[i].as_str()) {
            proof {
                assert(hidden_name(split_on(path@, '/')[i as int]));
            }
            return true;
        }
        i = i + 1;
    }
    proof {
        if has_hidden_component(path@) {
            let j = choose|j: int|
                0 <= j < split_on(path@, '/').len() && hidden_name(split_on(path@, '/')[j]);
            assert(!hidden_name(parts.deep_view()[j]));
        }
    }
    false
}

/// `suffix` is the tail of `s`.
pub open spec fn has_suffix(s: Seq<char>, suffix: Seq<char>) -> bool {
    suffix.len() <= s.len() && s.subrange(s.len() - suffix.len(), s.len() as int) == suffix
}

/// Whether `s` ends with `suffix`, compared character by character.
pub fn ends_with_suffix(s: &str, suffix: &str) -> (r: bool)
    ensures
        r == has_suffix(s@, suffix@),
{
    let n: usize = s.unicode_len();
    let m: usize = suffix.unicode_len();
    if m > n {
        return false;
    }
    let off: usize = n - m;
    let mut i: usize = 0;
    while i < m
        invariant
            n == s@.len(),
            m == suffix@.len(),
            m <= n,
            off == n - m,
            i <= m,
            forall|j: int| 0 <= j < i ==> s@[off + j] == suffix@[j],
        decreases m - i,
    {
        if s.get_char(off + i) != suffix.get_char(i) {
            proof {
                if has_suffix(s@, suffix@) {
                    assert(s@.subrange(n - m, n as int)[i as int] == suffix@[i as int]);
                }
            }
            return false;
        }
        i = i + 1;
    }
    proof {
        assert(s@.subrange(n - m, n as int) =~= suffix@);
    }
    true
}

/// Whether the text of pattern `p` is a valid regular expression.
pub uninterp spec fn pattern_ok(p: Seq<char>) -> bool;

/// Whether `text` contains a match of pattern `p`: an unanchored test,
/// a function of the pattern and the text alone.
pub uninterp spec fn pattern_matches(p: Seq<char>, text: Seq<char>) -> bool;

#[verifier::external_type_specification]
#[verifier::external_body]
pub struct ExRegex(regex::Regex);

/// A compiled filter pattern, remembering the pattern text it was built
/// from.
pub struct CompiledPattern {
    re: regex::Regex,
    pat: Ghost<Seq<char>>,
}

impl CompiledPattern {
    /// The pattern text this value was compiled from.
    pub closed spec fn pattern(self) -> Seq<char> {
        self.pat@
    }
}

/// Relies on `regex::Regex::new`: compilation succeeds or fails on the
/// pattern text alone, and never panics.
#[verifier::external_body]
fn regex_compile(p: &String) -> (r: Option<regex::Regex>)
    ensures
        r is Some <==> pattern_ok(p@),
{
    regex::Regex::new(p.as_str()).ok()
}

/// Compiles the pattern and remembers its text beside the compiled value.
fn compile_pattern(p: &String) -> (r: Option<CompiledPattern>)
    ensures
        r is Some <==> pattern_ok(p@),
        r matches Some(c) ==> c.pattern() == p@,
{
    match regex_compile(p) {
        Some(re) => Some(CompiledPattern { re, pat: Ghost(p@) }),
        None => None,
    }
}

/// Relies on `regex::Regex::is_match`: whether the haystack contains a
/// match is a function of the pattern's text and the haystack alone, and
/// `compile_pattern`, the one place a `CompiledPattern` is built, pairs
/// each compiled value with exactly the text it was compiled from.
#[verifier::external_body]
fn pattern_is_match(c: &CompiledPattern, text: &String) -> (r: bool)
    ensures
        r == pattern_matches(c.pattern(), text@),
{
    c.re.is_match(text.as_str())
}

/// The configured candidate test: extension suffixes, and an optional
/// pattern the whole path must contain a match of.
pub struct PathFilter {
    extensions: Vec<String>,
    pattern: Option<CompiledPattern>,
}

impl PathFilter {
    /// The configured extension suffixes.
    pub closed spec fn extensions_view(self) -> Seq<Seq<char>> {
        self.extensions.deep_view()
    }

    /// The configured filter pattern's text, if one is configured.
    pub closed spec fn pattern_view(self) -> Option<Seq<char>> {
        match self.pattern {
            Some(c) => Some(c.pattern()),
            None => None,
        }
    }

    /// Whether the filter accepts the entry: a file outside every hidden
    /// subtree whose path ends with a configured suffix and contains a
    /// match of the configured pattern, if any.
    pub open spec fn accepts(self, path: Seq<char>, is_dir: bool) -> bool {
        &&& !is_dir
        &&& !has_hidden_component(path)
        &&& exists|i: int|
            0 <= i < self.extensions_view().len() && has_suffix(
                path,
                #[trigger] self.extensions_view()[i],
            )
        &&& match self.pattern_view() {
            Some(p) => pattern_matches(p, path),
            None => true,
        }
    }

    /// Builds the filter. An invalid pattern is a fatal configuration
    /// error at startup, not a per-file condition.
    pub fn new(extensions: Vec<String>, pattern: Option<String>) -> (r: Result<
        PathFilter,
        ConfigError,
    >)
        ensures
            match pattern {
                Some(p) => {
                    &&& (r is Ok <==> pattern_ok(p@))
                    &&& (r is Err ==> r == Result::<PathFilter, ConfigError>::Err(
                        ConfigError::InvalidPattern,
                    ))
                    &&& (r matches Ok(f) ==> f.extensions_view() == extensions.deep_view()
                        && f.pattern_view() == Some(p@))
                },
                None => r matches Ok(f) && f.extensions_view() == extensions.deep_view()
                    && f.pattern_view() is None,
            },
    {
        match pattern {
            None => Ok(PathFilter { extensions, pattern: None }),
            Some(p) => {
                match compile_pattern(&p) {
                    Some(c) => Ok(PathFilter { extensions, pattern: Some(c) }),
                    None => Err(ConfigError::InvalidPattern),
                }
            },
        }
    }

    /// Whether the filter accepts this entry.
    pub fn accepts_path(&self, path: &String, is_dir: bool) -> (r: bool)
        ensures
            r == self.accepts(path@, is_dir),
    {
        if is_dir {
            return false;
        }
        if path_has_hidden_component(path.as_str()) {
            return false;
        }
        let n: usize = self.extensions.len();
        let mut i: usize = 0;
        let mut found = false;
        while i < n && !found
            invariant
                n == self.extensions@.len(),
                i <= n,
                found ==> exists|k: int|
                    0 <= k < self.extensions_view().len() && has_suffix(
                        path@,
                        #[trigger] self.extensions_view()[k],
                    ),
                !found ==> forall|j: int|
                    0 <= j < i ==> !has_suffix(path@, #[trigger] self.extensions_view()[j]),
            decreases n - i,
        {
            if ends_with_suffix(path.as_str(), self.extensions[i].as_str()) {
                proof {
                    assert(has_suffix(path@, self.extensions_view()[i as int]));
                }
                found = true;
            }
            i = i + 1;
        }
        if !found {
            proof {
                if exists|k: int|
                    0 <= k < self.extensions_view().len() && has_suffix(
                        path@,
                        #[trigger] self.extensions_view()[k],
                    ) {
                    let k = choose|k: int|
                        0 <= k < self.extensions_view().len() && has_suffix(
                            path@,
                            self.extensions_view()[k],
                        );
                    assert(!has_suffix(path@, self.extensions_view()[k]));
                }
            }
            return false;
        }
        match &self.pattern {
            Some(c) => pattern_is_match(c, path),
            None => true,
        }
    }
}

/// One entry handed back by the directory walk: its path relative to the
/// scan root, and whether it is a directory.
pub struct WalkEntry {
    pub path: String,
    pub is_dir: bool,
}

/// The paths of the entries the filter accepts, in walk order.
pub open spec fn selected_paths(entries: Seq<WalkEntry>, f: PathFilter) -> Seq<Seq<char>>
    decreases entries.len(),
{
    if entries.len() == 0 {
        Seq::<Seq<char>>::empty()
    } else {
        let rest = selected_paths(entries.drop_last(), f);
        if f.accepts(entries.last().path@, entries.last().is_dir) {
            rest.push(entries.last().path@)
        } else {
            rest
        }
    }
}

/// The candidate set: every walked entry the filter accepts. Entries the
/// walk could not classify are already absent from `entries`; skipping
/// them is the walk's concern, not the filter's.
pub fn select_candidates(entries: &Vec<WalkEntry>, f: &PathFilter) -> (out: Vec<String>)
    ensures
        out.deep_view() == selected_paths(entries@, *f),
{
    let n: usize = entries.len();
    let mut out: Vec<String> = Vec::new();
    let mut i: usize = 0;
    proof {
        assert(entries@.take(0) =~= Seq::<WalkEntry>::empty());
        assert(out.deep_view() =~= selected_paths(entries@.take(0), *f));
    }
    while i < n
        invariant
            n == entries@.len(),
            i <= n,
            out.deep_view() == selected_paths(entries@.take(i as int), *f),
        decreases n - i,
    {
        let ghost o0 = out.deep_view();
        let e = &entries[i];
        proof {
            assert(entries@.take(i + 1).drop_last() =~= entries@.take(i as int));
            assert(entries@.take(i + 1).last() == entries@[i as int]);
        }
        if f.accepts_path(&e.path, e.is_dir) {
            out.push(e.path.clone());
            proof {
                assert(out.deep_view() =~= o0.push(entries@[i as int].path@));
            }
        }
        i = i + 1;
    }
    proof {
        assert(entries@.take(n as int) =~= entries@);
    }
    out
}

} // verus!
