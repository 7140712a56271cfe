//! Settings of the engine, and the ignore filter that they carry.
//!
//! The ignore patterns are globs. They are parsed and matched by the
//! `globset` crate; what it decides is named here (`glob_parses`,
//! `glob_set_builds`, `glob_set_matches`) and the rest is stated over those
//! names.

use globset::{Glob, GlobSet};
use std::path::Path;
use vstd::prelude::*;
use crate::text::{same_text, text_views};

verus! {

/// `globset::Glob`: one parsed pattern. Nothing is known of what is inside.
#[verifier::external_type_specification]
#[verifier::external_body]
pub struct ExGlob(Glob);

/// `globset::GlobSet`: a matcher built from globs. Nothing is known of what
/// is inside.
#[verifier::external_type_specification]
#[verifier::external_body]
pub struct ExGlobSet(GlobSet);

/// `globset::Error`: why a pattern was refused or a matcher not built.
#[verifier::external_type_specification]
#[verifier::external_body]
pub struct ExGlobError(globset::Error);

/// The pattern text that a glob was parsed from.
pub uninterp spec fn glob_source(glob: Glob) -> Seq<char>;

/// The pattern texts of the globs that a set was built from, in order.
pub uninterp spec fn glob_set_sources(set: GlobSet) -> Seq<Seq<char>>;

/// Whether `Glob::new` accepts a pattern. (It reads a pattern with the
/// default options, which follow the path separator of the platform built
/// for.)
pub uninterp spec fn glob_parses(pattern: Seq<char>) -> bool;

/// Whether `GlobSet::new` can build a set from globs with these patterns.
pub uninterp spec fn glob_set_builds(patterns: Seq<Seq<char>>) -> bool;

/// Whether a set built from these patterns matches a path: whether any of its
/// globs does.
pub uninterp spec fn glob_set_matches(patterns: Seq<Seq<char>>, path: Seq<char>) -> bool;

/// The pattern texts of a sequence of globs.
pub open spec fn glob_sources(globs: Seq<Glob>) -> Seq<Seq<char>> {
    globs.map_values(|g: Glob| glob_source(g))
}

/// `Glob::new`: parses a pattern with the default options. It succeeds on
/// the patterns that `glob_parses` names, and the glob it returns remembers
/// the pattern it was given.
#[verifier::external_body]
fn parse_glob(pattern: &str) -> (r: Result<Glob, globset::Error>)
    ensures
        r is Ok == glob_parses(pattern@),
        r matches Ok(g) ==> glob_source(g) == pattern@,
{
    Glob::new(pattern)
}

/// `GlobSet::new`: builds a matcher from globs. It succeeds on the pattern
/// lists that `glob_set_builds` names, always on the empty list, and the set
/// it returns holds the globs it was given.
#[verifier::external_body]
fn build_glob_set(globs: &Vec<Glob>) -> (r: Result<GlobSet, globset::Error>)
    ensures
        r is Ok == glob_set_builds(glob_sources(globs@)),
        r matches Ok(set) ==> glob_set_sources(set) == glob_sources(globs@),
        globs@.len() == 0 ==> r is Ok,
{
    GlobSet::new(globs.iter())
}

/// `GlobSet::is_match`: whether any glob of the set matches the path. The
/// answer is the one named by `glob_set_matches`; an empty set matches
/// nothing.
#[verifier::external_body]
fn glob_set_is_match(set: &GlobSet, path: &str) -> (r: bool)
    ensures
        r == glob_set_matches(glob_set_sources(*set), path@),
        glob_set_sources(*set).len() == 0 ==> !r,
{
    set.is_match(Path::new(path))
}

/// `GlobSet::clone`: the copy holds the same globs.
pub assume_specification[ <GlobSet as Clone>::clone ](set: &GlobSet) -> (r: GlobSet)
    ensures
        glob_set_sources(r) == glob_set_sources(*set),
;

/// Why a list of ignore patterns could not be compiled.
#[derive(Clone, Copy, Debug, PartialEq, Eq, Structural)]
pub enum IgnoreError {
    /// The pattern at this position is not a valid glob.
    InvalidPattern { index: usize },
    /// Every pattern is a valid glob, but no matcher could be built of them.
    Unbuildable,
}

/// Settings of the engine.
#[derive(Debug)]
pub struct Config {
    pub max_entries: usize,
    pub ignored_patterns: Vec<String>,
    pub update_threshold_hours: u64,
    pub enable_fuzzy_matching: bool,
    pub show_stats_on_query: bool,
    pub auto_clean_on_startup: bool,
    pub fzf_options: String,
    /// The ignore filter: `ignored_patterns` in compiled form, as of the last
    /// call of `compile_ignores`.
    pub compiled_ignores: GlobSet,
}

/// The ignore patterns of the default settings.
pub open spec fn default_patterns() -> Seq<Seq<char>> {
    seq![
        "**/node_modules"@,
        "**/node_modules/**"@,
        "**/.git"@,
        "**/.git/**"@,
        "**/target"@,
        "**/target/**"@,
        "**/.cache"@,
        "**/.cache/**"@,
        "**/build"@,
        "**/build/**"@,
        "**/dist"@,
        "**/dist/**"@,
        "**/*.log"@,
        "**/*.tmp"@,
    ]
}

/// Those of the first `n` patterns that are valid globs, in order.
pub open spec fn valid_patterns(patterns: Seq<Seq<char>>, n: nat) -> Seq<Seq<char>>
    decreases n,
{
    if n == 0 {
        Seq::empty()
    } else {
        let before = valid_patterns(patterns, (n - 1) as nat);
        if glob_parses(patterns[n - 1]) {
            before.push(patterns[n - 1])
        } else {
            before
        }
    }
}

/// What the default settings compile their patterns to: the valid ones among
/// them, or nothing where no matcher can be built of those.
pub open spec fn lenient_sources(patterns: Seq<Seq<char>>) -> Seq<Seq<char>> {
    let valid = valid_patterns(patterns, patterns.len());
    if glob_set_builds(valid) {
        valid
    } else {
        Seq::empty()
    }
}

/// Every pattern is a valid glob.
pub open spec fn all_parse(patterns: Seq<Seq<char>>) -> bool {
    forall|i: int| 0 <= i < patterns.len() ==> glob_parses(#[trigger] patterns[i])
}

/// A set that matches nothing.
fn default_globset() -> (set: GlobSet)
    ensures
        glob_set_sources(set).len() == 0,
{
    let none: Vec<Glob> = Vec::new();
    match build_glob_set(&none) {
        Ok(set) => set,
        Err(_) => vstd::pervasive::unreached(),
    }
}

impl Config {
    /// The patterns that the ignore filter was compiled from.
    pub open spec fn compiled_sources(&self) -> Seq<Seq<char>> {
        glob_set_sources(self.compiled_ignores)
    }

    /// Whether the ignore filter excludes a path.
    pub open spec fn ignores(&self, path: Seq<char>) -> bool {
        glob_set_matches(self.compiled_sources(), path)
    }

    /// The ignore filter is the one compiled from `ignored_patterns`.
    pub open spec fn is_compiled(&self) -> bool {
        self.compiled_sources() == text_views(self.ignored_patterns@)
    }

    /// Compiles `ignored_patterns` into the ignore filter.
    ///
    /// Fails on the first pattern that is not a valid glob, or if no matcher
    /// can be built of the patterns; the filter then stays as it was.
    pub fn compile_ignores(&mut self) -> (r: Result<(), IgnoreError>)
        ensures
            final(self).max_entries == old(self).max_entries,
            final(self).ignored_patterns == old(self).ignored_patterns,
            final(self).update_threshold_hours == old(self).update_threshold_hours,
            final(self).enable_fuzzy_matching == old(self).enable_fuzzy_matching,
            final(self).show_stats_on_query == old(self).show_stats_on_query,
            final(self).auto_clean_on_startup == old(self).auto_clean_on_startup,
            final(self).fzf_options == old(self).fzf_options,
            r is Ok <==> all_parse(text_views(old(self).ignored_patterns@)) && glob_set_builds(
                text_views(old(self).ignored_patterns@),
            ),
            r is Ok ==> final(self).is_compiled(),
            r is Err ==> final(self).compiled_sources() == old(self).compiled_sources(),
            r matches Err(IgnoreError::InvalidPattern { index }) ==> {
                &&& index < old(self).ignored_patterns@.len()
                &&& !glob_parses(old(self).ignored_patterns@[index as int]@)
                &&& all_parse(text_views(old(self).ignored_patterns@).take(index as int))
            },
            r matches Err(IgnoreError::Unbuildable) ==> all_parse(
                text_views(old(self).ignored_patterns@),
            ),
    {
        let ghost patterns = text_views(self.ignored_patterns@);
        let mut globs: Vec<Glob> = Vec::new();
        let mut i: usize = 0;
        while i < self.ignored_patterns.len()
            invariant
                i <= self.ignored_patterns@.len(),
                *self == *old(self),
                patterns == text_views(self.ignored_patterns@),
                glob_sources(globs@) =~= patterns.take(i as int),
                all_parse(patterns.take(i as int)),
            decreases self.ignored_patterns@.len() - i,
        {
            assert(patterns[i as int] == self.ignored_patterns@[i as int]@);
            match parse_glob(self.ignored_patterns[i].as_str()) {
                Ok(glob) => {
                    let ghost before = glob_sources(globs@);
                    globs.push(glob);
                    assert(glob_sources(globs@) =~= before.push(patterns[i as int]));
                    assert(patterns.take(i + 1) =~= patterns.take(i as int).push(
                        patterns[i as int],
                    ));
                },
                Err(_) => {
                    return Err(IgnoreError::InvalidPattern { index: i });
                },
            }
            i += 1;
        }
        assert(patterns.take(patterns.len() as int) =~= patterns);
        match build_glob_set(&globs) {
            Ok(set) => {
                self.compiled_ignores = set;
                Ok(())
            },
            Err(_) => Err(IgnoreError::Unbuildable),
        }
    }

    /// Whether the ignore filter excludes a path: whether any compiled
    /// pattern matches it.
    pub fn is_ignored(&self, path: &str) -> (r: bool)
        ensures
            r == self.ignores(path@),
            self.compiled_sources().len() == 0 ==> !r,
    {
        glob_set_is_match(&self.compiled_ignores, path)
    }

    /// The value of the setting called `key`, for those settings that can be
    /// asked for by name: `fzf_options` alone.
    pub fn get(&self, key: &str) -> (r: Option<String>)
        ensures
            match r {
                Some(value) => key@ == "fzf_options"@ && value@ == self.fzf_options@,
                None => key@ != "fzf_options"@,
            },
    {
        if same_text(key, "fzf_options") {
            Some(self.fzf_options.clone())
        } else {
            None
        }
    }
}

impl Clone for Config {
    fn clone(&self) -> (r: Self)
        ensures
            r.max_entries == self.max_entries,
            text_views(r.ignored_patterns@) == text_views(self.ignored_patterns@),
            r.update_threshold_hours == self.update_threshold_hours,
            r.enable_fuzzy_matching == self.enable_fuzzy_matching,
            r.show_stats_on_query == self.show_stats_on_query,
            r.auto_clean_on_startup == self.auto_clean_on_startup,
            r.fzf_options@ == self.fzf_options@,
            r.compiled_sources() == self.compiled_sources(),
    {
        let mut ignored_patterns: Vec<String> = Vec::new();
        let mut i: usize = 0;
        while i < self.ignored_patterns.len()
            invariant
                i <= self.ignored_patterns@.len(),
                text_views(ignored_patterns@) =~= text_views(self.ignored_patterns@).take(i as int),
            decreases self.ignored_patterns@.len() - i,
        {
            let ghost before = text_views(ignored_patterns@);
            ignored_patterns.push(self.ignored_patterns[i].clone());
            assert(text_views(ignored_patterns@) =~= before.push(self.ignored_patterns@[i as int]@));
            i += 1;
        }
        assert(text_views(ignored_patterns@) =~= text_views(self.ignored_patterns@));
        Config {
            max_entries: self.max_entries,
            ignored_patterns,
            update_threshold_hours: self.update_threshold_hours,
            enable_fuzzy_matching: self.enable_fuzzy_matching,
            show_stats_on_query: self.show_stats_on_query,
            auto_clean_on_startup: self.auto_clean_on_startup,
            fzf_options: self.fzf_options.clone(),
            compiled_ignores: self.compiled_ignores.clone(),
        }
    }
}

impl Default for Config {
    /// The settings of a first run: room for 1000 entries, fuzzy matching on,
    /// and the usual build and cache directories ignored. A default pattern
    /// that is not a valid glob is left out of the filter.
    fn default() -> (r: Self)
        ensures
            r.max_entries == 1000,
            text_views(r.ignored_patterns@) == default_patterns(),
            r.update_threshold_hours == 168,
            r.enable_fuzzy_matching,
            !r.show_stats_on_query,
            !r.auto_clean_on_startup,
            r.fzf_options@ == "--height=40% --reverse --border"@,
            r.compiled_sources() == lenient_sources(default_patterns()),
    {
        let mut ignored_patterns: Vec<String> = Vec::new();
        ignored_patterns.push("**/node_modules".to_owned());
        ignored_patterns.push("**/node_modules/**".to_owned());
        ignored_patterns.push("**/.git".to_owned());
        ignored_patterns.push("**/.git/**".to_owned());
        ignored_patterns.push("**/target".to_owned());
        ignored_patterns.push("**/target/**".to_owned());
        ignored_patterns.push("**/.cache".to_owned());
        ignored_patterns.push("**/.cache/**".to_owned());
        ignored_patterns.push("**/build".to_owned());
        ignored_patterns.push("**/build/**".to_owned());
        ignored_patterns.push("**/dist".to_owned());
        ignored_patterns.push("**/dist/**".to_owned());
        ignored_patterns.push("**/*.log".to_owned());
        ignored_patterns.push("**/*.tmp".to_owned());
        let ghost patterns = text_views(ignored_patterns@);
        assert(patterns =~= default_patterns());

        let mut globs: Vec<Glob> = Vec::new();
        let mut i: usize = 0;
        while i < ignored_patterns.len()
            invariant
                i <= ignored_patterns@.len(),
                patterns == text_views(ignored_patterns@),
                glob_sources(globs@) =~= valid_patterns(patterns, i as nat),
            decreases ignored_patterns@.len() - i,
        {
            assert(patterns[i as int] == ignored_patterns@[i as int]@);
            match parse_glob(ignored_patterns[i].as_str()) {
                Ok(glob) => {
                    let ghost before = glob_sources(globs@);
                    globs.push(glob);
                    assert(glob_sources(globs@) =~= before.push(patterns[i as int]));
                },
                Err(_) => {},
            }
            i += 1;
        }
        let compiled_ignores = match build_glob_set(&globs) {
            Ok(set) => set,
            Err(_) => default_globset(),
        };
        Config {
            max_entries: 1000,
            ignored_patterns,
            update_threshold_hours: 168,
            enable_fuzzy_matching: true,
            show_stats_on_query: false,
            auto_clean_on_startup: false,
            fzf_options: "--height=40% --reverse --border".to_owned(),
            compiled_ignores,
        }
    }
}

} // verus!
