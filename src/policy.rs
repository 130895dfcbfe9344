//! The configuration policy: which names are skipped, which fail, and which
//! get a fixed replacement text.
use vstd::prelude::*;

use crate::mangle::{join_with, views};

verus! {

#[verifier::external_type_specification]
#[verifier::external_body]
pub struct ExRegex(regex::Regex);

/// Whether `regex::Regex::new` accepts the pattern.
pub uninterp spec fn regex_compiles(pattern: Seq<char>) -> bool;

/// Whether the regex compiled from `pattern` finds a match in `text`.
pub uninterp spec fn regex_is_match(pattern: Seq<char>, text: Seq<char>) -> bool;

/// A compiled regex together with the pattern it was compiled from. Only
/// `compile` builds one, so the two always agree.
pub struct Matcher {
    source: String,
    re: regex::Regex,
}

impl Matcher {
    pub closed spec fn pattern(&self) -> Seq<char> {
        self.source@
    }
}

/// Relies on `regex::Regex::new`: it succeeds on the patterns it accepts.
#[verifier::external_body]
fn compile(source: String) -> (r: Option<Matcher>)
    ensures
        r is Some <==> regex_compiles(source@),
        r matches Some(m) ==> m.pattern() == source@,
{
    match regex::Regex::new(&source) {
        Ok(re) => Some(Matcher { source, re }),
        Err(_) => None,
    }
}

/// Relies on `regex::Regex::is_match`: whether the text holds a match.
#[verifier::external_body]
fn matches(m: &Matcher, text: &str) -> (r: bool)
    ensures
        r == regex_is_match(m.pattern(), text@),
{
    m.re.is_match(text)
}

/// A list of patterns as one alternation anchored at both ends. The entries
/// are used verbatim: metacharacters in them act as pattern syntax.
pub open spec fn alternation(entries: Seq<Seq<char>>) -> Seq<char> {
    seq!['^', '('] + join_with(entries, '|') + seq![')', '$']
}

pub open spec fn pair_views(v: Seq<(String, String)>) -> Seq<(Seq<char>, Seq<char>)> {
    v.map_values(|p: (String, String)| (p.0@, p.1@))
}

/// The text of the first entry whose key is `key`.
pub open spec fn lookup(entries: Seq<(Seq<char>, Seq<char>)>, key: Seq<char>) -> Option<Seq<char>>
    decreases entries.len(),
{
    if entries.len() == 0 {
        None
    } else if entries[0].0 == key {
        Some(entries[0].1)
    } else {
        lookup(entries.skip(1), key)
    }
}

/// The configuration document, as plain values.
pub struct ConfigData {
    /// Patterns of names that are skipped.
    pub ignore: Option<Vec<String>>,
    /// Patterns of names that fail without translation.
    pub fail: Option<Vec<String>>,
    /// Names whose translation is the given text.
    pub replace: Vec<(String, String)>,
    /// Names of the requested targets; its presence makes any translation
    /// failure fatal.
    pub targets: Option<Vec<String>>,
}

pub open spec fn list_pattern(list: Option<Vec<String>>) -> Option<Seq<char>> {
    match list {
        Some(v) => Some(alternation(views(v@))),
        None => None,
    }
}

pub enum ConfigError {
    /// The compiled `ignore` pattern, which the regex engine refused.
    InvalidIgnore(String),
    /// The compiled `fail` pattern, which the regex engine refused.
    InvalidFail(String),
}

/// The compiled configuration.
pub struct Config {
    ignored: Option<Matcher>,
    fail: Option<Matcher>,
    replace: Vec<(String, String)>,
    strict: bool,
}

pub open spec fn matcher_pattern(m: Option<Matcher>) -> Option<Seq<char>> {
    match m {
        Some(m) => Some(m.pattern()),
        None => None,
    }
}

pub open spec fn matched_by(pattern: Option<Seq<char>>, name: Seq<char>) -> bool {
    match pattern {
        Some(p) => regex_is_match(p, name),
        None => false,
    }
}

impl Config {
    pub closed spec fn ignore_pattern(&self) -> Option<Seq<char>> {
        matcher_pattern(self.ignored)
    }

    pub closed spec fn fail_pattern(&self) -> Option<Seq<char>> {
        matcher_pattern(self.fail)
    }

    pub closed spec fn replacements(&self) -> Seq<(Seq<char>, Seq<char>)> {
        pair_views(self.replace@)
    }

    pub closed spec fn is_strict(&self) -> bool {
        self.strict
    }

    pub open spec fn ignores(&self, name: Seq<char>) -> bool {
        matched_by(self.ignore_pattern(), name)
    }

    pub open spec fn fails(&self, name: Seq<char>) -> bool {
        matched_by(self.fail_pattern(), name)
    }

    pub open spec fn replacement(&self, name: Seq<char>) -> Option<Seq<char>> {
        lookup(self.replacements(), name)
    }

    /// Compiles the configuration. An absent list matches no name.
    pub fn new(data: ConfigData) -> (r: Result<Config, ConfigError>)
        ensures
            r is Ok <==> (match list_pattern(data.ignore) {
                Some(p) => regex_compiles(p),
                None => true,
            }) && (match list_pattern(data.fail) {
                Some(p) => regex_compiles(p),
                None => true,
            }),
            r matches Err(ConfigError::InvalidIgnore(p)) ==> list_pattern(data.ignore)
                == Some(p@) && !regex_compiles(p@),
            r matches Err(ConfigError::InvalidFail(p)) ==> list_pattern(data.fail) == Some(p@)
                && !regex_compiles(p@) && (match list_pattern(data.ignore) {
                Some(q) => regex_compiles(q),
                None => true,
            }),
            r matches Ok(c) ==> {
                &&& c.ignore_pattern() == list_pattern(data.ignore)
                &&& c.fail_pattern() == list_pattern(data.fail)
                &&& c.replacements() == pair_views(data.replace@)
                &&& c.is_strict() == data.targets is Some
            },
    {
        let ignored = match compile_list(&data.ignore) {
            Ok(m) => m,
            Err(p) => return Err(ConfigError::InvalidIgnore(p)),
        };
        let fail = match compile_list(&data.fail) {
            Ok(m) => m,
            Err(p) => return Err(ConfigError::InvalidFail(p)),
        };
        Ok(Config { ignored, fail, replace: data.replace, strict: data.targets.is_some() })
    }

    /// Whether `name` matches the `ignore` list.
    pub fn is_ignored(&self, name: &str) -> (r: bool)
        ensures
            r == self.ignores(name@),
    {
        match &self.ignored {
            Some(m) => matches(m, name),
            None => false,
        }
    }

    /// Whether `name` matches the `fail` list.
    pub fn is_failed(&self, name: &str) -> (r: bool)
        ensures
            r == self.fails(name@),
    {
        match &self.fail {
            Some(m) => matches(m, name),
            None => false,
        }
    }

    /// The replacement text configured for `name`, if any.
    pub fn replacement_for(&self, name: &String) -> (r: Option<String>)
        ensures
            match r {
                Some(t) => self.replacement(name@) == Some(t@),
                None => self.replacement(name@) is None,
            },
    {
        let mut i: usize = 0;
        assert(self.replacements().skip(0) =~= self.replacements());
        while i < self.replace.len()
            invariant
                i <= self.replace.len(),
                self.replacements() == pair_views(self.replace@),
                lookup(self.replacements(), name@) == lookup(self.replacements().skip(i as int), name@),
            decreases self.replace.len() - i,
        {
            assert(self.replacements().skip(i as int).skip(1) =~= self.replacements().skip(i + 1));
            if self.replace[i].0 == *name {
                return Some(self.replace[i].1.clone());
            }
            i += 1;
        }
        None
    }

    /// Whether a failed translation aborts the whole run.
    pub fn strict(&self) -> (r: bool)
        ensures
            r == self.is_strict(),
    {
        self.strict
    }
}

/// Joins the entries of a list with `|` and anchors the result.
pub fn alternation_of(entries: &Vec<String>) -> (r: String)
    ensures
        r@ == alternation(views(entries@)),
{
    let mut out: Vec<char> = Vec::new();
    out.push('^');
    out.push('(');
    let ghost parts = views(entries@);
    let mut i: usize = 0;
    while i < entries.len()
        invariant
            i <= entries.len(),
            parts == views(entries@),
            out@ == seq!['^', '('] + join_with(parts.take(i as int), '|'),
        decreases entries.len() - i,
    {
        assert(parts.take(i + 1).drop_last() =~= parts.take(i as int));
        let ghost before = out@;
        if i > 0 {
            out.push('|');
        }
        let cs = crate::mangle::chars_of(entries[i].as_str());
        let mut j: usize = 0;
        let ghost mid = out@;
        while j < cs.len()
            invariant
                j <= cs.len(),
                out@ == mid + cs@.take(j as int),
            decreases cs.len() - j,
        {
            out.push(cs[j]);
            j += 1;
            assert(out@ =~= mid + cs@.take(j as int));
        }
        assert(cs@.take(j as int) =~= cs@);
        i += 1;
        assert(parts.take(i as int).last() == entries@[i - 1]@);
        assert(i == 1 ==> parts.take(i as int)[0] == entries@[0]@);
        assert(out@ =~= seq!['^', '('] + join_with(parts.take(i as int), '|'));
    }
    assert(parts.take(i as int) =~= parts);
    out.push(')');
    out.push('$');
    assert(out@ =~= alternation(parts));
    crate::mangle::string_of_chars(&out)
}

fn compile_list(list: &Option<Vec<String>>) -> (r: Result<Option<Matcher>, String>)
    ensures
        r matches Ok(m) ==> matcher_pattern(m) == list_pattern(*list) && (match list_pattern(
            *list,
        ) {
            Some(p) => regex_compiles(p),
            None => true,
        }),
        r matches Err(p) ==> list_pattern(*list) == Some(p@) && !regex_compiles(p@),
{
    match list {
        None => Ok(None),
        Some(entries) => {
            let pattern = alternation_of(entries);
            let ghost p = pattern@;
            match compile(pattern.clone()) {
                Some(m) => Ok(Some(m)),
                None => Err(pattern),
            }
        },
    }
}

} // verus!
