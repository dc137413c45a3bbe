//! The filter engine's matching primitives: case-insensitive substring
//! rules and regular-expression rules, applied to message headers.
//!
//! Regular-expression matching and Unicode case folding are done by
//! outside code behind trusted wrappers; everything built on them is
//! verified against the named results of those wrappers.

use vstd::prelude::*;

use crate::folds::{lemma_filter_take_step, lemma_take_full};
use crate::mail::{clone_email, Email, FilterField, FilterPattern};

verus! {

/// A full rule set, as saved to and loaded from the configuration file
/// by the surrounding application.
#[derive(Debug, Clone)]
pub struct FilterConfig {
    pub patterns: Vec<FilterPattern>,
}

impl Default for FilterConfig {
    fn default() -> (r: Self)
        ensures
            r.patterns@.len() == 0,
    {
        FilterConfig { patterns: Vec::new() }
    }
}

/// The lowercase form of a string, as computed by `str::to_lowercase`.
pub uninterp spec fn lower_of(s: Seq<char>) -> Seq<char>;

/// Whether `pattern` compiles as a (case-sensitive) regular expression
/// and matches `text`, as computed by `regex::Regex`.
pub uninterp spec fn regex_match_of(pattern: Seq<char>, text: Seq<char>) -> bool;

/// Whether `pattern` compiles as a case-insensitive regular expression
/// and matches `text`, as computed by `regex::RegexBuilder`.
pub uninterp spec fn ci_regex_match_of(pattern: Seq<char>, text: Seq<char>) -> bool;

/// Whether `pattern` is a valid regular expression, as decided by
/// `regex::Regex::new`.
pub uninterp spec fn regex_valid_of(pattern: Seq<char>) -> bool;

/// Relies on `str::to_lowercase`: the result depends on the characters
/// alone, and an empty string stays empty.
#[verifier::external_body]
pub(crate) fn to_lowercase(s: &str) -> (r: String)
    ensures
        r@ == lower_of(s@),
        s@.len() == 0 ==> r@.len() == 0,
{
    s.to_lowercase()
}

/// Whether `needle` occurs as a contiguous run of characters in `hay`.
pub open spec fn spec_contains(hay: Seq<char>, needle: Seq<char>) -> bool {
    exists|i: int|
        0 <= i && i + needle.len() <= hay.len() && #[trigger] hay.subrange(i, i + needle.len())
            == needle
}

/// Relies on `str::contains`: true exactly when the pattern occurs as a
/// substring.  (For valid UTF-8, byte-level and character-level
/// substring occurrence coincide.)
#[verifier::external_body]
pub(crate) fn str_contains(hay: &str, needle: &str) -> (r: bool)
    ensures
        r == spec_contains(hay@, needle@),
{
    hay.contains(needle)
}

/// Relies on `regex::Regex::new` and `regex::Regex::is_match`: the
/// result depends on pattern and text alone; a pattern that does not
/// compile matches nothing.
#[verifier::external_body]
fn regex_is_match(pattern: &str, text: &str) -> (r: bool)
    ensures
        r == regex_match_of(pattern@, text@),
{
    match regex::Regex::new(pattern) {
        Ok(re) => re.is_match(text),
        Err(_) => false,
    }
}

/// Relies on `regex::RegexBuilder` with `case_insensitive(true)`: the
/// result depends on pattern and text alone; a pattern that does not
/// compile matches nothing.
#[verifier::external_body]
pub(crate) fn ci_regex_is_match(pattern: &str, text: &str) -> (r: bool)
    ensures
        r == ci_regex_match_of(pattern@, text@),
{
    match regex::RegexBuilder::new(pattern).case_insensitive(true).build() {
        Ok(re) => re.is_match(text),
        Err(_) => false,
    }
}

/// Relies on `regex::Regex::new`: validity depends on the pattern
/// alone; the error text is the regex crate's own message.
#[verifier::external_body]
fn regex_compile_error(pattern: &str) -> (r: Option<String>)
    ensures
        r is None <==> regex_valid_of(pattern@),
{
    match regex::Regex::new(pattern) {
        Ok(_) => None,
        Err(e) => Some(format!("Invalid regex: {}", e)),
    }
}

/// What it means for one header text to satisfy a rule's pattern:
/// regular-expression rules match case-sensitively here (the preview
/// path compiles them plainly), substring rules match
/// case-insensitively.
pub open spec fn spec_text_match(pattern: Seq<char>, is_regex: bool, text: Seq<char>) -> bool {
    if is_regex {
        regex_match_of(pattern, text)
    } else {
        spec_contains(lower_of(text), lower_of(pattern))
    }
}

/// Whether a mail item satisfies a rule, on the rule's targeted field.
pub open spec fn spec_email_matches_pattern(e: Email, p: FilterPattern) -> bool {
    match p.field {
        FilterField::Subject => spec_text_match(p.pattern@, p.is_regex, e.subject@),
        FilterField::Sender => spec_text_match(p.pattern@, p.is_regex, e.sender@),
        FilterField::Any => spec_text_match(p.pattern@, p.is_regex, e.subject@)
            || spec_text_match(p.pattern@, p.is_regex, e.sender@),
    }
}

/// Whether a mail item satisfies at least one enabled rule of a set.
pub open spec fn spec_matches_any_enabled(e: Email, ps: Seq<FilterPattern>) -> bool {
    exists|i: int| 0 <= i < ps.len() && ps[i].enabled && spec_email_matches_pattern(e, ps[i])
}

/// The predicate that `apply_filters` keeps, as a value.
pub open spec fn apply_filters_pred(ps: Seq<FilterPattern>) -> spec_fn(Email) -> bool {
    |e: Email| spec_matches_any_enabled(e, ps)
}

fn text_match(pattern: &String, is_regex: bool, text: &str) -> (r: bool)
    ensures
        r == spec_text_match(pattern@, is_regex, text@),
{
    if is_regex {
        regex_is_match(pattern.as_str(), text)
    } else {
        let hay = to_lowercase(text);
        let needle = to_lowercase(pattern.as_str());
        str_contains(hay.as_str(), needle.as_str())
    }
}

/// Checks one mail item against one rule.
pub fn email_matches_pattern(email: &Email, pattern: &FilterPattern) -> (r: bool)
    ensures
        r == spec_email_matches_pattern(*email, *pattern),
{
    match pattern.field {
        FilterField::Subject => text_match(&pattern.pattern, pattern.is_regex, email.subject.as_str()),
        FilterField::Sender => text_match(&pattern.pattern, pattern.is_regex, email.sender.as_str()),
        FilterField::Any => {
            text_match(&pattern.pattern, pattern.is_regex, email.subject.as_str())
                || text_match(&pattern.pattern, pattern.is_regex, email.sender.as_str())
        },
    }
}

fn matches_any_enabled(email: &Email, patterns: &Vec<FilterPattern>) -> (r: bool)
    ensures
        r == spec_matches_any_enabled(*email, patterns@),
{
    let mut i: usize = 0;
    while i < patterns.len()
        invariant
            i <= patterns@.len(),
            forall|j: int|
                0 <= j < i ==> !(patterns@[j].enabled && spec_email_matches_pattern(
                    *email,
                    patterns@[j],
                )),
        decreases patterns@.len() - i,
    {
        if patterns[i].enabled && email_matches_pattern(email, &patterns[i]) {
            return true;
        }
        i = i + 1;
    }
    false
}

/// Keeps exactly the mail items that satisfy at least one enabled rule.
/// With no enabled rule, nothing is kept.
pub fn apply_filters(emails: &Vec<Email>, patterns: &Vec<FilterPattern>) -> (r: Vec<Email>)
    ensures
        r@ == emails@.filter(apply_filters_pred(patterns@)),
{
    let ghost pred = apply_filters_pred(patterns@);
    let mut out: Vec<Email> = Vec::new();
    let mut i: usize = 0;
    proof {
        assert(emails@.take(0).filter(pred) =~= Seq::<Email>::empty());
    }
    while i < emails.len()
        invariant
            i <= emails@.len(),
            out@ == emails@.take(i as int).filter(pred),
            pred == apply_filters_pred(patterns@),
        decreases emails@.len() - i,
    {
        proof {
            lemma_filter_take_step(emails@, pred, i as int);
        }
        if matches_any_enabled(&emails[i], patterns) {
            out.push(clone_email(&emails[i]));
        }
        i = i + 1;
    }
    proof {
        lemma_take_full(emails@);
    }
    out
}

/// The predicate that `test_pattern` previews, as a value.
pub open spec fn test_pattern_pred(pattern: Seq<char>, field: FilterField) -> spec_fn(Email) -> bool {
    |e: Email| match field {
        FilterField::Subject => regex_match_of(pattern, e.subject@),
        FilterField::Sender => regex_match_of(pattern, e.sender@),
        FilterField::Any => regex_match_of(pattern, e.subject@) || regex_match_of(
            pattern,
            e.sender@,
        ),
    }
}

/// Previews a regular expression against a list of mail items.  A
/// malformed pattern is rejected here, synchronously, and never reaches
/// match time.
pub fn test_pattern(emails: &Vec<Email>, pattern: &str, field: &FilterField) -> (r: Result<
    Vec<Email>,
    String,
>)
    ensures
        r is Ok <==> regex_valid_of(pattern@),
        r matches Ok(v) ==> v@ == emails@.filter(test_pattern_pred(pattern@, *field)),
{
    if let Some(err) = regex_compile_error(pattern) {
        return Err(err);
    }
    let ghost pred = test_pattern_pred(pattern@, *field);
    let mut out: Vec<Email> = Vec::new();
    let mut i: usize = 0;
    proof {
        assert(emails@.take(0).filter(pred) =~= Seq::<Email>::empty());
    }
    while i < emails.len()
        invariant
            i <= emails@.len(),
            out@ == emails@.take(i as int).filter(pred),
            pred == test_pattern_pred(pattern@, *field),
        decreases emails@.len() - i,
    {
        proof {
            lemma_filter_take_step(emails@, pred, i as int);
        }
        let e = &emails[i];
        let hit = match field {
            FilterField::Subject => regex_is_match(pattern, e.subject.as_str()),
            FilterField::Sender => regex_is_match(pattern, e.sender.as_str()),
            FilterField::Any => regex_is_match(pattern, e.subject.as_str()) || regex_is_match(
                pattern,
                e.sender.as_str(),
            ),
        };
        if hit {
            out.push(clone_email(e));
        }
        i = i + 1;
    }
    proof {
        lemma_take_full(emails@);
    }
    Ok(out)
}

} // verus!
