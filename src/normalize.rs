//! Turning a raw key cell into the key by which rows are grouped.
use vstd::prelude::*;

verus! {

/// How key cells are compared.
#[derive(Debug, Clone, Copy, PartialEq, Eq)]
pub struct CompareOptions {
    /// Remove leading and trailing whitespace.
    pub trim: bool,
    /// Fold to lower case.
    pub case_insensitive: bool,
}

/// What `str::trim` makes of a text.
pub uninterp spec fn trim_of(s: Seq<char>) -> Seq<char>;

/// What `str::to_lowercase` makes of a text.
pub uninterp spec fn lower_of(s: Seq<char>) -> Seq<char>;

/// Relies on `str::trim`: leading and trailing whitespace removed, a
/// result that depends on the characters alone.
#[verifier::external_body]
pub(crate) fn trim_text(s: &str) -> (r: String)
    ensures
        r@ == trim_of(s@),
{
    s.trim().to_string()
}

/// Relies on `str::to_lowercase`: the lower-case form of the text, a
/// result that depends on the characters alone.
#[verifier::external_body]
pub(crate) fn lowercase_text(s: &str) -> (r: String)
    ensures
        r@ == lower_of(s@),
{
    s.to_lowercase()
}

/// The key a raw cell stands for: trimmed if asked, then lower-cased if asked.
pub open spec fn normalized(raw: Seq<char>, options: CompareOptions) -> Seq<char> {
    let t = if options.trim {
        trim_of(raw)
    } else {
        raw
    };
    if options.case_insensitive {
        lower_of(t)
    } else {
        t
    }
}

/// The key a raw cell stands for under `options`.
pub fn normalize_key(key: &str, options: &CompareOptions) -> (r: String)
    ensures
        r@ == normalized(key@, *options),
{
    let mut normalized = key.to_string();
    if options.trim {
        normalized = trim_text(normalized.as_str());
    }
    if options.case_insensitive {
        normalized = lowercase_text(normalized.as_str());
    }
    normalized
}

} // verus!
