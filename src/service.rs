use vstd::prelude::*;

use crate::cli::{LastVersionArgs, NextVersionArgs};
use crate::error::VersionError;
use crate::pattern::render_parts;
use crate::versioning::{
    bump, bump_error, candidate_parts, latest_index, missing_field, read_error, readable,
    Versioner,
};

verus! {

/// The pattern used when none is given.
pub open spec fn default_pattern_text() -> Seq<char> {
    "v{major}.{minor}.{patch}"@
}

/// The pattern text that a command uses.
pub open spec fn pattern_text(pattern: Option<String>) -> Seq<char> {
    match pattern {
        Some(p) => p@,
        None => default_pattern_text(),
    }
}

/// What a command does with the version it found.
#[derive(Clone, Debug, PartialEq, Eq)]
pub enum Outcome {
    /// No candidate matched the pattern: report it and do nothing else.
    NoVersionFound,
    /// Print this name.
    Print(String),
    /// Check this name out.
    Checkout(String),
    /// Create a tag or branch with this name.
    Create(String),
}

/// The pattern to use: the one given, or `v{major}.{minor}.{patch}`.
pub fn pattern_or_default(pattern: &Option<String>) -> (r: String)
    ensures
        r@ == pattern_text(*pattern),
{
    match pattern {
        Some(p) => p.clone(),
        None => String::from_str("v{major}.{minor}.{patch}"),
    }
}

/// Decides what the last-version command does with the candidate names.
pub fn plan_last_version(candidates: Vec<String>, args: &LastVersionArgs) -> (r: Result<Outcome, VersionError>)
    ensures
        ({
            let segs = crate::pattern::segments_of(pattern_text(args.pattern));
            let tags = candidates@;
            match r {
                Err(e) => !readable(segs, tags) && read_error(segs, tags, e),
                Ok(Outcome::NoVersionFound) => readable(segs, tags) && latest_index(segs, tags) is None,
                Ok(Outcome::Print(name)) => readable(segs, tags) && !args.checkout && latest_index(segs, tags) is Some
                    && name@ == tags[latest_index(segs, tags).unwrap()]@,
                Ok(Outcome::Checkout(name)) => readable(segs, tags) && args.checkout && latest_index(segs, tags) is Some
                    && name@ == tags[latest_index(segs, tags).unwrap()]@,
                Ok(Outcome::Create(_)) => false,
            }
        }),
{
    let pattern = pattern_or_default(&args.pattern);
    let versioner = Versioner::new(candidates, pattern);
    match versioner.try_last_version() {
        Err(e) => Err(e),
        Ok(None) => Ok(Outcome::NoVersionFound),
        Ok(Some(v)) => {
            if args.checkout {
                Ok(Outcome::Checkout(v.tag))
            } else {
                Ok(Outcome::Print(v.tag))
            }
        },
    }
}

/// Decides what the next-version command does with the candidate names.
pub fn plan_next_version(candidates: Vec<String>, args: &NextVersionArgs) -> (r: Result<Outcome, VersionError>)
    ensures
        ({
            let segs = crate::pattern::segments_of(pattern_text(args.pattern));
            let tags = candidates@;
            let latest = latest_index(segs, tags);
            let next = bump(candidate_parts(segs, tags, latest.unwrap()).unwrap(), args.increment);
            match r {
                Err(e) => (!readable(segs, tags) && read_error(segs, tags, e)) || (readable(segs, tags)
                    && latest is Some && bump_error(candidate_parts(segs, tags, latest.unwrap()).unwrap(), args.increment, e)),
                Ok(Outcome::NoVersionFound) => readable(segs, tags) && latest is None,
                Ok(Outcome::Print(name)) => readable(segs, tags) && !args.create && latest is Some
                    && missing_field(candidate_parts(segs, tags, latest.unwrap()).unwrap(), args.increment) is None
                    && name@ == render_parts(segs, next),
                Ok(Outcome::Create(name)) => readable(segs, tags) && args.create && latest is Some
                    && missing_field(candidate_parts(segs, tags, latest.unwrap()).unwrap(), args.increment) is None
                    && name@ == render_parts(segs, next),
                Ok(Outcome::Checkout(_)) => false,
            }
        }),
{
    let pattern = pattern_or_default(&args.pattern);
    let versioner = Versioner::new(candidates, pattern);
    match versioner.try_next_version(args.increment) {
        Err(e) => Err(e),
        Ok(None) => Ok(Outcome::NoVersionFound),
        Ok(Some(v)) => {
            if args.create {
                Ok(Outcome::Create(v.tag))
            } else {
                Ok(Outcome::Print(v.tag))
            }
        },
    }
}

} // verus!
