use vstd::prelude::*;

use crate::error::VersionError;
use crate::pattern::{
    distinct_placeholders, lemma_match_shape, opt_nat, out_of_range, parse_parts, part,
    render_parts, segments_of, value_of, Field, Matched, Parts, Segment, Template,
};

verus! {

/// A candidate name that matched a pattern, with the values read from it.
#[derive(Debug, PartialEq, Clone)]
pub struct Version {
    pub tag: String,
    pub major: Option<u32>,
    pub minor: Option<u32>,
    pub patch: Option<u32>,
}

/// The values of a version, as a model triple.
pub open spec fn parts_of(v: Version) -> Parts {
    (opt_nat(v.major), opt_nat(v.minor), opt_nat(v.patch))
}

impl Version {
    pub fn new(tag: String, major: Option<u32>, minor: Option<u32>, patch: Option<u32>) -> (r: Self)
        ensures
            r.tag == tag,
            r.major == major,
            r.minor == minor,
            r.patch == patch,
    {
        Self { tag, major, minor, patch }
    }
}

/// Which component of a version to advance.
#[derive(Clone, Copy, Debug, PartialEq, Eq, Structural)]
pub enum Increment {
    Major,
    Minor,
    Patch,
}

/// Compares one component; a component that either side lacks compares equal.
pub open spec fn cmp_part(a: Option<nat>, b: Option<nat>) -> int {
    if a is Some && b is Some {
        if a.unwrap() < b.unwrap() {
            -1
        } else if a.unwrap() > b.unwrap() {
            1
        } else {
            0
        }
    } else {
        0
    }
}

/// Orders two versions by major, then minor, then patch, whatever the order
/// of the placeholders in the pattern: negative, zero or positive.
pub open spec fn cmp_parts(a: Parts, b: Parts) -> int {
    if cmp_part(a.0, b.0) != 0 {
        cmp_part(a.0, b.0)
    } else if cmp_part(a.1, b.1) != 0 {
        cmp_part(a.1, b.1)
    } else {
        cmp_part(a.2, b.2)
    }
}

/// Both triples have a value for the same components.
pub open spec fn same_shape(a: Parts, b: Parts) -> bool {
    &&& (a.0 is Some) == (b.0 is Some)
    &&& (a.1 is Some) == (b.1 is Some)
    &&& (a.2 is Some) == (b.2 is Some)
}

/// What the pattern reads from candidate `i`.
pub open spec fn candidate_parts(segs: Seq<Segment>, tags: Seq<String>, i: int) -> Option<Parts> {
    parse_parts(segs, tags[i]@)
}

/// Candidate `i` matches but holds a number too large for a `u32`.
pub open spec fn malformed(segs: Seq<Segment>, tags: Seq<String>, i: int) -> bool {
    candidate_parts(segs, tags, i) is Some && out_of_range(candidate_parts(segs, tags, i).unwrap())
}

/// Candidate `i` matches, no matching candidate is greater, and every matching
/// candidate after it is smaller: the greatest version, the last one of equals.
pub open spec fn is_latest(segs: Seq<Segment>, tags: Seq<String>, i: int) -> bool {
    &&& 0 <= i < tags.len()
    &&& candidate_parts(segs, tags, i) is Some
    &&& forall|k: int|
        0 <= k < tags.len() && (#[trigger] candidate_parts(segs, tags, k)) is Some ==> {
            &&& cmp_parts(candidate_parts(segs, tags, k).unwrap(), candidate_parts(segs, tags, i).unwrap()) <= 0
            &&& (k > i ==> cmp_parts(candidate_parts(segs, tags, k).unwrap(), candidate_parts(segs, tags, i).unwrap()) < 0)
        }
}

/// The index of the latest version among the candidates, if any matches.
pub open spec fn latest_index(segs: Seq<Segment>, tags: Seq<String>) -> Option<int> {
    if exists|i: int| is_latest(segs, tags, i) {
        Some(choose|i: int| is_latest(segs, tags, i))
    } else {
        None
    }
}

/// The pattern is usable and every candidate that matches it is readable.
pub open spec fn readable(segs: Seq<Segment>, tags: Seq<String>) -> bool {
    &&& distinct_placeholders(segs)
    &&& forall|i: int| 0 <= i < tags.len() ==> !#[trigger] malformed(segs, tags, i)
}

/// Candidate `i` is the first one that is malformed.
pub open spec fn first_malformed(segs: Seq<Segment>, tags: Seq<String>, i: int) -> bool {
    &&& 0 <= i < tags.len()
    &&& malformed(segs, tags, i)
    &&& forall|k: int| 0 <= k < i ==> !#[trigger] malformed(segs, tags, k)
}

/// The pattern names placeholder `f` at least twice.
pub open spec fn names_twice(segs: Seq<Segment>, f: Field) -> bool {
    exists|a: int, b: int|
        0 <= a < b < segs.len() && segs[a] == Segment::Placeholder(f) && segs[b] == Segment::Placeholder(f)
}

/// The error that reading the candidates reports, when it fails.
pub open spec fn read_error(segs: Seq<Segment>, tags: Seq<String>, e: VersionError) -> bool {
    if !distinct_placeholders(segs) {
        e matches VersionError::DuplicatePlaceholder(f) && names_twice(segs, f)
    } else {
        &&& e is MalformedCandidate
        &&& exists|i: int| #[trigger] first_malformed(segs, tags, i) && e->MalformedCandidate_0@ == tags[i]@
    }
}

/// Under one pattern every match has values for the same components.
pub proof fn lemma_matches_same_shape(segs: Seq<Segment>, s: Seq<char>, u: Seq<char>)
    requires
        parse_parts(segs, s) is Some,
        parse_parts(segs, u) is Some,
    ensures
        same_shape(parse_parts(segs, s).unwrap(), parse_parts(segs, u).unwrap()),
{
    lemma_match_shape(segs, 0, s, 0);
    lemma_match_shape(segs, 0, u, 0);
    let a = parse_parts(segs, s).unwrap();
    let b = parse_parts(segs, u).unwrap();
    assert(part(a, Field::Major) is Some == part(b, Field::Major) is Some);
    assert(part(a, Field::Minor) is Some == part(b, Field::Minor) is Some);
    assert(part(a, Field::Patch) is Some == part(b, Field::Patch) is Some);
}

/// On triples of one shape the order is antisymmetric and transitive.
pub proof fn lemma_cmp_order(a: Parts, b: Parts, c: Parts)
    requires
        same_shape(a, b),
        same_shape(b, c),
    ensures
        cmp_parts(a, b) == -cmp_parts(b, a),
        cmp_parts(a, b) == 0 ==> a == b,
        cmp_parts(a, b) <= 0 && cmp_parts(b, c) <= 0 ==> cmp_parts(a, c) <= 0,
        cmp_parts(a, b) < 0 && cmp_parts(b, c) <= 0 ==> cmp_parts(a, c) < 0,
        cmp_parts(a, b) <= 0 && cmp_parts(b, c) < 0 ==> cmp_parts(a, c) < 0,
{
}

/// Only one candidate can be the latest.
pub proof fn lemma_latest_unique(segs: Seq<Segment>, tags: Seq<String>, i: int, j: int)
    requires
        is_latest(segs, tags, i),
        is_latest(segs, tags, j),
    ensures
        i == j,
{
    let a = candidate_parts(segs, tags, i).unwrap();
    let b = candidate_parts(segs, tags, j).unwrap();
    lemma_matches_same_shape(segs, tags[i]@, tags[j]@);
    lemma_cmp_order(a, b, b);
    assert(cmp_parts(b, a) <= 0);
    assert(cmp_parts(a, b) <= 0);
}

/// The first field that an increment needs and the triple lacks: the
/// incremented field and every field of higher priority.
pub open spec fn missing_field(t: Parts, inc: Increment) -> Option<Field> {
    if t.0 is None {
        Some(Field::Major)
    } else if inc != Increment::Major && t.1 is None {
        Some(Field::Minor)
    } else if inc == Increment::Patch && t.2 is None {
        Some(Field::Patch)
    } else {
        None
    }
}

/// The field that an increment advances.
pub open spec fn bumped_field(inc: Increment) -> Field {
    match inc {
        Increment::Major => Field::Major,
        Increment::Minor => Field::Minor,
        Increment::Patch => Field::Patch,
    }
}

/// The next version: the chosen field plus one, the fields below it zero.
pub open spec fn bump(t: Parts, inc: Increment) -> (nat, nat, nat) {
    match inc {
        Increment::Major => (t.0.unwrap() + 1, 0, 0),
        Increment::Minor => (t.0.unwrap(), t.1.unwrap() + 1, 0),
        Increment::Patch => (t.0.unwrap(), t.1.unwrap(), t.2.unwrap() + 1),
    }
}

/// The advanced field would not fit in a `u32`.
pub open spec fn bump_overflows(t: Parts, inc: Increment) -> bool {
    value_of(bump(t, inc), bumped_field(inc)) > u32::MAX
}

/// The error that advancing the version `t` reports, when it fails.
pub open spec fn bump_error(t: Parts, inc: Increment, e: VersionError) -> bool {
    match missing_field(t, inc) {
        Some(f) => e == VersionError::IncrementFieldMissing(f),
        None => bump_overflows(t, inc) && e == VersionError::IncrementOverflow(bumped_field(inc)),
    }
}

/// Every component present, with the values of `v`.
pub open spec fn full_parts(v: (nat, nat, nat)) -> Parts {
    (Some(v.0), Some(v.1), Some(v.2))
}

fn cmp_part_exec(a: Option<u32>, b: Option<u32>) -> (r: i8)
    ensures
        r as int == cmp_part(opt_nat(a), opt_nat(b)),
{
    match (a, b) {
        (Some(x), Some(y)) => {
            if x < y {
                -1
            } else if x > y {
                1
            } else {
                0
            }
        },
        _ => 0,
    }
}

fn cmp_versions(a: (Option<u32>, Option<u32>, Option<u32>), b: (Option<u32>, Option<u32>, Option<u32>)) -> (r: i8)
    ensures
        r as int == cmp_parts((opt_nat(a.0), opt_nat(a.1), opt_nat(a.2)), (opt_nat(b.0), opt_nat(b.1), opt_nat(b.2))),
{
    let c = cmp_part_exec(a.0, b.0);
    if c != 0 {
        return c;
    }
    let c = cmp_part_exec(a.1, b.1);
    if c != 0 {
        return c;
    }
    cmp_part_exec(a.2, b.2)
}

/// Finds versions among a set of candidate names by a pattern.
pub struct Versioner {
    tags: Vec<String>,
    pattern: String,
}

impl Versioner {
    /// The candidate names.
    pub closed spec fn tags_view(&self) -> Seq<String> {
        self.tags@
    }

    /// The pattern text.
    pub closed spec fn pattern_view(&self) -> Seq<char> {
        self.pattern@
    }

    /// The compiled form of the pattern.
    pub open spec fn segments(&self) -> Seq<Segment> {
        segments_of(self.pattern_view())
    }

    pub fn new(tags: Vec<String>, pattern: String) -> (r: Self)
        ensures
            r.tags_view() == tags@,
            r.pattern_view() == pattern@,
    {
        Self { tags, pattern }
    }

    /// The latest version among the candidates: the greatest by major, then
    /// minor, then patch, and of equal ones the last. `Ok(None)` when no
    /// candidate matches the pattern.
    pub fn try_last_version(&self) -> (r: Result<Option<Version>, VersionError>)
        ensures
            ({
                let segs = self.segments();
                let tags = self.tags_view();
                match r {
                    Err(e) => !readable(segs, tags) && read_error(segs, tags, e),
                    Ok(None) => readable(segs, tags) && latest_index(segs, tags) is None
                        && forall|i: int| 0 <= i < tags.len() ==> #[trigger] candidate_parts(segs, tags, i) is None,
                    Ok(Some(v)) => readable(segs, tags) && latest_index(segs, tags) is Some && {
                        let i = latest_index(segs, tags).unwrap();
                        &&& is_latest(segs, tags, i)
                        &&& v.tag@ == tags[i]@
                        &&& Some(parts_of(v)) == candidate_parts(segs, tags, i)
                    },
                }
            }),
    {
        let template = match Template::compile(self.pattern.as_str()) {
            Ok(t) => t,
            Err(e) => {
                return Err(e);
            },
        };
        let r = self.select(&template);
        proof {
            let segs = self.segments();
            let tags = self.tags_view();
            if r is Ok && r->Ok_0 is Some {
                let v = r->Ok_0->Some_0;
                let i = choose|i: int| is_latest(segs, tags, i) && v.tag@ == tags[i]@
                    && Some(parts_of(v)) == candidate_parts(segs, tags, i);
                lemma_latest_unique(segs, tags, i, latest_index(segs, tags).unwrap());
            } else if r is Ok {
                if exists|i: int| is_latest(segs, tags, i) {
                    let i = choose|i: int| is_latest(segs, tags, i);
                    assert(candidate_parts(segs, tags, i) is Some);
                }
            }
        }
        r
    }

    /// The latest version among the candidates, or `None` when no candidate
    /// matches the pattern.
    pub fn last_version(&self) -> (r: Option<Version>)
        requires
            readable(self.segments(), self.tags_view()),
        ensures
            ({
                let segs = self.segments();
                let tags = self.tags_view();
                match r {
                    None => latest_index(segs, tags) is None
                        && forall|i: int| 0 <= i < tags.len() ==> #[trigger] candidate_parts(segs, tags, i) is None,
                    Some(v) => latest_index(segs, tags) is Some && {
                        let i = latest_index(segs, tags).unwrap();
                        &&& is_latest(segs, tags, i)
                        &&& v.tag@ == tags[i]@
                        &&& Some(parts_of(v)) == candidate_parts(segs, tags, i)
                    },
                }
            }),
    {
        match self.try_last_version() {
            Ok(r) => r,
            Err(_) => None,
        }
    }

    /// The version after the latest one, by `increment`, written out through
    /// the pattern. `Ok(None)` when no candidate matches the pattern.
    pub fn try_next_version(&self, increment: Increment) -> (r: Result<Option<Version>, VersionError>)
        ensures
            ({
                let segs = self.segments();
                let tags = self.tags_view();
                let latest = latest_index(segs, tags);
                match r {
                    Err(e) => (!readable(segs, tags) && read_error(segs, tags, e)) || (readable(segs, tags)
                        && latest is Some && bump_error(candidate_parts(segs, tags, latest.unwrap()).unwrap(), increment, e)),
                    Ok(None) => readable(segs, tags) && latest is None,
                    Ok(Some(v)) => readable(segs, tags) && latest is Some && {
                        let t = candidate_parts(segs, tags, latest.unwrap()).unwrap();
                        &&& missing_field(t, increment) is None
                        &&& !bump_overflows(t, increment)
                        &&& parts_of(v) == full_parts(bump(t, increment))
                        &&& v.tag@ == render_parts(segs, bump(t, increment))
                    },
                }
            }),
    {
        let template = match Template::compile(self.pattern.as_str()) {
            Ok(t) => t,
            Err(e) => {
                return Err(e);
            },
        };
        let found = self.select(&template);
        let ghost segs = self.segments();
        let ghost tags = self.tags_view();
        let last = match found {
            Err(e) => {
                return Err(e);
            },
            Ok(None) => {
                proof {
                    if exists|i: int| is_latest(segs, tags, i) {
                        let i = choose|i: int| is_latest(segs, tags, i);
                        assert(candidate_parts(segs, tags, i) is Some);
                    }
                }
                return Ok(None);
            },
            Ok(Some(v)) => v,
        };
        proof {
            let i = choose|i: int| is_latest(segs, tags, i) && last.tag@ == tags[i]@
                && Some(parts_of(last)) == candidate_parts(segs, tags, i);
            lemma_latest_unique(segs, tags, i, latest_index(segs, tags).unwrap());
        }
        let (major, minor, patch): (u32, u32, u32) = match increment {
            Increment::Major => {
                let major = match last.major {
                    Some(x) => x,
                    None => {
                        return Err(VersionError::IncrementFieldMissing(Field::Major));
                    },
                };
                if major == u32::MAX {
                    return Err(VersionError::IncrementOverflow(Field::Major));
                }
                (major + 1, 0, 0)
            },
            Increment::Minor => {
                let major = match last.major {
                    Some(x) => x,
                    None => {
                        return Err(VersionError::IncrementFieldMissing(Field::Major));
                    },
                };
                let minor = match last.minor {
                    Some(x) => x,
                    None => {
                        return Err(VersionError::IncrementFieldMissing(Field::Minor));
                    },
                };
                if minor == u32::MAX {
                    return Err(VersionError::IncrementOverflow(Field::Minor));
                }
                (major, minor + 1, 0)
            },
            Increment::Patch => {
                let major = match last.major {
                    Some(x) => x,
                    None => {
                        return Err(VersionError::IncrementFieldMissing(Field::Major));
                    },
                };
                let minor = match last.minor {
                    Some(x) => x,
                    None => {
                        return Err(VersionError::IncrementFieldMissing(Field::Minor));
                    },
                };
                let patch = match last.patch {
                    Some(x) => x,
                    None => {
                        return Err(VersionError::IncrementFieldMissing(Field::Patch));
                    },
                };
                if patch == u32::MAX {
                    return Err(VersionError::IncrementOverflow(Field::Patch));
                }
                (major, minor, patch + 1)
            },
        };
        let tag = template.render(major, minor, patch);
        Ok(Some(Version::new(tag, Some(major), Some(minor), Some(patch))))
    }

    /// The version after the latest one, by `increment`, written out through
    /// the pattern; `None` when no candidate matches the pattern.
    pub fn next_version(&self, increment: Increment) -> (r: Option<Version>)
        requires
            readable(self.segments(), self.tags_view()),
            ({
                let latest = latest_index(self.segments(), self.tags_view());
                latest is Some ==> {
                    let t = candidate_parts(self.segments(), self.tags_view(), latest.unwrap()).unwrap();
                    missing_field(t, increment) is None && !bump_overflows(t, increment)
                }
            }),
        ensures
            ({
                let segs = self.segments();
                let tags = self.tags_view();
                let latest = latest_index(segs, tags);
                match r {
                    None => latest is None,
                    Some(v) => latest is Some && {
                        let t = candidate_parts(segs, tags, latest.unwrap()).unwrap();
                        &&& parts_of(v) == full_parts(bump(t, increment))
                        &&& v.tag@ == render_parts(segs, bump(t, increment))
                    },
                }
            }),
    {
        match self.try_next_version(increment) {
            Ok(r) => r,
            Err(_) => None,
        }
    }

    /// Reads every candidate through `template` and keeps the latest.
    fn select(&self, template: &Template) -> (r: Result<Option<Version>, VersionError>)
        requires
            template.wf(),
            template@ == self.segments(),
            distinct_placeholders(self.segments()),
        ensures
            ({
                let segs = self.segments();
                let tags = self.tags_view();
                match r {
                    Err(e) => !readable(segs, tags) && read_error(segs, tags, e),
                    Ok(None) => readable(segs, tags) && forall|i: int|
                        0 <= i < tags.len() ==> #[trigger] candidate_parts(segs, tags, i) is None,
                    Ok(Some(v)) => readable(segs, tags) && exists|i: int|
                        is_latest(segs, tags, i) && v.tag@ == tags[i]@
                            && Some(parts_of(v)) == candidate_parts(segs, tags, i),
                }
            }),
    {
        let ghost segs = self.segments();
        let ghost tags = self.tags_view();
        let mut best: Option<usize> = None;
        let mut best_parts: (Option<u32>, Option<u32>, Option<u32>) = (None, None, None);
        let mut i: usize = 0;
        while i < self.tags.len()
            invariant
                segs == self.segments(),
                segs == template@,
                template.wf(),
                distinct_placeholders(segs),
                tags == self.tags_view(),
                tags == self.tags@,
                i <= tags.len(),
                forall|k: int| 0 <= k < i ==> !#[trigger] malformed(segs, tags, k),
                match best {
                    None => forall|k: int| 0 <= k < i ==> #[trigger] candidate_parts(segs, tags, k) is None,
                    Some(b) => {
                        &&& b < i
                        &&& candidate_parts(segs, tags, b as int)
                            == Some((opt_nat(best_parts.0), opt_nat(best_parts.1), opt_nat(best_parts.2)))
                        &&& forall|k: int|
                            0 <= k < i && (#[trigger] candidate_parts(segs, tags, k)) is Some ==> {
                                &&& cmp_parts(candidate_parts(segs, tags, k).unwrap(), candidate_parts(segs, tags, b as int).unwrap()) <= 0
                                &&& (k > b ==> cmp_parts(candidate_parts(segs, tags, k).unwrap(), candidate_parts(segs, tags, b as int).unwrap()) < 0)
                            }
                    },
                },
            decreases tags.len() - i,
        {
            let m = template.parse(self.tags[i].as_str());
            match m {
                Matched::NoMatch => {},
                Matched::OutOfRange => {
                    let name = self.tags[i].clone();
                    let e = VersionError::MalformedCandidate(name);
                    assert(first_malformed(segs, tags, i as int));
                    return Err(e);
                },
                Matched::Values(a, b, c) => {
                    let ghost cur = (opt_nat(a), opt_nat(b), opt_nat(c));
                    match best {
                        None => {
                            best = Some(i);
                            best_parts = (a, b, c);
                        },
                        Some(bi) => {
                            let ord = cmp_versions((a, b, c), best_parts);
                            proof {
                                let old_best = candidate_parts(segs, tags, bi as int).unwrap();
                                assert forall|k: int|
                                    0 <= k < i && (#[trigger] candidate_parts(segs, tags, k)) is Some implies
                                        same_shape(candidate_parts(segs, tags, k).unwrap(), cur) by {
                                    lemma_matches_same_shape(segs, tags[k]@, tags[i as int]@);
                                }
                                lemma_matches_same_shape(segs, tags[bi as int]@, tags[i as int]@);
                                if ord >= 0 {
                                    assert forall|k: int|
                                        0 <= k < i && (#[trigger] candidate_parts(segs, tags, k)) is Some implies
                                            cmp_parts(candidate_parts(segs, tags, k).unwrap(), cur) <= 0
                                            && (k > i ==> cmp_parts(candidate_parts(segs, tags, k).unwrap(), cur) < 0) by {
                                        lemma_matches_same_shape(segs, tags[k]@, tags[bi as int]@);
                                        lemma_cmp_order(candidate_parts(segs, tags, k).unwrap(), old_best, cur);
                                        lemma_cmp_order(cur, old_best, old_best);
                                    }
                                } else {
                                    lemma_cmp_order(cur, old_best, old_best);
                                }
                            }
                            if ord >= 0 {
                                best = Some(i);
                                best_parts = (a, b, c);
                            }
                        },
                    }
                },
            }
            i = i + 1;
        }
        match best {
            None => Ok(None),
            Some(bi) => {
                let tag = self.tags[bi].clone();
                Ok(Some(Version::new(tag, best_parts.0, best_parts.1, best_parts.2)))
            },
        }
    }
}

} // verus!
