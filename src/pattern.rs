use vstd::prelude::*;

use crate::digits::{
    all_digits, char_is_digit, decimal, digits_value, is_digit, parse_digits, push_decimal,
};
use crate::error::VersionError;

verus! {

/// One of the three numeric components of a version.
#[derive(Clone, Copy, Debug, PartialEq, Eq, Structural)]
pub enum Field {
    Major,
    Minor,
    Patch,
}

/// A piece of a compiled pattern: one literal character, or a placeholder
/// that stands for a run of decimal digits.
#[derive(Clone, Copy, Debug, PartialEq, Eq, Structural)]
pub enum Segment {
    Literal(char),
    Placeholder(Field),
}

/// Values extracted for (major, minor, patch); `None` for a field that the
/// pattern does not scope.
pub type Parts = (Option<nat>, Option<nat>, Option<nat>);

pub open spec fn no_parts() -> Parts {
    (None, None, None)
}

pub open spec fn part(t: Parts, f: Field) -> Option<nat> {
    match f {
        Field::Major => t.0,
        Field::Minor => t.1,
        Field::Patch => t.2,
    }
}

pub open spec fn with_part(t: Parts, f: Field, v: nat) -> Parts {
    match f {
        Field::Major => (Some(v), t.1, t.2),
        Field::Minor => (t.0, Some(v), t.2),
        Field::Patch => (t.0, t.1, Some(v)),
    }
}

/// The placeholder text that stands for `f` in a pattern.
pub open spec fn token(f: Field) -> Seq<char> {
    match f {
        Field::Major => seq!['{', 'm', 'a', 'j', 'o', 'r', '}'],
        Field::Minor => seq!['{', 'm', 'i', 'n', 'o', 'r', '}'],
        Field::Patch => seq!['{', 'p', 'a', 't', 'c', 'h', '}'],
    }
}

/// Every placeholder token is seven characters long.
pub open spec fn token_len() -> int {
    7
}

pub open spec fn token_at(t: Seq<char>, i: int, f: Field) -> bool {
    0 <= i && i + token_len() <= t.len() && t.subrange(i, i + token_len()) == token(f)
}

/// The placeholder that starts at position `i` of the pattern text, if any.
pub open spec fn placeholder_at(t: Seq<char>, i: int) -> Option<Field> {
    if token_at(t, i, Field::Major) {
        Some(Field::Major)
    } else if token_at(t, i, Field::Minor) {
        Some(Field::Minor)
    } else if token_at(t, i, Field::Patch) {
        Some(Field::Patch)
    } else {
        None
    }
}

/// The literal segment for the character at position `i` of the pattern text.
pub open spec fn literal_at(t: Seq<char>, i: int) -> Segment {
    Segment::Literal(t[i])
}

/// The segments of the pattern text from position `i` on, read left to right.
pub open spec fn segments_from(t: Seq<char>, i: int) -> Seq<Segment>
    decreases t.len() - i,
{
    if 0 <= i < t.len() {
        match placeholder_at(t, i) {
            Some(f) => seq![Segment::Placeholder(f)] + segments_from(t, i + token_len()),
            None => seq![literal_at(t, i)] + segments_from(t, i + 1),
        }
    } else {
        Seq::empty()
    }
}

/// The segments of a whole pattern text.
pub open spec fn segments_of(t: Seq<char>) -> Seq<Segment> {
    segments_from(t, 0)
}

/// The pattern names `f` somewhere.
pub open spec fn scopes(segs: Seq<Segment>, f: Field) -> bool {
    exists|a: int| 0 <= a < segs.len() && #[trigger] segs[a] == Segment::Placeholder(f)
}

/// No placeholder occurs twice.
pub open spec fn distinct_placeholders(segs: Seq<Segment>) -> bool {
    forall|a: int, b: int|
        0 <= a < b < segs.len() && (#[trigger] segs[a]) is Placeholder ==> segs[a] != #[trigger] segs[b]
}

/// Number of consecutive digits of `s` from position `j`.
pub open spec fn digit_run(s: Seq<char>, j: int) -> nat
    decreases s.len() - j,
{
    if 0 <= j < s.len() && is_digit(s[j]) {
        1 + digit_run(s, j + 1)
    } else {
        0
    }
}

/// Matches `segs[i..]` against all of `s[j..]`, as an anchored regular expression
/// made of the literals and one `\d+` group per placeholder: each group takes the
/// longest run of digits after which the rest still matches.
pub open spec fn match_at(segs: Seq<Segment>, i: int, s: Seq<char>, j: int) -> Option<Parts>
    decreases segs.len() - i, s.len() + 1,
{
    if i < 0 || j < 0 || j > s.len() {
        None
    } else if i >= segs.len() {
        if j == s.len() {
            Some(no_parts())
        } else {
            None
        }
    } else {
        match segs[i] {
            Segment::Literal(c) => {
                if j < s.len() && s[j] == c {
                    match_at(segs, i + 1, s, j + 1)
                } else {
                    None
                }
            },
            Segment::Placeholder(_) => {
                let r = digit_run(s, j);
                if r <= s.len() {
                    try_run(segs, i, s, j, r)
                } else {
                    None
                }
            },
        }
    }
}

/// Tries the placeholder `segs[i]` on `k`, `k - 1`, ..., `1` digits from `s[j]`,
/// and keeps the first length after which the rest matches.
pub open spec fn try_run(segs: Seq<Segment>, i: int, s: Seq<char>, j: int, k: nat) -> Option<Parts>
    decreases segs.len() - i, k,
{
    if 0 <= i < segs.len() && k > 0 {
        match segs[i] {
            Segment::Placeholder(f) => match match_at(segs, i + 1, s, j + k) {
                Some(t) => Some(with_part(t, f, digits_value(s.subrange(j, j + k)))),
                None => try_run(segs, i, s, j, (k - 1) as nat),
            },
            Segment::Literal(_) => None,
        }
    } else {
        None
    }
}

/// The parts that the pattern reads from the whole of `s`, or `None` where `s`
/// does not match.
pub open spec fn parse_parts(segs: Seq<Segment>, s: Seq<char>) -> Option<Parts> {
    match_at(segs, 0, s, 0)
}

/// Some extracted value does not fit in a `u32`.
pub open spec fn out_of_range(t: Parts) -> bool {
    ||| (t.0 is Some && t.0.unwrap() > u32::MAX)
    ||| (t.1 is Some && t.1.unwrap() > u32::MAX)
    ||| (t.2 is Some && t.2.unwrap() > u32::MAX)
}

pub open spec fn opt_nat(v: Option<u32>) -> Option<nat> {
    match v {
        Some(x) => Some(x as nat),
        None => None,
    }
}

/// Outcome of matching a candidate against a template.
#[derive(Clone, Copy, Debug, PartialEq, Eq, Structural)]
pub enum Matched {
    /// The candidate does not have the shape of the pattern.
    NoMatch,
    /// The candidate matches; the values of the scoped fields.
    Values(Option<u32>, Option<u32>, Option<u32>),
    /// The candidate matches, but some digit run is too large for a `u32`.
    OutOfRange,
}

/// `m` is the executable form of the model outcome `p`.
pub open spec fn matched_as(m: Matched, p: Option<Parts>) -> bool {
    match m {
        Matched::NoMatch => p is None,
        Matched::Values(a, b, c) => p == Some((opt_nat(a), opt_nat(b), opt_nat(c))),
        Matched::OutOfRange => p is Some && out_of_range(p.unwrap()),
    }
}

/// The value given for `f` in a (major, minor, patch) triple.
pub open spec fn value_of(v: (nat, nat, nat), f: Field) -> nat {
    match f {
        Field::Major => v.0,
        Field::Minor => v.1,
        Field::Patch => v.2,
    }
}

/// One segment written out: a literal as itself, a placeholder as the decimal
/// rendering of its value.
pub open spec fn piece(seg: Segment, v: (nat, nat, nat)) -> Seq<char> {
    match seg {
        Segment::Literal(c) => seq![c],
        Segment::Placeholder(f) => decimal(value_of(v, f)),
    }
}

/// `segs[i..]` written out piece by piece.
pub open spec fn render_from(segs: Seq<Segment>, i: int, v: (nat, nat, nat)) -> Seq<char>
    decreases segs.len() - i,
{
    if 0 <= i < segs.len() {
        piece(segs[i], v) + render_from(segs, i + 1, v)
    } else {
        Seq::empty()
    }
}

/// The whole pattern written out with the given values.
pub open spec fn render_parts(segs: Seq<Segment>, v: (nat, nat, nat)) -> Seq<char> {
    render_from(segs, 0, v)
}

/// Some segment of `segs[i..]` is the placeholder for `f`.
pub open spec fn scopes_from(segs: Seq<Segment>, i: int, f: Field) -> bool {
    exists|a: int| i <= a < segs.len() && #[trigger] segs[a] == Segment::Placeholder(f)
}

/// A match reads a value for exactly the fields that `segs[i..]` scopes.
pub proof fn lemma_match_shape(segs: Seq<Segment>, i: int, s: Seq<char>, j: int)
    requires
        0 <= i <= segs.len(),
    ensures
        match_at(segs, i, s, j) is Some ==> forall|f: Field|
            (#[trigger] part(match_at(segs, i, s, j).unwrap(), f) is Some) == scopes_from(segs, i, f),
    decreases segs.len() - i, s.len() + 1,
{
    if j < 0 || j > s.len() {
    } else if i >= segs.len() {
    } else {
        match segs[i] {
            Segment::Literal(c) => {
                if j < s.len() && s[j] == c {
                    lemma_match_shape(segs, i + 1, s, j + 1);
                    assert forall|f: Field| scopes_from(segs, i, f) == scopes_from(segs, i + 1, f) by {
                        if scopes_from(segs, i, f) {
                            let a = choose|a: int| i <= a < segs.len() && #[trigger] segs[a] == Segment::Placeholder(f);
                            assert(a != i);
                        }
                    }
                }
            },
            Segment::Placeholder(_) => {
                let r = digit_run(s, j);
                if r <= s.len() {
                    lemma_try_shape(segs, i, s, j, r);
                }
            },
        }
    }
}

/// `lemma_match_shape` for the attempts of one placeholder.
pub proof fn lemma_try_shape(segs: Seq<Segment>, i: int, s: Seq<char>, j: int, k: nat)
    requires
        0 <= i < segs.len(),
    ensures
        try_run(segs, i, s, j, k) is Some ==> forall|f: Field|
            (#[trigger] part(try_run(segs, i, s, j, k).unwrap(), f) is Some) == scopes_from(segs, i, f),
    decreases segs.len() - i, k,
{
    if k > 0 {
        match segs[i] {
            Segment::Placeholder(g) => {
                lemma_match_shape(segs, i + 1, s, j + k);
                if match_at(segs, i + 1, s, j + k) is None {
                    lemma_try_shape(segs, i, s, j, (k - 1) as nat);
                } else {
                    let t = match_at(segs, i + 1, s, j + k).unwrap();
                    let u = try_run(segs, i, s, j, k).unwrap();
                    assert(u == with_part(t, g, digits_value(s.subrange(j, j + k))));
                    assert forall|f: Field| (#[trigger] part(u, f) is Some) == scopes_from(segs, i, f) by {
                        assert(part(t, f) is Some == scopes_from(segs, i + 1, f));
                        if f == g {
                            assert(segs[i] == Segment::Placeholder(g));
                        } else if scopes_from(segs, i, f) {
                            let a = choose|a: int| i <= a < segs.len() && #[trigger] segs[a] == Segment::Placeholder(f);
                            assert(a != i);
                        } else if scopes_from(segs, i + 1, f) {
                            let a = choose|a: int| i + 1 <= a < segs.len() && #[trigger] segs[a] == Segment::Placeholder(f);
                            assert(false);
                        }
                    }
                }
            },
            Segment::Literal(_) => {},
        }
    }
}

/// The digits from `j` on: where the run ends, and that it is all digits.
pub proof fn lemma_digit_run(s: Seq<char>, j: int)
    requires
        0 <= j <= s.len(),
    ensures
        j + digit_run(s, j) <= s.len(),
        forall|p: int| j <= p < j + digit_run(s, j) ==> is_digit(#[trigger] s[p]),
        j + digit_run(s, j) < s.len() ==> !is_digit(s[j + digit_run(s, j)]),
    decreases s.len() - j,
{
    if j < s.len() && is_digit(s[j]) {
        lemma_digit_run(s, j + 1);
    }
}

fn token_chars(f: Field) -> (r: Vec<char>)
    ensures
        r@ == token(f),
{
    let r = match f {
        Field::Major => vec!['{', 'm', 'a', 'j', 'o', 'r', '}'],
        Field::Minor => vec!['{', 'm', 'i', 'n', 'o', 'r', '}'],
        Field::Patch => vec!['{', 'p', 'a', 't', 'c', 'h', '}'],
    };
    assert(r@ =~= token(f));
    r
}

fn is_token_at(t: &Vec<char>, i: usize, f: Field) -> (r: bool)
    requires
        i <= t@.len(),
    ensures
        r == token_at(t@, i as int, f),
{
    let tok = token_chars(f);
    let n = t.len();
    if n - i < 7 {
        return false;
    }
    let mut k: usize = 0;
    while k < 7
        invariant
            n == t@.len(),
            i + 7 <= t@.len(),
            tok@ == token(f),
            k <= 7,
            forall|m: int| 0 <= m < k ==> t@[i + m] == tok@[m],
        decreases 7 - k,
    {
        if t[i + k] != tok[k] {
            assert(t@.subrange(i as int, i + 7)[k as int] != token(f)[k as int]);
            return false;
        }
        k = k + 1;
    }
    assert(t@.subrange(i as int, i + 7) =~= token(f));
    true
}

fn placeholder_at_exec(t: &Vec<char>, i: usize) -> (r: Option<Field>)
    requires
        i <= t@.len(),
    ensures
        r == placeholder_at(t@, i as int),
{
    if is_token_at(t, i, Field::Major) {
        Some(Field::Major)
    } else if is_token_at(t, i, Field::Minor) {
        Some(Field::Minor)
    } else if is_token_at(t, i, Field::Patch) {
        Some(Field::Patch)
    } else {
        None
    }
}

/// The characters of `s`, in order.
pub fn chars_of(s: &str) -> (r: Vec<char>)
    ensures
        r@ == s@,
{
    let n = s.unicode_len();
    let mut r: Vec<char> = Vec::new();
    let mut i: usize = 0;
    while i < n
        invariant
            n == s@.len(),
            i <= n,
            r@ == s@.subrange(0, i as int),
        decreases n - i,
    {
        r.push(s.get_char(i));
        i = i + 1;
        assert(r@ =~= s@.subrange(0, i as int));
    }
    assert(r@ =~= s@);
    r
}

/// Relies on `String`'s `FromIterator<char>`: the string holds the characters in order.
#[verifier::external_body]
fn string_from_chars(chars: &Vec<char>) -> (r: String)
    ensures
        r@ == chars@,
{
    chars.iter().collect()
}

/// The number of digits of `s` from position `j`.
fn run_length(s: &Vec<char>, j: usize) -> (r: usize)
    requires
        j <= s@.len(),
    ensures
        r as nat == digit_run(s@, j as int),
        j + r <= s@.len(),
{
    let mut p = j;
    while p < s.len() && char_is_digit(s[p])
        invariant
            j <= p <= s@.len(),
            digit_run(s@, j as int) == (p - j) + digit_run(s@, p as int),
        decreases s@.len() - p,
    {
        p = p + 1;
    }
    p - j
}

fn with_value(m: Matched, f: Field, v: u32) -> (r: Matched)
    requires
        m is Values,
    ensures
        match m {
            Matched::Values(a, b, c) => match f {
                Field::Major => r == Matched::Values(Some(v), b, c),
                Field::Minor => r == Matched::Values(a, Some(v), c),
                Field::Patch => r == Matched::Values(a, b, Some(v)),
            },
            _ => false,
        },
{
    match m {
        Matched::Values(a, b, c) => match f {
            Field::Major => Matched::Values(Some(v), b, c),
            Field::Minor => Matched::Values(a, Some(v), c),
            Field::Patch => Matched::Values(a, b, Some(v)),
        },
        _ => m,
    }
}

/// Executable form of `match_at`.
fn match_from(segs: &Vec<Segment>, i: usize, s: &Vec<char>, j: usize) -> (r: Matched)
    requires
        i <= segs@.len(),
        j <= s@.len(),
        distinct_placeholders(segs@),
    ensures
        matched_as(r, match_at(segs@, i as int, s@, j as int)),
    decreases segs@.len() - i,
{
    let n = segs.len();
    let m = s.len();
    if i == segs.len() {
        if j == s.len() {
            return Matched::Values(None, None, None);
        } else {
            return Matched::NoMatch;
        }
    }
    match segs[i] {
        Segment::Literal(c) => {
            if j < s.len() && s[j] == c {
                match_from(segs, i + 1, s, j + 1)
            } else {
                Matched::NoMatch
            }
        },
        Segment::Placeholder(f) => {
            let run = run_length(s, j);
            proof {
                lemma_digit_run(s@, j as int);
            }
            let mut k = run;
            while k > 0
                invariant
                    n == segs@.len(),
                    m == s@.len(),
                    distinct_placeholders(segs@),
                    i < segs@.len(),
                    segs@[i as int] == Segment::Placeholder(f),
                    j + run <= s@.len(),
                    run as nat == digit_run(s@, j as int),
                    k <= run,
                    forall|p: int| j <= p < j + run ==> is_digit(#[trigger] s@[p]),
                    match_at(segs@, i as int, s@, j as int) == try_run(segs@, i as int, s@, j as int, k as nat),
                decreases k,
            {
                let inner = match_from(segs, i + 1, s, j + k);
                match inner {
                    Matched::NoMatch => {
                        k = k - 1;
                    },
                    Matched::OutOfRange => {
                        proof {
                            lemma_match_shape(segs@, i + 1, s@, j + k);
                            if scopes_from(segs@, i + 1, f) {
                                let a = choose|a: int| i + 1 <= a < segs@.len() && #[trigger] segs@[a] == Segment::Placeholder(f);
                                assert(segs@[i as int] == segs@[a]);
                            }
                            let t = match_at(segs@, i + 1, s@, j + k).unwrap();
                            assert(part(t, f) is None);
                            assert(out_of_range(with_part(t, f, digits_value(s@.subrange(j as int, j + k)))));
                        }
                        return Matched::OutOfRange;
                    },
                    Matched::Values(_, _, _) => {
                        assert(all_digits(s@.subrange(j as int, j + k)));
                        match parse_digits(s, j, j + k) {
                            None => {
                                return Matched::OutOfRange;
                            },
                            Some(v) => {
                                return with_value(inner, f, v);
                            },
                        }
                    },
                }
            }
            Matched::NoMatch
        },
    }
}

fn value_for(f: Field, major: u32, minor: u32, patch: u32) -> (r: u32)
    ensures
        r as nat == value_of((major as nat, minor as nat, patch as nat), f),
{
    match f {
        Field::Major => major,
        Field::Minor => minor,
        Field::Patch => patch,
    }
}

/// A compiled pattern.
pub struct Template {
    segments: Vec<Segment>,
}

impl View for Template {
    type V = Seq<Segment>;

    closed spec fn view(&self) -> Seq<Segment> {
        self.segments@
    }
}

fn field_index(f: Field) -> (r: usize)
    ensures
        r < 3,
        r == field_slot(f),
{
    match f {
        Field::Major => 0,
        Field::Minor => 1,
        Field::Patch => 2,
    }
}

pub open spec fn field_slot(f: Field) -> nat {
    match f {
        Field::Major => 0,
        Field::Minor => 1,
        Field::Patch => 2,
    }
}

impl Template {
    /// A compiled template never names a placeholder twice.
    pub closed spec fn wf(&self) -> bool {
        distinct_placeholders(self.segments@)
    }

    /// Matches a whole candidate against the pattern and reads the values of
    /// the placeholders.
    pub fn parse(&self, candidate: &str) -> (r: Matched)
        requires
            self.wf(),
        ensures
            matched_as(r, parse_parts(self@, candidate@)),
    {
        let s = chars_of(candidate);
        match_from(&self.segments, 0, &s, 0)
    }

    /// The pattern written out with the given values in place of its placeholders.
    pub fn render(&self, major: u32, minor: u32, patch: u32) -> (r: String)
        ensures
            r@ == render_parts(self@, (major as nat, minor as nat, patch as nat)),
    {
        let ghost v = (major as nat, minor as nat, patch as nat);
        let ghost segs = self@;
        let mut out: Vec<char> = Vec::new();
        let mut i: usize = 0;
        while i < self.segments.len()
            invariant
                segs == self.segments@,
                v == (major as nat, minor as nat, patch as nat),
                i <= segs.len(),
                out@ + render_from(segs, i as int, v) == render_from(segs, 0, v),
            decreases segs.len() - i,
        {
            let ghost before = out@;
            assert(render_from(segs, i as int, v) == piece(segs[i as int], v) + render_from(segs, i + 1, v));
            match self.segments[i] {
                Segment::Literal(c) => {
                    out.push(c);
                    assert(piece(segs[i as int], v) == seq![c]);
                    assert(out@ == before + seq![c]);
                },
                Segment::Placeholder(f) => {
                    let x = value_for(f, major, minor, patch);
                    push_decimal(x, &mut out);
                    assert(piece(segs[i as int], v) == decimal(x as nat));
                },
            }
            assert(out@ + render_from(segs, i + 1, v) =~= before + render_from(segs, i as int, v));
            i = i + 1;
        }
        assert(out@ =~= render_from(segs, 0, v));
        string_from_chars(&out)
    }

    /// Compiles a pattern text. Each of `{major}`, `{minor}` and `{patch}` becomes a
    /// placeholder; every other character stands for itself. A pattern that
    /// names one placeholder twice is refused.
    pub fn compile(pattern: &str) -> (r: Result<Template, VersionError>)
        ensures
            match r {
                Ok(t) => t@ == segments_of(pattern@) && distinct_placeholders(t@) && t.wf(),
                Err(e) => !distinct_placeholders(segments_of(pattern@)) && (e matches VersionError::DuplicatePlaceholder(f) && {
                    let segs = segments_of(pattern@);
                    exists|a: int, b: int|
                        0 <= a < b < segs.len() && segs[a] == Segment::Placeholder(f) && segs[b] == Segment::Placeholder(f)
                }),
            },
    {
        let t = chars_of(pattern);
        let ghost whole = segments_of(t@);
        let mut segs: Vec<Segment> = Vec::new();
        let mut seen: Vec<bool> = vec![false, false, false];
        let mut i: usize = 0;
        while i < t.len()
            invariant
                i <= t@.len(),
                t@ == pattern@,
                whole == segments_of(t@),
                segs@ + segments_from(t@, i as int) == whole,
                distinct_placeholders(segs@),
                seen@.len() == 3,
                forall|f: Field| #[trigger] seen@[field_slot(f) as int] == scopes(segs@, f),
            decreases t@.len() - i,
        {
            let ghost before = segs@;
            match placeholder_at_exec(&t, i) {
                Some(f) => {
                    let slot = field_index(f);
                    if seen[slot] {
                        proof {
                            let a = choose|a: int| 0 <= a < before.len() && #[trigger] before[a] == Segment::Placeholder(f);
                            assert(whole[a] == before[a]);
                            assert(whole[before.len() as int] == Segment::Placeholder(f));
                        }
                        return Err(VersionError::DuplicatePlaceholder(f));
                    }
                    segs.push(Segment::Placeholder(f));
                    seen.set(slot, true);
                    assert(segs@ + segments_from(t@, i + 7) =~= before + segments_from(t@, i as int));
                    proof {
                        assert forall|g: Field| #[trigger] seen@[field_slot(g) as int] == scopes(segs@, g) by {
                            if g == f {
                                assert(segs@[before.len() as int] == Segment::Placeholder(f));
                            } else {
                                if scopes(segs@, g) {
                                    let a = choose|a: int| 0 <= a < segs@.len() && #[trigger] segs@[a] == Segment::Placeholder(g);
                                    assert(before[a] == Segment::Placeholder(g));
                                }
                                if scopes(before, g) {
                                    let a = choose|a: int| 0 <= a < before.len() && #[trigger] before[a] == Segment::Placeholder(g);
                                    assert(segs@[a] == Segment::Placeholder(g));
                                }
                            }
                        }
                    }
                    i = i + 7;
                },
                None => {
                    let c = t[i];
                    segs.push(Segment::Literal(c));
                    assert(segs@ + segments_from(t@, i + 1) =~= before + segments_from(t@, i as int));
                    proof {
                        assert forall|g: Field| #[trigger] seen@[field_slot(g) as int] == scopes(segs@, g) by {
                            if scopes(segs@, g) {
                                let a = choose|a: int| 0 <= a < segs@.len() && #[trigger] segs@[a] == Segment::Placeholder(g);
                                assert(segs@[before.len() as int] == Segment::Literal(c));
                                assert(a < before.len());
                                assert(before[a] == Segment::Placeholder(g));
                            }
                            if scopes(before, g) {
                                let a = choose|a: int| 0 <= a < before.len() && #[trigger] before[a] == Segment::Placeholder(g);
                                assert(segs@[a] == Segment::Placeholder(g));
                            }
                        }
                    }
                    i = i + 1;
                },
            }
        }
        assert(segs@ =~= whole);
        Ok(Template { segments: segs })
    }
}

} // verus!
