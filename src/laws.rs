use vstd::prelude::*;

use crate::digits::{all_digits, decimal, digits_value, is_digit, lemma_decimal};
use crate::pattern::{
    digit_run, lemma_digit_run, match_at, parse_parts, part, piece, render_from, render_parts,
    scopes, scopes_from, try_run, value_of, with_part, Field, Parts, Segment,
};
use crate::versioning::{bump, full_parts, Increment};

verus! {

/// Every placeholder is followed by the end of the pattern or by a literal
/// that is not a digit, so that the end of each number is plain to see.
pub open spec fn placeholders_delimited(segs: Seq<Segment>) -> bool {
    forall|a: int|
        0 <= a < segs.len() && (#[trigger] segs[a]) is Placeholder ==> a + 1 == segs.len() || (
        segs[a + 1] is Literal && !is_digit(segs[a + 1]->Literal_0))
}

/// The values of `v` for the fields that the pattern scopes.
pub open spec fn scoped_parts(segs: Seq<Segment>, v: (nat, nat, nat)) -> Parts {
    (
        if scopes(segs, Field::Major) { Some(v.0) } else { None },
        if scopes(segs, Field::Minor) { Some(v.1) } else { None },
        if scopes(segs, Field::Patch) { Some(v.2) } else { None },
    )
}

/// The name of a next version, read back through the pattern that wrote it,
/// gives the numbers of that version, when the pattern scopes all three fields
/// and each number in it ends at a non-digit literal or at the end.
pub proof fn lemma_next_version_reads_back(segs: Seq<Segment>, t: Parts, inc: Increment)
    requires
        placeholders_delimited(segs),
        scopes(segs, Field::Major),
        scopes(segs, Field::Minor),
        scopes(segs, Field::Patch),
    ensures
        parse_parts(segs, render_parts(segs, bump(t, inc))) == Some(full_parts(bump(t, inc))),
{
    lemma_render_parse_round_trip(segs, bump(t, inc));
}

/// What matching `render_from(segs, i, v)` reads, built as the matcher builds it.
pub open spec fn captures_from(segs: Seq<Segment>, i: int, v: (nat, nat, nat)) -> Parts
    decreases segs.len() - i,
{
    if 0 <= i < segs.len() {
        match segs[i] {
            Segment::Literal(_) => captures_from(segs, i + 1, v),
            Segment::Placeholder(f) => with_part(captures_from(segs, i + 1, v), f, value_of(v, f)),
        }
    } else {
        (None, None, None)
    }
}

proof fn lemma_captures_from(segs: Seq<Segment>, i: int, v: (nat, nat, nat), f: Field)
    requires
        0 <= i <= segs.len(),
    ensures
        part(captures_from(segs, i, v), f) == if scopes_from(segs, i, f) {
            Some(value_of(v, f))
        } else {
            None
        },
    decreases segs.len() - i,
{
    if i < segs.len() {
        lemma_captures_from(segs, i + 1, v, f);
        if scopes_from(segs, i, f) && !scopes_from(segs, i + 1, f) {
            let a = choose|a: int| i <= a < segs.len() && #[trigger] segs[a] == Segment::Placeholder(f);
            assert(a == i);
        }
        if scopes_from(segs, i + 1, f) {
            let a = choose|a: int| i + 1 <= a < segs.len() && #[trigger] segs[a] == Segment::Placeholder(f);
            assert(i <= a < segs.len() && segs[a] == Segment::Placeholder(f));
        }
        if segs[i] == Segment::Placeholder(f) {
            assert(i <= i < segs.len() && segs[i] == Segment::Placeholder(f));
        }
    }
}

proof fn lemma_match_rendered(segs: Seq<Segment>, i: int, v: (nat, nat, nat), s: Seq<char>, j: int)
    requires
        placeholders_delimited(segs),
        0 <= i <= segs.len(),
        0 <= j <= s.len(),
        s.subrange(j, s.len() as int) == render_from(segs, i, v),
    ensures
        match_at(segs, i, s, j) == Some(captures_from(segs, i, v)),
    decreases segs.len() - i,
{
    if i == segs.len() {
        assert(s.subrange(j, s.len() as int).len() == 0);
    } else {
        let rest = render_from(segs, i + 1, v);
        let pc = piece(segs[i], v);
        let full = s.subrange(j, s.len() as int);
        assert(render_from(segs, i, v) == pc + rest);
        assert(full.len() == pc.len() + rest.len());
        assert forall|k: int| 0 <= k < rest.len() implies s[j + pc.len() + k] == rest[k] by {
            assert(full[pc.len() + k] == (pc + rest)[pc.len() + k]);
        }
        assert forall|k: int| 0 <= k < pc.len() implies s[j + k] == pc[k] by {
            assert(full[k] == (pc + rest)[k]);
        }
        match segs[i] {
            Segment::Literal(c) => {
                assert(pc == seq![c]);
                assert(pc[0] == c);
                assert(s[j + 0] == pc[0]);
                assert(s.subrange(j + 1, s.len() as int) =~= rest);
                lemma_match_rendered(segs, i + 1, v, s, j + 1);
            },
            Segment::Placeholder(f) => {
                let x = value_of(v, f);
                let d = decimal(x);
                let len = d.len() as int;
                lemma_decimal(x);
                assert(pc == d);
                assert(s.subrange(j + len, s.len() as int) =~= rest);
                assert(s.subrange(j, j + len) =~= d);
                assert forall|p: int| j <= p < j + len implies is_digit(s[p]) by {
                    assert(s[p] == d[p - j]);
                }
                if i + 1 < segs.len() {
                    let c = segs[i + 1]->Literal_0;
                    assert(render_from(segs, i + 1, v) == piece(segs[i + 1], v) + render_from(segs, i + 2, v));
                    assert(rest[0] == c);
                    assert(s[j + len] == rest[0]);
                } else {
                    assert(rest.len() == 0);
                }
                lemma_digit_run(s, j);
                let r = digit_run(s, j);
                if r < len {
                    assert(is_digit(s[j + r]));
                }
                if r > len {
                    assert(is_digit(s[j + len]));
                }
                assert(r == len);
                lemma_match_rendered(segs, i + 1, v, s, j + len);
                assert(try_run(segs, i, s, j, r) == Some(
                    with_part(captures_from(segs, i + 1, v), f, digits_value(s.subrange(j, j + len))),
                ));
            },
        }
    }
}

/// Writing values out through a pattern and reading the result back through
/// the same pattern gives the values again, for every field the pattern
/// scopes, provided each number in the pattern ends where a non-digit literal
/// or the end of the pattern stands.
pub proof fn lemma_render_parse_round_trip(segs: Seq<Segment>, v: (nat, nat, nat))
    requires
        placeholders_delimited(segs),
    ensures
        parse_parts(segs, render_parts(segs, v)) == Some(scoped_parts(segs, v)),
{
    let s = render_parts(segs, v);
    assert(s.subrange(0, s.len() as int) =~= s);
    lemma_match_rendered(segs, 0, v, s, 0);
    lemma_captures_from(segs, 0, v, Field::Major);
    lemma_captures_from(segs, 0, v, Field::Minor);
    lemma_captures_from(segs, 0, v, Field::Patch);
}

/// One segment with its text: a literal as itself, a placeholder as `d`.
pub open spec fn fill_piece(seg: Segment, d: Seq<char>) -> Seq<char> {
    match seg {
        Segment::Literal(c) => seq![c],
        Segment::Placeholder(_) => d,
    }
}

/// `segs[i..]` written out with the text `ds[k]` for the placeholder at `k`.
pub open spec fn fill(segs: Seq<Segment>, i: int, ds: Seq<Seq<char>>) -> Seq<char>
    decreases segs.len() - i,
{
    if 0 <= i < segs.len() {
        fill_piece(segs[i], ds[i]) + fill(segs, i + 1, ds)
    } else {
        Seq::empty()
    }
}

/// `ds` gives a non-empty run of digits for every placeholder of `segs[i..]`.
pub open spec fn digit_texts(segs: Seq<Segment>, i: int, ds: Seq<Seq<char>>) -> bool {
    &&& ds.len() == segs.len()
    &&& forall|k: int|
        i <= k < segs.len() && (#[trigger] segs[k]) is Placeholder ==> ds[k].len() > 0 && all_digits(ds[k])
}

/// `s` is the pattern with each literal as it stands and each placeholder
/// replaced by a non-empty run of decimal digits.
pub open spec fn fits_pattern(segs: Seq<Segment>, s: Seq<char>) -> bool {
    exists|ds: Seq<Seq<char>>| digit_texts(segs, 0, ds) && s == #[trigger] fill(segs, 0, ds)
}

proof fn lemma_try_some(segs: Seq<Segment>, i: int, s: Seq<char>, j: int, k: nat)
    requires
        0 <= i < segs.len(),
        segs[i] is Placeholder,
    ensures
        try_run(segs, i, s, j, k) is Some <==> exists|e: int|
            j < e <= j + k && (#[trigger] match_at(segs, i + 1, s, e)) is Some,
    decreases k,
{
    if k > 0 {
        lemma_try_some(segs, i, s, j, (k - 1) as nat);
        if match_at(segs, i + 1, s, j + k) is Some {
            assert(j < j + k <= j + k);
        }
    }
}

proof fn lemma_fill_frame(segs: Seq<Segment>, i: int, ds: Seq<Seq<char>>, es: Seq<Seq<char>>)
    requires
        0 <= i <= segs.len(),
        forall|k: int| i <= k < segs.len() ==> ds[k] == es[k],
    ensures
        fill(segs, i, ds) == fill(segs, i, es),
    decreases segs.len() - i,
{
    if i < segs.len() {
        lemma_fill_frame(segs, i + 1, ds, es);
    }
}

/// `s[j..]` split after `pc`: the first part is `pc`, the rest is `rest`.
proof fn lemma_split(s: Seq<char>, j: int, pc: Seq<char>, rest: Seq<char>)
    requires
        0 <= j <= s.len(),
        s.subrange(j, s.len() as int) == pc + rest,
    ensures
        j + pc.len() <= s.len(),
        s.subrange(j, j + pc.len()) == pc,
        s.subrange(j + pc.len(), s.len() as int) == rest,
{
    let full = s.subrange(j, s.len() as int);
    assert(full.len() == pc.len() + rest.len());
    assert forall|k: int| 0 <= k < rest.len() implies s[j + pc.len() + k] == rest[k] by {
        assert(full[pc.len() + k] == (pc + rest)[pc.len() + k]);
        assert(full[pc.len() + k] == s[j + pc.len() + k]);
    }
    assert forall|k: int| 0 <= k < pc.len() implies s[j + k] == pc[k] by {
        assert(full[k] == (pc + rest)[k]);
        assert(full[k] == s[j + k]);
    }
    assert(s.subrange(j, j + pc.len()) =~= pc);
    assert(s.subrange(j + pc.len(), s.len() as int) =~= rest);
}

proof fn lemma_fill_matches(segs: Seq<Segment>, i: int, ds: Seq<Seq<char>>, s: Seq<char>, j: int)
    requires
        digit_texts(segs, i, ds),
        0 <= i <= segs.len(),
        0 <= j <= s.len(),
        s.subrange(j, s.len() as int) == fill(segs, i, ds),
    ensures
        match_at(segs, i, s, j) is Some,
    decreases segs.len() - i,
{
    if i == segs.len() {
        assert(s.subrange(j, s.len() as int).len() == 0);
    } else {
        let pc = fill_piece(segs[i], ds[i]);
        let rest = fill(segs, i + 1, ds);
        lemma_split(s, j, pc, rest);
        match segs[i] {
            Segment::Literal(c) => {
                assert(pc[0] == c);
                assert(s.subrange(j, j + 1)[0] == s[j]);
                lemma_fill_matches(segs, i + 1, ds, s, j + 1);
            },
            Segment::Placeholder(_) => {
                let e = j + pc.len();
                lemma_fill_matches(segs, i + 1, ds, s, e);
                lemma_digit_run(s, j);
                let r = digit_run(s, j);
                if r < pc.len() {
                    assert(s[j + r] == s.subrange(j, e)[r as int]);
                }
                lemma_try_some(segs, i, s, j, r);
                assert(j < e <= j + r && match_at(segs, i + 1, s, e) is Some);
            },
        }
    }
}

proof fn lemma_match_fills(segs: Seq<Segment>, i: int, s: Seq<char>, j: int) -> (ds: Seq<Seq<char>>)
    requires
        0 <= i <= segs.len(),
        0 <= j <= s.len(),
        match_at(segs, i, s, j) is Some,
    ensures
        digit_texts(segs, i, ds),
        s.subrange(j, s.len() as int) == fill(segs, i, ds),
    decreases segs.len() - i,
{
    if i == segs.len() {
        let ds = Seq::new(segs.len(), |k: int| Seq::<char>::empty());
        assert(s.subrange(j, s.len() as int) =~= Seq::<char>::empty());
        ds
    } else {
        match segs[i] {
            Segment::Literal(c) => {
                let ds = lemma_match_fills(segs, i + 1, s, j + 1);
                assert(s.subrange(j, s.len() as int) =~= seq![c] + s.subrange(j + 1, s.len() as int));
                assert(fill(segs, i, ds) == fill_piece(segs[i], ds[i]) + fill(segs, i + 1, ds));
                ds
            },
            Segment::Placeholder(_) => {
                lemma_digit_run(s, j);
                let r = digit_run(s, j);
                lemma_try_some(segs, i, s, j, r);
                let e = choose|e: int| j < e <= j + r && (#[trigger] match_at(segs, i + 1, s, e)) is Some;
                let es = lemma_match_fills(segs, i + 1, s, e);
                let d = s.subrange(j, e);
                let ds = es.update(i, d);
                lemma_fill_frame(segs, i + 1, ds, es);
                assert(s.subrange(j, s.len() as int) =~= d + s.subrange(e, s.len() as int));
                assert(fill(segs, i, ds) == fill_piece(segs[i], ds[i]) + fill(segs, i + 1, ds));
                assert(all_digits(d));
                ds
            },
        }
    }
}

/// A candidate matches a pattern exactly when it is the pattern with every
/// literal character kept as it stands and every placeholder replaced by a
/// non-empty run of decimal digits.
pub proof fn lemma_match_iff_fits(segs: Seq<Segment>, s: Seq<char>)
    ensures
        parse_parts(segs, s) is Some <==> fits_pattern(segs, s),
{
    assert(s.subrange(0, s.len() as int) =~= s);
    if parse_parts(segs, s) is Some {
        let ds = lemma_match_fills(segs, 0, s, 0);
        assert(digit_texts(segs, 0, ds) && s == fill(segs, 0, ds));
    }
    if fits_pattern(segs, s) {
        let ds = choose|ds: Seq<Seq<char>>| digit_texts(segs, 0, ds) && s == #[trigger] fill(segs, 0, ds);
        lemma_fill_matches(segs, 0, ds, s, 0);
    }
}

} // verus!
