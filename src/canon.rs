//! The canonical list: a stable sort on (file without case, column, line),
//! then the merging of neighbouring equivalent findings.

use vstd::prelude::*;

use crate::diagnostic::{same_diag, LineError};
use crate::text::{
    lemma_lex_antisymmetric, lemma_lex_total, lemma_lex_transitive, lex_le, lower_of, lowercase,
    text_le,
};

verus! {

/// An absent position comes before any present one.
pub open spec fn opt_le(a: Option<u32>, b: Option<u32>) -> bool {
    match (a, b) {
        (None, _) => true,
        (Some(_), None) => false,
        (Some(x), Some(y)) => x <= y,
    }
}

/// The canonical order: file name without case, then column, then line.
pub open spec fn key_le(a: LineError, b: LineError) -> bool {
    let fa = lower_of(a.file@);
    let fb = lower_of(b.file@);
    if fa != fb {
        lex_le(fa, fb)
    } else if a.col_nb != b.col_nb {
        opt_le(a.col_nb, b.col_nb)
    } else {
        opt_le(a.line_nb, b.line_nb)
    }
}

pub proof fn lemma_key_total(a: LineError, b: LineError)
    ensures
        key_le(a, b) || key_le(b, a),
{
    lemma_lex_total(lower_of(a.file@), lower_of(b.file@));
}

pub proof fn lemma_key_transitive(a: LineError, b: LineError, c: LineError)
    requires
        key_le(a, b),
        key_le(b, c),
    ensures
        key_le(a, c),
{
    let fa = lower_of(a.file@);
    let fb = lower_of(b.file@);
    let fc = lower_of(c.file@);
    if fa != fb && fb != fc {
        lemma_lex_transitive(fa, fb, fc);
        if fa == fc {
            lemma_lex_antisymmetric(fa, fb);
        }
    }
}

/// Equivalent findings share their place in the order.
pub proof fn lemma_same_key(a: LineError, b: LineError)
    requires
        same_diag(a, b),
    ensures
        key_le(a, b),
        key_le(b, a),
{
}

/// Places `x` after every element of `s`, from the end, that does not come
/// after it.
pub open spec fn insert_sorted(s: Seq<LineError>, x: LineError) -> Seq<LineError>
    decreases s.len(),
{
    if s.len() == 0 {
        seq![x]
    } else if key_le(s.last(), x) {
        s.push(x)
    } else {
        insert_sorted(s.drop_last(), x).push(s.last())
    }
}

/// The stable sort of `s` in the canonical order.
pub open spec fn sorted_spec(s: Seq<LineError>) -> Seq<LineError>
    decreases s.len(),
{
    if s.len() == 0 {
        s
    } else {
        insert_sorted(sorted_spec(s.drop_last()), s.last())
    }
}

/// `s` is in the canonical order.
pub open spec fn is_canonically_ordered(s: Seq<LineError>) -> bool {
    forall|i: int, j: int| 0 <= i < j < s.len() ==> key_le(#[trigger] s[i], #[trigger] s[j])
}

proof fn lemma_insert_at(s: Seq<LineError>, x: LineError, p: int)
    requires
        0 <= p <= s.len(),
        forall|k: int| p <= k < s.len() ==> !key_le(#[trigger] s[k], x),
        p == 0 || key_le(s[p - 1], x),
    ensures
        insert_sorted(s, x) == s.insert(p, x),
    decreases s.len(),
{
    if s.len() == 0 {
        assert(s.insert(p, x) =~= seq![x]);
    } else if p == s.len() {
        assert(s.insert(p, x) =~= s.push(x));
    } else {
        lemma_insert_at(s.drop_last(), x, p);
        assert(s.drop_last().insert(p, x).push(s.last()) =~= s.insert(p, x));
    }
}

proof fn lemma_insert_multiset(s: Seq<LineError>, x: LineError)
    ensures
        insert_sorted(s, x).to_multiset() == s.to_multiset().insert(x),
    decreases s.len(),
{
    broadcast use vstd::seq_lib::group_to_multiset_ensures;

    if s.len() == 0 {
        assert(seq![x] =~= s.push(x));
    } else if !key_le(s.last(), x) {
        lemma_insert_multiset(s.drop_last(), x);
        assert(s.drop_last().push(s.last()) =~= s);
        assert(insert_sorted(s, x).to_multiset() =~= s.to_multiset().insert(x));
    }
}

proof fn lemma_insert_ordered(s: Seq<LineError>, x: LineError)
    requires
        is_canonically_ordered(s),
    ensures
        is_canonically_ordered(insert_sorted(s, x)),
        insert_sorted(s, x).len() == s.len() + 1,
        forall|k: int|
            0 <= k < insert_sorted(s, x).len() ==> #[trigger] insert_sorted(s, x)[k] == x
                || s.contains(insert_sorted(s, x)[k]),
    decreases s.len(),
{
    if s.len() == 0 {
    } else if key_le(s.last(), x) {
        let r = s.push(x);
        assert forall|i: int, j: int| 0 <= i < j < r.len() implies key_le(
            #[trigger] r[i],
            #[trigger] r[j],
        ) by {
            if j == s.len() && i < s.len() - 1 {
                lemma_key_transitive(s[i], s.last(), x);
            }
        }
        assert forall|k: int| 0 <= k < r.len() implies #[trigger] r[k] == x || s.contains(
            r[k],
        ) by {
            if k < s.len() {
                assert(s[k] == r[k]);
            }
        }
    } else {
        let t = s.drop_last();
        assert(is_canonically_ordered(t));
        lemma_insert_ordered(t, x);
        let u = insert_sorted(t, x);
        let r = u.push(s.last());
        lemma_key_total(s.last(), x);
        assert forall|k: int| 0 <= k < u.len() implies key_le(#[trigger] u[k], s.last()) by {
            if u[k] != x {
                let m = choose|m: int| 0 <= m < t.len() && t[m] == u[k];
                assert(key_le(s[m], s[s.len() - 1]));
            }
        }
        assert forall|k: int| 0 <= k < r.len() implies #[trigger] r[k] == x || s.contains(
            r[k],
        ) by {
            if k < u.len() && u[k] != x {
                assert(t.contains(u[k]));
                let m = choose|m: int| 0 <= m < t.len() && t[m] == u[k];
                assert(s[m] == r[k]);
            } else if k == u.len() {
                assert(s[s.len() - 1] == r[k]);
            }
        }
        assert forall|i: int, j: int| 0 <= i < j < r.len() implies key_le(
            #[trigger] r[i],
            #[trigger] r[j],
        ) by {
            if j == u.len() {
                assert(key_le(u[i], s.last()));
            } else {
                assert(u[i] == r[i] && u[j] == r[j]);
            }
        }
    }
}

/// The sort keeps every finding and puts them in the canonical order.
pub proof fn lemma_sorted_spec(s: Seq<LineError>)
    ensures
        sorted_spec(s).to_multiset() == s.to_multiset(),
        sorted_spec(s).len() == s.len(),
        is_canonically_ordered(sorted_spec(s)),
    decreases s.len(),
{
    broadcast use vstd::seq_lib::group_to_multiset_ensures;

    if s.len() > 0 {
        lemma_sorted_spec(s.drop_last());
        lemma_insert_multiset(sorted_spec(s.drop_last()), s.last());
        lemma_insert_ordered(sorted_spec(s.drop_last()), s.last());
        assert(s.drop_last().push(s.last()) =~= s);
    }
}

fn key_le_exec(a: &LineError, b: &LineError) -> (r: bool)
    ensures
        r == key_le(*a, *b),
{
    let fa = lowercase(a.file.as_str());
    let fb = lowercase(b.file.as_str());
    if fa != fb {
        text_le(fa.as_str(), fb.as_str())
    } else if a.col_nb != b.col_nb {
        match (a.col_nb, b.col_nb) {
            (None, _) => true,
            (Some(_), None) => false,
            (Some(x), Some(y)) => x <= y,
        }
    } else {
        match (a.line_nb, b.line_nb) {
            (None, _) => true,
            (Some(_), None) => false,
            (Some(x), Some(y)) => x <= y,
        }
    }
}

/// Sorts stably in the canonical order.
pub fn sort_errors(errors: &Vec<LineError>) -> (r: Vec<LineError>)
    ensures
        r@ == sorted_spec(errors@),
{
    let mut out: Vec<LineError> = Vec::new();
    let mut i: usize = 0;
    assert(errors@.take(0) =~= Seq::<LineError>::empty());
    while i < errors.len()
        invariant
            i <= errors@.len(),
            out@ == sorted_spec(errors@.take(i as int)),
        decreases errors@.len() - i,
    {
        let x = errors[i].duplicate();
        let mut p: usize = out.len();
        while p > 0 && !key_le_exec(&out[p - 1], &x)
            invariant
                p <= out@.len(),
                forall|k: int| p <= k < out@.len() ==> !key_le(#[trigger] out@[k], x),
            decreases p,
        {
            p = p - 1;
        }
        proof {
            lemma_insert_at(out@, x, p as int);
            assert(errors@.take(i + 1).drop_last() =~= errors@.take(i as int));
        }
        out.insert(p, x);
        i = i + 1;
    }
    assert(errors@.take(i as int) =~= errors@);
    out
}

/// The record with one more occurrence, saturating at the largest count.
pub open spec fn bumped(e: LineError) -> LineError {
    LineError {
        occurrences: if e.occurrences < u32::MAX {
            (e.occurrences + 1) as u32
        } else {
            e.occurrences
        },
        ..e
    }
}

/// One pass from the front: a finding equivalent to the last kept record is
/// merged into it, any other is kept.
pub open spec fn dedup_spec(s: Seq<LineError>) -> Seq<LineError>
    decreases s.len(),
{
    if s.len() == 0 {
        s
    } else {
        let d = dedup_spec(s.drop_last());
        if d.len() > 0 && same_diag(d.last(), s.last()) {
            d.update(d.len() - 1, bumped(d.last()))
        } else {
            d.push(s.last())
        }
    }
}

/// No two neighbours in `s` are equivalent.
pub open spec fn no_adjacent_duplicates(s: Seq<LineError>) -> bool {
    forall|i: int| 0 <= i < s.len() - 1 ==> !same_diag(#[trigger] s[i], s[i + 1])
}

/// Merges neighbouring equivalent findings, counting them in the first one
/// and keeping its description.
pub fn my_dedup(errors: &mut Vec<LineError>)
    ensures
        final(errors)@ == dedup_spec(old(errors)@),
{
    let mut out: Vec<LineError> = Vec::new();
    let mut i: usize = 0;
    assert(errors@.take(0) =~= Seq::<LineError>::empty());
    while i < errors.len()
        invariant
            i <= errors@.len(),
            out@ == dedup_spec(errors@.take(i as int)),
        decreases errors@.len() - i,
    {
        proof {
            assert(errors@.take(i + 1).drop_last() =~= errors@.take(i as int));
        }
        let n = out.len();
        if n > 0 && out[n - 1] == errors[i] {
            let mut last = out.pop().unwrap();
            if last.occurrences < u32::MAX {
                last.occurrences = last.occurrences + 1;
            }
            out.push(last);
            assert(out@ =~= dedup_spec(errors@.take(i + 1)));
        } else {
            out.push(errors[i].duplicate());
        }
        i = i + 1;
    }
    assert(errors@.take(i as int) =~= errors@);
    *errors = out;
}

/// The canonical list of a set of findings.
pub open spec fn canonical(s: Seq<LineError>) -> Seq<LineError> {
    dedup_spec(sorted_spec(s))
}

/// Sorts the findings into the canonical order and merges neighbouring
/// equivalent ones.
pub fn clean_errors_vector(errors: &mut Vec<LineError>)
    ensures
        final(errors)@ == canonical(old(errors)@),
        is_canonically_ordered(final(errors)@),
        no_adjacent_duplicates(final(errors)@),
        all_wf(old(errors)@) ==> all_wf(final(errors)@),
{
    let mut sorted = sort_errors(errors);
    my_dedup(&mut sorted);
    proof {
        lemma_canonical_ordered(errors@);
        if all_wf(errors@) {
            lemma_canonical_wf(errors@);
        }
        lemma_dedup_no_adjacent(sorted_spec(errors@));
    }
    *errors = sorted;
}

proof fn lemma_dedup_shape(s: Seq<LineError>)
    ensures
        dedup_spec(s).len() <= s.len(),
        s.len() > 0 ==> dedup_spec(s).len() > 0 && same_diag(dedup_spec(s).last(), s.last()),
        forall|k: int|
            0 <= k < dedup_spec(s).len() ==> exists|m: int|
                0 <= m < s.len() && same_diag(#[trigger] dedup_spec(s)[k], s[m])
                    && key_le(dedup_spec(s)[k], s[m]) && key_le(s[m], dedup_spec(s)[k]),
    decreases s.len(),
{
    if s.len() > 0 {
        let t = s.drop_last();
        lemma_dedup_shape(t);
        let d = dedup_spec(t);
        let r = dedup_spec(s);
        assert forall|k: int| 0 <= k < r.len() implies exists|m: int|
            0 <= m < s.len() && same_diag(#[trigger] r[k], s[m]) && key_le(r[k], s[m]) && key_le(
                s[m],
                r[k],
            ) by {
            if k < d.len() {
                let m = choose|m: int|
                    0 <= m < t.len() && same_diag(#[trigger] d[k], t[m]) && key_le(d[k], t[m])
                        && key_le(t[m], d[k]);
                assert(s[m] == t[m]);
                if k == d.len() - 1 && d.len() > 0 && same_diag(d.last(), s.last()) {
                    assert(same_diag(r[k], s[m]));
                }
            } else {
                assert(r[k] == s[s.len() - 1]);
                lemma_same_key(r[k], s[s.len() - 1]);
            }
        }
    }
}

/// Merging keeps the canonical order.
pub proof fn lemma_dedup_ordered(s: Seq<LineError>)
    requires
        is_canonically_ordered(s),
    ensures
        is_canonically_ordered(dedup_spec(s)),
    decreases s.len(),
{
    if s.len() > 0 {
        let t = s.drop_last();
        assert(is_canonically_ordered(t));
        lemma_dedup_ordered(t);
        lemma_dedup_shape(t);
        let d = dedup_spec(t);
        let r = dedup_spec(s);
        assert forall|i: int, j: int| 0 <= i < j < r.len() implies key_le(
            #[trigger] r[i],
            #[trigger] r[j],
        ) by {
            if j < d.len() {
                assert(key_le(d[i], d[j]));
            } else {
                let m = choose|m: int|
                    0 <= m < t.len() && same_diag(#[trigger] d[i], t[m]) && key_le(d[i], t[m])
                        && key_le(t[m], d[i]);
                assert(key_le(s[m], s[s.len() - 1]));
                lemma_key_transitive(d[i], t[m], s.last());
                if j == d.len() - 1 {
                    assert(key_le(d[i], d[j]));
                }
            }
        }
    }
}

/// Merging leaves no two neighbours equivalent.
pub proof fn lemma_dedup_no_adjacent(s: Seq<LineError>)
    ensures
        no_adjacent_duplicates(dedup_spec(s)),
    decreases s.len(),
{
    if s.len() > 0 {
        let t = s.drop_last();
        lemma_dedup_no_adjacent(t);
        lemma_dedup_shape(t);
        let d = dedup_spec(t);
        let r = dedup_spec(s);
        assert forall|i: int| 0 <= i < r.len() - 1 implies !same_diag(#[trigger] r[i], r[i + 1]) by {
            if i + 1 < d.len() {
                assert(!same_diag(d[i], d[i + 1]));
            }
        }
    }
}

/// The canonical list is sorted by file name without case, then by column,
/// then by line.
pub proof fn lemma_canonical_ordered(s: Seq<LineError>)
    ensures
        is_canonically_ordered(canonical(s)),
{
    lemma_sorted_spec(s);
    lemma_dedup_ordered(sorted_spec(s));
}

/// Every record of `s` counts at least one raw line.
pub open spec fn all_wf(s: Seq<LineError>) -> bool {
    forall|i: int| 0 <= i < s.len() ==> (#[trigger] s[i]).wf()
}

proof fn lemma_insert_wf(s: Seq<LineError>, x: LineError)
    requires
        all_wf(s),
        x.wf(),
    ensures
        all_wf(insert_sorted(s, x)),
    decreases s.len(),
{
    if s.len() > 0 && !key_le(s.last(), x) {
        lemma_insert_wf(s.drop_last(), x);
        let r = insert_sorted(s, x);
        assert forall|i: int| 0 <= i < r.len() implies (#[trigger] r[i]).wf() by {
            if i == r.len() - 1 {
                assert(s[s.len() - 1].wf());
            }
        }
    } else if s.len() > 0 {
        let r = s.push(x);
        assert forall|i: int| 0 <= i < r.len() implies (#[trigger] r[i]).wf() by {
            if i < s.len() {
                assert(s[i].wf());
            }
        }
    }
}

proof fn lemma_sorted_wf(s: Seq<LineError>)
    requires
        all_wf(s),
    ensures
        all_wf(sorted_spec(s)),
    decreases s.len(),
{
    if s.len() > 0 {
        let t = s.drop_last();
        assert(all_wf(t)) by {
            assert forall|i: int| 0 <= i < t.len() implies (#[trigger] t[i]).wf() by {
                assert(s[i].wf());
            }
        }
        lemma_sorted_wf(t);
        assert(s[s.len() - 1].wf());
        lemma_insert_wf(sorted_spec(t), s.last());
    }
}

proof fn lemma_dedup_wf(s: Seq<LineError>)
    requires
        all_wf(s),
    ensures
        all_wf(dedup_spec(s)),
    decreases s.len(),
{
    if s.len() > 0 {
        let t = s.drop_last();
        assert(all_wf(t)) by {
            assert forall|i: int| 0 <= i < t.len() implies (#[trigger] t[i]).wf() by {
                assert(s[i].wf());
            }
        }
        lemma_dedup_wf(t);
        let d = dedup_spec(t);
        let r = dedup_spec(s);
        assert forall|i: int| 0 <= i < r.len() implies (#[trigger] r[i]).wf() by {
            if i < d.len() {
                assert(d[i].wf());
            } else {
                assert(s[s.len() - 1].wf());
            }
        }
    }
}

/// Sorting and merging keep every record counting at least one raw line.
pub proof fn lemma_canonical_wf(s: Seq<LineError>)
    requires
        all_wf(s),
    ensures
        all_wf(canonical(s)),
{
    lemma_sorted_wf(s);
    lemma_dedup_wf(sorted_spec(s));
}

/// The findings of `s` equivalent to `x`, in their order in `s`.
pub open spec fn class_members(s: Seq<LineError>, x: LineError) -> Seq<LineError>
    decreases s.len(),
{
    if s.len() == 0 {
        s
    } else {
        let c = class_members(s.drop_last(), x);
        if same_diag(s.last(), x) {
            c.push(s.last())
        } else {
            c
        }
    }
}

proof fn lemma_class_concat(a: Seq<LineError>, b: Seq<LineError>, x: LineError)
    ensures
        class_members(a + b, x) == class_members(a, x) + class_members(b, x),
    decreases b.len(),
{
    if b.len() == 0 {
        assert(a + b =~= a);
        assert(class_members(a, x) + class_members(b, x) =~= class_members(a, x));
    } else {
        lemma_class_concat(a, b.drop_last(), x);
        assert((a + b).drop_last() =~= a + b.drop_last());
        assert((a + b).last() == b.last());
        if same_diag(b.last(), x) {
            assert(class_members(a, x) + class_members(b, x) =~= (class_members(a, x)
                + class_members(b.drop_last(), x)).push(b.last()));
        }
    }
}

proof fn lemma_class_single(u: LineError, x: LineError)
    ensures
        class_members(seq![u], x) == if same_diag(u, x) {
            seq![u]
        } else {
            Seq::<LineError>::empty()
        },
{
    let e = Seq::<LineError>::empty();
    assert(seq![u].drop_last() =~= e);
    assert(class_members(e, x) == e);
    assert(e.push(u) =~= seq![u]);
}

proof fn lemma_class_none(s: Seq<LineError>, x: LineError)
    requires
        forall|m: int| 0 <= m < s.len() ==> !same_diag(#[trigger] s[m], x),
    ensures
        class_members(s, x).len() == 0,
    decreases s.len(),
{
    if s.len() > 0 {
        let t = s.drop_last();
        assert forall|m: int| 0 <= m < t.len() implies !same_diag(#[trigger] t[m], x) by {
            assert(t[m] == s[m]);
        }
        lemma_class_none(t, x);
        assert(!same_diag(s[s.len() - 1], x));
    }
}

proof fn lemma_class_some(s: Seq<LineError>, x: LineError, m: int)
    requires
        0 <= m < s.len(),
        same_diag(s[m], x),
    ensures
        class_members(s, x).len() > 0,
    decreases s.len(),
{
    if m < s.len() - 1 {
        let t = s.drop_last();
        assert(t[m] == s[m]);
        lemma_class_some(t, x, m);
    }
}

proof fn lemma_class_insert(u: Seq<LineError>, z: LineError, x: LineError)
    ensures
        class_members(insert_sorted(u, z), x) == if same_diag(z, x) {
            class_members(u, x).push(z)
        } else {
            class_members(u, x)
        },
    decreases u.len(),
{
    if u.len() == 0 {
        lemma_class_single(z, x);
        assert(class_members(u, x) == u);
        assert(u.push(z) =~= seq![z]);
    } else if key_le(u.last(), z) {
        assert(u.push(z).drop_last() =~= u);
    } else {
        let w = insert_sorted(u.drop_last(), z);
        lemma_class_insert(u.drop_last(), z, x);
        assert(w.push(u.last()).drop_last() =~= w);
        assert(w.push(u.last()).last() == u.last());
        if same_diag(z, x) && same_diag(u.last(), x) {
            lemma_same_key(u.last(), z);
        }
    }
}

/// Sorting keeps the findings of one class in their input order.
pub proof fn lemma_class_sorted(s: Seq<LineError>, x: LineError)
    ensures
        class_members(sorted_spec(s), x) == class_members(s, x),
    decreases s.len(),
{
    if s.len() > 0 {
        lemma_class_sorted(s.drop_last(), x);
        lemma_class_insert(sorted_spec(s.drop_last()), s.last(), x);
    }
}

proof fn lemma_dedup_no_member(t: Seq<LineError>, x: LineError)
    requires
        forall|m: int| 0 <= m < t.len() ==> !same_diag(#[trigger] t[m], x),
    ensures
        forall|m: int|
            0 <= m < dedup_spec(t).len() ==> !same_diag(#[trigger] dedup_spec(t)[m], x),
{
    lemma_dedup_shape(t);
    let d = dedup_spec(t);
    assert forall|m: int| 0 <= m < d.len() implies !same_diag(#[trigger] d[m], x) by {
        let q = choose|q: int|
            0 <= q < t.len() && same_diag(#[trigger] d[m], t[q]) && key_le(d[m], t[q]) && key_le(
                t[q],
                d[m],
            );
        assert(!same_diag(t[q], x));
    }
}

proof fn lemma_dedup_pair(t: Seq<LineError>, x: LineError, k: int)
    requires
        0 <= k,
        k + 1 < t.len(),
        same_diag(t[k], x),
        same_diag(t[k + 1], x),
        forall|m: int| 0 <= m < t.len() && m != k && m != k + 1 ==> !same_diag(#[trigger] t[m], x),
    ensures
        exists|p: int|
            0 <= p < dedup_spec(t).len() && dedup_spec(t)[p] == bumped(t[k]) && forall|m: int|
                0 <= m < dedup_spec(t).len() && m != p ==> !same_diag(
                    #[trigger] dedup_spec(t)[m],
                    x,
                ),
    decreases t.len(),
{
    let d = dedup_spec(t);
    let t1 = t.drop_last();
    if t.len() == k + 2 {
        let t0 = t1.drop_last();
        assert forall|m: int| 0 <= m < t0.len() implies !same_diag(#[trigger] t0[m], x) by {
            assert(t0[m] == t[m]);
        }
        lemma_dedup_no_member(t0, x);
        lemma_dedup_shape(t0);
        let d0 = dedup_spec(t0);
        assert(t1.last() == t[k]);
        if d0.len() > 0 {
            assert(!same_diag(d0[d0.len() - 1], x));
        }
        let d1 = dedup_spec(t1);
        assert(d1 == d0.push(t[k]));
        assert(t.last() == t[k + 1]);
        assert(d == d1.update(d1.len() - 1, bumped(t[k])));
        let p = d1.len() - 1;
        assert forall|m: int| 0 <= m < d.len() && m != p implies !same_diag(#[trigger] d[m], x) by {
            assert(d[m] == d0[m]);
        }
        assert(d[p] == bumped(t[k]));
    } else {
        assert forall|m: int| 0 <= m < t1.len() && m != k && m != k + 1 implies !same_diag(
            #[trigger] t1[m],
            x,
        ) by {
            assert(t1[m] == t[m]);
        }
        assert(t1[k] == t[k] && t1[k + 1] == t[k + 1]);
        lemma_dedup_pair(t1, x, k);
        let d1 = dedup_spec(t1);
        let p = choose|p: int|
            0 <= p < d1.len() && d1[p] == bumped(t[k]) && forall|m: int|
                0 <= m < d1.len() && m != p ==> !same_diag(#[trigger] d1[m], x);
        assert(!same_diag(t[t.len() - 1], x));
        if d1.len() > 0 && same_diag(d1.last(), t.last()) {
            assert(p != d1.len() - 1);
            assert forall|m: int| 0 <= m < d.len() && m != p implies !same_diag(
                #[trigger] d[m],
                x,
            ) by {
                if m != d1.len() - 1 {
                    assert(d[m] == d1[m]);
                }
            }
            assert(d[p] == bumped(t[k]));
        } else {
            assert forall|m: int| 0 <= m < d.len() && m != p implies !same_diag(
                #[trigger] d[m],
                x,
            ) by {
                if m < d1.len() {
                    assert(d[m] == d1[m]);
                }
            }
            assert(d[p] == bumped(t[k]));
        }
    }
}

/// Two equivalent findings that no third one matches, and that sit side by
/// side after the sort, leave exactly one record of their kind: the first
/// one read, counted twice, with its description.
pub proof fn lemma_adjacent_equivalents_merge(s: Seq<LineError>, i: int, j: int, k: int)
    requires
        0 <= i < j < s.len(),
        same_diag(s[i], s[j]),
        s[i].occurrences == 1,
        forall|m: int| 0 <= m < s.len() && m != i && m != j ==> !same_diag(#[trigger] s[m], s[i]),
        0 <= k,
        k + 1 < sorted_spec(s).len(),
        same_diag(sorted_spec(s)[k], s[i]),
        same_diag(sorted_spec(s)[k + 1], s[i]),
    ensures
        exists|p: int|
            0 <= p < canonical(s).len() && canonical(s)[p] == (LineError {
                occurrences: 2,
                ..s[i]
            }) && forall|m: int|
                0 <= m < canonical(s).len() && m != p ==> !same_diag(
                    #[trigger] canonical(s)[m],
                    s[i],
                ),
{
    let x = s[i];
    let t = sorted_spec(s);
    lemma_sorted_spec(s);
    let a = s.take(i);
    let b = s.subrange(i + 1, j);
    let c = s.skip(j + 1);
    assert(s =~= a + seq![s[i]] + b + seq![s[j]] + c);
    assert forall|m: int| 0 <= m < a.len() implies !same_diag(#[trigger] a[m], x) by {
        assert(a[m] == s[m]);
    }
    assert forall|m: int| 0 <= m < b.len() implies !same_diag(#[trigger] b[m], x) by {
        assert(b[m] == s[i + 1 + m]);
    }
    assert forall|m: int| 0 <= m < c.len() implies !same_diag(#[trigger] c[m], x) by {
        assert(c[m] == s[j + 1 + m]);
    }
    lemma_class_none(a, x);
    lemma_class_none(b, x);
    lemma_class_none(c, x);
    lemma_class_single(s[i], x);
    lemma_class_single(s[j], x);
    lemma_class_concat(a, seq![s[i]], x);
    lemma_class_concat(a + seq![s[i]], b, x);
    lemma_class_concat(a + seq![s[i]] + b, seq![s[j]], x);
    lemma_class_concat(a + seq![s[i]] + b + seq![s[j]], c, x);
    assert(class_members(s, x) =~= seq![s[i], s[j]]);
    lemma_class_sorted(s, x);
    let ta = t.take(k);
    let tb = seq![t[k], t[k + 1]];
    let tc = t.skip(k + 2);
    assert(t =~= ta + tb + tc);
    lemma_class_concat(ta, tb, x);
    lemma_class_concat(ta + tb, tc, x);
    assert(tb =~= seq![t[k]] + seq![t[k + 1]]);
    lemma_class_single(t[k], x);
    lemma_class_single(t[k + 1], x);
    lemma_class_concat(seq![t[k]], seq![t[k + 1]], x);
    assert(class_members(tb, x) =~= tb);
    assert(class_members(ta, x).len() == 0);
    assert(class_members(tc, x).len() == 0);
    assert(class_members(ta, x) =~= Seq::<LineError>::empty());
    assert(class_members(t, x) =~= tb);
    assert(t[k] == s[i]);
    assert forall|m: int| 0 <= m < t.len() && m != k && m != k + 1 implies !same_diag(
        #[trigger] t[m],
        x,
    ) by {
        if m < k {
            if same_diag(t[m], x) {
                assert(ta[m] == t[m]);
                lemma_class_some(ta, x, m);
            }
        } else {
            if same_diag(t[m], x) {
                assert(tc[m - k - 2] == t[m]);
                lemma_class_some(tc, x, m - k - 2);
            }
        }
    }
    lemma_dedup_pair(t, x, k);
    let d = dedup_spec(t);
    assert(canonical(s) == d);
    let p = choose|p: int|
        0 <= p < d.len() && d[p] == bumped(t[k]) && forall|m: int|
            0 <= m < d.len() && m != p ==> !same_diag(#[trigger] d[m], x);
    assert(d[p] == (LineError { occurrences: 2, ..s[i] }));
}

/// Two equivalent findings, each counted once, collapse into the first one
/// counted twice, with its description.
pub proof fn lemma_two_equivalent_merge(a: LineError, b: LineError)
    requires
        same_diag(a, b),
        a.occurrences == 1,
    ensures
        canonical(seq![a, b]) == seq![LineError { occurrences: 2, ..a }],
{
    let s = seq![a, b];
    assert(s.drop_last() =~= seq![a]);
    assert(seq![a].drop_last() =~= Seq::<LineError>::empty());
    let e = Seq::<LineError>::empty();
    assert(sorted_spec(e) == e);
    assert(insert_sorted(e, a) == seq![a]);
    assert(sorted_spec(seq![a]) == seq![a]);
    assert(sorted_spec(s) =~= seq![a, b]);
    assert(seq![a, b].drop_last() =~= seq![a]);
    assert(dedup_spec(e) == e);
    assert(e.push(a) =~= seq![a]);
    assert(dedup_spec(seq![a]) =~= seq![a]);
    assert(canonical(s) =~= seq![LineError { occurrences: 2, ..a }]);
}

} // verus!
