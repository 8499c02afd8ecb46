//! The general laws of the index, stated and proved over the same spec
//! functions its contracts use: score evolution under registration and
//! visits, the shape of query rankings, and round-tripping through the
//! text format.

use vstd::prelude::*;

use vstd::multiset::Multiset;

use crate::index::add_effect;
use crate::index::encode_line;
use crate::index::encode_text;
use crate::index::entries_of_lines;
use crate::index::line_dup;
use crate::index::line_entry;
use crate::index::line_path_part;
use crate::index::line_score_ok;
use crate::index::line_score_part;
use crate::index::lines_good_upto;
use crate::index::fname_matches;
use crate::index::has_path;
use crate::index::idx_of_path;
use crate::index::inc_effect;
use crate::index::insert_desc;
use crate::index::lemma_insert_desc_at;
use crate::index::rotate_after;
use crate::index::sort_desc;
use crate::index::paths_distinct;
use crate::index::primary_of;
use crate::index::query_spec;
use crate::index::secondary_of;
use crate::index::secondary_pred;
use crate::index::root_path;
use crate::index::sat_inc;
use crate::index::score_of;
use crate::index::top_effect;
use crate::index::lemma_idx_of_path;
use crate::index::lemma_idx_of_path_is;
use crate::index::lemma_set_score_paths;
use crate::text::all_digits;
use crate::text::digits_of;
use crate::text::is_digit;
use crate::text::lemma_digits_of;
use crate::text::lemma_find_char_is;
use crate::text::lemma_split_concat;
use crate::text::lemma_split_no_sep;
use crate::text::lemma_split_on_len;
use crate::text::lines_of;
use crate::text::split_on;
use crate::text::val_of_digits;

verus! {

// ---------------------------------------------------------------------------
// Registration and visit scores
// ---------------------------------------------------------------------------

/// Registering a path twice is the same as registering it once: a second
/// `add` of an already-known (or root) path changes nothing.
pub proof fn lemma_add_idempotent(v: Seq<(Seq<char>, u64)>, cp: Seq<char>)
    ensures
        add_effect(add_effect(v, cp), cp) == add_effect(v, cp),
{
    if cp != root_path() && !has_path(v, cp) {
        let w = v.push((cp, 1));
        assert(w[v.len() as int].0 == cp);
        assert(has_path(w, cp));
    }
}

/// A fresh entry visited `n` times scores exactly `n`, as long as `n` fits.
pub proof fn lemma_inc_counts(v: Seq<(Seq<char>, u64)>, cp: Seq<char>, n: nat)
    requires
        paths_distinct(v),
        !has_path(v, cp),
        cp != root_path(),
        1 <= n <= u64::MAX,
    ensures
        paths_distinct(iter_inc(v, cp, n)),
        has_path(iter_inc(v, cp, n), cp),
        score_of(iter_inc(v, cp, n), cp) == n,
    decreases n,
{
    if n == 1 {
        let w = v.push((cp, 1));
        assert(iter_inc(v, cp, 0) == v);
        assert(iter_inc(v, cp, 1) == inc_effect(v, cp));
        assert(inc_effect(v, cp) == w);
        assert(w[v.len() as int].0 == cp);
        lemma_idx_of_path_is(w, cp, v.len() as int);
        assert(score_of(w, cp) == 1);
        assert forall|a: int, b: int| 0 <= a < b < w.len() implies w[a].0 != w[b].0 by {
            if b == w.len() - 1 {
                assert(v[a].0 != cp);
            }
        }
    } else {
        lemma_inc_counts(v, cp, (n - 1) as nat);
        let w = iter_inc(v, cp, (n - 1) as nat);
        assert(iter_inc(v, cp, n) == inc_effect(w, cp));
        assert(score_of(w, cp) == n - 1);
        assert(sat_inc(score_of(w, cp)) == n);
        lemma_set_score_paths(w, cp, sat_inc(score_of(w, cp)));
        lemma_idx_of_path(w, cp);
        let i = idx_of_path(w, cp);
        assert(inc_effect(w, cp)[i].0 == cp);
        assert(has_path(inc_effect(w, cp), cp));
    }
}

/// The index after `n` visits of `cp`, starting from `v`.
pub open spec fn iter_inc(v: Seq<(Seq<char>, u64)>, cp: Seq<char>, n: nat) -> Seq<
    (Seq<char>, u64),
>
    decreases n,
{
    if n == 0 {
        v
    } else {
        inc_effect(iter_inc(v, cp, (n - 1) as nat), cp)
    }
}

/// A visit never lowers a score.
pub proof fn lemma_inc_monotone(v: Seq<(Seq<char>, u64)>, cp: Seq<char>)
    requires
        paths_distinct(v),
        has_path(v, cp),
        cp != root_path(),
    ensures
        score_of(inc_effect(v, cp), cp) >= score_of(v, cp),
{
    lemma_set_score_paths(v, cp, sat_inc(score_of(v, cp)));
}

/// At the top of the range a visit saturates instead of wrapping.
pub proof fn lemma_inc_saturates(v: Seq<(Seq<char>, u64)>, cp: Seq<char>)
    requires
        paths_distinct(v),
        has_path(v, cp),
        cp != root_path(),
        score_of(v, cp) == u64::MAX,
    ensures
        score_of(inc_effect(v, cp), cp) == u64::MAX,
{
    lemma_set_score_paths(v, cp, sat_inc(score_of(v, cp)));
}

/// Promotion sets the top score whatever the score was, and a later plain
/// visit cannot demote it.
pub proof fn lemma_top_promotion(v: Seq<(Seq<char>, u64)>, cp: Seq<char>)
    requires
        paths_distinct(v),
        has_path(v, cp),
        cp != root_path(),
    ensures
        score_of(top_effect(v, cp), cp) == u64::MAX,
        score_of(inc_effect(top_effect(v, cp), cp), cp) == u64::MAX,
{
    lemma_set_score_paths(v, cp, u64::MAX);
    let w = top_effect(v, cp);
    lemma_idx_of_path(v, cp);
    let i = idx_of_path(v, cp);
    assert(w[i].0 == cp);
    assert(has_path(w, cp));
    assert(paths_distinct(w));
    lemma_set_score_paths(w, cp, sat_inc(score_of(w, cp)));
}

/// Uniqueness: registration and visits never produce two entries with the
/// same canonical path — a known path is updated in place, a new one is
/// appended once.
pub proof fn lemma_effects_keep_paths_distinct(v: Seq<(Seq<char>, u64)>, cp: Seq<char>)
    requires
        paths_distinct(v),
    ensures
        paths_distinct(add_effect(v, cp)),
        paths_distinct(inc_effect(v, cp)),
        paths_distinct(top_effect(v, cp)),
{
    if cp != root_path() {
        if has_path(v, cp) {
            lemma_set_score_paths(v, cp, sat_inc(score_of(v, cp)));
            lemma_set_score_paths(v, cp, u64::MAX);
        } else {
            let w1 = v.push((cp, 1u64));
            assert forall|a: int, b: int| 0 <= a < b < w1.len() implies w1[a].0 != w1[b].0 by {
                if b == v.len() {
                    assert(v[a].0 != cp);
                }
            }
            let w2 = v.push((cp, u64::MAX / 2));
            assert forall|a: int, b: int| 0 <= a < b < w2.len() implies w2[a].0 != w2[b].0 by {
                if b == v.len() {
                    assert(v[a].0 != cp);
                }
            }
        }
    }
}

// ---------------------------------------------------------------------------
// Ranking and rotation
// ---------------------------------------------------------------------------

/// Scores never grow along the sequence.
pub open spec fn sorted_desc(s: Seq<(Seq<char>, u64)>) -> bool {
    forall|i: int, j: int| 0 <= i <= j < s.len() ==> s[i].1 >= s[j].1
}

/// The boundary below which every score is at least `e`'s.
proof fn find_desc_boundary(r: Seq<(Seq<char>, u64)>, e: (Seq<char>, u64)) -> (j: int)
    requires
        sorted_desc(r),
    ensures
        0 <= j <= r.len(),
        forall|t: int| j <= t < r.len() ==> r[t].1 < e.1,
        j > 0 ==> r[j - 1].1 >= e.1,
    decreases r.len(),
{
    if r.len() == 0 {
        0
    } else if r.last().1 >= e.1 {
        r.len() as int
    } else {
        assert(forall|i: int, j: int|
            0 <= i <= j < r.drop_last().len() ==> r.drop_last()[i].1 >= r.drop_last()[j].1);
        let j = find_desc_boundary(r.drop_last(), e);
        assert forall|t: int| j <= t < r.len() implies r[t].1 < e.1 by {
            if t < r.len() - 1 {
                assert(r.drop_last()[t].1 < e.1);
            }
        }
        j
    }
}

/// Stable insertion keeps the order sorted and only adds the new entry.
pub proof fn lemma_insert_desc_props(r: Seq<(Seq<char>, u64)>, e: (Seq<char>, u64))
    requires
        sorted_desc(r),
    ensures
        sorted_desc(insert_desc(r, e)),
        insert_desc(r, e).len() == r.len() + 1,
        insert_desc(r, e).to_multiset() =~= r.to_multiset().insert(e),
{
    broadcast use vstd::multiset::group_multiset_axioms;

    let j = find_desc_boundary(r, e);
    lemma_insert_desc_at(r, e, j);
    let w = insert_desc(r, e);
    assert(w == r.take(j) + seq![e] + r.skip(j));
    assert forall|a: int, b: int| 0 <= a <= b < w.len() implies w[a].1 >= w[b].1 by {
        if a < j {
            assert(w[a] == r[a]);
        }
        if b > j {
            assert(w[b] == r[b - 1]);
        }
        if a < j && j > 0 {
            assert(r[a].1 >= r[j - 1].1);
        }
    }
    assert(w =~= (r.take(j) + seq![e]) + r.skip(j));
    vstd::seq_lib::lemma_multiset_commutative(r.take(j) + seq![e], r.skip(j));
    vstd::seq_lib::lemma_multiset_commutative(r.take(j), seq![e]);
    vstd::seq_lib::lemma_multiset_commutative(r.take(j), r.skip(j));
    assert(r.take(j) + r.skip(j) =~= r);
    assert(seq![e] =~= Seq::<(Seq<char>, u64)>::empty().push(e));
    Seq::<(Seq<char>, u64)>::empty().to_multiset_ensures();
    assert(Seq::<(Seq<char>, u64)>::empty().to_multiset() =~= Multiset::<
        (Seq<char>, u64),
    >::empty()) by {
        Seq::<(Seq<char>, u64)>::empty().to_multiset_ensures();
    }
    assert(w.to_multiset() =~= r.to_multiset().insert(e));
}

/// The ranked primary list is the primary match set, reordered only: same
/// entries with the same multiplicity, scores descending, ties left in
/// storage order by construction.
pub proof fn lemma_sort_desc_props(s: Seq<(Seq<char>, u64)>)
    ensures
        sorted_desc(sort_desc(s)),
        sort_desc(s).len() == s.len(),
        sort_desc(s).to_multiset() =~= s.to_multiset(),
    decreases s.len(),
{
    broadcast use vstd::multiset::group_multiset_axioms;

    if s.len() > 0 {
        lemma_sort_desc_props(s.drop_last());
        lemma_insert_desc_props(sort_desc(s.drop_last()), s.last());
        s.drop_last().to_multiset_ensures();
        assert(s.drop_last().push(s.last()) =~= s);
    }
}

/// A marker absent from the ranked list leaves it unrotated.
pub proof fn lemma_rotate_foreign(prim: Seq<(Seq<char>, u64)>, a: Seq<char>)
    requires
        !has_path(prim, a),
    ensures
        rotate_after(prim, a) == prim,
{
    lemma_idx_of_path(prim, a);
}

/// Rotation reorders the ranked list without losing or inventing entries.
pub proof fn lemma_rotate_permutes(prim: Seq<(Seq<char>, u64)>, a: Seq<char>)
    ensures
        rotate_after(prim, a).to_multiset() =~= prim.to_multiset(),
        rotate_after(prim, a).len() == prim.len(),
{
    broadcast use vstd::multiset::group_multiset_axioms;

    let i = idx_of_path(prim, a);
    if i >= 0 {
        lemma_idx_of_path(prim, a);
        vstd::seq_lib::lemma_multiset_commutative(prim.skip(i + 1), prim.take(i + 1));
        vstd::seq_lib::lemma_multiset_commutative(prim.take(i + 1), prim.skip(i + 1));
        assert(prim.take(i + 1) + prim.skip(i + 1) =~= prim);
    }
}

/// The primary selection only picks entries.
proof fn lemma_primary_of_sub(v: Seq<(Seq<char>, u64)>, lq: Seq<char>)
    ensures
        forall|e: (Seq<char>, u64)|
            #[trigger] primary_of(v, lq).contains(e) ==> v.contains(e),
    decreases v.len(),
{
    if v.len() > 0 {
        lemma_primary_of_sub(v.drop_last(), lq);
        let rest = primary_of(v.drop_last(), lq);
        assert forall|e: (Seq<char>, u64)|
            #[trigger] primary_of(v, lq).contains(e) implies v.contains(e) by {
            let w = primary_of(v, lq);
            let i = choose|i: int| 0 <= i < w.len() && w[i] == e;
            if fname_matches(v.last().0, lq) && i == w.len() - 1 {
                assert(v[v.len() - 1] == e);
            } else {
                assert(rest[i] == e);
                assert(rest.contains(e));
                let j = choose|j: int| 0 <= j < v.drop_last().len() && v.drop_last()[j] == e;
                assert(v[j] == e);
            }
        }
    }
}

/// The secondary selection only picks entries.
proof fn lemma_secondary_of_sub(
    v: Seq<(Seq<char>, u64)>,
    lq: Seq<char>,
    after: Option<Seq<char>>,
)
    ensures
        forall|e: (Seq<char>, u64)|
            #[trigger] secondary_of(v, lq, after).contains(e) ==> v.contains(e),
    decreases v.len(),
{
    if v.len() > 0 {
        lemma_secondary_of_sub(v.drop_last(), lq, after);
        let rest = secondary_of(v.drop_last(), lq, after);
        assert forall|e: (Seq<char>, u64)|
            #[trigger] secondary_of(v, lq, after).contains(e) implies v.contains(e) by {
            let w = secondary_of(v, lq, after);
            let i = choose|i: int| 0 <= i < w.len() && w[i] == e;
            if secondary_pred(v.last().0, lq, after) && i == w.len() - 1 {
                assert(v[v.len() - 1] == e);
            } else {
                assert(rest[i] == e);
                assert(rest.contains(e));
                let j = choose|j: int| 0 <= j < v.drop_last().len() && v.drop_last()[j] == e;
                assert(v[j] == e);
            }
        }
    }
}

/// A query never invents results: every returned pair is an entry of the
/// index it was asked about.
pub proof fn lemma_query_returns_entries(
    v: Seq<(Seq<char>, u64)>,
    q: Seq<char>,
    after: Option<Seq<char>>,
)
    ensures
        forall|e: (Seq<char>, u64)|
            #[trigger] query_spec(v, q, after).contains(e) ==> v.contains(e),
{
    broadcast use vstd::multiset::group_multiset_axioms;

    let lq = crate::fsio::lower_of(q);
    let prim = sort_desc(primary_of(v, lq));
    let rot = match after {
        Some(a) => rotate_after(prim, a),
        None => prim,
    };
    let sec = secondary_of(v, lq, after);
    lemma_primary_of_sub(v, lq);
    lemma_secondary_of_sub(v, lq, after);
    lemma_sort_desc_props(primary_of(v, lq));
    primary_of(v, lq).to_multiset_ensures();
    prim.to_multiset_ensures();
    if after is Some {
        lemma_rotate_permutes(prim, after->0);
        rot.to_multiset_ensures();
    }
    assert forall|e: (Seq<char>, u64)|
        #[trigger] query_spec(v, q, after).contains(e) implies v.contains(e) by {
        let w = query_spec(v, q, after);
        let i = choose|i: int| 0 <= i < w.len() && w[i] == e;
        if i < rot.len() {
            assert(rot.contains(e));
            assert(rot.to_multiset().count(e) > 0);
            assert(primary_of(v, lq).contains(e));
        } else {
            assert(sec[i - rot.len()] == e);
            assert(sec.contains(e));
        }
    }
}

// ---------------------------------------------------------------------------
// Round-tripping through the text format
// ---------------------------------------------------------------------------

/// The line of an entry parses back to the entry: the first space stands
/// right after the digits, the score text denotes the score, the rest is
/// the path; and without a newline in the path the line has none at all.
pub proof fn lemma_encode_line_parses(e: (Seq<char>, u64))
    ensures
        line_score_part(encode_line(e)) == digits_of(e.1 as nat),
        line_path_part(encode_line(e)) == e.0,
        line_score_ok(encode_line(e)),
        line_entry(encode_line(e)) == e,
        encode_line(e).len() >= 2,
        !e.0.contains('\n') ==> forall|j: int|
            0 <= j < encode_line(e).len() ==> #[trigger] encode_line(e)[j] != '\n',
{
    let d = digits_of(e.1 as nat);
    let l = encode_line(e);
    lemma_digits_of(e.1 as nat);
    assert(l[d.len() as int] == ' ');
    assert forall|j: int| 0 <= j < d.len() implies l[j] != ' ' by {
        assert(l[j] == d[j]);
        assert(is_digit(d[j]));
    }
    lemma_find_char_is(l, ' ', d.len() as int);
    assert(line_score_part(l) =~= d);
    assert(line_path_part(l) =~= e.0);
    assert(val_of_digits(d) == e.1);
    assert(line_entry(l) == (e.0, e.1));
    assert(line_entry(l) == e);
    if !e.0.contains('\n') {
        assert forall|j: int| 0 <= j < l.len() implies #[trigger] l[j] != '\n' by {
            if j < d.len() {
                assert(is_digit(d[j]));
            } else if j == d.len() {
            } else {
                assert(l[j] == e.0[j - d.len() - 1]);
                if l[j] == '\n' {
                    assert(e.0.contains('\n'));
                }
            }
        }
    }
}

/// The encoded text splits back into exactly one line per entry, in order.
pub proof fn lemma_encode_lines(v: Seq<(Seq<char>, u64)>)
    requires
        forall|i: int| 0 <= i < v.len() ==> !(#[trigger] v[i]).0.contains('\n'),
    ensures
        lines_of(encode_text(v)) == Seq::new(v.len(), |i: int| encode_line(v[i])),
    decreases v.len(),
{
    let s = encode_text(v);
    if v.len() == 0 {
        assert(split_on(s, '\n') == seq![Seq::<char>::empty()]);
        assert(lines_of(s) =~= Seq::new(0, |i: int| encode_line(v[i])));
    } else if v.len() == 1 {
        lemma_encode_line_parses(v[0]);
        lemma_split_no_sep(s, '\n');
        assert(lines_of(s) =~= Seq::new(1, |i: int| encode_line(v[i])));
    } else {
        let line0 = encode_line(v[0]);
        let rest = encode_text(v.drop_first());
        lemma_encode_line_parses(v[0]);
        assert(forall|i: int|
            0 <= i < v.drop_first().len() ==> !(#[trigger] v.drop_first()[i]).0.contains(
                '\n',
            ));
        lemma_encode_lines(v.drop_first());
        lemma_split_concat(line0, rest, '\n');
        let p = split_on(s, '\n');
        let pr = split_on(rest, '\n');
        assert(p == seq![line0] + pr);
        lemma_split_on_len(rest, '\n');
        assert(p.last() == pr.last());
        if pr.last().len() == 0 {
            assert(lines_of(rest) == pr.drop_last());
            assert(p.drop_last() =~= seq![line0] + pr.drop_last());
            assert(lines_of(s) == p.drop_last());
        } else {
            assert(lines_of(s) == p);
            assert(lines_of(rest) == pr);
        }
        assert(lines_of(s) =~= Seq::new(v.len(), |i: int| encode_line(v[i]))) by {
            assert(lines_of(s) == seq![line0] + lines_of(rest));
            assert(forall|i: int|
                0 <= i < v.drop_first().len() ==> lines_of(rest)[i] == encode_line(
                    #[trigger] v.drop_first()[i],
                ));
        }
    }
}

/// Round trip: the text an index encodes to decodes back to the very same
/// entries, in the same order, with no line rejected — as long as no path
/// holds a newline, which the line format cannot carry.
pub proof fn lemma_encode_decode(v: Seq<(Seq<char>, u64)>)
    requires
        paths_distinct(v),
        forall|i: int| 0 <= i < v.len() ==> !(#[trigger] v[i]).0.contains('\n'),
    ensures
        ({
            let lines = lines_of(encode_text(v));
            &&& lines.len() == v.len()
            &&& lines_good_upto(lines, lines.len() as int)
            &&& entries_of_lines(lines) == v
        }),
{
    lemma_encode_lines(v);
    let lines = lines_of(encode_text(v));
    assert forall|k: int| 0 <= k < lines.len() implies line_score_ok(#[trigger] lines[k])
        && !line_dup(lines, k) && line_entry(lines[k]) == v[k] by {
        lemma_encode_line_parses(v[k]);
        if line_dup(lines, k) {
            let j = choose|j: int|
                0 <= j < k && line_path_part(lines[j]) == line_path_part(lines[k]);
            lemma_encode_line_parses(v[j]);
            assert(v[j].0 == v[k].0);
        }
    }
    assert(entries_of_lines(lines) =~= v);
}

} // verus!
