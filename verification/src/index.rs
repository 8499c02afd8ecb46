//! The scored directory index: a store of canonical paths and visit scores
//! with add/increment, ranked fuzzy queries, removal, cleanup, and a
//! line-oriented text encoding.

use vstd::prelude::*;

use crate::fsio::lower_of;
use crate::text::all_digits;
use crate::text::components_of;
use crate::text::contains_seq;
use crate::text::digits_of;
use crate::text::find_char;
use crate::text::lines_of;
use crate::text::starts_with;
use crate::text::val_of_digits;
use vstd::string::StringExecFns;

verus! {

/// The canonical form of the filesystem root, which the index never tracks.
pub open spec fn root_path() -> Seq<char> {
    seq!['/']
}

/// Everything an index operation can report.
#[derive(Debug, Clone, PartialEq, Eq)]
pub enum Error {
    /// An empty path was handed to `add` or `inc`.
    EmptyPath,
    /// The path does not exist on disk (or cannot be resolved).
    NotFound,
    /// The resolved path is not valid UTF-8 text.
    InvalidEncoding,
    /// The path handed to `remove_canonicalized` is not in the index.
    NotRegistered,
    /// The numbered input line has no space separator.
    MalformedLine(usize),
    /// The prefix before the first space of the numbered line is not a
    /// decimal `u64`.
    InvalidScore(usize),
    /// The numbered line repeats a path seen on an earlier line.
    DuplicatePath(usize, String),
}

/// One tracked directory: its canonical path and its visit score.
#[derive(Debug, Clone, PartialEq, Eq)]
pub struct IndexEntry {
    pub path: String,
    pub score: u64,
}

impl View for IndexEntry {
    type V = (Seq<char>, u64);

    open spec fn view(&self) -> (Seq<char>, u64) {
        (self.path@, self.score)
    }
}

/// The scored directory index. Its mathematical content is a sequence of
/// `(path, score)` pairs in storage order; well-formed indexes never hold
/// two entries with the same path.
#[derive(Debug)]
pub struct Index {
    entries: Vec<IndexEntry>,
}

/// The pairs a sequence of entries stands for.
pub open spec fn views_of(s: Seq<IndexEntry>) -> Seq<(Seq<char>, u64)> {
    s.map_values(|e: IndexEntry| e@)
}

impl View for Index {
    type V = Seq<(Seq<char>, u64)>;

    closed spec fn view(&self) -> Seq<(Seq<char>, u64)> {
        views_of(self.entries@)
    }
}

/// Whether some entry of `v` holds the path `p`.
pub open spec fn has_path(v: Seq<(Seq<char>, u64)>, p: Seq<char>) -> bool {
    exists|i: int| 0 <= i < v.len() && v[i].0 == p
}

/// No two entries share a path.
pub open spec fn paths_distinct(v: Seq<(Seq<char>, u64)>) -> bool {
    forall|i: int, j: int| 0 <= i < j < v.len() ==> v[i].0 != v[j].0
}

/// Index of the first entry of `v` holding the path `p`, or -1.
pub open spec fn idx_of_path(v: Seq<(Seq<char>, u64)>, p: Seq<char>) -> int
    decreases v.len(),
{
    if v.len() == 0 {
        -1
    } else if v[0].0 == p {
        0
    } else {
        let r = idx_of_path(v.drop_first(), p);
        if r < 0 {
            -1
        } else {
            r + 1
        }
    }
}

/// The score stored beside the path `p`.
pub open spec fn score_of(v: Seq<(Seq<char>, u64)>, p: Seq<char>) -> u64 {
    v[idx_of_path(v, p)].1
}

/// `v` with the score beside the path `p` replaced by `t`; entries with
/// other paths, and the storage order, are untouched.
pub open spec fn set_score_spec(v: Seq<(Seq<char>, u64)>, p: Seq<char>, t: u64) -> Seq<
    (Seq<char>, u64),
> {
    v.map_values(
        |e: (Seq<char>, u64)|
            if e.0 == p {
                (p, t)
            } else {
                e
            },
    )
}

/// `idx_of_path` finds the first entry with the path, if there is one.
pub proof fn lemma_idx_of_path(v: Seq<(Seq<char>, u64)>, p: Seq<char>)
    ensures
        idx_of_path(v, p) >= 0 ==> {
            &&& idx_of_path(v, p) < v.len()
            &&& v[idx_of_path(v, p)].0 == p
            &&& forall|j: int| 0 <= j < idx_of_path(v, p) ==> v[j].0 != p
        },
        idx_of_path(v, p) < 0 ==> forall|j: int| 0 <= j < v.len() ==> v[j].0 != p,
        has_path(v, p) <==> idx_of_path(v, p) >= 0,
    decreases v.len(),
{
    if v.len() > 0 && v[0].0 != p {
        lemma_idx_of_path(v.drop_first(), p);
        let r = idx_of_path(v.drop_first(), p);
        if r >= 0 {
            assert forall|j: int| 0 <= j < r + 1 implies v[j].0 != p by {
                if j > 0 {
                    assert(v.drop_first()[j - 1].0 != p);
                }
            }
            assert(v[r + 1].0 == p);
        } else {
            assert forall|j: int| 0 <= j < v.len() implies v[j].0 != p by {
                if j > 0 {
                    assert(v.drop_first()[j - 1].0 != p);
                }
            }
        }
    }
    if v.len() > 0 && v[0].0 == p {
        assert(v[0].0 == p);
    }
}

/// A position holding `p`, with none earlier, is exactly `idx_of_path`.
pub proof fn lemma_idx_of_path_is(v: Seq<(Seq<char>, u64)>, p: Seq<char>, i: int)
    requires
        0 <= i < v.len(),
        v[i].0 == p,
        forall|j: int| 0 <= j < i ==> v[j].0 != p,
    ensures
        idx_of_path(v, p) == i,
{
    lemma_idx_of_path(v, p);
}

// ---------------------------------------------------------------------------
// Query specification
// ---------------------------------------------------------------------------

/// The last path component of `p`, lower-cased, holds `lq` as a substring.
/// Such entries form the primary match set of a query.
pub open spec fn fname_matches(p: Seq<char>, lq: Seq<char>) -> bool {
    components_of(p).len() > 0 && contains_seq(lower_of(components_of(p).last()), lq)
}

/// Some path component of `p`, lower-cased, holds `lq` as a substring.
pub open spec fn comp_matches(p: Seq<char>, lq: Seq<char>) -> bool {
    exists|c: Seq<char>| components_of(p).contains(c) && contains_seq(lower_of(c), lq)
}

/// The entries of `v` whose last component matches `lq`, in storage order.
pub open spec fn primary_of(v: Seq<(Seq<char>, u64)>, lq: Seq<char>) -> Seq<(Seq<char>, u64)>
    decreases v.len(),
{
    if v.len() == 0 {
        Seq::empty()
    } else {
        let rest = primary_of(v.drop_last(), lq);
        if fname_matches(v.last().0, lq) {
            rest.push(v.last())
        } else {
            rest
        }
    }
}

/// Insertion of `e` into a score-descending sequence, after every entry
/// scoring at least `e`: ties keep their earlier position.
pub open spec fn insert_desc(r: Seq<(Seq<char>, u64)>, e: (Seq<char>, u64)) -> Seq<
    (Seq<char>, u64),
>
    decreases r.len(),
{
    if r.len() == 0 {
        seq![e]
    } else if r.last().1 >= e.1 {
        r.push(e)
    } else {
        insert_desc(r.drop_last(), e).push(r.last())
    }
}

/// Stable sort by score descending: equal scores keep their input order.
pub open spec fn sort_desc(s: Seq<(Seq<char>, u64)>) -> Seq<(Seq<char>, u64)>
    decreases s.len(),
{
    if s.len() == 0 {
        s
    } else {
        insert_desc(sort_desc(s.drop_last()), s.last())
    }
}

/// The primary list rotated so iteration resumes after the entry holding
/// `a` and wraps around; without such an entry the list is unchanged.
pub open spec fn rotate_after(prim: Seq<(Seq<char>, u64)>, a: Seq<char>) -> Seq<(Seq<char>, u64)> {
    let i = idx_of_path(prim, a);
    if i >= 0 {
        prim.skip(i + 1) + prim.take(i + 1)
    } else {
        prim
    }
}

/// Whether `p` lies at or under the `after` marker, as a string prefix.
pub open spec fn under_after(p: Seq<char>, after: Option<Seq<char>>) -> bool {
    match after {
        Some(a) => starts_with(p, a),
        None => false,
    }
}

/// Membership in the secondary match set: some component matches, the last
/// one does not (those entries are already listed), and the entry does not
/// lie under the `after` marker.
pub open spec fn secondary_pred(p: Seq<char>, lq: Seq<char>, after: Option<Seq<char>>) -> bool {
    comp_matches(p, lq) && !fname_matches(p, lq) && !under_after(p, after)
}

/// The secondary match set, in storage order.
pub open spec fn secondary_of(
    v: Seq<(Seq<char>, u64)>,
    lq: Seq<char>,
    after: Option<Seq<char>>,
) -> Seq<(Seq<char>, u64)>
    decreases v.len(),
{
    if v.len() == 0 {
        Seq::empty()
    } else {
        let rest = secondary_of(v.drop_last(), lq, after);
        if secondary_pred(v.last().0, lq, after) {
            rest.push(v.last())
        } else {
            rest
        }
    }
}

/// What a query returns: the primary match set sorted by score descending
/// (ties in storage order), rotated past the `after` marker when that
/// marker is itself a primary match, followed by the secondary match set.
pub open spec fn query_spec(
    v: Seq<(Seq<char>, u64)>,
    q: Seq<char>,
    after: Option<Seq<char>>,
) -> Seq<(Seq<char>, u64)> {
    let lq = lower_of(q);
    let prim = sort_desc(primary_of(v, lq));
    let rot = match after {
        Some(a) => rotate_after(prim, a),
        None => prim,
    };
    rot + secondary_of(v, lq, after)
}

/// The view of an optional borrowed string.
pub open spec fn opt_str_view(o: Option<&str>) -> Option<Seq<char>> {
    match o {
        Some(a) => Some(a@),
        None => None,
    }
}

/// The paths of a sequence of entries.
pub open spec fn paths_of(v: Seq<(Seq<char>, u64)>) -> Seq<Seq<char>> {
    v.map_values(|e: (Seq<char>, u64)| e.0)
}

// ---------------------------------------------------------------------------
// Effects of registration and scoring
// ---------------------------------------------------------------------------

/// A score one higher, stopping at the largest representable value.
pub open spec fn sat_inc(s: u64) -> u64 {
    if s == u64::MAX {
        u64::MAX
    } else {
        (s + 1) as u64
    }
}

/// What `add` does to the entries once the path is canonical: the root is
/// never tracked, a known path keeps its score, a new one starts at 1.
pub open spec fn add_effect(v: Seq<(Seq<char>, u64)>, cp: Seq<char>) -> Seq<(Seq<char>, u64)> {
    if cp == root_path() {
        v
    } else if has_path(v, cp) {
        v
    } else {
        v.push((cp, 1))
    }
}

/// What `inc` without promotion does: a known path's score grows by one,
/// saturating; a new one starts at 1. The root is never tracked.
pub open spec fn inc_effect(v: Seq<(Seq<char>, u64)>, cp: Seq<char>) -> Seq<(Seq<char>, u64)> {
    if cp == root_path() {
        v
    } else if has_path(v, cp) {
        set_score_spec(v, cp, sat_inc(score_of(v, cp)))
    } else {
        v.push((cp, 1))
    }
}

/// What `inc` with promotion does: a known path jumps to the largest
/// representable score outright; a new one starts at half of it. The root
/// is never tracked.
pub open spec fn top_effect(v: Seq<(Seq<char>, u64)>, cp: Seq<char>) -> Seq<(Seq<char>, u64)> {
    if cp == root_path() {
        v
    } else if has_path(v, cp) {
        set_score_spec(v, cp, u64::MAX)
    } else {
        v.push((cp, u64::MAX / 2))
    }
}

/// What `add_or_inc` does to the entries once the path is canonical, for an
/// arbitrary score-update function `f` and default `dflt`.
pub open spec fn upserted<F: FnOnce(u64) -> u64>(
    pre: Seq<(Seq<char>, u64)>,
    post: Seq<(Seq<char>, u64)>,
    cp: Seq<char>,
    f: F,
    dflt: u64,
) -> bool {
    if cp == root_path() {
        post == pre
    } else if has_path(pre, cp) {
        exists|t: u64|
            call_ensures(f, (score_of(pre, cp),), t) && post == set_score_spec(pre, cp, t)
    } else {
        post == pre.push((cp, dflt))
    }
}

/// Replacing a score keeps every path in place.
pub proof fn lemma_set_score_paths(v: Seq<(Seq<char>, u64)>, p: Seq<char>, t: u64)
    ensures
        set_score_spec(v, p, t).len() == v.len(),
        forall|j: int| 0 <= j < v.len() ==> #[trigger] set_score_spec(v, p, t)[j].0 == v[j].0,
        paths_distinct(v) ==> paths_distinct(set_score_spec(v, p, t)),
        paths_distinct(v) && has_path(v, p) ==> score_of(set_score_spec(v, p, t), p) == t,
{
    let w = set_score_spec(v, p, t);
    assert(forall|j: int| 0 <= j < v.len() ==> #[trigger] w[j].0 == v[j].0);
    if paths_distinct(v) && has_path(v, p) {
        lemma_idx_of_path(v, p);
        let i = idx_of_path(v, p);
        lemma_idx_of_path_is(w, p, i);
    }
}

/// Writing back the score an entry already holds changes nothing.
pub proof fn lemma_set_score_same(v: Seq<(Seq<char>, u64)>, p: Seq<char>)
    requires
        paths_distinct(v),
        has_path(v, p),
    ensures
        set_score_spec(v, p, score_of(v, p)) == v,
{
    lemma_idx_of_path(v, p);
    let i = idx_of_path(v, p);
    let w = set_score_spec(v, p, score_of(v, p));
    assert forall|j: int| 0 <= j < v.len() implies w[j] == v[j] by {
        if v[j].0 == p {
            if j < i {
                assert(false);
            } else if j > i {
                assert(false);
            }
            assert(w[j] == (p, v[i].1));
        }
    }
    assert(w =~= v);
}

/// `v` without every entry whose path occurs in `ps`, in storage order.
pub open spec fn remove_paths_spec(v: Seq<(Seq<char>, u64)>, ps: Seq<Seq<char>>) -> Seq<
    (Seq<char>, u64),
>
    decreases v.len(),
{
    if v.len() == 0 {
        v
    } else {
        let rest = remove_paths_spec(v.drop_last(), ps);
        if ps.contains(v.last().0) {
            rest
        } else {
            rest.push(v.last())
        }
    }
}

/// Removal keeps only entries that were already there, in particular their
/// distinctness.
pub proof fn lemma_remove_paths_sub(v: Seq<(Seq<char>, u64)>, ps: Seq<Seq<char>>)
    ensures
        forall|p: Seq<char>|
            #[trigger] has_path(remove_paths_spec(v, ps), p) ==> has_path(v, p),
        paths_distinct(v) ==> paths_distinct(remove_paths_spec(v, ps)),
    decreases v.len(),
{
    if v.len() > 0 {
        lemma_remove_paths_sub(v.drop_last(), ps);
        let rest = remove_paths_spec(v.drop_last(), ps);
        assert forall|p: Seq<char>| #[trigger] has_path(rest, p) implies has_path(v, p) by {
            assert(has_path(v.drop_last(), p));
            let i = choose|i: int|
                0 <= i < v.drop_last().len() && v.drop_last()[i].0 == p;
            assert(v[i].0 == p);
        }
        if !ps.contains(v.last().0) {
            let w = rest.push(v.last());
            assert forall|p: Seq<char>| #[trigger] has_path(w, p) implies has_path(v, p) by {
                let i = choose|i: int| 0 <= i < w.len() && w[i].0 == p;
                if i < rest.len() {
                    assert(has_path(rest, p));
                } else {
                    assert(v[v.len() - 1].0 == p);
                }
            }
            if paths_distinct(v) {
                assert forall|a: int, b: int|
                    0 <= a < b < w.len() implies w[a].0 != w[b].0 by {
                    if b == w.len() - 1 {
                        assert(has_path(rest, w[a].0));
                        let i = choose|i: int|
                            0 <= i < v.drop_last().len() && v.drop_last()[i].0 == w[a].0;
                        assert(v[i].0 == w[a].0);
                        assert(v[i].0 != v[v.len() - 1].0);
                    }
                }
            }
        }
    }
}

// ---------------------------------------------------------------------------
// Query helpers
// ---------------------------------------------------------------------------

/// Inserting below every at-least-as-high score lands at the boundary.
pub proof fn lemma_insert_desc_at(r: Seq<(Seq<char>, u64)>, e: (Seq<char>, u64), j: int)
    requires
        0 <= j <= r.len(),
        forall|t: int| j <= t < r.len() ==> r[t].1 < e.1,
        j > 0 ==> r[j - 1].1 >= e.1,
    ensures
        insert_desc(r, e) == r.take(j) + seq![e] + r.skip(j),
    decreases r.len(),
{
    if r.len() == 0 {
        assert(insert_desc(r, e) =~= r.take(j) + seq![e] + r.skip(j));
    } else if j == r.len() {
        assert(r.last().1 >= e.1);
        assert(insert_desc(r, e) =~= r.take(j) + seq![e] + r.skip(j));
    } else {
        assert(r.last().1 < e.1);
        assert(forall|t: int| j <= t < r.drop_last().len() ==> r.drop_last()[t].1 < e.1);
        lemma_insert_desc_at(r.drop_last(), e, j);
        assert((r.drop_last().take(j) + seq![e] + r.drop_last().skip(j)).push(r.last()) =~= r.take(
            j,
        ) + seq![e] + r.skip(j));
    }
}

/// Inserts `e` into a score-descending vector, after every entry scoring
/// at least as much.
fn insert_sorted(v: &mut Vec<IndexEntry>, e: IndexEntry)
    ensures
        views_of(final(v)@) == insert_desc(views_of(old(v)@), e@),
{
    let mut j = v.len();
    while j > 0 && v[j - 1].score < e.score
        invariant
            0 <= j <= v@.len(),
            forall|t: int| j <= t < v@.len() ==> views_of(v@)[t].1 < e@.1,
        decreases j,
    {
        j -= 1;
    }
    proof {
        lemma_insert_desc_at(views_of(v@), e@, j as int);
    }
    let ghost pre = views_of(v@);
    v.insert(j, e);
    proof {
        assert(views_of(v@) =~= pre.take(j as int) + seq![e@] + pre.skip(j as int));
    }
}

/// Whether the last component of `path` matches the lower-cased query.
fn fname_match_exec(path: &str, lq: &str) -> (b: bool)
    ensures
        b == fname_matches(path@, lq@),
{
    match crate::text::last_component(path) {
        None => false,
        Some(c) => {
            let low = crate::fsio::lowercase(c.as_str());
            crate::text::contains_str(low.as_str(), lq)
        },
    }
}

/// Whether any component of `path` matches the lower-cased query.
fn comp_match_exec(path: &str, lq: &str) -> (b: bool)
    ensures
        b == comp_matches(path@, lq@),
{
    let parts = crate::text::split_str(path, '/');
    let ghost segs = crate::text::str_views(parts@);
    let n = parts.len();
    let mut j: usize = 0;
    while j < n
        invariant
            0 <= j <= n,
            n == parts@.len(),
            segs == crate::text::str_views(parts@),
            segs == crate::text::split_on(path@, '/'),
            forall|t: int|
                0 <= t < j ==> segs[t].len() == 0 || !contains_seq(
                    lower_of(#[trigger] segs[t]),
                    lq@,
                ),
        decreases n - j,
    {
        if parts[j].as_str().unicode_len() > 0 {
            let low = crate::fsio::lowercase(parts[j].as_str());
            if crate::text::contains_str(low.as_str(), lq) {
                proof {
                    crate::text::lemma_nonempty_segs_contains(segs, segs[j as int]);
                    assert(segs.contains(segs[j as int]));
                    assert(components_of(path@).contains(segs[j as int]));
                }
                return true;
            }
        }
        j += 1;
    }
    proof {
        if comp_matches(path@, lq@) {
            let c = choose|c: Seq<char>|
                components_of(path@).contains(c) && contains_seq(lower_of(c), lq@);
            crate::text::lemma_nonempty_segs_contains(segs, c);
            let t = choose|t: int| 0 <= t < segs.len() && segs[t] == c;
            assert(false);
        }
    }
    false
}

/// Whether `p` lies at or under the `after` marker.
fn under_after_exec(p: &str, after: Option<&str>) -> (b: bool)
    ensures
        b == under_after(p@, opt_str_view(after)),
{
    match after {
        None => false,
        Some(a) => crate::text::starts_with_str(p, a),
    }
}

// ---------------------------------------------------------------------------
// Text encoding
// ---------------------------------------------------------------------------

/// The line an entry is written as: the score in decimal, one space, the
/// path (which may itself contain spaces; only the first space separates).
pub open spec fn encode_line(e: (Seq<char>, u64)) -> Seq<char> {
    digits_of(e.1 as nat) + seq![' '] + e.0
}

/// The whole encoded text: one line per entry in storage order, joined by
/// single newlines, with no trailing newline.
pub open spec fn encode_text(v: Seq<(Seq<char>, u64)>) -> Seq<char>
    decreases v.len(),
{
    if v.len() == 0 {
        Seq::empty()
    } else if v.len() == 1 {
        encode_line(v[0])
    } else {
        encode_line(v[0]) + seq!['\n'] + encode_text(v.drop_first())
    }
}

/// Appending an entry appends a newline and its line.
pub proof fn lemma_encode_text_push(v: Seq<(Seq<char>, u64)>, e: (Seq<char>, u64))
    requires
        v.len() >= 1,
    ensures
        encode_text(v.push(e)) == encode_text(v) + seq!['\n'] + encode_line(e),
    decreases v.len(),
{
    let w = v.push(e);
    if v.len() == 1 {
        assert(w.len() == 2);
        assert(w[0] == v[0]);
        assert(w.drop_first() =~= seq![e]);
        assert(encode_text(seq![e]) == encode_line(seq![e][0]));
    } else {
        assert(w[0] == v[0]);
        assert(w.drop_first() =~= v.drop_first().push(e));
        lemma_encode_text_push(v.drop_first(), e);
        assert(encode_text(w) == encode_line(v[0]) + seq!['\n'] + (encode_text(v.drop_first())
            + seq!['\n'] + encode_line(e)));
        assert(encode_line(v[0]) + seq!['\n'] + (encode_text(v.drop_first()) + seq!['\n']
            + encode_line(e)) =~= (encode_line(v[0]) + seq!['\n'] + encode_text(v.drop_first()))
            + seq!['\n'] + encode_line(e));
    }
}

// ---------------------------------------------------------------------------
// Text decoding
// ---------------------------------------------------------------------------

/// Position of the first space of a line; -1 on a line without one.
pub open spec fn line_sep(l: Seq<char>) -> int {
    find_char(l, ' ')
}

/// A line with a space separator.
pub open spec fn line_wellformed(l: Seq<char>) -> bool {
    line_sep(l) >= 0
}

/// What stands before the first space: the score text.
pub open spec fn line_score_part(l: Seq<char>) -> Seq<char> {
    l.take(line_sep(l))
}

/// What stands after the first space: the path.
pub open spec fn line_path_part(l: Seq<char>) -> Seq<char> {
    l.skip(line_sep(l) + 1)
}

/// The score text is a nonempty digit string denoting a value that fits.
pub open spec fn line_score_ok(l: Seq<char>) -> bool {
    &&& line_wellformed(l)
    &&& line_score_part(l).len() > 0
    &&& all_digits(line_score_part(l))
    &&& val_of_digits(line_score_part(l)) <= u64::MAX
}

/// The entry a valid line denotes.
pub open spec fn line_entry(l: Seq<char>) -> (Seq<char>, u64) {
    (line_path_part(l), val_of_digits(line_score_part(l)) as u64)
}

/// The entries a sequence of valid lines denotes, in line order.
pub open spec fn entries_of_lines(lines: Seq<Seq<char>>) -> Seq<(Seq<char>, u64)> {
    lines.map_values(|l: Seq<char>| line_entry(l))
}

/// Line `k` repeats the path of an earlier line.
pub open spec fn line_dup(lines: Seq<Seq<char>>, k: int) -> bool {
    exists|j: int| 0 <= j < k && line_path_part(lines[j]) == line_path_part(lines[k])
}

/// Every line before `k` parses and repeats no earlier path.
pub open spec fn lines_good_upto(lines: Seq<Seq<char>>, k: int) -> bool {
    forall|j: int| 0 <= j < k ==> line_score_ok(#[trigger] lines[j]) && !line_dup(lines, j)
}

// ---------------------------------------------------------------------------
// Entry helpers
// ---------------------------------------------------------------------------

/// Whether `p` occurs among `paths`.
fn contains_path(paths: &Vec<String>, p: &str) -> (b: bool)
    ensures
        b == crate::text::str_views(paths@).contains(p@),
{
    let n = paths.len();
    let mut i: usize = 0;
    while i < n
        invariant
            0 <= i <= n,
            n == paths@.len(),
            forall|j: int| 0 <= j < i ==> crate::text::str_views(paths@)[j] != p@,
        decreases n - i,
    {
        if crate::text::eq_str(paths[i].as_str(), p) {
            assert(crate::text::str_views(paths@)[i as int] == p@);
            return true;
        }
        i += 1;
    }
    proof {
        if crate::text::str_views(paths@).contains(p@) {
            let j = choose|j: int|
                0 <= j < paths@.len() && crate::text::str_views(paths@)[j] == p@;
            assert(false);
        }
    }
    false
}

/// An owned copy of an entry.
fn clone_entry(e: &IndexEntry) -> (r: IndexEntry)
    ensures
        r@ == e@,
{
    IndexEntry { path: e.path.clone(), score: e.score }
}

/// Position of the first entry holding the path `p`, if any.
fn find_path(v: &Vec<IndexEntry>, p: &str) -> (r: Option<usize>)
    ensures
        match r {
            Some(i) => idx_of_path(views_of(v@), p@) == i && 0 <= i < v@.len(),
            None => idx_of_path(views_of(v@), p@) == -1 && !has_path(views_of(v@), p@),
        },
{
    let n = v.len();
    let mut i: usize = 0;
    while i < n
        invariant
            0 <= i <= n,
            n == v@.len(),
            forall|j: int| 0 <= j < i ==> views_of(v@)[j].0 != p@,
        decreases n - i,
    {
        if crate::text::eq_str(v[i].path.as_str(), p) {
            proof {
                lemma_idx_of_path_is(views_of(v@), p@, i as int);
            }
            return Some(i);
        }
        i += 1;
    }
    proof {
        lemma_idx_of_path(views_of(v@), p@);
    }
    None
}

impl Index {
    /// A well-formed index holds each path at most once.
    pub open spec fn wf(self) -> bool {
        paths_distinct(self@)
    }

    /// The empty index.
    pub fn new() -> (r: Self)
        ensures
            r@ == Seq::<(Seq<char>, u64)>::empty(),
            r.wf(),
    {
        let r = Index { entries: Vec::new() };
        proof {
            assert(r@ =~= Seq::<(Seq<char>, u64)>::empty());
        }
        r
    }

    /// Empties the index unconditionally.
    pub fn clear(&mut self)
        ensures
            final(self)@ == Seq::<(Seq<char>, u64)>::empty(),
            final(self).wf(),
    {
        self.entries = Vec::new();
        proof {
            assert(self@ =~= Seq::<(Seq<char>, u64)>::empty());
        }
    }

    /// Turns a user-supplied path into the canonical absolute UTF-8 form
    /// used as the index key, or reports why it cannot.
    pub fn canonicalize(path: &str) -> (r: Result<String, Error>)
        ensures
            match r {
                Ok(cp) => cp@.len() > 0,
                Err(e) => e == Error::NotFound || e == Error::InvalidEncoding,
            },
    {
        crate::fsio::canonical_form(path)
    }

    /// Registers the canonical path `cp`: the root is skipped, a known path
    /// has its score updated by `update_score`, a new one starts at
    /// `default_value`.
    pub fn register_canonical<F: FnOnce(u64) -> u64>(
        &mut self,
        cp: String,
        update_score: F,
        default_value: u64,
    )
        requires
            old(self).wf(),
            forall|s: u64| #[trigger] call_requires(update_score, (s,)),
        ensures
            final(self).wf(),
            upserted(old(self)@, final(self)@, cp@, update_score, default_value),
    {
        proof {
            reveal_strlit("/");
            assert("/"@ =~= root_path());
        }
        if crate::text::eq_str(cp.as_str(), "/") {
            return ;
        }
        match find_path(&self.entries, cp.as_str()) {
            Some(i) => {
                proof {
                    lemma_idx_of_path(self@, cp@);
                }
                let old_score = self.entries[i].score;
                let t = update_score(old_score);
                let mut e = self.entries.remove(i);
                e.score = t;
                self.entries.insert(i, e);
                proof {
                    let pre = old(self)@;
                    assert(self@ =~= set_score_spec(pre, cp@, t)) by {
                        assert forall|j: int| 0 <= j < pre.len() implies self@[j]
                            == set_score_spec(pre, cp@, t)[j] by {
                            if j != i {
                                assert(pre[j].0 != cp@);
                            }
                        }
                        assert(self@.len() == set_score_spec(pre, cp@, t).len());
                    }
                    lemma_set_score_paths(pre, cp@, t);
                }
            },
            None => {
                self.entries.push(IndexEntry { path: cp, score: default_value });
                proof {
                    let pre = old(self)@;
                    assert(self@ =~= pre.push((cp@, default_value)));
                    assert forall|a: int, b: int|
                        0 <= a < b < self@.len() implies self@[a].0 != self@[b].0 by {
                        if b == self@.len() - 1 {
                            assert(pre[a].0 != cp@);
                        }
                    }
                }
            },
        }
    }

    /// Validates `path`, canonicalizes it, and registers it with
    /// `update_score` and `default_value` as `register_canonical` does.
    /// An empty path, a path absent from disk, and a path that resolves
    /// outside UTF-8 are rejected, and the index is then unchanged.
    pub fn add_or_inc<F: FnOnce(u64) -> u64>(
        &mut self,
        path: String,
        update_score: F,
        default_value: u64,
    ) -> (r: Result<(), Error>)
        requires
            old(self).wf(),
            forall|s: u64| #[trigger] call_requires(update_score, (s,)),
        ensures
            final(self).wf(),
            match r {
                Ok(()) => path@.len() > 0 && (exists|cp: Seq<char>|
                    cp.len() > 0 && upserted(
                        old(self)@,
                        final(self)@,
                        cp,
                        update_score,
                        default_value,
                    )),
                Err(e) => final(self)@ == old(self)@ && match e {
                    Error::EmptyPath => path@.len() == 0,
                    Error::NotFound => path@.len() > 0,
                    Error::InvalidEncoding => path@.len() > 0,
                    _ => false,
                },
            },
    {
        if path.as_str().unicode_len() == 0 {
            return Err(Error::EmptyPath);
        }
        if !crate::fsio::path_is_dir(path.as_str()) {
            return Err(Error::NotFound);
        }
        match Self::canonicalize(path.as_str()) {
            Err(e) => Err(e),
            Ok(cp) => {
                let ghost cpv = cp@;
                self.register_canonical(cp, update_score, default_value);
                proof {
                    assert(cpv.len() > 0 && upserted(
                        old(self)@,
                        self@,
                        cpv,
                        update_score,
                        default_value,
                    ));
                }
                Ok(())
            },
        }
    }

    /// Registers a directory if it is not yet known; a known directory
    /// keeps its score. The filesystem root is accepted but never tracked.
    pub fn add(&mut self, path: String) -> (r: Result<(), Error>)
        requires
            old(self).wf(),
        ensures
            final(self).wf(),
            match r {
                Ok(()) => path@.len() > 0 && (exists|cp: Seq<char>|
                    cp.len() > 0 && final(self)@ == add_effect(old(self)@, cp)),
                Err(e) => final(self)@ == old(self)@ && match e {
                    Error::EmptyPath => path@.len() == 0,
                    Error::NotFound => path@.len() > 0,
                    Error::InvalidEncoding => path@.len() > 0,
                    _ => false,
                },
            },
    {
        let keep = |score: u64| -> (r: u64)
            ensures
                r == score,
            { score };
        let r = self.add_or_inc(path, keep, 1);
        proof {
            if r is Ok {
                let cp = choose|cp: Seq<char>|
                    cp.len() > 0 && upserted(old(self)@, self@, cp, keep, 1u64);
                if cp != root_path() && has_path(old(self)@, cp) {
                    let t = choose|t: u64|
                        call_ensures(keep, (score_of(old(self)@, cp),), t) && self@
                            == set_score_spec(old(self)@, cp, t);
                    assert(t == score_of(old(self)@, cp));
                    lemma_set_score_same(old(self)@, cp);
                }
                assert(self@ == add_effect(old(self)@, cp));
            }
        }
        r
    }

    /// Counts a visit: a known directory's score grows by one (saturating),
    /// a new one starts at 1. With `set_top`, a known directory jumps to
    /// the maximum score and a new one starts at half of it. The filesystem
    /// root is accepted but never tracked.
    pub fn inc(&mut self, path: String, set_top: bool) -> (r: Result<(), Error>)
        requires
            old(self).wf(),
        ensures
            final(self).wf(),
            match r {
                Ok(()) => path@.len() > 0 && (exists|cp: Seq<char>|
                    cp.len() > 0 && final(self)@ == (if set_top {
                        top_effect(old(self)@, cp)
                    } else {
                        inc_effect(old(self)@, cp)
                    })),
                Err(e) => final(self)@ == old(self)@ && match e {
                    Error::EmptyPath => path@.len() == 0,
                    Error::NotFound => path@.len() > 0,
                    Error::InvalidEncoding => path@.len() > 0,
                    _ => false,
                },
            },
    {
        let bump = |score: u64| -> (r: u64)
            ensures
                r == if set_top {
                    u64::MAX
                } else {
                    sat_inc(score)
                },
            {
                if set_top {
                    u64::MAX
                } else if score == u64::MAX {
                    u64::MAX
                } else {
                    score + 1
                }
            };
        let dflt: u64 = if set_top {
            u64::MAX / 2
        } else {
            1
        };
        let r = self.add_or_inc(path, bump, dflt);
        proof {
            if r is Ok {
                let cp = choose|cp: Seq<char>|
                    cp.len() > 0 && upserted(old(self)@, self@, cp, bump, dflt);
                if cp != root_path() && has_path(old(self)@, cp) {
                    let t = choose|t: u64|
                        call_ensures(bump, (score_of(old(self)@, cp),), t) && self@
                            == set_score_spec(old(self)@, cp, t);
                }
                assert(self@ == (if set_top {
                    top_effect(old(self)@, cp)
                } else {
                    inc_effect(old(self)@, cp)
                }));
            }
        }
        r
    }

    /// Deletes the entry holding the (already canonical) path, or reports
    /// that no entry holds it.
    pub fn remove_canonicalized(&mut self, path: &str) -> (r: Result<(), Error>)
        requires
            old(self).wf(),
        ensures
            final(self).wf(),
            match r {
                Ok(()) => has_path(old(self)@, path@) && final(self)@ == old(self)@.remove(
                    idx_of_path(old(self)@, path@),
                ),
                Err(e) => e == Error::NotRegistered && !has_path(old(self)@, path@)
                    && final(self)@ == old(self)@,
            },
    {
        match find_path(&self.entries, path) {
            None => Err(Error::NotRegistered),
            Some(i) => {
                proof {
                    lemma_idx_of_path(self@, path@);
                }
                self.entries.remove(i);
                proof {
                    let pre = old(self)@;
                    assert(self@ =~= pre.remove(i as int));
                    assert forall|a: int, b: int|
                        0 <= a < b < self@.len() implies self@[a].0 != self@[b].0 by {
                        let a0: int = if a < i { a } else { a + 1 };
                        let b0: int = if b < i { b } else { b + 1 };
                        assert(pre[a0].0 != pre[b0].0);
                    }
                }
                Ok(())
            },
        }
    }

    /// Deletes every entry whose path occurs in `paths`.
    pub fn remove_all(&mut self, paths: &Vec<String>)
        requires
            old(self).wf(),
        ensures
            final(self).wf(),
            final(self)@ == remove_paths_spec(old(self)@, crate::text::str_views(paths@)),
    {
        let ghost ps = crate::text::str_views(paths@);
        let mut kept: Vec<IndexEntry> = Vec::new();
        let n = self.entries.len();
        let mut i: usize = 0;
        while i < n
            invariant
                0 <= i <= n,
                n == self.entries@.len(),
                ps == crate::text::str_views(paths@),
                views_of(kept@) == remove_paths_spec(views_of(self.entries@).take(i as int), ps),
            decreases n - i,
        {
            let ghost pre_kept = kept@;
            let keep = !contains_path(paths, self.entries[i].path.as_str());
            if keep {
                kept.push(clone_entry(&self.entries[i]));
            }
            proof {
                let t = views_of(self.entries@).take(i + 1);
                assert(t.drop_last() =~= views_of(self.entries@).take(i as int));
                assert(t.last() == views_of(self.entries@)[i as int]);
                if keep {
                    assert(views_of(kept@) =~= views_of(pre_kept).push(
                        views_of(self.entries@)[i as int],
                    ));
                }
                assert(views_of(kept@) =~= remove_paths_spec(t, ps));
            }
            i += 1;
        }
        proof {
            assert(views_of(self.entries@).take(n as int) =~= views_of(self.entries@));
        }
        self.entries = kept;
        proof {
            lemma_remove_paths_sub(old(self)@, ps);
        }
    }

    /// Deletes every entry whose path no longer names a directory on disk.
    /// Which entries go depends on the disk: every outcome keeps some
    /// path-distinct selection of the old entries, in storage order.
    pub fn cleanup(&mut self)
        requires
            old(self).wf(),
        ensures
            final(self).wf(),
            exists|ps: Seq<Seq<char>>|
                final(self)@ == remove_paths_spec(old(self)@, ps),
    {
        let mut stale: Vec<String> = Vec::new();
        let n = self.entries.len();
        let mut i: usize = 0;
        while i < n
            invariant
                0 <= i <= n,
                n == self.entries@.len(),
                self@ == old(self)@,
                self.wf(),
            decreases n - i,
        {
            if !crate::fsio::path_is_dir(self.entries[i].path.as_str()) {
                stale.push(self.entries[i].path.clone());
            }
            i += 1;
        }
        self.remove_all(&stale);
    }

    /// Serializes the index: one `"<score> <path>"` line per entry in
    /// storage order, joined by single newlines.
    pub fn encode(&self) -> (r: String)
        ensures
            r@ == encode_text(self@),
    {
        let mut out = String::new();
        let n = self.entries.len();
        let mut i: usize = 0;
        while i < n
            invariant
                0 <= i <= n,
                n == self.entries@.len(),
                out@ == encode_text(self@.take(i as int)),
            decreases n - i,
        {
            let ghost pre = out@;
            if i > 0 {
                crate::fsio::push_char(&mut out, '\n');
            }
            crate::text::push_digits(&mut out, self.entries[i].score);
            crate::fsio::push_char(&mut out, ' ');
            out.append(self.entries[i].path.as_str());
            proof {
                let e = self@[i as int];
                if i == 0 {
                    assert(self@.take(1int)[0] == e);
                    assert(encode_text(self@.take(1int)) == encode_line(e));
                    assert(out@ =~= encode_line(e));
                } else {
                    lemma_encode_text_push(self@.take(i as int), e);
                    assert(self@.take(i + 1) =~= self@.take(i as int).push(e));
                    assert(out@ =~= pre + seq!['\n'] + encode_line(e));
                }
            }
            i += 1;
        }
        proof {
            assert(self@.take(n as int) =~= self@);
        }
        out
    }

    /// Parses the text format `encode` writes. The empty text is the empty
    /// index. A line without a space, a line whose prefix before the first
    /// space is not a decimal `u64`, and a line repeating an earlier path
    /// are each reported with their 1-based line number.
    pub fn decode(input: &str) -> (r: Result<Index, Error>)
        ensures
            ({
                let lines = lines_of(input@);
                match r {
                    Ok(idx) => {
                        &&& idx.wf()
                        &&& lines_good_upto(lines, lines.len() as int)
                        &&& idx@ == entries_of_lines(lines)
                    },
                    Err(e) => match e {
                        Error::MalformedLine(n) => 1 <= n <= lines.len()
                            && lines_good_upto(lines, n - 1) && !line_wellformed(
                            lines[n - 1],
                        ),
                        Error::InvalidScore(n) => 1 <= n <= lines.len() && lines_good_upto(
                            lines,
                            n - 1,
                        ) && line_wellformed(lines[n - 1]) && !line_score_ok(lines[n - 1]),
                        Error::DuplicatePath(n, p) => 1 <= n <= lines.len()
                            && lines_good_upto(lines, n - 1) && line_score_ok(lines[n - 1])
                            && line_dup(lines, n - 1) && p@ == line_path_part(lines[n - 1]),
                        _ => false,
                    },
                }
            }),
    {
        let lines = crate::text::split_lines(input);
        let ghost lv = lines_of(input@);
        let mut entries: Vec<IndexEntry> = Vec::new();
        let m = lines.len();
        let mut k: usize = 0;
        while k < m
            invariant
                0 <= k <= m,
                m == lines@.len(),
                lv == lines_of(input@),
                crate::text::str_views(lines@) == lv,
                lines_good_upto(lv, k as int),
                views_of(entries@) == entries_of_lines(lv.take(k as int)),
                paths_distinct(views_of(entries@)),
            decreases m - k,
        {
            let line = lines[k].as_str();
            let ghost l = lv[k as int];
            proof {
                assert(crate::text::str_views(lines@)[k as int] == lines@[k as int]@);
                assert(line@ == l);
            }
            match crate::text::find_char_in(line, ' ') {
                None => {
                    return Err(Error::MalformedLine(k + 1));
                },
                Some(sep) => {
                    proof {
                        crate::text::lemma_find_char(l, ' ');
                        assert(line_sep(l) == sep);
                    }
                    let nl = line.unicode_len();
                    let score_str = line.substring_char(0, sep);
                    proof {
                        assert(score_str@ =~= line_score_part(l));
                    }
                    match crate::text::parse_u64(score_str) {
                        None => {
                            return Err(Error::InvalidScore(k + 1));
                        },
                        Some(score) => {
                            let path = line.substring_char(sep + 1, nl);
                            proof {
                                assert(path@ =~= line_path_part(l));
                            }
                            match find_path(&entries, path) {
                                Some(_) => {
                                    proof {
                                        lemma_idx_of_path(views_of(entries@), path@);
                                        let i = idx_of_path(views_of(entries@), path@);
                                        assert(views_of(entries@)[i].0 == line_path_part(
                                            lv[i],
                                        ));
                                        assert(line_dup(lv, k as int));
                                    }
                                    return Err(
                                        Error::DuplicatePath(k + 1, path.to_owned()),
                                    );
                                },
                                None => {
                                    let ghost pre = views_of(entries@);
                                    entries.push(
                                        IndexEntry { path: path.to_owned(), score },
                                    );
                                    proof {
                                        assert(views_of(entries@) =~= pre.push(
                                            (path@, score),
                                        ));
                                        assert(lv.take(k + 1).drop_last() =~= lv.take(
                                            k as int,
                                        ));
                                        assert(views_of(entries@) =~= entries_of_lines(
                                            lv.take(k + 1),
                                        ));
                                        assert(!line_dup(lv, k as int)) by {
                                            if line_dup(lv, k as int) {
                                                let j = choose|j: int|
                                                    0 <= j < k && line_path_part(lv[j])
                                                        == line_path_part(lv[k as int]);
                                                assert(pre[j].0 == line_path_part(lv[j]));
                                                assert(has_path(pre, path@));
                                            }
                                        }
                                        assert forall|a: int, b: int|
                                            0 <= a < b < views_of(entries@).len() implies views_of(
                                            entries@,
                                        )[a].0 != views_of(entries@)[b].0 by {
                                            if b == views_of(entries@).len() - 1 {
                                                assert(!has_path(pre, path@));
                                                assert(pre[a].0 != path@);
                                            }
                                        }
                                    }
                                },
                            }
                        },
                    }
                },
            }
            k += 1;
        }
        proof {
            assert(lv.take(m as int) =~= lv);
        }
        Ok(Index { entries })
    }

    /// The ranked results of a query: every entry whose directory name
    /// (last path component) holds the query case-insensitively, sorted by
    /// score descending with ties in storage order and rotated to resume
    /// after the `after` marker; then, at lower priority, every other entry
    /// with a matching component anywhere, in storage order.
    pub fn query_all(&self, query: &str, after: Option<&str>) -> (r: Vec<IndexEntry>)
        ensures
            views_of(r@) == query_spec(self@, query@, opt_str_view(after)),
    {
        let lq = crate::fsio::lowercase(query);
        let ghost lqv = lower_of(query@);
        let n = self.entries.len();

        let mut prim: Vec<IndexEntry> = Vec::new();
        let mut i: usize = 0;
        while i < n
            invariant
                0 <= i <= n,
                n == self.entries@.len(),
                lq@ == lqv,
                lqv == lower_of(query@),
                views_of(prim@) == sort_desc(primary_of(self@.take(i as int), lqv)),
            decreases n - i,
        {
            let ghost z = primary_of(self@.take(i as int), lqv);
            let ghost e = self@[i as int];
            proof {
                let t = self@.take(i + 1);
                assert(t.drop_last() =~= self@.take(i as int));
                assert(t.last() == e);
            }
            let matched = fname_match_exec(self.entries[i].path.as_str(), lq.as_str());
            if matched {
                insert_sorted(&mut prim, clone_entry(&self.entries[i]));
            }
            proof {
                let t = self@.take(i + 1);
                if matched {
                    assert(primary_of(t, lqv) == z.push(e));
                    assert(z.push(e).drop_last() =~= z);
                    assert(sort_desc(z.push(e)) == insert_desc(sort_desc(z), e));
                } else {
                    assert(primary_of(t, lqv) == z);
                }
            }
            i += 1;
        }
        proof {
            assert(self@.take(n as int) =~= self@);
        }
        let ghost primv = sort_desc(primary_of(self@, lqv));

        let mut result: Vec<IndexEntry>;
        let rotate_at: Option<usize> = match after {
            None => None,
            Some(a) => find_path(&prim, a),
        };
        match rotate_at {
            None => {
                result = prim;
            },
            Some(p) => {
                let m = prim.len();
                let mut out: Vec<IndexEntry> = Vec::new();
                let mut t = p + 1;
                while t < m
                    invariant
                        p < t <= m,
                        m == prim@.len(),
                        views_of(out@) == views_of(prim@).subrange(p + 1, t as int),
                    decreases m - t,
                {
                    let ghost pre_out = out@;
                    out.push(clone_entry(&prim[t]));
                    proof {
                        assert(views_of(out@) =~= views_of(pre_out).push(
                            views_of(prim@)[t as int],
                        ));
                        assert(views_of(prim@).subrange(p + 1, t + 1) =~= views_of(
                            prim@,
                        ).subrange(p + 1, t as int).push(views_of(prim@)[t as int]));
                    }
                    t += 1;
                }
                let mut t2: usize = 0;
                while t2 < p + 1
                    invariant
                        0 <= t2 <= p + 1,
                        p < m,
                        m == prim@.len(),
                        views_of(out@) == views_of(prim@).skip(p + 1) + views_of(
                            prim@,
                        ).subrange(0, t2 as int),
                    decreases p + 1 - t2,
                {
                    let ghost pre_out = out@;
                    out.push(clone_entry(&prim[t2]));
                    proof {
                        assert(views_of(out@) =~= views_of(pre_out).push(
                            views_of(prim@)[t2 as int],
                        ));
                        assert(views_of(prim@).skip(p + 1) + views_of(prim@).subrange(
                            0,
                            t2 + 1,
                        ) =~= (views_of(prim@).skip(p + 1) + views_of(prim@).subrange(
                            0,
                            t2 as int,
                        )).push(views_of(prim@)[t2 as int]));
                    }
                    t2 += 1;
                }
                proof {
                    assert(views_of(out@) == views_of(prim@).skip(p + 1) + views_of(
                        prim@,
                    ).take(p + 1));
                }
                result = out;
            },
        }
        proof {
            match opt_str_view(after) {
                None => {
                    assert(views_of(result@) == primv);
                },
                Some(a) => {
                    assert(views_of(result@) == rotate_after(primv, a));
                },
            }
        }
        let ghost base = views_of(result@);

        let mut s: usize = 0;
        while s < n
            invariant
                0 <= s <= n,
                n == self.entries@.len(),
                lq@ == lqv,
                lqv == lower_of(query@),
                views_of(result@) == base + secondary_of(
                    self@.take(s as int),
                    lqv,
                    opt_str_view(after),
                ),
            decreases n - s,
        {
            let ghost z = secondary_of(self@.take(s as int), lqv, opt_str_view(after));
            let ghost e = self@[s as int];
            proof {
                let t = self@.take(s + 1);
                assert(t.drop_last() =~= self@.take(s as int));
                assert(t.last() == e);
            }
            let pstr = self.entries[s].path.as_str();
            let is_sec = comp_match_exec(pstr, lq.as_str()) && !fname_match_exec(
                pstr,
                lq.as_str(),
            ) && !under_after_exec(pstr, after);
            let ghost pre_res = result@;
            if is_sec {
                result.push(clone_entry(&self.entries[s]));
            }
            proof {
                let t = self@.take(s + 1);
                if is_sec {
                    assert(secondary_of(t, lqv, opt_str_view(after)) == z.push(e));
                    assert(views_of(result@) =~= views_of(pre_res).push(e));
                    assert(base + z.push(e) =~= (base + z).push(e));
                } else {
                    assert(secondary_of(t, lqv, opt_str_view(after)) == z);
                }
            }
            s += 1;
        }
        proof {
            assert(self@.take(n as int) =~= self@);
        }
        result
    }

    /// The best match of a query, without checking that it still exists on
    /// disk.
    pub fn query_unchecked(&self, query: &str, after: Option<&str>) -> (r: Option<String>)
        ensures
            ({
                let c = query_spec(self@, query@, opt_str_view(after));
                match r {
                    Some(p) => c.len() > 0 && p@ == c[0].0,
                    None => c.len() == 0,
                }
            }),
    {
        let all = self.query_all(query, after);
        if all.len() > 0 {
            Some(all[0].path.clone())
        } else {
            None
        }
    }

    /// The best match of a query that still exists on disk. Matches found
    /// stale are removed from the index and skipped: for some prefix of the
    /// ranked results, every entry of the prefix is dropped and the next
    /// result — if any is left — is returned.
    pub fn query_checked(&mut self, query: &str, after: Option<&str>) -> (r: Option<String>)
        requires
            old(self).wf(),
        ensures
            final(self).wf(),
            ({
                let c = query_spec(old(self)@, query@, opt_str_view(after));
                exists|k: int|
                    0 <= k <= c.len() && (match r {
                        Some(p) => k < c.len() && p@ == c[k].0,
                        None => k == c.len(),
                    }) && final(self)@ == remove_paths_spec(old(self)@, paths_of(c.take(k)))
            }),
    {
        let all = self.query_all(query, after);
        let ghost c = query_spec(old(self)@, query@, opt_str_view(after));
        let n = all.len();
        let mut stale: Vec<String> = Vec::new();
        let mut k: usize = 0;
        let mut found: Option<String> = None;
        while k < n && found.is_none()
            invariant
                0 <= k <= n,
                n == all@.len(),
                views_of(all@) == c,
                self@ == old(self)@,
                self.wf(),
                crate::text::str_views(stale@) == paths_of(c.take(k as int)),
                match found {
                    Some(p) => k < n && p@ == c[k as int].0,
                    None => true,
                },
            decreases n - k, (if found is None { 1int } else { 0int }),
        {
            if crate::fsio::path_exists(all[k].path.as_str()) {
                found = Some(all[k].path.clone());
            } else {
                stale.push(all[k].path.clone());
                proof {
                    assert(paths_of(c.take(k + 1)) =~= paths_of(c.take(k as int)).push(
                        c[k as int].0,
                    ));
                    assert(crate::text::str_views(stale@) =~= paths_of(c.take(k + 1)));
                }
                k += 1;
            }
        }
        self.remove_all(&stale);
        proof {
            if found is None {
                assert(c.take(k as int) =~= c);
            }
        }
        found
    }

    /// The `(path, score)` pairs of the index, in storage order.
    pub fn iter(&self) -> (r: Vec<IndexEntry>)
        ensures
            views_of(r@) == self@,
    {
        let mut r: Vec<IndexEntry> = Vec::new();
        let n = self.entries.len();
        let mut i: usize = 0;
        while i < n
            invariant
                0 <= i <= n,
                n == self.entries.len(),
                views_of(r@) =~= views_of(self.entries@.take(i as int)),
            decreases n - i,
        {
            let e = IndexEntry {
                path: self.entries[i].path.clone(),
                score: self.entries[i].score,
            };
            r.push(e);
            proof {
                assert(views_of(self.entries@.take(i + 1 as int)) =~= views_of(
                    self.entries@.take(i as int),
                ).push(self.entries@[i as int]@));
            }
            i += 1;
        }
        proof {
            assert(self.entries@.take(n as int) =~= self.entries@);
        }
        r
    }
}

} // verus!

