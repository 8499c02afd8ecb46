//! Character-sequence utilities: searching, splitting, substring containment,
//! and decimal notation for `u64` scores.

use vstd::prelude::*;

verus! {

// ---------------------------------------------------------------------------
// Searching for a character
// ---------------------------------------------------------------------------

/// Index of the first occurrence of `c` in `s`, or -1 if `c` does not occur.
pub open spec fn find_char(s: Seq<char>, c: char) -> int
    decreases s.len(),
{
    if s.len() == 0 {
        -1
    } else if s[0] == c {
        0
    } else {
        let r = find_char(s.drop_first(), c);
        if r < 0 {
            -1
        } else {
            r + 1
        }
    }
}

/// `find_char` returns the first occurrence: the character is there and no
/// earlier position holds it; -1 means no position holds it.
pub proof fn lemma_find_char(s: Seq<char>, c: char)
    ensures
        find_char(s, c) >= 0 ==> {
            &&& find_char(s, c) < s.len()
            &&& s[find_char(s, c)] == c
            &&& forall|j: int| 0 <= j < find_char(s, c) ==> s[j] != c
        },
        find_char(s, c) < 0 ==> forall|j: int| 0 <= j < s.len() ==> s[j] != c,
    decreases s.len(),
{
    if s.len() > 0 && s[0] != c {
        lemma_find_char(s.drop_first(), c);
        let r = find_char(s.drop_first(), c);
        if r >= 0 {
            assert forall|j: int| 0 <= j < r + 1 implies s[j] != c by {
                if j > 0 {
                    assert(s.drop_first()[j - 1] != c);
                }
            }
        } else {
            assert forall|j: int| 0 <= j < s.len() implies s[j] != c by {
                if j > 0 {
                    assert(s.drop_first()[j - 1] != c);
                }
            }
        }
    }
}

/// A position that holds `c`, with none earlier, is exactly `find_char`.
pub proof fn lemma_find_char_is(s: Seq<char>, c: char, i: int)
    requires
        0 <= i < s.len(),
        s[i] == c,
        forall|j: int| 0 <= j < i ==> s[j] != c,
    ensures
        find_char(s, c) == i,
{
    lemma_find_char(s, c);
}

/// First occurrence of `c` in `s`, or `None` if `c` does not occur.
pub fn find_char_in(s: &str, c: char) -> (r: Option<usize>)
    ensures
        match r {
            Some(i) => i == find_char(s@, c),
            None => find_char(s@, c) == -1,
        },
{
    let n = s.unicode_len();
    let mut i: usize = 0;
    while i < n
        invariant
            0 <= i <= n,
            n == s@.len(),
            forall|j: int| 0 <= j < i ==> s@[j] != c,
        decreases n - i,
    {
        if s.get_char(i) == c {
            proof {
                lemma_find_char_is(s@, c, i as int);
            }
            return Some(i);
        }
        i += 1;
    }
    proof {
        lemma_find_char(s@, c);
    }
    None
}

// ---------------------------------------------------------------------------
// Splitting on a separator
// ---------------------------------------------------------------------------

/// The views of a sequence of owned strings.
pub open spec fn str_views(s: Seq<String>) -> Seq<Seq<char>> {
    s.map_values(|p: String| p@)
}

/// The parts of `s` between occurrences of `sep`, in order. Always at least
/// one part; empty parts stand for leading, trailing or doubled separators.
pub open spec fn split_on(s: Seq<char>, sep: char) -> Seq<Seq<char>>
    decreases s.len(),
{
    if s.len() == 0 {
        seq![Seq::<char>::empty()]
    } else if s[0] == sep {
        seq![Seq::<char>::empty()] + split_on(s.drop_first(), sep)
    } else {
        let r = split_on(s.drop_first(), sep);
        seq![seq![s[0]] + r[0]] + r.drop_first()
    }
}

pub proof fn lemma_split_on_len(s: Seq<char>, sep: char)
    ensures
        split_on(s, sep).len() >= 1,
    decreases s.len(),
{
    if s.len() > 0 {
        lemma_split_on_len(s.drop_first(), sep);
    }
}

/// A sequence without the separator splits into itself alone.
pub proof fn lemma_split_no_sep(s: Seq<char>, sep: char)
    requires
        forall|j: int| 0 <= j < s.len() ==> s[j] != sep,
    ensures
        split_on(s, sep) == seq![s],
    decreases s.len(),
{
    if s.len() == 0 {
        assert(s =~= Seq::<char>::empty());
    } else {
        assert(forall|j: int| 0 <= j < s.drop_first().len() ==> s.drop_first()[j] != sep);
        lemma_split_no_sep(s.drop_first(), sep);
        let r = split_on(s.drop_first(), sep);
        assert(r.drop_first() =~= Seq::<Seq<char>>::empty());
        assert(seq![s[0]] + r[0] =~= s);
        assert(split_on(s, sep) =~= seq![s]);
    }
}

/// Splitting starts with the prefix before the first separator.
pub proof fn lemma_split_concat(l: Seq<char>, rest: Seq<char>, sep: char)
    requires
        forall|j: int| 0 <= j < l.len() ==> l[j] != sep,
    ensures
        split_on(l + seq![sep] + rest, sep) == seq![l] + split_on(rest, sep),
    decreases l.len(),
{
    let s = l + seq![sep] + rest;
    if l.len() == 0 {
        assert(s[0] == sep);
        assert(s.drop_first() =~= rest);
        assert(seq![Seq::<char>::empty()] + split_on(rest, sep) =~= seq![l] + split_on(
            rest,
            sep,
        )) by {
            assert(l =~= Seq::<char>::empty());
        }
    } else {
        assert(s[0] == l[0]);
        assert(s[0] != sep);
        assert(s.drop_first() =~= l.drop_first() + seq![sep] + rest);
        lemma_split_concat(l.drop_first(), rest, sep);
        let r = split_on(s.drop_first(), sep);
        lemma_split_on_len(rest, sep);
        assert(r == seq![l.drop_first()] + split_on(rest, sep));
        assert(r[0] == l.drop_first());
        assert(r.drop_first() =~= split_on(rest, sep));
        assert(seq![s[0]] + r[0] =~= l);
        assert(split_on(s, sep) =~= seq![l] + split_on(rest, sep));
    }
}

/// Splits `s` at every occurrence of `sep`.
pub fn split_str(s: &str, sep: char) -> (parts: Vec<String>)
    ensures
        str_views(parts@) == split_on(s@, sep),
        parts@.len() >= 1,
    decreases s@.len(),
{
    match find_char_in(s, sep) {
        None => {
            proof {
                lemma_find_char(s@, sep);
                lemma_split_no_sep(s@, sep);
            }
            let mut parts: Vec<String> = Vec::new();
            parts.push(s.to_owned());
            proof {
                assert(str_views(parts@) =~= seq![s@]);
            }
            parts
        },
        Some(i) => {
            proof {
                lemma_find_char(s@, sep);
            }
            let n = s.unicode_len();
            let piece = s.substring_char(0, i);
            let rest = s.substring_char(i + 1, n);
            proof {
                assert(s@ =~= piece@ + seq![sep] + rest@);
                assert(forall|j: int| 0 <= j < piece@.len() ==> piece@[j] != sep);
                lemma_split_concat(piece@, rest@, sep);
            }
            let mut parts = split_str(rest, sep);
            parts.insert(0, piece.to_owned());
            proof {
                assert(str_views(parts@) =~= seq![piece@] + str_views(parts@.drop_first()));
            }
            parts
        },
    }
}

// ---------------------------------------------------------------------------
// Lines
// ---------------------------------------------------------------------------

/// The lines of `text`: the parts between newlines, except that text ending
/// in a newline does not yield a final empty line. Empty text has no lines.
pub open spec fn lines_of(text: Seq<char>) -> Seq<Seq<char>> {
    let p = split_on(text, '\n');
    if p.last().len() == 0 {
        p.drop_last()
    } else {
        p
    }
}

/// Splits `text` into lines as `lines_of` describes.
pub fn split_lines(text: &str) -> (lines: Vec<String>)
    ensures
        str_views(lines@) == lines_of(text@),
{
    let mut parts = split_str(text, '\n');
    let ghost all = parts@;
    let k = parts.len() - 1;
    if parts[k].as_str().unicode_len() == 0 {
        parts.pop();
        proof {
            assert(parts@ =~= all.drop_last());
            assert(str_views(all).last().len() == 0);
            assert(str_views(parts@) =~= str_views(all).drop_last());
        }
    } else {
        proof {
            assert(str_views(all).last().len() > 0);
        }
    }
    parts
}

// ---------------------------------------------------------------------------
// Substring containment, prefixes, equality
// ---------------------------------------------------------------------------

/// `needle` occurs in `hay` starting at position `i`.
pub open spec fn contains_at(hay: Seq<char>, needle: Seq<char>, i: int) -> bool {
    0 <= i && i + needle.len() <= hay.len() && hay.subrange(i, i + needle.len()) == needle
}

/// `needle` occurs somewhere in `hay`; an empty needle occurs everywhere.
pub open spec fn contains_seq(hay: Seq<char>, needle: Seq<char>) -> bool {
    exists|i: int| contains_at(hay, needle, i)
}

/// `s` begins with `p`.
pub open spec fn starts_with(s: Seq<char>, p: Seq<char>) -> bool {
    contains_at(s, p, 0)
}

/// Whether `needle` occurs in `hay` at position `i`.
fn match_at(hay: &str, needle: &str, i: usize) -> (b: bool)
    requires
        i + needle@.len() <= hay@.len(),
    ensures
        b == contains_at(hay@, needle@, i as int),
{
    let hn = hay.unicode_len();
    let nn = needle.unicode_len();
    let mut j: usize = 0;
    while j < nn
        invariant
            0 <= j <= nn,
            nn == needle@.len(),
            hn == hay@.len(),
            i + nn <= hn,
            forall|t: int| 0 <= t < j ==> hay@[i + t] == needle@[t],
        decreases nn - j,
    {
        if hay.get_char(i + j) != needle.get_char(j) {
            proof {
                assert(hay@.subrange(i as int, i + nn) != needle@) by {
                    assert(hay@.subrange(i as int, i + nn)[j as int] == hay@[i + j]);
                }
            }
            return false;
        }
        j += 1;
    }
    proof {
        assert(hay@.subrange(i as int, i + nn) =~= needle@);
    }
    true
}

/// Whether `needle` occurs anywhere in `hay`.
pub fn contains_str(hay: &str, needle: &str) -> (b: bool)
    ensures
        b == contains_seq(hay@, needle@),
{
    let hn = hay.unicode_len();
    let nn = needle.unicode_len();
    if nn > hn {
        proof {
            assert(forall|i: int| !contains_at(hay@, needle@, i));
        }
        return false;
    }
    if nn == 0 {
        proof {
            assert(hay@.subrange(0, 0) =~= needle@);
            assert(contains_at(hay@, needle@, 0));
        }
        return true;
    }
    let mut i: usize = 0;
    while i <= hn - nn
        invariant
            0 <= i,
            i <= hn - nn + 1,
            1 <= nn <= hn,
            hn == hay@.len(),
            nn == needle@.len(),
            forall|k: int| 0 <= k < i ==> !contains_at(hay@, needle@, k),
        decreases hn - nn + 1 - i,
    {
        if match_at(hay, needle, i) {
            return true;
        }
        i += 1;
    }
    proof {
        assert(forall|k: int| contains_at(hay@, needle@, k) ==> 0 <= k < i);
    }
    false
}

/// Whether `s` begins with `p`.
pub fn starts_with_str(s: &str, p: &str) -> (b: bool)
    ensures
        b == starts_with(s@, p@),
{
    let sn = s.unicode_len();
    let pn = p.unicode_len();
    if pn > sn {
        return false;
    }
    match_at(s, p, 0)
}

/// Whether two string slices hold the same characters.
pub fn eq_str(a: &str, b: &str) -> (r: bool)
    ensures
        r == (a@ == b@),
{
    let na = a.unicode_len();
    let nb = b.unicode_len();
    if na != nb {
        return false;
    }
    let mut i: usize = 0;
    while i < na
        invariant
            0 <= i <= na,
            na == a@.len(),
            na == b@.len(),
            forall|j: int| 0 <= j < i ==> a@[j] == b@[j],
        decreases na - i,
    {
        if a.get_char(i) != b.get_char(i) {
            return false;
        }
        i += 1;
    }
    proof {
        assert(a@ =~= b@);
    }
    true
}

// ---------------------------------------------------------------------------
// Path components
// ---------------------------------------------------------------------------

/// The nonempty segments of `segs`, in order.
pub open spec fn nonempty_segs(segs: Seq<Seq<char>>) -> Seq<Seq<char>>
    decreases segs.len(),
{
    if segs.len() == 0 {
        Seq::empty()
    } else if segs.last().len() > 0 {
        nonempty_segs(segs.drop_last()).push(segs.last())
    } else {
        nonempty_segs(segs.drop_last())
    }
}

/// The components of the path `p`: its nonempty `/`-separated segments.
pub open spec fn components_of(p: Seq<char>) -> Seq<Seq<char>> {
    nonempty_segs(split_on(p, '/'))
}

/// The nonempty segments are exactly the nonempty elements.
pub proof fn lemma_nonempty_segs_contains(segs: Seq<Seq<char>>, c: Seq<char>)
    ensures
        nonempty_segs(segs).contains(c) <==> (segs.contains(c) && c.len() > 0),
    decreases segs.len(),
{
    if segs.len() > 0 {
        lemma_nonempty_segs_contains(segs.drop_last(), c);
        assert(segs.contains(c) <==> (segs.drop_last().contains(c) || segs.last() == c)) by {
            if segs.contains(c) {
                let i = choose|i: int| 0 <= i < segs.len() && segs[i] == c;
                if i < segs.len() - 1 {
                    assert(segs.drop_last()[i] == c);
                }
            }
            if segs.drop_last().contains(c) {
                let i = choose|i: int|
                    0 <= i < segs.drop_last().len() && segs.drop_last()[i] == c;
                assert(segs[i] == c);
            }
            if segs.last() == c {
                assert(segs[segs.len() - 1] == c);
            }
        }
        let rest = nonempty_segs(segs.drop_last());
        if segs.last().len() > 0 {
            assert(nonempty_segs(segs) == rest.push(segs.last()));
            assert(rest.push(segs.last()).contains(c) <==> (rest.contains(c) || segs.last()
                == c)) by {
                if rest.push(segs.last()).contains(c) {
                    let i = choose|i: int|
                        0 <= i < rest.push(segs.last()).len() && rest.push(segs.last())[i] == c;
                    if i < rest.len() {
                        assert(rest[i] == c);
                    }
                }
                if rest.contains(c) {
                    let i = choose|i: int| 0 <= i < rest.len() && rest[i] == c;
                    assert(rest.push(segs.last())[i] == c);
                }
                if segs.last() == c {
                    assert(rest.push(segs.last())[rest.len() as int] == c);
                }
            }
        }
    }
}

/// When every segment past `k` is empty and segment `k` is not, the last
/// nonempty segment is segment `k`.
pub proof fn lemma_nonempty_segs_last(segs: Seq<Seq<char>>, k: int)
    requires
        0 <= k < segs.len(),
        segs[k].len() > 0,
        forall|j: int| k < j < segs.len() ==> segs[j].len() == 0,
    ensures
        nonempty_segs(segs).len() > 0,
        nonempty_segs(segs).last() == segs[k],
    decreases segs.len(),
{
    if k == segs.len() - 1 {
    } else {
        assert(segs.drop_last()[k] == segs[k]);
        lemma_nonempty_segs_last(segs.drop_last(), k);
    }
}

/// All segments empty: no nonempty segments at all.
pub proof fn lemma_nonempty_segs_none(segs: Seq<Seq<char>>)
    requires
        forall|j: int| 0 <= j < segs.len() ==> segs[j].len() == 0,
    ensures
        nonempty_segs(segs).len() == 0,
    decreases segs.len(),
{
    if segs.len() > 0 {
        lemma_nonempty_segs_none(segs.drop_last());
    }
}

/// The last component of the path, if it has one.
pub fn last_component(path: &str) -> (r: Option<String>)
    ensures
        match r {
            Some(c) => components_of(path@).len() > 0 && c@ == components_of(path@).last(),
            None => components_of(path@).len() == 0,
        },
{
    let parts = split_str(path, '/');
    let mut k = parts.len();
    while k > 0
        invariant
            0 <= k <= parts@.len(),
            str_views(parts@) == split_on(path@, '/'),
            forall|j: int| k <= j < parts@.len() ==> str_views(parts@)[j].len() == 0,
        decreases k,
    {
        if parts[k - 1].as_str().unicode_len() > 0 {
            proof {
                lemma_nonempty_segs_last(str_views(parts@), k - 1);
            }
            let c = parts[k - 1].clone();
            return Some(c);
        }
        k -= 1;
    }
    proof {
        lemma_nonempty_segs_none(str_views(parts@));
    }
    None
}

// ---------------------------------------------------------------------------
// Decimal notation for scores
// ---------------------------------------------------------------------------

/// Whether `c` is a decimal digit.
pub open spec fn is_digit(c: char) -> bool {
    48 <= c as u32 <= 57
}

/// The value of a decimal digit.
pub open spec fn digit_val(c: char) -> int {
    c as u32 - 48
}

/// The decimal digit with value `d`.
pub open spec fn char_of_digit(d: int) -> char {
    if d == 0 {
        '0'
    } else if d == 1 {
        '1'
    } else if d == 2 {
        '2'
    } else if d == 3 {
        '3'
    } else if d == 4 {
        '4'
    } else if d == 5 {
        '5'
    } else if d == 6 {
        '6'
    } else if d == 7 {
        '7'
    } else if d == 8 {
        '8'
    } else {
        '9'
    }
}

/// The decimal notation of `n`, most significant digit first, no sign and
/// no leading zeros (a lone zero for 0).
pub open spec fn digits_of(n: nat) -> Seq<char>
    decreases n,
{
    if n < 10 {
        seq![char_of_digit(n as int)]
    } else {
        digits_of(n / 10).push(char_of_digit((n % 10) as int))
    }
}

/// Every character of `s` is a decimal digit.
pub open spec fn all_digits(s: Seq<char>) -> bool {
    forall|i: int| 0 <= i < s.len() ==> is_digit(s[i])
}

/// The number the digit sequence `s` denotes, by Horner's rule.
pub open spec fn val_of_digits(s: Seq<char>) -> int
    decreases s.len(),
{
    if s.len() == 0 {
        0
    } else {
        val_of_digits(s.drop_last()) * 10 + digit_val(s.last())
    }
}

pub proof fn lemma_val_of_digits_nonneg(s: Seq<char>)
    requires
        all_digits(s),
    ensures
        val_of_digits(s) >= 0,
    decreases s.len(),
{
    if s.len() > 0 {
        lemma_val_of_digits_nonneg(s.drop_last());
    }
}

/// Decimal notation denotes the number it was made from, holds only digits,
/// and is never empty.
pub proof fn lemma_digits_of(n: nat)
    ensures
        digits_of(n).len() >= 1,
        all_digits(digits_of(n)),
        val_of_digits(digits_of(n)) == n,
    decreases n,
{
    if n < 10 {
        let c = char_of_digit(n as int);
        assert(digits_of(n) == seq![c]);
        assert(seq![c].drop_last() =~= Seq::<char>::empty());
        assert(seq![c].last() == c);
        assert(val_of_digits(seq![c]) == val_of_digits(Seq::<char>::empty()) * 10 + digit_val(c));
        assert(digit_val(c) == n);
    } else {
        lemma_digits_of(n / 10);
        let d = digits_of(n / 10);
        let c = char_of_digit((n % 10) as int);
        assert(d.push(c).drop_last() =~= d);
        assert(d.push(c).last() == c);
        assert(digit_val(c) == n % 10);
        assert(val_of_digits(d.push(c)) == (n / 10) * 10 + n % 10);
        assert((n / 10) * 10 + n % 10 == n) by {
            vstd::arithmetic::div_mod::lemma_fundamental_div_mod(n as int, 10);
        }
    }
}

/// Digit values never shrink as more digits are read.
pub proof fn lemma_val_of_digits_extend(s: Seq<char>, i: int, j: int)
    requires
        all_digits(s),
        0 <= i <= j <= s.len(),
    ensures
        val_of_digits(s.take(i)) <= val_of_digits(s.take(j)),
    decreases j - i,
{
    if i < j {
        lemma_val_of_digits_extend(s, i, j - 1);
        let t = s.take(j);
        assert(t.drop_last() =~= s.take(j - 1));
        assert(all_digits(s.take(j - 1)));
        lemma_val_of_digits_nonneg(s.take(j - 1));
        assert(is_digit(t.last()));
    }
}

/// Appends the decimal notation of `n` to `s`.
pub fn push_digits(s: &mut String, n: u64)
    ensures
        final(s)@ == old(s)@ + digits_of(n as nat),
    decreases n,
{
    if n >= 10 {
        push_digits(s, n / 10);
    }
    let d = n % 10;
    let c: char = if d == 0 {
        '0'
    } else if d == 1 {
        '1'
    } else if d == 2 {
        '2'
    } else if d == 3 {
        '3'
    } else if d == 4 {
        '4'
    } else if d == 5 {
        '5'
    } else if d == 6 {
        '6'
    } else if d == 7 {
        '7'
    } else if d == 8 {
        '8'
    } else {
        '9'
    };
    proof {
        assert(c == char_of_digit((n % 10) as int));
    }
    crate::fsio::push_char(s, c);
    proof {
        if n < 10 {
            assert(digits_of(n as nat) =~= seq![char_of_digit(n as int)]);
            assert(final(s)@ =~= old(s)@ + digits_of(n as nat));
        } else {
            assert(final(s)@ =~= old(s)@ + digits_of(n as nat));
        }
    }
}

/// Parses `s` as a decimal `u64`: succeeds exactly when `s` is nonempty,
/// holds digits only, and denotes a value that fits.
pub fn parse_u64(s: &str) -> (r: Option<u64>)
    ensures
        match r {
            Some(v) => s@.len() > 0 && all_digits(s@) && val_of_digits(s@) == v,
            None => s@.len() == 0 || !all_digits(s@) || val_of_digits(s@) > u64::MAX,
        },
{
    let n = s.unicode_len();
    if n == 0 {
        return None;
    }
    let mut i: usize = 0;
    let mut acc: u64 = 0;
    while i < n
        invariant
            0 <= i <= n,
            n == s@.len(),
            all_digits(s@.take(i as int)),
            acc == val_of_digits(s@.take(i as int)),
        decreases n - i,
    {
        let c = s.get_char(i);
        let u = c as u32;
        if u < 48 || u > 57 {
            return None;
        }
        let d = (u - 48) as u64;
        proof {
            assert(s@.take(i + 1).drop_last() =~= s@.take(i as int));
            assert(s@.take(i + 1).last() == s@[i as int]);
            assert(all_digits(s@.take(i + 1)));
            assert(val_of_digits(s@.take(i + 1)) == acc * 10 + d);
        }
        if acc > (u64::MAX - d) / 10 {
            proof {
                assert(acc * 10 + d > u64::MAX) by {
                    vstd::arithmetic::div_mod::lemma_fundamental_div_mod(
                        (u64::MAX - d) as int,
                        10,
                    );
                }
                if all_digits(s@) {
                    lemma_val_of_digits_extend(s@, i + 1, n as int);
                    assert(s@.take(n as int) =~= s@);
                }
            }
            return None;
        }
        proof {
            assert(acc * 10 + d <= u64::MAX) by {
                vstd::arithmetic::div_mod::lemma_fundamental_div_mod((u64::MAX - d) as int, 10);
            }
        }
        acc = acc * 10 + d;
        i += 1;
    }
    proof {
        assert(s@.take(n as int) =~= s@);
    }
    Some(acc)
}

} // verus!
