//! Verified text utilities: character search, splitting, joining, line
//! handling and decimal parsing, all specified over `Seq<char>` views.
use vstd::prelude::*;

verus! {

/// True when `c` occurs somewhere in `s`.
pub open spec fn seq_contains_char(s: Seq<char>, c: char) -> bool {
    exists|i: int| 0 <= i < s.len() && s[i] == c
}

/// Index of the first occurrence of `c` in `s`; `s.len()` when absent.
pub open spec fn first_index_of(s: Seq<char>, c: char) -> int
    decreases s.len(),
{
    if s.len() == 0 {
        0
    } else if s[0] == c {
        0
    } else {
        1 + first_index_of(s.drop_first(), c)
    }
}

pub proof fn lemma_first_index_of(s: Seq<char>, c: char)
    ensures
        0 <= first_index_of(s, c) <= s.len(),
        first_index_of(s, c) < s.len() ==> s[first_index_of(s, c)] == c,
        forall|j: int| 0 <= j < first_index_of(s, c) ==> s[j] != c,
        first_index_of(s, c) == s.len() ==> !seq_contains_char(s, c),
    decreases s.len(),
{
    if s.len() > 0 && s[0] != c {
        lemma_first_index_of(s.drop_first(), c);
        assert forall|j: int| 0 <= j < first_index_of(s, c) implies s[j] != c by {
            if j > 0 {
                assert(s.drop_first()[j - 1] == s[j]);
            }
        }
        if first_index_of(s, c) == s.len() {
            assert forall|i: int| 0 <= i < s.len() implies s[i] != c by {
                if i > 0 {
                    assert(s.drop_first()[i - 1] == s[i]);
                }
            }
        }
    }
}

/// The parts of `s` split on `c`; always at least one part, and the
/// separator occurs in none of them.
pub open spec fn split_on(s: Seq<char>, c: char) -> Seq<Seq<char>>
    decreases s.len(),
{
    let i = first_index_of(s, c);
    if 0 <= i < s.len() {
        seq![s.subrange(0, i)] + split_on(s.subrange(i + 1, s.len() as int), c)
    } else {
        seq![s]
    }
}

pub proof fn lemma_split_on_basic(s: Seq<char>, c: char)
    ensures
        split_on(s, c).len() >= 1,
        forall|i: int, j: int|
            0 <= i < split_on(s, c).len() && 0 <= j < split_on(s, c)[i].len()
                ==> split_on(s, c)[i][j] != c,
    decreases s.len(),
{
    lemma_first_index_of(s, c);
    let fi = first_index_of(s, c);
    if fi < s.len() {
        lemma_split_on_basic(s.subrange(fi + 1, s.len() as int), c);
    }
}

/// Find the first occurrence of `c` in `s` at or after `from`.
pub fn find_char_from(s: &str, c: char, from: usize) -> (r: Option<usize>)
    requires
        from <= s@.len(),
    ensures
        match r {
            Some(i) => from <= i < s@.len() && s@[i as int] == c && forall|j: int|
                from <= j < i ==> s@[j] != c,
            None => forall|j: int| from <= j < s@.len() ==> s@[j] != c,
        },
{
    let n = s.unicode_len();
    let mut i: usize = from;
    while i < n
        invariant
            from <= i <= n,
            n == s@.len(),
            forall|j: int| from <= j < i ==> s@[j] != c,
        decreases n - i,
    {
        if s.get_char(i) == c {
            return Some(i);
        }
        i += 1;
    }
    None
}

/// Relates an exec search from a position to the spec-level first index of
/// the remaining suffix.
pub proof fn lemma_first_index_in_suffix(s: Seq<char>, c: char, from: int, found: int)
    requires
        0 <= from <= found <= s.len(),
        found < s.len() ==> s[found] == c,
        forall|j: int| from <= j < found ==> s[j] != c,
    ensures
        first_index_of(s.subrange(from, s.len() as int), c) == found - from,
{
    let suffix = s.subrange(from, s.len() as int);
    lemma_first_index_of(suffix, c);
    let fi = first_index_of(suffix, c);
    if fi < found - from {
        assert(s[from + fi] == suffix[fi]);
    }
    if fi > found - from && found < s.len() {
        assert(suffix[found - from] == c);
    }
}

/// Split `s` on every occurrence of `sep`.
pub fn split_char(s: &str, sep: char) -> (r: Vec<String>)
    ensures
        r.deep_view() == split_on(s@, sep),
{
    let n = s.unicode_len();
    let mut parts: Vec<String> = Vec::new();
    let mut start: usize = 0;
    proof {
        assert(s@.subrange(0, n as int) =~= s@);
        assert(parts.deep_view() =~= Seq::<Seq<char>>::empty());
        assert(split_on(s@, sep) =~= parts.deep_view() + split_on(
            s@.subrange(0, n as int),
            sep,
        ));
    }
    loop
        invariant
            start <= n,
            n == s@.len(),
            split_on(s@, sep) == parts.deep_view() + split_on(
                s@.subrange(start as int, n as int),
                sep,
            ),
        decreases n - start,
    {
        let found = find_char_from(s, sep, start);
        match found {
            Some(i) => {
                let piece = s.substring_char(start, i);
                proof {
                    lemma_first_index_in_suffix(s@, sep, start as int, i as int);
                    let suffix = s@.subrange(start as int, n as int);
                    assert(suffix.subrange(0, i - start) == s@.subrange(start as int, i as int));
                    assert(suffix.subrange(i - start + 1, suffix.len() as int) == s@.subrange(
                        i + 1,
                        n as int,
                    ));
                    assert(split_on(suffix, sep) == seq![s@.subrange(start as int, i as int)]
                        + split_on(s@.subrange(i + 1, n as int), sep));
                }
                parts.push(piece.to_owned());
                proof {
                    assert(parts.deep_view() =~= parts.deep_view().drop_last().push(piece@));
                    assert(split_on(s@, sep) =~= parts.deep_view() + split_on(
                        s@.subrange(i + 1 as int, n as int),
                        sep,
                    ));
                }
                start = i + 1;
            },
            None => {
                let piece = s.substring_char(start, n);
                proof {
                    lemma_first_index_in_suffix(s@, sep, start as int, n as int);
                    let suffix = s@.subrange(start as int, n as int);
                    assert(first_index_of(suffix, sep) == suffix.len());
                    assert(split_on(suffix, sep) == seq![suffix]);
                }
                parts.push(piece.to_owned());
                proof {
                    assert(parts.deep_view() =~= parts.deep_view().drop_last().push(piece@));
                    assert(split_on(s@, sep) =~= parts.deep_view());
                }
                return parts;
            },
        }
    }
}

/// The parts joined with `sep` between consecutive parts.
pub open spec fn join_with(parts: Seq<Seq<char>>, sep: Seq<char>) -> Seq<char>
    decreases parts.len(),
{
    if parts.len() == 0 {
        Seq::empty()
    } else if parts.len() == 1 {
        parts[0]
    } else {
        parts[0] + sep + join_with(parts.drop_first(), sep)
    }
}

pub proof fn lemma_join_push(parts: Seq<Seq<char>>, x: Seq<char>, sep: Seq<char>)
    ensures
        join_with(parts.push(x), sep) == if parts.len() == 0 {
            x
        } else {
            join_with(parts, sep) + sep + x
        },
    decreases parts.len(),
{
    if parts.len() == 0 {
        assert(join_with(parts.push(x), sep) == parts.push(x)[0]);
        assert(parts.push(x)[0] == x);
    } else if parts.len() == 1 {
        assert(parts.push(x).drop_first() =~= seq![x]);
        assert(join_with(seq![x], sep) == seq![x][0]);
        assert(seq![x][0] == x);
        assert(parts.push(x)[0] == parts[0]);
        assert(join_with(parts.push(x), sep) == parts.push(x)[0] + sep + join_with(
            parts.push(x).drop_first(),
            sep,
        ));
        assert(join_with(parts, sep) == parts[0]);
    } else {
        lemma_join_push(parts.drop_first(), x, sep);
        assert(parts.push(x).drop_first() =~= parts.drop_first().push(x));
        assert(join_with(parts.push(x), sep) == parts[0] + sep + join_with(
            parts.drop_first().push(x),
            sep,
        ));
        assert(parts[0] + sep + (join_with(parts.drop_first(), sep) + sep + x) =~= (parts[0] + sep
            + join_with(parts.drop_first(), sep)) + sep + x);
    }
}

/// Splitting a join of separator-free parts gives the parts back.
pub proof fn lemma_split_join(parts: Seq<Seq<char>>, c: char)
    requires
        parts.len() >= 1,
        forall|i: int, j: int|
            0 <= i < parts.len() && 0 <= j < parts[i].len() ==> parts[i][j] != c,
    ensures
        split_on(join_with(parts, seq![c]), c) == parts,
    decreases parts.len(),
{
    let s = join_with(parts, seq![c]);
    lemma_first_index_of(s, c);
    if parts.len() == 1 {
        assert(s == parts[0]);
        assert(first_index_of(s, c) == s.len()) by {
            if first_index_of(s, c) < s.len() {
                assert(parts[0][first_index_of(s, c)] == c);
            }
        }
        assert(split_on(s, c) =~= parts);
    } else {
        let rest = join_with(parts.drop_first(), c_seq(c));
        assert(s == parts[0] + seq![c] + rest);
        let p0 = parts[0].len() as int;
        assert(s[p0] == c);
        assert forall|j: int| 0 <= j < p0 implies s[j] != c by {
            assert(s[j] == parts[0][j]);
        }
        lemma_first_index_in_suffix(s, c, 0, p0);
        assert(s.subrange(0, s.len() as int) =~= s);
        assert(first_index_of(s, c) == p0);
        assert(s.subrange(0, p0) =~= parts[0]);
        assert(s.subrange(p0 + 1, s.len() as int) =~= rest);
        lemma_split_join(parts.drop_first(), c);
        assert(split_on(s, c) =~= seq![parts[0]] + parts.drop_first());
        assert(seq![parts[0]] + parts.drop_first() =~= parts);
    }
}

/// The last character of a join of separator-free parts: the last part's
/// last character, or the separator when the last part is empty.
pub proof fn lemma_join_last(parts: Seq<Seq<char>>, c: char)
    requires
        parts.len() >= 1,
    ensures
        parts.last().len() > 0 ==> join_with(parts, seq![c]).len() > 0 && join_with(
            parts,
            seq![c],
        ).last() == parts.last().last(),
        parts.last().len() == 0 && parts.len() > 1 ==> join_with(parts, seq![c]).len() > 0
            && join_with(parts, seq![c]).last() == c,
        parts.last().len() == 0 && parts.len() == 1 ==> join_with(parts, seq![c]).len() == 0,
    decreases parts.len(),
{
    if parts.len() == 1 {
    } else {
        lemma_join_last(parts.drop_first(), c);
        assert(parts.drop_first().last() == parts.last());
        let rest = join_with(parts.drop_first(), seq![c]);
        assert(join_with(parts, seq![c]) == parts[0] + seq![c] + rest);
        if rest.len() > 0 {
            assert((parts[0] + seq![c] + rest).last() == rest.last());
        } else {
            assert((parts[0] + seq![c] + rest).last() == c);
        }
    }
}

/// A one-character sequence.
pub open spec fn c_seq(c: char) -> Seq<char> {
    seq![c]
}

/// Join the parts with a separator string between them.
pub fn join_strings(parts: &Vec<String>, sep: &str) -> (r: String)
    ensures
        r@ == join_with(parts.deep_view(), sep@),
{
    let mut r = String::new();
    let mut i: usize = 0;
    while i < parts.len()
        invariant
            i <= parts.len(),
            r@ == join_with(parts.deep_view().subrange(0, i as int), sep@),
        decreases parts.len() - i,
    {
        if i > 0 {
            r.append(sep);
        }
        r.append(parts[i].as_str());
        proof {
            let prefix = parts.deep_view().subrange(0, i as int);
            lemma_join_push(prefix, parts.deep_view()[i as int], sep@);
            assert(prefix.push(parts.deep_view()[i as int]) =~= parts.deep_view().subrange(
                0,
                i + 1 as int,
            ));
        }
        i += 1;
    }
    proof {
        assert(parts.deep_view().subrange(0, parts.len() as int) =~= parts.deep_view());
    }
    r
}

/// Split into at most two parts around the first occurrence of `sep`.
pub fn split_once_char(s: &str, sep: char) -> (r: Option<(String, String)>)
    ensures
        match r {
            Some(pair) => {
                &&& exists|i: int|
                    0 <= i < s@.len() && s@[i] == sep && pair.0@ == s@.subrange(0, i) && pair.1@
                        == s@.subrange(i + 1, s@.len() as int) && forall|j: int|
                        0 <= j < i ==> s@[j] != sep
                &&& !seq_contains_char(pair.0@, sep)
            },
            None => !seq_contains_char(s@, sep),
        },
{
    let n = s.unicode_len();
    match find_char_from(s, sep, 0) {
        Some(i) => {
            let head = s.substring_char(0, i).to_owned();
            let tail = s.substring_char(i + 1, n).to_owned();
            proof {
                assert forall|j: int| 0 <= j < head@.len() implies head@[j] != sep by {
                    assert(head@[j] == s@[j]);
                }
            }
            Some((head, tail))
        },
        None => None,
    }
}

/// True when `s` starts with `p`.
pub open spec fn has_prefix(s: Seq<char>, p: Seq<char>) -> bool {
    p.len() <= s.len() && s.subrange(0, p.len() as int) == p
}

pub fn starts_with_str(s: &str, p: &str) -> (r: bool)
    ensures
        r == has_prefix(s@, p@),
{
    let n = s.unicode_len();
    let pn = p.unicode_len();
    if pn > n {
        proof {
            assert(!has_prefix(s@, p@));
        }
        return false;
    }
    let mut i: usize = 0;
    while i < pn
        invariant
            i <= pn <= n,
            n == s@.len(),
            pn == p@.len(),
            forall|j: int| 0 <= j < i ==> s@[j] == p@[j],
        decreases pn - i,
    {
        if s.get_char(i) != p.get_char(i) {
            proof {
                assert(s@.subrange(0, pn as int)[i as int] != p@[i as int]);
            }
            return false;
        }
        i += 1;
    }
    proof {
        assert(s@.subrange(0, pn as int) =~= p@);
    }
    true
}

/// Strip the prefix `p` from `s`, if present.
pub fn strip_prefix_str(s: &str, p: &str) -> (r: Option<String>)
    ensures
        match r {
            Some(rest) => has_prefix(s@, p@) && rest@ == s@.subrange(
                p@.len() as int,
                s@.len() as int,
            ),
            None => !has_prefix(s@, p@),
        },
{
    if starts_with_str(s, p) {
        Some(s.substring_char(p.unicode_len(), s.unicode_len()).to_owned())
    } else {
        None
    }
}

/// Character-wise string equality.
pub fn str_eq(a: &str, b: &str) -> (r: bool)
    ensures
        r == (a@ == b@),
{
    let na = a.unicode_len();
    let nb = b.unicode_len();
    if na != nb {
        return false;
    }
    let mut i: usize = 0;
    while i < na
        invariant
            i <= na,
            na == a@.len(),
            na == b@.len(),
            forall|j: int| 0 <= j < i ==> a@[j] == b@[j],
        decreases na - i,
    {
        if a.get_char(i) != b.get_char(i) {
            return false;
        }
        i += 1;
    }
    proof {
        assert(a@ =~= b@);
    }
    true
}

/// Numeric value of a decimal digit sequence.
pub open spec fn decimal_value(s: Seq<char>) -> nat
    decreases s.len(),
{
    if s.len() == 0 {
        0
    } else {
        decimal_value(s.drop_last()) * 10 + digit_value(s.last())
    }
}

pub open spec fn digit_value(c: char) -> nat {
    (c as nat - '0' as nat) as nat
}

pub open spec fn is_decimal_digit(c: char) -> bool {
    '0' <= c && c <= '9'
}

pub open spec fn all_decimal_digits(s: Seq<char>) -> bool {
    forall|i: int| 0 <= i < s.len() ==> is_decimal_digit(#[trigger] s[i])
}

/// Parse an unsigned decimal number. `None` on an empty string, a
/// non-digit character, or overflow of `usize`.
pub fn parse_usize(s: &str) -> (r: Option<usize>)
    ensures
        match r {
            Some(v) => s@.len() > 0 && all_decimal_digits(s@) && v == decimal_value(s@)
                && decimal_value(s@) <= usize::MAX,
            None => s@.len() == 0 || !all_decimal_digits(s@) || decimal_value(s@) > usize::MAX,
        },
{
    let n = s.unicode_len();
    if n == 0 {
        return None;
    }
    let mut v: usize = 0;
    let mut i: usize = 0;
    while i < n
        invariant
            i <= n,
            n == s@.len(),
            all_decimal_digits(s@.subrange(0, i as int)),
            v == decimal_value(s@.subrange(0, i as int)),
        decreases n - i,
    {
        let c = s.get_char(i);
        if c < '0' || c > '9' {
            proof {
                assert(!is_decimal_digit(s@[i as int]));
            }
            return None;
        }
        let d: usize = (c as u32 as usize) - ('0' as u32 as usize);
        proof {
            assert(s@.subrange(0, i + 1 as int).drop_last() =~= s@.subrange(0, i as int));
            assert(s@.subrange(0, i + 1 as int).last() == s@[i as int]);
        }
        if v > (usize::MAX - d) / 10 {
            proof {
                lemma_decimal_prefix_overflow(s@, i + 1 as int);
            }
            return None;
        }
        v = v * 10 + d;
        i += 1;
    }
    proof {
        assert(s@.subrange(0, n as int) =~= s@);
    }
    Some(v)
}

/// All the parts run together.
pub open spec fn concat_all(parts: Seq<Seq<char>>) -> Seq<char>
    decreases parts.len(),
{
    if parts.len() == 0 {
        Seq::empty()
    } else {
        concat_all(parts.drop_last()) + parts.last()
    }
}

pub proof fn lemma_concat_all_first(parts: Seq<Seq<char>>)
    requires
        parts.len() > 0,
    ensures
        concat_all(parts) == parts[0] + concat_all(parts.drop_first()),
    decreases parts.len(),
{
    if parts.len() == 1 {
        assert(parts.drop_last() =~= Seq::<Seq<char>>::empty());
        assert(parts.drop_first() =~= Seq::<Seq<char>>::empty());
        assert(concat_all(parts) =~= parts[0] + concat_all(parts.drop_first()));
    } else {
        lemma_concat_all_first(parts.drop_last());
        assert(parts.drop_last().drop_first() =~= parts.drop_first().drop_last());
        assert(parts.drop_last()[0] == parts[0]);
        assert(parts.drop_first().last() == parts.last());
        assert(concat_all(parts) == concat_all(parts.drop_last()) + parts.last());
        assert((parts[0] + concat_all(parts.drop_first().drop_last())) + parts.last() =~= parts[0]
            + (concat_all(parts.drop_first().drop_last()) + parts.last()));
    }
}

/// Splitting first matches before the seam: the first separator of `s + t`
/// is the first of `s` when `s` has one.
pub proof fn lemma_first_index_append(s: Seq<char>, t: Seq<char>, c: char)
    ensures
        seq_contains_char(s, c) ==> first_index_of(s + t, c) == first_index_of(s, c),
        !seq_contains_char(s, c) ==> first_index_of(s + t, c) == s.len() + first_index_of(t, c),
    decreases s.len(),
{
    lemma_first_index_of(s, c);
    lemma_first_index_of(t, c);
    lemma_first_index_of(s + t, c);
    if s.len() == 0 {
        assert(s + t =~= t);
    } else if s[0] == c {
        assert((s + t)[0] == c);
    } else {
        assert((s + t)[0] == s[0]);
        lemma_first_index_append(s.drop_first(), t, c);
        assert((s + t).drop_first() =~= s.drop_first() + t);
        if seq_contains_char(s, c) {
            assert(seq_contains_char(s.drop_first(), c)) by {
                let i = choose|i: int| 0 <= i < s.len() && s[i] == c;
                assert(s.drop_first()[i - 1] == c);
            }
        }
    }
}

/// Splitting a concatenation whose tail holds no separator: the tail
/// joins the last part.
pub proof fn lemma_split_append_no_sep(s: Seq<char>, t: Seq<char>, c: char)
    requires
        !seq_contains_char(t, c),
    ensures
        split_on(s + t, c) == split_on(s, c).drop_last().push(split_on(s, c).last() + t),
    decreases s.len(),
{
    lemma_first_index_of(s, c);
    lemma_first_index_append(s, t, c);
    lemma_split_on_basic(s, c);
    let fi = first_index_of(s, c);
    if seq_contains_char(s, c) {
        assert(fi < s.len());
        assert((s + t).subrange(0, fi) =~= s.subrange(0, fi));
        assert((s + t).subrange(fi + 1, (s + t).len() as int) =~= s.subrange(fi + 1, s.len() as int)
            + t);
        lemma_split_append_no_sep(s.subrange(fi + 1, s.len() as int), t, c);
        let rec = split_on(s.subrange(fi + 1, s.len() as int), c);
        assert(rec.len() >= 1) by {
            lemma_split_on_basic(s.subrange(fi + 1, s.len() as int), c);
        }
        assert(split_on(s + t, c) == seq![s.subrange(0, fi)] + rec.drop_last().push(
            rec.last() + t,
        ));
        assert(split_on(s, c) == seq![s.subrange(0, fi)] + rec);
        assert(split_on(s, c).last() == rec.last());
        assert(split_on(s, c).drop_last() =~= seq![s.subrange(0, fi)] + rec.drop_last());
        assert(seq![s.subrange(0, fi)] + rec.drop_last().push(rec.last() + t) =~= (seq![
            s.subrange(0, fi),
        ] + rec.drop_last()).push(rec.last() + t));
    } else {
        assert(fi == s.len());
        if seq_contains_char(s + t, c) {
            let i = choose|i: int| 0 <= i < (s + t).len() && (s + t)[i] == c;
            if i < s.len() {
                assert(s[i] == c);
            } else {
                assert(t[i - s.len()] == c);
            }
            assert(false);
        }
        lemma_first_index_of(s + t, c);
        assert(first_index_of(s + t, c) == (s + t).len());
        assert(split_on(s + t, c) == seq![s + t]);
        assert(split_on(s, c) == seq![s]);
        assert(split_on(s, c).drop_last() =~= Seq::<Seq<char>>::empty());
        assert(split_on(s + t, c) =~= split_on(s, c).drop_last().push(split_on(s, c).last() + t));
    }
}

/// Appending a separator appends an empty part.
pub proof fn lemma_split_append_sep(s: Seq<char>, c: char)
    ensures
        split_on(s + seq![c], c) == split_on(s, c).drop_last().push(split_on(s, c).last()).push(
            Seq::empty(),
        ),
    decreases s.len(),
{
    lemma_first_index_of(s, c);
    lemma_first_index_append(s, seq![c], c);
    lemma_split_on_basic(s, c);
    let t = seq![c];
    let fi = first_index_of(s, c);
    if seq_contains_char(s, c) {
        assert((s + t).subrange(0, fi) =~= s.subrange(0, fi));
        assert((s + t).subrange(fi + 1, (s + t).len() as int) =~= s.subrange(fi + 1, s.len() as int)
            + t);
        lemma_split_append_sep(s.subrange(fi + 1, s.len() as int), c);
        let rec = split_on(s.subrange(fi + 1, s.len() as int), c);
        assert(rec.len() >= 1) by {
            lemma_split_on_basic(s.subrange(fi + 1, s.len() as int), c);
        }
        assert(split_on(s + t, c) == seq![s.subrange(0, fi)] + rec.drop_last().push(
            rec.last(),
        ).push(Seq::empty()));
        assert(split_on(s, c) == seq![s.subrange(0, fi)] + rec);
        assert(split_on(s, c).drop_last() =~= seq![s.subrange(0, fi)] + rec.drop_last());
        assert(seq![s.subrange(0, fi)] + rec.drop_last().push(rec.last()).push(Seq::empty()) =~= (
        seq![s.subrange(0, fi)] + rec.drop_last()).push(rec.last()).push(Seq::empty()));
    } else {
        assert(first_index_of(s + t, c) == s.len());
        assert((s + t)[s.len() as int] == c);
        assert(seq_contains_char(s + t, c));
        assert((s + t).subrange(0, s.len() as int) =~= s);
        assert((s + t).subrange(s.len() as int + 1, (s + t).len() as int) =~= Seq::<char>::empty());
        assert(first_index_of(Seq::<char>::empty(), c) == 0);
        assert(split_on(Seq::<char>::empty(), c) == seq![Seq::<char>::empty()]);
        assert(split_on(s + t, c) == seq![s] + seq![Seq::<char>::empty()]);
        assert(split_on(s, c) == seq![s]);
        assert(split_on(s + t, c) =~= split_on(s, c).drop_last().push(split_on(s, c).last()).push(
            Seq::empty(),
        ));
    }
}

/// True when `p` occurs in `s` starting at position `i`.
pub open spec fn match_at(s: Seq<char>, p: Seq<char>, i: int) -> bool {
    0 <= i && i + p.len() <= s.len() && s.subrange(i, i + p.len()) == p
}

/// Position of the first occurrence of `p` in `s`; `s.len()` when absent
/// (and `p` is non-empty).
pub open spec fn first_match(s: Seq<char>, p: Seq<char>) -> int
    decreases s.len(),
{
    if p.len() == 0 {
        0
    } else if s.len() < p.len() {
        s.len() as int
    } else if has_prefix(s, p) {
        0
    } else {
        1 + first_match(s.drop_first(), p)
    }
}

pub proof fn lemma_first_match(s: Seq<char>, p: Seq<char>)
    requires
        p.len() > 0,
    ensures
        0 <= first_match(s, p) <= s.len(),
        first_match(s, p) + p.len() <= s.len() ==> match_at(s, p, first_match(s, p)),
        forall|j: int| 0 <= j < first_match(s, p) ==> !match_at(s, p, j),
        first_match(s, p) + p.len() > s.len() ==> first_match(s, p) == s.len(),
    decreases s.len(),
{
    if s.len() < p.len() {
    } else if has_prefix(s, p) {
        assert(s.subrange(0, p.len() as int) == p);
    } else {
        lemma_first_match(s.drop_first(), p);
        let f = first_match(s, p);
        let fd = f - 1;
        if f + p.len() <= s.len() {
            assert(match_at(s.drop_first(), p, fd));
            assert(s.drop_first().subrange(fd, fd + p.len()) =~= s.subrange(f, f + p.len()));
        }
        assert forall|j: int| 0 <= j < f implies !match_at(s, p, j) by {
            if j == 0 {
                if match_at(s, p, 0) {
                    assert(has_prefix(s, p));
                }
            } else {
                assert(!match_at(s.drop_first(), p, j - 1));
                if match_at(s, p, j) {
                    assert(s.drop_first().subrange(j - 1, j - 1 + p.len()) =~= s.subrange(
                        j,
                        j + p.len(),
                    ));
                }
            }
        }
        if f + p.len() > s.len() {
            assert(fd + p.len() > s.drop_first().len());
        }
    }
}

/// The parts of `s` split on the substring `p`.
pub open spec fn split_on_str(s: Seq<char>, p: Seq<char>) -> Seq<Seq<char>>
    decreases s.len(),
{
    let i = first_match(s, p);
    if p.len() > 0 && 0 <= i && i + p.len() <= s.len() {
        seq![s.subrange(0, i)] + split_on_str(s.subrange(i + p.len(), s.len() as int), p)
    } else {
        seq![s]
    }
}

/// Find the first occurrence of the substring `p` in `s` at or after `from`.
pub fn find_str_from(s: &str, p: &str, from: usize) -> (r: Option<usize>)
    requires
        from <= s@.len(),
        p@.len() > 0,
    ensures
        match r {
            Some(i) => from <= i && i + p@.len() <= s@.len() && match_at(s@, p@, i as int)
                && forall|j: int| from <= j < i ==> !match_at(s@, p@, j),
            None => forall|j: int| from <= j ==> !match_at(s@, p@, j),
        },
{
    let n = s.unicode_len();
    let pn = p.unicode_len();
    if pn > n {
        return None;
    }
    let mut i: usize = from;
    while i <= n - pn
        invariant
            from <= i <= n,
            1 <= pn <= n,
            n == s@.len(),
            pn == p@.len(),
            forall|j: int| from <= j < i ==> !match_at(s@, p@, j),
        decreases n - i,
    {
        if str_eq(s.substring_char(i, i + pn), p) {
            proof {
                assert(s@.subrange(i as int, i + pn) == p@);
            }
            return Some(i);
        }
        proof {
            assert(!match_at(s@, p@, i as int));
        }
        i += 1;
    }
    proof {
        assert forall|j: int| from <= j implies !match_at(s@, p@, j) by {
            if j + p@.len() <= s@.len() {
                assert(j < i);
            }
        }
    }
    None
}

/// Exec search results pin down the spec-level `first_match` of a suffix.
pub proof fn lemma_first_match_in_suffix(s: Seq<char>, p: Seq<char>, from: int, found: int)
    requires
        p.len() > 0,
        0 <= from <= found <= s.len(),
        found + p.len() <= s.len() ==> match_at(s, p, found),
        found + p.len() > s.len() ==> found == s.len(),
        forall|j: int| from <= j < found ==> !match_at(s, p, j),
    ensures
        found + p.len() <= s.len() ==> first_match(s.subrange(from, s.len() as int), p) == found
            - from,
        found == s.len() && (forall|j: int| from <= j ==> !match_at(s, p, j)) ==> first_match(
            s.subrange(from, s.len() as int),
            p,
        ) + p.len() > s.len() - from,
    decreases s.len(),
{
    let suffix = s.subrange(from, s.len() as int);
    lemma_first_match(suffix, p);
    let fi = first_match(suffix, p);
    assert forall|j: int| 0 <= j < suffix.len() && match_at(suffix, p, j) implies match_at(
        s,
        p,
        from + j,
    ) by {
        assert(suffix.subrange(j, j + p.len()) =~= s.subrange(from + j, from + j + p.len()));
    }
    assert forall|j: int| from <= j && match_at(s, p, j) implies match_at(suffix, p, j - from) by {
        assert(s.subrange(j, j + p.len()) =~= suffix.subrange(j - from, j - from + p.len()));
    }
    if found + p.len() <= s.len() {
        assert(match_at(suffix, p, found - from));
        if fi < found - from {
            assert(match_at(s, p, from + fi));
        }
        if fi > found - from {
            assert(!match_at(suffix, p, found - from));
        }
    }
}

/// Split `s` on every occurrence of the substring `sep`.
pub fn split_str(s: &str, sep: &str) -> (r: Vec<String>)
    requires
        sep@.len() > 0,
    ensures
        r.deep_view() == split_on_str(s@, sep@),
{
    let n = s.unicode_len();
    let pn = sep.unicode_len();
    let mut parts: Vec<String> = Vec::new();
    let mut start: usize = 0;
    proof {
        assert(s@.subrange(0, n as int) =~= s@);
        assert(parts.deep_view() =~= Seq::<Seq<char>>::empty());
        assert(split_on_str(s@, sep@) =~= parts.deep_view() + split_on_str(
            s@.subrange(0, n as int),
            sep@,
        ));
    }
    loop
        invariant
            start <= n,
            n == s@.len(),
            pn == sep@.len(),
            pn > 0,
            split_on_str(s@, sep@) == parts.deep_view() + split_on_str(
                s@.subrange(start as int, n as int),
                sep@,
            ),
        decreases n - start,
    {
        let found = find_str_from(s, sep, start);
        match found {
            Some(i) => {
                let piece = s.substring_char(start, i);
                proof {
                    lemma_first_match_in_suffix(s@, sep@, start as int, i as int);
                    let suffix = s@.subrange(start as int, n as int);
                    assert(suffix.subrange(0, i - start) =~= s@.subrange(start as int, i as int));
                    assert(suffix.subrange(i - start + pn, suffix.len() as int) =~= s@.subrange(
                        i + pn,
                        n as int,
                    ));
                    assert(split_on_str(suffix, sep@) == seq![s@.subrange(start as int, i as int)]
                        + split_on_str(s@.subrange(i + pn, n as int), sep@));
                }
                parts.push(piece.to_owned());
                proof {
                    assert(parts.deep_view() =~= parts.deep_view().drop_last().push(piece@));
                    assert(split_on_str(s@, sep@) =~= parts.deep_view() + split_on_str(
                        s@.subrange(i + pn, n as int),
                        sep@,
                    ));
                }
                start = i + pn;
            },
            None => {
                let piece = s.substring_char(start, n);
                proof {
                    lemma_first_match_in_suffix(s@, sep@, start as int, n as int);
                    let suffix = s@.subrange(start as int, n as int);
                    assert(first_match(suffix, sep@) + pn > suffix.len());
                    assert(split_on_str(suffix, sep@) == seq![suffix]);
                }
                parts.push(piece.to_owned());
                proof {
                    assert(parts.deep_view() =~= parts.deep_view().drop_last().push(piece@));
                    assert(split_on_str(s@, sep@) =~= parts.deep_view());
                }
                return parts;
            },
        }
    }
}

/// Split into at most two parts around the first occurrence of `sep`.
pub fn split_once_str(s: &str, sep: &str) -> (r: Option<(String, String)>)
    requires
        sep@.len() > 0,
    ensures
        match r {
            Some(pair) => exists|i: int|
                match_at(s@, sep@, i) && pair.0@ == s@.subrange(0, i) && pair.1@ == s@.subrange(
                    i + sep@.len(),
                    s@.len() as int,
                ) && forall|j: int| 0 <= j < i ==> !match_at(s@, sep@, j),
            None => forall|j: int| 0 <= j ==> !match_at(s@, sep@, j),
        },
{
    let n = s.unicode_len();
    match find_str_from(s, sep, 0) {
        Some(i) => {
            let head = s.substring_char(0, i).to_owned();
            let tail = s.substring_char(i + sep.unicode_len(), n).to_owned();
            Some((head, tail))
        },
        None => None,
    }
}

/// A trailing carriage return is not part of a line's text.
pub open spec fn strip_cr(p: Seq<char>) -> Seq<char> {
    if p.len() > 0 && p.last() == '\r' {
        p.drop_last()
    } else {
        p
    }
}

/// The lines of a text: split on newline, with no phantom line after a
/// trailing newline, and a trailing carriage return stripped from each.
pub open spec fn lines_of(s: Seq<char>) -> Seq<Seq<char>> {
    if s.len() == 0 {
        Seq::empty()
    } else {
        let parts = split_on(s, '\n');
        let kept = if s.last() == '\n' {
            parts.drop_last()
        } else {
            parts
        };
        kept.map_values(|p: Seq<char>| strip_cr(p))
    }
}

/// Split a text into its lines.
pub fn lines_vec(s: &str) -> (r: Vec<String>)
    ensures
        r.deep_view() == lines_of(s@),
{
    let n = s.unicode_len();
    if n == 0 {
        let r: Vec<String> = Vec::new();
        proof {
            assert(r.deep_view() =~= lines_of(s@));
        }
        return r;
    }
    let parts = split_char(s, '\n');
    proof {
        lemma_split_on_basic(s@, '\n');
        assert(parts.deep_view().len() == parts.len());
    }
    let keep_all = s.get_char(n - 1) != '\n';
    let m = if keep_all {
        parts.len()
    } else {
        parts.len() - 1
    };
    let ghost kept = if keep_all {
        parts.deep_view()
    } else {
        parts.deep_view().drop_last()
    };
    let mut r: Vec<String> = Vec::new();
    let mut i: usize = 0;
    while i < m
        invariant
            i <= m,
            m <= parts.len(),
            kept.len() == m,
            forall|j: int| 0 <= j < m ==> kept[j] == parts.deep_view()[j],
            r.deep_view() =~= kept.subrange(0, i as int).map_values(|p: Seq<char>| strip_cr(p)),
        decreases m - i,
    {
        let part = &parts[i];
        let pl = part.as_str().unicode_len();
        let stripped: String = if pl > 0 && part.as_str().get_char(pl - 1) == '\r' {
            part.as_str().substring_char(0, pl - 1).to_owned()
        } else {
            part.clone()
        };
        proof {
            assert(part@.subrange(0, part@.len() - 1) =~= part@.drop_last());
            assert(stripped@ == strip_cr(kept[i as int]));
        }
        r.push(stripped);
        proof {
            let prev = kept.subrange(0, i as int).map_values(|p: Seq<char>| strip_cr(p));
            assert(r.deep_view() =~= prev.push(strip_cr(kept[i as int])));
            assert(kept.subrange(0, i + 1 as int).map_values(|p: Seq<char>| strip_cr(p)) =~= prev.push(
                strip_cr(kept[i as int]),
            ));
        }
        i += 1;
    }
    proof {
        assert(kept.subrange(0, m as int) =~= kept);
        assert(r.deep_view() =~= lines_of(s@));
    }
    r
}

/// ASCII whitespace, as the whitespace-splitting helper recognises it.
pub open spec fn is_ascii_ws(c: char) -> bool {
    c == ' ' || c == '\t' || c == '\n' || c == '\r' || c == '\u{c}'
}

/// Index of the first ASCII whitespace character; `s.len()` when absent.
pub open spec fn first_ws_index(s: Seq<char>) -> int
    decreases s.len(),
{
    if s.len() == 0 {
        0
    } else if is_ascii_ws(s[0]) {
        0
    } else {
        1 + first_ws_index(s.drop_first())
    }
}

/// The non-empty maximal runs of non-whitespace characters, in order.
pub open spec fn ws_split(s: Seq<char>) -> Seq<Seq<char>>
    decreases s.len(),
{
    if s.len() == 0 {
        Seq::empty()
    } else if is_ascii_ws(s[0]) {
        ws_split(s.drop_first())
    } else {
        let e = first_ws_index(s);
        if 0 < e <= s.len() {
            seq![s.subrange(0, e)] + ws_split(s.subrange(e, s.len() as int))
        } else {
            Seq::empty()
        }
    }
}

fn is_ascii_ws_exec(c: char) -> (r: bool)
    ensures
        r == is_ascii_ws(c),
{
    c == ' ' || c == '\t' || c == '\n' || c == '\r' || c == '\u{c}'
}

proof fn lemma_first_ws_pin(s: Seq<char>, found: int)
    requires
        0 <= found <= s.len(),
        found < s.len() ==> is_ascii_ws(s[found]),
        forall|j: int| 0 <= j < found ==> !is_ascii_ws(s[j]),
    ensures
        first_ws_index(s) == found,
    decreases s.len(),
{
    if s.len() > 0 && !is_ascii_ws(s[0]) {
        lemma_first_ws_pin(s.drop_first(), found - 1);
        assert forall|j: int| 0 <= j < found - 1 implies !is_ascii_ws(s.drop_first()[j]) by {
            assert(s.drop_first()[j] == s[j + 1]);
        }
    }
}

/// Every piece of a whitespace split is non-empty.
pub proof fn lemma_ws_split_nonempty(s: Seq<char>)
    ensures
        forall|i: int| 0 <= i < ws_split(s).len() ==> (#[trigger] ws_split(s)[i]).len() > 0,
    decreases s.len(),
{
    if s.len() == 0 {
    } else if is_ascii_ws(s[0]) {
        lemma_ws_split_nonempty(s.drop_first());
        assert(ws_split(s) == ws_split(s.drop_first()));
        assert forall|i: int| 0 <= i < ws_split(s).len() implies (#[trigger] ws_split(s)[i]).len()
            > 0 by {
            assert(ws_split(s)[i] == ws_split(s.drop_first())[i]);
        }
    } else {
        let e = first_ws_index(s);
        lemma_first_ws_bounds(s);
        lemma_first_ws_bounds(s.drop_first());
        assert(e == 1 + first_ws_index(s.drop_first()));
        assert(1 <= e <= s.len());
        lemma_ws_split_nonempty(s.subrange(e, s.len() as int));
        let rest = ws_split(s.subrange(e, s.len() as int));
        assert(ws_split(s) == seq![s.subrange(0, e)] + rest);
        assert forall|i: int| 0 <= i < ws_split(s).len() implies (#[trigger] ws_split(s)[i]).len()
            > 0 by {
            if i > 0 {
                assert(ws_split(s)[i] == rest[i - 1]);
                assert(rest[i - 1].len() > 0);
            } else {
                assert(ws_split(s)[0] == s.subrange(0, e));
            }
        }
    }
}

proof fn lemma_first_ws_bounds(s: Seq<char>)
    ensures
        0 <= first_ws_index(s) <= s.len(),
    decreases s.len(),
{
    if s.len() > 0 && !is_ascii_ws(s[0]) {
        lemma_first_ws_bounds(s.drop_first());
    }
}

/// Split on runs of ASCII whitespace, dropping empty pieces.
pub fn split_whitespace(s: &str) -> (r: Vec<String>)
    ensures
        r.deep_view() == ws_split(s@),
        forall|i: int| 0 <= i < r.deep_view().len() ==> (#[trigger] r.deep_view()[i]).len() > 0,
{
    proof {
        lemma_ws_split_nonempty(s@);
    }
    let n = s.unicode_len();
    let mut parts: Vec<String> = Vec::new();
    let mut i: usize = 0;
    proof {
        assert(s@.subrange(0, n as int) =~= s@);
        assert(parts.deep_view() =~= Seq::<Seq<char>>::empty());
        assert(ws_split(s@) =~= parts.deep_view() + ws_split(s@.subrange(0, n as int)));
    }
    while i < n
        invariant
            i <= n,
            n == s@.len(),
            ws_split(s@) == parts.deep_view() + ws_split(s@.subrange(i as int, n as int)),
        decreases n - i,
    {
        let ghost suffix = s@.subrange(i as int, n as int);
        if is_ascii_ws_exec(s.get_char(i)) {
            proof {
                assert(suffix.drop_first() =~= s@.subrange(i + 1 as int, n as int));
                assert(ws_split(suffix) == ws_split(suffix.drop_first()));
            }
            i += 1;
        } else {
            let mut j: usize = i + 1;
            while j < n && !is_ascii_ws_exec(s.get_char(j))
                invariant
                    i < j <= n,
                    n == s@.len(),
                    forall|k: int| i <= k < j ==> !is_ascii_ws(s@[k]),
                decreases n - j,
            {
                j += 1;
            }
            let piece = s.substring_char(i, j);
            proof {
                assert forall|k: int| 0 <= k < j - i implies !is_ascii_ws(suffix[k]) by {
                    assert(suffix[k] == s@[i + k]);
                }
                if j < n {
                    assert(suffix[j - i] == s@[j as int]);
                }
                lemma_first_ws_pin(suffix, j - i);
                assert(first_ws_index(suffix) == j - i);
                assert(suffix.subrange(0, j - i) =~= s@.subrange(i as int, j as int));
                assert(suffix.subrange(j - i, suffix.len() as int) =~= s@.subrange(
                    j as int,
                    n as int,
                ));
                assert(ws_split(suffix) == seq![s@.subrange(i as int, j as int)] + ws_split(
                    s@.subrange(j as int, n as int),
                ));
            }
            parts.push(piece.to_owned());
            proof {
                assert(parts.deep_view() =~= parts.deep_view().drop_last().push(piece@));
                assert(ws_split(s@) =~= parts.deep_view() + ws_split(
                    s@.subrange(j as int, n as int),
                ));
            }
            i = j;
        }
    }
    proof {
        assert(s@.subrange(n as int, n as int) =~= Seq::<char>::empty());
        assert(parts.deep_view() + Seq::<Seq<char>>::empty() =~= parts.deep_view());
    }
    parts
}

/// Whitespace characters recognised by the trimming helper: the ASCII
/// set (space, tab, carriage return, newline) by deliberate choice, so
/// the trimming is fully specified; Unicode-only whitespace characters
/// are left in place.
pub open spec fn is_space(c: char) -> bool {
    c == ' ' || c == '\t' || c == '\n' || c == '\r'
}

/// `s` with leading and trailing whitespace removed.
pub open spec fn trimmed(s: Seq<char>) -> Seq<char>
    decreases s.len(),
{
    if s.len() == 0 {
        s
    } else if is_space(s[0]) {
        trimmed(s.drop_first())
    } else if is_space(s.last()) {
        trimmed(s.drop_last())
    } else {
        s
    }
}

/// Remove leading and trailing ASCII whitespace.
pub fn trim_spaces(s: &str) -> (r: String)
    ensures
        r@ == trimmed(s@),
{
    let n = s.unicode_len();
    proof {
        assert(s@.subrange(0, n as int) =~= s@);
    }
    let mut a: usize = 0;
    while a < n && is_space_exec(s.get_char(a))
        invariant
            a <= n,
            n == s@.len(),
            trimmed(s@) == trimmed(s@.subrange(a as int, n as int)),
            forall|j: int| 0 <= j < a ==> is_space(s@[j]),
        decreases n - a,
    {
        proof {
            let cur = s@.subrange(a as int, n as int);
            assert(cur.drop_first() =~= s@.subrange(a + 1 as int, n as int));
        }
        a += 1;
    }
    let mut b: usize = n;
    while b > a && is_space_exec(s.get_char(b - 1))
        invariant
            a <= b <= n,
            n == s@.len(),
            trimmed(s@) == trimmed(s@.subrange(a as int, b as int)),
            a < n ==> !is_space(s@[a as int]),
        decreases b,
    {
        proof {
            let cur = s@.subrange(a as int, b as int);
            assert(cur.drop_last() =~= s@.subrange(a as int, b - 1 as int));
            assert(cur.len() > 0 && is_space(cur.last()));
            if is_space(cur[0]) {
            }
        }
        b -= 1;
    }
    proof {
        let cur = s@.subrange(a as int, b as int);
        if cur.len() > 0 {
            assert(!is_space(cur[0]));
            assert(!is_space(cur.last()));
        }
        assert(trimmed(cur) == cur);
    }
    s.substring_char(a, b).to_owned()
}

fn is_space_exec(c: char) -> (r: bool)
    ensures
        r == is_space(c),
{
    c == ' ' || c == '\t' || c == '\n' || c == '\r'
}

/// Parse an unsigned decimal number into `u64`.
pub fn parse_u64(s: &str) -> (r: Option<u64>)
    ensures
        match r {
            Some(v) => s@.len() > 0 && all_decimal_digits(s@) && v == decimal_value(s@)
                && decimal_value(s@) <= u64::MAX,
            None => s@.len() == 0 || !all_decimal_digits(s@) || decimal_value(s@) > u64::MAX,
        },
{
    let n = s.unicode_len();
    if n == 0 {
        return None;
    }
    let mut v: u64 = 0;
    let mut i: usize = 0;
    while i < n
        invariant
            i <= n,
            n == s@.len(),
            all_decimal_digits(s@.subrange(0, i as int)),
            v == decimal_value(s@.subrange(0, i as int)),
        decreases n - i,
    {
        let c = s.get_char(i);
        if c < '0' || c > '9' {
            proof {
                assert(!is_decimal_digit(s@[i as int]));
            }
            return None;
        }
        let d: u64 = (c as u32 as u64) - ('0' as u32 as u64);
        proof {
            assert(s@.subrange(0, i + 1 as int).drop_last() =~= s@.subrange(0, i as int));
            assert(s@.subrange(0, i + 1 as int).last() == s@[i as int]);
        }
        if v > (u64::MAX - d) / 10 {
            proof {
                lemma_decimal_prefix_overflow_u64(s@, i + 1 as int);
            }
            return None;
        }
        v = v * 10 + d;
        i += 1;
    }
    proof {
        assert(s@.subrange(0, n as int) =~= s@);
    }
    Some(v)
}

/// Once a decimal prefix exceeds `u64::MAX`, the whole string does too.
proof fn lemma_decimal_prefix_overflow_u64(s: Seq<char>, k: int)
    requires
        0 <= k <= s.len(),
        decimal_value(s.subrange(0, k)) > u64::MAX,
    ensures
        decimal_value(s) > u64::MAX,
    decreases s.len() - k,
{
    if k < s.len() {
        assert(s.subrange(0, k + 1).drop_last() =~= s.subrange(0, k));
        assert(decimal_value(s.subrange(0, k + 1)) == decimal_value(s.subrange(0, k)) * 10
            + digit_value(s.subrange(0, k + 1).last()));
        lemma_decimal_prefix_overflow_u64(s, k + 1);
    } else {
        assert(s.subrange(0, k) =~= s);
    }
}

/// Parse a signed decimal number into `i64`.
pub open spec fn parses_as_i64(s: Seq<char>) -> bool {
    if s.len() > 0 && s[0] == '-' {
        let digits = s.drop_first();
        digits.len() > 0 && all_decimal_digits(digits) && decimal_value(digits)
            <= 0x8000_0000_0000_0000
    } else {
        s.len() > 0 && all_decimal_digits(s) && decimal_value(s) <= i64::MAX
    }
}

pub open spec fn i64_value_of(s: Seq<char>) -> int {
    if s.len() > 0 && s[0] == '-' {
        -(decimal_value(s.drop_first()) as int)
    } else {
        decimal_value(s) as int
    }
}

pub fn parse_i64(s: &str) -> (r: Option<i64>)
    ensures
        match r {
            Some(v) => parses_as_i64(s@) && v == i64_value_of(s@),
            None => !parses_as_i64(s@),
        },
{
    let n = s.unicode_len();
    if n == 0 {
        return None;
    }
    if s.get_char(0) == '-' {
        let digits = s.substring_char(1, n);
        proof {
            assert(digits@ =~= s@.drop_first());
        }
        match parse_u64(digits) {
            Some(v) => {
                if v < 0x8000_0000_0000_0000u64 {
                    Some(-(v as i64))
                } else if v == 0x8000_0000_0000_0000u64 {
                    Some(i64::MIN)
                } else {
                    None
                }
            },
            None => None,
        }
    } else {
        match parse_u64(s) {
            Some(v) => {
                if v <= i64::MAX as u64 {
                    Some(v as i64)
                } else {
                    None
                }
            },
            None => None,
        }
    }
}

/// Once a decimal prefix exceeds `usize::MAX`, the whole string does too.
proof fn lemma_decimal_prefix_overflow(s: Seq<char>, k: int)
    requires
        0 <= k <= s.len(),
        decimal_value(s.subrange(0, k)) > usize::MAX,
    ensures
        decimal_value(s) > usize::MAX,
    decreases s.len() - k,
{
    if k < s.len() {
        assert(s.subrange(0, k + 1).drop_last() =~= s.subrange(0, k));
        assert(decimal_value(s.subrange(0, k + 1)) == decimal_value(s.subrange(0, k)) * 10
            + digit_value(s.subrange(0, k + 1).last()));
        lemma_decimal_prefix_overflow(s, k + 1);
    } else {
        assert(s.subrange(0, k) =~= s);
    }
}

} // verus!
