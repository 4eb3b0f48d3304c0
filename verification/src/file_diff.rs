//! The rendered diff structure: per-line fragment sequences that carry
//! both diff status and syntax-highlight classes, produced from a parsed
//! diff description and the two whole-file texts.
use vstd::prelude::*;

use crate::diff_status::DiffStatus;
use crate::file_diff_meta::{FileDiffMeta, HunkSection};
use crate::highlight::{
    lemma_piece_in_range, lemma_ranges_cover, piece_view, ranges_rec, Highlights, PieceView,
    RangePiece,
};
use crate::text::{
    concat_all, first_index_of, join_with, lemma_first_index_in_suffix, lemma_first_index_of,
    lines_of, split_on, str_eq,
};

verus! {

/// The smallest rendered diff unit: a run of text with one diff status
/// and at most one highlight class path.
#[derive(Debug, Clone)]
pub struct Fragment {
    pub text: String,
    pub status: DiffStatus,
    pub class: Option<Vec<String>>,
}

/// The mathematical shape of a fragment.
pub type FragView = (Seq<char>, DiffStatus, Option<Seq<Seq<char>>>);

pub open spec fn frag_view(f: Fragment) -> FragView {
    (
        f.text@,
        f.status,
        match f.class {
            Some(c) => Some(c.deep_view()),
            None => None,
        },
    )
}

/// The texts of a fragment list, in order.
pub open spec fn frag_texts(fs: Seq<FragView>) -> Seq<Seq<char>> {
    fs.map_values(|f: FragView| f.0)
}

fn vec_string_eq(a: &Vec<String>, b: &Vec<String>) -> (r: bool)
    ensures
        r == (a.deep_view() == b.deep_view()),
{
    if a.len() != b.len() {
        proof {
            assert(a.deep_view().len() == a@.len());
            assert(b.deep_view().len() == b@.len());
        }
        return false;
    }
    let mut i: usize = 0;
    while i < a.len()
        invariant
            i <= a@.len(),
            a@.len() == b@.len(),
            a.deep_view().len() == a@.len(),
            b.deep_view().len() == b@.len(),
            forall|j: int| 0 <= j < i ==> a.deep_view()[j] == b.deep_view()[j],
        decreases a@.len() - i,
    {
        if !str_eq(a[i].as_str(), b[i].as_str()) {
            proof {
                assert(a.deep_view()[i as int] == a@[i as int]@);
                assert(b.deep_view()[i as int] == b@[i as int]@);
            }
            return false;
        }
        proof {
            assert(a.deep_view()[i as int] == a@[i as int]@);
            assert(b.deep_view()[i as int] == b@[i as int]@);
        }
        i += 1;
    }
    proof {
        assert(a.deep_view() =~= b.deep_view());
    }
    true
}

impl PartialEq for Fragment {
    fn eq(&self, other: &Self) -> (r: bool) {
        let texts_equal = str_eq(self.text.as_str(), other.text.as_str());
        let status_equal = self.status == other.status;
        let class_equal = match (&self.class, &other.class) {
            (None, None) => true,
            (Some(a), Some(b)) => vec_string_eq(a, b),
            _ => false,
        };
        texts_equal && status_equal && class_equal
    }
}

impl vstd::std_specs::cmp::PartialEqSpecImpl for Fragment {
    open spec fn obeys_eq_spec() -> bool {
        true
    }

    open spec fn eq_spec(&self, other: &Self) -> bool {
        frag_view(*self) == frag_view(*other)
    }
}

impl Eq for Fragment {

}

/// Consecutive pieces slice a text without gap or overlap, so the sliced
/// texts run together to the whole.
#[verifier::rlimit(100)]
proof fn lemma_concat_of_slices(text: Seq<char>, pieces: Seq<PieceView>, start: int)
    requires
        pieces.len() > 0 ==> pieces[0].0 == start,
        forall|i: int| 0 <= i < pieces.len() - 1 ==> (#[trigger] pieces[i]).1 == pieces[i + 1].0,
        forall|i: int|
            0 <= i < pieces.len() ==> start <= (#[trigger] pieces[i]).0 <= pieces[i].1 <= start
                + text.len(),
        pieces.len() > 0 ==> pieces[pieces.len() - 1].1 == start + text.len(),
        pieces.len() == 0 ==> text.len() == 0,
    ensures
        concat_all(pieces.map_values(|p: PieceView| text.subrange(p.0 - start, p.1 - start)))
            =~= text,
    decreases pieces.len(),
{
    let slices = pieces.map_values(|p: PieceView| text.subrange(p.0 - start, p.1 - start));
    if pieces.len() == 0 {
        assert(text =~= Seq::<char>::empty());
        assert(concat_all(slices) =~= text);
    } else if pieces.len() == 1 {
        assert(slices.drop_last() =~= Seq::<Seq<char>>::empty());
        assert(concat_all(slices) == concat_all(slices.drop_last()) + slices.last());
        assert(concat_all(slices.drop_last()) == Seq::<char>::empty());
        assert(slices.last() == text.subrange(pieces[0].0 - start, pieces[0].1 - start));
        assert(text.subrange(pieces[0].0 - start, pieces[0].1 - start) =~= text);
        assert(Seq::<char>::empty() + slices.last() =~= slices.last());
        assert(concat_all(slices) =~= text);
    } else {
        let head = pieces.drop_last();
        let htext = text.subrange(0, pieces[pieces.len() - 2].1 - start);
        assert forall|i: int| 0 <= i < head.len() implies {
            &&& start <= (#[trigger] head[i]).0 <= head[i].1 <= start + htext.len()
            &&& (i < head.len() - 1 ==> head[i].1 == head[i + 1].0)
        } by {
            assert(head[i] == pieces[i]);
            if i < head.len() - 1 {
                assert(pieces[i].1 == pieces[i + 1].0);
            }
            lemma_pieces_monotonic(pieces, i, pieces.len() - 2);
        }
        lemma_concat_of_slices(htext, head, start);
        let hslices = head.map_values(|p: PieceView| htext.subrange(p.0 - start, p.1 - start));
        assert forall|i: int| 0 <= i < head.len() implies hslices[i] == slices[i] by {
            lemma_pieces_monotonic(pieces, i, pieces.len() - 2);
            assert(htext.subrange(head[i].0 - start, head[i].1 - start) =~= text.subrange(
                pieces[i].0 - start,
                pieces[i].1 - start,
            ));
        }
        assert(slices.drop_last() =~= hslices);
        assert(concat_all(slices) == concat_all(slices.drop_last()) + slices.last());
        assert(concat_all(hslices) == htext);
        assert(slices.last() == text.subrange(pieces[pieces.len() - 1].0 - start, pieces[pieces.len()
            - 1].1 - start));
        assert(pieces[pieces.len() - 1].0 == pieces[pieces.len() - 2].1) by {
            assert(pieces[pieces.len() - 2].1 == pieces[pieces.len() - 2 + 1].0);
        }
        assert(htext + text.subrange(pieces[pieces.len() - 1].0 - start, pieces[pieces.len() - 1].1
            - start) =~= text);
        assert(concat_all(slices) =~= text);
    }
}

/// Piece ends are monotone: an earlier piece ends no later than a later
/// one.
proof fn lemma_pieces_monotonic(pieces: Seq<PieceView>, i: int, j: int)
    requires
        forall|k: int| 0 <= k < pieces.len() - 1 ==> (#[trigger] pieces[k]).1 == pieces[k + 1].0,
        forall|k: int| 0 <= k < pieces.len() ==> (#[trigger] pieces[k]).0 <= pieces[k].1,
        0 <= i <= j < pieces.len(),
    ensures
        pieces[i].1 <= pieces[j].1,
    decreases j - i,
{
    if i < j {
        lemma_pieces_monotonic(pieces, i + 1, j);
    }
}

impl Fragment {
    /// Slice one run of text against the highlight spans of its file:
    /// the text's span `[start, end)` in that file is cut at highlight
    /// boundaries, every piece keeping the one diff status handed in and
    /// taking the class of the highlight span it falls in, if any.
    pub fn from_highlighted(
        start: usize,
        end: usize,
        text: &str,
        status: DiffStatus,
        highlights: &Highlights,
    ) -> (r: Vec<Fragment>)
        requires
            highlights.wf(),
            start <= end,
            end - start == text@.len(),
        ensures
            ({
                let pieces = ranges_rec(highlights.view(), start, start, end);
                &&& r@.len() == pieces.len()
                &&& forall|i: int|
                    0 <= i < r@.len() ==> frag_view(#[trigger] r@[i]) == (
                        text@.subrange(pieces[i].0 - start, pieces[i].1 - start),
                        status,
                        pieces[i].2,
                    )
            }),
            concat_all(frag_texts(r@.map_values(|f: Fragment| frag_view(f)))) == text@,
            forall|i: int| 0 <= i < r@.len() ==> (#[trigger] r@[i]).status == status,
            highlights.view().len() == 0 ==> forall|i: int|
                0 <= i < r@.len() ==> (#[trigger] r@[i]).class is None,
            forall|i: int| 0 <= i < r@.len() ==> (#[trigger] r@[i]).text@.len() > 0,
            nl_only_at_end(text@) ==> forall|i: int|
                0 <= i < r@.len() ==> nl_only_at_end((#[trigger] r@[i]).text@),
    {
        let pieces = highlights.get_ranges(start, end);
        let ghost gpieces = ranges_rec(highlights.view(), start, start, end);
        proof {
            assert(pieces@.map_values(|p: RangePiece| piece_view(p)).len() == pieces@.len());
        }
        let mut r: Vec<Fragment> = Vec::new();
        let mut i: usize = 0;
        while i < pieces.len()
            invariant
                i <= pieces@.len(),
                highlights.wf(),
                start <= end,
                end - start == text@.len(),
                gpieces == ranges_rec(highlights.view(), start, start, end),
                pieces@.map_values(|p: RangePiece| piece_view(p)) == gpieces,
                gpieces.len() == pieces@.len(),
                r@.len() == i,
                forall|j: int|
                    0 <= j < i ==> frag_view(#[trigger] r@[j]) == (
                        text@.subrange(gpieces[j].0 - start, gpieces[j].1 - start),
                        status,
                        gpieces[j].2,
                    ),
            decreases pieces@.len() - i,
        {
            proof {
                lemma_piece_in_range(highlights.view(), start, start, end, i as int);
                assert(piece_view(pieces@[i as int]) == gpieces[i as int]);
            }
            let p_start = pieces[i].0;
            let p_end = pieces[i].1;
            let piece_text = text.substring_char(p_start - start, p_end - start).to_owned();
            let class = match &pieces[i].2 {
                Some(c) => Some(c.clone()),
                None => None,
            };
            r.push(Fragment { text: piece_text, status, class });
            i += 1;
        }
        proof {
            let fviews = r@.map_values(|f: Fragment| frag_view(f));
            assert(frag_texts(fviews) =~= gpieces.map_values(
                |p: PieceView| text@.subrange(p.0 - start, p.1 - start),
            ));
            if gpieces.len() > 0 {
                lemma_ranges_cover(highlights.view(), start, start, end);
                assert forall|k: int| 0 <= k < gpieces.len() implies {
                    &&& start <= (#[trigger] gpieces[k]).0 <= gpieces[k].1 <= start + text@.len()
                    &&& (k < gpieces.len() - 1 ==> gpieces[k].1 == gpieces[k + 1].0)
                } by {
                    lemma_piece_in_range(highlights.view(), start, start, end, k);
                }
                assert(start < end);
                assert(gpieces[0].0 == start);
                assert(gpieces[gpieces.len() - 1].1 == end);
            }
            lemma_concat_of_slices(text@, gpieces, start as int);
            assert forall|k: int| 0 <= k < r@.len() implies (#[trigger] r@[k]).text@.len() > 0 && (
            nl_only_at_end(text@) ==> nl_only_at_end(r@[k].text@)) by {
                lemma_piece_in_range(highlights.view(), start, start, end, k);
                let p = gpieces[k];
                assert(r@[k].text@ == text@.subrange(p.0 - start, p.1 - start));
                if nl_only_at_end(text@) {
                    assert forall|jj: int|
                        0 <= jj < r@[k].text@.len() - 1 implies r@[k].text@[jj] != '\n' by {
                        assert(r@[k].text@[jj] == text@[p.0 - start + jj]);
                        assert(p.0 - start + jj < text@.len() - 1);
                    }
                }
            }
        }
        r
    }
}

/// A word character for tokenizing: ASCII alphanumeric or underscore.
pub open spec fn is_word_char(c: char) -> bool {
    ('a' <= c && c <= 'z') || ('A' <= c && c <= 'Z') || ('0' <= c && c <= '9') || c == '_'
}

/// Horizontal whitespace: any character of the Unicode white-space set
/// other than the newline itself (tab through carriage return, space,
/// next line, no-break space, ogham space mark, the en-quad to hair
/// space block, line and paragraph separators, narrow and medium
/// mathematical spaces, and the ideographic space).
pub open spec fn is_horizontal_space(c: char) -> bool {
    c != '\n' && (c == ' ' || ('\u{9}' <= c && c <= '\u{d}') || c == '\u{85}' || c == '\u{a0}'
        || c == '\u{1680}' || ('\u{2000}' <= c && c <= '\u{200a}') || c == '\u{2028}' || c
        == '\u{2029}' || c == '\u{202f}' || c == '\u{205f}' || c == '\u{3000}')
}

/// A well-formed token: one run of word characters, one run of
/// horizontal whitespace, or one single character of any other kind.
pub open spec fn token_wf(t: Seq<char>) -> bool {
    t.len() > 0 && ((forall|i: int| 0 <= i < t.len() ==> is_word_char(#[trigger] t[i])) || (
    forall|i: int| 0 <= i < t.len() ==> is_horizontal_space(#[trigger] t[i])) || t.len() == 1)
}

fn is_word_char_exec(c: char) -> (r: bool)
    ensures
        r == is_word_char(c),
{
    ('a' <= c && c <= 'z') || ('A' <= c && c <= 'Z') || ('0' <= c && c <= '9') || c == '_'
}

fn is_horizontal_space_exec(c: char) -> (r: bool)
    ensures
        r == is_horizontal_space(c),
{
    c != '\n' && (c == ' ' || ('\u{9}' <= c && c <= '\u{d}') || c == '\u{85}' || c == '\u{a0}'
        || c == '\u{1680}' || ('\u{2000}' <= c && c <= '\u{200a}') || c == '\u{2028}' || c
        == '\u{2029}' || c == '\u{202f}' || c == '\u{205f}' || c == '\u{3000}')
}

/// Whether two adjacent tokens could instead be one token: both sit in
/// the same word-character run or the same horizontal-whitespace run.
pub open spec fn tokens_joinable(a: char, b: char) -> bool {
    (is_word_char(a) && is_word_char(b)) || (is_horizontal_space(a) && is_horizontal_space(b))
}

/// Every token is maximal: no adjacent pair could be joined.
pub open spec fn tokens_maximal(tokens: Seq<Seq<char>>) -> bool {
    forall|i: int|
        0 <= i < tokens.len() - 1 ==> !tokens_joinable(
            (#[trigger] tokens[i])[0],
            tokens[i + 1][0],
        )
}

/// Tokenize for the word diff: a maximal run of word characters is one
/// token, a maximal run of horizontal whitespace is one token, and every
/// other character stands alone.
pub fn tokenize_code(s: &str) -> (r: Vec<String>)
    ensures
        concat_all(r.deep_view()) == s@,
        forall|i: int| 0 <= i < r.deep_view().len() ==> token_wf(#[trigger] r.deep_view()[i]),
        tokens_maximal(r.deep_view()),
{
    let n = s.unicode_len();
    let mut r: Vec<String> = Vec::new();
    let mut i: usize = 0;
    proof {
        assert(r.deep_view() =~= Seq::<Seq<char>>::empty());
        assert(concat_all(r.deep_view()) =~= s@.subrange(0, 0));
    }
    while i < n
        invariant
            i <= n,
            n == s@.len(),
            concat_all(r.deep_view()) == s@.subrange(0, i as int),
            forall|j: int| 0 <= j < r.deep_view().len() ==> token_wf(#[trigger] r.deep_view()[j]),
            tokens_maximal(r.deep_view()),
            r.deep_view().len() > 0 && i < n ==> !tokens_joinable(
                r.deep_view().last()[0],
                s@[i as int],
            ),
        decreases n - i,
    {
        let c = s.get_char(i);
        let mut j: usize = i + 1;
        if is_word_char_exec(c) {
            while j < n && is_word_char_exec(s.get_char(j))
                invariant
                    i < j <= n,
                    n == s@.len(),
                    forall|k: int| i <= k < j ==> is_word_char(#[trigger] s@[k]),
                decreases n - j,
            {
                j += 1;
            }
        } else if is_horizontal_space_exec(c) {
            while j < n && is_horizontal_space_exec(s.get_char(j))
                invariant
                    i < j <= n,
                    n == s@.len(),
                    forall|k: int| i <= k < j ==> is_horizontal_space(#[trigger] s@[k]),
                decreases n - j,
            {
                j += 1;
            }
        }
        let token = s.substring_char(i, j).to_owned();
        proof {
            assert(token@ == s@.subrange(i as int, j as int));
            assert(token_wf(token@)) by {
                if is_word_char(c) {
                    assert(forall|k: int|
                        0 <= k < token@.len() ==> is_word_char(#[trigger] token@[k]));
                } else if is_horizontal_space(c) {
                    assert(forall|k: int|
                        0 <= k < token@.len() ==> is_horizontal_space(#[trigger] token@[k]));
                } else {
                    assert(token@.len() == 1);
                }
            }
        }
        let ghost old_dv = r.deep_view();
        r.push(token);
        proof {
            assert(r.deep_view() =~= old_dv.push(token@));
            assert(r.deep_view().drop_last() =~= old_dv);
            assert(r.deep_view().last() == token@);
            assert(concat_all(r.deep_view()) == concat_all(old_dv) + token@);
            assert(s@.subrange(0, i as int) + s@.subrange(i as int, j as int) =~= s@.subrange(
                0,
                j as int,
            ));
            assert forall|jj: int| 0 <= jj < r.deep_view().len() implies token_wf(
                #[trigger] r.deep_view()[jj],
            ) by {
                if jj < old_dv.len() {
                    assert(r.deep_view()[jj] == old_dv[jj]);
                } else {
                    assert(r.deep_view()[jj] == token@);
                }
            }
            // The new token starts where the previous one could not go on,
            // and it itself stops only at a character it cannot absorb.
            assert(token@[0] == s@[i as int]);
            assert forall|jj: int| 0 <= jj < r.deep_view().len() - 1 implies !tokens_joinable(
                (#[trigger] r.deep_view()[jj])[0],
                r.deep_view()[jj + 1][0],
            ) by {
                if jj < old_dv.len() - 1 {
                    assert(r.deep_view()[jj] == old_dv[jj]);
                    assert(r.deep_view()[jj + 1] == old_dv[jj + 1]);
                } else {
                    assert(r.deep_view()[jj] == old_dv.last());
                    assert(r.deep_view()[jj + 1] == token@);
                }
            }
            if j < n {
                assert(!tokens_joinable(s@[i as int], s@[j as int])) by {
                    if is_word_char(s@[i as int]) {
                        assert(!is_word_char(s@[j as int]));
                    } else if is_horizontal_space(s@[i as int]) {
                        assert(!is_horizontal_space(s@[j as int]));
                    }
                }
            }
        }
        i = j;
    }
    proof {
        assert(s@.subrange(0, n as int) =~= s@);
    }
    r
}

/// A newline may stand only as the final character.
pub open spec fn nl_only_at_end(t: Seq<char>) -> bool {
    forall|j: int| 0 <= j < t.len() - 1 ==> t[j] != '\n'
}

/// The text ends with a newline.
pub open spec fn ends_nl(t: Seq<char>) -> bool {
    t.len() > 0 && t.last() == '\n'
}

/// The pieces of a text cut after every newline, each keeping its
/// newline; the empty text has no pieces.
pub open spec fn split_incl(s: Seq<char>) -> Seq<Seq<char>>
    decreases s.len(),
{
    if s.len() == 0 {
        Seq::empty()
    } else {
        let i = first_index_of(s, '\n');
        if 0 <= i < s.len() {
            seq![s.subrange(0, i + 1)] + split_incl(s.subrange(i + 1, s.len() as int))
        } else {
            seq![s]
        }
    }
}

/// Split a text after every newline, keeping the newlines: every piece
/// but the last ends with a newline, and no piece holds one anywhere
/// else, so pieces break exactly at the newlines.
pub fn split_inclusive_newlines(s: &str) -> (r: Vec<String>)
    ensures
        r.deep_view() == split_incl(s@),
        concat_all(r.deep_view()) == s@,
        forall|i: int| 0 <= i < r.deep_view().len() ==> nl_only_at_end(#[trigger] r.deep_view()[i]),
        forall|i: int| 0 <= i < r.deep_view().len() ==> (#[trigger] r.deep_view()[i]).len() > 0,
        forall|i: int| 0 <= i < r.deep_view().len() - 1 ==> ends_nl(#[trigger] r.deep_view()[i]),
{
    let n = s.unicode_len();
    let mut r: Vec<String> = Vec::new();
    let mut i: usize = 0;
    proof {
        assert(r.deep_view() =~= Seq::<Seq<char>>::empty());
        assert(concat_all(r.deep_view()) =~= s@.subrange(0, 0));
        assert(s@.subrange(0, n as int) =~= s@);
        assert(split_incl(s@) =~= r.deep_view() + split_incl(s@.subrange(0, n as int)));
    }
    while i < n
        invariant
            i <= n,
            n == s@.len(),
            concat_all(r.deep_view()) == s@.subrange(0, i as int),
            split_incl(s@) == r.deep_view() + split_incl(s@.subrange(i as int, n as int)),
            forall|j: int|
                0 <= j < r.deep_view().len() ==> nl_only_at_end(#[trigger] r.deep_view()[j]),
            forall|j: int| 0 <= j < r.deep_view().len() ==> (#[trigger] r.deep_view()[j]).len() > 0,
            forall|j: int| 0 <= j < r.deep_view().len() - 1 ==> ends_nl(#[trigger] r.deep_view()[j]),
            r.deep_view().len() > 0 && i < n ==> ends_nl(r.deep_view().last()),
        decreases n - i,
    {
        let found = crate::text::find_char_from(s, '\n', i);
        let j = match found {
            Some(x) => x + 1,
            None => n,
        };
        let piece = s.substring_char(i, j).to_owned();
        proof {
            assert(piece@ == s@.subrange(i as int, j as int));
            assert(nl_only_at_end(piece@));
            let suffix = s@.subrange(i as int, n as int);
            match found {
                Some(x) => {
                    assert(s@[j - 1] == '\n');
                    assert(piece@.last() == s@[j - 1]);
                    assert(ends_nl(piece@));
                    lemma_first_index_in_suffix(s@, '\n', i as int, x as int);
                    assert(first_index_of(suffix, '\n') == x - i);
                    assert(suffix.subrange(0, j - i) =~= piece@);
                    assert(suffix.subrange(j - i, suffix.len() as int) =~= s@.subrange(
                        j as int,
                        n as int,
                    ));
                    assert(split_incl(suffix) == seq![piece@] + split_incl(
                        s@.subrange(j as int, n as int),
                    ));
                },
                None => {
                    lemma_first_index_in_suffix(s@, '\n', i as int, n as int);
                    assert(first_index_of(suffix, '\n') == suffix.len());
                    assert(split_incl(suffix) == seq![suffix]);
                    assert(piece@ =~= suffix);
                    assert(s@.subrange(j as int, n as int) =~= Seq::<char>::empty());
                    assert(split_incl(s@.subrange(j as int, n as int)) =~= Seq::<
                        Seq<char>,
                    >::empty());
                    assert(split_incl(suffix) =~= seq![piece@] + split_incl(
                        s@.subrange(j as int, n as int),
                    ));
                },
            }
        }
        let ghost old_dv = r.deep_view();
        r.push(piece);
        proof {
            assert(r.deep_view() =~= old_dv.push(piece@));
            assert(r.deep_view().drop_last() =~= old_dv);
            assert(concat_all(r.deep_view()) == concat_all(old_dv) + piece@);
            assert(s@.subrange(0, i as int) + s@.subrange(i as int, j as int) =~= s@.subrange(
                0,
                j as int,
            ));
            assert forall|jj: int| 0 <= jj < r.deep_view().len() implies nl_only_at_end(
                #[trigger] r.deep_view()[jj],
            ) && r.deep_view()[jj].len() > 0 by {
                if jj < old_dv.len() {
                    assert(r.deep_view()[jj] == old_dv[jj]);
                } else {
                    assert(r.deep_view()[jj] == piece@);
                }
            }
            assert forall|jj: int| 0 <= jj < r.deep_view().len() - 1 implies ends_nl(
                #[trigger] r.deep_view()[jj],
            ) by {
                if jj < old_dv.len() - 1 {
                    assert(r.deep_view()[jj] == old_dv[jj]);
                } else {
                    assert(r.deep_view()[jj] == old_dv.last());
                }
            }
            assert(split_incl(s@) =~= r.deep_view() + split_incl(
                s@.subrange(j as int, n as int),
            ));
        }
        i = j;
    }
    proof {
        assert(s@.subrange(n as int, n as int) =~= Seq::<char>::empty());
        assert(split_incl(Seq::<char>::empty()) =~= Seq::<Seq<char>>::empty());
        assert(r.deep_view() + Seq::<Seq<char>>::empty() =~= r.deep_view());
        assert(s@.subrange(0, n as int) =~= s@);
    }
    r
}

/// The text with every trailing newline removed.
pub open spec fn strip_nl(t: Seq<char>) -> Seq<char>
    decreases t.len(),
{
    if t.len() > 0 && t.last() == '\n' {
        strip_nl(t.drop_last())
    } else {
        t
    }
}

/// The fragment with all trailing newlines removed from its text.
pub open spec fn strip_frag_nl(f: FragView) -> FragView {
    (strip_nl(f.0), f.1, f.2)
}

/// Line grouping after `k` fragments: each fragment joins the line under
/// construction with its trailing newlines stripped, and a fragment that
/// ends in a newline closes the line — unless it is the very last
/// fragment.
pub open spec fn group_lines_upto(frags: Seq<FragView>, k: int) -> Seq<Seq<FragView>>
    decreases k,
{
    if k <= 0 {
        seq![Seq::<FragView>::empty()]
    } else {
        let prev = group_lines_upto(frags, k - 1);
        let f = frags[k - 1];
        let appended = prev.update(prev.len() - 1, prev.last().push(strip_frag_nl(f)));
        if ends_nl(f.0) && k != frags.len() {
            appended.push(Seq::<FragView>::empty())
        } else {
            appended
        }
    }
}

pub proof fn lemma_group_lines_nonempty(frags: Seq<FragView>, k: int)
    ensures
        group_lines_upto(frags, k).len() >= 1,
    decreases k,
{
    if k > 0 {
        lemma_group_lines_nonempty(frags, k - 1);
    }
}

/// Take fragments where some may be terminated by a newline, and split
/// on that. Removes all newlines.
pub fn split_fragments_into_lines(fragments: &Vec<Fragment>) -> (r: Vec<Vec<Fragment>>)
    ensures
        r@.map_values(|line: Vec<Fragment>| line@.map_values(|f: Fragment| frag_view(f)))
            == group_lines_upto(
            fragments@.map_values(|f: Fragment| frag_view(f)),
            fragments@.len() as int,
        ),
{
    let ghost gfrags = fragments@.map_values(|f: Fragment| frag_view(f));
    let mut lines: Vec<Vec<Fragment>> = Vec::new();
    lines.push(Vec::new());
    let mut i: usize = 0;
    proof {
        assert(group_lines_upto(gfrags, 0) == seq![Seq::<FragView>::empty()]);
        assert(lines@[0]@.map_values(|f: Fragment| frag_view(f)) =~= Seq::<FragView>::empty());
        assert(lines@.map_values(|line: Vec<Fragment>| line@.map_values(|f: Fragment| frag_view(f)))
            =~~= group_lines_upto(gfrags, 0));
    }
    while i < fragments.len()
        invariant
            i <= fragments@.len(),
            gfrags == fragments@.map_values(|f: Fragment| frag_view(f)),
            gfrags.len() == fragments@.len(),
            lines@.len() >= 1,
            lines@.map_values(|line: Vec<Fragment>| line@.map_values(|f: Fragment| frag_view(f)))
                == group_lines_upto(gfrags, i as int),
        decreases fragments@.len() - i,
    {
        let frag = &fragments[i];
        let tl = frag.text.as_str().unicode_len();
        let frag_ends_nl = tl > 0 && frag.text.as_str().get_char(tl - 1) == '\n';
        let mut cut: usize = tl;
        proof {
            assert(frag.text@.subrange(0, tl as int) =~= frag.text@);
        }
        while cut > 0 && frag.text.as_str().get_char(cut - 1) == '\n'
            invariant
                cut <= tl,
                tl == frag.text@.len(),
                strip_nl(frag.text@) == strip_nl(frag.text@.subrange(0, cut as int)),
            decreases cut,
        {
            proof {
                let cur = frag.text@.subrange(0, cut as int);
                assert(cur.drop_last() =~= frag.text@.subrange(0, cut - 1));
            }
            cut -= 1;
        }
        let stripped_text: String = frag.text.as_str().substring_char(0, cut).to_owned();
        let stripped = Fragment {
            text: stripped_text,
            status: frag.status,
            class: match &frag.class {
                Some(c) => Some(c.clone()),
                None => None,
            },
        };
        proof {
            assert(frag_view(fragments@[i as int]) == gfrags[i as int]);
            let cur = frag.text@.subrange(0, cut as int);
            assert(cur.len() > 0 ==> cur.last() != '\n');
            assert(strip_nl(cur) == cur);
            assert(frag_view(stripped) == strip_frag_nl(gfrags[i as int]));
        }
        let mut last = lines.pop().unwrap();
        let ghost old_last_view = last@.map_values(|f: Fragment| frag_view(f));
        let ghost old_lines_view = lines@.map_values(
            |line: Vec<Fragment>| line@.map_values(|f: Fragment| frag_view(f)),
        );
        last.push(stripped);
        lines.push(last);
        proof {
            let prev = group_lines_upto(gfrags, i as int);
            lemma_group_lines_nonempty(gfrags, i as int);
            let lv = lines@.map_values(
                |line: Vec<Fragment>| line@.map_values(|f: Fragment| frag_view(f)),
            );
            assert(lv =~~= prev.update(
                prev.len() - 1,
                prev.last().push(strip_frag_nl(gfrags[i as int])),
            ));
        }
        if frag_ends_nl && i != fragments.len() - 1 {
            lines.push(Vec::new());
            proof {
                let lv = lines@.map_values(
                    |line: Vec<Fragment>| line@.map_values(|f: Fragment| frag_view(f)),
                );
                assert(lines@[lines@.len() - 1]@.map_values(|f: Fragment| frag_view(f)) =~= Seq::<
                    FragView,
                >::empty());
                assert(lv =~~= group_lines_upto(gfrags, i + 1 as int));
            }
        } else {
            proof {
                let lv = lines@.map_values(
                    |line: Vec<Fragment>| line@.map_values(|f: Fragment| frag_view(f)),
                );
                assert(lv =~~= group_lines_upto(gfrags, i + 1 as int));
            }
        }
        i += 1;
    }
    lines
}

/// Grouped lines spell out the newline-split of the joined fragment
/// texts: each produced line's texts run together to one split part.
/// When the very last fragment ends in a newline, the line it closes is
/// not followed by a line for the empty trailing split part.
#[verifier::rlimit(100)]
pub proof fn lemma_group_lines_texts(frags: Seq<FragView>, k: int)
    requires
        0 <= k <= frags.len(),
        forall|i: int| 0 <= i < frags.len() ==> nl_only_at_end((#[trigger] frags[i]).0),
    ensures
        ({
            let lines = group_lines_upto(frags, k);
            let parts = split_on(concat_all(frag_texts(frags.subrange(0, k))), '\n');
            &&& lines.len() == if k == frags.len() && k > 0 && ends_nl(frags[k - 1].0) {
                parts.len() - 1
            } else {
                parts.len() as int
            }
            &&& forall|i: int|
                0 <= i < lines.len() ==> concat_all(frag_texts(#[trigger] lines[i])) == parts[i]
        }),
    decreases k,
{
    let lines = group_lines_upto(frags, k);
    let parts = split_on(concat_all(frag_texts(frags.subrange(0, k))), '\n');
    if k == 0 {
        assert(frags.subrange(0, 0) =~= Seq::<FragView>::empty());
        assert(frag_texts(Seq::<FragView>::empty()) =~= Seq::<Seq<char>>::empty());
        assert(concat_all(Seq::<Seq<char>>::empty()) == Seq::<char>::empty());
        crate::text::lemma_first_index_of(Seq::<char>::empty(), '\n');
        assert(parts == seq![Seq::<char>::empty()]);
        assert(lines == seq![Seq::<FragView>::empty()]);
        assert(frag_texts(lines[0]) =~= Seq::<Seq<char>>::empty());
    } else {
        lemma_group_lines_texts(frags, k - 1);
        let prev = group_lines_upto(frags, k - 1);
        let prev_concat = concat_all(frag_texts(frags.subrange(0, k - 1)));
        let prev_parts = split_on(prev_concat, '\n');
        crate::text::lemma_split_on_basic(prev_concat, '\n');
        lemma_group_lines_nonempty(frags, k - 1);
        assert(prev.len() == prev_parts.len());
        let f = frags[k - 1];
        assert(nl_only_at_end(f.0));
        assert(frags.subrange(0, k) =~= frags.subrange(0, k - 1).push(f));
        assert(frag_texts(frags.subrange(0, k)) =~= frag_texts(frags.subrange(0, k - 1)).push(
            f.0,
        ));
        assert(frag_texts(frags.subrange(0, k)).drop_last() =~= frag_texts(
            frags.subrange(0, k - 1),
        ));
        assert(concat_all(frag_texts(frags.subrange(0, k))) == prev_concat + f.0);
        let appended = prev.update(prev.len() - 1, prev.last().push(strip_frag_nl(f)));
        assert(frag_texts(appended.last()) =~= frag_texts(prev.last()).push(strip_frag_nl(f).0));
        assert(frag_texts(appended.last()).drop_last() =~= frag_texts(prev.last()));
        assert(frag_texts(appended.last()).last() == strip_frag_nl(f).0);
        assert(concat_all(frag_texts(appended.last())) == concat_all(frag_texts(prev.last()))
            + strip_frag_nl(f).0);
        assert(concat_all(frag_texts(prev.last())) == prev_parts.last()) by {
            assert(prev[prev.len() - 1] == prev.last());
        }
        if !ends_nl(f.0) {
            assert(!crate::text::seq_contains_char(f.0, '\n')) by {
                if crate::text::seq_contains_char(f.0, '\n') {
                    let i = choose|i: int| 0 <= i < f.0.len() && f.0[i] == '\n';
                    assert(i == f.0.len() - 1);
                }
            }
            crate::text::lemma_split_append_no_sep(prev_concat, f.0, '\n');
            assert(parts == prev_parts.drop_last().push(prev_parts.last() + f.0));
            assert(lines == appended);
            assert(strip_frag_nl(f) == f) by {
                if f.0.len() > 0 {
                    assert(f.0.last() != '\n');
                }
                assert(strip_nl(f.0) == f.0);
            }
            assert(lines.len() == parts.len());
            assert forall|i: int| 0 <= i < lines.len() implies concat_all(
                frag_texts(#[trigger] lines[i]),
            ) == parts[i] by {
                if i < lines.len() - 1 {
                    assert(lines[i] == prev[i]);
                    assert(parts[i] == prev_parts[i]);
                } else {
                    assert(lines[i] == appended.last());
                    assert(parts[i] == prev_parts.last() + f.0);
                }
            }
        } else {
            let u = f.0.drop_last();
            assert(!crate::text::seq_contains_char(u, '\n')) by {
                if crate::text::seq_contains_char(u, '\n') {
                    let i = choose|i: int| 0 <= i < u.len() && u[i] == '\n';
                    assert(f.0[i] == '\n');
                }
            }
            assert(f.0 =~= u + seq!['\n']);
            crate::text::lemma_split_append_no_sep(prev_concat, u, '\n');
            let mid = prev_concat + u;
            let mid_parts = split_on(mid, '\n');
            assert(mid_parts == prev_parts.drop_last().push(prev_parts.last() + u));
            crate::text::lemma_split_append_sep(mid, '\n');
            assert(mid + seq!['\n'] =~= prev_concat + f.0);
            assert(parts == mid_parts.drop_last().push(mid_parts.last()).push(Seq::empty()));
            assert(mid_parts.drop_last().push(mid_parts.last()) =~= mid_parts);
            assert(parts =~= mid_parts.push(Seq::empty()));
            assert(strip_frag_nl(f).0 == u) by {
                assert(strip_nl(f.0) == strip_nl(u));
                if u.len() > 0 {
                    assert(u.last() != '\n') by {
                        if u.last() == '\n' {
                            assert(crate::text::seq_contains_char(u, '\n'));
                        }
                    }
                }
                assert(strip_nl(u) == u);
            }
            assert(parts.len() == prev_parts.len() + 1);
            assert forall|i: int| 0 <= i < appended.len() implies concat_all(
                frag_texts(#[trigger] appended[i]),
            ) == parts[i] by {
                if i < appended.len() - 1 {
                    assert(appended[i] == prev[i]);
                    assert(parts[i] == mid_parts[i]);
                    assert(mid_parts[i] == prev_parts[i]);
                } else {
                    assert(appended[i] == appended.last());
                    assert(parts[i] == mid_parts.last());
                    assert(mid_parts.last() == prev_parts.last() + u);
                }
            }
            if k != frags.len() {
                assert(lines == appended.push(Seq::<FragView>::empty()));
                assert(lines.len() == parts.len());
                assert forall|i: int| 0 <= i < lines.len() implies concat_all(
                    frag_texts(#[trigger] lines[i]),
                ) == parts[i] by {
                    if i < lines.len() - 1 {
                        assert(lines[i] == appended[i]);
                    } else {
                        assert(lines[i] =~= Seq::<FragView>::empty());
                        assert(frag_texts(lines[i]) =~= Seq::<Seq<char>>::empty());
                        assert(parts[i] == Seq::<char>::empty());
                    }
                }
            } else {
                assert(lines == appended);
                assert(lines.len() == parts.len() - 1);
            }
        }
    }
}

/// The texts of the fragments that belong to one side of a word diff:
/// all but those whose status is `dropped`.
pub open spec fn side_texts(fs: Seq<FragView>, dropped: DiffStatus) -> Seq<Seq<char>>
    decreases fs.len(),
{
    if fs.len() == 0 {
        Seq::empty()
    } else {
        side_texts(fs.drop_last(), dropped) + if fs.last().1 != dropped {
            seq![fs.last().0]
        } else {
            Seq::empty()
        }
    }
}

pub open spec fn diff_pieces_view(v: Seq<(DiffStatus, String)>) -> Seq<(DiffStatus, Seq<char>)> {
    v.map_values(|p: (DiffStatus, String)| (p.0, p.1@))
}

/// The texts of the diff pieces that belong to one side: all but those
/// whose status is `dropped`.
pub open spec fn piece_side_texts(
    ps: Seq<(DiffStatus, Seq<char>)>,
    dropped: DiffStatus,
) -> Seq<Seq<char>>
    decreases ps.len(),
{
    if ps.len() == 0 {
        Seq::empty()
    } else {
        piece_side_texts(ps.drop_last(), dropped) + if ps.last().0 != dropped {
            seq![ps.last().1]
        } else {
            Seq::empty()
        }
    }
}

/// The fragments one diff piece yields when no highlight span is on
/// hand: exactly one class-less fragment per newline-split sub-piece,
/// in order, each carrying the piece's status.
pub open spec fn plain_piece_fragments(p: (DiffStatus, Seq<char>)) -> Seq<FragView> {
    split_incl(p.1).map_values(|t: Seq<char>| (t, p.0, None::<Seq<Seq<char>>>))
}

/// The fragments a whole piece list yields without highlight spans.
pub open spec fn plain_fragments_of(pieces: Seq<(DiffStatus, Seq<char>)>) -> Seq<FragView>
    decreases pieces.len(),
{
    if pieces.len() == 0 {
        Seq::empty()
    } else {
        plain_fragments_of(pieces.drop_last()) + plain_piece_fragments(pieces.last())
    }
}

/// Relies on similar's token-level text diff (Patience algorithm with a
/// time budget) and its remapper back onto the original texts: whatever
/// operations come back within the budget, they cover both token
/// sequences completely and in order, so the pieces not tagged as added
/// spell out the old text, and the pieces not tagged as removed spell
/// out the new text.
#[verifier::external_body]
fn token_diff(
    removed: &str,
    added: &str,
    removed_tokens: &Vec<String>,
    added_tokens: &Vec<String>,
) -> (r: Vec<(DiffStatus, String)>)
    requires
        concat_all(removed_tokens.deep_view()) == removed@,
        concat_all(added_tokens.deep_view()) == added@,
    ensures
        concat_all(piece_side_texts(diff_pieces_view(r@), DiffStatus::Added)) == removed@,
        concat_all(piece_side_texts(diff_pieces_view(r@), DiffStatus::Removed)) == added@,
{
    let old_refs = removed_tokens.iter().map(String::as_str).collect::<Vec<_>>();
    let new_refs = added_tokens.iter().map(String::as_str).collect::<Vec<_>>();
    let diff = similar::TextDiff::configure().algorithm(similar::Algorithm::Patience).timeout(
        std::time::Duration::from_millis(500),
    ).diff_slices(&old_refs, &new_refs);
    let remapper = similar::utils::TextDiffRemapper::from_text_diff(&diff, removed, added);
    diff.ops().iter().flat_map(|op| remapper.iter_slices(op)).map(|(tag, text)| (match tag {
        similar::ChangeTag::Equal => DiffStatus::Unmodified,
        similar::ChangeTag::Insert => DiffStatus::Added,
        similar::ChangeTag::Delete => DiffStatus::Removed,
    }, text.to_string())).collect()
}

/// Turn the diff pieces of one paired-change block into highlighted
/// fragments, split at newline boundaries, tracking a running char
/// offset into each side's whole file text for the highlight lookups.
#[verifier::rlimit(100)]
fn section_fragments(
    pieces: &Vec<(DiffStatus, String)>,
    src_pos0: usize,
    dst_pos0: usize,
    src_highlights: &Highlights,
    dst_highlights: &Highlights,
) -> (r: Vec<Fragment>)
    requires
        src_highlights.wf(),
        dst_highlights.wf(),
    ensures
        ({
            let rv = r@.map_values(|f: Fragment| frag_view(f));
            let pv = diff_pieces_view(pieces@);
            &&& concat_all(side_texts(rv, DiffStatus::Added)) == concat_all(
                piece_side_texts(pv, DiffStatus::Added),
            )
            &&& concat_all(side_texts(rv, DiffStatus::Removed)) == concat_all(
                piece_side_texts(pv, DiffStatus::Removed),
            )
            &&& forall|i: int| 0 <= i < rv.len() ==> nl_only_at_end((#[trigger] rv[i]).0)
            &&& forall|i: int| 0 <= i < rv.len() ==> (#[trigger] rv[i]).0.len() > 0
            &&& (src_highlights.view().len() == 0 && dst_highlights.view().len() == 0
                ==> forall|i: int| 0 <= i < r@.len() ==> (#[trigger] r@[i]).class is None)
            &&& (src_highlights.view().len() == 0 && dst_highlights.view().len() == 0 ==> rv
                == plain_fragments_of(pv))
        }),
{
    let ghost gpieces = diff_pieces_view(pieces@);
    let ghost hl_empty = src_highlights.view().len() == 0 && dst_highlights.view().len() == 0;
    let mut r: Vec<Fragment> = Vec::new();
    let mut src_pos: usize = src_pos0;
    let mut dst_pos: usize = dst_pos0;
    let empty_highlights = Highlights(Vec::new());
    proof {
        assert(empty_highlights.view() =~= Seq::<crate::highlight::SpanView>::empty());
        assert(gpieces.subrange(0, 0) =~= Seq::<(DiffStatus, Seq<char>)>::empty());
        assert(r@.map_values(|f: Fragment| frag_view(f)) =~= Seq::<FragView>::empty());
    }
    let mut i: usize = 0;
    while i < pieces.len()
        invariant
            i <= pieces@.len(),
            gpieces == diff_pieces_view(pieces@),
            gpieces.len() == pieces@.len(),
            src_highlights.wf(),
            dst_highlights.wf(),
            empty_highlights.view().len() == 0,
            empty_highlights.wf(),
            ({
                let rv = r@.map_values(|f: Fragment| frag_view(f));
                let done = gpieces.subrange(0, i as int);
                &&& concat_all(side_texts(rv, DiffStatus::Added)) == concat_all(
                    piece_side_texts(done, DiffStatus::Added),
                )
                &&& concat_all(side_texts(rv, DiffStatus::Removed)) == concat_all(
                    piece_side_texts(done, DiffStatus::Removed),
                )
                &&& forall|j: int| 0 <= j < rv.len() ==> nl_only_at_end((#[trigger] rv[j]).0)
                &&& forall|j: int| 0 <= j < rv.len() ==> (#[trigger] rv[j]).0.len() > 0
                &&& (src_highlights.view().len() == 0 && dst_highlights.view().len() == 0
                    ==> forall|j: int| 0 <= j < r@.len() ==> (#[trigger] r@[j]).class is None)
                &&& (hl_empty ==> rv == plain_fragments_of(gpieces.subrange(0, i as int)))
            }),
            hl_empty == (src_highlights.view().len() == 0 && dst_highlights.view().len() == 0),
        decreases pieces@.len() - i,
    {
        let status = pieces[i].0;
        let subs = split_inclusive_newlines(pieces[i].1.as_str());
        proof {
            assert(gpieces[i as int] == (pieces@[i as int].0, pieces@[i as int].1@));
        }
        let mut j: usize = 0;
        let ghost piece_text = pieces@[i as int].1@;
        proof {
            assert(subs.deep_view().subrange(0, 0) =~= Seq::<Seq<char>>::empty());
            assert(plain_piece_fragments(gpieces[i as int]).subrange(0, 0) =~= Seq::<
                FragView,
            >::empty());
            assert(subs.deep_view() == split_incl(piece_text));
        }
        while j < subs.len()
            invariant
                j <= subs@.len(),
                subs.deep_view().len() == subs@.len(),
                concat_all(subs.deep_view()) == piece_text,
                forall|k: int|
                    0 <= k < subs.deep_view().len() ==> nl_only_at_end(
                        #[trigger] subs.deep_view()[k],
                    ),
                forall|k: int| 0 <= k < subs.deep_view().len() ==> (#[trigger] subs.deep_view()[k]).len()
                    > 0,
                src_highlights.wf(),
                dst_highlights.wf(),
                empty_highlights.view().len() == 0,
                empty_highlights.wf(),
                gpieces == diff_pieces_view(pieces@),
                gpieces.len() == pieces@.len(),
                i < pieces@.len(),
                status == gpieces[i as int].0,
                piece_text == gpieces[i as int].1,
                ({
                    let rv = r@.map_values(|f: Fragment| frag_view(f));
                    let done = gpieces.subrange(0, i as int);
                    let part = concat_all(subs.deep_view().subrange(0, j as int));
                    &&& concat_all(side_texts(rv, DiffStatus::Added)) == concat_all(
                        piece_side_texts(done, DiffStatus::Added),
                    ) + if status != DiffStatus::Added {
                        part
                    } else {
                        Seq::empty()
                    }
                    &&& concat_all(side_texts(rv, DiffStatus::Removed)) == concat_all(
                        piece_side_texts(done, DiffStatus::Removed),
                    ) + if status != DiffStatus::Removed {
                        part
                    } else {
                        Seq::empty()
                    }
                    &&& forall|k: int| 0 <= k < rv.len() ==> nl_only_at_end((#[trigger] rv[k]).0)
                    &&& forall|k: int| 0 <= k < rv.len() ==> (#[trigger] rv[k]).0.len() > 0
                    &&& (src_highlights.view().len() == 0 && dst_highlights.view().len() == 0
                        ==> forall|k: int| 0 <= k < r@.len() ==> (#[trigger] r@[k]).class is None)
                    &&& (hl_empty ==> rv == plain_fragments_of(gpieces.subrange(0, i as int))
                        + plain_piece_fragments(gpieces[i as int]).subrange(0, j as int))
                }),
                subs.deep_view() == split_incl(piece_text),
                hl_empty == (src_highlights.view().len() == 0 && dst_highlights.view().len()
                    == 0),
            decreases subs@.len() - j,
        {
            let sub = &subs[j];
            let sub_len = sub.as_str().unicode_len();
            proof {
                assert(subs.deep_view()[j as int] == subs@[j as int]@);
            }
            // The lookup offset belongs to the side the piece came from.
            let lookup_pos = match status {
                DiffStatus::Removed => src_pos,
                _ => dst_pos,
            };
            let frags = if lookup_pos <= usize::MAX - sub_len {
                match status {
                    DiffStatus::Removed => Fragment::from_highlighted(
                        lookup_pos,
                        lookup_pos + sub_len,
                        sub.as_str(),
                        status,
                        src_highlights,
                    ),
                    _ => Fragment::from_highlighted(
                        lookup_pos,
                        lookup_pos + sub_len,
                        sub.as_str(),
                        status,
                        dst_highlights,
                    ),
                }
            } else {
                Fragment::from_highlighted(0, sub_len, sub.as_str(), status, &empty_highlights)
            };
            // Advance the side offsets past this slice.
            match status {
                DiffStatus::Unmodified => {
                    if src_pos <= usize::MAX - sub_len {
                        src_pos = src_pos + sub_len;
                    }
                    if dst_pos <= usize::MAX - sub_len {
                        dst_pos = dst_pos + sub_len;
                    }
                },
                DiffStatus::Added => {
                    if dst_pos <= usize::MAX - sub_len {
                        dst_pos = dst_pos + sub_len;
                    }
                },
                DiffStatus::Removed => {
                    if src_pos <= usize::MAX - sub_len {
                        src_pos = src_pos + sub_len;
                    }
                },
            }
            let ghost sub_view = subs.deep_view()[j as int];
            let ghost frag_views = frags@.map_values(|f: Fragment| frag_view(f));
            proof {
                assert(concat_all(frag_texts(frag_views)) == sub_view);
                if hl_empty {
                    // Without highlight spans every call sliced the
                    // sub-piece into exactly one class-less fragment.
                    assert(frag_views.len() == 1);
                    assert(sub_view.subrange(0, sub_view.len() as int) =~= sub_view);
                    assert(frag_views[0] == (sub_view, status, None::<Seq<Seq<char>>>));
                    assert(frag_views =~= seq![(sub_view, status, None::<Seq<Seq<char>>>)]);
                }
            }
            let mut m: usize = 0;
            proof {
                assert(frag_texts(frag_views).subrange(0, 0) =~= Seq::<Seq<char>>::empty());
                assert(frag_views.subrange(0, 0) =~= Seq::<FragView>::empty());
            }
            while m < frags.len()
                invariant
                    m <= frags@.len(),
                    frag_views == frags@.map_values(|f: Fragment| frag_view(f)),
                    frag_views.len() == frags@.len(),
                    forall|k: int| 0 <= k < frag_views.len() ==> (#[trigger] frag_views[k]).1 == status,
                    forall|k: int|
                        0 <= k < frag_views.len() ==> (#[trigger] frag_views[k]).0
                            == frag_texts(frag_views)[k],
                    nl_only_at_end(sub_view),
                    forall|k: int|
                        0 <= k < frag_views.len() ==> nl_only_at_end(
                            #[trigger] frag_texts(frag_views)[k],
                        ) && frag_texts(frag_views)[k].len() > 0,
                    src_highlights.view().len() == 0 && dst_highlights.view().len() == 0
                        ==> forall|k: int|
                        0 <= k < frags@.len() ==> (#[trigger] frags@[k]).class is None,
                    ({
                        let rv = r@.map_values(|f: Fragment| frag_view(f));
                        let done = gpieces.subrange(0, i as int);
                        let part = concat_all(subs.deep_view().subrange(0, j as int))
                            + concat_all(frag_texts(frag_views).subrange(0, m as int));
                        &&& concat_all(side_texts(rv, DiffStatus::Added)) == concat_all(
                            piece_side_texts(done, DiffStatus::Added),
                        ) + if status != DiffStatus::Added {
                            part
                        } else {
                            Seq::empty()
                        }
                        &&& concat_all(side_texts(rv, DiffStatus::Removed)) == concat_all(
                            piece_side_texts(done, DiffStatus::Removed),
                        ) + if status != DiffStatus::Removed {
                            part
                        } else {
                            Seq::empty()
                        }
                        &&& forall|k: int| 0 <= k < rv.len() ==> nl_only_at_end((#[trigger] rv[k]).0)
                        &&& forall|k: int| 0 <= k < rv.len() ==> (#[trigger] rv[k]).0.len() > 0
                        &&& (src_highlights.view().len() == 0 && dst_highlights.view().len() == 0
                            ==> forall|k: int| 0 <= k < r@.len() ==> (#[trigger] r@[k]).class
                            is None)
                        &&& (hl_empty ==> rv == plain_fragments_of(gpieces.subrange(0, i as int))
                            + plain_piece_fragments(gpieces[i as int]).subrange(0, j as int)
                            + frag_views.subrange(0, m as int))
                    }),
                    hl_empty == (src_highlights.view().len() == 0 && dst_highlights.view().len()
                        == 0),
                    i < pieces@.len(),
                    gpieces.len() == pieces@.len(),
                    j < subs.deep_view().len(),
                    sub_view == subs.deep_view()[j as int],
                    subs.deep_view() == split_incl(piece_text),
                    piece_text == gpieces[i as int].1,
                    status == gpieces[i as int].0,
                    hl_empty ==> frag_views == seq![(sub_view, status, None::<Seq<Seq<char>>>)],
                decreases frags@.len() - m,
            {
                let f = &frags[m];
                let copied = Fragment {
                    text: f.text.clone(),
                    status: f.status,
                    class: match &f.class {
                        Some(c) => Some(c.clone()),
                        None => None,
                    },
                };
                proof {
                    assert(frag_view(frags@[m as int]) == frag_views[m as int]);
                    assert(frag_view(copied) == frag_views[m as int]);
                }
                let ghost old_rv = r@.map_values(|f: Fragment| frag_view(f));
                r.push(copied);
                proof {
                    let rv = r@.map_values(|f: Fragment| frag_view(f));
                    assert(rv =~= old_rv.push(frag_views[m as int]));
                    assert(rv.drop_last() =~= old_rv);
                    lemma_side_push(old_rv, frag_views[m as int], DiffStatus::Added);
                    lemma_side_push(old_rv, frag_views[m as int], DiffStatus::Removed);
                    assert(frag_texts(frag_views).subrange(0, m + 1 as int).drop_last()
                        =~= frag_texts(frag_views).subrange(0, m as int));
                    assert(concat_all(frag_texts(frag_views).subrange(0, m + 1 as int))
                        == concat_all(frag_texts(frag_views).subrange(0, m as int))
                        + frag_views[m as int].0);
                    assert forall|k: int| 0 <= k < rv.len() implies nl_only_at_end(
                        (#[trigger] rv[k]).0,
                    ) && rv[k].0.len() > 0 by {
                        if k < old_rv.len() {
                            assert(rv[k] == old_rv[k]);
                        } else {
                            assert(rv[k] == frag_views[m as int]);
                        }
                    }
                    if hl_empty {
                        assert(frag_views.subrange(0, m + 1 as int) =~= frag_views.subrange(
                            0,
                            m as int,
                        ).push(frag_views[m as int]));
                        assert(rv =~= plain_fragments_of(gpieces.subrange(0, i as int))
                            + plain_piece_fragments(gpieces[i as int]).subrange(0, j as int)
                            + frag_views.subrange(0, m + 1 as int));
                    }
                }
                m += 1;
            }
            proof {
                assert(frag_texts(frag_views).subrange(0, frag_views.len() as int) =~= frag_texts(
                    frag_views,
                ));
                assert(subs.deep_view().subrange(0, j + 1 as int).drop_last() =~= subs.deep_view()
                    .subrange(0, j as int));
                assert(concat_all(subs.deep_view().subrange(0, j + 1 as int)) == concat_all(
                    subs.deep_view().subrange(0, j as int),
                ) + sub_view);
                if hl_empty {
                    let ppf = plain_piece_fragments(gpieces[i as int]);
                    assert(frag_views.subrange(0, frag_views.len() as int) =~= frag_views);
                    assert(ppf[j as int] == (sub_view, status, None::<Seq<Seq<char>>>)) by {
                        assert(split_incl(piece_text)[j as int] == sub_view);
                    }
                    assert(ppf.subrange(0, j + 1 as int) =~= ppf.subrange(0, j as int).push(
                        ppf[j as int],
                    ));
                    assert(frag_views =~= seq![ppf[j as int]]);
                    assert(r@.map_values(|f: Fragment| frag_view(f)) =~= plain_fragments_of(
                        gpieces.subrange(0, i as int),
                    ) + ppf.subrange(0, j + 1 as int));
                }
            }
            j += 1;
        }
        proof {
            assert(subs.deep_view().subrange(0, subs@.len() as int) =~= subs.deep_view());
            if hl_empty {
                let ppf = plain_piece_fragments(gpieces[i as int]);
                assert(ppf.len() == subs.deep_view().len());
                assert(ppf.subrange(0, subs@.len() as int) =~= ppf);
                assert(plain_fragments_of(gpieces.subrange(0, i + 1 as int))
                    == plain_fragments_of(gpieces.subrange(0, i + 1 as int).drop_last())
                    + plain_piece_fragments(gpieces.subrange(0, i + 1 as int).last()));
                assert(gpieces.subrange(0, i + 1 as int).drop_last() =~= gpieces.subrange(
                    0,
                    i as int,
                ));
                assert(gpieces.subrange(0, i + 1 as int).last() == gpieces[i as int]);
                assert(r@.map_values(|f: Fragment| frag_view(f)) =~= plain_fragments_of(
                    gpieces.subrange(0, i + 1 as int),
                ));
            }
            assert(gpieces.subrange(0, i + 1 as int).drop_last() =~= gpieces.subrange(0, i as int));
            assert(gpieces.subrange(0, i + 1 as int).last() == gpieces[i as int]);
            assert(gpieces.subrange(0, i + 1 as int) =~= gpieces.subrange(0, i as int).push(
                gpieces[i as int],
            ));
            lemma_piece_side_push(
                gpieces.subrange(0, i as int),
                gpieces[i as int],
                DiffStatus::Added,
            );
            lemma_piece_side_push(
                gpieces.subrange(0, i as int),
                gpieces[i as int],
                DiffStatus::Removed,
            );
        }
        i += 1;
    }
    proof {
        assert(gpieces.subrange(0, pieces@.len() as int) =~= gpieces);
    }
    r
}

/// One more fragment extends a side's text by its own, unless it sits on
/// the dropped side.
proof fn lemma_side_push(fs: Seq<FragView>, f: FragView, dropped: DiffStatus)
    ensures
        concat_all(side_texts(fs.push(f), dropped)) == concat_all(side_texts(fs, dropped)) + if f.1
            != dropped {
            f.0
        } else {
            Seq::empty()
        },
{
    assert(fs.push(f).drop_last() =~= fs);
    assert(fs.push(f).last() == f);
    if f.1 != dropped {
        let st = side_texts(fs, dropped);
        assert(side_texts(fs.push(f), dropped) == st + seq![f.0]);
        assert(st + seq![f.0] =~= st.push(f.0));
        assert(st.push(f.0).drop_last() =~= st);
        assert(st.push(f.0).last() == f.0);
        assert(concat_all(st.push(f.0)) == concat_all(st) + f.0);
    } else {
        assert(side_texts(fs.push(f), dropped) =~= side_texts(fs, dropped));
        assert(concat_all(side_texts(fs, dropped)) + Seq::<char>::empty() =~= concat_all(
            side_texts(fs, dropped),
        ));
    }
}

proof fn lemma_piece_side_push(
    ps: Seq<(DiffStatus, Seq<char>)>,
    p: (DiffStatus, Seq<char>),
    dropped: DiffStatus,
)
    ensures
        concat_all(piece_side_texts(ps.push(p), dropped)) == concat_all(piece_side_texts(ps, dropped))
            + if p.0 != dropped {
            p.1
        } else {
            Seq::empty()
        },
{
    assert(ps.push(p).drop_last() =~= ps);
    assert(ps.push(p).last() == p);
    if p.0 != dropped {
        let st = piece_side_texts(ps, dropped);
        assert(piece_side_texts(ps.push(p), dropped) == st + seq![p.1]);
        assert(st + seq![p.1] =~= st.push(p.1));
        assert(st.push(p.1).drop_last() =~= st);
        assert(st.push(p.1).last() == p.1);
        assert(concat_all(st.push(p.1)) == concat_all(st) + p.1);
    } else {
        assert(piece_side_texts(ps.push(p), dropped) =~= piece_side_texts(ps, dropped));
        assert(concat_all(piece_side_texts(ps, dropped)) + Seq::<char>::empty() =~= concat_all(
            piece_side_texts(ps, dropped),
        ));
    }
}

/// How many grouped lines one side's fragments split into: one per raw
/// line text, except that a final empty raw line of a multi-line block
/// closes with the newline before it and gets no grouped line of its
/// own — the word diff restores that line afterwards.
pub open spec fn expected_line_count(texts: Seq<Seq<char>>) -> int {
    if texts.len() > 1 && texts.last().len() == 0 {
        texts.len() - 1
    } else {
        texts.len() as int
    }
}

/// Keep the fragments of one side of a word diff: all but those whose
/// status is `dropped`.
fn keep_side(frags: &Vec<Fragment>, dropped: DiffStatus) -> (r: Vec<Fragment>)
    ensures
        ({
            let rv = r@.map_values(|f: Fragment| frag_view(f));
            let fv = frags@.map_values(|f: Fragment| frag_view(f));
            &&& frag_texts(rv) == side_texts(fv, dropped)
            &&& forall|i: int| 0 <= i < rv.len() ==> (#[trigger] rv[i]).1 != dropped
            &&& forall|i: int|
                0 <= i < r@.len() ==> exists|j: int|
                    0 <= j < frags@.len() && frag_view(#[trigger] r@[i]) == frag_view(frags@[j])
        }),
{
    let ghost fv = frags@.map_values(|f: Fragment| frag_view(f));
    let mut r: Vec<Fragment> = Vec::new();
    let mut i: usize = 0;
    proof {
        assert(fv.subrange(0, 0) =~= Seq::<FragView>::empty());
        assert(frag_texts(r@.map_values(|f: Fragment| frag_view(f))) =~= Seq::<Seq<char>>::empty());
    }
    while i < frags.len()
        invariant
            i <= frags@.len(),
            fv == frags@.map_values(|f: Fragment| frag_view(f)),
            fv.len() == frags@.len(),
            frag_texts(r@.map_values(|f: Fragment| frag_view(f))) == side_texts(
                fv.subrange(0, i as int),
                dropped,
            ),
            forall|k: int| 0 <= k < r@.len() ==> frag_view(#[trigger] r@[k]).1 != dropped,
            forall|k: int|
                0 <= k < r@.len() ==> exists|j: int|
                    0 <= j < frags@.len() && frag_view(#[trigger] r@[k]) == frag_view(frags@[j]),
        decreases frags@.len() - i,
    {
        let keep = match (frags[i].status, dropped) {
            (DiffStatus::Added, DiffStatus::Added) => false,
            (DiffStatus::Removed, DiffStatus::Removed) => false,
            (DiffStatus::Unmodified, DiffStatus::Unmodified) => false,
            _ => true,
        };
        proof {
            assert(frag_view(frags@[i as int]) == fv[i as int]);
            assert(keep == (fv[i as int].1 != dropped));
            assert(fv.subrange(0, i + 1 as int).drop_last() =~= fv.subrange(0, i as int));
            assert(fv.subrange(0, i + 1 as int).last() == fv[i as int]);
        }
        if keep {
            let f = &frags[i];
            let copied = Fragment {
                text: f.text.clone(),
                status: f.status,
                class: match &f.class {
                    Some(c) => Some(c.clone()),
                    None => None,
                },
            };
            let ghost old_rv = r@.map_values(|f: Fragment| frag_view(f));
            proof {
                assert(frag_view(copied) == fv[i as int]);
            }
            r.push(copied);
            proof {
                let rv = r@.map_values(|f: Fragment| frag_view(f));
                assert(rv =~= old_rv.push(fv[i as int]));
                assert(frag_texts(rv) =~= frag_texts(old_rv).push(fv[i as int].0));
                assert(side_texts(fv.subrange(0, i + 1 as int), dropped) == side_texts(
                    fv.subrange(0, i as int),
                    dropped,
                ) + seq![fv[i as int].0]);
                assert(frag_texts(old_rv).push(fv[i as int].0) =~= frag_texts(old_rv) + seq![
                    fv[i as int].0,
                ]);
            }
        } else {
            proof {
                assert(side_texts(fv.subrange(0, i + 1 as int), dropped) =~= side_texts(
                    fv.subrange(0, i as int),
                    dropped,
                ));
            }
        }
        i += 1;
    }
    proof {
        assert(fv.subrange(0, frags@.len() as int) =~= fv);
    }
    r
}

/// The word diff of one paired-change block: the removed and added line
/// texts are joined with newlines, diffed token by token, and cut back
/// into per-line fragment runs for each side. Every produced line's
/// fragments spell out exactly its raw line text.
#[verifier::rlimit(100)]
pub fn word_diff_section(
    removed_texts: &Vec<String>,
    added_texts: &Vec<String>,
    src_pos: usize,
    dst_pos: usize,
    src_highlights: &Highlights,
    dst_highlights: &Highlights,
) -> (r: (Vec<Vec<Fragment>>, Vec<Vec<Fragment>>))
    requires
        src_highlights.wf(),
        dst_highlights.wf(),
        removed_texts@.len() >= 1,
        added_texts@.len() >= 1,
        forall|i: int|
            0 <= i < removed_texts@.len() ==> !crate::text::seq_contains_char(
                #[trigger] removed_texts.deep_view()[i],
                '\n',
            ),
        forall|i: int|
            0 <= i < added_texts@.len() ==> !crate::text::seq_contains_char(
                #[trigger] added_texts.deep_view()[i],
                '\n',
            ),
    ensures
        r.0@.len() == removed_texts@.len(),
        r.1@.len() == added_texts@.len(),
        forall|i: int|
            0 <= i < r.0@.len() ==> concat_all(
                frag_texts((#[trigger] r.0@[i])@.map_values(|f: Fragment| frag_view(f))),
            ) == removed_texts.deep_view()[i],
        forall|i: int|
            0 <= i < r.1@.len() ==> concat_all(
                frag_texts((#[trigger] r.1@[i])@.map_values(|f: Fragment| frag_view(f))),
            ) == added_texts.deep_view()[i],
        forall|i: int, j: int|
            0 <= i < r.0@.len() && 0 <= j < r.0@[i]@.len() ==> (#[trigger] r.0@[i]@[j]).status
                != DiffStatus::Added,
        forall|i: int, j: int|
            0 <= i < r.1@.len() && 0 <= j < r.1@[i]@.len() ==> (#[trigger] r.1@[i]@[j]).status
                != DiffStatus::Removed,
        src_highlights.view().len() == 0 && dst_highlights.view().len() == 0 ==> forall|
            i: int,
            j: int,
        |
            0 <= i < r.0@.len() && 0 <= j < r.0@[i]@.len() ==> (#[trigger] r.0@[i]@[j]).class
                is None,
        src_highlights.view().len() == 0 && dst_highlights.view().len() == 0 ==> forall|
            i: int,
            j: int,
        |
            0 <= i < r.1@.len() && 0 <= j < r.1@[i]@.len() ==> (#[trigger] r.1@[i]@[j]).class
                is None,
{
    proof {
        reveal_strlit("\n");
        assert("\n"@ =~= seq!['\n']);
    }
    let removed_join = crate::text::join_strings(removed_texts, "\n");
    let added_join = crate::text::join_strings(added_texts, "\n");
    let removed_tokens = tokenize_code(removed_join.as_str());
    let added_tokens = tokenize_code(added_join.as_str());
    let pieces = token_diff(
        removed_join.as_str(),
        added_join.as_str(),
        &removed_tokens,
        &added_tokens,
    );
    let frags = section_fragments(&pieces, src_pos, dst_pos, src_highlights, dst_highlights);
    let removed_kept = keep_side(&frags, DiffStatus::Added);
    let added_kept = keep_side(&frags, DiffStatus::Removed);
    let mut removed_lines = split_fragments_into_lines(&removed_kept);
    let mut added_lines = split_fragments_into_lines(&added_kept);
    proof {
        let all_v = frags@.map_values(|f: Fragment| frag_view(f));
        let rk_v = removed_kept@.map_values(|f: Fragment| frag_view(f));
        let ak_v = added_kept@.map_values(|f: Fragment| frag_view(f));
        assert forall|i: int| 0 <= i < rk_v.len() implies exists|j: int|
            0 <= j < all_v.len() && #[trigger] rk_v[i] == all_v[j] by {
            let j = choose|j: int|
                0 <= j < frags@.len() && frag_view(removed_kept@[i]) == frag_view(frags@[j]);
            assert(rk_v[i] == frag_view(removed_kept@[i]));
            assert(all_v[j] == frag_view(frags@[j]));
            assert(0 <= j < all_v.len() && rk_v[i] == all_v[j]);
        }
        assert forall|i: int| 0 <= i < ak_v.len() implies exists|j: int|
            0 <= j < all_v.len() && #[trigger] ak_v[i] == all_v[j] by {
            let j = choose|j: int|
                0 <= j < frags@.len() && frag_view(added_kept@[i]) == frag_view(frags@[j]);
            assert(ak_v[i] == frag_view(added_kept@[i]));
            assert(all_v[j] == frag_view(frags@[j]));
            assert(0 <= j < all_v.len() && ak_v[i] == all_v[j]);
        }
        lemma_side_reassembles(
            frags@.map_values(|f: Fragment| frag_view(f)),
            removed_kept@.map_values(|f: Fragment| frag_view(f)),
            removed_lines@.map_values(
                |line: Vec<Fragment>| line@.map_values(|f: Fragment| frag_view(f)),
            ),
            removed_texts.deep_view(),
            DiffStatus::Added,
        );
        lemma_side_reassembles(
            frags@.map_values(|f: Fragment| frag_view(f)),
            added_kept@.map_values(|f: Fragment| frag_view(f)),
            added_lines@.map_values(
                |line: Vec<Fragment>| line@.map_values(|f: Fragment| frag_view(f)),
            ),
            added_texts.deep_view(),
            DiffStatus::Removed,
        );
        let rl_v = removed_lines@.map_values(
            |line: Vec<Fragment>| line@.map_values(|f: Fragment| frag_view(f)),
        );
        let al_v = added_lines@.map_values(
            |line: Vec<Fragment>| line@.map_values(|f: Fragment| frag_view(f)),
        );
        assert forall|i: int| 0 <= i < removed_lines@.len() implies concat_all(
            frag_texts((#[trigger] removed_lines@[i])@.map_values(|f: Fragment| frag_view(f))),
        ) == removed_texts.deep_view()[i] by {
            assert(rl_v[i] == removed_lines@[i]@.map_values(|f: Fragment| frag_view(f)));
        }
        assert forall|i: int| 0 <= i < added_lines@.len() implies concat_all(
            frag_texts((#[trigger] added_lines@[i])@.map_values(|f: Fragment| frag_view(f))),
        ) == added_texts.deep_view()[i] by {
            assert(al_v[i] == added_lines@[i]@.map_values(|f: Fragment| frag_view(f)));
        }
        assert forall|i: int, j: int|
            0 <= i < removed_lines@.len() && 0 <= j < removed_lines@[i]@.len() implies (
        #[trigger] removed_lines@[i]@[j]).status != DiffStatus::Added by {
            lemma_group_status(
                removed_kept@.map_values(|f: Fragment| frag_view(f)),
                removed_kept@.len() as int,
                DiffStatus::Added,
            );
            let lv = removed_lines@.map_values(
                |line: Vec<Fragment>| line@.map_values(|f: Fragment| frag_view(f)),
            );
            assert(lv[i][j] == frag_view(removed_lines@[i]@[j]));
        }
        if src_highlights.view().len() == 0 && dst_highlights.view().len() == 0 {
            assert forall|i: int| 0 <= i < rk_v.len() implies (#[trigger] rk_v[i]).2 is None by {
                let j = choose|j: int| 0 <= j < all_v.len() && rk_v[i] == all_v[j];
                assert(all_v[j] == frag_view(frags@[j]));
                assert(frags@[j].class is None);
            }
            assert forall|i: int| 0 <= i < ak_v.len() implies (#[trigger] ak_v[i]).2 is None by {
                let j = choose|j: int| 0 <= j < all_v.len() && ak_v[i] == all_v[j];
                assert(all_v[j] == frag_view(frags@[j]));
                assert(frags@[j].class is None);
            }
            lemma_group_class_none(rk_v, rk_v.len() as int);
            lemma_group_class_none(ak_v, ak_v.len() as int);
            assert forall|i: int, j: int|
                0 <= i < removed_lines@.len() && 0 <= j < removed_lines@[i]@.len() implies (
            #[trigger] removed_lines@[i]@[j]).class is None by {
                assert(rl_v[i] == removed_lines@[i]@.map_values(|f: Fragment| frag_view(f)));
                assert(rl_v[i][j] == frag_view(removed_lines@[i]@[j]));
                assert(rl_v[i][j].2 is None);
            }
            assert forall|i: int, j: int|
                0 <= i < added_lines@.len() && 0 <= j < added_lines@[i]@.len() implies (
            #[trigger] added_lines@[i]@[j]).class is None by {
                assert(al_v[i] == added_lines@[i]@.map_values(|f: Fragment| frag_view(f)));
                assert(al_v[i][j] == frag_view(added_lines@[i]@[j]));
                assert(al_v[i][j].2 is None);
            }
        }
        assert forall|i: int, j: int|
            0 <= i < added_lines@.len() && 0 <= j < added_lines@[i]@.len() implies (
        #[trigger] added_lines@[i]@[j]).status != DiffStatus::Removed by {
            lemma_group_status(
                added_kept@.map_values(|f: Fragment| frag_view(f)),
                added_kept@.len() as int,
                DiffStatus::Removed,
            );
            let lv = added_lines@.map_values(
                |line: Vec<Fragment>| line@.map_values(|f: Fragment| frag_view(f)),
            );
            assert(lv[i][j] == frag_view(added_lines@[i]@[j]));
        }
    }
    // A block whose last raw line is empty closes its final grouped line
    // with the newline before it; give that empty raw line its own
    // (empty) line record, so each side yields one line per raw line.
    let ghost old_rl = removed_lines@;
    if removed_lines.len() < removed_texts.len() {
        removed_lines.push(Vec::new());
        proof {
            assert(expected_line_count(removed_texts.deep_view()) < removed_texts@.len());
            assert(removed_texts.deep_view()[removed_texts@.len() - 1].len() == 0);
            assert(removed_lines@.drop_last() =~= old_rl);
            assert(removed_lines@.last()@.map_values(|f: Fragment| frag_view(f)) =~= Seq::<
                FragView,
            >::empty());
        }
    }
    proof {
        assert forall|i: int| 0 <= i < removed_lines@.len() implies concat_all(
            frag_texts((#[trigger] removed_lines@[i])@.map_values(|f: Fragment| frag_view(f))),
        ) == removed_texts.deep_view()[i] by {
            if i < old_rl.len() {
                assert(removed_lines@[i] == old_rl[i]);
            } else {
                assert(frag_texts(removed_lines@[i]@.map_values(|f: Fragment| frag_view(f))) =~= Seq::<
                    Seq<char>,
                >::empty());
            }
        }
        assert forall|i: int, j: int|
            0 <= i < removed_lines@.len() && 0 <= j < removed_lines@[i]@.len() implies (
        #[trigger] removed_lines@[i]@[j]).status != DiffStatus::Added by {
            if i < old_rl.len() {
                assert(removed_lines@[i] == old_rl[i]);
            }
        }
        if src_highlights.view().len() == 0 && dst_highlights.view().len() == 0 {
            assert forall|i: int, j: int|
                0 <= i < removed_lines@.len() && 0 <= j < removed_lines@[i]@.len() implies (
            #[trigger] removed_lines@[i]@[j]).class is None by {
                if i < old_rl.len() {
                    assert(removed_lines@[i] == old_rl[i]);
                }
            }
        }
    }
    let ghost old_al = added_lines@;
    if added_lines.len() < added_texts.len() {
        added_lines.push(Vec::new());
        proof {
            assert(expected_line_count(added_texts.deep_view()) < added_texts@.len());
            assert(added_texts.deep_view()[added_texts@.len() - 1].len() == 0);
            assert(added_lines@.drop_last() =~= old_al);
            assert(added_lines@.last()@.map_values(|f: Fragment| frag_view(f)) =~= Seq::<
                FragView,
            >::empty());
        }
    }
    proof {
        assert forall|i: int| 0 <= i < added_lines@.len() implies concat_all(
            frag_texts((#[trigger] added_lines@[i])@.map_values(|f: Fragment| frag_view(f))),
        ) == added_texts.deep_view()[i] by {
            if i < old_al.len() {
                assert(added_lines@[i] == old_al[i]);
            } else {
                assert(frag_texts(added_lines@[i]@.map_values(|f: Fragment| frag_view(f))) =~= Seq::<
                    Seq<char>,
                >::empty());
            }
        }
        assert forall|i: int, j: int|
            0 <= i < added_lines@.len() && 0 <= j < added_lines@[i]@.len() implies (
        #[trigger] added_lines@[i]@[j]).status != DiffStatus::Removed by {
            if i < old_al.len() {
                assert(added_lines@[i] == old_al[i]);
            }
        }
        if src_highlights.view().len() == 0 && dst_highlights.view().len() == 0 {
            assert forall|i: int, j: int|
                0 <= i < added_lines@.len() && 0 <= j < added_lines@[i]@.len() implies (
            #[trigger] added_lines@[i]@[j]).class is None by {
                if i < old_al.len() {
                    assert(added_lines@[i] == old_al[i]);
                }
            }
        }
    }
    (removed_lines, added_lines)
}

/// The kept side's fragments, grouped at newlines, reassemble the side's
/// raw line texts.
#[verifier::rlimit(100)]
proof fn lemma_side_reassembles(
    all: Seq<FragView>,
    kept: Seq<FragView>,
    lines: Seq<Seq<FragView>>,
    texts: Seq<Seq<char>>,
    dropped: DiffStatus,
)
    requires
        texts.len() >= 1,
        forall|i: int| 0 <= i < texts.len() ==> !crate::text::seq_contains_char(#[trigger] texts[i], '\n'),
        frag_texts(kept) == side_texts(all, dropped),
        concat_all(side_texts(all, dropped)) == join_with(texts, seq!['\n']),
        forall|i: int| 0 <= i < all.len() ==> nl_only_at_end((#[trigger] all[i]).0),
        forall|i: int| 0 <= i < all.len() ==> (#[trigger] all[i]).0.len() > 0,
        forall|i: int|
            0 <= i < kept.len() ==> exists|j: int|
                0 <= j < all.len() && #[trigger] kept[i] == all[j],
        lines == group_lines_upto(kept, kept.len() as int),
    ensures
        lines.len() == expected_line_count(texts),
        forall|i: int|
            0 <= i < lines.len() ==> concat_all(frag_texts(#[trigger] lines[i])) == texts[i],
{
    let join = join_with(texts, seq!['\n']);
    crate::text::lemma_join_last(texts, '\n');
    crate::text::lemma_split_join(texts, '\n');
    assert(split_on(join, '\n') == texts);
    assert forall|i: int| 0 <= i < kept.len() implies nl_only_at_end((#[trigger] kept[i]).0)
        && kept[i].0.len() > 0 by {
        let j = choose|j: int| 0 <= j < all.len() && kept[i] == all[j];
        assert(nl_only_at_end(all[j].0));
    }
    lemma_group_lines_texts(kept, kept.len() as int);
    assert(concat_all(frag_texts(kept)) == join) by {
        assert(kept.subrange(0, kept.len() as int) =~= kept);
    }
    assert(frag_texts(kept.subrange(0, kept.len() as int)) =~= frag_texts(kept));
    if kept.len() == 0 {
        assert(join.len() == 0) by {
            assert(frag_texts(kept) =~= Seq::<Seq<char>>::empty());
        }
        assert(texts.len() == 1 && texts.last().len() == 0) by {
            if texts.last().len() > 0 || texts.len() > 1 {
                assert(join.len() > 0);
            }
        }
        assert(expected_line_count(texts) == 1);
        assert(lines.len() == 1);
        assert(lines[0] =~= Seq::<FragView>::empty());
        assert(concat_all(frag_texts(lines[0])) =~= Seq::<char>::empty());
        assert(texts[0].len() == 0);
        assert(concat_all(frag_texts(lines[0])) =~= texts[0]);
    } else {
        // The last kept fragment's final character is the join's final
        // character, deciding whether a line stays open at the end.
        let ct = frag_texts(kept);
        assert(concat_all(ct) == concat_all(ct.drop_last()) + ct.last());
        assert(ct.last() == kept.last().0);
        assert(kept.last().0.len() > 0) by {
            assert(kept[kept.len() - 1].0.len() > 0);
        }
        assert(join.len() > 0);
        assert(join.last() == kept.last().0.last()) by {
            assert((concat_all(ct.drop_last()) + ct.last()).last() == ct.last().last());
        }
        if texts.last().len() > 0 {
            assert(join.last() == texts.last().last());
            assert(!ends_nl(kept.last().0)) by {
                assert(texts.last().last() != '\n') by {
                    assert(!crate::text::seq_contains_char(texts[texts.len() - 1], '\n'));
                    if texts.last().last() == '\n' {
                        assert(texts[texts.len() - 1][texts.last().len() - 1] == '\n');
                    }
                }
            }
            assert(lines.len() == texts.len());
            assert(expected_line_count(texts) == texts.len());
        } else {
            if texts.len() == 1 {
                assert(join.len() == 0);
                assert(false);
            }
            assert(join.last() == '\n');
            assert(ends_nl(kept.last().0));
            assert(lines.len() == texts.len() - 1);
            assert(expected_line_count(texts) == texts.len() - 1);
        }
    }
}

/// When no fragment carries a class, no grouped fragment does either.
proof fn lemma_group_class_none(frags: Seq<FragView>, k: int)
    requires
        0 <= k <= frags.len(),
        forall|i: int| 0 <= i < frags.len() ==> (#[trigger] frags[i]).2 is None,
    ensures
        forall|i: int, j: int|
            0 <= i < group_lines_upto(frags, k).len() && 0 <= j < group_lines_upto(
                frags,
                k,
            )[i].len() ==> (#[trigger] group_lines_upto(frags, k)[i][j]).2 is None,
    decreases k,
{
    if k > 0 {
        lemma_group_class_none(frags, k - 1);
        lemma_group_lines_nonempty(frags, k - 1);
        let prev = group_lines_upto(frags, k - 1);
        let f = frags[k - 1];
        assert(strip_frag_nl(f).2 == f.2);
        let appended = prev.update(prev.len() - 1, prev.last().push(strip_frag_nl(f)));
        assert forall|i: int, j: int|
            0 <= i < appended.len() && 0 <= j < appended[i].len() implies (
        #[trigger] appended[i][j]).2 is None by {
            if i < appended.len() - 1 {
                assert(appended[i] == prev[i]);
            } else {
                assert(appended[i] == prev.last().push(strip_frag_nl(f)));
                if j < prev.last().len() {
                    assert(appended[i][j] == prev[prev.len() - 1][j]);
                } else {
                    assert(appended[i][j] == strip_frag_nl(f));
                }
            }
        }
    }
}

/// Grouped lines only hold fragments drawn from the input list, so their
/// statuses are the input statuses.
proof fn lemma_group_status(frags: Seq<FragView>, k: int, dropped: DiffStatus)
    requires
        0 <= k <= frags.len(),
        forall|i: int| 0 <= i < frags.len() ==> (#[trigger] frags[i]).1 != dropped,
    ensures
        forall|i: int, j: int|
            0 <= i < group_lines_upto(frags, k).len() && 0 <= j < group_lines_upto(
                frags,
                k,
            )[i].len() ==> (#[trigger] group_lines_upto(frags, k)[i][j]).1 != dropped,
    decreases k,
{
    if k > 0 {
        lemma_group_status(frags, k - 1, dropped);
        lemma_group_lines_nonempty(frags, k - 1);
        let prev = group_lines_upto(frags, k - 1);
        let f = frags[k - 1];
        assert(strip_frag_nl(f).1 == f.1);
        let appended = prev.update(prev.len() - 1, prev.last().push(strip_frag_nl(f)));
        assert forall|i: int, j: int|
            0 <= i < appended.len() && 0 <= j < appended[i].len() implies (
        #[trigger] appended[i][j]).1 != dropped by {
            if i < appended.len() - 1 {
                assert(appended[i] == prev[i]);
            } else {
                assert(appended[i] == prev.last().push(strip_frag_nl(f)));
                if j < prev.last().len() {
                    assert(appended[i][j] == prev[prev.len() - 1][j]);
                } else {
                    assert(appended[i][j] == strip_frag_nl(f));
                }
            }
        }
    }
}

/// One rendered line of a diff: its fragments, its own status, and its
/// line number on each side where it exists.
#[derive(Debug, Clone, PartialEq, Eq)]
pub struct LineDiff {
    pub fragments: Vec<Fragment>,
    pub status: DiffStatus,
    /// None if status is Added
    pub src_line_number: Option<usize>,
    /// None if status is Removed
    pub dst_line_number: Option<usize>,
}

/// One rendered hunk: its raw header text and its lines, removed lines
/// directly followed by their paired added lines.
#[derive(Debug)]
pub struct DiffHunk {
    /// Raw header text, or None if the whole file was requested
    pub header: Option<String>,
    pub lines: Vec<LineDiff>,
}

/// The rendered diff of one file.
#[derive(Debug)]
pub struct FileDiff(pub Vec<DiffHunk>);

/// A rendered line is faithful to the file texts: its line numbers fit
/// its status, and its fragments' texts run together to exactly the raw
/// line text of the right revision.
/// The status and line numbers of one rendered line.
pub type LineShape = (DiffStatus, Option<usize>, Option<usize>);

pub open spec fn line_shape(l: LineDiff) -> LineShape {
    (l.status, l.src_line_number, l.dst_line_number)
}

/// The lines one section yields, in order: one per recorded number, with
/// its status and sides; a paired-change section yields all its removed
/// lines first, then all its added lines.
pub open spec fn section_shapes(sec: crate::file_diff_meta::SectionView) -> Seq<LineShape> {
    match sec {
        crate::file_diff_meta::SectionView::Unmodified(pairs) => pairs.map_values(
            |p: (usize, usize)| (DiffStatus::Unmodified, Some(p.0), Some(p.1)),
        ),
        crate::file_diff_meta::SectionView::Added(ls) => ls.map_values(
            |l: usize| (DiffStatus::Added, None::<usize>, Some(l)),
        ),
        crate::file_diff_meta::SectionView::Removed(ls) => ls.map_values(
            |l: usize| (DiffStatus::Removed, Some(l), None::<usize>),
        ),
        crate::file_diff_meta::SectionView::RemovedAdded(rs, ads) => rs.map_values(
            |l: usize| (DiffStatus::Removed, Some(l), None::<usize>),
        ) + ads.map_values(|l: usize| (DiffStatus::Added, None::<usize>, Some(l))),
    }
}

/// The lines a hunk yields: its sections' lines, in section order.
pub open spec fn sections_shapes(secs: Seq<crate::file_diff_meta::SectionView>) -> Seq<LineShape>
    decreases secs.len(),
{
    if secs.len() == 0 {
        Seq::empty()
    } else {
        sections_shapes(secs.drop_last()) + section_shapes(secs.last())
    }
}

pub open spec fn line_ok(l: LineDiff, src: Option<Seq<char>>, dst: Option<Seq<char>>) -> bool {
    let lt = concat_all(frag_texts(l.fragments@.map_values(|f: Fragment| frag_view(f))));
    match l.status {
        DiffStatus::Unmodified => {
            &&& l.src_line_number is Some
            &&& l.dst_line_number is Some
            &&& dst is Some
            &&& 1 <= l.dst_line_number->0 <= lines_of(dst->0).len()
            &&& lt == lines_of(dst->0)[l.dst_line_number->0 - 1]
        },
        DiffStatus::Added => {
            &&& l.src_line_number is None
            &&& l.dst_line_number is Some
            &&& dst is Some
            &&& 1 <= l.dst_line_number->0 <= lines_of(dst->0).len()
            &&& lt == lines_of(dst->0)[l.dst_line_number->0 - 1]
        },
        DiffStatus::Removed => {
            &&& l.src_line_number is Some
            &&& l.dst_line_number is None
            &&& src is Some
            &&& 1 <= l.src_line_number->0 <= lines_of(src->0).len()
            &&& lt == lines_of(src->0)[l.src_line_number->0 - 1]
        },
    }
}

/// A section's line numbers fit the file revisions on hand: the needed
/// side exists and every number names one of its lines; a paired-change
/// section names at least one line on each side.
pub open spec fn section_fits(
    sec: crate::file_diff_meta::SectionView,
    src: Option<Seq<char>>,
    dst: Option<Seq<char>>,
) -> bool {
    match sec {
        crate::file_diff_meta::SectionView::Unmodified(pairs) => src is Some && dst is Some
            && pairs_in_bounds(pairs, src->0, dst->0),
        crate::file_diff_meta::SectionView::Added(ls) => dst is Some && numbers_in_bounds(
            ls,
            dst->0,
        ),
        crate::file_diff_meta::SectionView::Removed(ls) => src is Some && numbers_in_bounds(
            ls,
            src->0,
        ),
        crate::file_diff_meta::SectionView::RemovedAdded(rs, ads) => src is Some && dst is Some
            && rs.len() >= 1 && ads.len() >= 1 && numbers_in_bounds(rs, src->0)
            && numbers_in_bounds(ads, dst->0),
    }
}

/// Every listed line number names a line of the text.
pub open spec fn numbers_in_bounds(ls: Seq<usize>, text: Seq<char>) -> bool {
    forall|i: int| 0 <= i < ls.len() ==> 1 <= #[trigger] ls[i] <= lines_of(text).len()
}

/// Every listed pair names a line of each text.
pub open spec fn pairs_in_bounds(pairs: Seq<(usize, usize)>, src: Seq<char>, dst: Seq<char>) -> bool {
    forall|i: int|
        0 <= i < pairs.len() ==> 1 <= (#[trigger] pairs[i]).0 <= lines_of(src).len() && 1
            <= pairs[i].1 <= lines_of(dst).len()
}

/// Every section of every hunk fits the file revisions on hand.
pub open spec fn meta_fits(
    hunks: Seq<crate::file_diff_meta::HunkView>,
    src: Option<Seq<char>>,
    dst: Option<Seq<char>>,
) -> bool {
    forall|h: int, s: int|
        0 <= h < hunks.len() && 0 <= s < (#[trigger] hunks[h]).sections.len() ==> section_fits(
            #[trigger] hunks[h].sections[s],
            src,
            dst,
        )
}

pub open spec fn opt_text_view(o: Option<String>) -> Option<Seq<char>> {
    match o {
        Some(s) => Some(s@),
        None => None,
    }
}

/// The char offset at which line `k` (0-based) begins: past `k` earlier
/// lines and their newlines.
pub open spec fn line_start_offset(parts: Seq<Seq<char>>, k: int) -> int
    decreases k,
{
    if k <= 0 {
        0
    } else {
        line_start_offset(parts, k - 1) + parts[k - 1].len() + 1
    }
}

/// The `[start, end)` char span of one line within its file text:
/// `line_number` is 1-based, and the span excludes the line terminator.
#[verifier::rlimit(100)]
pub fn line_number_range(line_number: usize, file: &str) -> (r: (usize, usize))
    requires
        1 <= line_number,
        line_number <= lines_of(file@).len(),
    ensures
        r.0 <= r.1 <= file@.len(),
        file@.subrange(r.0 as int, r.1 as int) == lines_of(file@)[line_number - 1],
        r.0 == line_start_offset(split_on(file@, '\n'), line_number - 1),
{
    let n = file.unicode_len();
    let ghost parts = split_on(file@, '\n');
    let mut pos: usize = 0;
    let mut k: usize = 0;
    proof {
        assert(file@.subrange(0, n as int) =~= file@);
        assert(parts.subrange(0, parts.len() as int) =~= parts);
        crate::text::lemma_split_on_basic(file@, '\n');
        assert(lines_of(file@).len() <= parts.len());
    }
    while k + 1 < line_number
        invariant
            k < line_number <= lines_of(file@).len(),
            n == file@.len(),
            parts == split_on(file@, '\n'),
            pos <= n,
            pos == line_start_offset(parts, k as int),
            split_on(file@.subrange(pos as int, n as int), '\n') == parts.subrange(
                k as int,
                parts.len() as int,
            ),
            lines_of(file@).len() <= parts.len(),
        decreases line_number - k,
    {
        let ghost suffix = file@.subrange(pos as int, n as int);
        let ghost rem = parts.subrange(k as int, parts.len() as int);
        proof {
            assert(split_on(suffix, '\n') == rem);
            assert(rem.len() >= 1);
        }
        let nl = match crate::text::find_char_from(file, '\n', pos) {
            Some(x) => x,
            None => {
                // A line before the requested one always ends in a newline.
                proof {
                    lemma_first_index_in_suffix(file@, '\n', pos as int, n as int);
                    assert(first_index_of(suffix, '\n') == suffix.len());
                    assert(split_on(suffix, '\n') == seq![suffix]);
                    assert(rem.len() == 1);
                    assert(parts.len() == k + 1);
                    assert(lines_of(file@).len() <= k + 1);
                    assert(false);
                }
                0
            },
        };
        proof {
            lemma_first_index_in_suffix(file@, '\n', pos as int, nl as int);
            assert(first_index_of(suffix, '\n') == nl - pos);
            assert(0 <= first_index_of(suffix, '\n') < suffix.len());
            let head = suffix.subrange(0, nl - pos);
            let stail = suffix.subrange(nl - pos + 1, suffix.len() as int);
            assert(split_on(suffix, '\n') == seq![head] + split_on(stail, '\n'));
            assert(stail =~= file@.subrange(nl + 1 as int, n as int));
            assert(rem[0] == (seq![head] + split_on(stail, '\n'))[0]);
            assert(rem[0] == parts[k as int]);
            assert(parts[k as int] == head);
            assert forall|j: int| 0 <= j < parts.len() - k - 1 implies parts.subrange(
                k + 1 as int,
                parts.len() as int,
            )[j] == split_on(stail, '\n')[j] by {
                assert(rem[j + 1] == (seq![head] + split_on(stail, '\n'))[j + 1]);
            }
            assert(split_on(stail, '\n').len() == rem.len() - 1);
            assert(split_on(file@.subrange(nl + 1 as int, n as int), '\n') =~= parts.subrange(
                k + 1 as int,
                parts.len() as int,
            ));
            assert(line_start_offset(parts, k + 1 as int) == line_start_offset(parts, k as int)
                + parts[k as int].len() + 1);
            assert(parts[k as int].len() == nl - pos);
        }
        pos = nl + 1;
        k += 1;
    }
    // The requested line runs to the next newline, or the file end.
    let ghost suffix = file@.subrange(pos as int, n as int);
    let ghost rem = parts.subrange(k as int, parts.len() as int);
    proof {
        assert(split_on(suffix, '\n') == rem);
        assert(rem.len() >= 1);
        assert(rem[0] == parts[k as int]);
    }
    let end_raw = match crate::text::find_char_from(file, '\n', pos) {
        Some(x) => x,
        None => n,
    };
    proof {
        lemma_first_index_in_suffix(file@, '\n', pos as int, end_raw as int);
        assert(first_index_of(suffix, '\n') == end_raw - pos);
        if end_raw < n {
            let head = suffix.subrange(0, end_raw - pos);
            let stail = suffix.subrange(end_raw - pos + 1, suffix.len() as int);
            assert(split_on(suffix, '\n') == seq![head] + split_on(stail, '\n'));
            assert(rem[0] == (seq![head] + split_on(stail, '\n'))[0]);
            assert(parts[k as int] == head);
        } else {
            assert(first_index_of(suffix, '\n') == suffix.len());
            assert(split_on(suffix, '\n') == seq![suffix]);
            assert(parts[k as int] == suffix);
        }
        assert(parts[k as int] =~= file@.subrange(pos as int, end_raw as int));
    }
    // Drop a trailing carriage return from the line text.
    let has_cr = end_raw > pos && file.get_char(end_raw - 1) == '\r';
    let line_end = if has_cr {
        end_raw - 1
    } else {
        end_raw
    };
    proof {
        let lk = lines_of(file@)[line_number - 1];
        assert(file@.len() > 0);
        let kept = if file@.last() == '\n' {
            parts.drop_last()
        } else {
            parts
        };
        assert(lk == crate::text::strip_cr(kept[line_number - 1]));
        assert(kept[line_number - 1] == parts[line_number - 1]);
        assert(parts[k as int] == file@.subrange(pos as int, end_raw as int));
        if has_cr {
            assert(parts[k as int].len() > 0 && parts[k as int].last() == '\r');
            assert(crate::text::strip_cr(parts[k as int]) =~= file@.subrange(
                pos as int,
                line_end as int,
            ));
        } else {
            assert(crate::text::strip_cr(parts[k as int]) =~= file@.subrange(
                pos as int,
                line_end as int,
            ));
        }
    }
    (pos, line_end)
}

/// No line of a file holds a newline character.
proof fn lemma_lines_no_newline(s: Seq<char>, k: int)
    requires
        0 <= k < lines_of(s).len(),
    ensures
        !crate::text::seq_contains_char(lines_of(s)[k], '\n'),
{
    crate::text::lemma_split_on_basic(s, '\n');
    let parts = split_on(s, '\n');
    let kept = if s.last() == '\n' {
        parts.drop_last()
    } else {
        parts
    };
    assert(lines_of(s)[k] == crate::text::strip_cr(kept[k]));
    assert(kept[k] == parts[k]);
    if crate::text::seq_contains_char(lines_of(s)[k], '\n') {
        let i = choose|i: int| 0 <= i < lines_of(s)[k].len() && lines_of(s)[k][i] == '\n';
        assert(parts[k][i] == '\n');
    }
}

fn copy_fragments(v: &Vec<Fragment>) -> (r: Vec<Fragment>)
    ensures
        r@.map_values(|f: Fragment| frag_view(f)) == v@.map_values(|f: Fragment| frag_view(f)),
        r@.len() == v@.len(),
        forall|i: int| 0 <= i < v@.len() ==> frag_view(#[trigger] r@[i]) == frag_view(v@[i]),
        forall|i: int|
            0 <= i < v@.len() ==> ((#[trigger] r@[i]).status == v@[i].status && (r@[i].class
                is None <==> v@[i].class is None)),
    decreases v@.len(),
{
    let mut r: Vec<Fragment> = Vec::new();
    let mut i: usize = 0;
    while i < v.len()
        invariant
            i <= v@.len(),
            r@.len() == i,
            forall|j: int| 0 <= j < i ==> frag_view(#[trigger] r@[j]) == frag_view(v@[j]),
            forall|j: int|
                0 <= j < i ==> ((#[trigger] r@[j]).status == v@[j].status && (r@[j].class is None
                    <==> v@[j].class is None)),
        decreases v@.len() - i,
    {
        let f = &v[i];
        r.push(
            Fragment {
                text: f.text.clone(),
                status: f.status,
                class: match &f.class {
                    Some(c) => Some(c.clone()),
                    None => None,
                },
            },
        );
        i += 1;
    }
    proof {
        assert(r@.map_values(|f: Fragment| frag_view(f)) =~= v@.map_values(
            |f: Fragment| frag_view(f),
        ));
    }
    r
}

/// Whether every fragment of a line is class-less.
pub open spec fn line_classes_none(l: LineDiff) -> bool {
    forall|j: int| 0 <= j < l.fragments@.len() ==> (#[trigger] l.fragments@[j]).class is None
}

/// Check that a parsed diff's line numbers fit the file revisions.
fn check_fits(meta: &FileDiffMeta, src_file: &Option<String>, dst_file: &Option<String>) -> (r:
    bool)
    ensures
        r == meta_fits(meta.view().hunks, opt_text_view(*src_file), opt_text_view(*dst_file)),
{
    let ghost sv = opt_text_view(*src_file);
    let ghost dv = opt_text_view(*dst_file);
    let src_count: Option<usize> = match src_file {
        Some(f) => Some(crate::text::lines_vec(f.as_str()).len()),
        None => None,
    };
    let dst_count: Option<usize> = match dst_file {
        Some(f) => Some(crate::text::lines_vec(f.as_str()).len()),
        None => None,
    };
    proof {
        if src_file is Some {
            assert(src_count->0 == lines_of(sv->0).len());
        }
        if dst_file is Some {
            assert(dst_count->0 == lines_of(dv->0).len());
        }
    }
    let ghost ghunks = meta.view().hunks;
    let mut h: usize = 0;
    while h < meta.hunks.len()
        invariant
            h <= meta.hunks@.len(),
            ghunks == meta.view().hunks,
            ghunks.len() == meta.hunks@.len(),
            sv == opt_text_view(*src_file),
            dv == opt_text_view(*dst_file),
            src_count is Some <==> sv is Some,
            dst_count is Some <==> dv is Some,
            sv is Some ==> src_count->0 == lines_of(sv->0).len(),
            dv is Some ==> dst_count->0 == lines_of(dv->0).len(),
            forall|hh: int, ss: int|
                0 <= hh < h && 0 <= ss < (#[trigger] ghunks[hh]).sections.len() ==> section_fits(
                    #[trigger] ghunks[hh].sections[ss],
                    sv,
                    dv,
                ),
        decreases meta.hunks@.len() - h,
    {
        let hunk = &meta.hunks[h];
        proof {
            assert(ghunks[h as int] == meta.hunks@[h as int].view());
        }
        let mut s: usize = 0;
        while s < hunk.sections.len()
            invariant
                s <= hunk.sections@.len(),
                hunk == meta.hunks@[h as int],
                h < meta.hunks@.len(),
                ghunks == meta.view().hunks,
                ghunks.len() == meta.hunks@.len(),
                ghunks[h as int] == meta.hunks@[h as int].view(),
                ghunks[h as int].sections.len() == hunk.sections@.len(),
                sv == opt_text_view(*src_file),
                dv == opt_text_view(*dst_file),
                src_count is Some <==> sv is Some,
                dst_count is Some <==> dv is Some,
                sv is Some ==> src_count->0 == lines_of(sv->0).len(),
                dv is Some ==> dst_count->0 == lines_of(dv->0).len(),
                forall|ss: int|
                    0 <= ss < s ==> section_fits(#[trigger] ghunks[h as int].sections[ss], sv, dv),
                forall|hh: int, ss: int|
                    0 <= hh < h && 0 <= ss < (#[trigger] ghunks[hh]).sections.len()
                        ==> section_fits(#[trigger] ghunks[hh].sections[ss], sv, dv),
            decreases hunk.sections@.len() - s,
        {
            proof {
                assert(ghunks[h as int].sections[s as int] == hunk.sections@[s as int].view());
            }
            let ok = section_check(&hunk.sections[s], src_count, dst_count, Ghost(sv), Ghost(dv));
            proof {
                assert(ghunks[h as int].sections[s as int] == hunk.sections@[s as int].view());
                assert(ok == section_fits(ghunks[h as int].sections[s as int], sv, dv));
            }
            if !ok {
                return false;
            }
            s += 1;
        }
        h += 1;
    }
    true
}

/// Check one section's line numbers against the revision line counts.
#[verifier::loop_isolation(false)]
fn section_check(
    sec: &HunkSection,
    src_count: Option<usize>,
    dst_count: Option<usize>,
    sv: Ghost<Option<Seq<char>>>,
    dv: Ghost<Option<Seq<char>>>,
) -> (r: bool)
    requires
        src_count is Some <==> sv@ is Some,
        dst_count is Some <==> dv@ is Some,
        sv@ is Some ==> src_count->0 == lines_of(sv@->0).len(),
        dv@ is Some ==> dst_count->0 == lines_of(dv@->0).len(),
    ensures
        r == section_fits(sec.view(), sv@, dv@),
{
    match sec {
        HunkSection::Unmodified(pairs) => {
            proof {
                assert(sec.view() == crate::file_diff_meta::SectionView::Unmodified(pairs@));
            }
            match (src_count, dst_count) {
                (Some(sc), Some(dc)) => {
                    let mut k: usize = 0;
                    while k < pairs.len()
                        invariant
                            k <= pairs@.len(),
                            sv@ is Some && dv@ is Some,
                            sc == lines_of(sv@->0).len(),
                            dc == lines_of(dv@->0).len(),
                            forall|kk: int|
                                0 <= kk < k ==> 1 <= (#[trigger] pairs@[kk]).0 <= lines_of(
                                    sv@->0,
                                ).len() && 1 <= pairs@[kk].1 <= lines_of(dv@->0).len(),
                        decreases pairs@.len() - k,
                    {
                        let p = pairs[k];
                        if !(1 <= p.0 && p.0 <= sc && 1 <= p.1 && p.1 <= dc) {
                            proof {
                                assert(p == pairs@[k as int]);
                                assert(!(1 <= pairs@[k as int].0 <= lines_of(sv@->0).len() && 1
                                    <= pairs@[k as int].1 <= lines_of(dv@->0).len()));
                                assert(!pairs_in_bounds(pairs@, sv@->0, dv@->0));
                            }
                            return false;
                        }
                        k += 1;
                    }
                    proof {
                        assert(pairs_in_bounds(pairs@, sv@->0, dv@->0));
                    }
                    true
                },
                _ => false,
            }
        },
        HunkSection::Added(ls) => {
            proof {
                assert(sec.view() == crate::file_diff_meta::SectionView::Added(ls@));
            }
            match dst_count {
                Some(dc) => check_line_numbers(ls, dc, Ghost(dv@->0)),
                None => false,
            }
        },
        HunkSection::Removed(ls) => {
            proof {
                assert(sec.view() == crate::file_diff_meta::SectionView::Removed(ls@));
            }
            match src_count {
                Some(sc) => check_line_numbers(ls, sc, Ghost(sv@->0)),
                None => false,
            }
        },
        HunkSection::RemovedAdded(rs, ads) => {
            proof {
                assert(sec.view() == crate::file_diff_meta::SectionView::RemovedAdded(rs@, ads@));
            }
            match (src_count, dst_count) {
                (Some(sc), Some(dc)) => rs.len() >= 1 && ads.len() >= 1 && check_line_numbers(
                    rs,
                    sc,
                    Ghost(sv@->0),
                ) && check_line_numbers(ads, dc, Ghost(dv@->0)),
                _ => false,
            }
        },
    }
}

impl FileDiff {
    /// Assemble the rendered diff: every hunk of the parsed description
    /// becomes a hunk of lines, each line's fragments spelling out its
    /// raw text in the right revision, with unmodified, added and
    /// removed runs sliced by highlight spans, and paired-change runs
    /// word-diffed first. Fails exactly when the description's line
    /// numbers do not fit the revisions on hand.
    #[verifier::loop_isolation(false)]
    #[verifier::rlimit(100)]
    pub fn from_with_highlights(
        meta: &FileDiffMeta,
        src_file: &Option<String>,
        dst_file: &Option<String>,
        src_highlights: &Highlights,
        dst_highlights: &Highlights,
    ) -> (r: Result<FileDiff, String>)
        requires
            src_highlights.wf(),
            dst_highlights.wf(),
        ensures
            ({
                let sv = opt_text_view(*src_file);
                let dv = opt_text_view(*dst_file);
                match r {
                    Ok(fd) => {
                        &&& meta_fits(meta.view().hunks, sv, dv)
                        &&& fd.0@.len() == meta.hunks@.len()
                        &&& forall|h: int|
                            0 <= h < fd.0@.len() ==> (#[trigger] fd.0@[h]).header is Some
                                && fd.0@[h].header->0@ == meta.hunks@[h].header@
                        &&& forall|h: int, l: int|
                            0 <= h < fd.0@.len() && 0 <= l < fd.0@[h].lines@.len() ==> line_ok(
                                #[trigger] fd.0@[h].lines@[l],
                                sv,
                                dv,
                            )
                        &&& forall|h: int|
                            0 <= h < fd.0@.len() ==> (#[trigger] fd.0@[h]).lines@.map_values(
                                |l: LineDiff| line_shape(l),
                            ) == sections_shapes(meta.hunks@[h].view().sections)
                        &&& (src_highlights.view().len() == 0 && dst_highlights.view().len() == 0
                            ==> forall|h: int, l: int|
                            0 <= h < fd.0@.len() && 0 <= l < fd.0@[h].lines@.len()
                                ==> line_classes_none(#[trigger] fd.0@[h].lines@[l]))
                    },
                    Err(_) => !meta_fits(meta.view().hunks, sv, dv),
                }
            }),
    {
        let ghost sv = opt_text_view(*src_file);
        let ghost dv = opt_text_view(*dst_file);
        if !check_fits(meta, src_file, dst_file) {
            return Err("Diff does not fit the file revisions".to_owned());
        }
        let ghost hl_empty = src_highlights.view().len() == 0 && dst_highlights.view().len() == 0;
        let mut hunks_out: Vec<DiffHunk> = Vec::new();
        let mut h: usize = 0;
        while h < meta.hunks.len()
            invariant
                h <= meta.hunks@.len(),
                hunks_out@.len() == h,
                forall|hh: int|
                    0 <= hh < h ==> (#[trigger] hunks_out@[hh]).header is Some
                        && hunks_out@[hh].header->0@ == meta.hunks@[hh].header@,
                forall|hh: int|
                    0 <= hh < h ==> (#[trigger] hunks_out@[hh]).lines@.map_values(
                        |l: LineDiff| line_shape(l),
                    ) == sections_shapes(meta.hunks@[hh].view().sections),
                forall|hh: int, l: int|
                    0 <= hh < h && 0 <= l < hunks_out@[hh].lines@.len() ==> line_ok(
                        #[trigger] hunks_out@[hh].lines@[l],
                        sv,
                        dv,
                    ),
                hl_empty ==> forall|hh: int, l: int|
                    0 <= hh < h && 0 <= l < hunks_out@[hh].lines@.len() ==> line_classes_none(
                        #[trigger] hunks_out@[hh].lines@[l],
                    ),
            decreases meta.hunks@.len() - h,
        {
            let hunk = &meta.hunks[h];
            proof {
                assert(meta.view().hunks[h as int] == meta.hunks@[h as int].view());
            }
            let mut lines_out: Vec<LineDiff> = Vec::new();
            let mut s: usize = 0;
            proof {
                assert(meta.hunks@[h as int].view().sections.subrange(0, 0) =~= Seq::<
                    crate::file_diff_meta::SectionView,
                >::empty());
                assert(lines_out@.map_values(|l: LineDiff| line_shape(l)) =~= Seq::<
                    LineShape,
                >::empty());
            }
            while s < hunk.sections.len()
                invariant
                    s <= hunk.sections@.len(),
                    forall|l: int|
                        0 <= l < lines_out@.len() ==> line_ok(#[trigger] lines_out@[l], sv, dv),
                    hl_empty ==> forall|l: int|
                        0 <= l < lines_out@.len() ==> line_classes_none(#[trigger] lines_out@[l]),
                    lines_out@.map_values(|l: LineDiff| line_shape(l)) == sections_shapes(
                        meta.hunks@[h as int].view().sections.subrange(0, s as int),
                    ),
                decreases hunk.sections@.len() - s,
            {
                proof {
                    assert(meta.view().hunks[h as int].sections[s as int] == hunk.sections@[
                        s as int].view());
                    assert(section_fits(hunk.sections@[s as int].view(), sv, dv));
                }
                match &hunk.sections[s] {
                    HunkSection::Unmodified(pairs) => {
                        proof {
                            assert(hunk.sections@[s as int].view()
                                == crate::file_diff_meta::SectionView::Unmodified(pairs@));
                        }
                        let ghost base_shapes = lines_out@.map_values(
                            |l: LineDiff| line_shape(l),
                        );
                        let dst_str = match dst_file {
                            Some(f) => f,
                            None => {
                                proof {
                                    assert(false);
                                }
                                return Err("Missing destination revision".to_owned());
                            },
                        };
                        let mut k: usize = 0;
                        proof {
                            assert(pairs@.subrange(0, 0).map_values(|p2: (usize, usize)| (DiffStatus::Unmodified, Some(p2.0), Some(p2.1))) =~= Seq::<
                                LineShape,
                            >::empty());
                            assert(lines_out@.map_values(|l: LineDiff| line_shape(l)) =~= base_shapes + pairs@.subrange(0, 0)
                                .map_values(|p2: (usize, usize)| (DiffStatus::Unmodified, Some(p2.0), Some(p2.1))));
                        }
                        while k < pairs.len()
                            invariant
                                k <= pairs@.len(),
                                forall|l: int|
                                    0 <= l < lines_out@.len() ==> line_ok(
                                        #[trigger] lines_out@[l],
                                        sv,
                                        dv,
                                    ),
                                hl_empty ==> forall|l: int|
                                    0 <= l < lines_out@.len() ==> line_classes_none(
                                        #[trigger] lines_out@[l],
                                    ),
                                lines_out@.map_values(|l: LineDiff| line_shape(l)) == base_shapes + pairs@.subrange(
                                    0,
                                    k as int,
                                ).map_values(|p2: (usize, usize)| (DiffStatus::Unmodified, Some(p2.0), Some(p2.1))),
                            decreases pairs@.len() - k,
                        {
                            let p = pairs[k];
                            proof {
                                assert(pairs_in_bounds(pairs@, sv->0, dv->0));
                                assert(1 <= pairs@[k as int].1 <= lines_of(dv->0).len());
                            }
                            let lr = line_number_range(p.1, dst_str.as_str());
                            let text = dst_str.as_str().substring_char(lr.0, lr.1);
                            let frags = Fragment::from_highlighted(
                                lr.0,
                                lr.1,
                                text,
                                DiffStatus::Unmodified,
                                dst_highlights,
                            );
                            let line = LineDiff {
                                fragments: frags,
                                status: DiffStatus::Unmodified,
                                src_line_number: Some(p.0),
                                dst_line_number: Some(p.1),
                            };
                            let ghost old_shapes = lines_out@.map_values(|l: LineDiff| line_shape(l));
                            proof {
                                assert(line_ok(line, sv, dv));
                            }
                            lines_out.push(line);
                            proof {
                                assert(lines_out@.map_values(|l: LineDiff| line_shape(l)) =~= old_shapes.push(line_shape(line)));
                                assert(pairs@.subrange(0, k + 1 as int) =~= pairs@.subrange(
                                    0,
                                    k as int,
                                ).push(pairs@[k as int]));
                                assert(pairs@.subrange(0, k + 1 as int).map_values(|p2: (usize, usize)| (DiffStatus::Unmodified, Some(p2.0), Some(p2.1)))
                                    =~= pairs@.subrange(0, k as int).map_values(|p2: (usize, usize)| (DiffStatus::Unmodified, Some(p2.0), Some(p2.1)))
                                    .push(line_shape(line)));
                                assert(lines_out@.map_values(|l: LineDiff| line_shape(l)) =~= base_shapes + pairs@.subrange(
                                    0,
                                    k + 1 as int,
                                ).map_values(|p2: (usize, usize)| (DiffStatus::Unmodified, Some(p2.0), Some(p2.1))));
                            }
                            k += 1;
                        }
                        proof {
                            assert(pairs@.subrange(0, pairs@.len() as int) =~= pairs@);
                            assert(section_shapes(hunk.sections@[s as int].view())
                                =~= pairs@.map_values(|p2: (usize, usize)| (DiffStatus::Unmodified, Some(p2.0), Some(p2.1))));
                            assert(lines_out@.map_values(|l: LineDiff| line_shape(l)) =~= base_shapes + section_shapes(
                                hunk.sections@[s as int].view(),
                            ));
                        }
                    },
                    HunkSection::Added(ls) => {
                        proof {
                            assert(hunk.sections@[s as int].view()
                                == crate::file_diff_meta::SectionView::Added(ls@));
                        }
                        let ghost base_shapes = lines_out@.map_values(
                            |l: LineDiff| line_shape(l),
                        );
                        let dst_str = match dst_file {
                            Some(f) => f,
                            None => {
                                proof {
                                    assert(false);
                                }
                                return Err("Missing destination revision".to_owned());
                            },
                        };
                        let mut k: usize = 0;
                        proof {
                            assert(ls@.subrange(0, 0).map_values(|l2: usize| (DiffStatus::Added, None::<usize>, Some(l2))) =~= Seq::<
                                LineShape,
                            >::empty());
                            assert(lines_out@.map_values(|l: LineDiff| line_shape(l)) =~= base_shapes + ls@.subrange(0, 0)
                                .map_values(|l2: usize| (DiffStatus::Added, None::<usize>, Some(l2))));
                        }
                        while k < ls.len()
                            invariant
                                k <= ls@.len(),
                                forall|l: int|
                                    0 <= l < lines_out@.len() ==> line_ok(
                                        #[trigger] lines_out@[l],
                                        sv,
                                        dv,
                                    ),
                                hl_empty ==> forall|l: int|
                                    0 <= l < lines_out@.len() ==> line_classes_none(
                                        #[trigger] lines_out@[l],
                                    ),
                                lines_out@.map_values(|l: LineDiff| line_shape(l)) == base_shapes + ls@.subrange(0, k as int)
                                    .map_values(|l2: usize| (DiffStatus::Added, None::<usize>, Some(l2))),
                            decreases ls@.len() - k,
                        {
                            let n = ls[k];
                            proof {
                                assert(numbers_in_bounds(ls@, dv->0));
                                assert(1 <= ls@[k as int] <= lines_of(dv->0).len());
                            }
                            let lr = line_number_range(n, dst_str.as_str());
                            let text = dst_str.as_str().substring_char(lr.0, lr.1);
                            let frags = Fragment::from_highlighted(
                                lr.0,
                                lr.1,
                                text,
                                DiffStatus::Unmodified,
                                dst_highlights,
                            );
                            let line = LineDiff {
                                fragments: frags,
                                status: DiffStatus::Added,
                                src_line_number: None,
                                dst_line_number: Some(n),
                            };
                            let ghost old_shapes = lines_out@.map_values(|l: LineDiff| line_shape(l));
                            proof {
                                assert(line_ok(line, sv, dv));
                            }
                            lines_out.push(line);
                            proof {
                                assert(lines_out@.map_values(|l: LineDiff| line_shape(l)) =~= old_shapes.push(line_shape(line)));
                                assert(ls@.subrange(0, k + 1 as int) =~= ls@.subrange(
                                    0,
                                    k as int,
                                ).push(ls@[k as int]));
                                assert(ls@.subrange(0, k + 1 as int).map_values(|l2: usize| (DiffStatus::Added, None::<usize>, Some(l2)))
                                    =~= ls@.subrange(0, k as int).map_values(|l2: usize| (DiffStatus::Added, None::<usize>, Some(l2)))
                                    .push(line_shape(line)));
                                assert(lines_out@.map_values(|l: LineDiff| line_shape(l)) =~= base_shapes + ls@.subrange(
                                    0,
                                    k + 1 as int,
                                ).map_values(|l2: usize| (DiffStatus::Added, None::<usize>, Some(l2))));
                            }
                            k += 1;
                        }
                        proof {
                            assert(ls@.subrange(0, ls@.len() as int) =~= ls@);
                            assert(section_shapes(hunk.sections@[s as int].view())
                                =~= ls@.map_values(|l2: usize| (DiffStatus::Added, None::<usize>, Some(l2))));
                            assert(lines_out@.map_values(|l: LineDiff| line_shape(l)) =~= base_shapes + section_shapes(
                                hunk.sections@[s as int].view(),
                            ));
                        }
                    },
                    HunkSection::Removed(ls) => {
                        proof {
                            assert(hunk.sections@[s as int].view()
                                == crate::file_diff_meta::SectionView::Removed(ls@));
                        }
                        let ghost base_shapes = lines_out@.map_values(
                            |l: LineDiff| line_shape(l),
                        );
                        let src_str = match src_file {
                            Some(f) => f,
                            None => {
                                proof {
                                    assert(false);
                                }
                                return Err("Missing source revision".to_owned());
                            },
                        };
                        let mut k: usize = 0;
                        proof {
                            assert(ls@.subrange(0, 0).map_values(|l2: usize| (DiffStatus::Removed, Some(l2), None::<usize>)) =~= Seq::<
                                LineShape,
                            >::empty());
                            assert(lines_out@.map_values(|l: LineDiff| line_shape(l)) =~= base_shapes + ls@.subrange(0, 0)
                                .map_values(|l2: usize| (DiffStatus::Removed, Some(l2), None::<usize>)));
                        }
                        while k < ls.len()
                            invariant
                                k <= ls@.len(),
                                forall|l: int|
                                    0 <= l < lines_out@.len() ==> line_ok(
                                        #[trigger] lines_out@[l],
                                        sv,
                                        dv,
                                    ),
                                hl_empty ==> forall|l: int|
                                    0 <= l < lines_out@.len() ==> line_classes_none(
                                        #[trigger] lines_out@[l],
                                    ),
                                lines_out@.map_values(|l: LineDiff| line_shape(l)) == base_shapes + ls@.subrange(0, k as int)
                                    .map_values(|l2: usize| (DiffStatus::Removed, Some(l2), None::<usize>)),
                            decreases ls@.len() - k,
                        {
                            let n = ls[k];
                            proof {
                                assert(numbers_in_bounds(ls@, sv->0));
                                assert(1 <= ls@[k as int] <= lines_of(sv->0).len());
                            }
                            let lr = line_number_range(n, src_str.as_str());
                            let text = src_str.as_str().substring_char(lr.0, lr.1);
                            let frags = Fragment::from_highlighted(
                                lr.0,
                                lr.1,
                                text,
                                DiffStatus::Unmodified,
                                src_highlights,
                            );
                            let line = LineDiff {
                                fragments: frags,
                                status: DiffStatus::Removed,
                                src_line_number: Some(n),
                                dst_line_number: None,
                            };
                            let ghost old_shapes = lines_out@.map_values(|l: LineDiff| line_shape(l));
                            proof {
                                assert(line_ok(line, sv, dv));
                            }
                            lines_out.push(line);
                            proof {
                                assert(lines_out@.map_values(|l: LineDiff| line_shape(l)) =~= old_shapes.push(line_shape(line)));
                                assert(ls@.subrange(0, k + 1 as int) =~= ls@.subrange(
                                    0,
                                    k as int,
                                ).push(ls@[k as int]));
                                assert(ls@.subrange(0, k + 1 as int).map_values(|l2: usize| (DiffStatus::Removed, Some(l2), None::<usize>))
                                    =~= ls@.subrange(0, k as int).map_values(|l2: usize| (DiffStatus::Removed, Some(l2), None::<usize>))
                                    .push(line_shape(line)));
                                assert(lines_out@.map_values(|l: LineDiff| line_shape(l)) =~= base_shapes + ls@.subrange(
                                    0,
                                    k + 1 as int,
                                ).map_values(|l2: usize| (DiffStatus::Removed, Some(l2), None::<usize>)));
                            }
                            k += 1;
                        }
                        proof {
                            assert(ls@.subrange(0, ls@.len() as int) =~= ls@);
                            assert(section_shapes(hunk.sections@[s as int].view())
                                =~= ls@.map_values(|l2: usize| (DiffStatus::Removed, Some(l2), None::<usize>)));
                            assert(lines_out@.map_values(|l: LineDiff| line_shape(l)) =~= base_shapes + section_shapes(
                                hunk.sections@[s as int].view(),
                            ));
                        }
                    },
                    HunkSection::RemovedAdded(rs, ads) => {
                        proof {
                            assert(hunk.sections@[s as int].view()
                                == crate::file_diff_meta::SectionView::RemovedAdded(rs@, ads@));
                        }
                        let ghost base_shapes = lines_out@.map_values(
                            |l: LineDiff| line_shape(l),
                        );
                        let src_str = match src_file {
                            Some(f) => f,
                            None => {
                                proof {
                                    assert(false);
                                }
                                return Err("Missing source revision".to_owned());
                            },
                        };
                        let dst_str = match dst_file {
                            Some(f) => f,
                            None => {
                                proof {
                                    assert(false);
                                }
                                return Err("Missing destination revision".to_owned());
                            },
                        };
                        proof {
                            assert(numbers_in_bounds(rs@, sv->0));
                            assert(numbers_in_bounds(ads@, dv->0));
                        }
                        let mut removed_texts: Vec<String> = Vec::new();
                        let mut k: usize = 0;
                        while k < rs.len()
                            invariant
                                k <= rs@.len(),
                                removed_texts@.len() == k,
                                forall|i: int|
                                    0 <= i < k ==> removed_texts.deep_view()[i] == lines_of(
                                        sv->0,
                                    )[rs@[i] - 1],
                                forall|i: int|
                                    0 <= i < k ==> !crate::text::seq_contains_char(
                                        #[trigger] removed_texts.deep_view()[i],
                                        '\n',
                                    ),
                            decreases rs@.len() - k,
                        {
                            proof {
                                assert(1 <= rs@[k as int] <= lines_of(sv->0).len());
                            }
                            let lr = line_number_range(rs[k], src_str.as_str());
                            let piece = src_str.as_str().substring_char(lr.0, lr.1).to_owned();
                            let ghost old_dv = removed_texts.deep_view();
                            removed_texts.push(piece);
                            proof {
                                lemma_lines_no_newline(sv->0, rs@[k as int] - 1);
                                assert(removed_texts.deep_view() =~= old_dv.push(
                                    lines_of(sv->0)[rs@[k as int] - 1],
                                ));
                                assert forall|i: int|
                                    0 <= i < k + 1 implies removed_texts.deep_view()[i]
                                    == lines_of(sv->0)[rs@[i] - 1]
                                    && !crate::text::seq_contains_char(
                                    #[trigger] removed_texts.deep_view()[i],
                                    '\n',
                                ) by {
                                    if i < k {
                                        assert(removed_texts.deep_view()[i] == old_dv[i]);
                                    } else {
                                        lemma_lines_no_newline(sv->0, rs@[i] - 1);
                                    }
                                }
                            }
                            k += 1;
                        }
                        let mut added_texts: Vec<String> = Vec::new();
                        let mut k2: usize = 0;
                        while k2 < ads.len()
                            invariant
                                k2 <= ads@.len(),
                                added_texts@.len() == k2,
                                forall|i: int|
                                    0 <= i < k2 ==> added_texts.deep_view()[i] == lines_of(
                                        dv->0,
                                    )[ads@[i] - 1],
                                forall|i: int|
                                    0 <= i < k2 ==> !crate::text::seq_contains_char(
                                        #[trigger] added_texts.deep_view()[i],
                                        '\n',
                                    ),
                            decreases ads@.len() - k2,
                        {
                            proof {
                                assert(1 <= ads@[k2 as int] <= lines_of(dv->0).len());
                            }
                            let lr = line_number_range(ads[k2], dst_str.as_str());
                            let piece = dst_str.as_str().substring_char(lr.0, lr.1).to_owned();
                            let ghost old_dv = added_texts.deep_view();
                            added_texts.push(piece);
                            proof {
                                lemma_lines_no_newline(dv->0, ads@[k2 as int] - 1);
                                assert(added_texts.deep_view() =~= old_dv.push(
                                    lines_of(dv->0)[ads@[k2 as int] - 1],
                                ));
                                assert forall|i: int|
                                    0 <= i < k2 + 1 implies added_texts.deep_view()[i]
                                    == lines_of(dv->0)[ads@[i] - 1]
                                    && !crate::text::seq_contains_char(
                                    #[trigger] added_texts.deep_view()[i],
                                    '\n',
                                ) by {
                                    if i < k2 {
                                        assert(added_texts.deep_view()[i] == old_dv[i]);
                                    } else {
                                        lemma_lines_no_newline(dv->0, ads@[i] - 1);
                                    }
                                }
                            }
                            k2 += 1;
                        }
                        let sp = line_number_range(rs[0], src_str.as_str());
                        let dp = line_number_range(ads[0], dst_str.as_str());
                        let sides = word_diff_section(
                            &removed_texts,
                            &added_texts,
                            sp.0,
                            dp.0,
                            src_highlights,
                            dst_highlights,
                        );
                        let rlines = sides.0;
                        let alines = sides.1;
                        let mut k3: usize = 0;
                        proof {
                            assert(rlines@.len() == rs@.len());
                            assert(rs@.subrange(0, 0).map_values(|l2: usize| (DiffStatus::Removed, Some(l2), None::<usize>)) =~= Seq::<
                                LineShape,
                            >::empty());
                            assert(lines_out@.map_values(|l: LineDiff| line_shape(l)) =~= base_shapes + rs@.subrange(0, 0)
                                .map_values(|l2: usize| (DiffStatus::Removed, Some(l2), None::<usize>)));
                        }
                        while k3 < rlines.len()
                            invariant
                                k3 <= rlines@.len(),
                                rlines@.len() == rs@.len(),
                                forall|l: int|
                                    0 <= l < lines_out@.len() ==> line_ok(
                                        #[trigger] lines_out@[l],
                                        sv,
                                        dv,
                                    ),
                                hl_empty ==> forall|l: int|
                                    0 <= l < lines_out@.len() ==> line_classes_none(
                                        #[trigger] lines_out@[l],
                                    ),
                                lines_out@.map_values(|l: LineDiff| line_shape(l)) == base_shapes + rs@.subrange(0, k3 as int)
                                    .map_values(|l2: usize| (DiffStatus::Removed, Some(l2), None::<usize>)),
                            decreases rlines@.len() - k3,
                        {
                            let frags = copy_fragments(&rlines[k3]);
                            proof {
                                assert(rlines@.len() == removed_texts@.len());
                                assert(k3 < rs@.len());
                                assert(concat_all(
                                    frag_texts(
                                        rlines@[k3 as int]@.map_values(
                                            |f: Fragment| frag_view(f),
                                        ),
                                    ),
                                ) == removed_texts.deep_view()[k3 as int]);
                            }
                            let line = LineDiff {
                                fragments: frags,
                                status: DiffStatus::Removed,
                                src_line_number: Some(rs[k3]),
                                dst_line_number: None,
                            };
                            proof {
                                assert(frags@.map_values(|f: Fragment| frag_view(f)) == rlines@[
                                    k3 as int]@.map_values(|f: Fragment| frag_view(f)));
                                assert(line_ok(line, sv, dv));
                                if hl_empty {
                                    assert forall|j: int|
                                        0 <= j < line.fragments@.len() implies (
                                    #[trigger] line.fragments@[j]).class is None by {
                                        assert(rlines@[k3 as int]@[j].class is None);
                                    }
                                }
                            }
                            let ghost old_shapes = lines_out@.map_values(|l: LineDiff| line_shape(l));
                            lines_out.push(line);
                            proof {
                                assert(lines_out@.map_values(|l: LineDiff| line_shape(l)) =~= old_shapes.push(line_shape(line)));
                                assert(rs@.subrange(0, k3 + 1 as int) =~= rs@.subrange(
                                    0,
                                    k3 as int,
                                ).push(rs@[k3 as int]));
                                assert(rs@.subrange(0, k3 + 1 as int).map_values(|l2: usize| (DiffStatus::Removed, Some(l2), None::<usize>))
                                    =~= rs@.subrange(0, k3 as int).map_values(|l2: usize| (DiffStatus::Removed, Some(l2), None::<usize>))
                                    .push(line_shape(line)));
                                assert(lines_out@.map_values(|l: LineDiff| line_shape(l)) =~= base_shapes + rs@.subrange(
                                    0,
                                    k3 + 1 as int,
                                ).map_values(|l2: usize| (DiffStatus::Removed, Some(l2), None::<usize>)));
                            }
                            k3 += 1;
                        }
                        proof {
                            assert(rs@.subrange(0, rs@.len() as int) =~= rs@);
                            assert(lines_out@.map_values(|l: LineDiff| line_shape(l)) =~= base_shapes + rs@.map_values(|l2: usize| (DiffStatus::Removed, Some(l2), None::<usize>)));
                        }
                        let mut k4: usize = 0;
                        proof {
                            assert(alines@.len() == ads@.len());
                            assert(ads@.subrange(0, 0).map_values(|l2: usize| (DiffStatus::Added, None::<usize>, Some(l2))) =~= Seq::<
                                LineShape,
                            >::empty());
                            assert(lines_out@.map_values(|l: LineDiff| line_shape(l)) =~= base_shapes + rs@.map_values(|l2: usize| (DiffStatus::Removed, Some(l2), None::<usize>))
                                + ads@.subrange(0, 0).map_values(|l2: usize| (DiffStatus::Added, None::<usize>, Some(l2))));
                        }
                        while k4 < alines.len()
                            invariant
                                k4 <= alines@.len(),
                                alines@.len() == ads@.len(),
                                forall|l: int|
                                    0 <= l < lines_out@.len() ==> line_ok(
                                        #[trigger] lines_out@[l],
                                        sv,
                                        dv,
                                    ),
                                hl_empty ==> forall|l: int|
                                    0 <= l < lines_out@.len() ==> line_classes_none(
                                        #[trigger] lines_out@[l],
                                    ),
                                lines_out@.map_values(|l: LineDiff| line_shape(l)) == base_shapes + rs@.map_values(|l2: usize| (DiffStatus::Removed, Some(l2), None::<usize>))
                                    + ads@.subrange(0, k4 as int).map_values(|l2: usize| (DiffStatus::Added, None::<usize>, Some(l2))),
                            decreases alines@.len() - k4,
                        {
                            let frags = copy_fragments(&alines[k4]);
                            proof {
                                assert(alines@.len() == added_texts@.len());
                                assert(k4 < ads@.len());
                                assert(concat_all(
                                    frag_texts(
                                        alines@[k4 as int]@.map_values(
                                            |f: Fragment| frag_view(f),
                                        ),
                                    ),
                                ) == added_texts.deep_view()[k4 as int]);
                            }
                            let line = LineDiff {
                                fragments: frags,
                                status: DiffStatus::Added,
                                src_line_number: None,
                                dst_line_number: Some(ads[k4]),
                            };
                            proof {
                                assert(frags@.map_values(|f: Fragment| frag_view(f)) == alines@[
                                    k4 as int]@.map_values(|f: Fragment| frag_view(f)));
                                assert(line_ok(line, sv, dv));
                                if hl_empty {
                                    assert forall|j: int|
                                        0 <= j < line.fragments@.len() implies (
                                    #[trigger] line.fragments@[j]).class is None by {
                                        assert(alines@[k4 as int]@[j].class is None);
                                    }
                                }
                            }
                            let ghost old_shapes = lines_out@.map_values(|l: LineDiff| line_shape(l));
                            lines_out.push(line);
                            proof {
                                assert(lines_out@.map_values(|l: LineDiff| line_shape(l)) =~= old_shapes.push(line_shape(line)));
                                assert(ads@.subrange(0, k4 + 1 as int) =~= ads@.subrange(
                                    0,
                                    k4 as int,
                                ).push(ads@[k4 as int]));
                                assert(ads@.subrange(0, k4 + 1 as int).map_values(|l2: usize| (DiffStatus::Added, None::<usize>, Some(l2)))
                                    =~= ads@.subrange(0, k4 as int).map_values(|l2: usize| (DiffStatus::Added, None::<usize>, Some(l2)))
                                    .push(line_shape(line)));
                                assert(lines_out@.map_values(|l: LineDiff| line_shape(l)) =~= base_shapes + rs@.map_values(|l2: usize| (DiffStatus::Removed, Some(l2), None::<usize>))
                                    + ads@.subrange(0, k4 + 1 as int).map_values(|l2: usize| (DiffStatus::Added, None::<usize>, Some(l2))));
                            }
                            k4 += 1;
                        }
                        proof {
                            assert(ads@.subrange(0, ads@.len() as int) =~= ads@);
                            assert(section_shapes(hunk.sections@[s as int].view())
                                =~= rs@.map_values(|l2: usize| (DiffStatus::Removed, Some(l2), None::<usize>)) + ads@.map_values(|l2: usize| (DiffStatus::Added, None::<usize>, Some(l2))));
                            assert(lines_out@.map_values(|l: LineDiff| line_shape(l)) =~= base_shapes + section_shapes(
                                hunk.sections@[s as int].view(),
                            ));
                        }
                    },
                }
                proof {
                    let secsv = meta.hunks@[h as int].view().sections;
                    assert(secsv.subrange(0, s + 1 as int).drop_last() =~= secsv.subrange(
                        0,
                        s as int,
                    ));
                    assert(secsv.subrange(0, s + 1 as int).last() == secsv[s as int]);
                    assert(sections_shapes(secsv.subrange(0, s + 1 as int)) == sections_shapes(
                        secsv.subrange(0, s as int),
                    ) + section_shapes(secsv[s as int]));
                    assert(secsv[s as int] == hunk.sections@[s as int].view());
                    assert(lines_out@.map_values(|l: LineDiff| line_shape(l)) =~= sections_shapes(secsv.subrange(0, s + 1 as int)));
                }
                s += 1;
            }
            let ghost old_hunks = hunks_out@;
            let ghost final_shapes = lines_out@.map_values(|l: LineDiff| line_shape(l));
            proof {
                let secsv = meta.hunks@[h as int].view().sections;
                assert(secsv.subrange(0, hunk.sections@.len() as int) =~= secsv);
                assert(final_shapes == sections_shapes(secsv));
            }
            hunks_out.push(DiffHunk { header: Some(hunk.header.clone()), lines: lines_out });
            proof {
                assert forall|hh: int|
                    0 <= hh < h + 1 implies (#[trigger] hunks_out@[hh]).lines@.map_values(
                    |l: LineDiff| line_shape(l),
                ) == sections_shapes(meta.hunks@[hh].view().sections) by {
                    if hh < h {
                        assert(hunks_out@[hh] == old_hunks[hh]);
                    } else {
                        assert(hunks_out@[hh].lines@.map_values(|l: LineDiff| line_shape(l))
                            == final_shapes);
                    }
                }
            }
            h += 1;
        }
        Ok(FileDiff(hunks_out))
    }
}

impl FileDiff {
    /// Build the rendered diff for one file: highlight each existing
    /// revision once, as the language its path's extension names, then
    /// assemble every hunk. Fails exactly when the parsed description's
    /// line numbers do not fit the revision texts. A path with an
    /// unrecognised extension gets no highlighting, and every fragment
    /// of its side then carries no class.
    pub fn from(meta: FileDiffMeta, src_file: Option<String>, dst_file: Option<String>) -> (r:
        Result<Self, String>)
        ensures
            ({
                let sv = opt_text_view(src_file);
                let dv = opt_text_view(dst_file);
                match r {
                    Ok(fd) => {
                        &&& meta_fits(meta.view().hunks, sv, dv)
                        &&& fd.0@.len() == meta.hunks@.len()
                        &&& forall|h: int|
                            0 <= h < fd.0@.len() ==> (#[trigger] fd.0@[h]).header is Some
                                && fd.0@[h].header->0@ == meta.hunks@[h].header@
                        &&& forall|h: int, l: int|
                            0 <= h < fd.0@.len() && 0 <= l < fd.0@[h].lines@.len() ==> line_ok(
                                #[trigger] fd.0@[h].lines@[l],
                                sv,
                                dv,
                            )
                        &&& forall|h: int|
                            0 <= h < fd.0@.len() ==> (#[trigger] fd.0@[h]).lines@.map_values(
                                |l: LineDiff| line_shape(l),
                            ) == sections_shapes(meta.hunks@[h].view().sections)
                        &&& ((src_file is None || crate::highlight::language_of_token(
                            crate::highlight::extension_of_path(meta.src_path@),
                        ) == crate::highlight::HighlightLanguage::Plaintext) && (dst_file is None
                            || crate::highlight::language_of_token(
                            crate::highlight::extension_of_path(meta.dst_path@),
                        ) == crate::highlight::HighlightLanguage::Plaintext) ==> forall|
                            h: int,
                            l: int,
                        |
                            0 <= h < fd.0@.len() && 0 <= l < fd.0@[h].lines@.len()
                                ==> line_classes_none(#[trigger] fd.0@[h].lines@[l]))
                    },
                    Err(_) => !meta_fits(meta.view().hunks, sv, dv),
                }
            }),
    {
        let mut highlighter = crate::highlight::SyntaxHighlighter::new();
        Self::from_with_highlighter(&meta, &src_file, &dst_file, &mut highlighter)
    }

    /// Assemble the rendered diff for one file with a caller-held
    /// highlighter, so the compiled grammar registry is built once and
    /// shared across many diffs: highlight each existing revision once,
    /// as the language its path's extension names, then assemble every
    /// hunk. Fails exactly when the parsed description's line numbers do
    /// not fit the revision texts. A path with an unrecognised extension
    /// gets no highlighting, and every fragment of its side then carries
    /// no class.
    pub fn from_with_highlighter(
        meta: &FileDiffMeta,
        src_file: &Option<String>,
        dst_file: &Option<String>,
        highlighter: &mut crate::highlight::SyntaxHighlighter,
    ) -> (r: Result<FileDiff, String>)
        requires
            old(highlighter).wf(),
        ensures
            final(highlighter).wf(),
            ({
                let sv = opt_text_view(*src_file);
                let dv = opt_text_view(*dst_file);
                match r {
                    Ok(fd) => {
                        &&& meta_fits(meta.view().hunks, sv, dv)
                        &&& fd.0@.len() == meta.hunks@.len()
                        &&& forall|h: int|
                            0 <= h < fd.0@.len() ==> (#[trigger] fd.0@[h]).header is Some
                                && fd.0@[h].header->0@ == meta.hunks@[h].header@
                        &&& forall|h: int, l: int|
                            0 <= h < fd.0@.len() && 0 <= l < fd.0@[h].lines@.len() ==> line_ok(
                                #[trigger] fd.0@[h].lines@[l],
                                sv,
                                dv,
                            )
                        &&& forall|h: int|
                            0 <= h < fd.0@.len() ==> (#[trigger] fd.0@[h]).lines@.map_values(
                                |l: LineDiff| line_shape(l),
                            ) == sections_shapes(meta.hunks@[h].view().sections)
                        &&& ((*src_file is None || crate::highlight::language_of_token(
                            crate::highlight::extension_of_path(meta.src_path@),
                        ) == crate::highlight::HighlightLanguage::Plaintext) && (*dst_file is None
                            || crate::highlight::language_of_token(
                            crate::highlight::extension_of_path(meta.dst_path@),
                        ) == crate::highlight::HighlightLanguage::Plaintext) ==> forall|
                            h: int,
                            l: int,
                        |
                            0 <= h < fd.0@.len() && 0 <= l < fd.0@[h].lines@.len()
                                ==> line_classes_none(#[trigger] fd.0@[h].lines@[l]))
                    },
                    Err(_) => !meta_fits(meta.view().hunks, sv, dv),
                }
            }),
    {
        let src_highlights = match src_file {
            Some(f) => highlighter.highlight(
                crate::highlight::HighlightLanguage::from_path(meta.src_path.as_str()),
                f.as_str(),
            ),
            None => Highlights(Vec::new()),
        };
        let dst_highlights = match dst_file {
            Some(f) => highlighter.highlight(
                crate::highlight::HighlightLanguage::from_path(meta.dst_path.as_str()),
                f.as_str(),
            ),
            None => Highlights(Vec::new()),
        };
        proof {
            if *src_file is None {
                assert(src_highlights.view() =~= Seq::<crate::highlight::SpanView>::empty());
            }
            if *dst_file is None {
                assert(dst_highlights.view() =~= Seq::<crate::highlight::SpanView>::empty());
            }
        }
        Self::from_with_highlights(meta, src_file, dst_file, &src_highlights, &dst_highlights)
    }
}

/// Check that every listed line number names a line of a file with
/// `count` lines.
#[verifier::loop_isolation(false)]
fn check_line_numbers(ls: &Vec<usize>, count: usize, text: Ghost<Seq<char>>) -> (r: bool)
    requires
        count == lines_of(text@).len(),
    ensures
        r == numbers_in_bounds(ls@, text@),
{
    let mut k: usize = 0;
    while k < ls.len()
        invariant
            k <= ls@.len(),
            forall|kk: int| 0 <= kk < k ==> 1 <= #[trigger] ls@[kk] <= count,
        decreases ls@.len() - k,
    {
        if ls[k] < 1 || ls[k] > count {
            proof {
                assert(!(1 <= ls@[k as int] <= lines_of(text@).len()));
            }
            return false;
        }
        k += 1;
    }
    true
}

} // verus!
