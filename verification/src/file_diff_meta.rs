//! Structural parse of one file's unified-diff text: paths, content
//! hashes, hunks with line ranges, and typed runs of same-kind lines.
use vstd::prelude::*;

use crate::diff_status::{status_of_marker, DiffStatus};
use crate::hash::{all_zeros, valid_hash, GitHash};
use crate::text::{
    all_decimal_digits, decimal_value, find_char_from, first_index_of, first_match, has_prefix,
    lemma_first_index_of, lemma_first_match, lemma_first_match_in_suffix, lines_of, lines_vec,
    match_at, parse_usize, seq_contains_char, split_char, split_on, split_on_str,
    split_once_char, split_once_str, split_str, starts_with_str, strip_prefix_str, str_eq,
    trimmed, trim_spaces,
};

verus! {

/// One per-line record of a hunk: source line number, destination line
/// number, and status. A number is absent exactly where the status says
/// the line does not exist on that side.
pub type LineRecord = (Option<usize>, Option<usize>, DiffStatus);

/// A line record carries exactly the numbers its status calls for.
pub open spec fn line_record_wf(l: LineRecord) -> bool {
    match l.2 {
        DiffStatus::Added => l.0 is None && l.1 is Some,
        DiffStatus::Removed => l.0 is Some && l.1 is None,
        DiffStatus::Unmodified => l.0 is Some && l.1 is Some,
    }
}

/// A maximal run of same-kind lines within a hunk.
#[derive(Debug, Clone, PartialEq, Eq)]
pub enum HunkSection {
    /// Pairs of (source line, destination line)
    Unmodified(Vec<(usize, usize)>),
    /// Destination line numbers
    Added(Vec<usize>),
    /// Source line numbers
    Removed(Vec<usize>),
    /// Source line numbers of a removed run, then destination line numbers
    /// of the added run that directly follows it
    RemovedAdded(Vec<usize>, Vec<usize>),
}

/// The mathematical shape of a hunk section.
pub enum SectionView {
    Unmodified(Seq<(usize, usize)>),
    Added(Seq<usize>),
    Removed(Seq<usize>),
    RemovedAdded(Seq<usize>, Seq<usize>),
}

impl HunkSection {
    pub open spec fn view(self) -> SectionView {
        match self {
            HunkSection::Unmodified(v) => SectionView::Unmodified(v@),
            HunkSection::Added(v) => SectionView::Added(v@),
            HunkSection::Removed(v) => SectionView::Removed(v@),
            HunkSection::RemovedAdded(r, a) => SectionView::RemovedAdded(r@, a@),
        }
    }

    /// Append one line record to this section. The caller only hands a
    /// record whose kind continues the section, per the transition table.
    pub fn append_line(&mut self, line: (Option<usize>, Option<usize>)) -> (nothing: ())
        requires
            match *old(self) {
                HunkSection::Unmodified(_) => line.0 is Some && line.1 is Some,
                HunkSection::Added(_) => line.0 is None && line.1 is Some,
                HunkSection::Removed(_) => line.0 is Some && line.1 is None,
                HunkSection::RemovedAdded(_, _) => line.0 is None && line.1 is Some,
            },
        ensures
            final(self).view() == match *old(self) {
                HunkSection::Unmodified(v) => SectionView::Unmodified(
                    v@.push((line.0->0, line.1->0)),
                ),
                HunkSection::Added(v) => SectionView::Added(v@.push(line.1->0)),
                HunkSection::Removed(v) => SectionView::Removed(v@.push(line.0->0)),
                HunkSection::RemovedAdded(r, a) => SectionView::RemovedAdded(
                    r@,
                    a@.push(line.1->0),
                ),
            },
    {
        match self {
            HunkSection::Unmodified(lines) => {
                if let (Some(src), Some(dst)) = line {
                    lines.push((src, dst));
                }
            },
            HunkSection::Added(lines) => {
                if let Some(dst) = line.1 {
                    lines.push(dst);
                }
            },
            HunkSection::Removed(lines) => {
                if let Some(src) = line.0 {
                    lines.push(src);
                }
            },
            HunkSection::RemovedAdded(_, added) => {
                if let Some(dst) = line.1 {
                    added.push(dst);
                }
            },
        }
    }
}

/// One step of the segmentation transition table: fold the next line
/// record into the section list.
pub open spec fn apply_line(sections: Seq<SectionView>, l: LineRecord) -> Seq<SectionView> {
    let prev = if sections.len() > 0 {
        Some(sections.last())
    } else {
        None
    };
    match l.2 {
        DiffStatus::Added => match prev {
            Some(SectionView::Added(v)) => sections.drop_last().push(
                SectionView::Added(v.push(l.1->0)),
            ),
            Some(SectionView::RemovedAdded(r, a)) => sections.drop_last().push(
                SectionView::RemovedAdded(r, a.push(l.1->0)),
            ),
            Some(SectionView::Removed(r)) => sections.drop_last().push(
                SectionView::RemovedAdded(r, seq![l.1->0]),
            ),
            _ => sections.push(SectionView::Added(seq![l.1->0])),
        },
        DiffStatus::Removed => match prev {
            Some(SectionView::Removed(v)) => sections.drop_last().push(
                SectionView::Removed(v.push(l.0->0)),
            ),
            _ => sections.push(SectionView::Removed(seq![l.0->0])),
        },
        DiffStatus::Unmodified => match prev {
            Some(SectionView::Unmodified(v)) => sections.drop_last().push(
                SectionView::Unmodified(v.push((l.0->0, l.1->0))),
            ),
            _ => sections.push(SectionView::Unmodified(seq![(l.0->0, l.1->0)])),
        },
    }
}

/// The section list that the transition table yields for a line list.
pub open spec fn sections_of(lines: Seq<LineRecord>) -> Seq<SectionView>
    decreases lines.len(),
{
    if lines.len() == 0 {
        Seq::empty()
    } else {
        apply_line(sections_of(lines.drop_last()), lines.last())
    }
}

/// Fold the flat per-line records of a hunk into typed runs, using the
/// segmentation transition table.
pub fn group_hunk_into_sections(lines: &Vec<LineRecord>) -> (r: Vec<HunkSection>)
    requires
        forall|i: int| 0 <= i < lines.len() ==> line_record_wf(#[trigger] lines@[i]),
    ensures
        r@.map_values(|s: HunkSection| s.view()) == sections_of(lines@),
{
    let mut sections: Vec<HunkSection> = Vec::new();
    let mut i: usize = 0;
    proof {
        assert(lines@.subrange(0, 0) =~= Seq::<LineRecord>::empty());
        assert(sections@.map_values(|s: HunkSection| s.view()) =~= sections_of(
            lines@.subrange(0, 0),
        ));
    }
    while i < lines.len()
        invariant
            i <= lines.len(),
            forall|j: int| 0 <= j < lines.len() ==> line_record_wf(#[trigger] lines@[j]),
            sections@.map_values(|s: HunkSection| s.view()) == sections_of(
                lines@.subrange(0, i as int),
            ),
        decreases lines.len() - i,
    {
        let (src_line, dst_line, status) = lines[i];
        proof {
            assert(lines@.subrange(0, i + 1 as int).drop_last() =~= lines@.subrange(0, i as int));
            assert(lines@.subrange(0, i + 1 as int).last() == lines@[i as int]);
            assert(line_record_wf(lines@[i as int]));
        }
        let n = sections.len();
        match status {
            DiffStatus::Added => {
                if n > 0 {
                    let continue_last = match &sections[n - 1] {
                        HunkSection::Added(_) => true,
                        HunkSection::RemovedAdded(_, _) => true,
                        _ => false,
                    };
                    let convert_removed = match &sections[n - 1] {
                        HunkSection::Removed(_) => true,
                        _ => false,
                    };
                    if continue_last {
                        let mut last = sections.pop().unwrap();
                        last.append_line((src_line, dst_line));
                        sections.push(last);
                    } else if convert_removed {
                        let last = sections.pop().unwrap();
                        if let HunkSection::Removed(removed) = last {
                            let mut added: Vec<usize> = Vec::new();
                            added.push(dst_line.unwrap());
                            sections.push(HunkSection::RemovedAdded(removed, added));
                        }
                    } else {
                        let mut v: Vec<usize> = Vec::new();
                        v.push(dst_line.unwrap());
                        sections.push(HunkSection::Added(v));
                    }
                } else {
                    let mut v: Vec<usize> = Vec::new();
                    v.push(dst_line.unwrap());
                    sections.push(HunkSection::Added(v));
                }
            },
            DiffStatus::Removed => {
                let continue_last = n > 0 && match &sections[n - 1] {
                    HunkSection::Removed(_) => true,
                    _ => false,
                };
                if continue_last {
                    let mut last = sections.pop().unwrap();
                    last.append_line((src_line, dst_line));
                    sections.push(last);
                } else {
                    let mut v: Vec<usize> = Vec::new();
                    v.push(src_line.unwrap());
                    sections.push(HunkSection::Removed(v));
                }
            },
            DiffStatus::Unmodified => {
                let continue_last = n > 0 && match &sections[n - 1] {
                    HunkSection::Unmodified(_) => true,
                    _ => false,
                };
                if continue_last {
                    let mut last = sections.pop().unwrap();
                    last.append_line((src_line, dst_line));
                    sections.push(last);
                } else {
                    let mut v: Vec<(usize, usize)> = Vec::new();
                    v.push((src_line.unwrap(), dst_line.unwrap()));
                    sections.push(HunkSection::Unmodified(v));
                }
            },
        }
        proof {
            assert(sections@.map_values(|s: HunkSection| s.view()) =~= sections_of(
                lines@.subrange(0, i + 1 as int),
            ));
        }
        i += 1;
    }
    proof {
        assert(lines@.subrange(0, lines.len() as int) =~= lines@);
    }
    sections
}

/// A decimal count that fits the machine word.
pub open spec fn parses_usize(p: Seq<char>) -> bool {
    p.len() > 0 && all_decimal_digits(p) && decimal_value(p) <= usize::MAX
}

/// The comma-separated pieces a range section offers: an omitted length
/// defaults to 1.
pub open spec fn range_parts(nums: Seq<char>) -> Seq<Seq<char>> {
    if seq_contains_char(nums, ',') {
        split_on(nums, ',')
    } else {
        seq![nums, seq!['1']]
    }
}

/// The pieces that parse as numbers, in order.
pub open spec fn parsed_vals(parts: Seq<Seq<char>>) -> Seq<usize>
    decreases parts.len(),
{
    if parts.len() == 0 {
        Seq::empty()
    } else {
        parsed_vals(parts.drop_last()) + if parses_usize(parts.last()) {
            seq![decimal_value(parts.last()) as usize]
        } else {
            Seq::empty()
        }
    }
}

/// The `(start, end)` a header range section such as `-24,8` denotes:
/// drop the marker, read start and length (length defaults to 1), and the
/// range is `start .. start + length`.
pub open spec fn range_of_section_spec(sec: Seq<char>) -> Option<(usize, usize)> {
    if sec.len() == 0 {
        None
    } else {
        let vals = parsed_vals(range_parts(sec.drop_first()));
        if vals.len() >= 2 && vals[0] + vals[1] <= usize::MAX {
            Some((vals[0], (vals[0] + vals[1]) as usize))
        } else {
            None
        }
    }
}

/// The sections that denote a range, in order.
pub open spec fn section_ranges(secs: Seq<Seq<char>>) -> Seq<(usize, usize)>
    decreases secs.len(),
{
    if secs.len() == 0 {
        Seq::empty()
    } else {
        section_ranges(secs.drop_last()) + match range_of_section_spec(secs.last()) {
            Some(r) => seq![r],
            None => Seq::empty(),
        }
    }
}

/// The source and destination ranges of a hunk header line (the part of
/// the line after the `@@` marker).
pub open spec fn hunk_ranges_of(first: Seq<char>) -> Option<((usize, usize), (usize, usize))> {
    let mid = trimmed(split_on_str(first, "@@"@)[0]);
    let rs = section_ranges(split_on(mid, ' '));
    if rs.len() >= 2 {
        Some((rs[0], rs[1]))
    } else {
        None
    }
}

/// The sentinel line a diff emits for a missing trailing newline; it
/// yields no line record.
pub open spec fn is_no_newline_marker(l: Seq<char>) -> bool {
    l == "\\ No newline at end of file"@
}

/// Walk the marked lines of a hunk, keeping running line counters seeded
/// at the range starts: space advances and records both, `+` only the
/// destination, `-` only the source. `None` on any other marker or on
/// counter overflow.
pub open spec fn walk_lines(ls: Seq<Seq<char>>, src: usize, dst: usize) -> Option<
    Seq<LineRecord>,
>
    decreases ls.len(),
{
    if ls.len() == 0 {
        Some(Seq::empty())
    } else {
        let l = ls[0];
        if is_no_newline_marker(l) {
            walk_lines(ls.drop_first(), src, dst)
        } else {
            let c = if l.len() == 0 {
                ' '
            } else {
                l[0]
            };
            match status_of_marker(c) {
                None => None,
                Some(DiffStatus::Added) => if dst == usize::MAX {
                    None
                } else {
                    match walk_lines(ls.drop_first(), src, (dst + 1) as usize) {
                        None => None,
                        Some(t) => Some(
                            seq![(None::<usize>, Some(dst), DiffStatus::Added)] + t,
                        ),
                    }
                },
                Some(DiffStatus::Removed) => if src == usize::MAX {
                    None
                } else {
                    match walk_lines(ls.drop_first(), (src + 1) as usize, dst) {
                        None => None,
                        Some(t) => Some(
                            seq![(Some(src), None::<usize>, DiffStatus::Removed)] + t,
                        ),
                    }
                },
                Some(DiffStatus::Unmodified) => if src == usize::MAX || dst == usize::MAX {
                    None
                } else {
                    match walk_lines(ls.drop_first(), (src + 1) as usize, (dst + 1) as usize) {
                        None => None,
                        Some(t) => Some(
                            seq![(Some(src), Some(dst), DiffStatus::Unmodified)] + t,
                        ),
                    }
                },
            }
        }
    }
}

/// A contiguous block of a unified diff covering one line range of each
/// revision. Ranges are half-open with a 1-based start.
#[derive(Debug, Clone, PartialEq, Eq)]
pub struct Hunk {
    /// Raw header text
    pub header: String,
    pub src_start: usize,
    pub src_end: usize,
    pub dst_start: usize,
    pub dst_end: usize,
    pub sections: Vec<HunkSection>,
}

/// The mathematical shape of a hunk.
pub struct HunkView {
    pub header: Seq<char>,
    pub src_start: usize,
    pub src_end: usize,
    pub dst_start: usize,
    pub dst_end: usize,
    pub sections: Seq<SectionView>,
}

impl Hunk {
    pub open spec fn view(self) -> HunkView {
        HunkView {
            header: self.header@,
            src_start: self.src_start,
            src_end: self.src_end,
            dst_start: self.dst_start,
            dst_end: self.dst_end,
            sections: self.sections@.map_values(|s: HunkSection| s.view()),
        }
    }
}

/// The hunk a block of diff text (its leading `@@` already removed)
/// denotes, `None` when malformed.
pub open spec fn hunk_spec(s: Seq<char>) -> Option<HunkView> {
    let ls = lines_of(s);
    if ls.len() == 0 {
        None
    } else {
        let first = ls[0];
        match hunk_ranges_of(first) {
            None => None,
            Some(ranges) => match walk_lines(
                ls.drop_first(),
                ranges.0.0,
                ranges.1.0,
            ) {
                None => None,
                Some(records) => Some(
                    HunkView {
                        header: "@@"@ + first,
                        src_start: ranges.0.0,
                        src_end: ranges.0.1,
                        dst_start: ranges.1.0,
                        dst_end: ranges.1.1,
                        sections: sections_of(records),
                    },
                ),
            },
        }
    }
}

/// Parse one range section of a hunk header.
fn range_of_section(sec: &str) -> (r: Option<(usize, usize)>)
    ensures
        r == range_of_section_spec(sec@),
{
    let n = sec.unicode_len();
    if n == 0 {
        return None;
    }
    let nums = sec.substring_char(1, n);
    proof {
        assert(nums@ =~= sec@.drop_first());
    }
    let parts: Vec<String> = match find_char_from(nums, ',', 0) {
        Some(_) => split_char(nums, ','),
        None => {
            let mut v: Vec<String> = Vec::new();
            v.push(nums.to_owned());
            v.push("1".to_owned());
            proof {
                reveal_strlit("1");
                assert("1"@ =~= seq!['1']);
                assert(v.deep_view() =~= seq![nums@, seq!['1']]);
            }
            v
        },
    };
    let ghost gparts = range_parts(sec@.drop_first());
    proof {
        assert(parts.deep_view() == gparts);
    }
    let mut vals: Vec<usize> = Vec::new();
    let mut i: usize = 0;
    proof {
        assert(gparts.subrange(0, 0) =~= Seq::<Seq<char>>::empty());
        assert(vals@ =~= parsed_vals(gparts.subrange(0, 0)));
    }
    while i < parts.len()
        invariant
            i <= parts.len(),
            parts.deep_view() == gparts,
            vals@ == parsed_vals(gparts.subrange(0, i as int)),
        decreases parts.len() - i,
    {
        proof {
            assert(gparts.subrange(0, i + 1 as int).drop_last() =~= gparts.subrange(0, i as int));
            assert(gparts.subrange(0, i + 1 as int).last() == gparts[i as int]);
            assert(parts[i as int]@ == gparts[i as int]);
        }
        match parse_usize(parts[i].as_str()) {
            Some(v) => {
                vals.push(v);
                proof {
                    assert(vals@ =~= parsed_vals(gparts.subrange(0, i + 1 as int)));
                }
            },
            None => {
                proof {
                    assert(vals@ =~= parsed_vals(gparts.subrange(0, i + 1 as int)));
                }
            },
        }
        i += 1;
    }
    proof {
        assert(gparts.subrange(0, parts.len() as int) =~= gparts);
    }
    if vals.len() < 2 {
        return None;
    }
    let a = vals[0];
    let b = vals[1];
    if b > usize::MAX - a {
        return None;
    }
    Some((a, a + b))
}

/// Parse the source and destination ranges from a hunk header line.
fn parse_hunk_ranges(first: &str) -> (r: Option<((usize, usize), (usize, usize))>)
    ensures
        r == hunk_ranges_of(first@),
{
    proof {
        reveal_strlit("@@");
    }
    let mid_parts = split_str(first, "@@");
    proof {
        assert(mid_parts.deep_view().len() >= 1) by {
            assert(mid_parts.deep_view() == split_on_str(first@, "@@"@));
            crate::text::lemma_first_match(first@, "@@"@);
        }
        assert(mid_parts@.len() == mid_parts.deep_view().len());
    }
    let mid = trim_spaces(mid_parts[0].as_str());
    let secs = split_char(mid.as_str(), ' ');
    let ghost gsecs = split_on(mid@, ' ');
    let mut rs: Vec<(usize, usize)> = Vec::new();
    let mut i: usize = 0;
    proof {
        assert(gsecs.subrange(0, 0) =~= Seq::<Seq<char>>::empty());
        assert(rs@ =~= section_ranges(gsecs.subrange(0, 0)));
    }
    while i < secs.len()
        invariant
            i <= secs.len(),
            secs.deep_view() == gsecs,
            rs@ == section_ranges(gsecs.subrange(0, i as int)),
        decreases secs.len() - i,
    {
        proof {
            assert(gsecs.subrange(0, i + 1 as int).drop_last() =~= gsecs.subrange(0, i as int));
            assert(gsecs.subrange(0, i + 1 as int).last() == gsecs[i as int]);
            assert(secs[i as int]@ == gsecs[i as int]);
        }
        match range_of_section(secs[i].as_str()) {
            Some(r) => {
                rs.push(r);
                proof {
                    assert(rs@ =~= section_ranges(gsecs.subrange(0, i + 1 as int)));
                }
            },
            None => {
                proof {
                    assert(rs@ =~= section_ranges(gsecs.subrange(0, i + 1 as int)));
                }
            },
        }
        i += 1;
    }
    proof {
        assert(gsecs.subrange(0, secs.len() as int) =~= gsecs);
    }
    if rs.len() < 2 {
        None
    } else {
        Some((rs[0], rs[1]))
    }
}

/// Walk the marked lines of a hunk into line records.
fn walk_hunk_lines(ls: &Vec<String>, start: usize, src0: usize, dst0: usize) -> (r: Result<
    Vec<LineRecord>,
    String,
>)
    requires
        start <= ls@.len(),
    ensures
        match r {
            Ok(records) => walk_lines(ls.deep_view().subrange(start as int, ls@.len() as int), src0, dst0)
                == Some(records@) && forall|i: int|
                0 <= i < records@.len() ==> line_record_wf(#[trigger] records@[i]),
            Err(_) => walk_lines(ls.deep_view().subrange(start as int, ls@.len() as int), src0, dst0)
                is None,
        },
{
    let n = ls.len();
    let mut records: Vec<LineRecord> = Vec::new();
    let mut src: usize = src0;
    let mut dst: usize = dst0;
    let mut i: usize = start;
    while i < n
        invariant
            start <= i <= n,
            n == ls@.len(),
            ls.deep_view().len() == n,
            forall|j: int| 0 <= j < records@.len() ==> line_record_wf(#[trigger] records@[j]),
            walk_lines(ls.deep_view().subrange(start as int, n as int), src0, dst0) == match walk_lines(
                ls.deep_view().subrange(i as int, n as int),
                src,
                dst,
            ) {
                Some(t) => Some(records@ + t),
                None => None::<Seq<LineRecord>>,
            },
        decreases n - i,
    {
        let ghost rest = ls.deep_view().subrange(i as int, n as int);
        let ghost rest1 = ls.deep_view().subrange(i + 1 as int, n as int);
        proof {
            assert(rest.len() > 0);
            assert(rest[0] == ls.deep_view()[i as int]);
            assert(rest.drop_first() =~= rest1);
        }
        let line = &ls[i];
        proof {
            reveal_strlit("\\ No newline at end of file");
        }
        if str_eq(line.as_str(), "\\ No newline at end of file") {
            i += 1;
            continue;
        }
        let c = if line.as_str().unicode_len() == 0 {
            ' '
        } else {
            line.as_str().get_char(0)
        };
        if c == '+' {
            if dst == usize::MAX {
                return Err("Line counter overflow".to_owned());
            }
            records.push((None, Some(dst), DiffStatus::Added));
            proof {
                assert(records@.drop_last() + (seq![
                    (None::<usize>, Some(dst), DiffStatus::Added),
                ] + walk_lines(rest1, src, (dst + 1) as usize)->0) =~= records@ + walk_lines(
                    rest1,
                    src,
                    (dst + 1) as usize,
                )->0);
            }
            dst = dst + 1;
        } else if c == '-' {
            if src == usize::MAX {
                return Err("Line counter overflow".to_owned());
            }
            records.push((Some(src), None, DiffStatus::Removed));
            proof {
                assert(records@.drop_last() + (seq![
                    (Some(src), None::<usize>, DiffStatus::Removed),
                ] + walk_lines(rest1, (src + 1) as usize, dst)->0) =~= records@ + walk_lines(
                    rest1,
                    (src + 1) as usize,
                    dst,
                )->0);
            }
            src = src + 1;
        } else if c == ' ' {
            if src == usize::MAX || dst == usize::MAX {
                return Err("Line counter overflow".to_owned());
            }
            records.push((Some(src), Some(dst), DiffStatus::Unmodified));
            proof {
                assert(records@.drop_last() + (seq![
                    (Some(src), Some(dst), DiffStatus::Unmodified),
                ] + walk_lines(rest1, (src + 1) as usize, (dst + 1) as usize)->0) =~= records@
                    + walk_lines(rest1, (src + 1) as usize, (dst + 1) as usize)->0);
            }
            src = src + 1;
            dst = dst + 1;
        } else {
            return Err("Invalid diff status".to_owned());
        }
        i += 1;
    }
    proof {
        assert(ls.deep_view().subrange(n as int, n as int) =~= Seq::<Seq<char>>::empty());
        assert(records@ + Seq::<LineRecord>::empty() =~= records@);
    }
    Ok(records)
}

impl Hunk {
    /// Parse one hunk block: the header line (without its leading `@@`)
    /// followed by the marked lines.
    pub fn from_str(s: &str) -> (r: Result<Self, String>)
        ensures
            match r {
                Ok(h) => hunk_spec(s@) == Some(h.view()),
                Err(_) => hunk_spec(s@) is None,
            },
    {
        let ls = lines_vec(s);
        if ls.len() == 0 {
            proof {
                assert(ls.deep_view().len() == 0);
            }
            return Err("Failed to get hunk header".to_owned());
        }
        proof {
            assert(ls.deep_view().len() == ls@.len());
        }
        let first = &ls[0];
        let mut header = "@@".to_owned();
        header.append(first.as_str());
        let ranges = match parse_hunk_ranges(first.as_str()) {
            Some(r) => r,
            None => {
                return Err("Failed to get ranges from hunk header".to_owned());
            },
        };
        let records = match walk_hunk_lines(&ls, 1, ranges.0.0, ranges.1.0) {
            Ok(r) => r,
            Err(e) => {
                proof {
                    assert(ls.deep_view().subrange(1, ls@.len() as int) =~= ls.deep_view()
                        .drop_first());
                }
                return Err(e);
            },
        };
        proof {
            assert(ls.deep_view().subrange(1, ls@.len() as int) =~= ls.deep_view().drop_first());
        }
        let sections = group_hunk_into_sections(&records);
        Ok(
            Self {
                header,
                src_start: ranges.0.0,
                src_end: ranges.0.1,
                dst_start: ranges.1.0,
                dst_end: ranges.1.1,
                sections,
            },
        )
    }
}

/// Index of the first line starting with `p`; `ls.len()` when none does.
pub open spec fn find_prefix_line(ls: Seq<Seq<char>>, p: Seq<char>) -> int
    decreases ls.len(),
{
    if ls.len() == 0 {
        0
    } else if has_prefix(ls[0], p) {
        0
    } else {
        1 + find_prefix_line(ls.drop_first(), p)
    }
}

/// An exec search pins down `find_prefix_line`.
proof fn lemma_find_prefix_line_pin(ls: Seq<Seq<char>>, p: Seq<char>, found: int)
    requires
        0 <= found <= ls.len(),
        found < ls.len() ==> has_prefix(ls[found], p),
        forall|j: int| 0 <= j < found ==> !has_prefix(#[trigger] ls[j], p),
    ensures
        find_prefix_line(ls, p) == if found < ls.len() {
            found
        } else {
            ls.len() as int
        },
    decreases ls.len(),
{
    if ls.len() > 0 && !has_prefix(ls[0], p) {
        assert(found > 0);
        lemma_find_prefix_line_pin(ls.drop_first(), p, found - 1);
    }
}

/// The hash field of an index line: absent when all zeros, present when a
/// well-formed hash, and otherwise a parse failure.
pub open spec fn hash_opt_spec(h: Seq<char>) -> Option<Option<Seq<char>>> {
    if all_zeros(h) {
        Some(None)
    } else if valid_hash(h) {
        Some(Some(h))
    } else {
        None
    }
}

/// All hunk blocks parsed, in order; `None` when any is malformed.
pub open spec fn hunks_spec(parts: Seq<Seq<char>>) -> Option<Seq<HunkView>>
    decreases parts.len(),
{
    if parts.len() == 0 {
        Some(Seq::empty())
    } else {
        match hunk_spec(parts[0]) {
            None => None,
            Some(h) => match hunks_spec(parts.drop_first()) {
                None => None,
                Some(t) => Some(seq![h] + t),
            },
        }
    }
}

/// The parsed description of one file's diff.
#[derive(Debug, Clone, PartialEq, Eq)]
pub struct FileDiffMeta {
    pub src_path: String,
    pub dst_path: String,
    pub src_hash: Option<GitHash>,
    pub dst_hash: Option<GitHash>,
    pub hunks: Vec<Hunk>,
}

/// The mathematical shape of a parsed file diff.
pub struct MetaView {
    pub src_path: Seq<char>,
    pub dst_path: Seq<char>,
    pub src_hash: Option<Seq<char>>,
    pub dst_hash: Option<Seq<char>>,
    pub hunks: Seq<HunkView>,
}

impl FileDiffMeta {
    pub open spec fn view(self) -> MetaView {
        MetaView {
            src_path: self.src_path@,
            dst_path: self.dst_path@,
            src_hash: match self.src_hash {
                Some(h) => Some(h.0@),
                None => None,
            },
            dst_hash: match self.dst_hash {
                Some(h) => Some(h.0@),
                None => None,
            },
            hunks: self.hunks@.map_values(|h: Hunk| h.view()),
        }
    }
}

/// The meaning of one file's raw diff text: the identity line gives the
/// two paths (after their `a/` and `b/` prefixes), the index line the two
/// content hashes, and each following `@@` block one hunk. `None` when
/// any part is malformed.
pub open spec fn meta_spec(s: Seq<char>) -> Option<MetaView> {
    let parts = split_on_str(s, "\n@@"@);
    let hls = lines_of(parts[0]);
    if hls.len() == 0 || !has_prefix(hls[0], "diff --git "@) {
        None
    } else {
        let rest = hls[0].subrange("diff --git "@.len() as int, hls[0].len() as int);
        let m = first_index_of(rest, ' ');
        if m == rest.len() {
            None
        } else {
            let sp_raw = rest.subrange(0, m);
            let dp_raw = rest.subrange(m + 1, rest.len() as int);
            let tail_ls = hls.drop_first();
            let ix = find_prefix_line(tail_ls, "index "@);
            if ix == tail_ls.len() {
                None
            } else {
                let ps = split_on(tail_ls[ix], ' ');
                if ps.len() < 2 {
                    None
                } else {
                    let mm = first_match(ps[1], ".."@);
                    if mm + ".."@.len() > ps[1].len() {
                        None
                    } else {
                        let h1 = ps[1].subrange(0, mm);
                        let h2 = ps[1].subrange(mm + ".."@.len(), ps[1].len() as int);
                        if !has_prefix(sp_raw, "a/"@) || !has_prefix(dp_raw, "b/"@) {
                            None
                        } else {
                            match (hash_opt_spec(h1), hash_opt_spec(h2), hunks_spec(
                                parts.drop_first(),
                            )) {
                                (Some(sh), Some(dh), Some(hs)) => Some(
                                    MetaView {
                                        src_path: sp_raw.subrange(
                                            "a/"@.len() as int,
                                            sp_raw.len() as int,
                                        ),
                                        dst_path: dp_raw.subrange(
                                            "b/"@.len() as int,
                                            dp_raw.len() as int,
                                        ),
                                        src_hash: sh,
                                        dst_hash: dh,
                                        hunks: hs,
                                    },
                                ),
                                _ => None,
                            }
                        }
                    }
                }
            }
        }
    }
}

impl FileDiffMeta {
    /// Parse the raw diff text for one file.
    pub fn from_str(s: &str) -> (r: Result<Self, String>)
        ensures
            match r {
                Ok(m) => meta_spec(s@) == Some(m.view()),
                Err(_) => meta_spec(s@) is None,
            },
    {
        proof {
            reveal_strlit("\n@@");
        }
        let parts = split_str(s, "\n@@");
        proof {
            lemma_first_match(s@, "\n@@"@);
            assert(parts.deep_view().len() >= 1);
            assert(parts@.len() == parts.deep_view().len());
            assert(parts[0 as int]@ == parts.deep_view()[0]);
        }
        let hls = lines_vec(parts[0].as_str());
        proof {
            assert(hls.deep_view().len() == hls@.len());
        }
        if hls.len() == 0 {
            return Err("Failed to get GNU diff command".to_owned());
        }
        let rest = match strip_prefix_str(hls[0].as_str(), "diff --git ") {
            Some(r) => r,
            None => {
                return Err("Failed to get GNU diff command".to_owned());
            },
        };
        let raw_paths = match split_once_char(rest.as_str(), ' ') {
            Some(p) => p,
            None => {
                proof {
                    lemma_first_index_of(rest@, ' ');
                    if first_index_of(rest@, ' ') < rest@.len() {
                        assert(seq_contains_char(rest@, ' '));
                    }
                }
                return Err("Failed to split diff files".to_owned());
            },
        };
        proof {
            let i = choose|i: int|
                0 <= i < rest@.len() && rest@[i] == ' ' && raw_paths.0@ == rest@.subrange(0, i)
                    && raw_paths.1@ == rest@.subrange(i + 1, rest@.len() as int) && forall|j: int|
                    0 <= j < i ==> rest@[j] != ' ';
            crate::text::lemma_first_index_in_suffix(rest@, ' ', 0, i);
            assert(rest@.subrange(0, rest@.len() as int) =~= rest@);
            assert(first_index_of(rest@, ' ') == i);
        }
        // Find the index line among the following header lines.
        let mut ix: usize = 1;
        let ghost tail_ls = hls.deep_view().drop_first();
        let mut found_index = false;
        while ix < hls.len() && !found_index
            invariant
                1 <= ix <= hls@.len(),
                hls.deep_view().len() == hls@.len(),
                hls@.len() >= 1,
                tail_ls == hls.deep_view().drop_first(),
                forall|j: int| 0 <= j < ix - 1 ==> !has_prefix(#[trigger] tail_ls[j], "index "@),
                found_index ==> ix < hls@.len() && has_prefix(
                    hls.deep_view()[ix as int],
                    "index "@,
                ),
            decreases hls@.len() - ix + if found_index {
                0int
            } else {
                1int
            },
        {
            if starts_with_str(hls[ix].as_str(), "index ") {
                found_index = true;
            } else {
                proof {
                    assert(tail_ls[ix - 1] == hls.deep_view()[ix as int]);
                }
                ix += 1;
            }
        }
        if !found_index {
            proof {
                lemma_find_prefix_line_pin(tail_ls, "index "@, tail_ls.len() as int);
            }
            return Err("Failed to get index line".to_owned());
        }
        proof {
            assert(tail_ls[ix - 1] == hls.deep_view()[ix as int]);
            lemma_find_prefix_line_pin(tail_ls, "index "@, ix - 1);
        }
        let ps = split_char(hls[ix].as_str(), ' ');
        proof {
            assert(ps@.len() == ps.deep_view().len());
        }
        if ps.len() < 2 {
            return Err("Failed to get index line".to_owned());
        }
        proof {
            assert(ps[1]@ == ps.deep_view()[1]);
        }
        proof {
            reveal_strlit("..");
        }
        let hashes = match split_once_str(ps[1].as_str(), "..") {
            Some(h) => h,
            None => {
                proof {
                    lemma_first_match(ps[1]@, ".."@);
                    let fm = first_match(ps[1]@, ".."@);
                    if fm + ".."@.len() <= ps[1]@.len() {
                        assert(match_at(ps[1]@, ".."@, fm));
                    }
                }
                return Err("Failed to split hashes".to_owned());
            },
        };
        proof {
            let i = choose|i: int|
                match_at(ps[1]@, ".."@, i) && hashes.0@ == ps[1]@.subrange(0, i) && hashes.1@
                    == ps[1]@.subrange(i + ".."@.len(), ps[1]@.len() as int) && forall|j: int|
                    0 <= j < i ==> !match_at(ps[1]@, ".."@, j);
            lemma_first_match_in_suffix(ps[1]@, ".."@, 0, i);
            assert(ps[1]@.subrange(0, ps[1]@.len() as int) =~= ps[1]@);
            assert(first_match(ps[1]@, ".."@) == i);
        }
        let src_path = match strip_prefix_str(raw_paths.0.as_str(), "a/") {
            Some(p) => p,
            None => {
                return Err("Src path missing prefix".to_owned());
            },
        };
        let dst_path = match strip_prefix_str(raw_paths.1.as_str(), "b/") {
            Some(p) => p,
            None => {
                return Err("Dst path missing prefix".to_owned());
            },
        };
        let src_hash = match GitHash::from_optional(hashes.0.as_str()) {
            Ok(h) => h,
            Err(e) => {
                return Err(e);
            },
        };
        let dst_hash = match GitHash::from_optional(hashes.1.as_str()) {
            Ok(h) => h,
            Err(e) => {
                return Err(e);
            },
        };
        // Parse each following block as a hunk.
        let ghost gparts = parts.deep_view();
        let mut hunks: Vec<Hunk> = Vec::new();
        let mut i: usize = 1;
        proof {
            assert(gparts.subrange(1, gparts.len() as int) =~= gparts.drop_first());
        }
        while i < parts.len()
            invariant
                1 <= i <= parts@.len(),
                gparts == parts.deep_view(),
                gparts == split_on_str(s@, "\n@@"@),
                gparts.len() == parts@.len(),
                hunks_spec(gparts.drop_first()) == match hunks_spec(
                    gparts.subrange(i as int, gparts.len() as int),
                ) {
                    None => None::<Seq<HunkView>>,
                    Some(t) => Some(hunks@.map_values(|h: Hunk| h.view()) + t),
                },
            decreases parts@.len() - i,
        {
            let ghost grest = gparts.subrange(i as int, gparts.len() as int);
            proof {
                assert(grest.len() > 0);
                assert(grest[0] == gparts[i as int]);
                assert(grest.drop_first() =~= gparts.subrange(i + 1 as int, gparts.len() as int));
                assert(parts[i as int]@ == gparts[i as int]);
            }
            match Hunk::from_str(parts[i].as_str()) {
                Ok(h) => {
                    hunks.push(h);
                    proof {
                        let hviews = hunks@.map_values(|h: Hunk| h.view());
                        assert(hviews =~= hviews.drop_last().push(h.view()));
                        if hunks_spec(grest.drop_first()) is Some {
                            assert(hviews.drop_last() + (seq![h.view()] + hunks_spec(
                                grest.drop_first(),
                            )->0) =~= hviews + hunks_spec(grest.drop_first())->0);
                        }
                    }
                },
                Err(e) => {
                    proof {
                        assert(hunks_spec(grest) is None);
                        assert(gparts.drop_first() =~= gparts.subrange(1, gparts.len() as int));
                        assert(hunks_spec(gparts.drop_first()) is None);
                    }
                    return Err(e);
                },
            }
            i += 1;
        }
        proof {
            assert(gparts.subrange(parts@.len() as int, gparts.len() as int) =~= Seq::<
                Seq<char>,
            >::empty());
            assert(hunks@.map_values(|h: Hunk| h.view()) + Seq::<HunkView>::empty()
                =~= hunks@.map_values(|h: Hunk| h.view()));
        }
        Ok(
            Self {
                src_path,
                dst_path,
                src_hash,
                dst_hash,
                hunks,
            },
        )
    }
}

} // verus!
