//! Per-file change records, parsed from the raw listings the version
//! control tool prints for a commit or for the working tree status.
use vstd::prelude::*;

use crate::file_diff_meta::hash_opt_spec;
use crate::file_status::{file_status_of, FileStatus};
use crate::hash::GitHash;
use crate::text::{
    all_decimal_digits, decimal_value, first_index_of, lemma_first_index_in_suffix,
    lemma_first_index_of, parse_usize, split_char, split_on, split_on_str, split_once_char,
    split_str, split_whitespace, strip_prefix_str, str_eq, ws_split,
};

verus! {

/// One changed file: the content hash of each existing side, the change
/// status, an optional similarity score, and the path (with a separate
/// destination path for copies and renames).
#[derive(Debug, Clone)]
pub struct File {
    /// None if status is addition or unmerged
    pub src_hash: Option<GitHash>,
    /// None if status is deletion, unmerged or "work tree out of sync with the index"
    pub dst_hash: Option<GitHash>,
    pub status: FileStatus,
    /// Optional similarity percentage (0..100) if status is copied, renamed, or modified
    pub score: Option<u8>,
    pub src_path: String,
    /// Optional destination path if status is copied or renamed
    pub dst_path: Option<String>,
}

/// The mathematical shape of a changed-file record.
pub struct FileView {
    pub src_hash: Option<Seq<char>>,
    pub dst_hash: Option<Seq<char>>,
    pub status: FileStatus,
    pub score: Option<u8>,
    pub src_path: Seq<char>,
    pub dst_path: Option<Seq<char>>,
}

impl File {
    pub open spec fn view(self) -> FileView {
        FileView {
            src_hash: match self.src_hash {
                Some(h) => Some(h.0@),
                None => None,
            },
            dst_hash: match self.dst_hash {
                Some(h) => Some(h.0@),
                None => None,
            },
            status: self.status,
            score: self.score,
            src_path: self.src_path@,
            dst_path: match self.dst_path {
                Some(p) => Some(p@),
                None => None,
            },
        }
    }
}

/// A similarity score: the digits after the status letter, a number up
/// to 255; anything else is no score.
pub open spec fn score_of(digits: Seq<char>) -> Option<u8> {
    if digits.len() > 0 && all_decimal_digits(digits) && decimal_value(digits) <= 255 {
        Some(decimal_value(digits) as u8)
    } else {
        None
    }
}

/// The record one line of a raw per-commit file listing denotes, `None`
/// when malformed: two space-separated fields are skipped, then the two
/// hashes, then the status letter with an optional score, a NUL, and the
/// path (with a second NUL before a destination path).
pub open spec fn file_entry_spec(s: Seq<char>) -> Option<FileView> {
    let parts = split_on(s, ' ');
    if parts.len() < 5 {
        None
    } else {
        match (hash_opt_spec(parts[2]), hash_opt_spec(parts[3])) {
            (Some(sh), Some(dh)) => {
                let p4 = parts[4];
                let m = first_index_of(p4, '\u{0}');
                if m == p4.len() {
                    None
                } else {
                    let status_str = p4.subrange(0, m);
                    let paths = p4.subrange(m + 1, p4.len() as int);
                    if status_str.len() == 0 {
                        None
                    } else {
                        match file_status_of(status_str[0]) {
                            None => None,
                            Some(status) => {
                                let score_str = status_str.drop_first();
                                let score_ok = score_str.len() == 0 || (all_decimal_digits(
                                    score_str,
                                ) && decimal_value(score_str) <= 255);
                                if !score_ok {
                                    None
                                } else {
                                    let m2 = first_index_of(paths, '\u{0}');
                                    let sp = if m2 < paths.len() {
                                        paths.subrange(0, m2)
                                    } else {
                                        paths
                                    };
                                    let dp = if m2 < paths.len() {
                                        Some(paths.subrange(m2 + 1, paths.len() as int))
                                    } else {
                                        None
                                    };
                                    Some(
                                        FileView {
                                            src_hash: sh,
                                            dst_hash: dh,
                                            status,
                                            score: if score_str.len() == 0 {
                                                None
                                            } else {
                                                score_of(score_str)
                                            },
                                            src_path: sp,
                                            dst_path: dp,
                                        },
                                    )
                                }
                            },
                        }
                    }
                }
            },
            _ => None,
        }
    }
}

impl File {
    /// Parse one line of a raw per-commit file listing.
    #[verifier::loop_isolation(false)]
    pub fn from_str(s: &str) -> (r: Result<Self, String>)
        ensures
            match r {
                Ok(f) => file_entry_spec(s@) == Some(f.view()),
                Err(_) => file_entry_spec(s@) is None,
            },
    {
        let parts = split_char(s, ' ');
        proof {
            assert(parts@.len() == parts.deep_view().len());
        }
        if parts.len() < 5 {
            return Err("Failed to get file fields".to_owned());
        }
        proof {
            assert(parts[2 as int]@ == parts.deep_view()[2]);
            assert(parts[3 as int]@ == parts.deep_view()[3]);
            assert(parts[4 as int]@ == parts.deep_view()[4]);
        }
        let src_hash = match GitHash::from_optional(parts[2].as_str()) {
            Ok(h) => h,
            Err(e) => {
                return Err(e);
            },
        };
        let dst_hash = match GitHash::from_optional(parts[3].as_str()) {
            Ok(h) => h,
            Err(e) => {
                return Err(e);
            },
        };
        let p4 = &parts[4];
        let pair = match split_once_char(p4.as_str(), '\u{0}') {
            Some(p) => p,
            None => {
                proof {
                    lemma_first_index_of(p4@, '\u{0}');
                    if first_index_of(p4@, '\u{0}') < p4@.len() {
                        assert(crate::text::seq_contains_char(p4@, '\u{0}'));
                    }
                }
                return Err("Failed to split file status and paths".to_owned());
            },
        };
        proof {
            let i = choose|i: int|
                0 <= i < p4@.len() && p4@[i] == '\u{0}' && pair.0@ == p4@.subrange(0, i) && pair.1@
                    == p4@.subrange(i + 1, p4@.len() as int) && forall|j: int|
                    0 <= j < i ==> p4@[j] != '\u{0}';
            lemma_first_index_in_suffix(p4@, '\u{0}', 0, i);
            assert(p4@.subrange(0, p4@.len() as int) =~= p4@);
            assert(first_index_of(p4@, '\u{0}') == i);
        }
        let status_str = pair.0;
        let paths = pair.1;
        let sn = status_str.as_str().unicode_len();
        if sn == 0 {
            return Err("Failed to get file status".to_owned());
        }
        let status = match FileStatus::try_from(status_str.as_str().get_char(0)) {
            Ok(st) => st,
            Err(_) => {
                return Err("Invalid file status".to_owned());
            },
        };
        let score_str = status_str.as_str().substring_char(1, sn);
        proof {
            assert(score_str@ =~= status_str@.drop_first());
        }
        let score: Option<u8> = if score_str.unicode_len() == 0 {
            None
        } else {
            match parse_usize(score_str) {
                Some(v) if v <= 255 => Some(v as u8),
                _ => {
                    return Err("Failed to parse file score".to_owned());
                },
            }
        };
        let (src_path, dst_path): (String, Option<String>) = match split_once_char(
            paths.as_str(),
            '\u{0}',
        ) {
            Some(p2) => {
                proof {
                    let i = choose|i: int|
                        0 <= i < paths@.len() && paths@[i] == '\u{0}' && p2.0@ == paths@.subrange(
                            0,
                            i,
                        ) && p2.1@ == paths@.subrange(i + 1, paths@.len() as int) && forall|j: int|
                            0 <= j < i ==> paths@[j] != '\u{0}';
                    lemma_first_index_in_suffix(paths@, '\u{0}', 0, i);
                    assert(paths@.subrange(0, paths@.len() as int) =~= paths@);
                    assert(first_index_of(paths@, '\u{0}') == i);
                }
                (p2.0, Some(p2.1))
            },
            None => {
                proof {
                    lemma_first_index_of(paths@, '\u{0}');
                    if first_index_of(paths@, '\u{0}') < paths@.len() {
                        assert(crate::text::seq_contains_char(paths@, '\u{0}'));
                    }
                }
                (paths, None)
            },
        };
        Ok(Self { src_hash, dst_hash, status, score, src_path, dst_path })
    }
}

/// The records of a whole raw per-commit file listing, `None` when
/// malformed: a leading colon and a trailing NUL frame the list, and
/// each further record starts after a NUL-colon pair.
pub open spec fn commit_files_spec(s: Seq<char>) -> Option<Seq<FileView>> {
    if !(s.len() >= 1 && s[0] == ':') {
        None
    } else {
        let no_prefix = s.subrange(1, s.len() as int);
        if !(no_prefix.len() >= 1 && no_prefix.last() == '\u{0}') {
            None
        } else {
            let body = no_prefix.drop_last();
            file_entries_spec(split_on_str(body, seq!['\u{0}', ':']))
        }
    }
}

pub open spec fn file_entries_spec(items: Seq<Seq<char>>) -> Option<Seq<FileView>>
    decreases items.len(),
{
    if items.len() == 0 {
        Some(Seq::empty())
    } else {
        match (file_entries_spec(items.drop_last()), file_entry_spec(items.last())) {
            (Some(t), Some(f)) => Some(t.push(f)),
            _ => None,
        }
    }
}

/// Parse the raw file listing of one commit into its records.
#[verifier::loop_isolation(false)]
pub fn parse_commit_files(s: &str) -> (r: Result<Vec<File>, String>)
    ensures
        match r {
            Ok(fs) => commit_files_spec(s@) == Some(
                fs@.map_values(|f: File| f.view()),
            ),
            Err(_) => commit_files_spec(s@) is None,
        },
{
    let no_prefix = match strip_prefix_str(s, ":") {
        Some(rest) => rest,
        None => {
            proof {
                reveal_strlit(":");
                if s@.len() >= 1 && s@[0] == ':' {
                    assert(s@.subrange(0, 1) =~= ":"@);
                }
            }
            return Err("Failed to strip files prefix".to_owned());
        },
    };
    proof {
        reveal_strlit(":");
        assert(s@.subrange(1, s@.len() as int) == no_prefix@);
        assert(s@.subrange(0, 1)[0] == s@[0]);
        assert(s@[0] == ':');
    }
    let nn = no_prefix.as_str().unicode_len();
    if nn == 0 || no_prefix.as_str().get_char(nn - 1) != '\u{0}' {
        return Err("Failed to strip files suffix".to_owned());
    }
    let body = no_prefix.as_str().substring_char(0, nn - 1);
    proof {
        assert(body@ =~= no_prefix@.drop_last());
    }
    proof {
        reveal_strlit("\u{0}:");
        assert("\u{0}:"@ =~= seq!['\u{0}', ':']);
    }
    let items = split_str(body, "\u{0}:");
    let ghost gitems = split_on_str(body@, seq!['\u{0}', ':']);
    proof {
        assert(items.deep_view() == gitems);
        assert(items@.len() == gitems.len());
    }
    let mut files: Vec<File> = Vec::new();
    let mut i: usize = 0;
    proof {
        assert(gitems.subrange(0, 0) =~= Seq::<Seq<char>>::empty());
        assert(file_entries_spec(gitems.subrange(0, 0)) == Some(
            Seq::<FileView>::empty(),
        ));
        assert(files@.map_values(|f: File| f.view()) =~= Seq::<FileView>::empty());
    }
    while i < items.len()
        invariant
            i <= items@.len(),
            gitems == items.deep_view(),
            gitems.len() == items@.len(),
            file_entries_spec(gitems.subrange(0, i as int)) == Some(
                files@.map_values(|f: File| f.view()),
            ),
        decreases items@.len() - i,
    {
        proof {
            assert(gitems.subrange(0, i + 1 as int).drop_last() =~= gitems.subrange(0, i as int));
            assert(gitems.subrange(0, i + 1 as int).last() == gitems[i as int]);
            assert(items[i as int]@ == gitems[i as int]);
        }
        match File::from_str(items[i].as_str()) {
            Ok(f) => {
                files.push(f);
                proof {
                    assert(files@.map_values(|f: File| f.view()) =~= files@.map_values(
                        |f: File| f.view(),
                    ).drop_last().push(f.view()));
                }
            },
            Err(e) => {
                proof {
                    assert(file_entries_spec(gitems.subrange(0, i + 1 as int)) is None);
                    lemma_file_entries_prefix_none(gitems, i + 1);
                }
                return Err(e);
            },
        }
        i += 1;
    }
    proof {
        assert(gitems.subrange(0, items@.len() as int) =~= gitems);
    }
    Ok(files)
}

/// A status letter of a two-letter staged/unstaged pair: a dot means no
/// change on that side, and an unknown letter is ignored the same way.
pub open spec fn map_status_char(c: char) -> Option<FileStatus> {
    if c == '.' {
        None
    } else {
        file_status_of(c)
    }
}

/// What one record of the working-tree status listing contributes: a
/// staged entry, an unstaged entry, both, or neither; `None` when the
/// record is malformed.
pub open spec fn changed_item_spec(item: Seq<char>) -> Option<
    (Option<FileView>, Option<FileView>),
> {
    let m = first_index_of(item, ' ');
    if m == item.len() {
        None
    } else {
        let lt = item.subrange(0, m);
        let rest = item.subrange(m + 1, item.len() as int);
        if lt == "1"@ || lt == "2"@ || lt == "u"@ {
            changed_tracked_item_spec(lt, rest)
        } else if lt == "?"@ {
            Some(
                (
                    None,
                    Some(
                        FileView {
                            src_hash: None,
                            dst_hash: None,
                            status: FileStatus::Added,
                            score: None,
                            src_path: rest,
                            dst_path: None,
                        },
                    ),
                ),
            )
        } else {
            Some((None, None))
        }
    }
}

/// A tracked record: the two status letters, four skipped fields (five
/// for an unmerged record), the two hashes, and the type's own score,
/// destination path and path fields.
pub open spec fn changed_tracked_item_spec(lt: Seq<char>, rest: Seq<char>) -> Option<
    (Option<FileView>, Option<FileView>),
> {
    let m2 = first_index_of(rest, ' ');
    if m2 == rest.len() {
        None
    } else {
        let st = rest.subrange(0, m2);
        let body = rest.subrange(m2 + 1, rest.len() as int);
        if st.len() < 2 {
            None
        } else {
            let staged_status = map_status_char(st[0]);
            let unstaged_status = map_status_char(st[1]);
            let parts = ws_split(body);
            let s0: int = if lt == "u"@ {
                5
            } else {
                4
            };
            let fields: Option<(Option<u8>, Option<Seq<char>>, Seq<char>)> = if lt == "1"@ {
                if parts.len() <= s0 + 2 {
                    None
                } else {
                    Some((None, None, parts[s0 + 2]))
                }
            } else if lt == "2"@ {
                if parts.len() <= s0 + 4 {
                    None
                } else {
                    Some(
                        (
                            score_of(parts[s0 + 2].drop_first()),
                            Some(parts[s0 + 3]),
                            parts[s0 + 4],
                        ),
                    )
                }
            } else {
                if parts.len() <= s0 + 3 {
                    None
                } else {
                    Some((None, None, parts[s0 + 3]))
                }
            };
            if parts.len() <= s0 + 1 {
                None
            } else {
                match fields {
                    None => None,
                    Some(f) => {
                        if staged_status is None && unstaged_status is None {
                            Some((None, None))
                        } else {
                            match (hash_opt_spec(parts[s0]), hash_opt_spec(parts[s0 + 1])) {
                                (Some(sh), Some(dh)) => Some(
                                    (
                                        match staged_status {
                                            Some(st0) => Some(
                                                FileView {
                                                    src_hash: sh,
                                                    dst_hash: dh,
                                                    status: st0,
                                                    score: f.0,
                                                    src_path: f.2,
                                                    dst_path: f.1,
                                                },
                                            ),
                                            None => None,
                                        },
                                        match unstaged_status {
                                            Some(st1) => Some(
                                                FileView {
                                                    src_hash: sh,
                                                    dst_hash: dh,
                                                    status: st1,
                                                    score: f.0,
                                                    src_path: f.2,
                                                    dst_path: f.1,
                                                },
                                            ),
                                            None => None,
                                        },
                                    ),
                                ),
                                _ => None,
                            }
                        }
                    },
                }
            }
        }
    }
}

/// The staged and unstaged entries the whole listing folds into, in
/// order; `None` when any record is malformed.
pub open spec fn changed_fold(items: Seq<Seq<char>>) -> Option<(Seq<FileView>, Seq<FileView>)>
    decreases items.len(),
{
    if items.len() == 0 {
        Some((Seq::empty(), Seq::empty()))
    } else {
        match (changed_fold(items.drop_last()), changed_item_spec(items.last())) {
            (Some(acc), Some(entry)) => Some(
                (
                    match entry.0 {
                        Some(f) => acc.0.push(f),
                        None => acc.0,
                    },
                    match entry.1 {
                        Some(f) => acc.1.push(f),
                        None => acc.1,
                    },
                ),
            ),
            _ => None,
        }
    }
}

/// The unstaged and staged file lists of a NUL-terminated working-tree
/// status listing, in that order; `None` when malformed.
pub open spec fn changed_files_spec(s: Seq<char>) -> Option<(Seq<FileView>, Seq<FileView>)> {
    if !(s.len() >= 1 && s.last() == '\u{0}') {
        None
    } else {
        match changed_fold(split_on(s.drop_last(), '\u{0}')) {
            Some(acc) => Some((acc.1, acc.0)),
            None => None,
        }
    }
}

fn map_status_char_exec(c: char) -> (r: Option<FileStatus>)
    ensures
        r == map_status_char(c),
{
    if c == '.' {
        None
    } else {
        match FileStatus::try_from(c) {
            Ok(st) => Some(st),
            Err(_) => None,
        }
    }
}

/// Parse one record of the working-tree status listing.
#[verifier::loop_isolation(false)]
#[verifier::rlimit(100)]
fn parse_changed_item(item: &str) -> (r: Result<(Option<File>, Option<File>), String>)
    ensures
        match r {
            Ok(pair) => changed_item_spec(item@) == Some(
                (
                    match pair.0 {
                        Some(f) => Some(f.view()),
                        None => None,
                    },
                    match pair.1 {
                        Some(f) => Some(f.view()),
                        None => None,
                    },
                ),
            ),
            Err(_) => changed_item_spec(item@) is None,
        },
{
    let head = match split_once_char(item, ' ') {
        Some(p) => p,
        None => {
            proof {
                lemma_first_index_of(item@, ' ');
                if first_index_of(item@, ' ') < item@.len() {
                    assert(crate::text::seq_contains_char(item@, ' '));
                }
            }
            return Err("Failed to split item".to_owned());
        },
    };
    proof {
        let i = choose|i: int|
            0 <= i < item@.len() && item@[i] == ' ' && head.0@ == item@.subrange(0, i) && head.1@
                == item@.subrange(i + 1, item@.len() as int) && forall|j: int|
                0 <= j < i ==> item@[j] != ' ';
        lemma_first_index_in_suffix(item@, ' ', 0, i);
        assert(item@.subrange(0, item@.len() as int) =~= item@);
        assert(first_index_of(item@, ' ') == i);
    }
    let lt = head.0;
    let rest = head.1;
    let tracked_type = str_eq(lt.as_str(), "1") || str_eq(lt.as_str(), "2") || str_eq(
        lt.as_str(),
        "u",
    );
    if !tracked_type {
        if str_eq(lt.as_str(), "?") {
            return Ok(
                (
                    None,
                    Some(
                        File {
                            src_hash: None,
                            dst_hash: None,
                            status: FileStatus::Added,
                            score: None,
                            src_path: rest,
                            dst_path: None,
                        },
                    ),
                ),
            );
        }
        return Ok((None, None));
    }
    let head2 = match split_once_char(rest.as_str(), ' ') {
        Some(p) => p,
        None => {
            proof {
                lemma_first_index_of(rest@, ' ');
                if first_index_of(rest@, ' ') < rest@.len() {
                    assert(crate::text::seq_contains_char(rest@, ' '));
                }
            }
            return Err("Failed to split item".to_owned());
        },
    };
    proof {
        let i = choose|i: int|
            0 <= i < rest@.len() && rest@[i] == ' ' && head2.0@ == rest@.subrange(0, i) && head2.1@
                == rest@.subrange(i + 1, rest@.len() as int) && forall|j: int|
                0 <= j < i ==> rest@[j] != ' ';
        lemma_first_index_in_suffix(rest@, ' ', 0, i);
        assert(rest@.subrange(0, rest@.len() as int) =~= rest@);
        assert(first_index_of(rest@, ' ') == i);
    }
    let st = head2.0;
    let body = head2.1;
    if st.as_str().unicode_len() < 2 {
        return Err("Failed to get file statuses".to_owned());
    }
    let staged_status = map_status_char_exec(st.as_str().get_char(0));
    let unstaged_status = map_status_char_exec(st.as_str().get_char(1));
    let parts = split_whitespace(body.as_str());
    proof {
        assert(parts@.len() == parts.deep_view().len());
    }
    let s0: usize = if str_eq(lt.as_str(), "u") {
        5
    } else {
        4
    };
    if parts.len() <= s0 + 1 {
        return Err("Failed to get head hash".to_owned());
    }
    let fields: (Option<u8>, Option<String>, &String) = if str_eq(lt.as_str(), "1") {
        if parts.len() <= s0 + 2 {
            return Err("Failed to get path for type 1".to_owned());
        }
        proof {
            assert(parts[s0 + 2 as int]@ == parts.deep_view()[s0 + 2]);
        }
        (None, None, &parts[s0 + 2])
    } else if str_eq(lt.as_str(), "2") {
        if parts.len() <= s0 + 4 {
            return Err("Failed to get fields for type 2".to_owned());
        }
        let score_field = &parts[s0 + 2];
        proof {
            assert(parts[s0 + 2 as int]@ == parts.deep_view()[s0 + 2]);
            assert(parts.deep_view()[s0 + 2].len() > 0);
        }
        let sn = score_field.as_str().unicode_len();
        let score_digits = score_field.as_str().substring_char(1, sn);
        proof {
            assert(parts[s0 + 3 as int]@ == parts.deep_view()[s0 + 3]);
            assert(parts[s0 + 4 as int]@ == parts.deep_view()[s0 + 4]);
            assert(score_digits@ =~= parts.deep_view()[s0 + 2].drop_first());
        }
        let score: Option<u8> = match parse_usize(score_digits) {
            Some(v) if v <= 255 => Some(v as u8),
            _ => None,
        };
        proof {
            assert(score == score_of(parts.deep_view()[s0 + 2].drop_first()));
        }
        (score, Some(parts[s0 + 3].clone()), &parts[s0 + 4])
    } else {
        if parts.len() <= s0 + 3 {
            return Err("Failed to get path for type u".to_owned());
        }
        proof {
            assert(parts[s0 + 3 as int]@ == parts.deep_view()[s0 + 3]);
        }
        (None, None, &parts[s0 + 3])
    };
    if staged_status.is_none() && unstaged_status.is_none() {
        return Ok((None, None));
    }
    proof {
        assert(parts[s0 as int]@ == parts.deep_view()[s0 as int]);
        assert(parts[s0 + 1 as int]@ == parts.deep_view()[s0 + 1]);
    }
    let src_hash = match GitHash::from_optional(parts[s0].as_str()) {
        Ok(h) => h,
        Err(_) => {
            return Err("Failed to parse head hash".to_owned());
        },
    };
    let dst_hash = match GitHash::from_optional(parts[s0 + 1].as_str()) {
        Ok(h) => h,
        Err(_) => {
            return Err("Failed to parse index hash".to_owned());
        },
    };
    proof {
        assert(hash_opt_spec(parts.deep_view()[s0 as int]) == Some(
            match src_hash {
                Some(h) => Some(h.0@),
                None => None::<Seq<char>>,
            },
        ));
        assert(hash_opt_spec(parts.deep_view()[s0 + 1]) == Some(
            match dst_hash {
                Some(h) => Some(h.0@),
                None => None::<Seq<char>>,
            },
        ));
    }
    let staged_file = match staged_status {
        Some(st0) => Some(
            File {
                src_hash: match &src_hash {
                    Some(h) => Some(GitHash(h.0.clone())),
                    None => None,
                },
                dst_hash: match &dst_hash {
                    Some(h) => Some(GitHash(h.0.clone())),
                    None => None,
                },
                status: st0,
                score: fields.0,
                src_path: fields.2.clone(),
                dst_path: match &fields.1 {
                    Some(p) => Some(p.clone()),
                    None => None,
                },
            },
        ),
        None => None,
    };
    let unstaged_file = match unstaged_status {
        Some(st1) => Some(
            File {
                src_hash,
                dst_hash,
                status: st1,
                score: fields.0,
                src_path: fields.2.clone(),
                dst_path: fields.1,
            },
        ),
        None => None,
    };
    proof {
        let gl = head.0@;
        let gr = head.1@;
        assert(changed_item_spec(item@) == changed_tracked_item_spec(gl, gr));
        let m2v = first_index_of(gr, ' ');
        assert(m2v < gr.len());
        assert(gr.subrange(0, m2v) == st@);
        assert(gr.subrange(m2v + 1, gr.len() as int) == body@);
        assert(st@.len() >= 2);
        assert(map_status_char(st@[0]) == staged_status);
        assert(map_status_char(st@[1]) == unstaged_status);
        assert(ws_split(body@) == parts.deep_view());
        assert((if gl == "u"@ { 5int } else { 4int }) == s0 as int);
        let gparts = ws_split(body@);
        let gfields: Option<(Option<u8>, Option<Seq<char>>, Seq<char>)> = if gl == "1"@ {
            if gparts.len() <= s0 + 2 {
                None
            } else {
                Some((None, None, gparts[s0 + 2]))
            }
        } else if gl == "2"@ {
            if gparts.len() <= s0 + 4 {
                None
            } else {
                Some(
                    (
                        score_of(gparts[s0 + 2].drop_first()),
                        Some(gparts[s0 + 3]),
                        gparts[s0 + 4],
                    ),
                )
            }
        } else {
            if gparts.len() <= s0 + 3 {
                None
            } else {
                Some((None, None, gparts[s0 + 3]))
            }
        };
        assert(gfields is Some);
        assert((gfields->0).0 == fields.0);
        assert((gfields->0).1 == match fields.1 {
            Some(p) => Some(p@),
            None => None::<Seq<char>>,
        });
        assert((gfields->0).2 == fields.2@);
        match &staged_file {
            Some(f) => {
                assert(staged_status is Some);
                assert(f.view() == FileView {
                    src_hash: match src_hash {
                        Some(h) => Some(h.0@),
                        None => None::<Seq<char>>,
                    },
                    dst_hash: match dst_hash {
                        Some(h) => Some(h.0@),
                        None => None::<Seq<char>>,
                    },
                    status: staged_status->0,
                    score: fields.0,
                    src_path: fields.2@,
                    dst_path: match fields.1 {
                        Some(p) => Some(p@),
                        None => None::<Seq<char>>,
                    },
                });
            },
            None => {
                assert(staged_status is None);
            },
        }
        assert(changed_tracked_item_spec(gl, gr) == Some(
            (
                match staged_file {
                    Some(f) => Some(f.view()),
                    None => None::<FileView>,
                },
                match unstaged_file {
                    Some(f) => Some(f.view()),
                    None => None::<FileView>,
                },
            ),
        ));
    }
    Ok((staged_file, unstaged_file))
}

/// Parse the working-tree status listing into its unstaged and staged
/// file lists, in that order.
#[verifier::loop_isolation(false)]
#[verifier::rlimit(100)]
pub fn parse_changed_files(s: &str) -> (r: Result<(Vec<File>, Vec<File>), String>)
    ensures
        match r {
            Ok(pair) => changed_files_spec(s@) == Some(
                (
                    pair.0@.map_values(|f: File| f.view()),
                    pair.1@.map_values(|f: File| f.view()),
                ),
            ),
            Err(_) => changed_files_spec(s@) is None,
        },
{
    let n = s.unicode_len();
    if n == 0 || s.get_char(n - 1) != '\u{0}' {
        return Err("Failed to strip files suffix".to_owned());
    }
    let body = s.substring_char(0, n - 1);
    proof {
        assert(body@ =~= s@.drop_last());
    }
    let items = split_char(body, '\u{0}');
    let ghost gitems = split_on(body@, '\u{0}');
    proof {
        assert(items.deep_view() == gitems);
        assert(items@.len() == gitems.len());
    }
    let mut staged_files: Vec<File> = Vec::new();
    let mut unstaged_files: Vec<File> = Vec::new();
    let mut i: usize = 0;
    proof {
        assert(gitems.subrange(0, 0) =~= Seq::<Seq<char>>::empty());
        assert(staged_files@.map_values(|f: File| f.view()) =~= Seq::<FileView>::empty());
        assert(unstaged_files@.map_values(|f: File| f.view()) =~= Seq::<FileView>::empty());
    }
    while i < items.len()
        invariant
            i <= items@.len(),
            changed_fold(gitems.subrange(0, i as int)) == Some(
                (
                    staged_files@.map_values(|f: File| f.view()),
                    unstaged_files@.map_values(|f: File| f.view()),
                ),
            ),
        decreases items@.len() - i,
    {
        proof {
            assert(gitems.subrange(0, i + 1 as int).drop_last() =~= gitems.subrange(0, i as int));
            assert(gitems.subrange(0, i + 1 as int).last() == gitems[i as int]);
            assert(items[i as int]@ == gitems[i as int]);
        }
        match parse_changed_item(items[i].as_str()) {
            Ok(pair) => {
                if let Some(f) = pair.0 {
                    staged_files.push(f);
                    proof {
                        assert(staged_files@.map_values(|f: File| f.view())
                            =~= staged_files@.map_values(|f: File| f.view()).drop_last().push(
                            staged_files@.last().view(),
                        ));
                    }
                }
                if let Some(f) = pair.1 {
                    unstaged_files.push(f);
                    proof {
                        assert(unstaged_files@.map_values(|f: File| f.view())
                            =~= unstaged_files@.map_values(|f: File| f.view()).drop_last().push(
                            unstaged_files@.last().view(),
                        ));
                    }
                }
            },
            Err(e) => {
                proof {
                    lemma_changed_fold_prefix_none(gitems, i + 1);
                }
                return Err(e);
            },
        }
        i += 1;
    }
    proof {
        assert(gitems.subrange(0, items@.len() as int) =~= gitems);
    }
    Ok((unstaged_files, staged_files))
}

/// Once a prefix of the records fails to parse, the whole listing does.
proof fn lemma_changed_fold_prefix_none(items: Seq<Seq<char>>, k: int)
    requires
        0 <= k <= items.len(),
        changed_fold(items.subrange(0, k)) is None,
    ensures
        changed_fold(items) is None,
    decreases items.len() - k,
{
    if k < items.len() {
        assert(items.subrange(0, k + 1).drop_last() =~= items.subrange(0, k));
        lemma_changed_fold_prefix_none(items, k + 1);
    } else {
        assert(items.subrange(0, k) =~= items);
    }
}

/// Once a prefix of the items fails to parse, the whole list does.
proof fn lemma_file_entries_prefix_none(items: Seq<Seq<char>>, k: int)
    requires
        0 <= k <= items.len(),
        file_entries_spec(items.subrange(0, k)) is None,
    ensures
        file_entries_spec(items) is None,
    decreases items.len() - k,
{
    if k < items.len() {
        assert(items.subrange(0, k + 1).drop_last() =~= items.subrange(0, k));
        lemma_file_entries_prefix_none(items, k + 1);
    } else {
        assert(items.subrange(0, k) =~= items);
    }
}

} // verus!
