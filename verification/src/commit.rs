//! Commit records, parsed from the NUL-separated log listing.
use vstd::prelude::*;

use crate::hash::{valid_hash, GitHash};
use crate::text::{
    i64_value_of, parse_i64, parses_as_i64, split_char, split_on, split_on_str, split_str,
    split_whitespace, trimmed, trim_spaces, ws_split,
};

verus! {

/// The Unicode-lowercased text; a function of the characters alone.
pub uninterp spec fn lower_of(s: Seq<char>) -> Seq<char>;

/// The SHA-256 digest of a text's bytes; a function of the text alone.
pub uninterp spec fn sha256_of(s: Seq<char>) -> Seq<u8>;

/// Whether a seconds-since-epoch count names a representable datetime;
/// a function of the count alone.
pub uninterp spec fn datetime_representable(secs: i64) -> bool;

/// Relies on str::to_lowercase: the result depends on the characters
/// alone.
#[verifier::external_body]
fn to_lowercase_string(s: &str) -> (r: String)
    ensures
        r@ == lower_of(s@),
{
    s.to_lowercase()
}

/// Relies on sha2's Sha256: the 32-byte digest of the text's bytes, a
/// function of the text alone.
#[verifier::external_body]
fn sha256_digest(s: &str) -> (r: Vec<u8>)
    ensures
        r@ == sha256_of(s@),
        r@.len() == 32,
{
    let mut hasher = <sha2::Sha256 as sha2::Digest>::new();
    sha2::Digest::update(&mut hasher, s.as_bytes());
    sha2::Digest::finalize(hasher).to_vec()
}

/// The lowercase hex digit of a nibble value.
pub open spec fn hex_digit(n: int) -> char {
    if n == 0 {
        '0'
    } else if n == 1 {
        '1'
    } else if n == 2 {
        '2'
    } else if n == 3 {
        '3'
    } else if n == 4 {
        '4'
    } else if n == 5 {
        '5'
    } else if n == 6 {
        '6'
    } else if n == 7 {
        '7'
    } else if n == 8 {
        '8'
    } else if n == 9 {
        '9'
    } else if n == 10 {
        'a'
    } else if n == 11 {
        'b'
    } else if n == 12 {
        'c'
    } else if n == 13 {
        'd'
    } else if n == 14 {
        'e'
    } else {
        'f'
    }
}

/// The bytes written as lowercase hexadecimal, two digits each.
pub open spec fn hex_of(bytes: Seq<u8>) -> Seq<char>
    decreases bytes.len(),
{
    if bytes.len() == 0 {
        Seq::empty()
    } else {
        hex_of(bytes.drop_last()) + seq![
            hex_digit(bytes.last() as int / 16),
            hex_digit(bytes.last() as int % 16),
        ]
    }
}

fn hex_digit_str(n: u8) -> (r: &'static str)
    requires
        n < 16,
    ensures
        r@ == seq![hex_digit(n as int)],
{
    if n == 0 {
        proof {
            reveal_strlit("0");
            assert("0"@ =~= seq!['0']);
        }
        "0"
    } else if n == 1 {
        proof {
            reveal_strlit("1");
            assert("1"@ =~= seq!['1']);
        }
        "1"
    } else if n == 2 {
        proof {
            reveal_strlit("2");
            assert("2"@ =~= seq!['2']);
        }
        "2"
    } else if n == 3 {
        proof {
            reveal_strlit("3");
            assert("3"@ =~= seq!['3']);
        }
        "3"
    } else if n == 4 {
        proof {
            reveal_strlit("4");
            assert("4"@ =~= seq!['4']);
        }
        "4"
    } else if n == 5 {
        proof {
            reveal_strlit("5");
            assert("5"@ =~= seq!['5']);
        }
        "5"
    } else if n == 6 {
        proof {
            reveal_strlit("6");
            assert("6"@ =~= seq!['6']);
        }
        "6"
    } else if n == 7 {
        proof {
            reveal_strlit("7");
            assert("7"@ =~= seq!['7']);
        }
        "7"
    } else if n == 8 {
        proof {
            reveal_strlit("8");
            assert("8"@ =~= seq!['8']);
        }
        "8"
    } else if n == 9 {
        proof {
            reveal_strlit("9");
            assert("9"@ =~= seq!['9']);
        }
        "9"
    } else if n == 10 {
        proof {
            reveal_strlit("a");
            assert("a"@ =~= seq!['a']);
        }
        "a"
    } else if n == 11 {
        proof {
            reveal_strlit("b");
            assert("b"@ =~= seq!['b']);
        }
        "b"
    } else if n == 12 {
        proof {
            reveal_strlit("c");
            assert("c"@ =~= seq!['c']);
        }
        "c"
    } else if n == 13 {
        proof {
            reveal_strlit("d");
            assert("d"@ =~= seq!['d']);
        }
        "d"
    } else if n == 14 {
        proof {
            reveal_strlit("e");
            assert("e"@ =~= seq!['e']);
        }
        "e"
    } else {
        proof {
            reveal_strlit("f");
            assert("f"@ =~= seq!['f']);
        }
        "f"
    }
}

/// Write bytes as lowercase hexadecimal, two digits per byte.
pub fn bytes_to_hex(bytes: &Vec<u8>) -> (r: String)
    ensures
        r@ == hex_of(bytes@),
{
    let mut out = String::new();
    let mut i: usize = 0;
    proof {
        assert(out@ =~= hex_of(bytes@.subrange(0, 0)));
    }
    while i < bytes.len()
        invariant
            i <= bytes@.len(),
            out@ == hex_of(bytes@.subrange(0, i as int)),
        decreases bytes@.len() - i,
    {
        let b = bytes[i];
        out.append(hex_digit_str(b / 16));
        out.append(hex_digit_str(b % 16));
        proof {
            assert(bytes@.subrange(0, i + 1 as int).drop_last() =~= bytes@.subrange(0, i as int));
            assert(bytes@.subrange(0, i + 1 as int).last() == bytes@[i as int]);
            assert(hex_of(bytes@.subrange(0, i + 1 as int)) == hex_of(bytes@.subrange(0, i as int))
                + seq![
                hex_digit(bytes@[i as int] as int / 16),
                hex_digit(bytes@[i as int] as int % 16),
            ]);
            assert(out@ =~= hex_of(bytes@.subrange(0, i as int)) + seq![
                hex_digit(bytes@[i as int] as int / 16),
                hex_digit(bytes@[i as int] as int % 16),
            ]);
        }
        i += 1;
    }
    proof {
        assert(bytes@.subrange(0, bytes@.len() as int) =~= bytes@);
    }
    out
}

/// Relies on chrono's DateTime::from_timestamp: `Some` exactly on the
/// representable range of seconds, a function of the count alone.
#[verifier::external_body]
fn timestamp_representable(secs: i64) -> (r: bool)
    ensures
        r == datetime_representable(secs),
{
    chrono::DateTime::from_timestamp(secs, 0).is_some()
}

/// One author or committer: name, email, the commit time as seconds
/// since the epoch, and the hash of the normalised email.
#[derive(Debug, Clone)]
pub struct CommitUser {
    pub name: String,
    pub email: String,
    /// Seconds since the Unix epoch
    pub date: i64,
    pub email_hash: String,
}

pub struct CommitUserView {
    pub name: Seq<char>,
    pub email: Seq<char>,
    pub date: i64,
    pub email_hash: Seq<char>,
}

impl CommitUser {
    pub open spec fn view(self) -> CommitUserView {
        CommitUserView {
            name: self.name@,
            email: self.email@,
            date: self.date,
            email_hash: self.email_hash@,
        }
    }
}

/// The user a (name, email, date) field triple denotes: the email hash
/// is the digest of the trimmed, lowercased email, and the date must be
/// a representable timestamp.
pub open spec fn user_spec(name: Seq<char>, email: Seq<char>, date: Seq<char>) -> Option<
    CommitUserView,
> {
    if parses_as_i64(date) && datetime_representable(i64_value_of(date) as i64) {
        Some(
            CommitUserView {
                name: name,
                email: email,
                date: i64_value_of(date) as i64,
                email_hash: hex_of(sha256_of(lower_of(trimmed(email)))),
            },
        )
    } else {
        None
    }
}

/// Build one commit user from its raw fields.
pub fn parse_user(name: &str, email: &str, date: &str) -> (r: Result<CommitUser, String>)
    ensures
        match r {
            Ok(u) => user_spec(name@, email@, date@) == Some(u.view()),
            Err(_) => user_spec(name@, email@, date@) is None,
        },
{
    let secs = match parse_i64(date) {
        Some(v) => v,
        None => {
            return Err("Failed to parse date".to_owned());
        },
    };
    if !timestamp_representable(secs) {
        return Err("Failed to convert date to timestamp".to_owned());
    }
    let normalised = to_lowercase_string(trim_spaces(email).as_str());
    let email_hash = bytes_to_hex(&sha256_digest(normalised.as_str()));
    Ok(
        CommitUser {
            name: name.to_owned(),
            email: email.to_owned(),
            date: secs,
            email_hash,
        },
    )
}

/// One commit: its hash, its parents' hashes, author, committer,
/// message and optional description.
#[derive(Debug, Clone)]
pub struct Commit {
    pub hash: GitHash,
    pub parent_hashes: Vec<GitHash>,
    pub author: CommitUser,
    pub committer: CommitUser,
    pub message: String,
    pub description: Option<String>,
}

pub struct CommitView {
    pub hash: Seq<char>,
    pub parent_hashes: Seq<Seq<char>>,
    pub author: CommitUserView,
    pub committer: CommitUserView,
    pub message: Seq<char>,
    pub description: Option<Seq<char>>,
}

impl Commit {
    pub open spec fn view(self) -> CommitView {
        CommitView {
            hash: self.hash.0@,
            parent_hashes: self.parent_hashes@.map_values(|h: GitHash| h.0@),
            author: self.author.view(),
            committer: self.committer.view(),
            message: self.message@,
            description: match self.description {
                Some(d) => Some(d@),
                None => None,
            },
        }
    }
}

/// Every whitespace-separated parent field is a well-formed hash.
pub open spec fn parents_wf(fields: Seq<Seq<char>>) -> bool {
    forall|i: int| 0 <= i < fields.len() ==> valid_hash(#[trigger] fields[i])
}

/// The commit one NUL-separated log record denotes: hash, parents, the
/// author's and committer's three fields each, the message, and an
/// optional description (defaulting to empty); `None` when malformed.
pub open spec fn commit_spec(s: Seq<char>) -> Option<CommitView> {
    let parts = split_on(s, '\u{0}');
    if parts.len() < 9 {
        None
    } else {
        let parents = ws_split(parts[1]);
        if !valid_hash(parts[0]) || !parents_wf(parents) {
            None
        } else {
            match (user_spec(parts[2], parts[3], parts[4]), user_spec(
                parts[5],
                parts[6],
                parts[7],
            )) {
                (Some(author), Some(committer)) => Some(
                    CommitView {
                        hash: parts[0],
                        parent_hashes: parents,
                        author,
                        committer,
                        message: parts[8],
                        description: Some(
                            if parts.len() >= 10 {
                                parts[9]
                            } else {
                                Seq::empty()
                            },
                        ),
                    },
                ),
                _ => None,
            }
        }
    }
}

impl Commit {
    /// Parse one NUL-separated log record.
    #[verifier::loop_isolation(false)]
    pub fn from_str(s: &str) -> (r: Result<Self, String>)
        ensures
            match r {
                Ok(c) => commit_spec(s@) == Some(c.view()),
                Err(_) => commit_spec(s@) is None,
            },
    {
        let parts = split_char(s, '\u{0}');
        proof {
            assert(parts@.len() == parts.deep_view().len());
        }
        if parts.len() < 9 {
            return Err("Failed to get commit fields".to_owned());
        }
        proof {
            assert forall|i: int| 0 <= i < parts@.len() implies parts@[i]@ == parts.deep_view()[i]
                by {}
        }
        let hash = match GitHash::from_str(parts[0].as_str()) {
            Ok(h) => h,
            Err(e) => {
                return Err(e);
            },
        };
        let parent_fields = split_whitespace(parts[1].as_str());
        proof {
            assert(parent_fields@.len() == parent_fields.deep_view().len());
        }
        let mut parent_hashes: Vec<GitHash> = Vec::new();
        let mut i: usize = 0;
        proof {
            assert(parent_hashes@.map_values(|h: GitHash| h.0@) =~= Seq::<Seq<char>>::empty());
        }
        while i < parent_fields.len()
            invariant
                i <= parent_fields@.len(),
                parent_hashes@.map_values(|h: GitHash| h.0@) == parent_fields.deep_view().subrange(
                    0,
                    i as int,
                ),
                forall|j: int| 0 <= j < i ==> valid_hash(#[trigger] parent_fields.deep_view()[j]),
            decreases parent_fields@.len() - i,
        {
            proof {
                assert(parent_fields[i as int]@ == parent_fields.deep_view()[i as int]);
            }
            match GitHash::from_str(parent_fields[i].as_str()) {
                Ok(h) => {
                    parent_hashes.push(h);
                    proof {
                        assert(parent_hashes@.map_values(|h: GitHash| h.0@)
                            =~= parent_hashes@.map_values(|h: GitHash| h.0@).drop_last().push(
                            parent_hashes@.last().0@,
                        ));
                        assert(parent_fields.deep_view().subrange(0, i + 1 as int)
                            =~= parent_fields.deep_view().subrange(0, i as int).push(
                            parent_fields.deep_view()[i as int],
                        ));
                    }
                },
                Err(e) => {
                    proof {
                        assert(!parents_wf(ws_split(parts.deep_view()[1])));
                    }
                    return Err(e);
                },
            }
            i += 1;
        }
        proof {
            assert(parent_fields.deep_view().subrange(0, parent_fields@.len() as int)
                =~= parent_fields.deep_view());
            assert(parents_wf(parent_fields.deep_view()));
        }
        let author = match parse_user(parts[2].as_str(), parts[3].as_str(), parts[4].as_str()) {
            Ok(u) => u,
            Err(e) => {
                return Err(e);
            },
        };
        let committer = match parse_user(parts[5].as_str(), parts[6].as_str(), parts[7].as_str()) {
            Ok(u) => u,
            Err(e) => {
                return Err(e);
            },
        };
        let message = parts[8].clone();
        let description: Option<String> = if parts.len() >= 10 {
            Some(parts[9].clone())
        } else {
            Some(String::new())
        };
        proof {
            assert(message@ == parts.deep_view()[8]);
        }
        Ok(Self { hash, parent_hashes, author, committer, message, description })
    }
}

/// The text with every trailing occurrence of `c` removed.
pub open spec fn strip_trailing(s: Seq<char>, c: char) -> Seq<char>
    decreases s.len(),
{
    if s.len() > 0 && s.last() == c {
        strip_trailing(s.drop_last(), c)
    } else {
        s
    }
}

/// All commits of the log listing: the listing is trimmed, trailing
/// record markers dropped, and each marker-newline-separated record
/// parsed; `None` when any record is malformed.
pub open spec fn graph_spec(s: Seq<char>) -> Option<Seq<CommitView>> {
    commits_fold(
        split_on_str(strip_trailing(trimmed(s), '\u{1}'), seq!['\u{1}', '\n']),
    )
}

pub open spec fn commits_fold(items: Seq<Seq<char>>) -> Option<Seq<CommitView>>
    decreases items.len(),
{
    if items.len() == 0 {
        Some(Seq::empty())
    } else {
        match (commits_fold(items.drop_last()), commit_spec(items.last())) {
            (Some(t), Some(c)) => Some(t.push(c)),
            _ => None,
        }
    }
}

/// Parse the whole commit log listing into its commits.
#[verifier::loop_isolation(false)]
pub fn parse_graph(s: &str) -> (r: Result<Vec<Commit>, String>)
    ensures
        match r {
            Ok(cs) => graph_spec(s@) == Some(cs@.map_values(|c: Commit| c.view())),
            Err(_) => graph_spec(s@) is None,
        },
{
    let trimmed_text = trim_spaces(s);
    let tn = trimmed_text.as_str().unicode_len();
    let mut end: usize = tn;
    proof {
        assert(trimmed_text@.subrange(0, tn as int) =~= trimmed_text@);
    }
    while end > 0 && trimmed_text.as_str().get_char(end - 1) == '\u{1}'
        invariant
            end <= tn,
            tn == trimmed_text@.len(),
            strip_trailing(trimmed_text@, '\u{1}') == strip_trailing(
                trimmed_text@.subrange(0, end as int),
                '\u{1}',
            ),
        decreases end,
    {
        proof {
            let cur = trimmed_text@.subrange(0, end as int);
            assert(cur.drop_last() =~= trimmed_text@.subrange(0, end - 1));
        }
        end -= 1;
    }
    let body = trimmed_text.as_str().substring_char(0, end);
    proof {
        let cur = trimmed_text@.subrange(0, end as int);
        assert(cur.len() > 0 ==> cur.last() != '\u{1}');
        assert(strip_trailing(cur, '\u{1}') == cur);
        assert(body@ == cur);
    }
    proof {
        reveal_strlit("\u{1}\n");
        assert("\u{1}\n"@ =~= seq!['\u{1}', '\n']);
    }
    let items = split_str(body, "\u{1}\n");
    let ghost gitems = split_on_str(strip_trailing(trimmed(s@), '\u{1}'), seq!['\u{1}', '\n']);
    proof {
        assert(items.deep_view() == gitems);
        assert(items@.len() == gitems.len());
        assert(gitems.subrange(0, 0) =~= Seq::<Seq<char>>::empty());
    }
    let mut commits: Vec<Commit> = Vec::new();
    let mut i: usize = 0;
    proof {
        assert(commits@.map_values(|c: Commit| c.view()) =~= Seq::<CommitView>::empty());
    }
    while i < items.len()
        invariant
            i <= items@.len(),
            commits_fold(gitems.subrange(0, i as int)) == Some(
                commits@.map_values(|c: Commit| c.view()),
            ),
        decreases items@.len() - i,
    {
        proof {
            assert(gitems.subrange(0, i + 1 as int).drop_last() =~= gitems.subrange(0, i as int));
            assert(gitems.subrange(0, i + 1 as int).last() == gitems[i as int]);
            assert(items[i as int]@ == gitems[i as int]);
        }
        match Commit::from_str(items[i].as_str()) {
            Ok(c) => {
                commits.push(c);
                proof {
                    assert(commits@.map_values(|c: Commit| c.view()) =~= commits@.map_values(
                        |c: Commit| c.view(),
                    ).drop_last().push(commits@.last().view()));
                }
            },
            Err(e) => {
                proof {
                    lemma_commits_prefix_none(gitems, i + 1);
                }
                return Err(e);
            },
        }
        i += 1;
    }
    proof {
        assert(gitems.subrange(0, items@.len() as int) =~= gitems);
    }
    Ok(commits)
}

proof fn lemma_commits_prefix_none(items: Seq<Seq<char>>, k: int)
    requires
        0 <= k <= items.len(),
        commits_fold(items.subrange(0, k)) is None,
    ensures
        commits_fold(items) is None,
    decreases items.len() - k,
{
    if k < items.len() {
        assert(items.subrange(0, k + 1).drop_last() =~= items.subrange(0, k));
        lemma_commits_prefix_none(items, k + 1);
    } else {
        assert(items.subrange(0, k) =~= items);
    }
}

} // verus!
