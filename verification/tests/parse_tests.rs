//! Tests for the listing parsers: hashes, statuses, branches, commits,
//! changed files and the command builder.
use strand_core::branch::{parse_branches, parse_local_branches, parse_remote_branches};
use strand_core::command::{
    log_entries_to_delete, repository_already_open, GitCommand, GitCommandType,
};
use strand_core::commit::Commit;
use strand_core::diff_status::DiffStatus;
use strand_core::file::{parse_changed_files, parse_commit_files, File};
use strand_core::file_status::FileStatus;
use strand_core::hash::GitHash;
use strand_core::highlight::HighlightLanguage;
use strand_core::upstream_track::UpstreamTrack;

const HASH_A: &str = "628f0e2e8d64bae420b909c688e0964f7f530306";
const HASH_B: &str = "87eab99c6eca0c299bdf0fa8185d4f0d40255b73";

#[test]
fn parses_well_formed_hashes() {
    assert_eq!(GitHash::from_str(HASH_A).unwrap().0, HASH_A);
    assert!(GitHash::from_str("short").is_err());
    assert!(GitHash::from_str(&"z".repeat(40)).is_err());
}

#[test]
fn all_zero_hash_means_absent() {
    assert_eq!(GitHash::from_optional(&"0".repeat(40)).unwrap(), None);
    assert_eq!(GitHash::from_optional("").unwrap(), None);
    assert_eq!(GitHash::from_optional(HASH_A).unwrap().unwrap().0, HASH_A);
    assert!(GitHash::from_optional("not-a-hash").is_err());
}

#[test]
fn parses_diff_status_markers() {
    assert_eq!(DiffStatus::try_from('+').unwrap(), DiffStatus::Added);
    assert_eq!(DiffStatus::try_from('-').unwrap(), DiffStatus::Removed);
    assert_eq!(DiffStatus::try_from(' ').unwrap(), DiffStatus::Unmodified);
    assert!(DiffStatus::try_from('x').is_err());
}

#[test]
fn parses_file_status_letters() {
    assert_eq!(FileStatus::try_from('A').unwrap(), FileStatus::Added);
    assert_eq!(FileStatus::try_from('R').unwrap(), FileStatus::Renamed);
    assert_eq!(FileStatus::try_from('U').unwrap(), FileStatus::Unmerged);
    assert!(FileStatus::try_from('q').is_err());
    assert_eq!(FileStatus::Modified.to_char(), 'M');
}

#[test]
fn parses_upstream_track_forms() {
    assert_eq!(UpstreamTrack::from_str("gone").unwrap(), UpstreamTrack(None));
    assert_eq!(UpstreamTrack::from_str("").unwrap(), UpstreamTrack(Some((0, 0))));
    assert_eq!(
        UpstreamTrack::from_str("ahead 3, behind 2").unwrap(),
        UpstreamTrack(Some((3, 2)))
    );
    assert_eq!(UpstreamTrack::from_str("ahead 4").unwrap(), UpstreamTrack(Some((4, 0))));
    assert_eq!(UpstreamTrack::from_str("behind 7").unwrap(), UpstreamTrack(Some((0, 7))));
    assert!(UpstreamTrack::from_str("sideways 3").is_err());
    assert!(UpstreamTrack::from_str("ahead x, behind 2").is_err());
}

#[test]
fn parses_a_raw_file_record() {
    let line = format!(":100644 100644 {HASH_A} {HASH_B} R100\u{0}old/name.rs\u{0}new/name.rs");
    let f = File::from_str(&line).unwrap();
    assert_eq!(f.src_hash.unwrap().0, HASH_A);
    assert_eq!(f.dst_hash.unwrap().0, HASH_B);
    assert_eq!(f.status, FileStatus::Renamed);
    assert_eq!(f.score, Some(100));
    assert_eq!(f.src_path, "old/name.rs");
    assert_eq!(f.dst_path.as_deref(), Some("new/name.rs"));
}

#[test]
fn parses_a_modified_file_record_without_score() {
    let line = format!(":100644 100644 {HASH_A} {HASH_B} M\u{0}src/lib.rs");
    let f = File::from_str(&line).unwrap();
    assert_eq!(f.status, FileStatus::Modified);
    assert_eq!(f.score, None);
    assert_eq!(f.src_path, "src/lib.rs");
    assert_eq!(f.dst_path, None);
    assert!(File::from_str("nonsense").is_err());
}

#[test]
fn parses_a_commit_file_listing() {
    let listing = format!(
        ":100644 100644 {HASH_A} {HASH_B} M\u{0}a.rs\u{0}:100644 100644 {HASH_B} {HASH_A} D\u{0}b.rs\u{0}"
    );
    let files = parse_commit_files(&listing).unwrap();
    assert_eq!(files.len(), 2);
    assert_eq!(files[0].src_path, "a.rs");
    assert_eq!(files[0].status, FileStatus::Modified);
    assert_eq!(files[1].src_path, "b.rs");
    assert_eq!(files[1].status, FileStatus::Deleted);
    assert!(parse_commit_files("no frame").is_err());
}

#[test]
fn parses_the_working_tree_status() {
    let zeros = "0".repeat(40);
    let listing = format!(
        "1 M. N... 100644 100644 100644 {HASH_A} {HASH_B} staged.rs\u{0}1 .M N... 100644 100644 100644 {HASH_A} {HASH_B} unstaged.rs\u{0}? untracked.rs\u{0}2 R. N... 100644 100644 100644 {HASH_A} {HASH_B} R100 new.rs old.rs\u{0}1 .. H... 100644 100644 100644 {zeros} {zeros} ignored.rs\u{0}"
    );
    let (unstaged, staged) = parse_changed_files(&listing).unwrap();
    assert_eq!(staged.len(), 2);
    assert_eq!(staged[0].src_path, "staged.rs");
    assert_eq!(staged[0].status, FileStatus::Modified);
    assert_eq!(staged[1].status, FileStatus::Renamed);
    assert_eq!(staged[1].score, Some(100));
    assert_eq!(staged[1].dst_path.as_deref(), Some("new.rs"));
    assert_eq!(staged[1].src_path, "old.rs");
    assert_eq!(unstaged.len(), 2);
    assert_eq!(unstaged[0].src_path, "unstaged.rs");
    assert_eq!(unstaged[1].src_path, "untracked.rs");
    assert_eq!(unstaged[1].status, FileStatus::Added);
    assert!(unstaged[1].src_hash.is_none());
    assert!(parse_changed_files("missing terminator").is_err());
}

#[test]
fn parses_local_and_remote_branches() {
    let local = format!("*\u{0}main\u{0}origin/main\u{0}\u{0}{HASH_A}\n\u{0}feat/x\u{0}origin/feat/x\u{0}ahead 1\u{0}{HASH_B}");
    let branches = parse_local_branches(&local).unwrap();
    assert_eq!(branches.len(), 2);
    assert!(branches[0].head);
    assert_eq!(branches[0].name, vec!["main"]);
    assert_eq!(branches[0].upstream_track, UpstreamTrack(Some((0, 0))));
    assert!(!branches[1].head);
    assert_eq!(branches[1].name, vec!["feat", "x"]);
    assert_eq!(branches[1].upstream_track, UpstreamTrack(Some((1, 0))));
    assert_eq!(branches[1].hash.0, HASH_B);

    let remote = format!("origin/HEAD\u{0}{HASH_A}\norigin/main\u{0}{HASH_A}");
    let remotes = parse_remote_branches(&remote).unwrap();
    assert_eq!(remotes.len(), 1);
    assert_eq!(remotes[0].name, vec!["origin", "main"]);
}

#[test]
fn parses_both_branch_listings_together() {
    let local = format!("*\u{0}main\u{0}origin/main\u{0}\u{0}{HASH_A}");
    let remote = format!("origin/main\u{0}{HASH_B}");
    let branches = parse_branches(&local, &remote).unwrap();
    assert_eq!(branches.local.len(), 1);
    assert_eq!(branches.remote.len(), 1);
    assert_eq!(branches.local[0].hash.0, HASH_A);
    assert_eq!(branches.remote[0].hash.0, HASH_B);
    assert!(parse_branches("garbage", &remote).is_err());
}

#[test]
fn parses_a_commit_record() {
    let record = format!(
        "{HASH_A}\u{0}{HASH_B}\u{0}Jane Doe\u{0} Jane@Example.com \u{0}1700000000\u{0}Jane Doe\u{0}jane@example.com\u{0}1700000100\u{0}Fix the parser\u{0}Longer description"
    );
    let c = Commit::from_str(&record).unwrap();
    assert_eq!(c.hash.0, HASH_A);
    assert_eq!(c.parent_hashes.len(), 1);
    assert_eq!(c.parent_hashes[0].0, HASH_B);
    assert_eq!(c.author.name, "Jane Doe");
    assert_eq!(c.author.date, 1700000000);
    // The email is trimmed and lowercased before hashing.
    assert_eq!(
        c.author.email_hash,
        "8c87b489ce35cf2e2f39f80e282cb2e804932a56a213983eeeb428407d43b52d"
    );
    assert_eq!(c.committer.email_hash, c.author.email_hash);
    assert_eq!(c.message, "Fix the parser");
    assert_eq!(c.description.as_deref(), Some("Longer description"));
}

#[test]
fn rejects_an_unrepresentable_commit_date() {
    let record = format!(
        "{HASH_A}\u{0}\u{0}Jane\u{0}j@x.y\u{0}9000000000000000000\u{0}Jane\u{0}j@x.y\u{0}9000000000000000000\u{0}msg\u{0}"
    );
    assert!(Commit::from_str(&record).is_err());
}

#[test]
fn builds_command_arguments() {
    let mut cmd = GitCommand::new("for-each-ref");
    cmd.arg("--format=%00");
    cmd.arg_if("refs/heads", true);
    cmd.arg_if("never", false);
    assert_eq!(cmd.command, "for-each-ref");
    assert_eq!(cmd.args, vec!["--format=%00", "refs/heads"]);

    let fields = vec!["(HEAD)".to_string(), "(refname:short)".to_string()];
    assert_eq!(
        GitCommand::create_format_arg(&fields, "%00"),
        "%(HEAD)%00%(refname:short)"
    );
}

#[test]
fn reads_command_type_codes() {
    assert_eq!(GitCommandType::from_code(0), Some(GitCommandType::Query));
    assert_eq!(GitCommandType::from_code(1), Some(GitCommandType::Mutation));
    assert_eq!(GitCommandType::from_code(7), None);
    assert_eq!(GitCommandType::Mutation.to_code(), 1);
}

#[test]
fn log_trimming_and_open_repository_rules() {
    assert_eq!(log_entries_to_delete(150), 0);
    assert_eq!(log_entries_to_delete(200), 0);
    assert_eq!(log_entries_to_delete(205), 5);
    assert!(repository_already_open(Some(3), Some(3)));
    assert!(!repository_already_open(Some(3), Some(4)));
    assert!(repository_already_open(None, None));
    assert!(!repository_already_open(None, Some(1)));
}

#[test]
fn maps_extensions_to_languages() {
    assert_eq!(HighlightLanguage::from_token("rs"), HighlightLanguage::Rust);
    assert_eq!(HighlightLanguage::from_token("tsx"), HighlightLanguage::Tsx);
    assert_eq!(HighlightLanguage::from_token("nope"), HighlightLanguage::Plaintext);
    assert_eq!(HighlightLanguage::from_path("src/deep/main.rs"), HighlightLanguage::Rust);
    assert_eq!(HighlightLanguage::from_path("a.dir/file.py"), HighlightLanguage::Python);
    assert_eq!(HighlightLanguage::from_path("no_extension"), HighlightLanguage::Plaintext);
    assert_eq!(HighlightLanguage::from_path(".bashrc"), HighlightLanguage::Plaintext);
    assert_eq!(HighlightLanguage::from_path("x.yml"), HighlightLanguage::Yaml);
}
