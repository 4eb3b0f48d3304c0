//! Local and remote branch records, parsed from branch listings.
use vstd::prelude::*;

use crate::hash::{valid_hash, GitHash};
use crate::text::{lines_of, lines_vec, split_char, split_on, str_eq};
use crate::upstream_track::{upstream_track_of, UpstreamTrack};

verus! {

/// A local branch: whether it is checked out, its name split at slashes,
/// its upstream's name and track state, and its tip hash.
#[derive(Debug, Clone)]
pub struct LocalBranch {
    pub head: bool,
    /// e.g. `["feat", "implement-stuff"]`
    pub name: Vec<String>,
    pub upstream_name: Vec<String>,
    pub upstream_track: UpstreamTrack,
    pub hash: GitHash,
}

/// A remote branch: its name split at slashes and its tip hash.
#[derive(Debug, Clone)]
pub struct RemoteBranch {
    /// e.g. `["origin", "feat", "implement-stuff"]`
    pub name: Vec<String>,
    pub hash: GitHash,
}

pub struct LocalBranchView {
    pub head: bool,
    pub name: Seq<Seq<char>>,
    pub upstream_name: Seq<Seq<char>>,
    pub upstream_track: Option<(int, int)>,
    pub hash: Seq<char>,
}

pub struct RemoteBranchView {
    pub name: Seq<Seq<char>>,
    pub hash: Seq<char>,
}

impl LocalBranch {
    pub open spec fn view(self) -> LocalBranchView {
        LocalBranchView {
            head: self.head,
            name: self.name.deep_view(),
            upstream_name: self.upstream_name.deep_view(),
            upstream_track: match self.upstream_track.0 {
                Some(p) => Some((p.0 as int, p.1 as int)),
                None => None,
            },
            hash: self.hash.0@,
        }
    }
}

impl RemoteBranch {
    pub open spec fn view(self) -> RemoteBranchView {
        RemoteBranchView { name: self.name.deep_view(), hash: self.hash.0@ }
    }
}

/// The record one NUL-separated branch listing line denotes: the head
/// marker, the slash-split names, the upstream track state, and the
/// hash; `None` when malformed.
pub open spec fn local_branch_spec(s: Seq<char>) -> Option<LocalBranchView> {
    let parts = split_on(s, '\u{0}');
    if parts.len() < 5 {
        None
    } else {
        match upstream_track_of(parts[3]) {
            None => None,
            Some(track) => {
                if !valid_hash(parts[4]) {
                    None
                } else {
                    Some(
                        LocalBranchView {
                            head: parts[0] == "*"@,
                            name: split_on(parts[1], '/'),
                            upstream_name: split_on(parts[2], '/'),
                            upstream_track: track,
                            hash: parts[4],
                        },
                    )
                }
            },
        }
    }
}

pub open spec fn remote_branch_spec(s: Seq<char>) -> Option<RemoteBranchView> {
    let parts = split_on(s, '\u{0}');
    if parts.len() < 2 {
        None
    } else {
        if !valid_hash(parts[1]) {
            None
        } else {
            Some(RemoteBranchView { name: split_on(parts[0], '/'), hash: parts[1] })
        }
    }
}

impl LocalBranch {
    /// Parse one line of the local-branch listing.
    #[verifier::loop_isolation(false)]
    pub fn from_str(s: &str) -> (r: Result<Self, String>)
        ensures
            match r {
                Ok(b) => local_branch_spec(s@) == Some(b.view()),
                Err(_) => local_branch_spec(s@) is None,
            },
    {
        let parts = split_char(s, '\u{0}');
        proof {
            assert(parts@.len() == parts.deep_view().len());
        }
        if parts.len() < 5 {
            return Err("Failed to get local branch fields".to_owned());
        }
        proof {
            assert(parts[0 as int]@ == parts.deep_view()[0]);
            assert(parts[1 as int]@ == parts.deep_view()[1]);
            assert(parts[2 as int]@ == parts.deep_view()[2]);
            assert(parts[3 as int]@ == parts.deep_view()[3]);
            assert(parts[4 as int]@ == parts.deep_view()[4]);
        }
        let head = str_eq(parts[0].as_str(), "*");
        let name = split_char(parts[1].as_str(), '/');
        let upstream_name = split_char(parts[2].as_str(), '/');
        let upstream_track = match UpstreamTrack::from_str(parts[3].as_str()) {
            Ok(t) => t,
            Err(e) => {
                return Err(e);
            },
        };
        let hash = match GitHash::from_str(parts[4].as_str()) {
            Ok(h) => h,
            Err(e) => {
                return Err(e);
            },
        };
        Ok(Self { head, name, upstream_name, upstream_track, hash })
    }
}

impl RemoteBranch {
    /// Parse one line of the remote-branch listing.
    #[verifier::loop_isolation(false)]
    pub fn from_str(s: &str) -> (r: Result<Self, String>)
        ensures
            match r {
                Ok(b) => remote_branch_spec(s@) == Some(b.view()),
                Err(_) => remote_branch_spec(s@) is None,
            },
    {
        let parts = split_char(s, '\u{0}');
        proof {
            assert(parts@.len() == parts.deep_view().len());
        }
        if parts.len() < 2 {
            return Err("Failed to get remote branch fields".to_owned());
        }
        proof {
            assert(parts[0 as int]@ == parts.deep_view()[0]);
            assert(parts[1 as int]@ == parts.deep_view()[1]);
        }
        let name = split_char(parts[0].as_str(), '/');
        let hash = match GitHash::from_str(parts[1].as_str()) {
            Ok(h) => h,
            Err(e) => {
                return Err(e);
            },
        };
        Ok(Self { name, hash })
    }
}

/// All local branches, one per listing line; `None` when any line is
/// malformed.
pub open spec fn local_branches_spec(ls: Seq<Seq<char>>) -> Option<Seq<LocalBranchView>>
    decreases ls.len(),
{
    if ls.len() == 0 {
        Some(Seq::empty())
    } else {
        match (local_branches_spec(ls.drop_last()), local_branch_spec(ls.last())) {
            (Some(t), Some(b)) => Some(t.push(b)),
            _ => None,
        }
    }
}

/// All remote branches, one per listing line, those pointing at a
/// remote's HEAD left out; `None` when any line is malformed.
pub open spec fn remote_branches_spec(ls: Seq<Seq<char>>) -> Option<Seq<RemoteBranchView>>
    decreases ls.len(),
{
    if ls.len() == 0 {
        Some(Seq::empty())
    } else {
        match (remote_branches_spec(ls.drop_last()), remote_branch_spec(ls.last())) {
            (Some(t), Some(b)) => {
                if b.name.len() > 0 && b.name.last() == "HEAD"@ {
                    Some(t)
                } else {
                    Some(t.push(b))
                }
            },
            _ => None,
        }
    }
}

/// The two branch listings of a repository, parsed together.
#[derive(Debug, Clone)]
pub struct Branches {
    pub local: Vec<LocalBranch>,
    pub remote: Vec<RemoteBranch>,
}

/// Parse both branch listings into one response; fails exactly when
/// either listing is malformed.
pub fn parse_branches(local_listing: &str, remote_listing: &str) -> (r: Result<Branches, String>)
    ensures
        match r {
            Ok(b) => local_branches_spec(lines_of(local_listing@)) == Some(
                b.local@.map_values(|x: LocalBranch| x.view()),
            ) && remote_branches_spec(lines_of(remote_listing@)) == Some(
                b.remote@.map_values(|x: RemoteBranch| x.view()),
            ),
            Err(_) => local_branches_spec(lines_of(local_listing@)) is None
                || remote_branches_spec(lines_of(remote_listing@)) is None,
        },
{
    let local = match parse_local_branches(local_listing) {
        Ok(bs) => bs,
        Err(e) => {
            return Err(e);
        },
    };
    let remote = match parse_remote_branches(remote_listing) {
        Ok(bs) => bs,
        Err(e) => {
            return Err(e);
        },
    };
    Ok(Branches { local, remote })
}

/// Parse the whole local-branch listing, one branch per line.
#[verifier::loop_isolation(false)]
pub fn parse_local_branches(s: &str) -> (r: Result<Vec<LocalBranch>, String>)
    ensures
        match r {
            Ok(bs) => local_branches_spec(lines_of(s@)) == Some(
                bs@.map_values(|b: LocalBranch| b.view()),
            ),
            Err(_) => local_branches_spec(lines_of(s@)) is None,
        },
{
    let ls = lines_vec(s);
    let ghost gls = lines_of(s@);
    proof {
        assert(ls.deep_view() == gls);
        assert(ls@.len() == gls.len());
        assert(gls.subrange(0, 0) =~= Seq::<Seq<char>>::empty());
    }
    let mut branches: Vec<LocalBranch> = Vec::new();
    let mut i: usize = 0;
    proof {
        assert(branches@.map_values(|b: LocalBranch| b.view()) =~= Seq::<
            LocalBranchView,
        >::empty());
    }
    while i < ls.len()
        invariant
            i <= ls@.len(),
            local_branches_spec(gls.subrange(0, i as int)) == Some(
                branches@.map_values(|b: LocalBranch| b.view()),
            ),
        decreases ls@.len() - i,
    {
        proof {
            assert(gls.subrange(0, i + 1 as int).drop_last() =~= gls.subrange(0, i as int));
            assert(gls.subrange(0, i + 1 as int).last() == gls[i as int]);
            assert(ls[i as int]@ == gls[i as int]);
        }
        match LocalBranch::from_str(ls[i].as_str()) {
            Ok(b) => {
                branches.push(b);
                proof {
                    assert(branches@.map_values(|b: LocalBranch| b.view())
                        =~= branches@.map_values(|b: LocalBranch| b.view()).drop_last().push(
                        branches@.last().view(),
                    ));
                }
            },
            Err(e) => {
                proof {
                    lemma_local_prefix_none(gls, i + 1);
                }
                return Err(e);
            },
        }
        i += 1;
    }
    proof {
        assert(gls.subrange(0, ls@.len() as int) =~= gls);
    }
    Ok(branches)
}

/// Parse the whole remote-branch listing, dropping HEAD pointers.
#[verifier::loop_isolation(false)]
pub fn parse_remote_branches(s: &str) -> (r: Result<Vec<RemoteBranch>, String>)
    ensures
        match r {
            Ok(bs) => remote_branches_spec(lines_of(s@)) == Some(
                bs@.map_values(|b: RemoteBranch| b.view()),
            ),
            Err(_) => remote_branches_spec(lines_of(s@)) is None,
        },
{
    let ls = lines_vec(s);
    let ghost gls = lines_of(s@);
    proof {
        assert(ls.deep_view() == gls);
        assert(ls@.len() == gls.len());
        assert(gls.subrange(0, 0) =~= Seq::<Seq<char>>::empty());
    }
    let mut branches: Vec<RemoteBranch> = Vec::new();
    let mut i: usize = 0;
    proof {
        assert(branches@.map_values(|b: RemoteBranch| b.view()) =~= Seq::<
            RemoteBranchView,
        >::empty());
    }
    while i < ls.len()
        invariant
            i <= ls@.len(),
            remote_branches_spec(gls.subrange(0, i as int)) == Some(
                branches@.map_values(|b: RemoteBranch| b.view()),
            ),
        decreases ls@.len() - i,
    {
        proof {
            assert(gls.subrange(0, i + 1 as int).drop_last() =~= gls.subrange(0, i as int));
            assert(gls.subrange(0, i + 1 as int).last() == gls[i as int]);
            assert(ls[i as int]@ == gls[i as int]);
        }
        match RemoteBranch::from_str(ls[i].as_str()) {
            Ok(b) => {
                proof {
                    crate::text::lemma_split_on_basic(gls[i as int].subrange(
                        0,
                        crate::text::first_index_of(gls[i as int], '\u{0}'),
                    ), '/');
                    assert(b.view().name.len() == b.name@.len());
                    assert(b.name.deep_view().len() == b.name@.len());
                }
                let is_head_pointer = b.name.len() > 0 && str_eq(
                    b.name[b.name.len() - 1].as_str(),
                    "HEAD",
                );
                proof {
                    if b.name@.len() > 0 {
                        assert(b.name.deep_view()[b.name@.len() - 1] == b.name@[b.name@.len()
                            - 1]@);
                    }
                }
                if !is_head_pointer {
                    branches.push(b);
                    proof {
                        assert(branches@.map_values(|b: RemoteBranch| b.view())
                            =~= branches@.map_values(|b: RemoteBranch| b.view()).drop_last().push(
                            branches@.last().view(),
                        ));
                    }
                }
            },
            Err(e) => {
                proof {
                    lemma_remote_prefix_none(gls, i + 1);
                }
                return Err(e);
            },
        }
        i += 1;
    }
    proof {
        assert(gls.subrange(0, ls@.len() as int) =~= gls);
    }
    Ok(branches)
}

proof fn lemma_local_prefix_none(items: Seq<Seq<char>>, k: int)
    requires
        0 <= k <= items.len(),
        local_branches_spec(items.subrange(0, k)) is None,
    ensures
        local_branches_spec(items) is None,
    decreases items.len() - k,
{
    if k < items.len() {
        assert(items.subrange(0, k + 1).drop_last() =~= items.subrange(0, k));
        lemma_local_prefix_none(items, k + 1);
    } else {
        assert(items.subrange(0, k) =~= items);
    }
}

proof fn lemma_remote_prefix_none(items: Seq<Seq<char>>, k: int)
    requires
        0 <= k <= items.len(),
        remote_branches_spec(items.subrange(0, k)) is None,
    ensures
        remote_branches_spec(items) is None,
    decreases items.len() - k,
{
    if k < items.len() {
        assert(items.subrange(0, k + 1).drop_last() =~= items.subrange(0, k));
        lemma_remote_prefix_none(items, k + 1);
    } else {
        assert(items.subrange(0, k) =~= items);
    }
}

} // verus!
