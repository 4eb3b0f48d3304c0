//! How a local branch relates to its tracked upstream branch.
use vstd::prelude::*;

use crate::text::{
    all_decimal_digits, decimal_value, first_match, has_prefix, lemma_first_match,
    lemma_first_match_in_suffix, match_at, parse_usize, split_once_str, strip_prefix_str,
    str_eq,
};

verus! {

/// Commits ahead of and behind the upstream. `None` when the tracked
/// upstream is gone; `Some((0, 0))` when in sync.
#[derive(Debug, Clone, PartialEq, Eq)]
pub struct UpstreamTrack(pub Option<(usize, usize)>);

/// A decimal count that fits the machine word.
pub open spec fn counts_as_usize(s: Seq<char>) -> bool {
    s.len() > 0 && all_decimal_digits(s) && decimal_value(s) <= usize::MAX
}

/// The value of a track description, `None` when malformed: `"gone"`,
/// the empty string, `"ahead N, behind M"`, `"ahead N"` or `"behind N"`.
pub open spec fn upstream_track_of(s: Seq<char>) -> Option<Option<(int, int)>> {
    if s == "gone"@ {
        Some(None)
    } else if s.len() == 0 {
        Some(Some((0, 0)))
    } else {
        let m = first_match(s, ", "@);
        if m + ", "@.len() <= s.len() {
            let a = s.subrange(0, m);
            let b = s.subrange(m + ", "@.len(), s.len() as int);
            if has_prefix(a, "ahead "@) && has_prefix(b, "behind "@) {
                let av = a.subrange("ahead "@.len() as int, a.len() as int);
                let bv = b.subrange("behind "@.len() as int, b.len() as int);
                if counts_as_usize(av) && counts_as_usize(bv) {
                    Some(Some((decimal_value(av) as int, decimal_value(bv) as int)))
                } else {
                    None
                }
            } else {
                None
            }
        } else if has_prefix(s, "ahead "@) && counts_as_usize(
            s.subrange("ahead "@.len() as int, s.len() as int),
        ) {
            Some(Some((decimal_value(s.subrange("ahead "@.len() as int, s.len() as int)) as int, 0)))
        } else if has_prefix(s, "behind "@) && counts_as_usize(
            s.subrange("behind "@.len() as int, s.len() as int),
        ) {
            Some(
                Some((0, decimal_value(s.subrange("behind "@.len() as int, s.len() as int)) as int)),
            )
        } else {
            None
        }
    }
}

impl UpstreamTrack {
    /// Parse the track description of a branch listing.
    pub fn from_str(s: &str) -> (r: Result<Self, String>)
        ensures
            match r {
                Ok(t) => upstream_track_of(s@) == Some(
                    match t.0 {
                        Some(p) => Some((p.0 as int, p.1 as int)),
                        None => None,
                    },
                ),
                Err(_) => upstream_track_of(s@) is None,
            },
    {
        if str_eq(s, "gone") {
            return Ok(Self(None));
        }
        if s.unicode_len() == 0 {
            return Ok(Self(Some((0, 0))));
        }
        proof {
            reveal_strlit(", ");
        }
        match split_once_str(s, ", ") {
            Some(pair) => {
                proof {
                    let i = choose|i: int|
                        match_at(s@, ", "@, i) && pair.0@ == s@.subrange(0, i) && pair.1@
                            == s@.subrange(i + ", "@.len(), s@.len() as int) && forall|j: int|
                            0 <= j < i ==> !match_at(s@, ", "@, j);
                    reveal_strlit(", ");
                    lemma_first_match_in_suffix(s@, ", "@, 0, i);
                    assert(s@.subrange(0, s@.len() as int) =~= s@);
                    assert(first_match(s@, ", "@) == i);
                }
                let ahead = match strip_prefix_str(pair.0.as_str(), "ahead ") {
                    Some(v) => v,
                    None => {
                        return Err("Failed to strip ahead prefix".to_owned());
                    },
                };
                let behind = match strip_prefix_str(pair.1.as_str(), "behind ") {
                    Some(v) => v,
                    None => {
                        return Err("Failed to strip behind prefix".to_owned());
                    },
                };
                let a = match parse_usize(ahead.as_str()) {
                    Some(v) => v,
                    None => {
                        return Err("Failed to parse ahead".to_owned());
                    },
                };
                let b = match parse_usize(behind.as_str()) {
                    Some(v) => v,
                    None => {
                        return Err("Failed to parse behind".to_owned());
                    },
                };
                Ok(Self(Some((a, b))))
            },
            None => {
                proof {
                    reveal_strlit(", ");
                    lemma_first_match(s@, ", "@);
                }
                if let Some(v) = strip_prefix_str(s, "ahead ") {
                    if let Some(a) = parse_usize(v.as_str()) {
                        return Ok(Self(Some((a, 0))));
                    }
                }
                match strip_prefix_str(s, "behind ") {
                    Some(v) => match parse_usize(v.as_str()) {
                        Some(b) => Ok(Self(Some((0, b)))),
                        None => Err("Unknown upstream track format".to_owned()),
                    },
                    None => Err("Unknown upstream track format".to_owned()),
                }
            },
        }
    }
}

} // verus!
