//! Content identifiers: 40-character hexadecimal object hashes.
use vstd::prelude::*;

verus! {

pub open spec fn is_hex_digit(c: char) -> bool {
    ('0' <= c && c <= '9') || ('a' <= c && c <= 'f') || ('A' <= c && c <= 'F')
}

/// A well-formed content hash: exactly 40 hexadecimal characters.
pub open spec fn valid_hash(s: Seq<char>) -> bool {
    s.len() == 40 && forall|i: int| 0 <= i < s.len() ==> is_hex_digit(#[trigger] s[i])
}

/// True when every character of `s` is `'0'` (also true of the empty
/// string); such an identifier stands for an absent file side.
pub open spec fn all_zeros(s: Seq<char>) -> bool {
    forall|i: int| 0 <= i < s.len() ==> s[i] == '0'
}

/// A content hash, held as its 40 hexadecimal characters.
#[derive(Debug, Clone, PartialEq, Eq)]
pub struct GitHash(pub String);

impl GitHash {
    /// The hash is well formed.
    pub open spec fn wf(self) -> bool {
        valid_hash(self.0@)
    }

    /// Parse a hash string; fails unless it is exactly 40 hex characters.
    pub fn from_str(s: &str) -> (r: Result<Self, String>)
        ensures
            match r {
                Ok(h) => valid_hash(s@) && h.0@ == s@,
                Err(_) => !valid_hash(s@),
            },
    {
        let n = s.unicode_len();
        if n != 40 {
            return Err("Hash is not 40 characters long: ".to_owned().concat(s));
        }
        let mut i: usize = 0;
        while i < n
            invariant
                i <= n,
                n == s@.len(),
                forall|j: int| 0 <= j < i ==> is_hex_digit(#[trigger] s@[j]),
            decreases n - i,
        {
            let c = s.get_char(i);
            if !(('0' <= c && c <= '9') || ('a' <= c && c <= 'f') || ('A' <= c && c <= 'F')) {
                return Err("Hash has a non-hexadecimal character: ".to_owned().concat(s));
            }
            i += 1;
        }
        Ok(Self(s.to_owned()))
    }

    /// Parse a hash that may be all zeros, meaning the file side is absent.
    pub fn from_optional(s: &str) -> (r: Result<Option<Self>, String>)
        ensures
            match r {
                Ok(h) => match h {
                    Some(h) => !all_zeros(s@) && valid_hash(s@) && h.0@ == s@,
                    None => all_zeros(s@),
                },
                Err(_) => !all_zeros(s@) && !valid_hash(s@),
            },
    {
        let n = s.unicode_len();
        let mut i: usize = 0;
        while i < n
            invariant
                i <= n,
                n == s@.len(),
                forall|j: int| 0 <= j < i ==> s@[j] == '0',
            decreases n - i,
        {
            if s.get_char(i) != '0' {
                return match Self::from_str(s) {
                    Ok(h) => Ok(Some(h)),
                    Err(e) => Err(e),
                };
            }
            i += 1;
        }
        Ok(None)
    }
}

} // verus!
