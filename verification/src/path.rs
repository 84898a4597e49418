//! Path assembly and the resolution policy.
//!
//! Canonicalizing a path needs the filesystem, so the shell performs it
//! and reports the outcome as a plain value. This module holds what can
//! be decided without I/O: joining a directory path with an entry name,
//! splitting a path into parent and final segment, and the asymmetric
//! resolution policy — a source path must fully resolve, while a
//! destination being written only needs a resolvable parent.

use vstd::prelude::*;
use vstd::string::StrSliceExecFns;
use vstd::string::StringExecFns;
use crate::errors::WsError;

verus! {

/// The path of an entry named `name` inside the directory at `base`:
/// the two joined with one `/` separator.
pub open spec fn join_spec(base: Seq<char>, name: Seq<char>) -> Seq<char> {
    base + "/"@ + name
}

/// Joins a directory path and an entry name.
pub fn join_path(base: &str, name: &str) -> (r: String)
    ensures
        r@ == join_spec(base@, name@),
{
    let mut out = base.to_owned();
    out.append("/");
    out.append(name);
    out
}

/// Joining is injective in the name: inside one directory, distinct
/// names give distinct paths.
pub proof fn lemma_join_injective(base: Seq<char>, n1: Seq<char>, n2: Seq<char>)
    requires
        join_spec(base, n1) == join_spec(base, n2),
    ensures
        n1 == n2,
{
    reveal_strlit("/");
    assert(n1 =~= join_spec(base, n1).skip(base.len() as int + 1));
    assert(n2 =~= join_spec(base, n2).skip(base.len() as int + 1));
}

/// The index of the last `/` in `s`, or -1 when `s` holds none.
pub open spec fn last_slash_at(s: Seq<char>) -> int
    decreases s.len(),
{
    if s.len() == 0 {
        -1
    } else if s[s.len() - 1] == '/' {
        s.len() - 1
    } else {
        last_slash_at(s.drop_last())
    }
}

pub proof fn lemma_last_slash_at_bounds(s: Seq<char>)
    ensures
        -1 <= last_slash_at(s) < s.len(),
        last_slash_at(s) >= 0 ==> s[last_slash_at(s)] == '/',
    decreases s.len(),
{
    if s.len() > 0 && s[s.len() - 1] != '/' {
        lemma_last_slash_at_bounds(s.drop_last());
        if last_slash_at(s) >= 0 {
            assert(s.drop_last()[last_slash_at(s)] == s[last_slash_at(s)]);
        }
    }
}

/// Finds the last `/` of a path, if any.
pub fn find_last_slash(s: &str) -> (r: Option<usize>)
    ensures
        match r {
            Some(k) => last_slash_at(s@) == k,
            None => last_slash_at(s@) == -1,
        },
{
    let n = s.unicode_len();
    let mut i: usize = n;
    proof {
        assert(s@.take(n as int) =~= s@);
    }
    loop
        invariant
            i <= n,
            n == s@.len(),
            last_slash_at(s@) == last_slash_at(s@.take(i as int)),
        decreases i,
    {
        if i == 0 {
            proof {
                assert(s@.take(0) =~= Seq::<char>::empty());
            }
            return None;
        }
        i = i - 1;
        let c = s.get_char(i);
        proof {
            assert(s@.take(i as int + 1)[i as int] == s@[i as int]);
        }
        if c == '/' {
            return Some(i);
        }
        proof {
            assert(s@.take(i as int + 1).drop_last() =~= s@.take(i as int));
        }
    }
}

/// The parent directory and final segment of a path, split at the last
/// `/`; nothing when the path holds no separator.
pub open spec fn split_spec(s: Seq<char>) -> Option<(Seq<char>, Seq<char>)> {
    let k = last_slash_at(s);
    if k < 0 {
        None
    } else {
        Some((s.take(k), s.skip(k + 1)))
    }
}

/// Splits a path into parent directory and final segment.
pub fn split_path(s: &str) -> (r: Option<(String, String)>)
    ensures
        match r {
            Some(pair) => split_spec(s@) matches Some(v) && pair.0@ == v.0 && pair.1@ == v.1,
            None => split_spec(s@) is None,
        },
{
    let n = s.unicode_len();
    match find_last_slash(s) {
        None => None,
        Some(k) => {
            proof {
                lemma_last_slash_at_bounds(s@);
            }
            let parent = s.substring_char(0, k).to_owned();
            let name = s.substring_char(k + 1, n).to_owned();
            proof {
                assert(s@.subrange(0, k as int) =~= s@.take(k as int));
                assert(s@.subrange(k as int + 1, n as int) =~= s@.skip(k as int + 1));
            }
            Some((parent, name))
        },
    }
}

/// The resolution verdict for a source path (one that is read): the
/// shell's canonicalization outcome is passed in, and a path that did
/// not resolve is rejected with `NotFound`.
pub fn resolve_source(canonical: Option<String>) -> (r: Result<String, WsError>)
    ensures
        match canonical {
            Some(p) => r matches Ok(q) && q == p,
            None => r matches Err(e) && e is NotFound,
        },
{
    match canonical {
        Some(p) => Ok(p),
        None => Err(WsError::NotFound),
    }
}

/// The resolution verdict for a destination path (one being written).
/// The target itself need not exist: the path is split, the shell
/// canonicalizes only the parent, and the final segment is rejoined to
/// the canonical parent. `parent_canonical` is the outcome the shell
/// reports for the parent; a destination whose parent did not resolve,
/// or whose final segment is empty, is rejected with `NotFound`.
pub fn resolve_destination(parent_canonical: Option<String>, name: &str) -> (r: Result<
    String,
    WsError,
>)
    ensures
        match parent_canonical {
            Some(p) => {
                if name@.len() > 0 {
                    r matches Ok(q) && q@ == join_spec(p@, name@)
                } else {
                    r matches Err(e) && e is NotFound
                }
            },
            None => r matches Err(e) && e is NotFound,
        },
{
    match parent_canonical {
        Some(p) => {
            if name.unicode_len() > 0 {
                Ok(join_path(p.as_str(), name))
            } else {
                Err(WsError::NotFound)
            }
        },
        None => Err(WsError::NotFound),
    }
}

} // verus!
