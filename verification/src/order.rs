//! Name ordering and name filtering rules.
//!
//! Sibling entries are ordered case-insensitively by name: each character
//! is folded to lower case (ASCII fold) and names are compared
//! lexicographically on the folded characters. Entries whose name begins
//! with `.` are hidden, and file entries are surfaced only when their
//! extension is exactly `md`.

use vstd::prelude::*;
use vstd::string::StrSliceExecFns;

verus! {

/// The case fold of one character: ASCII upper-case letters map to their
/// lower-case counterpart, every other character is unchanged.
pub open spec fn fold_char(c: char) -> int {
    if 65 <= c as u32 <= 90 {
        c as u32 + 32
    } else {
        c as u32 as int
    }
}

/// Case-insensitive lexicographic "less or equal" on names.
pub open spec fn name_le(a: Seq<char>, b: Seq<char>) -> bool
    decreases a.len(),
{
    if a.len() == 0 {
        true
    } else if b.len() == 0 {
        false
    } else if fold_char(a[0]) < fold_char(b[0]) {
        true
    } else if fold_char(a[0]) > fold_char(b[0]) {
        false
    } else {
        name_le(a.drop_first(), b.drop_first())
    }
}

pub proof fn lemma_name_le_total(a: Seq<char>, b: Seq<char>)
    ensures
        name_le(a, b) || name_le(b, a),
    decreases a.len(),
{
    if a.len() > 0 && b.len() > 0 && fold_char(a[0]) == fold_char(b[0]) {
        lemma_name_le_total(a.drop_first(), b.drop_first());
    }
}

pub proof fn lemma_name_le_transitive(a: Seq<char>, b: Seq<char>, c: Seq<char>)
    requires
        name_le(a, b),
        name_le(b, c),
    ensures
        name_le(a, c),
    decreases a.len(),
{
    if a.len() > 0 && b.len() > 0 && c.len() > 0 {
        if fold_char(a[0]) == fold_char(b[0]) && fold_char(b[0]) == fold_char(c[0]) {
            lemma_name_le_transitive(a.drop_first(), b.drop_first(), c.drop_first());
        }
    }
}

/// The executable case fold, pinned to `fold_char`.
pub fn fold_char_value(c: char) -> (r: u32)
    ensures
        r == fold_char(c),
{
    let u = c as u32;
    if 65 <= u && u <= 90 {
        u + 32
    } else {
        u
    }
}

/// Compares two names case-insensitively, returning the verdict of
/// `name_le` on their character sequences.
pub fn str_le(a: &str, b: &str) -> (r: bool)
    ensures
        r == name_le(a@, b@),
{
    let a_len = a.unicode_len();
    let b_len = b.unicode_len();
    let mut i: usize = 0;
    proof {
        assert(a@.skip(0) =~= a@);
        assert(b@.skip(0) =~= b@);
    }
    loop
        invariant
            i <= a_len,
            i <= b_len,
            a_len == a@.len(),
            b_len == b@.len(),
            name_le(a@, b@) == name_le(a@.skip(i as int), b@.skip(i as int)),
        decreases a_len - i,
    {
        if i >= a_len {
            proof {
                assert(a@.skip(i as int) =~= Seq::<char>::empty());
            }
            return true;
        }
        if i >= b_len {
            proof {
                assert(b@.skip(i as int) =~= Seq::<char>::empty());
                assert(a@.skip(i as int).len() > 0);
            }
            return false;
        }
        let ca = a.get_char(i);
        let cb = b.get_char(i);
        let fa = fold_char_value(ca);
        let fb = fold_char_value(cb);
        proof {
            assert(a@.skip(i as int)[0] == a@[i as int]);
            assert(b@.skip(i as int)[0] == b@[i as int]);
        }
        if fa < fb {
            return true;
        }
        if fa > fb {
            return false;
        }
        proof {
            assert(a@.skip(i as int).drop_first() =~= a@.skip(i as int + 1));
            assert(b@.skip(i as int).drop_first() =~= b@.skip(i as int + 1));
        }
        i = i + 1;
    }
}

/// A name that a scan may surface: non-empty and not dot-prefixed.
/// (A directory entry with an empty name cannot occur on any filesystem;
/// one is excluded just as a hidden name is.)
pub open spec fn visible_name(name: Seq<char>) -> bool {
    name.len() > 0 && name[0] != '.'
}

/// The name has extension exactly `md` (case-sensitive): it ends in
/// `.md`.
pub open spec fn md_name(name: Seq<char>) -> bool {
    name.len() >= 3 && name[name.len() - 3] == '.' && name[name.len() - 2] == 'm' && name[
        name.len() - 1
    ] == 'd'
}

/// Checks whether a name may be surfaced by a scan.
pub fn is_visible_name(name: &str) -> (r: bool)
    ensures
        r == visible_name(name@),
{
    let n = name.unicode_len();
    if n == 0 {
        return false;
    }
    let c = name.get_char(0);
    c != '.'
}

/// Checks whether a name carries extension exactly `md`.
pub fn is_md_name(name: &str) -> (r: bool)
    ensures
        r == md_name(name@),
{
    let n = name.unicode_len();
    if n < 3 {
        return false;
    }
    let dot = name.get_char(n - 3);
    let m = name.get_char(n - 2);
    let d = name.get_char(n - 1);
    dot == '.' && m == 'm' && d == 'd'
}

} // verus!
