//! ASCII case folding and substring containment over character sequences.

use vstd::prelude::*;
use vstd::string::StrSliceExecFns;

verus! {

/// Folds one character to lower case, touching only ASCII letters.
pub open spec fn ascii_lower_char(c: char) -> char {
    if 'A' <= c && c <= 'Z' {
        (((c as u8) + 32) as char)
    } else {
        c
    }
}

/// Folds every ASCII letter of a sequence to lower case.
pub open spec fn ascii_lower(s: Seq<char>) -> Seq<char> {
    s.map_values(|c: char| ascii_lower_char(c))
}

/// `needle` occurs in `hay` starting at position `i`.
pub open spec fn contains_at(hay: Seq<char>, needle: Seq<char>, i: int) -> bool {
    0 <= i && i + needle.len() <= hay.len() && hay.subrange(i, i + needle.len())
        == needle
}

/// `needle` occurs somewhere in `hay` (anywhere, the empty sequence always).
pub open spec fn contains_seq(hay: Seq<char>, needle: Seq<char>) -> bool {
    exists|i: int| contains_at(hay, needle, i)
}

/// Folds one character to lower case, touching only ASCII letters.
pub(crate) fn lower_char(c: char) -> (r: char)
    ensures
        r == ascii_lower_char(c),
{
    if 'A' <= c && c <= 'Z' {
        ((c as u8) + 32) as char
    } else {
        c
    }
}

/// The characters of `s`, each folded to lower case.
pub(crate) fn lower_chars(s: &str) -> (r: Vec<char>)
    ensures
        r@ == ascii_lower(s@),
{
    let n = s.unicode_len();
    let mut r: Vec<char> = Vec::new();
    let mut i: usize = 0;
    while i < n
        invariant
            0 <= i <= n,
            n == s@.len(),
            r@ == ascii_lower(s@.take(i as int)),
        decreases n - i,
    {
        let c = s.get_char(i);
        r.push(lower_char(c));
        proof {
            assert(r@ =~= ascii_lower(s@.take(i + 1)));
        }
        i = i + 1;
    }
    proof {
        assert(s@.take(n as int) =~= s@);
    }
    r
}

/// Whether `needle` occurs as a contiguous part of `hay`.
pub(crate) fn contains_chars(hay: &Vec<char>, needle: &Vec<char>) -> (r: bool)
    ensures
        r == contains_seq(hay@, needle@),
{
    let hn = hay.len();
    let nn = needle.len();
    if nn > hn {
        return false;
    }
    let mut i: usize = 0;
    while i <= hn - nn
        invariant
            nn <= hn,
            hn == hay@.len(),
            nn == needle@.len(),
            0 <= i <= hn - nn + 1,
            forall|p: int| 0 <= p < i ==> !contains_at(hay@, needle@, p),
        decreases hn - nn + 1 - i,
    {
        let mut j: usize = 0;
        let mut ok = true;
        let ghost mut bad: int = 0;
        while j < nn && ok
            invariant
                0 <= j <= nn,
                i + nn <= hn,
                hn == hay@.len(),
                nn == needle@.len(),
                ok ==> forall|k: int|
                    0 <= k < j ==> hay@[i + k] == needle@[k],
                !ok ==> 0 <= bad < nn && hay@[i + bad] != needle@[bad],
            decreases (if ok { 1int } else { 0int }), nn - j,
        {
            if hay[i + j] != needle[j] {
                ok = false;
                proof {
                    bad = j as int;
                }
            } else {
                j = j + 1;
            }
        }
        if ok {
            proof {
                assert(hay@.subrange(i as int, i + nn) =~= needle@);
                assert(contains_at(hay@, needle@, i as int));
            }
            return true;
        }
        proof {
            assert(!contains_at(hay@, needle@, i as int)) by {
                if contains_at(hay@, needle@, i as int) {
                    assert(hay@.subrange(i as int, i + nn)[bad] == needle@[bad]);
                }
            }
        }
        i = i + 1;
    }
    proof {
        assert(!contains_seq(hay@, needle@)) by {
            if contains_seq(hay@, needle@) {
                let p = choose|p: int| contains_at(hay@, needle@, p);
                assert(p <= hn - nn);
            }
        }
    }
    false
}

} // verus!
