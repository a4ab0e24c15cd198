//! Import-by-name extraction: terminator scan and printable-run tokenizing.
//!
//! Scanning starts at the first byte of the row holding the byname file
//! offset and gathers bytes until four consecutive zero bytes appear; those
//! four are discarded.  The terminator must lie wholly within the buffer:
//! when the scan reaches the buffer end without one, the table is malformed
//! (the conceptual zero padding of the matrix's last row never counts).
//! The gathered region is then cut into maximal runs of printable bytes
//! (`0x21` to `0x7E` inclusive); runs of a single byte are residue of the
//! format's two-byte hint field and are dropped.

use vstd::prelude::*;

use crate::error::PeError;

verus! {

/// A byte in the printable ASCII range `0x21` to `0x7E` inclusive.
pub open spec fn printable(b: u8) -> bool {
    0x21 <= b && b <= 0x7E
}

/// The first position at or after `i` where four consecutive zero bytes
/// start, if any lies wholly within `p`.
pub open spec fn find_term(p: Seq<u8>, i: nat) -> Option<nat>
    decreases p.len() - i,
{
    if i + 4 > p.len() {
        None
    } else if p[i as int] == 0 && p[i as int + 1] == 0 && p[i as int + 2] == 0
        && p[i as int + 3] == 0 {
        Some(i)
    } else {
        find_term(p, i + 1)
    }
}

/// The gathered byname region: the buffer's bytes from `start` up to the
/// four-zero terminator, which itself is discarded.  A terminator never
/// found before the buffer ends leaves the table malformed.
pub open spec fn byname_region(b: Seq<u8>, start: nat) -> Result<Seq<u8>, PeError> {
    match find_term(b, start) {
        Option::None => Err(PeError::MalformedBynameTable),
        Option::Some(e) => Ok(b.subrange(start as int, e as int)),
    }
}

/// The length of the printable prefix of `s`.
pub open spec fn run_len(s: Seq<u8>) -> nat
    decreases s.len(),
{
    if s.len() == 0 || !printable(s[0]) {
        0
    } else {
        1 + run_len(s.drop_first())
    }
}

pub proof fn lemma_run_len_le(s: Seq<u8>)
    ensures
        run_len(s) <= s.len(),
    decreases s.len(),
{
    if s.len() > 0 && printable(s[0]) {
        lemma_run_len_le(s.drop_first());
    }
}

/// The printable prefix is exactly the printable bytes up to the first
/// non-printable one.
pub proof fn lemma_run_len_is(s: Seq<u8>, m: nat)
    requires
        m <= s.len(),
        forall|k: int| 0 <= k < m ==> printable(#[trigger] s[k]),
        m == s.len() || !printable(s[m as int]),
    ensures
        run_len(s) == m,
    decreases s.len(),
{
    if s.len() > 0 && printable(s[0]) {
        let t = s.drop_first();
        assert(forall|k: int|
            0 <= k < m - 1 ==> #[trigger] t[k] == s[k + 1]);
        if m == s.len() {
            lemma_run_len_is(t, (m - 1) as nat);
        } else {
            assert(m >= 1);
            assert(t[m - 1] == s[m as int]);
            lemma_run_len_is(t, (m - 1) as nat);
        }
    }
}

/// The tokens of a region: its maximal printable runs, in order, without
/// the single-byte runs.
pub open spec fn tokens_of(s: Seq<u8>) -> Seq<Seq<u8>>
    decreases s.len()
        via tokens_of_decreases
{
    if s.len() == 0 {
        Seq::empty()
    } else if !printable(s[0]) {
        tokens_of(s.drop_first())
    } else {
        let k = run_len(s);
        if k >= 2 {
            seq![s.take(k as int)] + tokens_of(s.skip(k as int))
        } else {
            tokens_of(s.skip(k as int))
        }
    }
}

#[via_fn]
proof fn tokens_of_decreases(s: Seq<u8>) {
    lemma_run_len_le(s);
    if s.len() > 0 && printable(s[0]) {
        assert(run_len(s) == 1 + run_len(s.drop_first()));
    }
}

/// Finds the four-zero terminator within the buffer, scanning from
/// `start`; padding beyond the buffer end never completes a run.
pub(crate) fn find_terminator(b: &Vec<u8>, start: usize) -> (r: Option<usize>)
    ensures
        match find_term(b@, start as nat) {
            Option::None => r is None,
            Option::Some(e) => r is Some && r.unwrap() as nat == e,
        },
{
    let n = b.len();
    let mut i: usize = start;
    loop
        invariant
            start <= i,
            n == b@.len(),
            find_term(b@, start as nat) == find_term(b@, i as nat),
        decreases b@.len() + 4 - i,
    {
        if n < 4 || i > n - 4 {
            return None;
        }
        if b[i] == 0 && b[i + 1] == 0 && b[i + 2] == 0 && b[i + 3] == 0 {
            return Some(i);
        }
        proof {
            assert(find_term(b@, i as nat) == find_term(b@, (i + 1) as nat));
        }
        i = i + 1;
    }
}

/// Copies `b[start..e]` out as a vector.
pub(crate) fn copy_region(b: &Vec<u8>, start: usize, e: usize) -> (r: Vec<u8>)
    requires
        start <= e,
        (e as nat) <= b@.len(),
    ensures
        r@ == b@.subrange(start as int, e as int),
{
    let mut r: Vec<u8> = Vec::new();
    let mut i: usize = start;
    while i < e
        invariant
            start <= i <= e,
            (e as nat) <= b@.len(),
            r@ == b@.subrange(start as int, i as int),
        decreases e - i,
    {
        r.push(b[i]);
        proof {
            assert(r@ =~= b@.subrange(start as int, i + 1));
        }
        i = i + 1;
    }
    r
}

/// Cuts a region into its tokens, as `tokens_of` describes.
pub(crate) fn tokenize(region: &Vec<u8>) -> (r: Vec<Vec<u8>>)
    ensures
        r.deep_view() == tokens_of(region@),
{
    let n = region.len();
    let mut r: Vec<Vec<u8>> = Vec::new();
    let mut i: usize = 0;
    proof {
        assert(region@.skip(0) =~= region@);
        assert(r.deep_view() =~= Seq::<Seq<u8>>::empty());
        assert(Seq::<Seq<u8>>::empty() + tokens_of(region@) =~= tokens_of(
            region@));
    }
    while i < n
        invariant
            0 <= i <= n,
            n == region@.len(),
            tokens_of(region@) == r.deep_view() + tokens_of(region@.skip(i as int)),
        decreases n - i,
    {
        if !(0x21 <= region[i] && region[i] <= 0x7E) {
            proof {
                assert(region@.skip(i as int).drop_first() =~= region@.skip(
                    i + 1));
                assert(region@.skip(i as int)[0] == region@[i as int]);
            }
            i = i + 1;
        } else {
            let mut j: usize = i;
            while j < n && 0x21 <= region[j] && region[j] <= 0x7E
                invariant
                    i <= j <= n,
                    n == region@.len(),
                    forall|k: int|
                        i <= k < j ==> printable(#[trigger] region@[k]),
                decreases n - j,
            {
                j = j + 1;
            }
            proof {
                let s = region@.skip(i as int);
                assert(forall|k: int|
                    0 <= k < j - i ==> #[trigger] s[k] == region@[k + i]);
                if j < n {
                    assert(s[j - i] == region@[j as int]);
                }
                lemma_run_len_is(s, (j - i) as nat);
                assert(s.skip((j - i) as int) =~= region@.skip(j as int));
                assert(s.take((j - i) as int) =~= region@.subrange(
                    i as int, j as int));
            }
            if j - i >= 2 {
                let tok = copy_token(region, i, j);
                let ghost old_dv = r.deep_view();
                r.push(tok);
                proof {
                    assert(tok.deep_view() =~= tok@);
                    assert(r.deep_view() =~~= old_dv.push(tok@));
                    assert(tokens_of(region@.skip(i as int)) == seq![
                        region@.subrange(i as int, j as int)
                    ] + tokens_of(region@.skip(j as int)));
                    assert(old_dv.push(tok@) =~= old_dv + seq![tok@]);
                    assert((old_dv + seq![tok@]) + tokens_of(region@.skip(
                        j as int)) =~= old_dv + (seq![tok@] + tokens_of(
                        region@.skip(j as int))));
                    assert(tokens_of(region@) =~~= r.deep_view() + tokens_of(
                        region@.skip(j as int)));
                }
            } else {
                proof {
                    assert(tokens_of(region@) =~= r.deep_view() + tokens_of(
                        region@.skip(j as int)));
                }
            }
            i = j;
        }
    }
    proof {
        assert(region@.skip(n as int) =~= Seq::<u8>::empty());
        assert(tokens_of(Seq::<u8>::empty()) =~= Seq::<Seq<u8>>::empty());
        assert(r.deep_view() =~= r.deep_view() + Seq::<Seq<u8>>::empty());
    }
    r
}

/// Copies `region[i..j]` out as its own vector.
fn copy_token(region: &Vec<u8>, i: usize, j: usize) -> (r: Vec<u8>)
    requires
        i <= j <= region@.len(),
    ensures
        r@ == region@.subrange(i as int, j as int),
{
    let mut r: Vec<u8> = Vec::new();
    let mut k: usize = i;
    while k < j
        invariant
            i <= k <= j <= region@.len(),
            r@ == region@.subrange(i as int, k as int),
        decreases j - k,
    {
        r.push(region[k]);
        proof {
            assert(r@ =~= region@.subrange(i as int, k + 1));
        }
        k = k + 1;
    }
    r
}

/// What byname extraction yields for a buffer and a byname file offset:
/// scanning starts at the first byte of the offset's 16-byte row, and each
/// extracted run is rendered as lower-case hexadecimal.
pub open spec fn extract_spec(b: Seq<u8>, offset: u32) -> Result<Seq<Seq<char>>, PeError> {
    match byname_region(b, ((offset / 16) * 16) as nat) {
        Err(e) => Err(e),
        Ok(region) => Ok(tokens_of(region).map_values(
            |t: Seq<u8>| crate::hexnum::hex_lower_of(t),
        )),
    }
}

/// Extracts the import-by-name tokens of a buffer, given the byname
/// table's file offset, as `extract_spec` describes.
pub fn extract_byname(b: &Vec<u8>, offset: u32) -> (r: Result<Vec<String>, PeError>)
    ensures
        match extract_spec(b@, offset) {
            Err(e) => r is Err && r.unwrap_err() == e,
            Ok(toks) => r is Ok && r.unwrap().deep_view() == toks,
        },
{
    let start: u32 = (offset / 16) * 16;
    let e = match find_terminator(b, start as usize) {
        Some(v) => v,
        None => {
            return Err(PeError::MalformedBynameTable);
        },
    };
    proof {
        crate::locator::lemma_find_term_ge(b@, start as nat);
    }
    let region = copy_region(b, start as usize, e);
    let tokens = tokenize(&region);
    let ghost toks_model = tokens.deep_view();
    let mut out: Vec<String> = Vec::new();
    let mut j: usize = 0;
    proof {
        assert(forall|k: int|
            0 <= k < tokens@.len() ==> #[trigger] tokens@[k]@ == toks_model[k]);
    }
    while j < tokens.len()
        invariant
            0 <= j <= tokens@.len(),
            tokens.deep_view() == toks_model,
            toks_model.len() == tokens@.len(),
            forall|k: int|
                0 <= k < tokens@.len() ==> #[trigger] tokens@[k]@
                    == toks_model[k],
            out@.len() == j,
            forall|k: int|
                0 <= k < j ==> #[trigger] out@[k]@ == crate::hexnum::hex_lower_of(
                    toks_model[k],
                ),
        decreases tokens@.len() - j,
    {
        let tok = crate::pe_tools::vec_to_string((&tokens[j]).as_slice());
        out.push(tok);
        j = j + 1;
    }
    proof {
        assert(out.deep_view() =~~= toks_model.map_values(
            |t: Seq<u8>| crate::hexnum::hex_lower_of(t)));
    }
    Ok(out)
}

} // verus!
