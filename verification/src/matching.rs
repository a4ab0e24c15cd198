//! The match engine: extracted import names against the knowledge base.
//!
//! Matching happens at the hexadecimal level, as the analysis works on the
//! byte matrix: a knowledge entry matches a token when the lower-case hex
//! rendering of the entry's name occurs inside the token (compared without
//! regard to ASCII letter case), and only tokens of at least six digits
//! (three decoded characters) are considered.  Every match contributes the
//! entry's `name:description` label; duplicates are kept, and entries are
//! tried in the order they are supplied.

use vstd::prelude::*;
use vstd::string::StrSliceExecFns;
use vstd::string::StringExecFns;
use vstd::utf8::encode_utf8;

use crate::hexnum::{dec_digits, hex_lower_of};
use crate::hexnum;
use crate::pe_tools;
use crate::text::{ascii_lower, contains_seq};

verus! {

/// One entry of the knowledge base: a function name, an optional
/// description, and whether the function counts as sensitive.
#[derive(Debug, Clone)]
pub struct KnowledgeEntry {
    pub name: String,
    pub description: Option<String>,
    pub sensitive: bool,
}

/// The label a matching entry contributes: `name:description`, with an
/// empty description when there is none.
pub open spec fn entry_label(e: KnowledgeEntry) -> Seq<char> {
    e.name@ + ":"@ + (match e.description {
        Option::Some(d) => d@,
        Option::None => Seq::<char>::empty(),
    })
}

/// Whether a token reports entry `e`: the token holds at least six digits
/// and contains the hex rendering of the entry's name, compared without
/// regard to ASCII letter case.
pub open spec fn matched(tok: Seq<char>, e: KnowledgeEntry) -> bool {
    &&& tok.len() >= 6
    &&& contains_seq(ascii_lower(tok), ascii_lower(hex_lower_of(encode_utf8(e.name@))))
}

/// The labels one token contributes, trying the entries in order.
pub open spec fn row_matches(tok: Seq<char>, ents: Seq<KnowledgeEntry>) -> Seq<Seq<char>>
    decreases ents.len(),
{
    if ents.len() == 0 {
        Seq::empty()
    } else {
        (if matched(tok, ents[0]) {
            seq![entry_label(ents[0])]
        } else {
            Seq::<Seq<char>>::empty()
        }) + row_matches(tok, ents.drop_first())
    }
}

/// All labels, token by token in order, entries in order within each token.
pub open spec fn matches_spec(toks: Seq<Seq<char>>, ents: Seq<KnowledgeEntry>) -> Seq<
    Seq<char>,
>
    decreases toks.len(),
{
    if toks.len() == 0 {
        Seq::empty()
    } else {
        row_matches(toks[0], ents) + matches_spec(toks.drop_first(), ents)
    }
}

/// Collects the labels of every knowledge entry reported by any extracted
/// token, as `matches_spec` lays them out.
pub fn match_knowledge(byname: &Vec<String>, entries: &Vec<KnowledgeEntry>) -> (r: Vec<
    String,
>)
    ensures
        r.deep_view() == matches_spec(byname.deep_view(), entries@),
{
    let ghost toks_dv = byname.deep_view();
    let ghost ents = entries@;
    let mut r: Vec<String> = Vec::new();
    let mut i: usize = 0;
    proof {
        assert(forall|k: int|
            0 <= k < byname@.len() ==> #[trigger] byname@[k]@ == toks_dv[k]);
        assert(r.deep_view() =~= Seq::<Seq<char>>::empty());
        assert(Seq::<Seq<char>>::empty() + matches_spec(toks_dv, ents)
            =~= matches_spec(toks_dv, ents));
        assert(toks_dv.skip(0) =~= toks_dv);
    }
    while i < byname.len()
        invariant
            0 <= i <= byname@.len(),
            toks_dv == byname.deep_view(),
            toks_dv.len() == byname@.len(),
            ents == entries@,
            forall|k: int|
                0 <= k < byname@.len() ==> #[trigger] byname@[k]@ == toks_dv[k],
            matches_spec(toks_dv, ents) == r.deep_view() + matches_spec(
                toks_dv.skip(i as int),
                ents,
            ),
        decreases byname@.len() - i,
    {
        let tok = &byname[i];
        let ghost tok_dv = toks_dv[i as int];
        let long_enough = tok.as_str().unicode_len() >= 6;
        proof {
            assert(toks_dv.skip(i as int)[0] == toks_dv[i as int]);
            assert(toks_dv.skip(i as int).drop_first() =~= toks_dv.skip(i + 1));
            assert(matches_spec(toks_dv.skip(i as int), ents) == row_matches(
                tok_dv,
                ents,
            ) + matches_spec(toks_dv.skip(i + 1), ents));
            assert(ents.skip(0) =~= ents);
        }
        let mut j: usize = 0;
        while j < entries.len()
            invariant
                0 <= j <= entries@.len(),
                0 <= i < byname@.len(),
                toks_dv == byname.deep_view(),
                toks_dv.len() == byname@.len(),
                ents == entries@,
                forall|k: int|
                    0 <= k < byname@.len() ==> #[trigger] byname@[k]@
                        == toks_dv[k],
                tok_dv == toks_dv[i as int],
                *tok == byname@[i as int],
                long_enough == (tok_dv.len() >= 6),
                matches_spec(toks_dv, ents) == r.deep_view() + (row_matches(
                    tok_dv,
                    ents.skip(j as int),
                ) + matches_spec(toks_dv.skip(i + 1), ents)),
            decreases entries@.len() - j,
        {
            let e = &entries[j];
            let key = pe_tools::vec_to_string(e.name.as_str().as_bytes());
            let hit = pe_tools::fuzzy_search(tok.as_str(), key.as_str());
            proof {
                assert(ents.skip(j as int)[0] == ents[j as int]);
                assert(ents.skip(j as int).drop_first() =~= ents.skip(j + 1));
                assert(key@ == hex_lower_of(encode_utf8(e.name@)));
            }
            if hit && long_enough {
                let mut label = e.name.clone();
                label.append(":");
                match &e.description {
                    Some(d) => {
                        label.append(d.as_str());
                    },
                    None => {
                        proof {
                            assert((e.name@ + ":"@) + Seq::<char>::empty()
                                =~= e.name@ + ":"@);
                        }
                    },
                }
                proof {
                    assert(label@ == entry_label(ents[j as int]));
                }
                let ghost r0 = r.deep_view();
                r.push(label);
                proof {
                    assert(r.deep_view() =~~= r0.push(entry_label(
                        ents[j as int])));
                    assert(row_matches(tok_dv, ents.skip(j as int)) == seq![
                        entry_label(ents[j as int])
                    ] + row_matches(tok_dv, ents.skip(j + 1)));
                    assert(r0.push(entry_label(ents[j as int])) =~= r0 + seq![
                        entry_label(ents[j as int])
                    ]);
                    assert(r0 + ((seq![entry_label(ents[j as int])]
                        + row_matches(tok_dv, ents.skip(j + 1))) + matches_spec(
                        toks_dv.skip(i + 1),
                        ents,
                    )) =~~= (r0 + seq![entry_label(ents[j as int])])
                        + (row_matches(tok_dv, ents.skip(j + 1)) + matches_spec(
                        toks_dv.skip(i + 1),
                        ents,
                    )));
                }
            } else {
                proof {
                    assert(!matched(tok_dv, ents[j as int]));
                    assert(row_matches(tok_dv, ents.skip(j as int))
                        == Seq::<Seq<char>>::empty() + row_matches(
                        tok_dv,
                        ents.skip(j + 1),
                    ));
                    assert(Seq::<Seq<char>>::empty() + row_matches(
                        tok_dv,
                        ents.skip(j + 1),
                    ) =~= row_matches(tok_dv, ents.skip(j + 1)));
                }
            }
            j = j + 1;
        }
        proof {
            assert(row_matches(tok_dv, ents.skip(ents.len() as int))
                == Seq::<Seq<char>>::empty());
            assert(Seq::<Seq<char>>::empty() + matches_spec(
                toks_dv.skip(i + 1),
                ents,
            ) =~= matches_spec(toks_dv.skip(i + 1), ents));
        }
        i = i + 1;
    }
    proof {
        assert(toks_dv.skip(toks_dv.len() as int) =~= Seq::<Seq<char>>::empty());
        assert(matches_spec(Seq::<Seq<char>>::empty(), ents)
            == Seq::<Seq<char>>::empty());
        assert(r.deep_view() + Seq::<Seq<char>>::empty() =~= r.deep_view());
    }
    r
}

/// One quoted label of the summary's list, with its separator.
pub open spec fn quoted_list(ms: Seq<Seq<char>>, i: int) -> Seq<char>
    decreases ms.len() - i,
{
    if i < 0 || i >= ms.len() {
        Seq::empty()
    } else {
        "\""@ + ms[i] + "\""@ + (if i + 1 < ms.len() {
            ", "@
        } else {
            Seq::<char>::empty()
        }) + quoted_list(ms, i + 1)
    }
}

/// The user-facing summary of an analysis: either the count of suspicious
/// calls with the quoted list of matched labels, or the all-clear.
pub open spec fn analysis_message_spec(ms: Seq<Seq<char>>) -> Seq<char> {
    if ms.len() == 0 {
        "No anomalies detected"@
    } else {
        "The executable may try to call "@ + dec_digits(ms.len())
            + " sensitive system functions, which could harm the computer: ["@
            + quoted_list(ms, 0) + "]"@
    }
}

/// Renders the analysis summary for a list of matched labels.
pub fn analysis_message(matches: &Vec<String>) -> (r: String)
    ensures
        r@ == analysis_message_spec(matches.deep_view()),
{
    let ghost ms = matches.deep_view();
    proof {
        assert(forall|k: int|
            0 <= k < matches@.len() ==> #[trigger] matches@[k]@ == ms[k]);
    }
    if matches.len() == 0 {
        return String::from_str("No anomalies detected");
    }
    let mut r = String::from_str("The executable may try to call ");
    let ds = hexnum::dec_string(matches.len() as u64);
    r.append(ds.as_str());
    r.append(" sensitive system functions, which could harm the computer: [");
    let ghost pre = r@;
    let mut i: usize = 0;
    while i < matches.len()
        invariant
            0 <= i <= matches@.len(),
            ms == matches.deep_view(),
            ms.len() == matches@.len(),
            forall|k: int|
                0 <= k < matches@.len() ==> #[trigger] matches@[k]@ == ms[k],
            pre + quoted_list(ms, 0) == r@ + quoted_list(ms, i as int),
        decreases matches@.len() - i,
    {
        let ghost r0 = r@;
        r.append("\"");
        r.append((&matches[i]).as_str());
        r.append("\"");
        if i + 1 < matches.len() {
            r.append(", ");
        } else {
            proof {
                assert(("\""@ + ms[i as int] + "\""@) + Seq::<char>::empty()
                    =~= "\""@ + ms[i as int] + "\""@);
            }
        }
        proof {
            let sep: Seq<char> = if i + 1 < ms.len() {
                ", "@
            } else {
                Seq::<char>::empty()
            };
            assert(quoted_list(ms, i as int) == "\""@ + ms[i as int] + "\""@
                + sep + quoted_list(ms, i + 1));
            assert(r0 + (("\""@ + ms[i as int] + "\""@ + sep) + quoted_list(
                ms,
                i + 1,
            )) =~= (((r0 + "\""@) + ms[i as int]) + "\""@ + sep) + quoted_list(
                ms,
                i + 1,
            ));
        }
        i = i + 1;
    }
    proof {
        assert(quoted_list(ms, ms.len() as int) == Seq::<char>::empty());
        assert(r@ + Seq::<char>::empty() =~= r@);
        assert(r@ == pre + quoted_list(ms, 0));
    }
    r.append("]");
    r
}

} // verus!
