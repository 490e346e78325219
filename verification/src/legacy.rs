//! The legacy (Nushell) format of a chain: every token as a string, `W-`
//! and the word for a word, `E--` for the end of a message.
use vstd::prelude::*;
use vstd::string::StringExecFns;

use crate::assoc::{assoc_map, keys_distinct, lemma_seq_sum_prefix, map_sum, seq_sum};
use crate::brain::BrainView;
use crate::edges::{token_view, EdgesView, Token, TokenView, Weight};
use crate::text::{chars_of, push_char, starts_with, string_from};

verus! {

/// A chain in the legacy format, as values: each token string with its
/// next-token strings and their weights.
pub type LegacyView = Seq<(Seq<char>, Seq<(Seq<char>, Weight)>)>;

/// The end of a message in the legacy format.
pub open spec fn end_marker() -> Seq<char> {
    seq!['E', '-', '-']
}

/// The prefix of a word in the legacy format.
pub open spec fn word_marker() -> Seq<char> {
    seq!['W', '-']
}

/// A token in the legacy format: `W-` and the word, or `E--` for the end.
pub open spec fn legacy_format(t: TokenView) -> Seq<char> {
    match t {
        Some(w) => word_marker() + w,
        None => end_marker(),
    }
}

/// A token read from the legacy format: `E--` is the end, a `W-` prefix is
/// dropped, anything else is a word as it stands.
pub open spec fn read_legacy(s: Seq<char>) -> TokenView {
    if s == end_marker() {
        None
    } else if starts_with(s, word_marker()) {
        Some(s.skip(2))
    } else {
        Some(s)
    }
}

/// A list of legacy `(token, weight)` pairs as values.
pub open spec fn legacy_pairs_view(v: Seq<(String, Weight)>) -> Seq<(Seq<char>, Weight)> {
    v.map_values(|q: (String, Weight)| (q.0@, q.1))
}

/// A legacy chain as values.
pub open spec fn legacy_chain_view(m: Seq<(String, Vec<(String, Weight)>)>) -> Seq<
    (Seq<char>, Seq<(Seq<char>, Weight)>),
> {
    m.map_values(|p: (String, Vec<(String, Weight)>)| (p.0@, legacy_pairs_view(p.1@)))
}

/// Each legacy pair read back as a token and its weight.
pub open spec fn read_pairs(v: Seq<(Seq<char>, Weight)>) -> Seq<(TokenView, Weight)> {
    v.map_values(|q: (Seq<char>, Weight)| (read_legacy(q.0), q.1))
}

/// Each legacy token read back, with the edges its pairs are read as.
pub open spec fn read_links(m: LegacyView) -> Seq<(TokenView, EdgesView)> {
    m.map_values(|p: (Seq<char>, Seq<(Seq<char>, Weight)>)| (read_legacy(p.0), legacy_edges(p.1)))
}

/// A string that `legacy_format` writes for some token.
pub open spec fn is_legacy_token(s: Seq<char>) -> bool {
    legacy_format(read_legacy(s)) == s
}

/// Legacy pairs as `legacy_format` writes them: every token written for
/// some token, none twice.
pub open spec fn legacy_pairs_written(v: Seq<(Seq<char>, Weight)>) -> bool {
    &&& keys_distinct(v)
    &&& forall|j: int| 0 <= j < v.len() ==> is_legacy_token(#[trigger] v[j].0)
}

/// A legacy chain as `legacy_format` writes one: every token written for
/// some token, none twice, and so for the pairs of each.
pub open spec fn legacy_well_formed(m: LegacyView) -> bool {
    &&& keys_distinct(m)
    &&& forall|i: int|
        0 <= i < m.len() ==> is_legacy_token(#[trigger] m[i].0) && legacy_pairs_written(m[i].1)
}

/// The edges that a legacy list of pairs is read as: each token read back,
/// a later pair overriding an earlier one, and the sum of all the listed
/// weights as the total.
pub open spec fn legacy_edges(v: Seq<(Seq<char>, Weight)>) -> EdgesView {
    EdgesView {
        weights: assoc_map(read_pairs(v)),
        total: seq_sum(v) as u64,
    }
}

/// The brain that a legacy chain is read as, a later token overriding an
/// earlier one.
pub open spec fn legacy_brain(m: LegacyView) -> BrainView {
    assoc_map(read_links(m))
}

/// The edges with their total set to the sum of their weights.
pub open spec fn with_summed_total(e: EdgesView) -> EdgesView {
    EdgesView { weights: e.weights, total: map_sum(e.weights) as u64 }
}

/// Every listed weight sum fits in a `u64`.
pub open spec fn legacy_sums_fit(m: LegacyView) -> bool {
    forall|i: int| 0 <= i < m.len() ==> seq_sum(#[trigger] m[i].1) <= u64::MAX
}

/// Reading a token back from the legacy format gives the token.
pub proof fn lemma_legacy_round_trip(t: TokenView)
    ensures
        read_legacy(legacy_format(t)) == t,
{
    if let Some(w) = t {
        let s = word_marker() + w;
        assert(s[0] == 'W');
        assert(s != end_marker());
        assert(s.take(2) =~= word_marker());
        assert(s.skip(2) =~= w);
    }
}

/// Two tokens with the same legacy format are the same token.
pub proof fn lemma_legacy_injective(a: TokenView, b: TokenView)
    requires
        legacy_format(a) == legacy_format(b),
    ensures
        a == b,
{
    lemma_legacy_round_trip(a);
    lemma_legacy_round_trip(b);
}

/// A token in the legacy format.
pub fn legacy_token_format(tok: &Token) -> (s: String)
    ensures
        s@ == legacy_format(token_view(*tok)),
{
    let mut s = String::new();
    match tok {
        Some(w) => {
            push_char(&mut s, 'W');
            push_char(&mut s, '-');
            s.append(w.as_str());
            assert(s@ =~= word_marker() + w@);
        },
        None => {
            push_char(&mut s, 'E');
            push_char(&mut s, '-');
            push_char(&mut s, '-');
            assert(s@ =~= end_marker());
        },
    }
    s
}

/// A token read from the legacy format.
pub fn read_legacy_token(s: &String) -> (t: Token)
    ensures
        token_view(t) == read_legacy(s@),
{
    let c = chars_of(s.as_str());
    if c.len() == 3 && c[0] == 'E' && c[1] == '-' && c[2] == '-' {
        assert(c@ =~= end_marker());
        None
    } else {
        assert(c@ != end_marker()) by {
            if c@ == end_marker() {
                assert(c@[0] == 'E' && c@[1] == '-' && c@[2] == '-');
            }
        }
        if c.len() >= 2 && c[0] == 'W' && c[1] == '-' {
            assert(c@.take(2) =~= word_marker());
            Some(string_from(&c, 2))
        } else {
            assert(!starts_with(c@, word_marker())) by {
                if starts_with(c@, word_marker()) {
                    assert(c@.take(2)[0] == 'W' && c@.take(2)[1] == '-');
                }
            }
            Some(s.clone())
        }
    }
}



/// Whether the weights listed for every token of a legacy chain sum to at
/// most `u64::MAX`, so that the chain can be read as a brain.
pub fn legacy_fits(map: &Vec<(String, Vec<(String, Weight)>)>) -> (r: bool)
    ensures
        r == legacy_sums_fit(legacy_chain_view(map@)),
{
    let ghost mv = legacy_chain_view(map@);
    let mut i: usize = 0;
    while i < map.len()
        invariant
            mv == legacy_chain_view(map@),
            i <= map.len(),
            forall|k: int| 0 <= k < i ==> seq_sum(#[trigger] mv[k].1) <= u64::MAX,
        decreases map.len() - i,
    {
        let pairs = &map[i].1;
        let ghost v = mv[i as int].1;
        assert(v == legacy_pairs_view(pairs@));
        let mut sum: u64 = 0;
        let mut j: usize = 0;
        while j < pairs.len()
            invariant
                v == legacy_pairs_view(pairs@),
                mv == legacy_chain_view(map@),
                i < mv.len(),
                v == mv[i as int].1,
                j <= pairs.len(),
                sum == seq_sum(v.take(j as int)),
            decreases pairs.len() - j,
        {
            assert(v.take(j + 1).drop_last() =~= v.take(j as int));
            assert(v.take(j + 1).last() == v[j as int]);
            let w = pairs[j].1;
            if sum as u128 + w as u128 > u64::MAX as u128 {
                proof {
                    lemma_seq_sum_prefix(v, j + 1);
                    assert(seq_sum(v.take(j + 1)) == sum + w);
                    assert(!(seq_sum(mv[i as int].1) <= u64::MAX));
                }
                return false;
            }
            sum = sum + w as u64;
            j += 1;
        }
        assert(v.take(j as int) =~= v);
        i += 1;
    }
    true
}

} // verus!
