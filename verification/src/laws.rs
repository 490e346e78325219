//! What holds of the brain across its operations.
use vstd::prelude::*;

use crate::assoc::{
    lemma_map_sum_at_most_seq_sum, lemma_map_sum_bounds, lemma_map_sum_insert_any,
    lemma_map_sum_nonneg, lemma_map_sum_remove, map_sum,
};
use crate::brain::{
    can_forget, edges_finite, forget_token, learn_all, learn_pair, learns_new_token, merge_brains,
    message_tokens,
    BrainView,
};
use crate::legacy::{
    is_legacy_token, legacy_brain, legacy_edges, legacy_sums_fit, legacy_well_formed, read_legacy,
    read_links, read_pairs, with_summed_total, LegacyView,
};
use crate::edges::{
    bump, end_fits, first_edge, merge_edges, weights_within_total, TokenView,
};
use crate::counting::{
    counted, from_count, from_count_all, lemma_counted_same, lemma_counted_sums, lemma_counts_concat,
    lemma_from_count_place, lemma_learning_counts, lemma_learning_counts_one, lemma_learning_sums,
    lemma_messages_counted, lemma_pair_within_from_all, learn_messages, pair_count, pair_count_all,
    token_lists, total_or_zero, weight_or_zero,
};
use crate::reply::{final_word, start_fits};
use crate::text::{is_link, is_mention, is_ws, lower_char, normalize, split_state, utf16_len, words};

verus! {

/// Every set of edges weighs each token at most its total.
pub open spec fn within_totals(b: BrainView) -> bool {
    forall|k: TokenView| #[trigger] b.contains_key(k) ==> weights_within_total(b[k])
}

/// Every set of edges sums its weights to at most its total.
pub open spec fn sums_within_totals(b: BrainView) -> bool {
    forall|k: TokenView| #[trigger] b.contains_key(k) ==> map_sum(b[k].weights) <= b[k].total
}

/// Every total leaves room for `n` more transitions.
pub open spec fn totals_below(b: BrainView, n: int) -> bool {
    forall|k: TokenView| #[trigger] b.contains_key(k) ==> b[k].total + n <= u64::MAX
}

/// A message's tokens end with the end of the message, and only there.
pub proof fn lemma_message_ends(msg: Seq<char>)
    ensures
        message_tokens(msg).len() >= 1,
        message_tokens(msg).last() == None::<Seq<char>>,
        forall|i: int| 0 <= i < message_tokens(msg).len() - 1 ==> (#[trigger] message_tokens(msg)[i]) is Some,
{
    lemma_word_tokens_words(crate::text::words(msg));
}

proof fn lemma_word_tokens_words(ws: Seq<Seq<char>>)
    ensures
        forall|i: int| 0 <= i < crate::brain::word_tokens(ws).len() ==> (#[trigger] crate::brain::word_tokens(ws)[i]) is Some,
    decreases ws.len(),
{
    if ws.len() > 0 {
        lemma_word_tokens_words(ws.drop_last());
    }
}

proof fn lemma_learn_pair_keeps(b: BrainView, x: TokenView, y: TokenView)
    ensures
        learn_pair(b, x, y).contains_key(x),
        learn_pair(b, x, y)[x].weights.contains_key(y),
        forall|k: TokenView| #[trigger] b.contains_key(k) ==> learn_pair(b, x, y).contains_key(k),
        forall|k: TokenView, t: TokenView|
            #[trigger] b.contains_key(k) && #[trigger] b[k].weights.contains_key(t) ==> learn_pair(b, x, y)[k].weights.contains_key(t)
                && learn_pair(b, x, y)[k].weights[t] >= b[k].weights[t],
{
}

/// Learning a message forgets nothing: every known token stays known, with
/// every edge it had, each weight at least as high.
pub proof fn lemma_learning_keeps(b: BrainView, toks: Seq<TokenView>)
    ensures
        forall|k: TokenView| #[trigger] b.contains_key(k) ==> learn_all(b, toks).contains_key(k),
        forall|k: TokenView, t: TokenView|
            #[trigger] b.contains_key(k) && #[trigger] b[k].weights.contains_key(t) ==> learn_all(b, toks)[k].weights.contains_key(t)
                && learn_all(b, toks)[k].weights[t] >= b[k].weights[t],
    decreases toks.len(),
{
    if toks.len() >= 2 {
        let d = toks.drop_last();
        lemma_learning_keeps(b, d);
        lemma_learn_pair_keeps(learn_all(b, d), toks[toks.len() - 2], toks.last());
    }
}

/// After learning a message, each of its tokens but the last is known and
/// has an edge to the token that followed it.
pub proof fn lemma_learning_records(b: BrainView, toks: Seq<TokenView>)
    ensures
        forall|i: int| 0 <= i < toks.len() - 1 ==> learn_all(b, toks).contains_key(#[trigger] toks[i])
            && learn_all(b, toks)[toks[i]].weights.contains_key(toks[i + 1]),
    decreases toks.len(),
{
    if toks.len() >= 2 {
        let d = toks.drop_last();
        let l = learn_all(b, d);
        lemma_learning_records(b, d);
        lemma_learn_pair_keeps(l, toks[toks.len() - 2], toks.last());
        assert forall|i: int| 0 <= i < toks.len() - 1 implies learn_all(b, toks).contains_key(#[trigger] toks[i])
            && learn_all(b, toks)[toks[i]].weights.contains_key(toks[i + 1]) by {
            if i < toks.len() - 2 {
                assert(d[i] == toks[i]);
                assert(d[i + 1] == toks[i + 1]);
                assert(l.contains_key(toks[i]) && l[toks[i]].weights.contains_key(toks[i + 1]));
            }
        }
    }
}

/// Learning keeps every weight within its total.
pub proof fn lemma_learning_keeps_weights_within_totals(b: BrainView, toks: Seq<TokenView>)
    requires
        within_totals(b),
    ensures
        within_totals(learn_all(b, toks)),
    decreases toks.len(),
{
    if toks.len() >= 2 {
        let d = toks.drop_last();
        lemma_learning_keeps_weights_within_totals(b, d);
        let l = learn_all(b, d);
        let (x, y) = (toks[toks.len() - 2], toks.last());
        let r = learn_pair(l, x, y);
        assert forall|k: TokenView| #[trigger] r.contains_key(k) implies weights_within_total(r[k]) by {
            if k == x {
                if l.contains_key(x) {
                    assert(weights_within_total(l[x]));
                    let e = bump(l[x], y);
                    assert forall|t: TokenView| #[trigger] e.weights.contains_key(t) implies e.weights[t] <= e.total by {
                        if t != y {
                            assert(l[x].weights.contains_key(t));
                        }
                    }
                } else {
                    let e = first_edge(y);
                    assert forall|t: TokenView| #[trigger] e.weights.contains_key(t) implies e.weights[t] <= e.total by {}
                }
            } else {
                assert(l.contains_key(k));
            }
        }
    }
}

/// Merging brains that keep their weights within their totals gives one
/// that does too.
pub proof fn lemma_merging_keeps_weights_within_totals(a: BrainView, b: BrainView)
    requires
        within_totals(a),
        within_totals(b),
        edges_finite(b),
    ensures
        within_totals(merge_brains(a, b)),
{
    let m = merge_brains(a, b);
    assert forall|k: TokenView| #[trigger] m.contains_key(k) implies weights_within_total(m[k]) by {
        if a.contains_key(k) && b.contains_key(k) {
            let (ea, eb) = (a[k], b[k]);
            assert(weights_within_total(ea));
            let e = merge_edges(ea, eb);
            assert(eb.weights.dom().finite());
            lemma_map_sum_nonneg(eb.weights);
            assert forall|t: TokenView| #[trigger] e.weights.contains_key(t) implies e.weights[t] <= e.total by {
                if eb.weights.contains_key(t) {
                    lemma_map_sum_bounds(eb.weights, t);
                }
                if ea.weights.contains_key(t) {
                    assert(ea.weights[t] <= ea.total);
                }
            }
        } else if a.contains_key(k) {
            assert(weights_within_total(a[k]));
        } else {
            assert(weights_within_total(b[k]));
        }
    }
}

/// A brain whose weights stay within their totals can answer any message
/// and forget any word without a total going below zero.
pub proof fn lemma_within_totals_fits(b: BrainView, msg: Seq<char>, t: TokenView)
    requires
        within_totals(b),
    ensures
        start_fits(b, msg),
        can_forget(b, t),
{
    assert forall|k: TokenView| #[trigger] b.contains_key(k) implies end_fits(b[k]) by {
        assert(weights_within_total(b[k]));
    }
    assert forall|k: TokenView| #[trigger] b.contains_key(k) && k != t implies crate::edges::can_drop(b[k], t) by {
        assert(weights_within_total(b[k]));
    }
}

/// Weights that sum to at most the total are each at most the total.
pub proof fn lemma_sums_bound_weights(b: BrainView)
    requires
        sums_within_totals(b),
        edges_finite(b),
    ensures
        within_totals(b),
{
    assert forall|k: TokenView| #[trigger] b.contains_key(k) implies weights_within_total(b[k]) by {
        assert forall|t: TokenView| #[trigger] b[k].weights.contains_key(t) implies b[k].weights[t] <= b[k].total by {
            lemma_map_sum_bounds(b[k].weights, t);
        }
    }
}

/// Forgetting a word keeps every sum of weights within its total.
pub proof fn lemma_forgetting_keeps_sums_within_totals(b: BrainView, t: TokenView)
    requires
        sums_within_totals(b),
        edges_finite(b),
    ensures
        sums_within_totals(forget_token(b, t)),
        edges_finite(forget_token(b, t)),
{
    let f = forget_token(b, t);
    assert forall|k: TokenView| #[trigger] f.contains_key(k) implies map_sum(f[k].weights) <= f[k].total
        && f[k].weights.dom().finite() by {
        let e = b[k];
        assert(map_sum(e.weights) <= e.total);
        assert(e.weights.dom().finite());
        if e.weights.contains_key(t) {
            lemma_map_sum_remove(e.weights, t);
        }
    }
}

/// Forgetting a word leaves no trace of it: it is no longer known, and no
/// token has an edge to it.
pub proof fn lemma_forgetting_erases(b: BrainView, t: TokenView)
    ensures
        !forget_token(b, t).contains_key(t),
        forall|k: TokenView| #[trigger] forget_token(b, t).contains_key(k) ==> !forget_token(b, t)[k].weights.contains_key(t),
        forall|k: TokenView| #[trigger] b.contains_key(k) && k != t ==> forget_token(b, t).contains_key(k),
{
}

/// Learning keeps every sum of weights within its total, as long as no total
/// reaches `u64::MAX` on the way.
pub proof fn lemma_learning_keeps_sums_within_totals(b: BrainView, toks: Seq<TokenView>)
    requires
        sums_within_totals(b),
        edges_finite(b),
        totals_below(b, toks.len() as int),
        toks.len() <= u64::MAX,
    ensures
        sums_within_totals(learn_all(b, toks)),
        edges_finite(learn_all(b, toks)),
    decreases toks.len(),
{
    if toks.len() >= 2 {
        let d = toks.drop_last();
        assert(totals_below(b, d.len() as int)) by {
            assert forall|k: TokenView| #[trigger] b.contains_key(k) implies b[k].total + d.len() <= u64::MAX by {
                assert(b[k].total + toks.len() <= u64::MAX);
            }
        }
        lemma_learning_keeps_sums_within_totals(b, d);
        lemma_learning_grows_totals_slowly(b, d);
        lemma_learning_keeps(b, d);
        let l = learn_all(b, d);
        let (x, y) = (toks[toks.len() - 2], toks.last());
        let r = learn_pair(l, x, y);
        assert forall|k: TokenView| #[trigger] r.contains_key(k) implies map_sum(r[k].weights) <= r[k].total
            && r[k].weights.dom().finite() by {
            if k == x {
                if l.contains_key(x) {
                    let e = l[x];
                    assert(e.total + 1 <= u64::MAX) by {
                        if b.contains_key(x) {
                            assert(b[x].total + toks.len() <= u64::MAX);
                        }
                    }
                    lemma_map_sum_insert_any(e.weights, y, bump(e, y).weights[y]);
                    if e.weights.contains_key(y) {
                        lemma_map_sum_bounds(e.weights, y);
                    }
                } else {
                    crate::assoc::lemma_map_sum_insert(Map::<TokenView, u16>::empty(), y, 1);
                    assert(Map::<TokenView, u16>::empty().dom() =~= Set::empty());
                }
            } else {
                assert(l.contains_key(k));
            }
        }
    }
}

/// Learning `toks` raises no total by more than the number of tokens.
proof fn lemma_learning_grows_totals_slowly(b: BrainView, toks: Seq<TokenView>)
    ensures
        forall|k: TokenView| #[trigger] learn_all(b, toks).contains_key(k) ==> learn_all(b, toks)[k].total
            <= (if b.contains_key(k) { b[k].total as int } else { 0 }) + toks.len(),
    decreases toks.len(),
{
    if toks.len() >= 2 {
        let d = toks.drop_last();
        lemma_learning_grows_totals_slowly(b, d);
        lemma_learning_keeps(b, d);
        let l = learn_all(b, d);
        let (x, y) = (toks[toks.len() - 2], toks.last());
        assert forall|k: TokenView| #[trigger] learn_all(b, toks).contains_key(k) implies learn_all(b, toks)[k].total
            <= (if b.contains_key(k) { b[k].total as int } else { 0 }) + toks.len() by {
            if k != x {
                assert(l.contains_key(k));
            } else if l.contains_key(k) {
            } else {
                assert(!b.contains_key(k));
            }
        }
    }
}

/// A brain read from the legacy format keeps every sum of weights within its
/// total, as long as every listed sum fits in a `u64`.
pub proof fn lemma_legacy_sums_within_totals(m: LegacyView)
    requires
        legacy_sums_fit(m),
    ensures
        sums_within_totals(legacy_brain(m)),
        edges_finite(legacy_brain(m)),
{
    let b = legacy_brain(m);
    let src = read_links(m);
    assert forall|k: TokenView| #[trigger] b.contains_key(k) implies map_sum(b[k].weights)
        <= b[k].total && b[k].weights.dom().finite() by {
        lemma_last_key_value(src, k);
        let i = choose|i: int|
            0 <= i < src.len() && src[i].0 == k && crate::assoc::assoc_map(src)[k] == src[i].1;
        let v = m[i].1;
        assert(src[i].1 == legacy_edges(v));
        assert(crate::assoc::seq_sum(m[i].1) <= u64::MAX);
        lemma_map_sum_at_most_seq_sum(read_pairs(v));
        crate::assoc::lemma_seq_sum_same(read_pairs(v), v);
        crate::assoc::lemma_seq_sum_nonneg(v);
    }
}

/// The value of a key of a list's map comes from some pair of the list.
proof fn lemma_last_key_value<K, V>(s: Seq<(K, V)>, k: K)
    requires
        crate::assoc::assoc_map(s).contains_key(k),
    ensures
        exists|i: int| 0 <= i < s.len() && s[i].0 == k && crate::assoc::assoc_map(s)[k] == s[i].1,
    decreases s.len(),
{
    let d = s.drop_last();
    if s.last().0 == k {
        assert(s[s.len() - 1] == s.last());
    } else {
        lemma_last_key_value(d, k);
        let i = choose|i: int| 0 <= i < d.len() && d[i].0 == k && crate::assoc::assoc_map(d)[k] == d[i].1;
        assert(s[i] == d[i]);
    }
}

/// Loading into an empty brain gives the loaded brain; loading an empty
/// brain changes nothing.
pub proof fn lemma_merging_empty(b: BrainView)
    ensures
        merge_brains(Map::empty(), b) == b,
        merge_brains(b, Map::empty()) == b,
{
    assert(merge_brains(Map::empty(), b) =~= b);
    assert(merge_brains(b, Map::empty()) =~= b);
}

/// Merging keeps every token of both brains, with every edge of either.
pub proof fn lemma_merging_keeps(a: BrainView, b: BrainView)
    ensures
        forall|k: TokenView| #[trigger] merge_brains(a, b).contains_key(k) <==> a.contains_key(k) || b.contains_key(k),
        forall|k: TokenView, t: TokenView|
            #[trigger] merge_brains(a, b).contains_key(k) && #[trigger] merge_brains(a, b)[k].weights.contains_key(t)
                <==> (a.contains_key(k) && a[k].weights.contains_key(t)) || (b.contains_key(k) && b[k].weights.contains_key(t)),
{
}


/// The counts of a brain are exact: the end of a message starts no edges,
/// and every token's total is the sum of its weights, each at least 1.
pub open spec fn exact_counts(b: BrainView) -> bool {
    &&& !b.contains_key(None)
    &&& forall|k: TokenView| #[trigger] b.contains_key(k) ==> b[k].weights.dom().finite() && map_sum(
        b[k].weights,
    ) == b[k].total
    &&& forall|k: TokenView, t: TokenView|
        #[trigger] b.contains_key(k) && #[trigger] b[k].weights.contains_key(t) ==> b[k].weights[t] >= 1
}

/// Learning a message keeps the counts exact, as long as no weight passes
/// `u16::MAX` and no total `u64::MAX`.
pub proof fn lemma_learning_keeps_counts_exact(b: BrainView, msg: Seq<char>)
    requires
        exact_counts(b),
        forall|k: TokenView, t: TokenView| weight_or_zero(b, k, t) + #[trigger] pair_count(
            message_tokens(msg),
            k,
            t,
        ) <= u16::MAX,
        forall|k: TokenView| total_or_zero(b, k) + #[trigger] from_count(message_tokens(msg), k)
            <= u64::MAX,
    ensures
        exact_counts(learn_all(b, message_tokens(msg))),
{
    let s = message_tokens(msg);
    let r = learn_all(b, s);
    lemma_learning_counts_one(b, s);
    lemma_learning_sums(b, s);
    lemma_message_ends(msg);
    if from_count(s, None) > 0 {
        lemma_from_count_place(s, None);
    }
    assert(!r.contains_key(None)) by {
        assert(from_count_all(seq![s], None) == from_count(s, None));
    }
    assert forall|k: TokenView| #[trigger] r.contains_key(k) implies r[k].weights.dom().finite() && map_sum(
        r[k].weights,
    ) == r[k].total by {
        assert(from_count_all(seq![s], k) == from_count(s, k));
    }
    assert forall|k: TokenView, t: TokenView|
        #[trigger] r.contains_key(k) && #[trigger] r[k].weights.contains_key(t) implies r[k].weights[t] >= 1 by {
        assert(pair_count_all(seq![s], k, t) == pair_count(s, k, t));
    }
}

/// Learning two messages in either order gives the same brain.
pub proof fn lemma_learning_order_free(b: BrainView, m1: Seq<char>, m2: Seq<char>)
    ensures
        learn_all(learn_all(b, message_tokens(m1)), message_tokens(m2)) == learn_all(
            learn_all(b, message_tokens(m2)),
            message_tokens(m1),
        ),
{
    let (s1, s2) = (message_tokens(m1), message_tokens(m2));
    lemma_learning_counts_one(b, s1);
    lemma_learning_counts_one(b, s2);
    lemma_learning_counts(b, seq![s1], s2);
    lemma_learning_counts(b, seq![s2], s1);
    let (a, c) = (seq![s1].push(s2), seq![s2].push(s1));
    assert(a.drop_last() =~= seq![s1]);
    assert(c.drop_last() =~= seq![s2]);
    assert forall|x: TokenView| true implies from_count_all(a, x) == from_count_all(c, x) by {
        assert(from_count_all(seq![s1], x) == from_count(s1, x));
        assert(from_count_all(seq![s2], x) == from_count(s2, x));
    }
    assert forall|x: TokenView, y: TokenView| true implies pair_count_all(a, x, y) == pair_count_all(c, x, y) by {
        assert(pair_count_all(seq![s1], x, y) == pair_count(s1, x, y));
        assert(pair_count_all(seq![s2], x, y) == pair_count(s2, x, y));
    }
    lemma_counted_same(b, a, c);
}

/// Loading a brain that learned the messages `ys` into one that learned
/// the messages `xs` gives the brain that learned `xs` and then `ys`, as
/// long as no pair of neighbouring tokens comes more than `u16::MAX` times
/// in `ys`.
pub proof fn lemma_merging_is_learning_both(xs: Seq<Seq<char>>, ys: Seq<Seq<char>>)
    requires
        forall|k: TokenView, t: TokenView| #[trigger] pair_count_all(token_lists(ys), k, t) <= u16::MAX,
    ensures
        merge_brains(learn_messages(Map::empty(), xs), learn_messages(Map::empty(), ys))
            == learn_messages(Map::empty(), xs + ys),
{
    let e = Map::<TokenView, crate::edges::EdgesView>::empty();
    let (a, c) = (token_lists(xs), token_lists(ys));
    assert(token_lists(xs + ys) =~= a + c);
    lemma_messages_counted(e, xs);
    lemma_messages_counted(e, ys);
    lemma_messages_counted(e, xs + ys);
    lemma_counted_sums(e, c);
    let (ca, cc, cac) = (counted(e, a), counted(e, c), counted(e, a + c));
    let m = merge_brains(ca, cc);
    assert forall|k: TokenView| #[trigger] cac.contains_key(k) implies m.contains_key(k) && m[k] == cac[k] by {
        lemma_counts_concat(a, c, k, k);
        assert forall|t: TokenView| true implies pair_count_all(a + c, k, t) == pair_count_all(a, k, t)
            + pair_count_all(c, k, t) && pair_count_all(a, k, t) <= from_count_all(a, k)
            && pair_count_all(c, k, t) <= from_count_all(c, k) by {
            lemma_counts_concat(a, c, k, t);
            lemma_pair_within_from_all(a, k, t);
            lemma_pair_within_from_all(c, k, t);
        }
        assert(m.contains_key(k));
        assert(m[k].weights =~= cac[k].weights);
    }
    assert forall|k: TokenView| #[trigger] m.contains_key(k) implies cac.contains_key(k) by {
        lemma_counts_concat(a, c, k, k);
    }
    assert(m =~= cac);
}


/// Every total is the sum of its weights.
pub open spec fn totals_are_sums(b: BrainView) -> bool {
    forall|k: TokenView| #[trigger] b.contains_key(k) ==> b[k].weights.dom().finite() && map_sum(
        b[k].weights,
    ) == b[k].total
}

/// Writing a brain whose totals are the sums of its weights in the legacy
/// format and reading it back gives the same brain: the chain written for
/// it has sums that fit, so it is accepted, and it is read as the brain.
pub proof fn lemma_legacy_chain_round_trip(b: BrainView, m: LegacyView)
    requires
        totals_are_sums(b),
        legacy_well_formed(m),
        legacy_brain(m) == b.map_values(|e: crate::edges::EdgesView| with_summed_total(e)),
    ensures
        legacy_sums_fit(m),
        legacy_brain(m) == b,
{
    let sb = b.map_values(|e: crate::edges::EdgesView| with_summed_total(e));
    assert forall|k: TokenView| #[trigger] b.contains_key(k) implies sb[k] == b[k] by {
        assert(map_sum(b[k].weights) == b[k].total);
    }
    assert(sb =~= b);
    let links = read_links(m);
    assert(crate::assoc::keys_distinct(links)) by {
        assert forall|i: int, j: int| 0 <= i < links.len() && 0 <= j < links.len() && i != j implies links[i].0
            != links[j].0 by {
            assert(is_legacy_token(m[i].0) && is_legacy_token(m[j].0));
            assert(m[i].0 != m[j].0);
        }
    }
    assert forall|i: int| 0 <= i < m.len() implies crate::assoc::seq_sum(#[trigger] m[i].1) <= u64::MAX by {
        let v = m[i].1;
        let k = read_legacy(m[i].0);
        crate::assoc::lemma_assoc_index(links, i);
        assert(links[i] == (k, legacy_edges(v)));
        assert(b.contains_key(k));
        let ps = read_pairs(v);
        assert(crate::assoc::keys_distinct(ps)) by {
            assert(crate::legacy::legacy_pairs_written(v));
            assert forall|x: int, y: int| 0 <= x < ps.len() && 0 <= y < ps.len() && x != y implies ps[x].0
                != ps[y].0 by {
                assert(is_legacy_token(v[x].0) && is_legacy_token(v[y].0));
                assert(v[x].0 != v[y].0);
            }
        }
        crate::assoc::lemma_seq_sum_is_map_sum(ps);
        crate::assoc::lemma_seq_sum_same(ps, v);
        assert(legacy_edges(v).weights == b[k].weights);
    }
}


// ---------------------------------------------------------------------------
// Words and replies
// ---------------------------------------------------------------------------

/// Printable ASCII characters other than the space are not white space;
/// the space, tab, line feed and carriage return are.
pub proof fn lemma_ascii_white_space(c: char)
    ensures
        ('!' <= c && c <= '~') ==> !is_ws(c),
        (c == ' ' || c == '\t' || c == '\n' || c == '\r') ==> is_ws(c),
{
}

proof fn lemma_split_state_parts(s: Seq<char>)
    ensures
        forall|i: int| 0 <= i < split_state(s).0.len() ==> (#[trigger] split_state(s).0[i]).len() > 0,
        forall|i: int, j: int|
            0 <= i < split_state(s).0.len() && 0 <= j < split_state(s).0[i].len() ==> !is_ws(
                #[trigger] split_state(s).0[i][j],
            ),
        forall|j: int| 0 <= j < split_state(s).1.len() ==> !is_ws(#[trigger] split_state(s).1[j]),
    decreases s.len(),
{
    if s.len() > 0 {
        lemma_split_state_parts(s.drop_last());
        let (done, cur) = split_state(s.drop_last());
        if is_ws(s.last()) && cur.len() > 0 {
            let d2 = done.push(cur);
            assert forall|i: int, j: int| 0 <= i < d2.len() && 0 <= j < d2[i].len() implies !is_ws(
                #[trigger] d2[i][j],
            ) by {
                if i < done.len() {
                    assert(d2[i] == done[i]);
                }
            }
        } else if !is_ws(s.last()) {
            let c2 = cur.push(s.last());
            assert forall|j: int| 0 <= j < c2.len() implies !is_ws(#[trigger] c2[j]) by {
                if j < cur.len() {
                    assert(c2[j] == cur[j]);
                }
            }
        }
    }
}

/// Every word of a message is non-empty and holds no white space.
pub proof fn lemma_words_hold_no_white_space(s: Seq<char>)
    ensures
        forall|i: int| 0 <= i < words(s).len() ==> (#[trigger] words(s)[i]).len() > 0,
        forall|i: int, j: int|
            0 <= i < words(s).len() && 0 <= j < words(s)[i].len() ==> !is_ws(#[trigger] words(s)[i][j]),
{
    lemma_split_state_parts(s);
    let (done, cur) = split_state(s);
    if cur.len() > 0 {
        let w = done.push(cur);
        assert forall|i: int| 0 <= i < w.len() implies (#[trigger] w[i]).len() > 0 by {
            if i < done.len() {
                assert(w[i] == done[i]);
            }
        }
        assert forall|i: int, j: int| 0 <= i < w.len() && 0 <= j < w[i].len() implies !is_ws(#[trigger] w[i][j]) by {
            if i < done.len() {
                assert(w[i] == done[i]);
            }
        }
    }
}

proof fn lemma_split_state_no_white_space(s: Seq<char>)
    requires
        forall|i: int| 0 <= i < s.len() ==> !is_ws(#[trigger] s[i]),
    ensures
        split_state(s) == (Seq::<Seq<char>>::empty(), s),
    decreases s.len(),
{
    if s.len() > 0 {
        let d = s.drop_last();
        assert forall|i: int| 0 <= i < d.len() implies !is_ws(#[trigger] d[i]) by {
            assert(d[i] == s[i]);
        }
        lemma_split_state_no_white_space(d);
        assert(!is_ws(s[s.len() - 1]));
        assert(d.push(s.last()) =~= s);
    } else {
        assert(s =~= Seq::<char>::empty());
    }
}

/// Only white space separates words: a non-empty text without white space
/// is one word, the text itself.
pub proof fn lemma_text_without_white_space_is_one_word(s: Seq<char>)
    requires
        s.len() > 0,
        forall|i: int| 0 <= i < s.len() ==> !is_ws(#[trigger] s[i]),
    ensures
        words(s) == seq![s],
{
    lemma_split_state_no_white_space(s);
    assert(Seq::<Seq<char>>::empty().push(s) =~= seq![s]);
}

/// A reply starts from the token that the message's last word is learned
/// as: where that word is no mention, it is the token before the end of the
/// message's tokens.
pub proof fn lemma_reply_starts_at_learned_token(msg: Seq<char>)
    requires
        words(msg).len() > 0,
        !is_mention(words(msg).last()),
    ensures
        message_tokens(msg).len() >= 2,
        final_word(msg) == message_tokens(msg)[message_tokens(msg).len() - 2],
{
    let ws = words(msg);
    assert(ws.drop_last().push(ws.last()) =~= ws);
}

/// The start of a reply to a message with words has the length of its last
/// word and no ASCII upper case, unless that word is a link, which is kept
/// as it is; each character is the last word's, lower-cased.
pub proof fn lemma_reply_start_is_lower_case(msg: Seq<char>)
    requires
        words(msg).len() > 0,
    ensures
        final_word(msg) is Some,
        is_link(words(msg).last()) ==> final_word(msg) == Some(words(msg).last()),
        !is_link(words(msg).last()) ==> {
            let w = final_word(msg)->0;
            &&& w.len() == words(msg).last().len()
            &&& forall|i: int| 0 <= i < w.len() ==> !('A' <= #[trigger] w[i] && w[i] <= 'Z')
            &&& forall|i: int| 0 <= i < w.len() ==> #[trigger] w[i] == if 'A' <= words(msg).last()[i]
                && words(msg).last()[i] <= 'Z' {
                ((words(msg).last()[i] as u32) + 32) as char
            } else {
                words(msg).last()[i]
            }
        },
{
    let last = words(msg).last();
    if !is_link(last) {
        let w = normalize(last);
        assert forall|i: int| 0 <= i < w.len() implies !('A' <= #[trigger] w[i] && w[i] <= 'Z') by {
            let c = last[i];
            assert(w[i] == lower_char(c));
            if 'A' <= c && c <= 'Z' {
                assert((c as u32) + 32 >= 'a' as u32);
            }
        }
    }
}

/// The UTF-16 length of two texts one after the other is the sum of their
/// lengths.
pub proof fn lemma_utf16_adds_up(a: Seq<char>, b: Seq<char>)
    ensures
        utf16_len(a + b) == utf16_len(a) + utf16_len(b),
    decreases b.len(),
{
    if b.len() == 0 {
        assert(a + b =~= a);
    } else {
        assert((a + b).drop_last() =~= a + b.drop_last());
        assert((a + b).last() == b.last());
        lemma_utf16_adds_up(a, b.drop_last());
    }
}

/// A text of characters below U+10000 takes one UTF-16 code unit for each
/// character; a text of characters from U+10000 up takes two for each.
pub proof fn lemma_utf16_units(s: Seq<char>)
    ensures
        s.len() <= utf16_len(s) <= 2 * s.len(),
        (forall|i: int| 0 <= i < s.len() ==> (#[trigger] s[i] as u32) < 0x10000) ==> utf16_len(s)
            == s.len(),
        (forall|i: int| 0 <= i < s.len() ==> (#[trigger] s[i] as u32) >= 0x10000) ==> utf16_len(s)
            == 2 * s.len(),
    decreases s.len(),
{
    if s.len() > 0 {
        let d = s.drop_last();
        lemma_utf16_units(d);
        assert forall|i: int| 0 <= i < d.len() implies #[trigger] d[i] == s[i] by {}
        assert(s.last() == s[s.len() - 1]);
    }
}

// ---------------------------------------------------------------------------
// Learning new tokens and forgetting
// ---------------------------------------------------------------------------

proof fn lemma_from_count_positive(s: Seq<TokenView>, i: int)
    requires
        0 <= i < s.len() - 1,
    ensures
        from_count(s, s[i]) > 0,
    decreases s.len(),
{
    if i < s.len() - 2 {
        let d = s.drop_last();
        assert(d[i] == s[i]);
        lemma_from_count_positive(d, i);
    }
}

/// Learning reports a new token exactly when the brain after learning knows
/// a token that it did not know before.
pub proof fn lemma_learning_new_tokens(b: BrainView, toks: Seq<TokenView>)
    ensures
        learns_new_token(b, toks) <==> exists|t: TokenView|
            #[trigger] learn_all(b, toks).contains_key(t) && !b.contains_key(t),
{
    let l = learn_all(b, toks);
    lemma_learning_counts_one(b, toks);
    if learns_new_token(b, toks) {
        let k = choose|k: int| 0 <= k < toks.len() - 1 && !b.contains_key(#[trigger] toks[k]);
        lemma_from_count_positive(toks, k);
        assert(from_count_all(seq![toks], toks[k]) > 0);
        assert(l.contains_key(toks[k]));
    }
    if exists|t: TokenView| #[trigger] l.contains_key(t) && !b.contains_key(t) {
        let t = choose|t: TokenView| #[trigger] l.contains_key(t) && !b.contains_key(t);
        assert(from_count_all(seq![toks], t) == from_count(toks, t));
        lemma_from_count_place(toks, t);
        let i = choose|i: int| 0 <= i < toks.len() - 1 && toks[i] == t;
        assert(!b.contains_key(toks[i]));
    }
}

/// Forgetting a word keeps every total the sum of its weights: a token's
/// total loses exactly the weight of its edge to the word.
pub proof fn lemma_forgetting_keeps_totals_exact(b: BrainView, t: TokenView)
    requires
        totals_are_sums(b),
    ensures
        totals_are_sums(forget_token(b, t)),
        forall|k: TokenView| #[trigger] b.contains_key(k) && k != t && b[k].weights.contains_key(t)
            ==> forget_token(b, t)[k].total == b[k].total - b[k].weights[t],
{
    let f = forget_token(b, t);
    assert forall|k: TokenView| #[trigger] f.contains_key(k) implies f[k].weights.dom().finite() && map_sum(
        f[k].weights,
    ) == f[k].total by {
        let e = b[k];
        assert(map_sum(e.weights) == e.total);
        if e.weights.contains_key(t) {
            lemma_map_sum_remove(e.weights, t);
            lemma_map_sum_nonneg(e.weights.remove(t));
        }
    }
    assert forall|k: TokenView| #[trigger] b.contains_key(k) && k != t && b[k].weights.contains_key(t)
        implies forget_token(b, t)[k].total == b[k].total - b[k].weights[t] by {
        assert(map_sum(b[k].weights) == b[k].total);
        lemma_map_sum_remove(b[k].weights, t);
        lemma_map_sum_nonneg(b[k].weights.remove(t));
    }
}


/// The characters of `s` that are not white space, in order.
pub open spec fn without_white_space(s: Seq<char>) -> Seq<char>
    decreases s.len(),
{
    if s.len() == 0 {
        Seq::empty()
    } else if is_ws(s.last()) {
        without_white_space(s.drop_last())
    } else {
        without_white_space(s.drop_last()).push(s.last())
    }
}

/// Words written one after the other, with nothing between them.
pub open spec fn run_together(ws: Seq<Seq<char>>) -> Seq<char>
    decreases ws.len(),
{
    if ws.len() == 0 {
        Seq::empty()
    } else {
        run_together(ws.drop_last()) + ws.last()
    }
}

proof fn lemma_split_state_keeps_characters(s: Seq<char>)
    ensures
        run_together(split_state(s).0) + split_state(s).1 == without_white_space(s),
    decreases s.len(),
{
    if s.len() > 0 {
        lemma_split_state_keeps_characters(s.drop_last());
        let (done, cur) = split_state(s.drop_last());
        if is_ws(s.last()) {
            if cur.len() > 0 {
                assert(done.push(cur).drop_last() =~= done);
            }
            assert(run_together(split_state(s).0) + Seq::<char>::empty() =~= run_together(
                split_state(s).0,
            ));
        } else {
            assert(run_together(done) + cur.push(s.last()) =~= (run_together(done) + cur).push(
                s.last(),
            ));
        }
    }
}

/// Cutting a text into words loses and adds nothing but white space: the
/// words written one after the other are the text without its white space.
pub proof fn lemma_words_keep_every_other_character(s: Seq<char>)
    ensures
        run_together(words(s)) == without_white_space(s),
{
    lemma_split_state_keeps_characters(s);
    let (done, cur) = split_state(s);
    if cur.len() > 0 {
        assert(done.push(cur).drop_last() =~= done);
    } else {
        assert(run_together(done) + cur =~= run_together(done));
    }
}

} // verus!
