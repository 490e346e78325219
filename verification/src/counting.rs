//! Learning as counting: after learning, every weight is what it was plus
//! how often its pair of neighbouring tokens came, held at `u16::MAX`, and
//! every total what it was plus how often its token was followed, held at
//! `u64::MAX`.
use vstd::prelude::*;

use crate::assoc::{lemma_map_sum_insert, lemma_map_sum_insert_any, map_sum};
use crate::brain::{edges_finite, learn_all, learn_pair, message_tokens, BrainView};
use crate::edges::{bump, first_edge, sat_u16, sat_u64, EdgesView, TokenView};

verus! {

/// How often `x` is directly followed by `y` in `s`.
pub open spec fn pair_count(s: Seq<TokenView>, x: TokenView, y: TokenView) -> nat
    decreases s.len(),
{
    if s.len() < 2 {
        0
    } else {
        pair_count(s.drop_last(), x, y) + if s[s.len() - 2] == x && s.last() == y {
            1nat
        } else {
            0nat
        }
    }
}

/// How often `x` is directly followed by some token in `s`.
pub open spec fn from_count(s: Seq<TokenView>, x: TokenView) -> nat
    decreases s.len(),
{
    if s.len() < 2 {
        0
    } else {
        from_count(s.drop_last(), x) + if s[s.len() - 2] == x {
            1nat
        } else {
            0nat
        }
    }
}

/// How often `x` is directly followed by `y`, over several token lists.
pub open spec fn pair_count_all(ms: Seq<Seq<TokenView>>, x: TokenView, y: TokenView) -> nat
    decreases ms.len(),
{
    if ms.len() == 0 {
        0
    } else {
        pair_count_all(ms.drop_last(), x, y) + pair_count(ms.last(), x, y)
    }
}

/// How often `x` is directly followed by some token, over several token lists.
pub open spec fn from_count_all(ms: Seq<Seq<TokenView>>, x: TokenView) -> nat
    decreases ms.len(),
{
    if ms.len() == 0 {
        0
    } else {
        from_count_all(ms.drop_last(), x) + from_count(ms.last(), x)
    }
}

/// The weight of the edge from `k` to `t`, 0 where there is none.
pub open spec fn weight_or_zero(b: BrainView, k: TokenView, t: TokenView) -> int {
    if b.contains_key(k) && b[k].weights.contains_key(t) {
        b[k].weights[t] as int
    } else {
        0
    }
}

/// The total of `k`, 0 where `k` is unknown.
pub open spec fn total_or_zero(b: BrainView, k: TokenView) -> int {
    if b.contains_key(k) {
        b[k].total as int
    } else {
        0
    }
}

/// The sum of the weights of `k`, 0 where `k` is unknown.
pub open spec fn sum_or_zero(b: BrainView, k: TokenView) -> int {
    if b.contains_key(k) {
        map_sum(b[k].weights)
    } else {
        0
    }
}

/// `b` with the transitions of the token lists `ms` counted in.
pub open spec fn counted(b: BrainView, ms: Seq<Seq<TokenView>>) -> BrainView {
    Map::new(
        |k: TokenView| b.contains_key(k) || from_count_all(ms, k) > 0,
        |k: TokenView|
            EdgesView {
                weights: Map::new(
                    |t: TokenView|
                        (b.contains_key(k) && b[k].weights.contains_key(t)) || pair_count_all(
                            ms,
                            k,
                            t,
                        ) > 0,
                    |t: TokenView| sat_u16(weight_or_zero(b, k, t), pair_count_all(ms, k, t) as int),
                ),
                total: sat_u64(total_or_zero(b, k), from_count_all(ms, k) as int),
            },
    )
}

proof fn lemma_sat_u16_twice(a: int, m: int, n: int)
    requires
        0 <= a <= u16::MAX,
        0 <= m,
        0 <= n,
    ensures
        sat_u16(sat_u16(a, m) as int, n) == sat_u16(a, m + n),
{
}

proof fn lemma_sat_u64_twice(a: int, m: int, n: int)
    requires
        0 <= a <= u64::MAX,
        0 <= m,
        0 <= n,
    ensures
        sat_u64(sat_u64(a, m) as int, n) == sat_u64(a, m + n),
{
}

/// A pair from `x` is counted no more often than `x` is followed at all.
pub proof fn lemma_pair_within_from(s: Seq<TokenView>, x: TokenView, y: TokenView)
    ensures
        pair_count(s, x, y) <= from_count(s, x),
    decreases s.len(),
{
    if s.len() >= 2 {
        lemma_pair_within_from(s.drop_last(), x, y);
    }
}

pub proof fn lemma_pair_within_from_all(ms: Seq<Seq<TokenView>>, x: TokenView, y: TokenView)
    ensures
        pair_count_all(ms, x, y) <= from_count_all(ms, x),
    decreases ms.len(),
{
    if ms.len() > 0 {
        lemma_pair_within_from_all(ms.drop_last(), x, y);
        lemma_pair_within_from(ms.last(), x, y);
    }
}

/// A token that is followed at all stands somewhere before the last place.
pub proof fn lemma_from_count_place(s: Seq<TokenView>, x: TokenView)
    requires
        from_count(s, x) > 0,
    ensures
        exists|i: int| 0 <= i < s.len() - 1 && s[i] == x,
    decreases s.len(),
{
    let d = s.drop_last();
    if s[s.len() - 2] != x {
        lemma_from_count_place(d, x);
        let i = choose|i: int| 0 <= i < d.len() - 1 && d[i] == x;
        assert(s[i] == d[i]);
    }
}

/// Counting in no token lists changes nothing.
pub proof fn lemma_counted_nothing(b: BrainView)
    ensures
        counted(b, Seq::empty()) == b,
{
    let c = counted(b, Seq::empty());
    assert forall|k: TokenView| #[trigger] b.contains_key(k) implies c[k] == b[k] by {
        assert(c[k].weights =~= b[k].weights);
    }
    assert(c =~= b);
}

/// Counting in one more token list counts in its pairs and its tokens.
proof fn lemma_counts_push(ms: Seq<Seq<TokenView>>, s: Seq<TokenView>, x: TokenView, y: TokenView)
    ensures
        pair_count_all(ms.push(s), x, y) == pair_count_all(ms, x, y) + pair_count(s, x, y),
        from_count_all(ms.push(s), x) == from_count_all(ms, x) + from_count(s, x),
{
    assert(ms.push(s).drop_last() =~= ms);
}

/// Learning a token list in a counted brain counts it in.
pub proof fn lemma_learning_counts(b: BrainView, ms: Seq<Seq<TokenView>>, s: Seq<TokenView>)
    ensures
        learn_all(counted(b, ms), s) == counted(b, ms.push(s)),
    decreases s.len(),
{
    let r = counted(b, ms.push(s));
    if s.len() < 2 {
        let c = counted(b, ms);
        assert forall|k: TokenView| #[trigger] c.contains_key(k) implies c[k] == r[k] by {
            lemma_counts_push(ms, s, k, k);
            assert forall|t: TokenView| true implies pair_count_all(ms.push(s), k, t) == pair_count_all(ms, k, t) by {
                lemma_counts_push(ms, s, k, t);
            }
            assert(c[k].weights =~= r[k].weights);
        }
        assert forall|k: TokenView| true implies (c.contains_key(k) <==> r.contains_key(k)) by {
            lemma_counts_push(ms, s, k, k);
        }
        assert(c =~= r);
    } else {
        let d = s.drop_last();
        let (x, y) = (s[s.len() - 2], s.last());
        lemma_learning_counts(b, ms, d);
        let l = counted(b, ms.push(d));
        let lp = learn_pair(l, x, y);
        assert(learn_all(counted(b, ms), s) == lp);
        // the counts of `s` are those of `d` and the pair (x, y)
        assert forall|k: TokenView, t: TokenView| true implies pair_count_all(ms.push(s), k, t)
            == pair_count_all(ms.push(d), k, t) + (if k == x && t == y { 1int } else { 0int }) by {
            lemma_counts_push(ms, s, k, t);
            lemma_counts_push(ms, d, k, t);
        }
        assert forall|k: TokenView| true implies from_count_all(ms.push(s), k)
            == from_count_all(ms.push(d), k) + (if k == x { 1int } else { 0int }) by {
            lemma_counts_push(ms, s, k, k);
            lemma_counts_push(ms, d, k, k);
        }
        assert forall|k: TokenView| #[trigger] r.contains_key(k) implies lp.contains_key(k) && lp[k] == r[k] by {
            if k != x {
                assert(lp[k] == l[k]);
                assert(lp[k].weights =~= r[k].weights);
            } else if l.contains_key(x) {
                let e = bump(l[x], y);
                assert(lp[x] == e);
                lemma_sat_u64_twice(total_or_zero(b, x), from_count_all(ms.push(d), x) as int, 1);
                assert forall|t: TokenView| #[trigger] e.weights.contains_key(t) implies r[x].weights.contains_key(t)
                    && e.weights[t] == r[x].weights[t] by {
                    if t == y {
                        if l[x].weights.contains_key(y) {
                            lemma_sat_u16_twice(
                                weight_or_zero(b, x, y),
                                pair_count_all(ms.push(d), x, y) as int,
                                1,
                            );
                        }
                    }
                }
                assert(e.weights =~= r[x].weights);
            } else {
                assert forall|t: TokenView| true implies pair_count_all(ms.push(d), x, t) == 0 by {
                    lemma_pair_within_from_all(ms.push(d), x, t);
                }
                assert(lp[x] == first_edge(y));
                assert(r[x].weights =~= Map::<TokenView, u16>::empty().insert(y, 1));
            }
        }
        assert(lp =~= r);
    }
}


/// Learning a token list on its own counts it in.
pub proof fn lemma_learning_counts_one(b: BrainView, s: Seq<TokenView>)
    ensures
        learn_all(b, s) == counted(b, seq![s]),
        forall|x: TokenView, y: TokenView| #[trigger] pair_count_all(seq![s], x, y) == pair_count(s, x, y),
        forall|x: TokenView| #[trigger] from_count_all(seq![s], x) == from_count(s, x),
{
    lemma_counted_nothing(b);
    lemma_learning_counts(b, Seq::empty(), s);
    assert(Seq::<Seq<TokenView>>::empty().push(s) =~= seq![s]);
    assert forall|x: TokenView, y: TokenView| #[trigger] pair_count_all(seq![s], x, y) == pair_count(s, x, y) by {
        lemma_counts_push(Seq::empty(), s, x, y);
    }
    assert forall|x: TokenView| #[trigger] from_count_all(seq![s], x) == from_count(s, x) by {
        lemma_counts_push(Seq::empty(), s, x, x);
    }
}

/// Token lists with the same counts count in alike.
pub proof fn lemma_counted_same(b: BrainView, m1: Seq<Seq<TokenView>>, m2: Seq<Seq<TokenView>>)
    requires
        forall|x: TokenView, y: TokenView| pair_count_all(m1, x, y) == pair_count_all(m2, x, y),
        forall|x: TokenView| from_count_all(m1, x) == from_count_all(m2, x),
    ensures
        counted(b, m1) == counted(b, m2),
{
    let (c1, c2) = (counted(b, m1), counted(b, m2));
    assert forall|k: TokenView| #[trigger] c1.contains_key(k) implies c1[k] == c2[k] by {
        assert(c1[k].weights =~= c2[k].weights);
    }
    assert(c1 =~= c2);
}

/// The counts of two runs of token lists one after the other add up.
pub proof fn lemma_counts_concat(a: Seq<Seq<TokenView>>, c: Seq<Seq<TokenView>>, x: TokenView, y: TokenView)
    ensures
        pair_count_all(a + c, x, y) == pair_count_all(a, x, y) + pair_count_all(c, x, y),
        from_count_all(a + c, x) == from_count_all(a, x) + from_count_all(c, x),
    decreases c.len(),
{
    if c.len() == 0 {
        assert(a + c =~= a);
    } else {
        assert((a + c).drop_last() =~= a + c.drop_last());
        assert((a + c).last() == c.last());
        lemma_counts_concat(a, c.drop_last(), x, y);
    }
}

/// Learning one pair adds one to the weight sum of its first token, as
/// long as its weight stays below `u16::MAX`.
proof fn lemma_learn_pair_sum(l: BrainView, x: TokenView, y: TokenView)
    requires
        edges_finite(l),
        weight_or_zero(l, x, y) + 1 <= u16::MAX,
    ensures
        edges_finite(learn_pair(l, x, y)),
        forall|k: TokenView| #[trigger] learn_pair(l, x, y).contains_key(k) ==> map_sum(
            learn_pair(l, x, y)[k].weights,
        ) == sum_or_zero(l, k) + (if k == x { 1int } else { 0int }),
{
    let r = learn_pair(l, x, y);
    if l.contains_key(x) {
        let e = l[x];
        assert(e.weights.dom().finite());
        lemma_map_sum_insert_any(e.weights, y, bump(e, y).weights[y]);
    } else {
        let z = Map::<TokenView, u16>::empty();
        assert(z.dom() =~= Set::empty());
        lemma_map_sum_insert(z, y, 1);
    }
    assert forall|k: TokenView| #[trigger] r.contains_key(k) implies r[k].weights.dom().finite() by {
        if k != x {
            assert(l.contains_key(k));
        } else if !l.contains_key(x) {
            assert(r[k].weights.dom() =~= set![y]);
        }
    }
}

/// Learning a token list adds to each token's weight sum how often it was
/// followed, as long as no weight passes `u16::MAX`.
pub proof fn lemma_learning_sums(l: BrainView, s: Seq<TokenView>)
    requires
        edges_finite(l),
        forall|k: TokenView, t: TokenView| weight_or_zero(l, k, t) + #[trigger] pair_count(s, k, t)
            <= u16::MAX,
    ensures
        edges_finite(learn_all(l, s)),
        forall|k: TokenView| #[trigger] learn_all(l, s).contains_key(k) ==> map_sum(
            learn_all(l, s)[k].weights,
        ) == sum_or_zero(l, k) + from_count(s, k),
    decreases s.len(),
{
    if s.len() >= 2 {
        let d = s.drop_last();
        let (x, y) = (s[s.len() - 2], s.last());
        assert forall|k: TokenView, t: TokenView| weight_or_zero(l, k, t) + #[trigger] pair_count(d, k, t)
            <= u16::MAX by {
            assert(pair_count(d, k, t) <= pair_count(s, k, t));
        }
        lemma_learning_sums(l, d);
        let ld = learn_all(l, d);
        lemma_learning_counts_one(l, d);
        assert(pair_count(s, x, y) == pair_count(d, x, y) + 1);
        lemma_learn_pair_sum(ld, x, y);
        assert forall|k: TokenView| #[trigger] learn_all(l, s).contains_key(k) implies map_sum(
            learn_all(l, s)[k].weights,
        ) == sum_or_zero(l, k) + from_count(s, k) by {
            if !ld.contains_key(k) {
                assert(from_count_all(seq![d], k) == from_count(d, k));
            }
        }
    }
}

/// Counting in token lists adds to each token's weight sum how often it was
/// followed, as long as no weight passes `u16::MAX`.
pub proof fn lemma_counted_sums(b: BrainView, ms: Seq<Seq<TokenView>>)
    requires
        edges_finite(b),
        forall|k: TokenView, t: TokenView| weight_or_zero(b, k, t) + #[trigger] pair_count_all(ms, k, t)
            <= u16::MAX,
    ensures
        edges_finite(counted(b, ms)),
        forall|k: TokenView| #[trigger] counted(b, ms).contains_key(k) ==> map_sum(
            counted(b, ms)[k].weights,
        ) == sum_or_zero(b, k) + from_count_all(ms, k),
    decreases ms.len(),
{
    if ms.len() == 0 {
        lemma_counted_nothing(b);
        assert(ms =~= Seq::empty());
    } else {
        let d = ms.drop_last();
        let s = ms.last();
        assert(d.push(s) =~= ms);
        assert forall|k: TokenView, t: TokenView| weight_or_zero(b, k, t) + #[trigger] pair_count_all(d, k, t)
            <= u16::MAX by {
            assert(pair_count_all(d, k, t) <= pair_count_all(ms, k, t));
        }
        lemma_counted_sums(b, d);
        let c = counted(b, d);
        lemma_learning_counts(b, d, s);
        assert forall|k: TokenView, t: TokenView| weight_or_zero(c, k, t) + #[trigger] pair_count(s, k, t)
            <= u16::MAX by {
            assert(pair_count_all(ms, k, t) == pair_count_all(d, k, t) + pair_count(s, k, t));
        }
        lemma_learning_sums(c, s);
        assert(counted(b, ms) == learn_all(c, s));
        assert forall|k: TokenView| #[trigger] counted(b, ms).contains_key(k) implies map_sum(
            counted(b, ms)[k].weights,
        ) == sum_or_zero(b, k) + from_count_all(ms, k) by {
            assert(learn_all(c, s).contains_key(k));
            assert(from_count_all(ms, k) == from_count_all(d, k) + from_count(s, k));
            if !c.contains_key(k) {
                assert(!b.contains_key(k));
            }
        }
    }
}

/// The token lists of messages.
pub open spec fn token_lists(msgs: Seq<Seq<char>>) -> Seq<Seq<TokenView>> {
    msgs.map_values(|m: Seq<char>| message_tokens(m))
}

/// Messages learned one after the other, first to last.
pub open spec fn learn_messages(b: BrainView, msgs: Seq<Seq<char>>) -> BrainView
    decreases msgs.len(),
{
    if msgs.len() == 0 {
        b
    } else {
        learn_all(learn_messages(b, msgs.drop_last()), message_tokens(msgs.last()))
    }
}

/// Learning messages counts in their token lists.
pub proof fn lemma_messages_counted(b: BrainView, msgs: Seq<Seq<char>>)
    ensures
        learn_messages(b, msgs) == counted(b, token_lists(msgs)),
    decreases msgs.len(),
{
    if msgs.len() == 0 {
        lemma_counted_nothing(b);
        assert(token_lists(msgs) =~= Seq::empty());
    } else {
        let d = msgs.drop_last();
        lemma_messages_counted(b, d);
        lemma_learning_counts(b, token_lists(d), message_tokens(msgs.last()));
        assert(token_lists(d).push(message_tokens(msgs.last())) =~= token_lists(msgs));
    }
}

} // verus!
