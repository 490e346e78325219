//! The outgoing edges of one token: how often each next token followed it.
use vstd::prelude::*;

use crate::assoc::{
    assoc_map, has_key, keys_distinct, lemma_assoc_contains, lemma_assoc_insert_at, lemma_assoc_finite, lemma_assoc_index,
    lemma_assoc_len, lemma_assoc_push, lemma_assoc_remove, lemma_assoc_update, lemma_distinct_prefix,
    lemma_distinct_push, lemma_seq_sum_is_map_sum, lemma_seq_sum_nonneg, map_sum, seq_sum,
};

verus! {

/// A learned token: a word, or `None` for the end of a message.
pub type Token = Option<String>;

/// How often one token followed another.
pub type Weight = u16;

/// A token as a mathematical value.
pub type TokenView = Option<Seq<char>>;

pub open spec fn token_view(t: Token) -> TokenView {
    match t {
        Some(s) => Some(s@),
        None => None,
    }
}

/// `a + b`, held at `u16::MAX`.
pub open spec fn sat_u16(a: int, b: int) -> u16 {
    if a + b > u16::MAX {
        u16::MAX
    } else {
        (a + b) as u16
    }
}

/// `a + b`, held at `u64::MAX`.
pub open spec fn sat_u64(a: int, b: int) -> u64 {
    if a + b > u64::MAX {
        u64::MAX
    } else {
        (a + b) as u64
    }
}

/// What a set of edges holds: the weight of each next token, and a running
/// count of the transitions seen.
pub struct EdgesView {
    pub weights: Map<TokenView, Weight>,
    pub total: u64,
}

/// The edges after one more transition to `t`.
pub open spec fn bump(e: EdgesView, t: TokenView) -> EdgesView {
    EdgesView {
        weights: e.weights.insert(
            t,
            if e.weights.contains_key(t) {
                sat_u16(e.weights[t] as int, 1)
            } else {
                1
            },
        ),
        total: sat_u64(e.total as int, 1),
    }
}

/// The edges of a token seen once, followed by `t`.
pub open spec fn first_edge(t: TokenView) -> EdgesView {
    EdgesView { weights: Map::empty().insert(t, 1), total: 1 }
}

/// The edges without `t`; its weight leaves the total.
pub open spec fn drop_edge(e: EdgesView, t: TokenView) -> EdgesView {
    if e.weights.contains_key(t) {
        EdgesView { weights: e.weights.remove(t), total: (e.total - e.weights[t]) as u64 }
    } else {
        e
    }
}

/// `a` after taking in every edge of `b`: weights of a shared token add up
/// (held at `u16::MAX`), and every weight of `b` adds to the total (held at
/// `u64::MAX`); `b`'s own total plays no part.
pub open spec fn merge_edges(a: EdgesView, b: EdgesView) -> EdgesView {
    EdgesView {
        weights: Map::new(
            |k: TokenView| a.weights.contains_key(k) || b.weights.contains_key(k),
            |k: TokenView|
                if a.weights.contains_key(k) && b.weights.contains_key(k) {
                    sat_u16(a.weights[k] as int, b.weights[k] as int)
                } else if a.weights.contains_key(k) {
                    a.weights[k]
                } else {
                    b.weights[k]
                },
        ),
        total: sat_u64(a.total as int, map_sum(b.weights)),
    }
}

/// Forgetting `t` does not take more out of the total than it holds.
pub open spec fn can_drop(e: EdgesView, t: TokenView) -> bool {
    e.weights.contains_key(t) ==> e.weights[t] <= e.total
}

/// Every weight is at most the total.
pub open spec fn weights_within_total(e: EdgesView) -> bool {
    forall|t: TokenView| #[trigger] e.weights.contains_key(t) ==> e.weights[t] <= e.total
}

/// The weight of the end of a message among the edges, 0 if it never came.
pub open spec fn end_weight(e: EdgesView) -> int {
    if e.weights.contains_key(None) {
        e.weights[None] as int
    } else {
        0
    }
}

/// A token that sampling may give: `None` only where an end is allowed.
pub open spec fn eligible(t: TokenView, allow_end: bool) -> bool {
    allow_end || t is Some
}

/// The weight of all tokens that sampling may give.
pub open spec fn eligible_weight(e: EdgesView, allow_end: bool) -> int {
    if allow_end {
        map_sum(e.weights)
    } else {
        map_sum(e.weights) - end_weight(e)
    }
}

/// The range a sampling roll is drawn from: the total, less the weight of
/// the end where the end is not allowed.
pub open spec fn draw_range(e: EdgesView, allow_end: bool) -> int {
    if allow_end {
        e.total as int
    } else {
        e.total - end_weight(e)
    }
}

/// Sampling without the end takes the end's weight off the total without going below zero.
pub open spec fn end_fits(e: EdgesView) -> bool {
    can_drop(e, None)
}

/// `t` can come out of sampling: it followed, with a positive weight, and is eligible.
pub open spec fn can_pick(e: EdgesView, allow_end: bool, t: TokenView) -> bool {
    &&& e.weights.contains_key(t)
    &&& e.weights[t] > 0
    &&& eligible(t, allow_end)
}

/// Sampling can come out empty: the roll can reach past the eligible weight.
pub open spec fn may_miss(e: EdgesView, allow_end: bool) -> bool {
    eligible_weight(e, allow_end) < draw_range(e, allow_end) || eligible_weight(e, allow_end) == 0
}

/// The weight of the eligible pairs of a list.
pub open spec fn seq_eligible(s: Seq<(TokenView, Weight)>, allow_end: bool) -> int
    decreases s.len(),
{
    if s.len() == 0 {
        0
    } else {
        seq_eligible(s.drop_last(), allow_end) + if eligible(s.last().0, allow_end) {
            s.last().1 as int
        } else {
            0
        }
    }
}

pub proof fn lemma_seq_eligible(s: Seq<(TokenView, Weight)>, allow_end: bool)
    requires
        keys_distinct(s),
    ensures
        seq_eligible(s, allow_end) == seq_sum(s) - if !allow_end && assoc_map(s).contains_key(
            None,
        ) {
            assoc_map(s)[None] as int
        } else {
            0
        },
    decreases s.len(),
{
    if s.len() > 0 {
        let d = s.drop_last();
        lemma_distinct_prefix(s, s.len() - 1);
        assert(d =~= s.take(s.len() - 1));
        lemma_seq_eligible(d, allow_end);
        if s.last().0 is None {
            lemma_assoc_contains(d, None);
            if has_key(d, None) {
                let j = choose|j: int| 0 <= j < d.len() && d[j].0 == None::<Seq<char>>;
                assert(s[j].0 == s.last().0);
            }
        }
    }
}

/// The first eligible pair of `s` whose running eligible weight passes `roll`.
pub open spec fn first_past(s: Seq<(TokenView, Weight)>, allow_end: bool, roll: int) -> Option<int>
    decreases s.len(),
{
    if s.len() == 0 {
        None
    } else {
        match first_past(s.drop_last(), allow_end, roll) {
            Some(i) => Some(i),
            None => if eligible(s.last().0, allow_end) && seq_eligible(s, allow_end) > roll {
                Some(s.len() - 1)
            } else {
                None
            },
        }
    }
}

/// Once a prefix has a first pair past the roll, the whole list has that one.
pub proof fn lemma_first_past_prefix(s: Seq<(TokenView, Weight)>, allow_end: bool, roll: int, k: int)
    requires
        0 <= k <= s.len(),
        first_past(s.take(k), allow_end, roll) is Some,
    ensures
        first_past(s, allow_end, roll) == first_past(s.take(k), allow_end, roll),
    decreases s.len() - k,
{
    if k < s.len() {
        let d = s.drop_last();
        assert(d.take(k) =~= s.take(k));
        lemma_first_past_prefix(d, allow_end, roll, k);
    } else {
        assert(s.take(k) =~= s);
    }
}

/// Whether the sampled index is well inside the list.
pub open spec fn sampled(e: &Edges, allow_end: bool, r: Option<usize>) -> bool {
    match r {
        Some(i) => i < e.entries().len() && can_pick(e@, allow_end, e.entries()[i as int].0),
        None => may_miss(e@, allow_end),
    }
}

/// Whether two tokens are equal.
pub fn token_eq(a: &Token, b: &Token) -> (r: bool)
    ensures
        r == (token_view(*a) == token_view(*b)),
{
    match (a, b) {
        (Some(x), Some(y)) => *x == *y,
        (None, None) => true,
        _ => false,
    }
}

pub fn clone_token(t: &Token) -> (r: Token)
    ensures
        token_view(r) == token_view(*t),
{
    match t {
        Some(s) => Some(s.clone()),
        None => None,
    }
}

/// The edges of one token: each possible next token with its weight, and
/// the number of transitions seen.
#[derive(Debug, Clone)]
pub struct Edges {
    weights: Vec<(Token, Weight)>,
    total: u64,
}

pub open spec fn entry_view(p: (Token, Weight)) -> (TokenView, Weight) {
    (token_view(p.0), p.1)
}

impl Default for Edges {
    /// Edges with nothing learned yet.
    fn default() -> (e: Edges)
        ensures
            e.wf(),
            e@.weights == Map::<TokenView, Weight>::empty(),
            e@.total == 0,
    {
        Edges::new()
    }
}

impl View for Edges {
    type V = EdgesView;

    closed spec fn view(&self) -> EdgesView {
        EdgesView { weights: assoc_map(self.entries()), total: self.total }
    }
}

impl Edges {
    /// The pairs in the order they are kept.
    pub closed spec fn entries(&self) -> Seq<(TokenView, Weight)> {
        self.weights@.map_values(|p: (Token, Weight)| entry_view(p))
    }

    /// No token is kept twice.
    pub closed spec fn wf(&self) -> bool {
        keys_distinct(self.entries())
    }

    pub proof fn lemma_view_finite(&self)
        ensures
            self@.weights.dom().finite(),
    {
        lemma_assoc_finite(self.entries());
    }

    /// The kept pairs stand for the weights of the view.
    pub proof fn lemma_entries(&self)
        requires
            self.wf(),
        ensures
            keys_distinct(self.entries()),
            assoc_map(self.entries()) == self@.weights,
            self.entries().len() == self@.weights.dom().len(),
            seq_sum(self.entries()) == map_sum(self@.weights),
    {
        lemma_assoc_len(self.entries());
        lemma_seq_sum_is_map_sum(self.entries());
    }

    /// Edges with nothing learned yet.
    pub fn new() -> (e: Edges)
        ensures
            e.wf(),
            e@.weights == Map::<TokenView, Weight>::empty(),
            e@.total == 0,
    {
        let e = Edges { weights: Vec::new(), total: 0 };
        assert(e.entries() =~= Seq::empty());
        e
    }

    /// The edges of a token seen once, followed by `to`.
    pub fn first(to: &Token) -> (e: Edges)
        ensures
            e.wf(),
            e@ == first_edge(token_view(*to)),
    {
        let mut v: Vec<(Token, Weight)> = Vec::new();
        v.push((clone_token(to), 1));
        let e = Edges { weights: v, total: 1 };
        proof {
            let t = token_view(*to);
            assert(e.entries() =~= Seq::<(TokenView, Weight)>::empty().push((t, 1u16)));
            lemma_assoc_push(Seq::<(TokenView, Weight)>::empty(), t, 1u16);
            assert(assoc_map(Seq::<(TokenView, Weight)>::empty()) == Map::<TokenView, Weight>::empty());
        }
        e
    }

    /// Where `tok` is kept, if it is.
    fn find(&self, tok: &Token) -> (r: Option<usize>)
        requires
            self.wf(),
        ensures
            match r {
                Some(i) => i < self.entries().len() && self.entries()[i as int].0 == token_view(
                    *tok,
                ),
                None => !self@.weights.contains_key(token_view(*tok)),
            },
    {
        let mut i: usize = 0;
        while i < self.weights.len()
            invariant
                i <= self.weights.len(),
                forall|j: int| 0 <= j < i ==> self.entries()[j].0 != token_view(*tok),
            decreases self.weights.len() - i,
        {
            if token_eq(&self.weights[i].0, tok) {
                return Some(i);
            }
            i += 1;
        }
        proof {
            lemma_assoc_contains(self.entries(), token_view(*tok));
        }
        None
    }

    /// The index of the first eligible pair, in the order the pairs are
    /// kept, whose running eligible weight passes `roll`.
    pub fn pick_by_roll(&self, allow_end: bool, roll: u64) -> (r: Option<usize>)
        requires
            self.wf(),
        ensures
            match r {
                Some(i) => first_past(self.entries(), allow_end, roll as int) == Some(i as int),
                None => first_past(self.entries(), allow_end, roll as int) is None,
            },
            match r {
                Some(i) => i < self.entries().len() && can_pick(self@, allow_end, self.entries()[i as int].0),
                None => seq_eligible(self.entries(), allow_end) <= roll,
            },
    {
        let ghost s = self.entries();
        let mut cum: u128 = 0;
        let mut i: usize = 0;
        while i < self.weights.len()
            invariant
                s == self.entries(),
                self.wf(),
                i <= self.weights.len(),
                cum == seq_eligible(s.take(i as int), allow_end),
                cum <= roll,
                first_past(s.take(i as int), allow_end, roll as int) is None,
            decreases self.weights.len() - i,
        {
            let w = self.weights[i].1;
            let ok = allow_end || self.weights[i].0.is_some();
            assert(s.take(i + 1).drop_last() =~= s.take(i as int));
            assert(s.take(i + 1).last() == s[i as int]);
            assert(s[i as int] == entry_view(self.weights@[i as int]));
            if ok {
                cum = cum + w as u128;
                if cum > roll as u128 {
                    assert(w > 0);
                    proof {
                        lemma_assoc_index(s, i as int);
                        lemma_first_past_prefix(s, allow_end, roll as int, i + 1);
                    }
                    return Some(i);
                }
            }
            i += 1;
        }
        assert(s.take(i as int) =~= s);
        None
    }

    /// The bound of the roll that picks a next token: the whole total, or,
    /// where the end is not allowed, the total without the end's weight.
    pub fn draw_bound(&self, allow_end: bool) -> (r: u64)
        requires
            self.wf(),
            allow_end || end_fits(self@),
        ensures
            r == draw_range(self@, allow_end),
    {
        if allow_end {
            self.total
        } else {
            match self.find(&None) {
                Some(i) => {
                    proof {
                        lemma_assoc_index(self.entries(), i as int);
                    }
                    self.total - self.weights[i].1 as u64
                },
                None => self.total,
            }
        }
    }

    /// Samples a next token by weight: a roll drawn below the draw range
    /// picks the first eligible token whose running weight passes it. The
    /// roll comes back beside the index.
    pub(crate) fn sample(&self, rng: &mut fastrand::Rng, allow_end: bool) -> (r: (
        Option<usize>,
        Ghost<u64>,
    ))
        requires
            self.wf(),
            allow_end || end_fits(self@),
        ensures
            draw_range(self@, allow_end) > 0 ==> r.1@ < draw_range(self@, allow_end),
            draw_range(self@, allow_end) == 0 ==> r.1@ == 0,
            match r.0 {
                Some(i) => first_past(self.entries(), allow_end, r.1@ as int) == Some(i as int),
                None => first_past(self.entries(), allow_end, r.1@ as int) is None,
            },
            sampled(self, allow_end, r.0),
    {
        let range = self.draw_bound(allow_end);
        let roll = if range > 0 {
            crate::chance::roll_below(rng, range)
        } else {
            0
        };
        let r = self.pick_by_roll(allow_end, roll);
        proof {
            self.lemma_entries();
            lemma_seq_eligible(self.entries(), allow_end);
        }
        (r, Ghost(roll))
    }

    /// The token kept at `i`.
    pub(crate) fn token_at(&self, i: usize) -> (t: &Token)
        requires
            i < self.entries().len(),
        ensures
            token_view(*t) == self.entries()[i as int].0,
    {
        &self.weights[i].0
    }

    /// Counts one more transition to `tok`.
    pub fn increment_token(&mut self, tok: &Token)
        requires
            old(self).wf(),
        ensures
            final(self).wf(),
            final(self)@ == bump(old(self)@, token_view(*tok)),
    {
        let ghost t = token_view(*tok);
        let ghost s0 = self.entries();
        match self.find(tok) {
            Some(i) => {
                let w = self.weights[i].1;
                self.weights[i].1 = w.saturating_add(1);
                proof {
                    assert(self.entries() =~= s0.update(i as int, (s0[i as int].0, sat_u16(w as int, 1))));
                    lemma_assoc_index(s0, i as int);
                    lemma_assoc_update(s0, i as int, sat_u16(w as int, 1));
                }
            },
            None => {
                self.weights.push((clone_token(tok), 1));
                proof {
                    assert(self.entries() =~= s0.push((t, 1u16)));
                    lemma_assoc_contains(s0, t);
                    lemma_distinct_push(s0, t, 1u16);
                    lemma_assoc_push(s0, t, 1u16);
                }
            },
        }
        self.total = self.total.saturating_add(1);
    }

    /// Takes in every edge of `other`.
    pub fn merge_from(&mut self, other: Edges)
        requires
            old(self).wf(),
            other.wf(),
        ensures
            final(self).wf(),
            final(self)@ == merge_edges(old(self)@, other@),
    {
        let ghost a = self@;
        let ghost os = other.entries();
        proof {
            other.lemma_entries();
        }
        let mut j: usize = 0;
        while j < other.weights.len()
            invariant
                self.wf(),
                other.wf(),
                os == other.entries(),
                keys_distinct(os),
                j <= other.weights.len(),
                self@.total == sat_u64(a.total as int, seq_sum(os.take(j as int))),
                self@.weights == merge_edges(
                    a,
                    EdgesView { weights: assoc_map(os.take(j as int)), total: 0 },
                ).weights,
            decreases other.weights.len() - j,
        {
            let ghost before = self@;
            let ghost pre = os.take(j as int);
            let k = &other.weights[j].0;
            let v = other.weights[j].1;
            let ghost kv = token_view(*k);
            assert(os.take(j + 1).drop_last() =~= pre);
            assert(os.take(j + 1).last() == (kv, v));
            assert(seq_sum(os.take(j + 1)) == seq_sum(pre) + v);
            proof {
                lemma_distinct_prefix(os, j as int);
                lemma_assoc_contains(pre, kv);
                if has_key(pre, kv) {
                    let x = choose|x: int| 0 <= x < pre.len() && pre[x].0 == kv;
                    assert(os[x].0 == kv);
                }
            }
            let ghost s0 = self.entries();
            match self.find(k) {
                Some(i) => {
                    let w = self.weights[i].1;
                    self.weights[i].1 = w.saturating_add(v);
                    proof {
                        assert(self.entries() =~= s0.update(i as int, (s0[i as int].0, sat_u16(w as int, v as int))));
                        lemma_assoc_index(s0, i as int);
                        lemma_assoc_update(s0, i as int, sat_u16(w as int, v as int));
                    }
                },
                None => {
                    self.weights.push((clone_token(k), v));
                    proof {
                        assert(self.entries() =~= s0.push((kv, v)));
                        lemma_assoc_contains(s0, kv);
                        lemma_distinct_push(s0, kv, v);
                        lemma_assoc_push(s0, kv, v);
                    }
                },
            }
            let ghost t0 = self.total;
            assert(t0 == sat_u64(a.total as int, seq_sum(pre)));
            proof {
                lemma_seq_sum_nonneg(pre);
            }
            self.total = self.total.saturating_add(v as u64);
            assert(self.total == sat_u64(a.total as int, seq_sum(os.take(j + 1))));
            j += 1;
            proof {
                assert(self@.weights =~= merge_edges(
                    a,
                    EdgesView { weights: assoc_map(os.take(j as int)), total: 0 },
                ).weights);
            }
        }
        proof {
            assert(os.take(other.weights.len() as int) =~= os);
            assert(self@ == merge_edges(a, other@));
        }
    }

    /// Erases `token` from these edges; its weight leaves the total.
    pub fn forget(&mut self, token: &Token)
        requires
            old(self).wf(),
            can_drop(old(self)@, token_view(*token)),
        ensures
            final(self).wf(),
            final(self)@ == drop_edge(old(self)@, token_view(*token)),
    {
        let ghost s0 = self.entries();
        if let Some(i) = self.find(token) {
            let (_, w) = self.weights.remove(i);
            proof {
                assert(self.entries() =~= s0.remove(i as int));
                lemma_assoc_index(s0, i as int);
                lemma_assoc_remove(s0, i as int);
            }
            self.total = self.total - w as u64;
        }
    }

    /// The weight of `tok`, if it ever followed.
    pub fn weight_of(&self, tok: &Token) -> (r: Option<Weight>)
        requires
            self.wf(),
        ensures
            r == (if self@.weights.contains_key(token_view(*tok)) {
                Some(self@.weights[token_view(*tok)])
            } else {
                None
            }),
    {
        match self.find(tok) {
            Some(i) => {
                proof {
                    lemma_assoc_index(self.entries(), i as int);
                }
                Some(self.weights[i].1)
            },
            None => None,
        }
    }

    /// The number of transitions seen.
    pub fn total(&self) -> (r: u64)
        ensures
            r == self@.total,
    {
        self.total
    }

    /// No next token is known.
    pub fn is_empty(&self) -> (r: bool)
        requires
            self.wf(),
        ensures
            r == self@.weights.is_empty(),
    {
        proof {
            self.lemma_entries();
            if self.weights.len() > 0 {
                lemma_assoc_index(self.entries(), 0);
            }
        }
        self.weights.len() == 0
    }

    /// Every next token with its weight, each token once.
    pub fn weights(&self) -> (r: Vec<(Token, Weight)>)
        requires
            self.wf(),
        ensures
            keys_distinct(r@.map_values(|p: (Token, Weight)| entry_view(p))),
            assoc_map(r@.map_values(|p: (Token, Weight)| entry_view(p))) == self@.weights,
    {
        let mut r: Vec<(Token, Weight)> = Vec::new();
        let mut i: usize = 0;
        while i < self.weights.len()
            invariant
                i <= self.weights.len(),
                r.len() == i,
                r@.map_values(|p: (Token, Weight)| entry_view(p)) == self.entries().take(i as int),
            decreases self.weights.len() - i,
        {
            let ghost before = r@;
            assert(before.len() == i);
            let t = clone_token(&self.weights[i].0);
            r.push((t, self.weights[i].1));
            assert(r@ == before.push((t, self.weights@[i as int].1)));
            assert(self.entries()[i as int] == entry_view(self.weights@[i as int]));
            assert(entry_view(r@[i as int]) == self.entries()[i as int]);
            i += 1;
            assert(r@.map_values(|p: (Token, Weight)| entry_view(p)) =~= self.entries().take(
                i as int,
            ));
        }
        assert(self.entries().take(i as int) =~= self.entries());
        r
    }

    /// The pairs ordered by weight, lightest first (pairs of equal weight
    /// in the order they are kept).
    pub fn weights_by_weight(&self) -> (r: Vec<(Token, Weight)>)
        requires
            self.wf(),
        ensures
            keys_distinct(r@.map_values(|p: (Token, Weight)| entry_view(p))),
            assoc_map(r@.map_values(|p: (Token, Weight)| entry_view(p))) == self@.weights,
            forall|i: int, j: int| 0 <= i < j < r.len() ==> r@[i].1 <= r@[j].1,
    {
        let ghost s = self.entries();
        let mut r: Vec<(Token, Weight)> = Vec::new();
        let mut i: usize = 0;
        assert(r@.map_values(|p: (Token, Weight)| entry_view(p)) =~= Seq::empty());
        assert(s.take(0) =~= Seq::empty());
        while i < self.weights.len()
            invariant
                s == self.entries(),
                self.wf(),
                i <= self.weights.len(),
                keys_distinct(r@.map_values(|p: (Token, Weight)| entry_view(p))),
                assoc_map(r@.map_values(|p: (Token, Weight)| entry_view(p))) == assoc_map(
                    s.take(i as int),
                ),
                forall|a: int, b: int| 0 <= a < b < r.len() ==> r@[a].1 <= r@[b].1,
            decreases self.weights.len() - i,
        {
            let w = self.weights[i].1;
            let t = clone_token(&self.weights[i].0);
            let mut p: usize = 0;
            while p < r.len() && r[p].1 <= w
                invariant
                    p <= r.len(),
                    forall|q: int| 0 <= q < p ==> r@[q].1 <= w,
                decreases r.len() - p,
            {
                p += 1;
            }
            let ghost rv = r@.map_values(|q: (Token, Weight)| entry_view(q));
            let ghost before = r@;
            let ghost k = token_view(t);
            assert(s[i as int] == entry_view(self.weights@[i as int]));
            assert(s[i as int] == (k, w));
            proof {
                lemma_distinct_prefix(s, i as int);
                lemma_assoc_contains(s.take(i as int), k);
                lemma_assoc_contains(rv, k);
                if has_key(s.take(i as int), k) {
                    let j = choose|j: int| 0 <= j < i && s.take(i as int)[j].0 == k;
                    assert(s[j].0 == s[i as int].0);
                }
                lemma_assoc_insert_at(rv, p as int, k, w);
                assert(s.take(i + 1) =~= s.take(i as int).push((k, w)));
                crate::assoc::lemma_assoc_push(s.take(i as int), k, w);
            }
            r.insert(p, (t, w));
            assert(r@.map_values(|q: (Token, Weight)| entry_view(q)) =~= rv.insert(p as int, (k, w)));
            assert forall|a: int, b: int| 0 <= a < b < r.len() implies r@[a].1 <= r@[b].1 by {
                let a0 = if a < p { a } else { a - 1 };
                let b0 = if b < p { b } else { b - 1 };
                if a != p && b != p {
                    assert(r@[a] == before[a0] && r@[b] == before[b0]);
                } else if a == p {
                    assert(r@[b] == before[b0]);
                } else {
                    assert(r@[a] == before[a0]);
                }
            }
            i += 1;
        }
        assert(s.take(i as int) =~= s);
        proof {
            self.lemma_entries();
        }
        r
    }

    /// Edges holding `weights` (a later pair overriding an earlier one with
    /// the same token) and the given total.
    pub fn from_parts(weights: Vec<(Token, Weight)>, total: u64) -> (e: Edges)
        ensures
            e.wf(),
            e@.weights == assoc_map(weights@.map_values(|p: (Token, Weight)| entry_view(p))),
            e@.total == total,
    {
        let ghost src = weights@.map_values(|p: (Token, Weight)| entry_view(p));
        let mut e = Edges::new();
        let mut i: usize = 0;
        while i < weights.len()
            invariant
                e.wf(),
                i <= weights.len(),
                src == weights@.map_values(|p: (Token, Weight)| entry_view(p)),
                e@.weights == assoc_map(src.take(i as int)),
            decreases weights.len() - i,
        {
            let k = &weights[i].0;
            let v = weights[i].1;
            let ghost kv = token_view(*k);
            let ghost s0 = e.entries();
            assert(src.take(i + 1).drop_last() =~= src.take(i as int));
            assert(src.take(i + 1).last() == (kv, v));
            match e.find(k) {
                Some(j) => {
                    e.weights[j].1 = v;
                    proof {
                        assert(e.entries() =~= s0.update(j as int, (s0[j as int].0, v)));
                        lemma_assoc_update(s0, j as int, v);
                    }
                },
                None => {
                    e.weights.push((clone_token(k), v));
                    proof {
                        assert(e.entries() =~= s0.push((kv, v)));
                        lemma_assoc_contains(s0, kv);
                        lemma_distinct_push(s0, kv, v);
                        lemma_assoc_push(s0, kv, v);
                    }
                },
            }
            i += 1;
        }
        assert(src.take(i as int) =~= src);
        e.total = total;
        e
    }
}

} // verus!
