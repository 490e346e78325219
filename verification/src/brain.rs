//! The brain: for every token learned, the edges to the tokens that followed it.
use vstd::prelude::*;

use crate::assoc::{
    assoc_map, has_key, keys_distinct, lemma_assoc_contains, lemma_assoc_finite, lemma_assoc_index,
    lemma_assoc_len, lemma_assoc_pointwise, lemma_assoc_push, lemma_assoc_remove,
    lemma_assoc_update, lemma_distinct_prefix, lemma_distinct_push, lemma_seq_sum_is_map_sum,
    lemma_seq_sum_prefix, lemma_seq_sum_same, seq_sum,
};
use crate::edges::{
    bump, can_drop, clone_token, drop_edge, end_fits, entry_view, first_edge, merge_edges,
    token_eq, token_view, Edges, EdgesView, Token, TokenView, Weight,
};
use crate::legacy::{
    is_legacy_token, legacy_brain, legacy_chain_view, legacy_edges, legacy_format,
    legacy_pairs_view, legacy_pairs_written, legacy_sums_fit, legacy_token_format,
    legacy_well_formed, lemma_legacy_injective, lemma_legacy_round_trip, read_legacy,
    read_legacy_token, read_links, read_pairs, with_summed_total,
};
use crate::text::{
    chars_of, is_mention, is_mention_chars, normalize, normalize_chars, push_char, split_words,
    words,
};

verus! {

/// What a brain holds: the edges of every token learned.
pub type BrainView = Map<TokenView, EdgesView>;

/// The tokens that the words of a message stand for (mentions left out),
/// in order.
pub open spec fn word_tokens(ws: Seq<Seq<char>>) -> Seq<TokenView>
    decreases ws.len(),
{
    if ws.len() == 0 {
        Seq::empty()
    } else if is_mention(ws.last()) {
        word_tokens(ws.drop_last())
    } else {
        word_tokens(ws.drop_last()).push(Some(normalize(ws.last())))
    }
}

/// The tokens learned from a message: its words, then the end of the message.
pub open spec fn message_tokens(msg: Seq<char>) -> Seq<TokenView> {
    word_tokens(words(msg)).push(None)
}

/// The token a word stands for when it is looked up.
pub open spec fn word_token(word: Seq<char>) -> TokenView {
    Some(normalize(word))
}

/// One transition learned: `to` followed `from`.
pub open spec fn learn_pair(b: BrainView, from: TokenView, to: TokenView) -> BrainView {
    if b.contains_key(from) {
        b.insert(from, bump(b[from], to))
    } else {
        b.insert(from, first_edge(to))
    }
}

/// Every transition between neighbouring tokens of `toks` learned, first to last.
pub open spec fn learn_all(b: BrainView, toks: Seq<TokenView>) -> BrainView
    decreases toks.len(),
{
    if toks.len() < 2 {
        b
    } else {
        learn_pair(learn_all(b, toks.drop_last()), toks[toks.len() - 2], toks.last())
    }
}

/// Some token that starts a transition of `toks` was not known in `b`.
pub open spec fn learns_new_token(b: BrainView, toks: Seq<TokenView>) -> bool {
    exists|k: int| 0 <= k < toks.len() - 1 && !b.contains_key(#[trigger] toks[k])
}

/// Every set of edges holds finitely many tokens.
pub open spec fn edges_finite(b: BrainView) -> bool {
    forall|k: TokenView| #[trigger] b.contains_key(k) ==> b[k].weights.dom().finite()
}

/// `t` erased: its own edges and every edge to it.
pub open spec fn forget_token(b: BrainView, t: TokenView) -> BrainView {
    b.remove(t).map_values(|e: EdgesView| drop_edge(e, t))
}

/// Erasing `t` takes no total below zero.
pub open spec fn can_forget(b: BrainView, t: TokenView) -> bool {
    forall|k: TokenView| #[trigger] b.contains_key(k) && k != t ==> can_drop(b[k], t)
}

/// `a` after taking in `b`: edges of a shared token merge, others are kept.
pub open spec fn merge_brains(a: BrainView, b: BrainView) -> BrainView {
    Map::new(
        |k: TokenView| a.contains_key(k) || b.contains_key(k),
        |k: TokenView|
            if a.contains_key(k) && b.contains_key(k) {
                merge_edges(a[k], b[k])
            } else if a.contains_key(k) {
                a[k]
            } else {
                b[k]
            },
    )
}

/// How `format_token` shows a token: the word, or `~END` for the end.
pub open spec fn shown_token(t: TokenView) -> Seq<char> {
    match t {
        Some(w) => w,
        None => seq!['~', 'E', 'N', 'D'],
    }
}

/// Shows a token: the word itself, or `~END` for the end of a message.
pub fn format_token(tok: &Token) -> (s: String)
    ensures
        s@ == shown_token(token_view(*tok)),
{
    match tok {
        Some(w) => w.clone(),
        None => {
            let mut s = String::new();
            push_char(&mut s, '~');
            push_char(&mut s, 'E');
            push_char(&mut s, 'N');
            push_char(&mut s, 'D');
            assert(s@ =~= seq!['~', 'E', 'N', 'D']);
            s
        },
    }
}

/// The tokens of a message and the edges between them, learned as a Markov chain.
#[derive(Debug, Clone)]
pub struct Brain {
    chain: Vec<(Token, Edges)>,
    always_reply: bool,
}

pub open spec fn link_view(p: (Token, Edges)) -> (TokenView, EdgesView) {
    (token_view(p.0), p.1@)
}

impl Default for Brain {
    /// An empty brain, which answers every prompt it can (see `Brain::new`).
    fn default() -> (b: Brain)
        ensures
            b.wf(),
            b@ == Map::<TokenView, EdgesView>::empty(),
            b.answers_always(),
    {
        Brain::new()
    }
}

impl View for Brain {
    type V = BrainView;

    closed spec fn view(&self) -> BrainView {
        assoc_map(self.entries())
    }
}

impl Brain {
    /// The tokens with their edges, in the order they are kept.
    pub closed spec fn entries(&self) -> Seq<(TokenView, EdgesView)> {
        self.chain@.map_values(|p: (Token, Edges)| link_view(p))
    }

    /// No token is kept twice and every set of edges is well formed.
    pub closed spec fn wf(&self) -> bool {
        &&& keys_distinct(self.entries())
        &&& forall|i: int| 0 <= i < self.chain.len() ==> (#[trigger] self.chain@[i]).1.wf()
    }

    /// Whether every prompt is answered (the reply roll is skipped).
    pub closed spec fn answers_always(&self) -> bool {
        self.always_reply
    }

    pub proof fn lemma_view_finite(&self)
        ensures
            self@.dom().finite(),
    {
        lemma_assoc_finite(self.entries());
    }

    /// Every set of edges of a brain holds finitely many tokens.
    pub proof fn lemma_edges_finite(&self)
        requires
            self.wf(),
        ensures
            edges_finite(self@),
    {
        assert forall|k: TokenView| #[trigger] self@.contains_key(k) implies self@[k].weights.dom().finite() by {
            lemma_assoc_contains(self.entries(), k);
            let m = choose|m: int| 0 <= m < self.entries().len() && self.entries()[m].0 == k;
            self.lemma_at(m);
            assert(self.entries()[m] == link_view(self.chain@[m]));
            self.chain@[m].1.lemma_view_finite();
        }
    }

    /// An empty brain, which answers every prompt it can: the reply roll is
    /// off, as in a test build of the bot. A bot that rolls (any build made
    /// without `BINGUS_FORCE_REPLY`) turns it on with `set_always_reply(false)`
    /// once the brain is made or loaded.
    pub fn new() -> (b: Brain)
        ensures
            b.wf(),
            b@ == Map::<TokenView, EdgesView>::empty(),
            b.answers_always(),
    {
        let b = Brain { chain: Vec::new(), always_reply: true };
        assert(b.entries() =~= Seq::empty());
        b
    }

    /// Whether every prompt is answered (the reply roll is skipped). A brain
    /// starts with this on; see `new`.
    pub fn always_reply(&self) -> (r: bool)
        ensures
            r == self.answers_always(),
    {
        self.always_reply
    }

    /// Turns the reply roll off (`true`: every prompt is answered) or on.
    pub fn set_always_reply(&mut self, always: bool)
        ensures
            final(self)@ == old(self)@,
            final(self).wf() == old(self).wf(),
            final(self).answers_always() == always,
    {
        self.always_reply = always;
    }

    /// Where `tok` is kept, if it is.
    fn find(&self, tok: &Token) -> (r: Option<usize>)
        requires
            self.wf(),
        ensures
            match r {
                Some(i) => i < self.chain.len() && self.entries()[i as int].0 == token_view(*tok),
                None => !self@.contains_key(token_view(*tok)),
            },
    {
        let mut i: usize = 0;
        while i < self.chain.len()
            invariant
                i <= self.chain.len(),
                forall|j: int| 0 <= j < i ==> self.entries()[j].0 != token_view(*tok),
            decreases self.chain.len() - i,
        {
            if token_eq(&self.chain[i].0, tok) {
                return Some(i);
            }
            i += 1;
        }
        proof {
            lemma_assoc_contains(self.entries(), token_view(*tok));
        }
        None
    }

    proof fn lemma_at(&self, i: int)
        requires
            self.wf(),
            0 <= i < self.chain.len(),
        ensures
            self@.contains_key(token_view(self.chain@[i].0)),
            self@[token_view(self.chain@[i].0)] == self.chain@[i].1@,
            self.chain@[i].1.wf(),
    {
        assert(self.entries()[i] == link_view(self.chain@[i]));
        lemma_assoc_index(self.entries(), i);
    }

    /// The token a word stands for: a link as it is, any other word in
    /// ASCII lower case.
    fn normalize_token(word: &str) -> (t: Token)
        ensures
            token_view(t) == word_token(word@),
    {
        let chars = chars_of(word);
        Some(normalize_chars(&chars))
    }

    /// Learns a message: every transition between neighbouring tokens of
    /// it, the last word followed by the end. Returns whether a token that
    /// starts a transition was new to the brain.
    pub fn ingest(&mut self, msg: &str) -> (learned: bool)
        requires
            old(self).wf(),
        ensures
            final(self).wf(),
            final(self).answers_always() == old(self).answers_always(),
            final(self)@ == learn_all(old(self)@, message_tokens(msg@)),
            learned == learns_new_token(old(self)@, message_tokens(msg@)),
            learned == exists|t: TokenView|
                #[trigger] final(self)@.contains_key(t) && !old(self)@.contains_key(t),
    {
        let toks = Self::parse(msg);
        let ghost tv = toks@.map_values(|t: Token| token_view(t));
        let ghost b0 = self@;
        let mut learned = false;
        let mut i: usize = 0;
        assert(tv.len() == toks.len());
        assert(tv.take(1).len() == 1);
        while i + 1 < toks.len()
            invariant
                self.wf(),
                self.answers_always() == old(self).answers_always(),
                b0 == old(self)@,
                tv == toks@.map_values(|t: Token| token_view(t)),
                tv.len() >= 1,
                i + 1 <= toks.len(),
                self@ == learn_all(b0, tv.take(i + 1)),
                learned == (exists|k: int| 0 <= k < i && !b0.contains_key(#[trigger] tv[k])),
                forall|t: TokenView|
                    self@.contains_key(t) <==> (b0.contains_key(t) || exists|k: int|
                        0 <= k < i && #[trigger] tv[k] == t),
            decreases toks.len() - i,
        {
            let from = &toks[i];
            let to = &toks[i + 1];
            let ghost f = tv[i as int];
            let ghost g = tv[i + 1];
            let ghost bi = self@;
            let ghost s0 = self.entries();
            assert(tv.take(i + 2).drop_last() =~= tv.take(i + 1));
            assert(tv.take(i + 2)[i as int] == f);
            assert(tv.take(i + 2).last() == g);
            assert(learn_all(b0, tv.take(i + 2)) == learn_pair(bi, f, g));
            match self.find(from) {
                Some(j) => {
                    proof {
                        self.lemma_at(j as int);
                    }
                    self.chain[j].1.increment_token(to);
                    proof {
                        assert(self.entries() =~= s0.update(j as int, (f, bump(bi[f], g))));
                        lemma_assoc_update(s0, j as int, bump(bi[f], g));
                        if !b0.contains_key(f) {
                            let k = choose|k: int| 0 <= k < i && #[trigger] tv[k] == f;
                            assert(!b0.contains_key(tv[k]));
                        }
                    }
                },
                None => {
                    let e = Edges::first(to);
                    self.chain.push((clone_token(from), e));
                    proof {
                        assert(self.entries() =~= s0.push((f, first_edge(g))));
                        lemma_assoc_contains(s0, f);
                        lemma_distinct_push(s0, f, first_edge(g));
                        lemma_assoc_push(s0, f, first_edge(g));
                        assert(!b0.contains_key(tv[i as int]));
                    }
                    learned = true;
                },
            }
            i += 1;
            proof {
                assert forall|t: TokenView|
                    self@.contains_key(t) <==> (b0.contains_key(t) || exists|k: int|
                        0 <= k < i && #[trigger] tv[k] == t) by {
                    if self@.contains_key(t) && !b0.contains_key(t) && t != f {
                        assert(bi.contains_key(t));
                    }
                    if t == f {
                        assert(tv[i - 1] == t);
                    }
                    if !b0.contains_key(t) && (exists|k: int| 0 <= k < i && #[trigger] tv[k] == t) {
                        let k = choose|k: int| 0 <= k < i && #[trigger] tv[k] == t;
                        if k < i - 1 {
                            assert(bi.contains_key(t));
                        }
                    }
                }
            }
        }
        assert(tv.take(i + 1) =~= tv);
        proof {
            crate::laws::lemma_learning_new_tokens(b0, message_tokens(msg@));
        }
        learned
    }

    /// Erases a word: its own edges and every edge that leads to it.
    pub fn forget(&mut self, word: &str)
        requires
            old(self).wf(),
            can_forget(old(self)@, word_token(word@)),
        ensures
            final(self).wf(),
            final(self).answers_always() == old(self).answers_always(),
            final(self)@ == forget_token(old(self)@, word_token(word@)),
    {
        let tok = Self::normalize_token(word);
        let ghost t = token_view(tok);
        let ghost b0 = self@;
        if let Some(j) = self.find(&tok) {
            let ghost s0 = self.entries();
            self.chain.remove(j);
            proof {
                assert(self.entries() =~= s0.remove(j as int));
                lemma_assoc_remove(s0, j as int);
            }
        }
        assert(self@ == b0.remove(t)) by {
            if !b0.contains_key(t) {
                assert(b0.remove(t) =~= b0);
            }
        }
        let ghost base = self.entries();
        let mut i: usize = 0;
        while i < self.chain.len()
            invariant
                self.wf(),
                self.answers_always() == old(self).answers_always(),
                i <= self.chain.len(),
                base.len() == self.chain.len(),
                assoc_map(base) == b0.remove(t),
                keys_distinct(base),
                can_forget(b0, t),
                t == token_view(tok),
                forall|m: int| 0 <= m < i ==> (#[trigger] self.entries()[m]) == (base[m].0, drop_edge(base[m].1, t)),
                forall|m: int| i <= m < base.len() ==> (#[trigger] self.entries()[m]) == base[m],
            decreases self.chain.len() - i,
        {
            proof {
                lemma_assoc_index(base, i as int);
                assert(self.entries()[i as int] == link_view(self.chain@[i as int]));
            }
            let ghost s0 = self.entries();
            self.chain[i].1.forget(&tok);
            proof {
                assert(self.entries() =~= s0.update(i as int, (base[i as int].0, drop_edge(base[i as int].1, t))));
            }
            i += 1;
        }
        proof {
            lemma_assoc_pointwise(base, self.entries(), |e: EdgesView| drop_edge(e, t));
        }
    }

    /// Takes in every token of `other`: edges of a token known to both merge,
    /// the others are kept as they are.
    pub fn merge_from(&mut self, other: Brain)
        requires
            old(self).wf(),
            other.wf(),
        ensures
            final(self).wf(),
            final(self).answers_always() == old(self).answers_always(),
            final(self)@ == merge_brains(old(self)@, other@),
    {
        let mut other = other;
        let ghost a = self@;
        let ghost os = other.entries();
        let mut j: usize = 0;
        while j < other.chain.len()
            invariant
                self.wf(),
                self.answers_always() == old(self).answers_always(),
                j <= other.chain.len(),
                os.len() == other.chain.len(),
                keys_distinct(os),
                forall|m: int| j <= m < os.len() ==> (#[trigger] other.entries()[m]) == os[m],
                forall|m: int| j <= m < os.len() ==> (#[trigger] other.chain@[m]).1.wf(),
                self@ == merge_brains(a, assoc_map(os.take(j as int))),
            decreases other.chain.len() - j,
        {
            let mut e = Edges::new();
            let ghost kv = os[j as int].0;
            assert(other.entries()[j as int] == link_view(other.chain@[j as int]));
            let ghost oc = other.chain@;
            let ghost oe = other.entries();
            std::mem::swap(&mut e, &mut other.chain[j].1);
            assert(e@ == os[j as int].1);
            assert forall|m: int| j < m < os.len() implies (#[trigger] other.entries()[m]) == os[m] by {
                assert(other.chain@[m] == oc[m]);
                assert(oe[m] == os[m]);
                assert(oe[m] == link_view(oc[m]));
                assert(other.entries()[m] == link_view(other.chain@[m]));
            }
            assert(e.wf());
            let ghost pre = os.take(j as int);
            assert(os.take(j + 1).drop_last() =~= pre);
            assert(os.take(j + 1).last() == os[j as int]);
            proof {
                lemma_distinct_prefix(os, j as int);
                lemma_assoc_contains(pre, kv);
                if has_key(pre, kv) {
                    let x = choose|x: int| 0 <= x < pre.len() && pre[x].0 == kv;
                    assert(os[x].0 == kv);
                }
            }
            let ghost s0 = self.entries();
            let ghost bj = self@;
            match self.find(&other.chain[j].0) {
                Some(i) => {
                    proof {
                        self.lemma_at(i as int);
                    }
                    self.chain[i].1.merge_from(e);
                    proof {
                        assert(self.entries() =~= s0.update(i as int, (kv, merge_edges(bj[kv], os[j as int].1))));
                        lemma_assoc_update(s0, i as int, merge_edges(bj[kv], os[j as int].1));
                    }
                },
                None => {
                    let k = clone_token(&other.chain[j].0);
                    self.chain.push((k, e));
                    proof {
                        assert(self.entries() =~= s0.push((kv, os[j as int].1)));
                        lemma_assoc_contains(s0, kv);
                        lemma_distinct_push(s0, kv, os[j as int].1);
                        lemma_assoc_push(s0, kv, os[j as int].1);
                    }
                },
            }
            j += 1;
            proof {
                assert(self@ =~= merge_brains(a, assoc_map(os.take(j as int))));
            }
        }
        assert(os.take(j as int) =~= os);
    }

    /// The number of tokens known.
    pub fn word_count(&self) -> (n: usize)
        requires
            self.wf(),
        ensures
            n == self@.dom().len(),
    {
        proof {
            lemma_assoc_len(self.entries());
        }
        self.chain.len()
    }

    /// The edges of `tok`, if it is known.
    pub fn edges_for(&self, tok: &Token) -> (r: Option<&Edges>)
        requires
            self.wf(),
        ensures
            r is Some == self@.contains_key(token_view(*tok)),
            r matches Some(e) ==> e.wf() && e@ == self@[token_view(*tok)],
    {
        match self.find(tok) {
            Some(i) => {
                proof {
                    self.lemma_at(i as int);
                }
                Some(&self.chain[i].1)
            },
            None => None,
        }
    }

    /// The edges of a word, if it is known and has any.
    pub fn get_weights(&self, tok: &str) -> (r: Option<&Edges>)
        requires
            self.wf(),
        ensures
            r is Some == (self@.contains_key(word_token(tok@)) && !self@[word_token(
                tok@,
            )].weights.is_empty()),
            r matches Some(e) ==> e.wf() && e@ == self@[word_token(tok@)],
    {
        let t = Self::normalize_token(tok);
        match self.edges_for(&t) {
            Some(e) => {
                if e.is_empty() {
                    None
                } else {
                    Some(e)
                }
            },
            None => None,
        }
    }

    /// Keeps `e` as the edges of `tok`, in place of any it had.
    fn put(&mut self, tok: Token, e: Edges)
        requires
            old(self).wf(),
            e.wf(),
        ensures
            final(self).wf(),
            final(self).answers_always() == old(self).answers_always(),
            final(self)@ == old(self)@.insert(token_view(tok), e@),
    {
        let ghost kv = token_view(tok);
        let ghost s0 = self.entries();
        match self.find(&tok) {
            Some(i) => {
                self.chain[i].1 = e;
                proof {
                    assert(self.entries() =~= s0.update(i as int, (kv, e@)));
                    lemma_assoc_update(s0, i as int, e@);
                }
            },
            None => {
                let ghost ev = e@;
                self.chain.push((tok, e));
                proof {
                    assert(self.entries() =~= s0.push((kv, ev)));
                    lemma_assoc_contains(s0, kv);
                    lemma_distinct_push(s0, kv, ev);
                    lemma_assoc_push(s0, kv, ev);
                }
            },
        }
    }

    /// A brain holding `links`, a later link overriding an earlier one for
    /// the same token.
    pub fn from_parts(links: Vec<(Token, Edges)>) -> (b: Brain)
        requires
            forall|i: int| 0 <= i < links.len() ==> (#[trigger] links@[i]).1.wf(),
        ensures
            b.wf(),
            b.answers_always(),
            b@ == assoc_map(links@.map_values(|p: (Token, Edges)| link_view(p))),
    {
        let ghost src = links@.map_values(|p: (Token, Edges)| link_view(p));
        let mut links = links;
        let mut b = Brain::new();
        let mut i: usize = 0;
        while i < links.len()
            invariant
                b.wf(),
                b.answers_always(),
                i <= links.len(),
                src.len() == links.len(),
                forall|m: int| i <= m < links.len() ==> (#[trigger] links@[m]).1.wf(),
                forall|m: int| i <= m < links.len() ==> link_view(#[trigger] links@[m]) == src[m],
                b@ == assoc_map(src.take(i as int)),
            decreases links.len() - i,
        {
            let mut e = Edges::new();
            std::mem::swap(&mut e, &mut links[i].1);
            let k = clone_token(&links[i].0);
            assert(src.take(i + 1).drop_last() =~= src.take(i as int));
            assert(src.take(i + 1).last() == src[i as int]);
            b.put(k, e);
            i += 1;
        }
        assert(src.take(i as int) =~= src);
        b
    }

    /// The tokens with their edges, each token once.
    pub fn into_parts(self) -> (links: Vec<(Token, Edges)>)
        requires
            self.wf(),
        ensures
            keys_distinct(links@.map_values(|p: (Token, Edges)| link_view(p))),
            assoc_map(links@.map_values(|p: (Token, Edges)| link_view(p))) == self@,
            forall|i: int| 0 <= i < links.len() ==> (#[trigger] links@[i]).1.wf(),
    {
        assert(self.chain@.map_values(|p: (Token, Edges)| link_view(p)) == self.entries());
        self.chain
    }

    /// The brain in the legacy format: every token with its edges, each
    /// token written as `legacy_format` shows it. Read back, it is the brain
    /// with every total the sum of its weights.
    pub fn as_legacy_hashmap(&self) -> (r: Vec<(String, Vec<(String, Weight)>)>)
        requires
            self.wf(),
        ensures
            legacy_well_formed(legacy_chain_view(r@)),
            legacy_brain(legacy_chain_view(r@)) == self@.map_values(
                |e: EdgesView| with_summed_total(e),
            ),
    {
        let mut r: Vec<(String, Vec<(String, Weight)>)> = Vec::new();
        let ghost es = self.entries();
        let mut i: usize = 0;
        while i < self.chain.len()
            invariant
                self.wf(),
                es == self.entries(),
                i <= self.chain.len(),
                r.len() == i,
                forall|m: int|
                    0 <= m < i ==> {
                        let p = #[trigger] legacy_chain_view(r@)[m];
                        &&& p.0 == legacy_format(es[m].0)
                        &&& legacy_pairs_written(p.1)
                        &&& legacy_edges(p.1) == with_summed_total(es[m].1)
                    },
            decreases self.chain.len() - i,
        {
            proof {
                self.lemma_at(i as int);
                assert(es[i as int] == link_view(self.chain@[i as int]));
            }
            let ws = self.chain[i].1.weights();
            let ghost wv = ws@.map_values(|p: (Token, Weight)| entry_view(p));
            let mut inner: Vec<(String, Weight)> = Vec::new();
            let mut j: usize = 0;
            while j < ws.len()
                invariant
                    j <= ws.len(),
                    inner.len() == j,
                    wv == ws@.map_values(|p: (Token, Weight)| entry_view(p)),
                    forall|n: int|
                        0 <= n < j ==> (#[trigger] legacy_pairs_view(inner@)[n]) == (
                            legacy_format(wv[n].0),
                            wv[n].1,
                        ),
                decreases ws.len() - j,
            {
                let ghost before = inner@;
                let f = legacy_token_format(&ws[j].0);
                inner.push((f, ws[j].1));
                proof {
                    assert(inner@ == before.push((f, ws@[j as int].1)));
                    assert forall|n: int| 0 <= n < j + 1 implies (#[trigger] legacy_pairs_view(
                        inner@,
                    )[n]) == (legacy_format(wv[n].0), wv[n].1) by {
                        if n < j {
                            assert(inner@[n] == before[n]);
                            assert(legacy_pairs_view(before)[n] == legacy_pairs_view(inner@)[n]);
                        }
                    }
                }
                j += 1;
            }
            let ghost iv = legacy_pairs_view(inner@);
            proof {
                assert forall|n: int| 0 <= n < wv.len() implies (#[trigger] read_pairs(iv)[n])
                    == wv[n] && is_legacy_token(iv[n].0) by {
                    lemma_legacy_round_trip(wv[n].0);
                }
                assert(read_pairs(iv) =~= wv);
                assert(keys_distinct(iv)) by {
                    assert forall|a: int, b: int|
                        0 <= a < iv.len() && 0 <= b < iv.len() && a != b implies iv[a].0
                        != iv[b].0 by {
                        if iv[a].0 == iv[b].0 {
                            lemma_legacy_injective(wv[a].0, wv[b].0);
                        }
                    }
                }
                lemma_seq_sum_same(iv, wv);
                lemma_seq_sum_is_map_sum(wv);
            }
            let ghost before = r@;
            let k = legacy_token_format(&self.chain[i].0);
            r.push((k, inner));
            proof {
                assert(r@ == before.push((k, inner)));
                assert forall|m: int| 0 <= m < i implies #[trigger] legacy_chain_view(r@)[m]
                    == legacy_chain_view(before)[m] by {
                    assert(r@[m] == before[m]);
                }
            }
            i += 1;
        }
        proof {
            let rv = legacy_chain_view(r@);
            assert forall|m: int| 0 <= m < es.len() implies (#[trigger] read_links(rv)[m]).0
                == es[m].0 && read_links(rv)[m].1 == with_summed_total(es[m].1) && is_legacy_token(
                rv[m].0,
            ) by {
                lemma_legacy_round_trip(es[m].0);
            }
            lemma_assoc_pointwise(es, read_links(rv), |e: EdgesView| with_summed_total(e));
            assert forall|m: int| 0 <= m < rv.len() implies is_legacy_token(#[trigger] rv[m].0)
                && legacy_pairs_written(rv[m].1) by {
                assert(rv[m] == legacy_chain_view(r@)[m]);
                lemma_legacy_round_trip(es[m].0);
            }
            assert(keys_distinct(rv)) by {
                assert forall|a: int, b: int|
                    0 <= a < rv.len() && 0 <= b < rv.len() && a != b implies rv[a].0
                    != rv[b].0 by {
                    if rv[a].0 == rv[b].0 {
                        lemma_legacy_injective(es[a].0, es[b].0);
                    }
                }
            }
        }
        r
    }

    /// The brain a legacy chain stands for: every token and next token read
    /// back with `read_legacy`, a later entry overriding an earlier one, and
    /// each total the sum of the weights listed for the token.
    pub fn from_legacy_hashmap(map: Vec<(String, Vec<(String, Weight)>)>) -> (b: Brain)
        requires
            legacy_sums_fit(legacy_chain_view(map@)),
        ensures
            b.wf(),
            b.answers_always(),
            b@ == legacy_brain(legacy_chain_view(map@)),
    {
        let ghost mv = legacy_chain_view(map@);
        let ghost src = read_links(mv);
        let mut b = Brain::new();
        let mut i: usize = 0;
        while i < map.len()
            invariant
                b.wf(),
                b.answers_always(),
                i <= map.len(),
                mv == legacy_chain_view(map@),
                src == read_links(mv),
                legacy_sums_fit(mv),
                b@ == assoc_map(src.take(i as int)),
            decreases map.len() - i,
        {
            let v = &map[i].1;
            let ghost pv = legacy_pairs_view(v@);
            assert(pv == mv[i as int].1);
            let mut toks: Vec<(Token, Weight)> = Vec::new();
            let mut sum: u64 = 0;
            let mut j: usize = 0;
            while j < v.len()
                invariant
                    j <= v.len(),
                    toks.len() == j,
                    pv == legacy_pairs_view(v@),
                    seq_sum(pv) <= u64::MAX,
                    sum == seq_sum(pv.take(j as int)),
                    forall|n: int|
                        0 <= n < j ==> entry_view(#[trigger] toks@[n]) == (
                            read_legacy(pv[n].0),
                            pv[n].1,
                        ),
                decreases v.len() - j,
            {
                let t = read_legacy_token(&v[j].0);
                let w = v[j].1;
                proof {
                    assert(pv.take(j + 1).drop_last() =~= pv.take(j as int));
                    assert(pv.take(j + 1).last() == pv[j as int]);
                    lemma_seq_sum_prefix(pv, j + 1);
                }
                sum = sum + w as u64;
                let ghost before = toks@;
                toks.push((t, w));
                assert(toks@ == before.push((t, w)));
                j += 1;
            }
            proof {
                assert(pv.take(j as int) =~= pv);
                assert(toks@.map_values(|p: (Token, Weight)| entry_view(p)) =~= read_pairs(pv));
            }
            let e = Edges::from_parts(toks, sum);
            let k = read_legacy_token(&map[i].0);
            assert(src.take(i + 1).drop_last() =~= src.take(i as int));
            assert(src.take(i + 1).last() == src[i as int]);
            assert(e@ == legacy_edges(pv));
            b.put(k, e);
            i += 1;
        }
        assert(src.take(i as int) =~= src);
        b
    }

    /// The token kept at `i`, which is a known token.
    pub(crate) fn key_at(&self, i: usize) -> (t: &Token)
        requires
            self.wf(),
            i < self@.dom().len(),
        ensures
            self@.contains_key(token_view(*t)),
    {
        proof {
            lemma_assoc_len(self.entries());
            self.lemma_at(i as int);
        }
        &self.chain[i].0
    }

    /// Whether erasing `t` from the edges of every token (but `t`'s own
    /// edges, if `skip_own`) takes no total below zero.
    fn all_can_drop(&self, t: &Token, skip_own: bool) -> (r: bool)
        requires
            self.wf(),
        ensures
            r == (forall|k: TokenView| #[trigger] self@.contains_key(k) && !(skip_own && k == token_view(*t))
                ==> can_drop(self@[k], token_view(*t))),
    {
        let ghost tv = token_view(*t);
        let mut i: usize = 0;
        while i < self.chain.len()
            invariant
                self.wf(),
                i <= self.chain.len(),
                tv == token_view(*t),
                forall|m: int| 0 <= m < i && !(skip_own && self.entries()[m].0 == tv) ==> can_drop(#[trigger] self.entries()[m].1, tv),
            decreases self.chain.len() - i,
        {
            proof {
                self.lemma_at(i as int);
                assert(self.entries()[i as int] == link_view(self.chain@[i as int]));
            }
            if !(skip_own && token_eq(&self.chain[i].0, t)) {
                if let Some(w) = self.chain[i].1.weight_of(t) {
                    if w as u64 > self.chain[i].1.total() {
                        return false;
                    }
                }
            }
            i += 1;
        }
        proof {
            assert forall|k: TokenView| #[trigger] self@.contains_key(k) && !(skip_own && k == tv) implies can_drop(self@[k], tv) by {
                lemma_assoc_contains(self.entries(), k);
                let m = choose|m: int| 0 <= m < self.entries().len() && self.entries()[m].0 == k;
                lemma_assoc_index(self.entries(), m);
            }
        }
        true
    }

    /// Whether `forget(word)` takes no total below zero.
    pub fn forget_fits(&self, word: &str) -> (r: bool)
        requires
            self.wf(),
        ensures
            r == can_forget(self@, word_token(word@)),
    {
        let t = Self::normalize_token(word);
        self.all_can_drop(&t, true)
    }

    /// Whether no set of edges weighs the end of a message above its total.
    pub fn ends_fit(&self) -> (r: bool)
        requires
            self.wf(),
        ensures
            r == (forall|k: TokenView| #[trigger] self@.contains_key(k) ==> end_fits(self@[k])),
    {
        self.all_can_drop(&None, false)
    }

    /// The tokens of a message: its words, mentions left out, normalized,
    /// then `None` for its end.
    pub fn parse(msg: &str) -> (toks: Vec<Token>)
        ensures
            toks@.map_values(|t: Token| token_view(t)) == message_tokens(msg@),
    {
        let chars = chars_of(msg);
        let ws = split_words(&chars);
        let ghost wv = ws@.map_values(|w: Vec<char>| w@);
        let mut toks: Vec<Token> = Vec::new();
        let mut i: usize = 0;
        while i < ws.len()
            invariant
                i <= ws.len(),
                wv == ws@.map_values(|w: Vec<char>| w@),
                toks@.map_values(|t: Token| token_view(t)) == word_tokens(wv.take(i as int)),
            decreases ws.len() - i,
        {
            let ghost before = toks@;
            assert(wv.take(i + 1).drop_last() =~= wv.take(i as int));
            assert(wv.take(i + 1).last() == ws@[i as int]@);
            if !is_mention_chars(&ws[i]) {
                let s = normalize_chars(&ws[i]);
                toks.push(Some(s));
                assert(toks@.map_values(|t: Token| token_view(t)) =~= before.map_values(
                    |t: Token| token_view(t),
                ).push(Some(s@)));
            }
            i += 1;
        }
        assert(wv.take(i as int) =~= wv);
        let ghost before = toks@;
        toks.push(None);
        assert(toks@.map_values(|t: Token| token_view(t)) =~= before.map_values(
            |t: Token| token_view(t),
        ).push(None));
        toks
    }
}

} // verus!
