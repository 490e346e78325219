//! Answering a message: a random walk along the chain from the message's
//! last word.
use vstd::prelude::*;

use crate::brain::{Brain, BrainView};
use crate::chance::{index_below, new_rng, roll_percent, send_typing, TypingSender};
use crate::edges::{
    can_pick, clone_token, end_fits, may_miss, token_view, Token, TokenView,
};
use crate::text::{
    all_ws, chars_of, is_blank, join_with_spaces, join_words, normalize, normalize_chars,
    split_words, utf16_len, utf16_shorter_than, words,
};

verus! {

/// A reply holds at most this many words, plus one.
pub const MAX_TOKENS: usize = 20;

/// A reply this long (in UTF-16 code units) or longer is not sent.
pub const MAX_REPLY_UNITS: usize = 2000;

/// The normalized last word of a message, if it has a word.
pub open spec fn final_word(msg: Seq<char>) -> Option<Seq<char>> {
    if words(msg).len() == 0 {
        None
    } else {
        Some(normalize(words(msg).last()))
    }
}

/// A token a reply to `msg` can start from: the message's last word, or any
/// known token when the message has no word.
pub open spec fn valid_start(b: BrainView, msg: Seq<char>, start: TokenView) -> bool {
    match final_word(msg) {
        Some(w) => start == Some(w),
        None => b.contains_key(start),
    }
}

/// Sampling without the end, from any token a reply to `msg` can start
/// from, takes no total below zero.
pub open spec fn start_fits(b: BrainView, msg: Seq<char>) -> bool {
    match final_word(msg) {
        Some(w) => b.contains_key(Some(w)) ==> end_fits(b[Some(w)]),
        None => forall|k: TokenView| #[trigger] b.contains_key(k) ==> end_fits(b[k]),
    }
}

/// The first step from `start` can fall back to a random known token: the
/// start is unknown or its sampling can come out empty.
pub open spec fn may_fall_back(b: BrainView, start: TokenView) -> bool {
    !b.contains_key(start) || may_miss(b[start], false)
}

/// `w` can be the first word of a reply from `start`.
pub open spec fn first_step(b: BrainView, start: TokenView, w: Seq<char>) -> bool {
    (b.contains_key(start) && can_pick(b[start], false, Some(w))) || (may_fall_back(b, start)
        && b.contains_key(Some(w)))
}

/// The first step from `start` can give no word.
pub open spec fn first_step_may_end(b: BrainView, start: TokenView) -> bool {
    may_fall_back(b, start) && (b.dom().is_empty() || b.contains_key(None))
}

/// `w` can follow `cur` in a reply.
pub open spec fn next_step(b: BrainView, cur: Seq<char>, w: Seq<char>) -> bool {
    b.contains_key(Some(cur)) && can_pick(b[Some(cur)], true, Some(w))
}

/// A reply can stop after `cur`: it is unknown, the end followed it, or its
/// sampling can come out empty.
pub open spec fn may_stop(b: BrainView, cur: Seq<char>) -> bool {
    !b.contains_key(Some(cur)) || can_pick(b[Some(cur)], true, None) || may_miss(
        b[Some(cur)],
        true,
    )
}

/// `chain` is a walk a reply from `start` can take: a possible first word,
/// each next word a possible follower, and a stop where one can happen or
/// at the length limit.
pub open spec fn reply_walk(b: BrainView, start: TokenView, chain: Seq<Seq<char>>) -> bool {
    &&& chain.len() <= MAX_TOKENS + 1
    &&& chain.len() == 0 ==> first_step_may_end(b, start)
    &&& chain.len() > 0 ==> first_step(b, start, chain[0])
    &&& forall|i: int| 0 <= i < chain.len() - 1 ==> next_step(b, #[trigger] chain[i], chain[i + 1])
    &&& 0 < chain.len() <= MAX_TOKENS ==> may_stop(b, chain.last())
}

/// A reply that is sent: not blank, and shorter than the message limit.
pub open spec fn acceptable_reply(s: Seq<char>) -> bool {
    !all_ws(s) && utf16_len(s) < MAX_REPLY_UNITS
}

/// What `respond` can give when it makes its walk.
pub open spec fn walk_outcome(b: BrainView, msg: Seq<char>, r: Option<Seq<char>>) -> bool {
    exists|start: TokenView, chain: Seq<Seq<char>>|
        #![trigger reply_walk(b, start, chain)]
        valid_start(b, msg, start) && reply_walk(b, start, chain) && match r {
            Some(s) => chain.len() > 0 && s == join_words(chain) && acceptable_reply(s),
            None => chain.len() == 0 || !acceptable_reply(join_words(chain)),
        }
}

/// What `respond` can give when it makes its walk, and whether the walk
/// chose a first word (`typed`).
pub open spec fn typed_walk_outcome(
    b: BrainView,
    msg: Seq<char>,
    r: Option<Seq<char>>,
    typed: bool,
) -> bool {
    exists|start: TokenView, chain: Seq<Seq<char>>|
        #![trigger reply_walk(b, start, chain)]
        valid_start(b, msg, start) && reply_walk(b, start, chain) && typed == (chain.len() > 0)
            && match r {
            Some(s) => chain.len() > 0 && s == join_words(chain) && acceptable_reply(s),
            None => chain.len() == 0 || !acceptable_reply(join_words(chain)),
        }
}

/// A reply roll of `roll` answers the message.
pub open spec fn roll_answers(roll: u8, is_self: bool) -> bool {
    roll <= if is_self {
        45u8
    } else {
        80u8
    }
}

pub open spec fn string_opt_view(r: Option<String>) -> Option<Seq<char>> {
    match r {
        Some(s) => Some(s@),
        None => None,
    }
}

impl Brain {
    /// The chance, in percent, of answering a message: lower for the bot's own.
    fn reply_chance(is_self: bool) -> (c: u8)
        ensures
            c == if is_self {
                45u8
            } else {
                80u8
            },
    {
        if is_self {
            45
        } else {
            80
        }
    }

    /// Whether a reply roll of `roll` (out of 0..=100) answers the message:
    /// the roll is at most the chance.
    pub fn reply_roll_passes(roll: u8, is_self: bool) -> (r: bool)
        ensures
            r == roll_answers(roll, is_self),
    {
        roll <= Self::reply_chance(is_self)
    }

    /// The normalized last word of a message.
    fn extract_final_word(msg: &str) -> (r: Option<String>)
        ensures
            string_opt_view(r) == final_word(msg@),
    {
        let chars = chars_of(msg);
        let ws = split_words(&chars);
        proof {
            assert(ws@.map_values(|w: Vec<char>| w@).len() == ws.len());
        }
        if ws.len() == 0 {
            None
        } else {
            let last = ws.len() - 1;
            proof {
                assert(ws@.map_values(|w: Vec<char>| w@)[last as int] == ws@[last as int]@);
            }
            Some(normalize_chars(&ws[last]))
        }
    }

    /// A known token picked at random, or nothing from an empty brain.
    fn random_token(&self, rng: &mut fastrand::Rng) -> (r: Option<Token>)
        requires
            self.wf(),
        ensures
            r is None <==> self@.dom().is_empty(),
            r matches Some(t) ==> self@.contains_key(token_view(t)),
    {
        let len = self.word_count();
        if len == 0 {
            proof {
                self.lemma_view_finite();
                assert(self@.dom() =~= Set::empty());
            }
            None
        } else {
            let i = index_below(rng, len);
            let t = clone_token(self.key_at(i));
            proof {
                assert(self@.dom().contains(token_view(t)));
            }
            Some(t)
        }
    }

    /// The token after `tok`: sampled from its edges if it has any that
    /// come out; else, where the end is not allowed, a random known token.
    fn next_from(&self, tok: &Token, rng: &mut fastrand::Rng, allow_end: bool) -> (r: Option<Token>)
        requires
            self.wf(),
            allow_end || (self@.contains_key(token_view(*tok)) ==> end_fits(self@[token_view(*tok)])),
        ensures
            r matches Some(t) ==> (self@.contains_key(token_view(*tok)) && can_pick(
                self@[token_view(*tok)],
                allow_end,
                token_view(t),
            )) || (!allow_end && may_fall_back(self@, token_view(*tok)) && self@.contains_key(
                token_view(t),
            )),
            r is None ==> if allow_end {
                !self@.contains_key(token_view(*tok)) || may_miss(self@[token_view(*tok)], true)
            } else {
                may_fall_back(self@, token_view(*tok)) && self@.dom().is_empty()
            },
    {
        if let Some(e) = self.edges_for(tok) {
            let (s, _roll) = e.sample(rng, allow_end);
            if let Some(i) = s {
                return Some(clone_token(e.token_at(i)));
            }
        }
        if allow_end {
            None
        } else {
            self.random_token(rng)
        }
    }

    /// Whether `respond(msg, ..)` samples only edges whose end weight fits
    /// their total.
    pub fn respond_fits(&self, msg: &str) -> (r: bool)
        requires
            self.wf(),
        ensures
            r == start_fits(self@, msg@),
    {
        match Self::extract_final_word(msg) {
            Some(w) => {
                let t: Token = Some(w);
                match self.edges_for(&t) {
                    Some(e) => match e.weight_of(&None) {
                        Some(end) => end as u64 <= e.total(),
                        None => true,
                    },
                    None => true,
                }
            },
            None => self.ends_fit(),
        }
    }

    /// A reply to `msg`, unless the reply roll fails (it is made only when
    /// `force_reply` is off and the brain does not answer always).
    ///
    /// The reply starts from the message's last word (a random known token
    /// if the message has none) and walks the chain, each next word sampled
    /// by weight, until the end of a message comes up or the reply has
    /// `MAX_TOKENS + 1` words. It is sent only if it is not blank and is
    /// shorter than `MAX_REPLY_UNITS`. Once the first word is chosen, `true`
    /// goes to `typing`; if none is, `false` does.
    ///
    /// The roll is drawn from 0..=100; `respond_after_roll` does the rest.
    pub fn respond(
        &self,
        msg: &str,
        is_self: bool,
        force_reply: bool,
        typing: Option<TypingSender>,
    ) -> (r: Option<String>)
        requires
            self.wf(),
            start_fits(self@, msg@),
        ensures
            self@.dom().is_empty() ==> r is None,
            r is Some ==> walk_outcome(self@, msg@, string_opt_view(r)),
            r is None ==> (!force_reply && !self.answers_always()) || (final_word(msg@) is None
                && self@.dom().is_empty()) || walk_outcome(self@, msg@, None),
    {
        let mut rng = new_rng();
        let roll = roll_percent(&mut rng);
        let (r, _sent) = self.respond_after_roll(msg, is_self, force_reply, roll, typing);
        r
    }

    /// What `respond` does once its reply roll came out as `roll`: the
    /// reply, and the value it sent to `typing` (`None` where it sent none).
    ///
    /// Without `force_reply`, a brain that does not answer always answers
    /// only where `reply_roll_passes(roll, is_self)`. A message without a
    /// word, to an empty brain, gets no reply and no signal. Otherwise the
    /// walk is made; `typing`, where given, gets `true` if the walk chose a
    /// first word and `false` if it did not.
    pub fn respond_after_roll(
        &self,
        msg: &str,
        is_self: bool,
        force_reply: bool,
        roll: u8,
        typing: Option<TypingSender>,
    ) -> (r: (Option<String>, Option<bool>))
        requires
            self.wf(),
            start_fits(self@, msg@),
        ensures
            !force_reply && !self.answers_always() && !roll_answers(roll, is_self) ==> r.0 is None
                && r.1 is None,
            final_word(msg@) is None && self@.dom().is_empty() ==> r.0 is None && r.1 is None,
            (force_reply || self.answers_always() || roll_answers(roll, is_self)) && !(final_word(
                msg@,
            ) is None && self@.dom().is_empty()) ==> {
                &&& (typing is Some <==> r.1 is Some)
                &&& walk_outcome(self@, msg@, string_opt_view(r.0))
                &&& r.1 matches Some(v) ==> typed_walk_outcome(
                    self@,
                    msg@,
                    string_opt_view(r.0),
                    v,
                )
            },
    {
        let mut typing = typing;
        let ghost had = typing is Some;
        let mut rng = new_rng();
        if !force_reply && !self.always_reply() && !Self::reply_roll_passes(roll, is_self) {
            return (None, None);
        }
        let start: Token = match Self::extract_final_word(msg) {
            Some(w) => Some(w),
            None => match self.random_token(&mut rng) {
                Some(t) => t,
                None => return (None, None),
            },
        };
        let ghost sv = token_view(start);
        let ghost b = self@;
        assert(valid_start(b, msg@, sv));
        let mut sent: Option<bool> = None;
        let mut chain: Vec<String> = Vec::new();
        let mut current: Token = clone_token(&start);
        loop
            invariant_except_break
                self.wf(),
                b == self@,
                start_fits(b, msg@),
                valid_start(b, msg@, sv),
                chain.len() <= MAX_TOKENS + 1,
                chain.len() == 0 ==> token_view(current) == sv,
                chain.len() > 0 ==> token_view(current) == Some(chain@.last()@),
                chain.len() > 0 ==> first_step(b, sv, chain@[0]@),
                forall|i: int| 0 <= i < chain.len() - 1 ==> next_step(b, #[trigger] chain@[i]@, chain@[i + 1]@),
                had ==> (typing is Some <==> chain.len() == 0),
                !had ==> typing is None,
                sent == (if had && chain.len() > 0 { Some(true) } else { None::<bool> }),
            ensures
                self.wf(),
                b == self@,
                valid_start(b, msg@, sv),
                reply_walk(b, sv, chain@.map_values(|s: String| s@)),
                had ==> (typing is Some <==> chain.len() == 0),
                !had ==> typing is None,
                sent == (if had && chain.len() > 0 { Some(true) } else { None::<bool> }),
            decreases MAX_TOKENS + 1 - chain.len(),
        {
            let ghost cv = chain@.map_values(|s: String| s@);
            assert(cv.len() == chain.len());
            assert forall|i: int| 0 <= i < cv.len() - 1 implies next_step(b, #[trigger] cv[i], cv[i + 1]) by {
                assert(cv[i] == chain@[i]@);
                assert(cv[i + 1] == chain@[i + 1]@);
            }
            if chain.len() > 0 {
                assert(cv[0] == chain@[0]@);
                assert(cv.last() == chain@.last()@);
            }
            proof {
                if chain.len() == 0 {
                    match final_word(msg@) {
                        Some(w) => {},
                        None => {
                            assert(b.contains_key(sv));
                        },
                    }
                }
            }
            let next = self.next_from(&current, &mut rng, chain.len() > 0);
            match next {
                Some(Some(s)) => {
                    if chain.len() > MAX_TOKENS {
                        break;
                    }
                    let ghost before = chain@;
                    chain.push(s.clone());
                    if let Some(tx) = typing.take() {
                        sent = Some(send_typing(tx, true));
                    }
                    current = Some(s);
                    proof {
                        assert(chain@ == before.push(chain@.last()));
                        assert forall|i: int| 0 <= i < chain.len() - 1 implies next_step(b, #[trigger] chain@[i]@, chain@[i + 1]@) by {
                            if i < chain.len() - 2 {
                                assert(chain@[i] == before[i]);
                                assert(chain@[i + 1] == before[i + 1]);
                            } else {
                                assert(chain@[i] == before.last());
                            }
                        }
                        if before.len() > 0 {
                            assert(chain@[0] == before[0]);
                        }
                    }
                },
                _ => {
                    break;
                },
            }
        }
        if let Some(tx) = typing.take() {
            sent = Some(send_typing(tx, false));
        }
        let ghost cv = chain@.map_values(|s: String| s@);
        assert(had ==> sent == Some(chain.len() > 0));
        if chain.len() == 0 {
            assert(walk_outcome(b, msg@, None) && typed_walk_outcome(b, msg@, None, false)) by {
                assert(reply_walk(b, sv, cv));
            }
            return (None, sent);
        }
        let text = join_with_spaces(&chain);
        let chars = chars_of(text.as_str());
        if !is_blank(&chars) && utf16_shorter_than(&chars, MAX_REPLY_UNITS) {
            assert(walk_outcome(b, msg@, Some(text@)) && typed_walk_outcome(b, msg@, Some(text@), true)) by {
                assert(reply_walk(b, sv, cv));
            }
            (Some(text), sent)
        } else {
            assert(walk_outcome(b, msg@, None) && typed_walk_outcome(b, msg@, None, true)) by {
                assert(reply_walk(b, sv, cv));
            }
            (None, sent)
        }
    }
}

} // verus!
