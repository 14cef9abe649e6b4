//! Lexemes of query input and their resolution. `TokenQueue` is a
//! fixed-capacity, append-only substitute for a growable vector of tokens;
//! `render_and_write` resolves homophone choices with bounded forward
//! lookahead and renders the final text, demoting consumed candidate tokens
//! in place and never reordering.

use crate::constants::BUF_SIZE;
use crate::dialects;
use crate::dialects::Writer;
use crate::vocab;
use vstd::prelude::*;

verus! {

/// One lexeme of the query: an unambiguous dictionary match, an ambiguous
/// (open-choice) dictionary match, a candidate character (space or ASCII
/// digit 1-9) that may later resolve a choice, a generic pass-through
/// character, or a consumed (skipped) slot.
#[derive(Copy, Clone)]
pub enum Token {
    CiOne(dialects::CiyuIndex),
    CiOpenChoice(dialects::CiyuIndex),
    MaybeChoice(char),
    Other(char),
    Skip,
}

/// A token the matcher can produce: indexes lie within the dictionary, an
/// open choice really has alternatives to choose from, and a candidate
/// character really picks something.
pub open spec fn token_wf(t: Token) -> bool {
    match t {
        Token::CiOne(i) => (i as int) < vocab::dict_len(),
        Token::CiOpenChoice(i) => (i as int) < vocab::dict_len() && vocab::alts(
            vocab::dict_entry(i as int),
        ).len() >= 2,
        Token::MaybeChoice(c) => vocab::pick_of(c) >= 1,
        Token::Other(_) => true,
        Token::Skip => true,
    }
}

/// Every token of a sequence is well-formed.
pub open spec fn toks_wf(ts: Seq<Token>) -> bool {
    forall|k: int| 0 <= k < ts.len() ==> token_wf(#[trigger] ts[k])
}

/// Whether token `t` resolves an open choice among `n` alternatives.
pub open spec fn is_resolver(t: Token, n: int) -> bool {
    match t {
        Token::MaybeChoice(c) => 1 <= vocab::pick_of(c) <= n,
        _ => false,
    }
}

/// The candidate character a token carries.
pub open spec fn resolver_char(t: Token) -> char {
    match t {
        Token::MaybeChoice(c) => c,
        _ => ' ',
    }
}

/// Position of the first token at or after `j` that resolves a choice among
/// `n` alternatives, if any.
pub open spec fn find_resolver(ts: Seq<Token>, j: int, n: int) -> Option<int>
    decreases ts.len() - j,
{
    if j < 0 || j >= ts.len() {
        None
    } else if is_resolver(ts[j], n) {
        Some(j)
    } else {
        find_resolver(ts, j + 1, n)
    }
}

/// What rendering the queue from position `pos` on writes, exactly:
/// - an unambiguous match writes its word and absorbs an immediately
///   following space candidate as a word boundary;
/// - an ambiguous match looks ahead for the first candidate that picks one
///   of its alternatives, writes that alternative and demotes the candidate,
///   or writes the full numbered prompt when no candidate resolves it;
/// - an unconsumed candidate and a pass-through character write themselves;
/// - a skipped slot writes nothing.
pub open spec fn render_model(ts: Seq<Token>, pos: int) -> Seq<char>
    decreases ts.len() - pos,
        via render_model_decreases
{
    if pos < 0 || pos >= ts.len() {
        Seq::empty()
    } else {
        match ts[pos] {
            Token::CiOne(i) => vocab::dict_entry(i as int) + (if pos + 1 < ts.len() && ts[pos + 1]
                == Token::MaybeChoice(' ') {
                render_model(ts.update(pos + 1, Token::Skip), pos + 1)
            } else {
                render_model(ts, pos + 1)
            }),
            Token::CiOpenChoice(i) => {
                let e = vocab::dict_entry(i as int);
                match find_resolver(ts, pos + 1, vocab::alts(e).len() as int) {
                    Some(j) => vocab::choice_emit(e, resolver_char(ts[j])) + render_model(
                        ts.update(j, Token::Skip),
                        pos + 1,
                    ),
                    None => vocab::prompt_of(e) + render_model(ts, pos + 1),
                }
            },
            Token::MaybeChoice(c) => seq![c] + render_model(ts, pos + 1),
            Token::Other(c) => seq![c] + render_model(ts, pos + 1),
            Token::Skip => render_model(ts, pos + 1),
        }
    }
}

/// A found resolver position lies within the sequence, at or after where
/// the search began, and really resolves.
pub proof fn lemma_find_resolver_range(ts: Seq<Token>, j: int, n: int)
    ensures
        find_resolver(ts, j, n) matches Some(w) ==> j <= w < ts.len() && is_resolver(ts[w], n),
    decreases ts.len() - j,
{
    if j < 0 || j >= ts.len() {
    } else if is_resolver(ts[j], n) {
    } else {
        lemma_find_resolver_range(ts, j + 1, n);
    }
}

#[via_fn]
proof fn render_model_decreases(ts: Seq<Token>, pos: int) {
    if 0 <= pos < ts.len() {
        if let Token::CiOpenChoice(i) = ts[pos] {
            lemma_find_resolver_range(
                ts,
                pos + 1,
                vocab::alts(vocab::dict_entry(i as int)).len() as int,
            );
        }
    }
}

/// Fixed-capacity queue of tokens, append-only; a slot may later be demoted
/// to `Skip` in place, but tokens are never reordered.
pub struct TokenQueue {
    pub queue: Vec<Token>,
    pub count: usize,
}

impl TokenQueue {
    /// The tokens pushed so far.
    pub open spec fn toks(&self) -> Seq<Token> {
        self.queue@.take(self.count as int)
    }

    /// The storage has the fixed capacity and the count lies within it.
    pub open spec fn wf(&self) -> bool {
        self.queue@.len() == BUF_SIZE && self.count <= BUF_SIZE
    }

    /// An empty queue.
    pub fn new() -> (r: TokenQueue)
        ensures
            r.wf(),
            r.count == 0,
            r.toks() == Seq::<Token>::empty(),
    {
        let r = TokenQueue { queue: vec![Token::Skip; BUF_SIZE], count: 0 };
        proof {
            assert(r.toks() =~= Seq::<Token>::empty());
        }
        r
    }

    /// Add a token. Push beyond capacity is a defined non-fatal failure:
    /// the token is dropped and `false` returned.
    pub fn push(&mut self, tk: Token) -> (ok: bool)
        requires
            old(self).wf(),
        ensures
            final(self).wf(),
            ok == (old(self).count < BUF_SIZE),
            ok ==> final(self).count == old(self).count + 1 && final(self).toks() == old(
                self,
            ).toks().push(tk),
            !ok ==> *final(self) == *old(self),
    {
        if self.count < BUF_SIZE {
            self.queue.set(self.count, tk);
            self.count = self.count + 1;
            proof {
                assert(self.toks() =~= old(self).toks().push(tk));
            }
            true
        } else {
            false
        }
    }

    /// Iterate through the tokens, resolve choices by bounded forward
    /// lookahead, and render the final text into the sink — a single forward
    /// pass, demoting consumed candidates in place. What is written is
    /// exactly `render_model` of the queue's tokens; the queue keeps its
    /// count, each slot either unchanged or demoted to `Skip`.
    pub fn render_and_write<W: Writer>(&mut self, sink: &mut W)
        requires
            old(self).wf(),
            toks_wf(old(self).toks()),
            old(sink).wf(),
        ensures
            final(self).wf(),
            final(self).count == old(self).count,
            final(sink).wf(),
            final(sink).written() == old(sink).written() + render_model(old(self).toks(), 0),
            forall|k: int|
                0 <= k < final(self).toks().len() ==> final(self).toks()[k] == old(self).toks()[k]
                    || final(self).toks()[k] == Token::Skip,
    {
        let ghost ts0 = self.toks();
        let ghost fed0 = sink.written();
        let ghost mut emitted: Seq<char> = Seq::empty();
        let mut current: usize = 0;
        while current < self.count
            invariant
                self.wf(),
                toks_wf(self.toks()),
                sink.wf(),
                current <= self.count == old(self).count,
                sink.written() == fed0 + emitted,
                render_model(ts0, 0) == emitted + render_model(self.toks(), current as int),
                fed0 == old(sink).written(),
                ts0 == old(self).toks(),
                forall|k: int|
                    0 <= k < self.toks().len() ==> self.toks()[k] == ts0[k] || self.toks()[k]
                        == Token::Skip,
            decreases self.count - current,
        {
            let ghost ts_cur = self.toks();
            let ghost fed_cur = sink.written();
            match self.queue[current] {
                // CiOne: a clear pinyin match for exactly one entry.
                Token::CiOne(ciyu_i) => {
                    sink.write(vocab::ciyu_str(ciyu_i));
                    // Look ahead for an adjacent space that separates this
                    // entry's pinyin from the next: consume it as a word
                    // boundary.
                    let mut absorbed = false;
                    if current + 1 < self.count {
                        if let Token::MaybeChoice(tk) = self.queue[current + 1] {
                            if tk == ' ' {
                                self.queue.set(current + 1, Token::Skip);
                                absorbed = true;
                            }
                        }
                    }
                    proof {
                        let chunk = vocab::dict_entry(ciyu_i as int);
                        if absorbed {
                            assert(self.toks() =~= ts_cur.update(current + 1, Token::Skip));
                            assert(render_model(ts_cur, current as int) == chunk + render_model(
                                self.toks(),
                                current + 1,
                            ));
                        } else {
                            assert(render_model(ts_cur, current as int) == chunk + render_model(
                                self.toks(),
                                current + 1,
                            ));
                        }
                        emitted = emitted + chunk;
                        assert(render_model(ts0, 0) =~= emitted + render_model(
                            self.toks(),
                            current + 1,
                        ));
                    }
                },
                // CiOpenChoice: an ambiguous pinyin match over a set of
                // homophone entries; further input must pick one.
                Token::CiOpenChoice(ciyu_i) => {
                    let ciyu = vocab::ciyu_str(ciyu_i);
                    let ghost e = vocab::dict_entry(ciyu_i as int);
                    let ghost n = vocab::alts(e).len() as int;
                    let mut choice_resolved = false;
                    let mut j = current + 1;
                    while j < self.count && !choice_resolved
                        invariant
                            self.wf(),
                            toks_wf(self.toks()),
                            sink.wf(),
                            self.count == old(self).count,
                            current < self.count,
                            current + 1 <= j <= self.count,
                            e == vocab::dict_entry(ciyu_i as int),
                            (ciyu_i as int) < vocab::dict_len(),
                            ciyu@ == e,
                            n == vocab::alts(e).len() as int,
                            n >= 2,
                            if choice_resolved {
                                find_resolver(ts_cur, current + 1, n) matches Some(w) && current
                                    + 1 <= w < self.count && j == w + 1 && self.toks()
                                    == ts_cur.update(w, Token::Skip) && sink.written() == fed_cur
                                    + vocab::choice_emit(e, resolver_char(ts_cur[w]))
                            } else {
                                &&& find_resolver(ts_cur, current + 1, n) == find_resolver(
                                    ts_cur,
                                    j as int,
                                    n,
                                )
                                &&& self.toks() == ts_cur
                                &&& sink.written() == fed_cur
                            },
                        decreases self.count - j,
                    {
                        if let Token::MaybeChoice(tk) = self.queue[j] {
                            match dialects::expand_choice_and_write(ciyu, tk, sink) {
                                dialects::ExpandChoiceResult::WasChoice => {
                                    self.queue.set(j, Token::Skip);
                                    choice_resolved = true;
                                    proof {
                                        assert(self.toks() =~= ts_cur.update(j as int, Token::Skip));
                                    }
                                },
                                dialects::ExpandChoiceResult::WasNotChoice => {},
                            }
                        }
                        j += 1;
                    }
                    if !choice_resolved {
                        // No candidate resolved the choice: prompt for one.
                        let _ = dialects::expand_choice_and_write(ciyu, '0', sink);
                        proof {
                            assert(vocab::pick_of('0') == 0);
                            assert(find_resolver(ts_cur, current + 1, n) is None);
                            assert(sink.written() == fed_cur + vocab::prompt_of(e));
                        }
                    }
                    proof {
                        match find_resolver(ts_cur, current + 1, n) {
                            Some(w) => {
                                emitted = emitted + vocab::choice_emit(e, resolver_char(ts_cur[w]));
                            },
                            None => {
                                emitted = emitted + vocab::prompt_of(e);
                            },
                        }
                        assert(render_model(ts0, 0) =~= emitted + render_model(
                            self.toks(),
                            current + 1,
                        ));
                    }
                },
                // MaybeChoice: a space or digit passed through unchanged
                // because no lookahead consumed it.
                Token::MaybeChoice(tk) => {
                    let s = dialects::char_string(tk);
                    sink.write(s.as_str());
                    proof {
                        emitted = emitted + seq![tk];
                        assert(render_model(ts0, 0) =~= emitted + render_model(
                            self.toks(),
                            current + 1,
                        ));
                    }
                },
                // Other: upper-case letters, emoji, anything unmatched.
                Token::Other(tk) => {
                    let s = dialects::char_string(tk);
                    sink.write(s.as_str());
                    proof {
                        emitted = emitted + seq![tk];
                        assert(render_model(ts0, 0) =~= emitted + render_model(
                            self.toks(),
                            current + 1,
                        ));
                    }
                },
                // Skip: consumed by an earlier lookahead; writes nothing.
                Token::Skip => {
                    proof {
                        assert(render_model(ts0, 0) =~= emitted + render_model(
                            self.toks(),
                            current + 1,
                        ));
                    }
                },
            }
            current += 1;
        }
        proof {
            assert(render_model(self.toks(), self.count as int) =~= Seq::<char>::empty());
            assert(sink.written() =~= old(sink).written() + render_model(old(self).toks(), 0));
        }
    }
}

/// A token that renders as one character: an unconsumed candidate or a
/// pass-through character.
pub open spec fn literal_token(t: Token) -> bool {
    t is MaybeChoice || t is Other
}

/// The character a literal token renders as.
pub open spec fn literal_char(t: Token) -> char {
    match t {
        Token::MaybeChoice(c) => c,
        Token::Other(c) => c,
        _ => ' ',
    }
}

/// A queue of literal tokens alone renders as exactly its characters, in
/// order.
pub proof fn lemma_render_literal_tokens(ts: Seq<Token>, pos: int)
    requires
        forall|k: int| 0 <= k < ts.len() ==> literal_token(#[trigger] ts[k]),
        0 <= pos <= ts.len(),
    ensures
        render_model(ts, pos) == Seq::new((ts.len() - pos) as nat, |k: int| literal_char(ts[pos + k])),
    decreases ts.len() - pos,
{
    if pos < ts.len() {
        lemma_render_literal_tokens(ts, pos + 1);
        assert(render_model(ts, pos) =~= Seq::new(
            (ts.len() - pos) as nat,
            |k: int| literal_char(ts[pos + k]),
        ));
    } else {
        assert(render_model(ts, pos) =~= Seq::new(
            (ts.len() - pos) as nat,
            |k: int| literal_char(ts[pos + k]),
        ));
    }
}

/// Law: an open choice followed by one candidate resolves per the protocol:
/// a pick within the alternatives writes that alternative and consumes the
/// candidate; a pick beyond them leaves the candidate unconsumed — the full
/// prompt is written and the candidate then passes through; and with no
/// candidate at all, the full prompt is written.
pub proof fn lemma_open_choice_resolution(i: int, c: char)
    requires
        0 <= i < vocab::dict_len(),
        vocab::alts(vocab::dict_entry(i)).len() >= 2,
        vocab::pick_of(c) >= 1,
    ensures
        ({
            let e = vocab::dict_entry(i);
            let n = vocab::alts(e).len() as int;
            let ts = seq![Token::CiOpenChoice(i as usize), Token::MaybeChoice(c)];
            &&& (vocab::pick_of(c) <= n ==> render_model(ts, 0) == vocab::alts(e)[vocab::pick_of(c)
                - 1])
            &&& (vocab::pick_of(c) > n ==> render_model(ts, 0) == vocab::prompt_of(e) + seq![c])
            &&& render_model(seq![Token::CiOpenChoice(i as usize)], 0) == vocab::prompt_of(e)
        }),
{
    let e = vocab::dict_entry(i);
    let n = vocab::alts(e).len() as int;
    let ts = seq![Token::CiOpenChoice(i as usize), Token::MaybeChoice(c)];
    let ts1 = seq![Token::CiOpenChoice(i as usize)];
    assert(find_resolver(ts1, 1, n) is None);
    assert(render_model(ts1, 1) =~= Seq::<char>::empty());
    assert(render_model(ts1, 0) =~= vocab::prompt_of(e));
    if vocab::pick_of(c) <= n {
        assert(is_resolver(ts[1], n));
        assert(find_resolver(ts, 1, n) == Some(1int));
        let tsu = ts.update(1, Token::Skip);
        assert(render_model(tsu, 2) =~= Seq::<char>::empty());
        assert(render_model(tsu, 1) =~= Seq::<char>::empty());
        assert(vocab::choice_emit(e, c) == vocab::alts(e)[vocab::pick_of(c) - 1]);
        assert(render_model(ts, 0) =~= vocab::alts(e)[vocab::pick_of(c) - 1]);
    } else {
        assert(!is_resolver(ts[1], n));
        assert(find_resolver(ts, 2, n) is None);
        assert(find_resolver(ts, 1, n) is None);
        assert(render_model(ts, 2) =~= Seq::<char>::empty());
        assert(render_model(ts, 1) =~= seq![c]);
        assert(render_model(ts, 0) =~= vocab::prompt_of(e) + seq![c]);
    }
}

} // verus!
