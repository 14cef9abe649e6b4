//! The matching and disambiguation engine: a bounded character-indexed view
//! of the query, the murmur3 keying function, greedy longest-match scanning
//! against the dictionary, and the homophone-choice expansion protocol.

use crate::constants::BUF_SIZE;
use crate::lex;
use crate::m3hash;
use crate::vocab;
use vstd::prelude::*;

verus! {

/// Index of a phrase in the dictionary's entry array.
pub type CiyuIndex = usize;

/// The smaller of two sizes.
fn min(a: usize, b: usize) -> (m: usize)
    ensures
        m as int == vstd::math::min(a as int, b as int),
{
    if a < b {
        a
    } else {
        b
    }
}

/// The first `BUF_SIZE` characters of a query: what the engine sees of it.
pub open spec fn clip(q: Seq<char>) -> Seq<char> {
    q.take(vstd::math::min(q.len() as int, BUF_SIZE as int))
}

/// Utf8Str adds character-boundary metadata to a `&str` to support safe
/// character-indexed slicing: byte offsets of every character boundary are
/// recorded up to a capacity of `BUF_SIZE` characters; characters beyond the
/// capacity are invisible (silent truncation, not an error).
pub struct Utf8Str<'a> {
    pub str_slice: &'a str,
    pub char_start_list: Vec<usize>,
    pub char_end_list: Vec<usize>,
    pub char_count: usize,
}

impl<'a> View for Utf8Str<'a> {
    type V = Seq<char>;

    /// The characters the view can reach: the query clipped to capacity.
    open spec fn view(&self) -> Seq<char> {
        self.str_slice@.take(self.char_count as int)
    }
}

impl<'a> Utf8Str<'a> {
    /// Boundary metadata is consistent: the count is the clipped character
    /// count, both lists have the fixed capacity, and each recorded slot
    /// holds the byte offsets that delimit its character.
    pub open spec fn wf(&self) -> bool {
        &&& self.char_count as int == vstd::math::min(
            self.str_slice@.len() as int,
            BUF_SIZE as int,
        )
        &&& self.char_start_list@.len() == BUF_SIZE
        &&& self.char_end_list@.len() == BUF_SIZE
        &&& forall|k: int|
            0 <= k < self.char_count ==> #[trigger] self.char_start_list@[k]
                == vstd::utf8::encode_utf8(self.str_slice@.take(k)).len()
        &&& forall|k: int|
            0 <= k < self.char_count ==> #[trigger] self.char_end_list@[k]
                == vstd::utf8::encode_utf8(self.str_slice@.take(k + 1)).len()
    }

    /// Record the byte offsets of every character boundary, capped at the
    /// capacity.
    pub fn new(str_slice: &'a str) -> (r: Utf8Str<'a>)
        ensures
            r.wf(),
            r@ == clip(str_slice@),
            r.str_slice@ == str_slice@,
    {
        let mut char_start_list: Vec<usize> = vec![0; BUF_SIZE];
        let mut char_end_list: Vec<usize> = vec![0; BUF_SIZE];
        let full_count = str_slice.unicode_len();
        let char_count = min(full_count, BUF_SIZE);
        let mut acc: usize = 0;
        let mut i: usize = 0;
        while i < char_count
            invariant
                char_count as int == vstd::math::min(str_slice@.len() as int, BUF_SIZE as int),
                char_count <= full_count == str_slice@.len(),
                i <= char_count,
                char_start_list@.len() == BUF_SIZE,
                char_end_list@.len() == BUF_SIZE,
                acc == vstd::utf8::encode_utf8(str_slice@.take(i as int)).len(),
                acc <= 4 * i,
                forall|k: int|
                    0 <= k < i ==> #[trigger] char_start_list@[k] == vstd::utf8::encode_utf8(
                        str_slice@.take(k),
                    ).len(),
                forall|k: int|
                    0 <= k < i ==> #[trigger] char_end_list@[k] == vstd::utf8::encode_utf8(
                        str_slice@.take(k + 1),
                    ).len(),
            decreases char_count - i,
        {
            let c = str_slice.get_char(i);
            char_start_list.set(i, acc);
            let l = m3hash::char_utf8_len(c);
            proof {
                m3hash::lemma_encode_utf8_push(str_slice@.take(i as int), c);
                assert(str_slice@.take(i + 1) =~= str_slice@.take(i as int).push(c));
            }
            acc += l;
            char_end_list.set(i, acc);
            i += 1;
        }
        Utf8Str { str_slice, char_start_list, char_end_list, char_count }
    }

    /// Slice a substring by character range, not bytes. Returns the
    /// substring when the range is non-empty and lies within the recorded
    /// character count; "unavailable" otherwise, never undefined behaviour.
    pub fn char_slice(&self, start: usize, end: usize) -> (r: Option<&str>)
        requires
            self.wf(),
        ensures
            match r {
                Some(sub) => start < end <= self.char_count && sub@ == self@.subrange(
                    start as int,
                    end as int,
                ),
                None => !(start < end <= self.char_count),
            },
    {
        if start < end && end <= self.char_count {
            let sub = self.str_slice.substring_char(start, end);
            proof {
                assert(self.str_slice@.subrange(start as int, end as int) =~= self@.subrange(
                    start as int,
                    end as int,
                ));
            }
            Some(sub)
        } else {
            None
        }
    }
}

/// Murmur3 hash of a string; the Unicode ordinal value of each character is
/// one u32 block, and the byte count is the length counter.
pub fn murmur3(key: &str, seed: u32) -> (h: u32)
    ensures
        h == m3hash::spec_murmur3(key@, seed),
{
    let n = key.unicode_len();
    let h0 = m3hash::hash_chars(key, seed, n);
    proof {
        assert(key@.take(n as int) =~= key@);
    }
    let bytes = key.len();
    let length: u32 = ((bytes as u64) % 0x1_0000_0000) as u32;
    m3hash::finalize(h0, length)
}

/// A single-character string, for writing one character to a sink.
/// Relies on std's `String::push`: it appends exactly the given character.
#[verifier::external_body]
pub(crate) fn char_string(c: char) -> (s: String)
    ensures
        s@ == seq![c],
{
    let mut s = String::new();
    s.push(c);
    s
}

/// Writer decouples query response formatting from stream IO details. Its
/// model is the full text ever written to it (`written`); what a bounded
/// implementation managed to keep is its own affair (`out`).
pub trait Writer {
    /// All text ever handed to `write`, in order.
    spec fn written(&self) -> Seq<char>;

    /// What `to_s` reads back.
    spec fn out(&self) -> Seq<char>;

    /// The implementation's internal consistency.
    spec fn wf(&self) -> bool;

    /// Append a message to the result.
    fn write(&mut self, message: &str)
        requires
            old(self).wf(),
        ensures
            final(self).wf(),
            final(self).written() == old(self).written() + message@,
    ;

    /// Report a diagnostic code for an invariant-violation branch; never
    /// changes the result text.
    fn trace(&mut self, trace_code: i32)
        requires
            old(self).wf(),
        ensures
            final(self).wf(),
            final(self).written() == old(self).written(),
    ;

    /// The accumulated result.
    fn to_s(&self) -> (r: &str)
        requires
            self.wf(),
        ensures
            r@ == self.out(),
    ;
}

/// What a bounded byte buffer keeps of text written to it: characters are
/// kept while their encodings fit; the first character that does not fit
/// fills the buffer with a partial encoding and poisons it; everything after
/// is dropped.
pub open spec fn sink_step(st: (Seq<char>, int, bool), c: char) -> (Seq<char>, int, bool) {
    let l = m3hash::char_len(c);
    if st.1 + l <= BUF_SIZE as int {
        (st.0.push(c), st.1 + l, st.2)
    } else if st.1 < BUF_SIZE as int {
        (st.0, BUF_SIZE as int, true)
    } else {
        st
    }
}

/// Fold of `sink_step` over everything written: (kept text, bytes used,
/// poisoned).
pub open spec fn sink_fold(w: Seq<char>) -> (Seq<char>, int, bool)
    decreases w.len(),
{
    if w.len() == 0 {
        (Seq::empty(), 0, false)
    } else {
        sink_step(sink_fold(w.drop_last()), w.last())
    }
}

/// BufWriter is a Writer backed by a buffer of `BUF_SIZE` bytes. Overflow
/// truncates silently; a write cut off in the middle of one character's
/// encoding leaves the buffer malformed, and reading it back then yields the
/// empty string.
pub struct BufWriter {
    buf: String,
    buf_pos: usize,
    poisoned: bool,
    written: Ghost<Seq<char>>,
}

impl BufWriter {
    /// Return an empty buffer ready for use.
    pub fn new() -> (r: BufWriter)
        ensures
            r.wf(),
            r.written() == Seq::<char>::empty(),
            r.out() == Seq::<char>::empty(),
    {
        let r = BufWriter {
            buf: String::new(),
            buf_pos: 0,
            poisoned: false,
            written: Ghost(Seq::empty()),
        };
        r
    }

    /// Truncate the buffer back to empty.
    pub fn rewind(&mut self)
        ensures
            final(self).wf(),
            final(self).written() == Seq::<char>::empty(),
            final(self).out() == Seq::<char>::empty(),
    {
        self.buf = String::new();
        self.buf_pos = 0;
        self.poisoned = false;
        self.written = Ghost(Seq::empty());
    }
}

impl Writer for BufWriter {
    closed spec fn written(&self) -> Seq<char> {
        self.written@
    }

    /// The kept prefix, or nothing at all when a character's encoding was
    /// cut off (the buffer is then not valid UTF-8).
    closed spec fn out(&self) -> Seq<char> {
        if self.poisoned {
            Seq::empty()
        } else {
            self.buf@
        }
    }

    closed spec fn wf(&self) -> bool {
        sink_fold(self.written@) == (self.buf@, self.buf_pos as int, self.poisoned)
    }

    /// Append a message, dropping whatever exceeds the buffer's capacity.
    fn write(&mut self, message: &str) {
        let n = message.unicode_len();
        let mut i: usize = 0;
        while i < n
            invariant
                i <= n == message@.len(),
                sink_fold(old(self).written@ + message@.take(i as int)) == (
                    self.buf@,
                    self.buf_pos as int,
                    self.poisoned,
                ),
                self.written@ == old(self).written@,
            decreases n - i,
        {
            let c = message.get_char(i);
            let l = m3hash::char_utf8_len(c);
            proof {
                let w = old(self).written@ + message@.take(i as int);
                assert((old(self).written@ + message@.take(i + 1)).drop_last() =~= w);
                assert((old(self).written@ + message@.take(i + 1)).last() == message@[i as int]);
            }
            if self.buf_pos <= BUF_SIZE - l && l <= BUF_SIZE {
                let piece = message.substring_char(i, i + 1);
                proof {
                    assert(piece@ =~= seq![message@[i as int]]);
                    assert(self.buf@ + piece@ =~= self.buf@.push(message@[i as int]));
                }
                self.buf.append(piece);
                self.buf_pos = self.buf_pos + l;
            } else if self.buf_pos < BUF_SIZE {
                self.buf_pos = BUF_SIZE;
                self.poisoned = true;
            }
            i += 1;
        }
        proof {
            assert(old(self).written@ + message@.take(n as int) =~= old(self).written@ + message@);
        }
        self.written = Ghost(self.written@ + message@);
    }

    /// Diagnostics are ignored by the in-memory buffer.
    fn trace(&mut self, _trace_code: i32) {
    }

    /// The buffer's contents; empty when the buffer holds a cut-off
    /// character encoding.
    fn to_s(&self) -> (r: &str) {
        if self.poisoned {
            proof {
                reveal_strlit("");
            }
            let r = "";
            assert(r@ =~= Seq::<char>::empty());
            r
        } else {
            self.buf.as_str()
        }
    }
}

/// Was the candidate character used up to resolve a choice?
pub enum ExpandChoiceResult {
    WasChoice,
    WasNotChoice,
}

/// The one-character label written before alternative `i` of a prompt.
fn label_str(i: usize) -> (s: &'static str)
    ensures
        s@ == seq![vocab::label_char(i as int)],
{
    proof {
        reveal_strlit("1");
        reveal_strlit("2");
        reveal_strlit("3");
        reveal_strlit("4");
        reveal_strlit("5");
        reveal_strlit("6");
        reveal_strlit("7");
        reveal_strlit("8");
        reveal_strlit("9");
    }
    let s = match i {
        0 => "1",
        1 => "2",
        2 => "3",
        3 => "4",
        4 => "5",
        5 => "6",
        6 => "7",
        7 => "8",
        _ => "9",
    };
    proof {
        assert(s@ =~= seq![vocab::label_char(i as int)]);
    }
    s
}

/// Render a multi-alternative entry as a resolved choice or as a prompt for
/// one, exactly as `choice_emit` states: a candidate that picks an
/// alternative in range writes it and is reported consumed; one that picks
/// out of range writes nothing; one that picks nothing writes the full
/// numbered prompt. A single-alternative entry is written as it stands (a
/// diagnostic is traced: such an entry should never be flagged ambiguous)
/// and never produces a prompt.
pub fn expand_choice_and_write<W: Writer>(ciyu: &str, maybe_choice: char, sink: &mut W) -> (r:
    ExpandChoiceResult)
    requires
        old(sink).wf(),
    ensures
        final(sink).wf(),
        final(sink).written() == old(sink).written() + vocab::choice_emit(ciyu@, maybe_choice),
        (r is WasChoice <==> (vocab::alts(ciyu@).len() >= 2 && 1 <= vocab::pick_of(maybe_choice)
            <= vocab::alts(ciyu@).len())),
{
    let ghost fed0 = sink.written();
    let ghost a = vocab::alts(ciyu@);
    let parts = vocab::split_alts(ciyu);
    let n = parts.len();
    proof {
        vocab::lemma_alts_count(ciyu@);
    }
    if n == 1 {
        // A lone alternative despite the ambiguous flag: trace and recover.
        sink.trace(901);
        sink.write(ciyu);
        return ExpandChoiceResult::WasNotChoice;
    }
    let pick: usize = match maybe_choice {
        ' ' => 1,  // Spacebar picks the default option (label 1)
        '1' => 1,
        '2' => 2,
        '3' => 3,
        '4' => 4,
        '5' => 5,
        '6' => 6,
        '7' => 7,
        '8' => 8,
        '9' => 9,
        _ => 0,
    };
    proof {
        assert(pick as int == vocab::pick_of(maybe_choice));
    }
    if pick > 0 {
        if pick <= n {
            sink.write(parts[pick - 1]);
            return ExpandChoiceResult::WasChoice;
        }
        // Out of range for a possible choice: write nothing, so that the
        // caller keeps looking and the full prompt is not duplicated.
        proof {
            assert(fed0 + vocab::choice_emit(ciyu@, maybe_choice) =~= fed0);
        }
        return ExpandChoiceResult::WasNotChoice;
    }
    // No pick: show all choices.
    proof {
        reveal_strlit(" (");
        reveal_strlit(") ");
        reveal_strlit(" ");
        assert(" ("@ =~= seq![' ', '(']);
        assert(") "@ =~= seq![')', ' ']);
        assert(" "@ =~= seq![' ']);
    }
    sink.write(" (");
    let ghost head = fed0 + seq![' ', '('];
    let mut i: usize = 0;
    while i < n
        invariant
            sink.wf(),
            n == parts@.len() == a.len(),
            forall|k: int| 0 <= k < n ==> #[trigger] parts@[k]@ == a[k],
            i <= n,
            sink.written() + vocab::prompt_items(a, i as int) =~= head + vocab::prompt_items(a, 0),
        decreases n - i,
    {
        let ghost fed_i = sink.written();
        sink.write(label_str(i));
        sink.write(parts[i]);
        if i + 1 < n {
            sink.write(" ");
            proof {
                reveal_strlit(" ");
                assert(" "@ =~= seq![' ']);
                assert(sink.written() =~= fed_i + (seq![vocab::label_char(i as int)] + a[i as int]
                    + seq![' ']));
            }
        } else {
            proof {
                assert(sink.written() =~= fed_i + (seq![vocab::label_char(i as int)] + a[i as int]
                    + Seq::<char>::empty()));
            }
        }
        proof {
            assert(vocab::prompt_items(a, i as int) == (seq![vocab::label_char(i as int)] + a[
                i as int
            ] + (if i + 1 < n {
                seq![' ']
            } else {
                Seq::<char>::empty()
            })) + vocab::prompt_items(a, i + 1));
            assert(sink.written() + vocab::prompt_items(a, i + 1) =~= head + vocab::prompt_items(
                a,
                0,
            ));
        }
        i += 1;
    }
    sink.write(") ");
    proof {
        assert(vocab::prompt_items(a, n as int) =~= Seq::<char>::empty());
        assert(sink.written() =~= fed0 + vocab::prompt_of(ciyu@));
    }
    ExpandChoiceResult::WasNotChoice
}

/// The dictionary key of the `start..end` character window of a query.
pub open spec fn window_key(q: Seq<char>, start: int, end: int) -> u32 {
    m3hash::spec_murmur3(q.subrange(start, end), vocab::MURMUR3_SEED)
}

/// The longest dictionary match of a window starting at `start` and ending
/// at or before `end`: windows are tried longest first, and the first whose
/// key is in the table wins. Length alone decides, since the table lookup is
/// exact-match only.
pub open spec fn match_at(q: Seq<char>, start: int, end: int) -> Option<(int, int)>
    recommends
        0 <= start,
        end <= q.len(),
    decreases end - start,
{
    if end <= start {
        None
    } else if vocab::dict_has(window_key(q, start, end)) {
        Some((vocab::dict_index(window_key(q, start, end)), end))
    } else {
        match_at(q, start, end - 1)
    }
}

/// A match's entry index lies within the dictionary and its end within the
/// window.
pub proof fn lemma_match_at_range(q: Seq<char>, start: int, end: int)
    ensures
        match_at(q, start, end) matches Some(m) ==> start < m.1 <= end && 0 <= m.0
            < vocab::dict_len() && vocab::dict_has(window_key(q, start, m.1)) && m.0
            == vocab::dict_index(window_key(q, start, m.1)),
    decreases end - start,
{
    if end <= start {
    } else if vocab::dict_has(window_key(q, start, end)) {
    } else {
        lemma_match_at_range(q, start, end - 1);
    }
}

/// Law (greediness): when any window of length `e - start` starting at
/// `start` matches a dictionary key, the engine reports a match at least
/// that long; in particular, if windows of both k and k+1 characters match,
/// the longer one is selected.
pub proof fn lemma_match_at_greedy(q: Seq<char>, start: int, end: int, e: int)
    requires
        start < e <= end <= q.len(),
        vocab::dict_has(window_key(q, start, e)),
    ensures
        match_at(q, start, end) matches Some(m) && m.1 >= e,
    decreases end - start,
{
    if end > e && !vocab::dict_has(window_key(q, start, end)) {
        lemma_match_at_greedy(q, start, end - 1, e);
    }
}

/// Find the longest dictionary match in the `start..end` character window of
/// the query, `end` capped at the recorded character count.
fn longest_match(query: &Utf8Str, start: usize, end: usize) -> (r: Option<(CiyuIndex, usize)>)
    requires
        query.wf(),
    ensures
        ({
            let m = match_at(
                query@,
                start as int,
                vstd::math::min(end as int, query.char_count as int),
            );
            match r {
                Some((ci, me)) => m == Some((ci as int, me as int)),
                None => m is None,
            }
        }),
{
    let mut window = min(end, query.char_count);
    while window > start
        invariant
            query.wf(),
            window <= query.char_count,
            match_at(query@, start as int, vstd::math::min(end as int, query.char_count as int))
                == match_at(query@, start as int, window as int),
        decreases window,
    {
        if let Some(query_slice) = query.char_slice(start, window) {
            let key = murmur3(query_slice, vocab::MURMUR3_SEED);
            if let Some(ciyu) = vocab::dict_find(key) {
                proof {
                    assert(key == window_key(query@, start as int, window as int));
                    assert(match_at(query@, start as int, window as int) == Some(
                        (vocab::dict_index(key), window as int),
                    ));
                }
                return Some((ciyu, window));
            }
        }
        window -= 1;
    }
    None
}

/// The token one matched entry becomes: an open choice when the entry has
/// alternatives, a single match otherwise.
pub open spec fn match_token(i: int) -> lex::Token {
    if vocab::has_tab(vocab::dict_entry(i)) {
        lex::Token::CiOpenChoice(i as usize)
    } else {
        lex::Token::CiOne(i as usize)
    }
}

/// The token one unmatched character becomes: a disambiguation candidate
/// when it could pick a choice (space or digit 1-9), a pass-through
/// character otherwise.
pub open spec fn char_token(c: char) -> lex::Token {
    if vocab::pick_of(c) >= 1 {
        lex::Token::MaybeChoice(c)
    } else {
        lex::Token::Other(c)
    }
}

/// The tokens a left-to-right greedy scan of `q[start..end]` produces: at
/// each position the longest match within the phrase-length window, else one
/// character consumed as a candidate or pass-through token.
pub open spec fn scan_tokens(q: Seq<char>, start: int, end: int) -> Seq<lex::Token>
    decreases end - start,
        via scan_tokens_decreases
{
    if start < 0 || start >= end || end > q.len() {
        Seq::empty()
    } else {
        let wend = vstd::math::min(start + vocab::PINYIN_SIZE_MAX as int, end);
        match match_at(q, start, wend) {
            Some(m) => seq![match_token(m.0)] + scan_tokens(q, m.1, end),
            None => seq![char_token(q[start])] + scan_tokens(q, start + 1, end),
        }
    }
}

#[via_fn]
proof fn scan_tokens_decreases(q: Seq<char>, start: int, end: int) {
    if !(start < 0 || start >= end || end > q.len()) {
        lemma_match_at_range(
            q,
            start,
            vstd::math::min(start + vocab::PINYIN_SIZE_MAX as int, end),
        );
    }
}

/// A scan never produces more tokens than it reads characters.
pub proof fn lemma_scan_tokens_len(q: Seq<char>, start: int, end: int)
    ensures
        scan_tokens(q, start, end).len() <= (if end >= start {
            end - start
        } else {
            0
        }),
    decreases end - start,
{
    if start < 0 || start >= end || end > q.len() {
    } else {
        let wend = vstd::math::min(start + vocab::PINYIN_SIZE_MAX as int, end);
        lemma_match_at_range(q, start, wend);
        match match_at(q, start, wend) {
            Some(m) => {
                lemma_scan_tokens_len(q, m.1, end);
            },
            None => {
                lemma_scan_tokens_len(q, start + 1, end);
            },
        }
    }
}

/// Every token a scan produces is well-formed.
pub proof fn lemma_scan_tokens_wf(q: Seq<char>, start: int, end: int)
    ensures
        lex::toks_wf(scan_tokens(q, start, end)),
    decreases end - start,
{
    if start < 0 || start >= end || end > q.len() {
    } else {
        let wend = vstd::math::min(start + vocab::PINYIN_SIZE_MAX as int, end);
        lemma_match_at_range(q, start, wend);
        match match_at(q, start, wend) {
            Some(m) => {
                vocab::lemma_alts_count(vocab::dict_entry(m.0));
                lemma_scan_tokens_wf(q, m.1, end);
                assert(lex::token_wf(match_token(m.0)));
            },
            None => {
                lemma_scan_tokens_wf(q, start + 1, end);
                assert(lex::token_wf(char_token(q[start])));
            },
        }
        assert forall|k: int| 0 <= k < scan_tokens(q, start, end).len() implies lex::token_wf(
            #[trigger] scan_tokens(q, start, end)[k],
        ) by {
            let ts = scan_tokens(q, start, end);
            match match_at(q, start, wend) {
                Some(m) => {
                    if k > 0 {
                        assert(ts[k] == scan_tokens(q, m.1, end)[k - 1]);
                    }
                },
                None => {
                    if k > 0 {
                        assert(ts[k] == scan_tokens(q, start + 1, end)[k - 1]);
                    }
                },
            }
        }
    }
}

/// Scan for dictionary matches in the `start..end` character window,
/// pushing one token per match or per unmatched character.
fn search(query: &Utf8Str, queue: &mut lex::TokenQueue, start: usize, end: usize)
    requires
        query.wf(),
        start <= end,
        end <= query.char_count,
        old(queue).wf(),
        old(queue).count + (end - start) <= BUF_SIZE,
    ensures
        final(queue).wf(),
        final(queue).count <= old(queue).count + (end - start),
        final(queue).toks() == old(queue).toks() + scan_tokens(query@, start as int, end as int),
{
    let ghost start0 = start as int;
    let mut start = start;
    while start < end
        invariant
            query.wf(),
            start <= end <= query.char_count == query@.len(),
            queue.wf(),
            queue.count + (end - start) <= BUF_SIZE,
            old(queue).count <= queue.count,
            old(queue).toks() + scan_tokens(query@, start0, end as int) == queue.toks()
                + scan_tokens(query@, start as int, end as int),
        decreases end - start,
    {
        // Limit the window to the length of the longest key in the table.
        let window_end = min(start + vocab::PINYIN_SIZE_MAX, end);
        let ghost wend = vstd::math::min(start as int + vocab::PINYIN_SIZE_MAX as int, end as int);
        proof {
            lemma_match_at_range(query@, start as int, wend);
        }
        if let Some((ciyu_i, match_end)) = longest_match(query, start, window_end) {
            // Match: push its token, continue in the remainder of the query.
            let tok = if vocab::contains_tab(vocab::ciyu_str(ciyu_i)) {
                lex::Token::CiOpenChoice(ciyu_i)
            } else {
                lex::Token::CiOne(ciyu_i)
            };
            let ghost before = queue.toks();
            let ok = queue.push(tok);
            proof {
                assert(ok);
                assert(queue.toks() =~= before + seq![tok]);
                assert(scan_tokens(query@, start as int, end as int) == seq![match_token(
                    ciyu_i as int,
                )] + scan_tokens(query@, match_end as int, end as int));
                assert(queue.toks() + scan_tokens(query@, match_end as int, end as int)
                    =~= before + scan_tokens(query@, start as int, end as int));
            }
            start = match_end;
        } else {
            // No match: consume exactly one character. A space or digit may
            // later resolve a choice of homophones from an earlier ambiguous
            // match, or separate one entry's pinyin from the next, or simply
            // pass through as ASCII; anything else passes through.
            if let Some(s1) = query.char_slice(start, start + 1) {
                let c = s1.get_char(0);
                proof {
                    assert(s1@[0] == query@[start as int]);
                }
                let v = c as u32;
                let tok = if c == ' ' || (0x31 <= v && v <= 0x39) {
                    lex::Token::MaybeChoice(c)
                } else {
                    lex::Token::Other(c)
                };
                let ghost before = queue.toks();
                let ok = queue.push(tok);
                proof {
                    assert(ok);
                    assert(tok == char_token(query@[start as int]));
                    assert(queue.toks() =~= before + seq![tok]);
                    assert(scan_tokens(query@, start as int, end as int) == seq![char_token(
                        query@[start as int],
                    )] + scan_tokens(query@, start as int + 1, end as int));
                    assert(queue.toks() + scan_tokens(query@, start as int + 1, end as int)
                        =~= before + scan_tokens(query@, start as int, end as int));
                }
            }
            start += 1;
        }
    }
    proof {
        assert(scan_tokens(query@, start as int, end as int) =~= Seq::<lex::Token>::empty());
        assert(queue.toks() =~= old(queue).toks() + scan_tokens(query@, start0, end as int));
        lemma_scan_tokens_len(query@, start0, end as int);
        assert(queue.count == queue.toks().len());
    }
}

/// What the engine emits for a query: the rendering of the tokens of a
/// greedy scan over the whole (clipped) query.
pub open spec fn engine_emit(q: Seq<char>) -> Seq<char> {
    lex::render_model(scan_tokens(q, 0, q.len() as int), 0)
}

/// Look up a query (pinyin keys are ASCII, but the inbox is UTF-8) and
/// render the result into the sink: exactly `engine_emit` of the query's
/// first `BUF_SIZE` characters is written.
pub fn look_up<W: Writer>(query_bytes: &str, sink: &mut W)
    requires
        old(sink).wf(),
    ensures
        final(sink).wf(),
        final(sink).written() == old(sink).written() + engine_emit(clip(query_bytes@)),
{
    let query = Utf8Str::new(query_bytes);
    let mut queue = lex::TokenQueue::new();
    let start: usize = 0;
    let end = query.char_count;
    search(&query, &mut queue, start, end);
    proof {
        lemma_scan_tokens_wf(query@, 0, end as int);
        assert(queue.toks() =~= scan_tokens(query@, 0, query@.len() as int));
    }
    queue.render_and_write(sink);
}

/// Look up a query and write the result to the sink; returns the sink's
/// accumulated text. This is the library's main entry point.
pub fn query<'a, W: Writer>(qry: &str, sink: &'a mut W) -> (r: &'a str)
    requires
        old(sink).wf(),
    ensures
        final(sink).wf(),
        final(sink).written() == old(sink).written() + engine_emit(clip(qry@)),
        r@ == final(sink).out(),
{
    look_up(qry, sink);
    sink.to_s()
}

/// Identity translation stub kept for interface stability; exercises the
/// hash path once and hands the input back unchanged.
pub fn translate_zh_hans(pinyin_ascii: &str) -> (r: &str)
    ensures
        r@ == pinyin_ascii@,
{
    let _ = m3hash::grapheme_cluster("", 0, 1);
    pinyin_ascii
}

/// No character window of the query matches any dictionary key.
pub open spec fn no_dict_match(q: Seq<char>) -> bool {
    forall|s: int, e: int|
        0 <= s < e <= q.len() ==> !vocab::dict_has(#[trigger] window_key(q, s, e))
}

proof fn lemma_match_at_none(q: Seq<char>, start: int, end: int)
    requires
        no_dict_match(q),
        0 <= start,
        end <= q.len(),
    ensures
        match_at(q, start, end) is None,
    decreases end - start,
{
    if end > start {
        assert(!vocab::dict_has(window_key(q, start, end)));
        lemma_match_at_none(q, start, end - 1);
    }
}

proof fn lemma_scan_all_chars(q: Seq<char>, start: int, end: int)
    requires
        no_dict_match(q),
        0 <= start,
        end <= q.len(),
    ensures
        start <= end ==> scan_tokens(q, start, end) == Seq::new(
            (end - start) as nat,
            |k: int| char_token(q[start + k]),
        ),
    decreases end - start,
{
    if start >= end {
        if start == end {
            assert(scan_tokens(q, start, end) =~= Seq::new(
                (end - start) as nat,
                |k: int| char_token(q[start + k]),
            ));
        }
    } else {
        let wend = vstd::math::min(start + vocab::PINYIN_SIZE_MAX as int, end);
        lemma_match_at_none(q, start, wend);
        lemma_scan_all_chars(q, start + 1, end);
        assert(scan_tokens(q, start, end) =~= Seq::new(
            (end - start) as nat,
            |k: int| char_token(q[start + k]),
        ));
    }
}

/// Law (pass-through): a query none of whose windows matches a dictionary
/// key is emitted exactly as it came in.
pub proof fn lemma_pass_through(q: Seq<char>)
    requires
        no_dict_match(q),
    ensures
        engine_emit(q) == q,
{
    lemma_scan_all_chars(q, 0, q.len() as int);
    let ts = scan_tokens(q, 0, q.len() as int);
    assert forall|k: int| 0 <= k < ts.len() implies lex::literal_token(#[trigger] ts[k]) by {
        assert(ts[k] == char_token(q[k]));
    }
    lex::lemma_render_literal_tokens(ts, 0);
    assert(engine_emit(q) =~= q);
}

/// Law (capacity truncation): the engine sees only the first `BUF_SIZE`
/// characters of a query — one longer than that yields exactly the output
/// of the query truncated to `BUF_SIZE` characters.
pub proof fn lemma_capacity_truncation(q: Seq<char>)
    requires
        q.len() >= BUF_SIZE,
    ensures
        clip(q.take(BUF_SIZE as int)) == clip(q),
        engine_emit(clip(q.take(BUF_SIZE as int))) == engine_emit(clip(q)),
{
    assert(clip(q.take(BUF_SIZE as int)) =~= clip(q));
}

/// Law: a single-alternative dictionary entry scans as an unambiguous
/// match, which is rendered as the entry itself — never as a choice prompt.
pub proof fn lemma_single_alternative_token(i: int)
    requires
        0 <= i < vocab::dict_len(),
        vocab::alts(vocab::dict_entry(i)).len() == 1,
    ensures
        match_token(i) == lex::Token::CiOne(i as usize),
{
    vocab::lemma_alts_count(vocab::dict_entry(i));
}

/// Text whose whole encoding fits the buffer is kept in full.
proof fn lemma_sink_fold_fits(w: Seq<char>)
    requires
        vstd::utf8::encode_utf8(w).len() <= BUF_SIZE,
    ensures
        sink_fold(w) == (w, vstd::utf8::encode_utf8(w).len() as int, false),
    decreases w.len(),
{
    if w.len() == 0 {
        assert(sink_fold(w) == (Seq::<char>::empty(), 0int, false));
        assert(w =~= Seq::<char>::empty());
    } else {
        let head = w.drop_last();
        let c = w.last();
        m3hash::lemma_encode_utf8_push(head, c);
        assert(w =~= head.push(c));
        assert(vstd::utf8::encode_utf8(head).len() <= vstd::utf8::encode_utf8(w).len());
        lemma_sink_fold_fits(head);
        assert(head.push(c) =~= w);
    }
}

/// Law: when everything written to a `BufWriter` fits its byte capacity,
/// what it reads back is exactly what was written — together with the
/// pass-through law, a matchless query that fits the buffer comes out of
/// `query` verbatim.
pub proof fn lemma_bufwriter_exact(w: &BufWriter)
    requires
        w.wf(),
        vstd::utf8::encode_utf8(w.written()).len() <= BUF_SIZE,
    ensures
        w.out() == w.written(),
{
    lemma_sink_fold_fits(w.written());
    lemma_bufwriter_out(w);
}

/// Law: what a `BufWriter` reads back is determined by everything written
/// to it — the kept prefix of the fold, or the empty string when a write
/// was cut off in the middle of one character's encoding.
pub proof fn lemma_bufwriter_out(w: &BufWriter)
    requires
        w.wf(),
    ensures
        w.out() == (if sink_fold(w.written()).2 {
            Seq::<char>::empty()
        } else {
            sink_fold(w.written()).0
        }),
{
}

} // verus!
