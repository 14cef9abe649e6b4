//! The build-time dictionary: a sorted table of murmur3 hash keys, a
//! parallel array of entries (one word, or a tab-separated ordered list of
//! at most nine homophone alternatives), the seed the keys were built with,
//! and the length of the longest key. The engine consumes this data and does
//! not re-validate it at runtime; its invariants (strictly increasing,
//! collision-free keys) are proved here and exercised by tests.
//!
//! This module also defines what an entry means: how it splits into
//! alternatives, how a candidate character picks one, and how the full
//! numbered-choice prompt is formatted.

use vstd::prelude::*;

verus! {

/// Seed the dictionary hash keys were built with.
pub const MURMUR3_SEED: u32 = 0;

/// Character count of the longest pinyin key in the dictionary.
pub const PINYIN_SIZE_MAX: usize = 8;

/// Largest number of homophone alternatives of any entry.
pub const CIYU_CHOICE_MAX: usize = 3;

/// Number of dictionary entries.
pub open spec fn dict_len() -> int {
    11
}

/// The sorted hash keys, parallel to the entries.
pub open spec fn dict_hashes() -> Seq<u32> {
    seq![
        0x16F1AA08u32,
        0x28BA020Du32,
        0x606E4950u32,
        0x695BF5B7u32,
        0x7AE9CB6Cu32,
        0x978F4C48u32,
        0xABDFF14Cu32,
        0xBAE17435u32,
        0xDEC4EF10u32,
        0xEC90A46Bu32,
        0xEE85A44Eu32,
    ]
}

/// Entry `i`: one word, or tab-separated homophone alternatives.
pub open spec fn dict_entry(i: int) -> Seq<char> {
    if i == 0 {
        "昆虫"@
    } else if i == 1 {
        "喝\t和"@
    } else if i == 2 {
        "果汁"@
    } else if i == 3 {
        "白\t百"@
    } else if i == 4 {
        "想\t向"@
    } else if i == 5 {
        "长"@
    } else if i == 6 {
        "我"@
    } else if i == 7 {
        "困"@
    } else if i == 8 {
        "冲"@
    } else if i == 9 {
        "长"@
    } else {
        "的\t地\t得"@
    }
}

/// The pinyin key whose hash stands at position `i` of the table.
pub open spec fn dict_key(i: int) -> Seq<char> {
    if i == 0 {
        "kunchong"@
    } else if i == 1 {
        "he"@
    } else if i == 2 {
        "guozhi"@
    } else if i == 3 {
        "bai"@
    } else if i == 4 {
        "xiang"@
    } else if i == 5 {
        "zhang"@
    } else if i == 6 {
        "wo"@
    } else if i == 7 {
        "kun"@
    } else if i == 8 {
        "chong"@
    } else if i == 9 {
        "chang"@
    } else {
        "de"@
    }
}

/// Number of dictionary entries.
pub fn entry_count() -> (n: usize)
    ensures
        n as int == dict_len(),
{
    11
}

/// Hash key at position `i` of the sorted table.
pub fn pinyin_hash(i: usize) -> (h: u32)
    requires
        (i as int) < dict_len(),
    ensures
        h == dict_hashes()[i as int],
{
    let table = pinyin_table();
    table[i]
}

/// The sorted hash table as a vector.
pub fn pinyin_table() -> (t: Vec<u32>)
    ensures
        t@ == dict_hashes(),
{
    let mut t: Vec<u32> = Vec::new();
    t.push(0x16F1AA08);
    t.push(0x28BA020D);
    t.push(0x606E4950);
    t.push(0x695BF5B7);
    t.push(0x7AE9CB6C);
    t.push(0x978F4C48);
    t.push(0xABDFF14C);
    t.push(0xBAE17435);
    t.push(0xDEC4EF10);
    t.push(0xEC90A46B);
    t.push(0xEE85A44E);
    proof {
        assert(t@ =~= dict_hashes());
    }
    t
}

/// Entry at position `i`.
pub fn ciyu_str(i: usize) -> (s: &'static str)
    requires
        (i as int) < dict_len(),
    ensures
        s@ == dict_entry(i as int),
{
    if i == 0 {
        "昆虫"
    } else if i == 1 {
        "喝\t和"
    } else if i == 2 {
        "果汁"
    } else if i == 3 {
        "白\t百"
    } else if i == 4 {
        "想\t向"
    } else if i == 5 {
        "长"
    } else if i == 6 {
        "我"
    } else if i == 7 {
        "困"
    } else if i == 8 {
        "冲"
    } else if i == 9 {
        "长"
    } else {
        "的\t地\t得"
    }
}

/// Pinyin key at position `i`.
pub fn pinyin_key(i: usize) -> (s: &'static str)
    requires
        (i as int) < dict_len(),
    ensures
        s@ == dict_key(i as int),
{
    if i == 0 {
        "kunchong"
    } else if i == 1 {
        "he"
    } else if i == 2 {
        "guozhi"
    } else if i == 3 {
        "bai"
    } else if i == 4 {
        "xiang"
    } else if i == 5 {
        "zhang"
    } else if i == 6 {
        "wo"
    } else if i == 7 {
        "kun"
    } else if i == 8 {
        "chong"
    } else if i == 9 {
        "chang"
    } else {
        "de"
    }
}

/// The hash table is strictly increasing, hence collision-free.
pub open spec fn dict_sorted() -> bool {
    forall|i: int, j: int|
        0 <= i < j < dict_len() ==> dict_hashes()[i] < dict_hashes()[j]
}

spec fn dict_sorted_adjacent() -> bool {
    forall|i: int| 0 <= i < dict_len() - 1 ==> dict_hashes()[i] < #[trigger] dict_hashes()[i + 1]
}

proof fn lemma_dict_sorted_adjacent()
    ensures
        dict_sorted_adjacent(),
{
    assert forall|i: int| 0 <= i < dict_len() - 1 implies dict_hashes()[i]
        < #[trigger] dict_hashes()[i + 1] by {
        if i == 0 {
            assert(dict_hashes()[0] < dict_hashes()[1]);
        } else if i == 1 {
            assert(dict_hashes()[1] < dict_hashes()[2]);
        } else if i == 2 {
            assert(dict_hashes()[2] < dict_hashes()[3]);
        } else if i == 3 {
            assert(dict_hashes()[3] < dict_hashes()[4]);
        } else if i == 4 {
            assert(dict_hashes()[4] < dict_hashes()[5]);
        } else if i == 5 {
            assert(dict_hashes()[5] < dict_hashes()[6]);
        } else if i == 6 {
            assert(dict_hashes()[6] < dict_hashes()[7]);
        } else if i == 7 {
            assert(dict_hashes()[7] < dict_hashes()[8]);
        } else if i == 8 {
            assert(dict_hashes()[8] < dict_hashes()[9]);
        } else {
            assert(dict_hashes()[9] < dict_hashes()[10]);
        }
    }
}

proof fn lemma_sorted_range(i: int, j: int)
    requires
        dict_sorted_adjacent(),
        0 <= i < j < dict_len(),
    ensures
        dict_hashes()[i] < dict_hashes()[j],
    decreases j - i,
{
    if i + 1 < j {
        lemma_sorted_range(i, j - 1);
        assert(dict_hashes()[j - 1] < dict_hashes()[j]);
    }
}

/// Law: all hash keys of the supplied dictionary are strictly increasing —
/// the table is sorted and has no duplicate (colliding) keys.
pub proof fn lemma_dict_hashes_sorted()
    ensures
        dict_sorted(),
{
    lemma_dict_sorted_adjacent();
    assert forall|i: int, j: int| 0 <= i < j < dict_len() implies dict_hashes()[i]
        < dict_hashes()[j] by {
        lemma_sorted_range(i, j);
    }
}

/// Some position of the table holds `key`.
pub open spec fn dict_has(key: u32) -> bool {
    exists|i: int| 0 <= i < dict_len() && dict_hashes()[i] == key
}

/// The position of the table that holds `key` (meaningful when `dict_has`).
pub open spec fn dict_index(key: u32) -> int {
    choose|i: int| 0 <= i < dict_len() && dict_hashes()[i] == key
}

/// Binary search of the sorted hash table for an exact key match.
pub fn dict_find(key: u32) -> (r: Option<usize>)
    ensures
        match r {
            Some(i) => dict_has(key) && i as int == dict_index(key) && (i as int) < dict_len()
                && dict_hashes()[i as int] == key,
            None => !dict_has(key),
        },
{
    proof {
        lemma_dict_hashes_sorted();
    }
    let table = pinyin_table();
    let mut lo: usize = 0;
    let mut hi: usize = table.len();
    while lo < hi
        invariant
            table@ == dict_hashes(),
            lo <= hi <= dict_len(),
            forall|k: int| 0 <= k < lo ==> dict_hashes()[k] < key,
            forall|k: int| hi <= k < dict_len() ==> key < dict_hashes()[k],
            dict_sorted(),
        decreases hi - lo,
    {
        let mid = lo + (hi - lo) / 2;
        let v = table[mid];
        if v < key {
            lo = mid + 1;
        } else if key < v {
            hi = mid;
        } else {
            proof {
                assert(dict_hashes()[mid as int] == key);
                let w = dict_index(key);
                assert(0 <= w < dict_len() && dict_hashes()[w] == key);
                if w < mid as int {
                    assert(dict_hashes()[w] < dict_hashes()[mid as int]);
                } else if w > mid as int {
                    assert(dict_hashes()[mid as int] < dict_hashes()[w]);
                }
            }
            return Some(mid);
        }
    }
    None
}

/// Whether any character of `s` is the tab that separates alternatives.
pub open spec fn has_tab(s: Seq<char>) -> bool {
    exists|k: int| 0 <= k < s.len() && s[k] == '\t'
}

/// Pieces of `s[start..]` split at tab characters, scanning from `cur`:
/// `start` is the beginning of the piece being gathered.
pub open spec fn split_from(s: Seq<char>, start: int, cur: int) -> Seq<Seq<char>>
    recommends
        0 <= start <= cur <= s.len(),
    decreases s.len() - cur,
{
    if cur < 0 || cur >= s.len() {
        seq![s.subrange(start, s.len() as int)]
    } else if s[cur] == '\t' {
        seq![s.subrange(start, cur)] + split_from(s, cur + 1, cur + 1)
    } else {
        split_from(s, start, cur + 1)
    }
}

/// The ordered alternatives of an entry: its pieces between tabs.
/// An entry with a single word has exactly one alternative.
pub open spec fn alts(s: Seq<char>) -> Seq<Seq<char>> {
    split_from(s, 0, 0)
}

proof fn lemma_split_from_count(s: Seq<char>, start: int, cur: int)
    requires
        0 <= start <= cur <= s.len(),
    ensures
        split_from(s, start, cur).len() >= 1,
        (split_from(s, start, cur).len() >= 2) <==> (exists|k: int|
            cur <= k < s.len() && s[k] == '\t'),
    decreases s.len() - cur,
{
    if cur >= s.len() {
    } else if s[cur] == '\t' {
        lemma_split_from_count(s, cur + 1, cur + 1);
    } else {
        lemma_split_from_count(s, start, cur + 1);
        if exists|k: int| cur <= k < s.len() && s[k] == '\t' {
            let k = choose|k: int| cur <= k < s.len() && s[k] == '\t';
            assert(cur + 1 <= k < s.len() && s[k] == '\t');
        }
    }
}

/// Law: an entry splits into at least one alternative, and into two or more
/// exactly when it holds a tab.
pub proof fn lemma_alts_count(s: Seq<char>)
    ensures
        alts(s).len() >= 1,
        has_tab(s) <==> alts(s).len() >= 2,
{
    lemma_split_from_count(s, 0, 0);
}

/// Whether any character of `s` is a tab.
pub fn contains_tab(s: &str) -> (r: bool)
    ensures
        r == has_tab(s@),
{
    let n = s.unicode_len();
    let mut i: usize = 0;
    while i < n
        invariant
            i <= n == s@.len(),
            forall|k: int| 0 <= k < i ==> s@[k] != '\t',
        decreases n - i,
    {
        if s.get_char(i) == '\t' {
            return true;
        }
        i += 1;
    }
    false
}

/// The alternatives of an entry, as string slices of it.
pub fn split_alts(s: &str) -> (parts: Vec<&str>)
    ensures
        parts@.len() == alts(s@).len(),
        forall|k: int| 0 <= k < parts@.len() ==> #[trigger] parts@[k]@ == alts(s@)[k],
        parts@.len() >= 1,
{
    let n = s.unicode_len();
    let mut parts: Vec<&str> = Vec::new();
    let mut start: usize = 0;
    let mut cur: usize = 0;
    while cur < n
        invariant
            start <= cur <= n == s@.len(),
            alts(s@) =~= parts@.map_values(|p: &str| p@) + split_from(s@, start as int, cur as int),
            forall|k: int| 0 <= k < parts@.len() ==> #[trigger] parts@[k]@ == alts(s@)[k],
        decreases n - cur,
    {
        if s.get_char(cur) == '\t' {
            let piece = s.substring_char(start, cur);
            proof {
                let ghost old_parts = parts@;
                assert(split_from(s@, start as int, cur as int) == seq![
                    s@.subrange(start as int, cur as int),
                ] + split_from(s@, cur as int + 1, cur as int + 1));
            }
            parts.push(piece);
            proof {
                assert(parts@.map_values(|p: &str| p@) =~= parts@.drop_last().map_values(
                    |p: &str| p@,
                ).push(piece@));
            }
            start = cur + 1;
        }
        cur += 1;
    }
    let piece = s.substring_char(start, n);
    proof {
        assert(split_from(s@, start as int, cur as int) == seq![
            s@.subrange(start as int, s@.len() as int),
        ]);
    }
    parts.push(piece);
    proof {
        assert(parts@.map_values(|p: &str| p@) =~= parts@.drop_last().map_values(|p: &str| p@).push(
            piece@,
        ));
        assert(parts@.map_values(|p: &str| p@) =~= alts(s@));
    }
    parts
}

/// The 1-based pick that a candidate character stands for: space picks the
/// default (1), an ASCII digit picks its value, anything else picks nothing.
pub open spec fn pick_of(c: char) -> int {
    if c == ' ' {
        1
    } else if ('1' as int) <= (c as int) && (c as int) <= ('9' as int) {
        (c as int) - ('0' as int)
    } else {
        0
    }
}

/// The label written before alternative `i` of a prompt: digits 1 through 9,
/// capped at 9 (the choice protocol is single-digit only).
pub open spec fn label_char(i: int) -> char {
    if i == 0 {
        '1'
    } else if i == 1 {
        '2'
    } else if i == 2 {
        '3'
    } else if i == 3 {
        '4'
    } else if i == 4 {
        '5'
    } else if i == 5 {
        '6'
    } else if i == 6 {
        '7'
    } else if i == 7 {
        '8'
    } else {
        '9'
    }
}

/// The labelled alternatives of a prompt from position `i` on, separated by
/// single spaces.
pub open spec fn prompt_items(parts: Seq<Seq<char>>, i: int) -> Seq<char>
    decreases parts.len() - i,
{
    if i < 0 || i >= parts.len() {
        Seq::empty()
    } else {
        seq![label_char(i)] + parts[i] + (if i + 1 < parts.len() {
            seq![' ']
        } else {
            Seq::empty()
        }) + prompt_items(parts, i + 1)
    }
}

/// The full numbered-choice prompt for an entry:
/// `" (1<alt1> 2<alt2> … N<altN>) "`.
pub open spec fn prompt_of(entry: Seq<char>) -> Seq<char> {
    seq![' ', '('] + prompt_items(alts(entry), 0) + seq![')', ' ']
}

/// Exactly what resolving entry `entry` against candidate `c` writes:
/// a lone alternative is written as-is; a pick within range writes that
/// alternative; a pick out of range writes nothing; no pick writes the
/// full prompt.
pub open spec fn choice_emit(entry: Seq<char>, c: char) -> Seq<char> {
    let a = alts(entry);
    let n = a.len() as int;
    let p = pick_of(c);
    if n == 1 {
        entry
    } else if 1 <= p <= n {
        a[p - 1]
    } else if p == 0 {
        prompt_of(entry)
    } else {
        Seq::empty()
    }
}

/// Law: a single-alternative entry never triggers a numbered-choice prompt —
/// resolving it against any candidate writes exactly the entry itself.
pub proof fn lemma_single_alternative_never_prompts(entry: Seq<char>, c: char)
    requires
        alts(entry).len() == 1,
    ensures
        choice_emit(entry, c) == entry,
{
}

/// Law (choice protocol): for an ambiguous entry, a bare space picks
/// alternative 1; a digit d within the alternative count picks alternative
/// d; a digit beyond the count picks nothing (the candidate stays
/// unconsumed); and no pick at all yields the full numbered prompt.
pub proof fn lemma_choice_protocol(entry: Seq<char>, c: char)
    requires
        alts(entry).len() >= 2,
    ensures
        c == ' ' ==> choice_emit(entry, c) == alts(entry)[0],
        1 <= pick_of(c) <= alts(entry).len() ==> choice_emit(entry, c) == alts(entry)[pick_of(c)
            - 1],
        pick_of(c) > alts(entry).len() ==> choice_emit(entry, c) == Seq::<char>::empty(),
        pick_of(c) == 0 ==> choice_emit(entry, c) == prompt_of(entry),
{
}

} // verus!

