use hanzi_ime::constants::BUF_SIZE;
use hanzi_ime::dialects::{query, murmur3, BufWriter, Utf8Str};
use hanzi_ime::lex::TokenQueue;
use hanzi_ime::vocab;

#[test]
fn dialects_min_query() {
    assert_eq!("", query(&"", &mut BufWriter::new()));
}

#[test]
fn dialects_max_query() {
    let buf_max = ['A' as u8; 150];
    let qry_max = core::str::from_utf8(&buf_max).unwrap();
    // This should be passed through unchanged as ASCII
    assert_eq!(qry_max, query(qry_max, &mut BufWriter::new()));
}

#[test]
fn dialects_max_query_plus_1_truncate() {
    let buf_max = ['A' as u8; 150];
    let qry_max = core::str::from_utf8(&buf_max).unwrap();
    let buf_1_too_big = ['A' as u8; 151];
    let qry_1_too_big = core::str::from_utf8(&buf_1_too_big).unwrap();
    // This should truncate the query
    assert_eq!(qry_max, query(qry_1_too_big, &mut BufWriter::new()));
}

#[test]
fn choice_xiang1() {
    assert_eq!("想", query(&"xiang1", &mut BufWriter::new()));
}

#[test]
fn zhang3chang2() {
    assert!(query(&"zhang", &mut BufWriter::new()).contains("长"));
    assert!(query(&"chang", &mut BufWriter::new()).contains("长"));
}

#[test]
fn query_all_pinyin_search_keys_verify_ciyu() {
    for i in 0..vocab::entry_count() {
        let normalized_pinyin = vocab::pinyin_key(i);
        let ciyu = vocab::ciyu_str(i).split('\t').next().unwrap();
        assert!(query(normalized_pinyin, &mut BufWriter::new()).contains(ciyu));
    }
}

#[test]
fn choosing_ciyu_with_numbers_and_spaces() {
    assert!(query(&"xiang", &mut BufWriter::new()).contains("(1想"));
    assert!(query(&"xiang", &mut BufWriter::new()).contains("2向"));
    assert_eq!(query(&"xiang ", &mut BufWriter::new()), "想");
    assert!(query(&" xiang", &mut BufWriter::new()).starts_with(" "));
    assert!(query(&" xiang", &mut BufWriter::new()).contains("(1想"));
    assert_eq!(query(&"xiang1", &mut BufWriter::new()), "想");
    assert_eq!(query(&"xiang2", &mut BufWriter::new()), "向");
    assert!(query(&"xianghe", &mut BufWriter::new()).contains("(1想"));
    assert!(query(&"xianghe", &mut BufWriter::new()).contains("2向"));
    assert!(query(&"xianghe", &mut BufWriter::new()).contains("(1喝"));
    assert!(query(&"xianghe", &mut BufWriter::new()).contains("2和"));
    assert!(query(&"xiang he", &mut BufWriter::new()).starts_with("想"));
    assert!(query(&"xiang he", &mut BufWriter::new()).contains("(1喝"));
    assert!(query(&"xiang1he", &mut BufWriter::new()).starts_with("想"));
    assert!(query(&"xiang1he", &mut BufWriter::new()).contains("(1喝"));
    assert!(query(&"xianghe1", &mut BufWriter::new()).starts_with("想"));
    assert!(query(&"xianghe1", &mut BufWriter::new()).contains("(1喝"));
    assert!(query(&"xianghe ", &mut BufWriter::new()).starts_with("想"));
    assert!(query(&"xianghe ", &mut BufWriter::new()).contains("(1喝"));
    assert_eq!(query(&"xianghe 1", &mut BufWriter::new()), "想喝");
    assert_eq!(query(&"xianghe11", &mut BufWriter::new()), "想喝");
    assert_eq!(query(&"xiang he1", &mut BufWriter::new()), "想喝");
    assert_eq!(query(&"xiang he ", &mut BufWriter::new()), "想喝");
    assert_eq!(query(&"xianghe 2", &mut BufWriter::new()), "想和");
}

#[test]
fn dialects_query_chars_not_matched_should_pass_through() {
    assert_eq!(query(&"🐇✨", &mut BufWriter::new()), "🐇✨");
    assert_eq!(query(&"baiSEde🐇✨11", &mut BufWriter::new()), "白SE的🐇✨");
    assert_eq!(
        query(&"RABBIT SPARKLES 11", &mut BufWriter::new()),
        "RABBIT SPARKLES 11"
    );
    assert_eq!(query(&"XIANGHE", &mut BufWriter::new()), "XIANGHE");
}

#[test]
fn dialects_matching_buffer_sizes() {
    let utf8s = Utf8Str::new(&"slice");
    let u_len_s = utf8s.char_start_list.len();
    let u_len_e = utf8s.char_end_list.len();
    let tq = TokenQueue::new();
    let tq_len = tq.queue.len();
    assert_eq!(BUF_SIZE, u_len_s);
    assert_eq!(BUF_SIZE, u_len_e);
    assert_eq!(BUF_SIZE, tq_len);
    assert_eq!(BUF_SIZE, 150);
}

#[test]
fn space_disambiguating_pinyin_prefix_is_consumed() {
    assert_eq!("昆虫", query(&"kunchong", &mut BufWriter::new()));
    assert_eq!("困冲", query(&"kun chong", &mut BufWriter::new()));
    assert_eq!("困冲", query(&"kun chong ", &mut BufWriter::new()));
    assert_eq!(
        "我想喝果汁",
        query(&"wo xiang he guozhi", &mut BufWriter::new())
    );
}

// This might fail some day as a consequence of vocab data entry. As long as
// this test continues to pass, the single-digit choice picking protocol is
// okay. Failure means it is time for a fancier choice-resolution scheme.
#[test]
fn longest_choice_has_nine_or_less_options() {
    assert!(vocab::CIYU_CHOICE_MAX <= 9);
}

// This might fail some day as a consequence of vocab data entry. In case of
// failure from a hash collision, try changing the murmur3 seed the table is
// built with.
#[test]
fn pinyin_murmur3_hashes_are_sorted_with_no_collisions() {
    let mut prev = vocab::pinyin_hash(0);
    for i in 1..vocab::entry_count() {
        let curr = vocab::pinyin_hash(i);
        assert!(curr > prev);
        prev = curr;
    }
}

#[test]
fn murmur3_of_each_key_is_its_table_entry() {
    for i in 0..vocab::entry_count() {
        assert_eq!(
            murmur3(vocab::pinyin_key(i), vocab::MURMUR3_SEED),
            vocab::pinyin_hash(i)
        );
    }
}

#[test]
fn digit_beyond_alternatives_leaves_candidate_and_prompts() {
    // "xiang" has two alternatives: the pick 3 is out of range, so the full
    // prompt is rendered and the unconsumed '3' passes through after it.
    assert_eq!(query(&"xiang3", &mut BufWriter::new()), " (1想 2向) 3");
}

#[test]
fn absent_candidate_renders_full_prompt() {
    assert_eq!(query(&"xiang", &mut BufWriter::new()), " (1想 2向) ");
    assert_eq!(query(&"de", &mut BufWriter::new()), " (1的 2地 3得) ");
}

#[test]
fn trailing_space_picks_default_alternative() {
    assert_eq!(query(&"de ", &mut BufWriter::new()), "的");
    assert_eq!(query(&"de3", &mut BufWriter::new()), "得");
}

#[test]
fn output_overflow_truncates_at_whole_characters() {
    // 148 pass-through bytes, then a word whose three-byte character no
    // longer fits: the partial write poisons the buffer and the result
    // reads back empty, the defined non-fatal outcome.
    let q = "A".repeat(148) + "wo";
    assert_eq!("", query(&q, &mut BufWriter::new()));
    // With two bytes fewer the character fits exactly.
    let q2 = "A".repeat(146) + "wo";
    assert_eq!("A".repeat(146) + "我", query(&q2, &mut BufWriter::new()));
}

#[test]
fn rewind_clears_the_buffer() {
    let mut sink = BufWriter::new();
    assert_eq!("想", query(&"xiang1", &mut sink));
    sink.rewind();
    assert_eq!("向", query(&"xiang2", &mut sink));
}

#[test]
fn char_slice_bounds() {
    let utf8s = Utf8Str::new(&"a😸b");
    assert_eq!(utf8s.char_slice(0, 3), Some("a😸b"));
    assert_eq!(utf8s.char_slice(1, 2), Some("😸"));
    assert_eq!(utf8s.char_slice(2, 2), None);
    assert_eq!(utf8s.char_slice(2, 1), None);
    assert_eq!(utf8s.char_slice(0, 4), None);
}

#[test]
fn queue_push_beyond_capacity_is_refused() {
    let mut tq = TokenQueue::new();
    for _ in 0..BUF_SIZE {
        assert!(tq.push(hanzi_ime::lex::Token::Other('x')));
    }
    assert!(!tq.push(hanzi_ime::lex::Token::Other('x')));
    assert_eq!(tq.count, BUF_SIZE);
}
