use hanzi_ime::dialects::{expand_choice_and_write, BufWriter, ExpandChoiceResult, Writer};
use hanzi_ime::vocab;

#[test]
fn expand_choice_space_picks_default() {
    let mut sink = BufWriter::new();
    let entry = vocab::ciyu_str(1); // he: two alternatives
    let r = expand_choice_and_write(entry, ' ', &mut sink);
    assert!(matches!(r, ExpandChoiceResult::WasChoice));
    assert_eq!(sink.to_s(), "喝");
}

#[test]
fn expand_choice_digit_picks_that_alternative() {
    let mut sink = BufWriter::new();
    let entry = vocab::ciyu_str(1);
    let r = expand_choice_and_write(entry, '2', &mut sink);
    assert!(matches!(r, ExpandChoiceResult::WasChoice));
    assert_eq!(sink.to_s(), "和");
}

#[test]
fn expand_choice_out_of_range_writes_nothing() {
    let mut sink = BufWriter::new();
    let entry = vocab::ciyu_str(1);
    let r = expand_choice_and_write(entry, '9', &mut sink);
    assert!(matches!(r, ExpandChoiceResult::WasNotChoice));
    assert_eq!(sink.to_s(), "");
}

#[test]
fn expand_choice_no_pick_writes_full_prompt() {
    let mut sink = BufWriter::new();
    let entry = vocab::ciyu_str(10); // de: three alternatives
    let r = expand_choice_and_write(entry, '0', &mut sink);
    assert!(matches!(r, ExpandChoiceResult::WasNotChoice));
    assert_eq!(sink.to_s(), " (1的 2地 3得) ");
}

#[test]
fn expand_choice_single_alternative_never_prompts() {
    // The defensive branch: a lone alternative is written as it stands,
    // whatever the candidate, and no numbered prompt appears.
    let mut sink = BufWriter::new();
    let entry = vocab::ciyu_str(5); // zhang: one word
    let r = expand_choice_and_write(entry, '0', &mut sink);
    assert!(matches!(r, ExpandChoiceResult::WasNotChoice));
    assert_eq!(sink.to_s(), "长");
}

#[test]
fn greedy_longest_match_wins() {
    // Both "kun" and "kunchong" are dictionary keys; the scan starting at
    // the same position selects the longer window.
    let mut sink = BufWriter::new();
    assert_eq!("昆虫", hanzi_ime::dialects::query(&"kunchong", &mut sink));
}
