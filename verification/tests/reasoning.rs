use aetheria::reasoning::extract_thinking;

#[test]
fn returns_text_unchanged_when_no_tags_present() {
    let (visible, thought) = extract_thinking("just a normal reply");
    assert_eq!(visible, "just a normal reply");
    assert_eq!(thought, None);
}

#[test]
fn extracts_a_matched_pair() {
    let (visible, thought) = extract_thinking("<think>pondering</think>Hello there.");
    assert_eq!(visible, "Hello there.");
    assert_eq!(thought, Some("pondering".to_string()));
}

#[test]
fn treats_an_unterminated_open_tag_as_an_in_progress_thought() {
    let (visible, thought) = extract_thinking("<think>still thinking, no close tag yet");
    assert_eq!(visible, "");
    assert_eq!(thought, Some("still thinking, no close tag yet".to_string()));
}

#[test]
fn treats_an_unterminated_close_tag_as_a_thought_with_no_visible_text() {
    let (visible, thought) = extract_thinking("some thought text</think>");
    assert_eq!(visible, "");
    assert_eq!(thought, Some("some thought text".to_string()));
}

#[test]
fn concatenates_multiple_thought_blocks() {
    let (visible, thought) = extract_thinking("<think>first</think>middle<think>second</think>end");
    assert_eq!(visible, "middleend");
    assert_eq!(thought, Some("first\n\nsecond".to_string()));
}

#[test]
fn text_before_an_open_tag_stays_visible() {
    let (visible, thought) = extract_thinking("Hi <think>hmm");
    assert_eq!(visible, "Hi ");
    assert_eq!(thought, Some("hmm".to_string()));
}

#[test]
fn a_single_block_splits_into_thought_and_rest() {
    let (visible, thought) = extract_thinking("<think>plan</think>answer");
    assert_eq!((visible.as_str(), thought.as_deref()), ("answer", Some("plan")));
}

#[test]
fn an_empty_reply_has_no_thought() {
    let (visible, thought) = extract_thinking("");
    assert_eq!(visible, "");
    assert_eq!(thought, None);
}
