//! Sentences and windows of a text.

use minnal_db::semantic_search::chunking::{chunk_document, sliding_windows, split_sentences};

// ── split_sentences ───────────────────────────────────────────────────────

#[test]
fn split_sentences_basic() {
    assert_eq!(
        split_sentences("First sentence. Second one! Third? Done."),
        vec!["First sentence.", "Second one!", "Third?", "Done."],
    );
}

#[test]
fn split_sentences_trailing_without_terminator() {
    assert_eq!(
        split_sentences("One sentence. And a trailing fragment"),
        vec!["One sentence.", "And a trailing fragment"],
    );
}

#[test]
fn split_sentences_consecutive_terminators_are_one_boundary() {
    assert_eq!(split_sentences("Really?! Yes."), vec!["Really?!", "Yes."]);
}

#[test]
fn split_sentences_mid_token_terminator_is_not_a_boundary() {
    // No whitespace after the dot in "3.14", so it stays in one sentence.
    assert_eq!(split_sentences("Pi is 3.14 today."), vec!["Pi is 3.14 today."]);
}

#[test]
fn split_sentences_collapses_whitespace_between_sentences() {
    assert_eq!(split_sentences("A.   B."), vec!["A.", "B."]);
}

#[test]
fn split_sentences_empty() {
    assert!(split_sentences("").is_empty());
    assert!(split_sentences("   \n\t ").is_empty());
}

#[test]
fn split_sentences_single_no_terminator() {
    assert_eq!(split_sentences("just a phrase"), vec!["just a phrase"]);
}

// ── split_sentences: documented heuristic limitations ─────────────────────
//
// These are *characterisation* tests: they pin the current dependency-free
// heuristic's behaviour on the hard cases (abbreviations, initials, decimals,
// ellipses, list markers, long sentences) so the trade-off is explicit and a
// change is caught. They assert what the splitter *does*, not what an ideal
// sentence segmenter would do — see the `split_sentences` doc comment.

#[test]
fn split_sentences_abbreviation_without_internal_space_ends_sentence() {
    // "U.S." has no whitespace after the first dot (followed by `S`), so that
    // dot is not a boundary — the abbreviation stays intact. But the trailing
    // "S." IS followed by whitespace, so it is (mis)treated as a sentence end:
    // "The U.S. economy grew." splits after the abbreviation.
    assert_eq!(split_sentences("The U.S. economy grew."), vec!["The U.S.", "economy grew."],);
}

#[test]
fn split_sentences_spaced_initials_split_per_initial() {
    // With a space after each dot, every initial looks like a sentence end.
    assert_eq!(split_sentences("J. R. R. Tolkien wrote it."), vec!["J.", "R.", "R.", "Tolkien wrote it."],);
}

#[test]
fn split_sentences_decimal_and_version_stay_intact() {
    // Dots inside numbers are followed by digits, not whitespace — not boundaries.
    assert_eq!(
        split_sentences("Version 2.0 ships at 3.30 today."),
        vec!["Version 2.0 ships at 3.30 today."]
    );
}

#[test]
fn split_sentences_ellipsis_ends_a_sentence() {
    // A run of terminators ("...") followed by whitespace is one boundary.
    assert_eq!(split_sentences("Wait... what happened?"), vec!["Wait...", "what happened?"]);
}

#[test]
fn split_sentences_numbered_list_markers_split() {
    // "1." / "2." are a digit + dot + space — each marker is read as a sentence
    // end, so numbered lists fragment: the marker attaches to the *preceding*
    // text and the item text attaches to the *next* marker.
    assert_eq!(
        split_sentences("Steps: 1. Mix flour 2. Add water 3. Bake"),
        vec!["Steps: 1.", "Mix flour 2.", "Add water 3.", "Bake"],
    );
}

#[test]
fn split_sentences_no_maximum_length() {
    // There is no max-sentence cap: a long run with no terminator is one unit.
    // (Windowing happens over whole sentences, so an unusually long sentence
    // yields one large chunk.)
    let long = "word ".repeat(200);
    let long = long.trim();
    assert_eq!(split_sentences(long), vec![long.to_string()]);
}

// ── sliding_windows ───────────────────────────────────────────────────────

fn units(items: &[&str]) -> Vec<String> {
    items.iter().map(|s| s.to_string()).collect()
}

#[test]
fn sliding_windows_overlap_step_one() {
    let u = units(&["a", "b", "c", "d", "e"]);
    assert_eq!(sliding_windows(&u, 2, 1), vec!["a b", "b c", "c d", "d e"]);
}

#[test]
fn sliding_windows_step_equals_window_with_remainder() {
    let u = units(&["a", "b", "c", "d", "e"]);
    assert_eq!(sliding_windows(&u, 2, 2), vec!["a b", "c d", "e"]);
}

#[test]
fn sliding_windows_window_larger_than_input_is_single_window() {
    let u = units(&["a", "b", "c"]);
    assert_eq!(sliding_windows(&u, 5, 1), vec!["a b c"]);
}

#[test]
fn sliding_windows_single_unit() {
    let u = units(&["a"]);
    assert_eq!(sliding_windows(&u, 2, 1), vec!["a"]);
}

#[test]
fn sliding_windows_empty_input() {
    assert!(sliding_windows(&[], 2, 1).is_empty());
}

#[test]
fn sliding_windows_clamps_zero_sliding_size() {
    // sliding_size 0 would never advance; clamped to 1.
    let u = units(&["a", "b", "c"]);
    assert_eq!(sliding_windows(&u, 2, 0), vec!["a b", "b c"]);
}

#[test]
fn sliding_windows_clamps_zero_window_size() {
    let u = units(&["a", "b"]);
    assert_eq!(sliding_windows(&u, 0, 1), vec!["a", "b"]);
}

#[test]
fn sliding_windows_last_window_keeps_remainder() {
    // window 3, slide 2 over 4 units: window 0 = [a,b,c], window 1 starts at
    // index 2 and holds the remainder [c,d].
    let u = units(&["a", "b", "c", "d"]);
    assert_eq!(sliding_windows(&u, 3, 2), vec!["a b c", "c d"]);
}

#[test]
fn sliding_windows_remainder_shorter_than_window() {
    // window 2, slide 2 over 5 units: [a,b], [c,d], then remainder [e].
    let u = units(&["a", "b", "c", "d", "e"]);
    assert_eq!(sliding_windows(&u, 2, 2), vec!["a b", "c d", "e"]);
}

// ── chunk_document ────────────────────────────────────────────────────────

#[test]
fn chunk_document_sentences_with_window() {
    let text = "Alpha one. Beta two. Gamma three.";
    // sentences: ["Alpha one.", "Beta two.", "Gamma three."], W=2 S=1
    assert_eq!(chunk_document(text, 2, 1), vec!["Alpha one. Beta two.", "Beta two. Gamma three."],);
}

#[test]
fn chunk_document_one_sentence_per_window() {
    assert_eq!(chunk_document("one two. three four.", 1, 1), vec!["one two.", "three four."],);
}

#[test]
fn chunk_empty_text_yields_no_chunks() {
    assert!(chunk_document("   ", 2, 1).is_empty());
    assert!(chunk_document("", 2, 1).is_empty());
}

#[test]
fn joined_sentences_split_into_themselves() {
    for text in ["One.  Two!\tThree? ... four", "  a.b. c", "no end", "", "Dr. No... yes?! ok."] {
        let sentences = split_sentences(text);
        assert_eq!(split_sentences(&sentences.join(" ")), sentences);
        for s in &sentences {
            assert_eq!(split_sentences(s), vec![s.clone()]);
        }
    }
}
