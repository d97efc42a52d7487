use clipcloak::entity::{dedup_entities, ExtractedEntity};
use clipcloak::mask::{mask_pii_text, maskable, normalize_label_for_mask};
use clipcloak::windows::{windows, MAX_TEXT_BYTES, OVERLAP_BYTES, WINDOW_BYTES};

fn ent(label: &str, score: f32, start: usize, end: usize) -> ExtractedEntity {
    ExtractedEntity {
        text: format!("{label} {start}"),
        label: label.to_string(),
        score: score.to_bits(),
        start_tok: 0,
        end_tok: 1,
        start_char: start,
        end_char: end,
    }
}

fn spans(v: &[ExtractedEntity]) -> Vec<(usize, usize)> {
    v.iter().map(|e| (e.start_char, e.end_char)).collect()
}

#[test]
fn limits_are_those_of_the_daemon() {
    assert_eq!((WINDOW_BYTES, OVERLAP_BYTES, MAX_TEXT_BYTES), (1500, 300, 40_000));
}

#[test]
fn a_short_text_is_one_window() {
    for n in [0, 1, 1499, 1500] {
        let text = "x".repeat(n);
        let w = windows(&text);
        assert_eq!(w.len(), 1);
        assert_eq!(w[0], (0, text.as_str()));
    }
}

#[test]
fn long_texts_are_scanned_in_overlapping_windows() {
    let text = "x".repeat(1501);
    let w = windows(&text);
    assert_eq!(w.iter().map(|p| (p.0, p.1.len())).collect::<Vec<_>>(), vec![(0, 1500), (1200, 301)]);
    let text = "x".repeat(4000);
    let w = windows(&text);
    assert_eq!(
        w.iter().map(|p| (p.0, p.1.len())).collect::<Vec<_>>(),
        vec![(0, 1500), (1200, 1500), (2400, 1500), (3600, 400)]
    );
}

#[test]
fn the_largest_text_is_scanned_in_a_few_dozen_windows() {
    let text = "x".repeat(MAX_TEXT_BYTES);
    let w = windows(&text);
    assert_eq!(w.len(), 34);
    assert!((w.len() - 1) * (WINDOW_BYTES - OVERLAP_BYTES) <= MAX_TEXT_BYTES);
}

#[test]
fn windows_begin_and_end_at_character_boundaries() {
    let text = "\u{20ac}".repeat(1300);
    let w = windows(&text);
    assert_eq!(w[0].1.len(), 1500);
    assert_eq!(w[1].0, 1200);
    let text = format!("x{}", "\u{1f600}".repeat(1000));
    let w = windows(&text);
    assert_eq!(w[0].1.len(), 1501);
    assert_eq!(w[1].0, 1201);
    for (start, part) in &w {
        assert_eq!(&text[*start..*start + part.len()], *part);
    }
    assert_eq!(w.last().unwrap().0 + w.last().unwrap().1.len(), text.len());
}

#[test]
fn every_short_span_lies_whole_in_one_window() {
    let text = format!("ab{}", "\u{e9}".repeat(2500));
    let w = windows(&text);
    for a in 0..text.len() - OVERLAP_BYTES {
        if text.is_char_boundary(a) {
            let b = a + OVERLAP_BYTES;
            assert!(w.iter().any(|(s, p)| *s <= a && b <= s + p.len()), "{a}");
        }
    }
}

#[test]
fn labels_become_tags() {
    assert_eq!(normalize_label_for_mask("street address"), "STREET_ADDRESS");
    assert_eq!(normalize_label_for_mask("phone_num"), "PHONE_NUM");
    assert_eq!(normalize_label_for_mask("__a -- b__"), "A_B");
    assert_eq!(normalize_label_for_mask("caf\u{e9} 9"), "CAF_9");
    assert_eq!(normalize_label_for_mask("---"), "");
    assert_eq!(normalize_label_for_mask(""), "");
}

#[test]
fn a_clean_tag_name_is_kept() {
    for name in ["NAME", "A_B_9", "X"] {
        assert_eq!(normalize_label_for_mask(name), name);
    }
}

#[test]
fn entities_are_replaced_by_tags() {
    let text = "I am Ann of 5 Elm Street.";
    let ents = vec![ent("name", 0.9, 5, 8), ent("street address", 0.8, 12, 24)];
    assert!(maskable(text, &ents));
    assert_eq!(mask_pii_text(text, &ents), "I am [NAME] of [STREET_ADDRESS].");
}

#[test]
fn text_of_which_nothing_is_masked_stays() {
    assert_eq!(mask_pii_text("plain", &[]), "plain");
    assert_eq!(mask_pii_text("", &[]), "");
}

#[test]
fn entities_outside_the_text_are_left_out() {
    let text = "abcdef";
    let ents = vec![ent("a", 0.9, 4, 7), ent("b", 0.9, 3, 3), ent("c", 0.9, 5, 2), ent("d", 0.1, 0, 2)];
    assert_eq!(mask_pii_text(text, &ents), "[D]cdef");
}

#[test]
fn the_higher_score_is_masked() {
    let text = "0123456789";
    let ents = vec![ent("low", 0.6, 0, 6), ent("high", 0.7, 4, 8)];
    assert_eq!(mask_pii_text(text, &ents), "0123[HIGH]89");
}

#[test]
fn the_wider_span_is_masked_at_equal_scores() {
    let text = "0123456789";
    let ents = vec![ent("narrow", 0.7, 0, 3), ent("wide", 0.7, 2, 8)];
    assert_eq!(mask_pii_text(text, &ents), "01[WIDE]89");
}

#[test]
fn the_earlier_span_is_masked_at_equal_widths() {
    let text = "0123456789";
    let ents = vec![ent("late", 0.7, 2, 6), ent("early", 0.7, 0, 4)];
    assert_eq!(mask_pii_text(text, &ents), "[EARLY]456789");
}

#[test]
fn multi_byte_text_is_masked_at_its_boundaries() {
    let text = "\u{e9}\u{e9} Zo\u{eb}!";
    let ents = vec![ent("name", 0.9, 5, 9)];
    assert!(maskable(text, &ents));
    assert_eq!(mask_pii_text(text, &ents), "\u{e9}\u{e9} [NAME]!");
}

#[test]
fn a_span_across_a_character_cannot_be_masked() {
    let text = "\u{e9}x";
    assert!(!maskable(text, &[ent("a", 0.9, 1, 2)]));
    assert!(maskable(text, &[ent("a", 0.9, 1, 9)]));
    assert!(maskable(text, &[ent("a", 0.9, 1, 2), ent("b", 0.95, 0, 3)]));
    assert!(!maskable(text, &[ent("a", f32::NAN, 1, 2)]));
    assert!(maskable(text, &[ent("a", f32::NAN, 0, 2), ent("b", 0.95, 0, 3)]));
}

#[test]
fn overlaps_are_resolved_in_text_order() {
    let pooled = vec![
        ent("a", 0.6, 20, 25),
        ent("b", 0.9, 3, 8),
        ent("c", 0.8, 5, 9),
        ent("d", 0.7, 8, 10),
        ent("b", 0.9, 3, 8),
    ];
    let out = dedup_entities(pooled);
    assert_eq!(spans(&out), vec![(3, 8), (8, 10), (20, 25)]);
    assert_eq!(out[0].text, "b 3");
}

#[test]
fn resolving_overlaps_twice_changes_nothing() {
    let pooled = vec![ent("a", 0.6, 0, 5), ent("b", 0.6, 4, 9), ent("c", 0.5, 9, 12), ent("d", 0.9, 11, 12)];
    let once = dedup_entities(pooled);
    let twice = dedup_entities(once.clone());
    assert_eq!(spans(&once), spans(&twice));
    assert_eq!(spans(&once), vec![(0, 5), (11, 12)]);
}

#[test]
fn what_is_reported_is_what_is_masked() {
    let text = "0123456789abcdef";
    let pooled = vec![ent("a", 0.6, 0, 5), ent("b", 0.8, 4, 9), ent("c", 0.7, 12, 14)];
    let masked = mask_pii_text(text, &pooled);
    let reported = dedup_entities(pooled);
    assert_eq!(mask_pii_text(text, &reported), masked);
    assert_eq!(masked, "0123[B]9ab[C]ef");
}

#[test]
fn the_order_of_different_entities_does_not_matter() {
    let text = "0123456789abcdef";
    let one = vec![ent("a", 0.6, 0, 5), ent("b", 0.8, 4, 9), ent("c", 0.8, 8, 14), ent("d", 0.5, 14, 16)];
    let mut other = one.clone();
    other.reverse();
    assert_eq!(mask_pii_text(text, &one), "[A]567[C][D]");
    assert_eq!(mask_pii_text(text, &other), mask_pii_text(text, &one));
}

#[test]
fn text_around_and_between_entities_is_kept() {
    let text = "aa BB cc DD ee";
    let ents = vec![ent("x", 0.9, 3, 5), ent("y", 0.9, 9, 11)];
    assert_eq!(mask_pii_text(text, &ents), "aa [X] cc [Y] ee");
}

#[test]
fn leaving_out_entities_outside_the_text_changes_nothing() {
    let text = "0123456789";
    let all = vec![ent("x", 0.9, 8, 11), ent("a", 0.5, 0, 4), ent("y", f32::NAN, 5, 5), ent("b", 0.6, 3, 6)];
    let valid = vec![all[1].clone(), all[3].clone()];
    assert_eq!(mask_pii_text(text, &all), mask_pii_text(text, &valid));
    assert_eq!(mask_pii_text(text, &all), "012[B]6789");
    let none = vec![all[0].clone(), all[2].clone()];
    assert_eq!(mask_pii_text(text, &none), text);
    let odd = vec![ent("a", f32::NAN, 0, 4), ent("x", 0.9, 8, 11), ent("b", 0.6, 3, 6)];
    let odd_valid = vec![odd[0].clone(), odd[2].clone()];
    assert_eq!(mask_pii_text(text, &odd), mask_pii_text(text, &odd_valid));
}
