//! Comparison helper used when checking recognised text against annotated
//! ground truth, and its tests.

/// Normalise OCR text for comparison: strip whitespace (Japanese doesn't use
/// spaces) and fold full-width ！？ to half-width !? (model outputs half-width).
fn normalise_jp(s: &str) -> String {
    s.chars()
        .filter(|c| !c.is_whitespace())
        .map(|c| match c {
            '！' => '!',
            '？' => '?',
            _ => c,
        })
        .collect()
}

#[test]
fn test_normalise_jp_strips_whitespace() {
    assert_eq!(
        normalise_jp("最近人気の デスクトップな リナックスです！"),
        "最近人気のデスクトップなリナックスです!",
    );
}

#[test]
fn test_normalise_jp_folds_fullwidth_punctuation() {
    assert_eq!(normalise_jp("却下！"), "却下!");
    assert_eq!(normalise_jp("本当？"), "本当?");
    assert_eq!(normalise_jp("本当！？"), "本当!?");
}

#[test]
fn test_normalise_jp_passthrough() {
    assert_eq!(normalise_jp("うぶんちゅ"), "うぶんちゅ");
    assert_eq!(normalise_jp("データを正確に読み取る"), "データを正確に読み取る");
}

#[test]
fn test_normalise_jp_empty() {
    assert_eq!(normalise_jp(""), "");
}
