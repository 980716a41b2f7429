//! Tests of the library on concrete values.

use manga_ocr_rs::beam::BeamSearch;
use manga_ocr_rs::calibration::dimension_calibration;
use manga_ocr_rs::model_dir::{default_model_dir, join_path};
use manga_ocr_rs::ngram::apply_no_repeat_ngram;
use manga_ocr_rs::preprocess::{planar_from_interleaved, preprocess, Crop, PixelLayout};
use manga_ocr_rs::tensor::{cycle_take, last_position_offset};
use manga_ocr_rs::transcript::{decode_step_limit, score_length, transcribe};
use manga_ocr_rs::vocab::VocabDecoder;
use manga_ocr_rs::{DECODER_START_TOKEN_ID, EOS_TOKEN_ID, IMG_SIZE};

// ── model directory ──────────────────────────────────────────────────────────

#[test]
fn model_dir_override_wins() {
    assert_eq!(default_model_dir(Some("/models"), Some("/home/u")), "/models");
    assert_eq!(default_model_dir(Some(""), Some("/home/u")), "");
}

#[test]
fn model_dir_under_home_cache() {
    assert_eq!(default_model_dir(None, Some("/home/u")), "/home/u/.cache/manga-ocr-rs");
    assert_eq!(default_model_dir(None, Some("/home/u/")), "/home/u/.cache/manga-ocr-rs");
    assert_eq!(default_model_dir(None, Some("/")), "/.cache/manga-ocr-rs");
}

#[test]
fn model_dir_without_home_uses_current_dir() {
    assert_eq!(default_model_dir(None, None), "./.cache/manga-ocr-rs");
    assert_eq!(default_model_dir(None, Some("")), ".cache/manga-ocr-rs");
}

#[test]
fn join_path_cases() {
    assert_eq!(join_path("a", "b"), "a/b");
    assert_eq!(join_path("a/", "b"), "a/b");
    assert_eq!(join_path("", "b"), "b");
    assert_eq!(join_path("a", "/b"), "/b");
    assert_eq!(join_path("データ", "b"), "データ/b");
}

// ── vocabulary ───────────────────────────────────────────────────────────────

fn specials() -> String {
    let mut s = String::new();
    for i in 0..15 {
        s.push_str(&format!("[S{i}]\n"));
    }
    s
}

#[test]
fn vocab_lines_are_token_ids() {
    let v = VocabDecoder::from_text("a\nb\r\nc");
    assert_eq!(v.len(), 3);
    let v = VocabDecoder::from_text("a\nb\n");
    assert_eq!(v.len(), 2);
    let v = VocabDecoder::from_text("");
    assert_eq!(v.len(), 0);
    let v = VocabDecoder::from_text("\n");
    assert_eq!(v.len(), 1);
    let v = VocabDecoder::from_text("a\n\nb");
    assert_eq!(v.len(), 3);
}

#[test]
fn vocab_decode_skips_specials_and_subword_marks() {
    let content = format!("{}デ\n##ータ\n####を\n#x\n##\nz\r\n", specials());
    let v = VocabDecoder::from_text(&content);
    assert_eq!(v.len(), 21);
    assert_eq!(v.decode(&[2, 15, 16, 17, 3]), "データを");
    assert_eq!(v.decode(&[18]), "#x");
    assert_eq!(v.decode(&[19, 20]), "z");
    assert_eq!(v.decode(&[0, 1, 14]), "");
    assert_eq!(v.decode(&[-1, 21, 1000, i64::MIN, i64::MAX]), "");
    assert_eq!(v.decode(&[]), "");
}

#[test]
fn vocab_decode_is_token_by_token() {
    let content = format!("{}ア\nイ\n##ウ\n", specials());
    let v = VocabDecoder::from_text(&content);
    let a = [15i64, 16];
    let b = [17i64, 2, 15];
    let ab = [15i64, 16, 17, 2, 15];
    assert_eq!(v.decode(&ab), format!("{}{}", v.decode(&a), v.decode(&b)));
}

#[test]
fn vocab_final_line_ending_is_optional() {
    let content = format!("{}ア\nイ", specials());
    let with_newline = format!("{content}\n");
    let v1 = VocabDecoder::from_text(&content);
    let v2 = VocabDecoder::from_text(&with_newline);
    assert_eq!(v1.len(), v2.len());
    assert_eq!(v1.decode(&[15, 16]), v2.decode(&[15, 16]));
}

#[test]
fn vocab_keeps_lone_carriage_return() {
    let content = format!("{}ア\r", specials());
    let v = VocabDecoder::from_text(&content);
    assert_eq!(v.decode(&[15]), "ア\r");
}

// ── n-gram rule ──────────────────────────────────────────────────────────────

#[test]
fn ngram_blocks_repeating_token() {
    // ... 10 11 12 ... 10 11 -> 12 would repeat the trigram 10 11 12
    let ids = [2i64, 10, 11, 12, 10, 11];
    let mut scores: Vec<f32> = vec![0.5; 20];
    apply_no_repeat_ngram(&ids, &mut scores, f32::NEG_INFINITY);
    for (t, s) in scores.iter().enumerate() {
        if t == 12 {
            assert_eq!(*s, f32::NEG_INFINITY);
        } else {
            assert_eq!(*s, 0.5);
        }
    }
}

#[test]
fn ngram_blocks_every_follower() {
    let ids = [5i64, 6, 1, 5, 6, 2, 5, 6];
    let mut scores: Vec<i32> = (0..8).collect();
    apply_no_repeat_ngram(&ids, &mut scores, -1);
    assert_eq!(scores, vec![0, -1, -1, 3, 4, 5, 6, 7]);
}

#[test]
fn ngram_short_or_out_of_range() {
    let mut scores: Vec<i32> = vec![1, 2, 3];
    apply_no_repeat_ngram(&[2i64], &mut scores, 0);
    assert_eq!(scores, vec![1, 2, 3]);
    // follower 9 is outside the scores, -4 is negative: nothing changes
    apply_no_repeat_ngram(&[1i64, 1, 9, 1, 1, -4, 1, 1], &mut scores, 0);
    assert_eq!(scores, vec![1, 2, 3]);
    apply_no_repeat_ngram(&[], &mut scores, 0);
    assert_eq!(scores, vec![1, 2, 3]);
}

// ── calibration ──────────────────────────────────────────────────────────────

#[test]
fn calibration_sweet_spot_fixtures_have_no_penalty() {
    // yokogaki 360×197 and tategaki 480×262
    for (w, h) in [(360u32, 197u32), (480, 262)] {
        let c = dimension_calibration(w, h);
        assert_eq!((c.area_percent, c.aspect_percent), (100, 100));
    }
}

#[test]
fn calibration_bands() {
    let f = |w, h| {
        let c = dimension_calibration(w, h);
        (c.area_percent, c.aspect_percent)
    };
    assert_eq!(f(40, 40), (30, 100));
    assert_eq!(f(50, 50), (60, 100));
    assert_eq!(f(100, 100), (100, 100));
    assert_eq!(f(1000, 1000), (90, 100));
    assert_eq!(f(2000, 1000), (70, 95));
    assert_eq!(f(1000, 100), (100, 70));
    assert_eq!(f(100, 1000), (100, 70));
    assert_eq!(f(300, 100), (100, 95));
    assert_eq!(f(700, 100), (100, 85));
    assert_eq!(f(800, 100), (100, 70));
    assert_eq!(f(0, 0), (30, 100));
    assert_eq!(f(3, 0), (30, 95));
    assert_eq!(f(u32::MAX, u32::MAX), (70, 100));
}

#[test]
fn calibration_matches_float_factors() {
    let c = dimension_calibration(40, 200);
    let cal = (c.area_percent as f32 / 100.0) * (c.aspect_percent as f32 / 100.0);
    assert_eq!(cal, 0.6f32 * 0.85f32);
}

// ── preprocessing ────────────────────────────────────────────────────────────

#[test]
fn planar_layout() {
    let raw = vec![1u8, 2, 3, 4, 5, 6, 7, 8, 9, 100];
    assert_eq!(planar_from_interleaved(&raw, 3), vec![1, 4, 7, 2, 5, 8, 3, 6, 9]);
    assert_eq!(planar_from_interleaved(&raw, 0), Vec::<u8>::new());
}

fn rgb_crop(w: u32, h: u32, px: [u8; 3]) -> Crop {
    let bytes: Vec<u8> = (0..w * h).flat_map(|_| px).collect();
    Crop::new(w, h, PixelLayout::Rgb8, bytes).expect("exact size")
}

#[test]
fn crop_needs_exact_size() {
    assert!(Crop::new(2, 2, PixelLayout::Rgb8, vec![0; 12]).is_some());
    assert!(Crop::new(2, 2, PixelLayout::Rgb8, vec![0; 13]).is_none());
    assert!(Crop::new(2, 2, PixelLayout::Rgba8, vec![0; 12]).is_none());
    assert!(Crop::new(0, 5, PixelLayout::Luma8, vec![]).is_some());
}

#[test]
fn preprocess_squishes_to_model_size_in_gray() {
    let crop = rgb_crop(10, 5, [255, 0, 0]);
    let (shape, data) = preprocess(&crop);
    assert_eq!(shape, [1, 3, IMG_SIZE, IMG_SIZE]);
    assert_eq!(data.len(), 3 * 224 * 224);
    let v = data[0];
    assert!(v > 0 && v < 255, "grayscale of pure red is mid gray, got {v}");
    // (2126 * 255) / 10000 = 54, kept by a resize of a uniform image
    assert_eq!(crop.grayscale().pixels()[0], 54);
    assert!(data.iter().all(|&x| x == v));
}

#[test]
fn preprocess_black_strip_and_white_pixel() {
    let strip = Crop::new(3, 1, PixelLayout::Luma8, vec![0, 0, 0]).unwrap();
    let (_, data) = preprocess(&strip);
    assert!(data.iter().all(|&x| x == 0), "a black strip squishes to black, no padding");
    let white = Crop::new(1, 1, PixelLayout::Luma8, vec![255]).unwrap();
    let (_, data) = preprocess(&white);
    assert!(data.iter().all(|&x| x == 255));
}

#[test]
fn preprocess_keeps_pixel_positions() {
    // left half black, right half white: every plane is dark on the left
    let bytes: Vec<u8> = (0..448 * 448).map(|i| if i % 448 < 224 { 0 } else { 255 }).collect();
    let crop = Crop::new(448, 448, PixelLayout::Luma8, bytes).unwrap();
    let (_, data) = preprocess(&crop);
    let plane = 224 * 224;
    for c in 0..3 {
        assert!(data[c * plane + 10 * 224 + 5] < 10);
        assert!(data[c * plane + 10 * 224 + 220] > 245);
    }
}

#[test]
fn preprocess_sees_only_gray() {
    let crop = rgb_crop(30, 20, [10, 200, 90]);
    let gray = crop.grayscale();
    assert_eq!(gray.layout(), PixelLayout::Luma8);
    assert_eq!((gray.width(), gray.height()), (30, 20));
    assert_eq!(preprocess(&gray), preprocess(&crop));
    // (2126*10 + 7152*200 + 722*90) / 10000 = 151
    assert!(gray.pixels().iter().all(|&v| v == 151));
    let rgba: Vec<u8> = (0..12).flat_map(|i| [i * 20, 255 - i * 20, 7, 255]).collect();
    let crop = Crop::new(4, 3, PixelLayout::Rgba8, rgba).unwrap();
    let gray = crop.grayscale();
    assert_eq!(gray.layout(), PixelLayout::LumaA8);
    assert_eq!(gray.pixels().len(), 2 * 12);
    // first pixel (0, 255, 7, 255): gray (7152*255 + 722*7) / 10000 = 182, alpha kept
    assert_eq!(&gray.pixels()[..2], &[182, 255]);
    assert_eq!(preprocess(&gray), preprocess(&crop));
    // a gray crop is its own grayscale version
    let luma = Crop::new(2, 1, PixelLayout::Luma8, vec![3, 250]).unwrap();
    assert_eq!(luma.grayscale().pixels(), &vec![3, 250]);
}

// ── tensors ──────────────────────────────────────────────────────────────────

#[test]
fn cycle_take_repeats() {
    assert_eq!(cycle_take(&vec![1, 2, 3], 7), vec![1, 2, 3, 1, 2, 3, 1]);
    assert_eq!(cycle_take(&vec![1.5f32, 2.5], 4), vec![1.5, 2.5, 1.5, 2.5]);
    assert_eq!(cycle_take(&Vec::<i32>::new(), 5), Vec::<i32>::new());
    assert_eq!(cycle_take(&vec![9], 0), Vec::<i32>::new());
}

#[test]
fn last_position_offsets() {
    assert_eq!(last_position_offset(0, 1, 100), 0);
    assert_eq!(last_position_offset(0, 3, 100), 200);
    assert_eq!(last_position_offset(2, 3, 100), 800);
}

// ── beam search ──────────────────────────────────────────────────────────────

#[test]
fn beam_search_steps() {
    let seeds: Vec<(usize, f32)> = vec![(10, -0.1), (3, -0.5), (11, -1.0)];
    assert!(BeamSearch::start(&seeds, 1).next_batch().is_none(), "a limit of one run leaves only the seeds");
    let mut search = BeamSearch::start(&seeds, 3);
    assert_eq!(search.max_steps_limit(), 3);
    let ids: Vec<Vec<i64>> = search.beams().iter().map(|b| b.ids.clone()).collect();
    assert_eq!(ids, vec![vec![2, 10], vec![2, 3], vec![2, 11]]);
    assert_eq!(search.completed().len(), 1);
    assert_eq!(search.completed()[0].ids, vec![2, 3]);
    assert!(search.completed()[0].hit_eos);
    assert_eq!(search.completed()[0].score, -0.5);

    let batch = search.next_batch().expect("two beams are active");
    assert_eq!(batch.beam_indices, vec![0, 2]);
    assert_eq!(batch.seq_len, 2);
    assert_eq!(batch.input_ids, vec![2, 10, 2, 11]);

    search.advance(&vec![(0, 12, -0.3f32), (2, EOS_TOKEN_ID, -1.2), (0, 13, -0.9)]);
    let ids: Vec<Vec<i64>> = search.beams().iter().map(|b| b.ids.clone()).collect();
    assert_eq!(ids, vec![vec![2, 10, 12], vec![2, 11], vec![2, 10, 13]]);
    assert_eq!(search.completed().len(), 2);
    assert_eq!(search.completed()[1].ids, vec![2, 11]);
    assert_eq!(search.completed()[1].score, -1.2);

    let batch = search.next_batch().expect("two beams are active");
    assert_eq!(batch.beam_indices, vec![0, 2]);
    assert_eq!(batch.seq_len, 3);
    assert_eq!(batch.input_ids, vec![2, 10, 12, 2, 10, 13]);

    search.advance(&vec![(2, 14, -1.0f32), (0, 15, -1.1)]);
    assert!(search.next_batch().is_none(), "the limit of three runs ends the search");
    let finished = search.finish();
    let hyps = finished.hypotheses();
    let summary: Vec<(Vec<i64>, bool)> = hyps.iter().map(|h| (h.ids.clone(), h.hit_eos)).collect();
    assert_eq!(
        summary,
        vec![
            (vec![2, 3], true),
            (vec![2, 11], true),
            (vec![2, 10, 13, 14], false),
            (vec![2, 10, 12, 15], false),
        ]
    );
    // truncated sequences hold exactly the limit of generated tokens
    assert!(hyps.iter().filter(|h| !h.hit_eos).all(|h| h.ids.len() - 1 == 3));

    let content = format!("{}ア\n", specials());
    let v = VocabDecoder::from_text(&content);
    let t = finished.transcribe(&v, Some(2));
    assert_eq!((t.token_count, t.truncated), (3, true));
    let t = finished.transcribe(&v, Some(1));
    assert_eq!((t.token_count, t.scored_tokens, t.truncated), (1, 2, false));
    let t = finished.transcribe(&v, Some(0));
    assert_eq!((t.token_count, t.scored_tokens, t.truncated), (1, 1, false));
    let t = finished.transcribe(&v, None);
    assert_eq!((t.text.as_str(), t.token_count, t.truncated), ("", 0, true));
}

#[test]
fn beam_search_ends_when_all_finished() {
    let seeds: Vec<(usize, f32)> = vec![(3, -0.2), (7, -0.4)];
    let mut search = BeamSearch::start(&seeds, 50);
    assert!(search.next_batch().is_some());
    search.advance(&vec![(1, EOS_TOKEN_ID, -0.6f32)]);
    assert!(search.next_batch().is_none());
    let finished = search.finish();
    let hyps = finished.hypotheses();
    assert_eq!(hyps.len(), 2);
    assert!(hyps.iter().all(|h| h.hit_eos && h.ids[0] == DECODER_START_TOKEN_ID));
    assert_eq!(hyps[1].ids, vec![2, 7]);
}

// ── transcript ───────────────────────────────────────────────────────────────

#[test]
fn transcript_of_sequence() {
    let content = format!("{}ア\n##イ\n", specials());
    let v = VocabDecoder::from_text(&content);
    // ended with the end token after two tokens: three log-probs scored
    let t = transcribe(&v, &[2, 15, 16], true);
    assert_eq!(t.text, "アイ");
    assert_eq!(t.token_count, 2);
    assert_eq!(t.scored_tokens, 3);
    assert!(!t.truncated);
    assert_eq!(t.score_length(), 2);
    assert_eq!(t.confidence_length(), 3);

    // cut off at the limit: only the generated tokens are scored
    let t = transcribe(&v, &[2, 15, 16], false);
    assert_eq!(t.scored_tokens, 2);
    assert!(t.truncated);
    assert_eq!(t.confidence_length(), 2);

    // the end token as the first generated token is held in the ids
    let t = transcribe(&v, &[2, EOS_TOKEN_ID], true);
    assert_eq!(t.text, "");
    assert_eq!(t.token_count, 1);
    assert_eq!(t.scored_tokens, 1);
    assert_eq!(t.score_length(), 1);

    let t = transcribe(&v, &[], false);
    assert_eq!(t.text, "");
    assert_eq!(t.token_count, 0);
    assert!(t.truncated);
    assert_eq!(t.score_length(), 1);
    assert_eq!(t.confidence_length(), 1);
}

#[test]
fn score_length_counts_generated_tokens() {
    assert_eq!(score_length(&[2, 15, 16, 17]), 3);
    assert_eq!(score_length(&[2, 3]), 1);
    assert_eq!(score_length(&[2]), 1);
    assert_eq!(score_length(&[]), 1);
}

#[test]
fn decode_step_limit_is_at_least_one() {
    assert_eq!(decode_step_limit(0), 1);
    assert_eq!(decode_step_limit(1), 1);
    assert_eq!(decode_step_limit(300), 300);
}

// ── vocabulary lines against `str::lines` ────────────────────────────────────

fn tokens_of(v: &VocabDecoder) -> Vec<String> {
    (0..v.len()).map(|i| v.token(i).expect("id in range")).collect()
}

#[test]
fn vocab_tokens_are_the_lines() {
    let v = VocabDecoder::from_text("[PAD]\n[UNK]\r\n##ー\n");
    assert_eq!(tokens_of(&v), vec!["[PAD]", "[UNK]", "##ー"]);
    assert_eq!(v.token(3), None);
}

#[test]
fn vocab_lines_match_str_lines() {
    let samples = [
        "", "\n", "\r\n", "\r", "a", "a\n", "a\r", "a\r\n", "a\n\n", "a\r\r\n", "\n\na", "\r\na\r\nb",
        "x\ny\rz\r\n", "データ\n##ータ\r\n\r\n", "a\nb\nc", "\r\r\n\r", " \n\t\n",
    ];
    for c in samples {
        let v = VocabDecoder::from_text(c);
        let expected: Vec<String> = c.lines().map(str::to_owned).collect();
        assert_eq!(tokens_of(&v), expected, "content {c:?}");
    }
}
