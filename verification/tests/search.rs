use locksmith::decoders::{BuiltinDecoder, CaesarDecoder, HexDecoder, ReverseDecoder};
use locksmith::engine::DecoderEngine;
use locksmith::scorer::{BuiltinScorer, EnglishTextScorer, ScoringEngine, UrlScorer};
use locksmith::search::{explore, sorted_by_score, Chain, SearchConfig};
use locksmith::worker::{build_scorer, decrypt_worker, request_from_form, DecryptRequest};
use std::collections::HashSet;

fn engine_of(decoders: Vec<BuiltinDecoder>) -> DecoderEngine {
    let mut e = DecoderEngine::new();
    for d in decoders {
        e.register(d);
    }
    e
}

fn text_scorer() -> ScoringEngine {
    let mut s = ScoringEngine::new();
    s.register(BuiltinScorer::EnglishText(EnglishTextScorer));
    s
}

fn cfg(max_depth: usize, beam_width: Option<usize>, dedup_on_text: bool) -> SearchConfig {
    SearchConfig { max_depth, beam_width, dedup_on_text }
}

fn texts(chains: &[Chain]) -> Vec<String> {
    chains.iter().map(|c| c.text.clone()).collect()
}

#[test]
fn depth_zero_returns_rated_input() {
    let engine = engine_of(vec![BuiltinDecoder::Reverse(ReverseDecoder)]);
    let mut scorer = ScoringEngine::new();
    scorer.register(BuiltinScorer::Url(UrlScorer));
    let res = explore(&engine, &scorer, "abcdef", cfg(0, None, true));
    assert_eq!(res.len(), 1);
    assert_eq!(res[0].text, "abcdef");
    assert!(res[0].steps.is_empty());
    assert_eq!(res[0].score, 0);
    assert_eq!(res[0].detected_as, "url");
}

#[test]
fn results_are_sorted_by_score() {
    let engine = engine_of(vec![BuiltinDecoder::Hex(HexDecoder)]);
    let mut scorer = ScoringEngine::new();
    scorer.register(BuiltinScorer::Url(UrlScorer));
    let res = explore(&engine, &scorer, "687474703a2f2f78", cfg(3, None, true));
    assert_eq!(texts(&res), vec!["http://x".to_string(), "687474703a2f2f78".to_string()]);
    assert_eq!(res[0].score, 100);
    assert_eq!(res[0].detected_as, "url");
    assert_eq!(res[0].steps.len(), 1);
    assert_eq!(res[0].steps[0].op_id, "hex");
    assert_eq!(res[1].score, 0);
    assert!(res[1].steps.is_empty());
}

#[test]
fn short_texts_are_rated_short() {
    let engine = engine_of(vec![BuiltinDecoder::Hex(HexDecoder)]);
    let res = explore(&engine, &text_scorer(), "6869", cfg(3, None, true));
    assert_eq!(texts(&res), vec!["6869".to_string(), "hi".to_string()]);
    assert_eq!(res[0].detected_as, "Short");
    assert_eq!(res[1].score, 10);
}

#[test]
fn no_decoder_follows_itself_when_forbidden() {
    let engine = engine_of(vec![BuiltinDecoder::Reverse(ReverseDecoder)]);
    let res = explore(&engine, &text_scorer(), "abcdef", cfg(4, None, false));
    assert_eq!(texts(&res), vec!["abcdef".to_string(), "fedcba".to_string()]);
}

#[test]
fn dedup_skips_seen_texts() {
    let engine = engine_of(vec![
        BuiltinDecoder::Reverse(ReverseDecoder),
        BuiltinDecoder::Caesar(CaesarDecoder),
    ]);
    let with = explore(&engine, &text_scorer(), "abcde", cfg(2, None, true));
    assert_eq!(with.len(), 52);
    let distinct: HashSet<String> = texts(&with).into_iter().collect();
    assert_eq!(distinct.len(), with.len());
    let without = explore(&engine, &text_scorer(), "abcde", cfg(2, None, false));
    assert_eq!(without.len(), 77);
    for c in &with {
        assert!(c.steps.len() <= 2);
        for w in c.steps.windows(2) {
            assert_ne!(w[0].op_id, w[1].op_id);
        }
    }
}

#[test]
fn beam_keeps_best_per_layer() {
    let engine = engine_of(vec![BuiltinDecoder::Caesar(CaesarDecoder)]);
    let res = explore(&engine, &text_scorer(), "abcde", cfg(1, Some(3), false));
    assert_eq!(
        texts(&res),
        vec!["abcde".to_string(), "bcdef".to_string(), "cdefg".to_string(), "defgh".to_string()]
    );
    assert_eq!(res[3].steps[0].desc, "Caesar shift 3");
}

#[test]
fn zero_beam_keeps_nothing() {
    let engine = engine_of(vec![BuiltinDecoder::Caesar(CaesarDecoder)]);
    let res = explore(&engine, &text_scorer(), "abcde", cfg(2, Some(0), true));
    assert!(res.is_empty());
}

#[test]
fn sorting_is_stable() {
    let make = |t: &str, s: i32| Chain {
        text: t.to_string(),
        steps: Vec::new(),
        score: s,
        detected_as: String::new(),
    };
    let layer = vec![make("a", 1), make("b", 5), make("c", 1), make("d", 5)];
    let sorted = sorted_by_score(&layer);
    assert_eq!(
        texts(&sorted),
        vec!["b".to_string(), "d".to_string(), "a".to_string(), "c".to_string()]
    );
}

#[test]
fn worker_uses_selected_decoders() {
    let req = DecryptRequest {
        input: "687474703a2f2f78".to_string(),
        max_depth: 2,
        beam_width: Some(1000),
        dedup_on_text: true,
        selected_decoder_ids: vec!["hex".to_string()],
        wordlist: None,
    };
    let resp = decrypt_worker(req);
    assert_eq!(
        texts(&resp.results),
        vec!["http://x".to_string(), "687474703a2f2f78".to_string()]
    );
    assert_eq!(resp.results[0].detected_as, "url");
    assert_eq!(resp.results[1].detected_as, "English Text");
}

#[test]
fn worker_scorer_with_wordlist() {
    let scorer = build_scorer(Some(vec!["hello".to_string(), "world".to_string()]));
    assert_eq!(scorer.best("hello world"), Some(("english", 100)));
    let plain = build_scorer(None);
    assert_eq!(plain.best("hello world"), Some(("English Text", 50)));
}

#[test]
fn form_fields_are_read_like_the_search_form() {
    let r = request_from_form("  abc \n", " 6 ", "", vec!["hex".to_string()], None);
    assert_eq!(r.input, "abc");
    assert_eq!(r.max_depth, 6);
    assert_eq!(r.beam_width, None);
    assert!(r.dedup_on_text);
    assert_eq!(r.selected_decoder_ids, vec!["hex".to_string()]);
    let r = request_from_form("x", "deep", " 100 ", Vec::new(), Some(vec!["word".to_string()]));
    assert_eq!(r.max_depth, 4);
    assert_eq!(r.beam_width, Some(100));
    assert_eq!(r.wordlist, Some(vec!["word".to_string()]));
    let r = request_from_form("x", "+7", "abc", Vec::new(), None);
    assert_eq!(r.max_depth, 7);
    assert_eq!(r.beam_width, None);
    let r = request_from_form("x", "99999999999999999999999", "-1", Vec::new(), None);
    assert_eq!(r.max_depth, 4);
    assert_eq!(r.beam_width, None);
}
