//! One search request, answered from scratch: the engines that the request
//! selects, and the search over them.
use vstd::prelude::*;
use crate::decoders::{
    decoder_catalog, is_catalog_decoder, register_selected, selected_positions, BuiltinDecoder,
};
use crate::engine::DecoderEngine;
use crate::scorer::english::dictionary_of;
use crate::scorer::{
    Base64Scorer, BinaryScorer, BuiltinScorer, EnglishScorer, EnglishStructureScorer,
    EnglishTextScorer, MorseCodeScorer, ScoringEngine, UrlScorer, YoutubeURLScorer,
};
use crate::search::{explore, explored, Chain, SearchConfig};
use crate::outside::string_from_chars;
use crate::text::{chars_of, parse_decimal_usize, parse_usize, trim_whitespace, trim_ws};

verus! {

/// A search request: the text, the search settings, the decoders to use and
/// an optional dictionary.
pub struct DecryptRequest {
    pub input: String,
    pub max_depth: usize,
    pub beam_width: Option<usize>,
    pub dedup_on_text: bool,
    pub selected_decoder_ids: Vec<String>,
    pub wordlist: Option<Vec<String>>,
}

/// The answer to a search request.
pub struct DecryptResponse {
    pub results: Vec<Chain>,
}

/// The abstract value of an optional word list.
pub open spec fn words_view(wordlist: Option<Vec<String>>) -> Option<Seq<Seq<char>>> {
    match wordlist {
        Some(w) => Some(w.deep_view()),
        None => None,
    }
}

/// The scorers of a request: the fixed ones, then the dictionary scorer over
/// the word list when there is one, else the plain-text scorer.
pub open spec fn request_scorers_ok(scorers: Seq<BuiltinScorer>, wordlist: Option<Seq<Seq<char>>>) -> bool {
    &&& scorers.len() == 7
    &&& scorers[0] is Url
    &&& scorers[1] is YoutubeUrl
    &&& scorers[2] is Binary
    &&& scorers[3] is Base64
    &&& scorers[4] is EnglishStructure
    &&& scorers[5] is MorseCode
    &&& match wordlist {
        Some(w) => scorers[6] matches BuiltinScorer::English(e) && e.dictionary() == dictionary_of(w),
        None => scorers[6] is EnglishText,
    }
}

/// The decoders of a request: one per catalog entry whose identifier is
/// selected, in catalog order.
pub open spec fn request_decoders_ok(decoders: Seq<BuiltinDecoder>, selected: Seq<Seq<char>>) -> bool {
    let pos = selected_positions(selected, decoder_catalog().len());
    &&& decoders.len() == pos.len()
    &&& forall|j: int| 0 <= j < pos.len() ==> is_catalog_decoder(#[trigger] decoders[j], pos[j])
}

/// The search settings of a request.
pub open spec fn request_config(req: &DecryptRequest) -> SearchConfig {
    SearchConfig {
        max_depth: req.max_depth,
        beam_width: req.beam_width,
        dedup_on_text: req.dedup_on_text,
    }
}

/// The depth that the form's depth field asks for: its trimmed text as a
/// number, 4 when it does not parse.
pub open spec fn form_depth(depth_text: Seq<char>) -> usize {
    match parse_usize(trim_ws(depth_text)) {
        Some(d) => d,
        None => 4,
    }
}

/// The beam width that the form's beam field asks for: none for a blank
/// field or one that does not parse, else its trimmed text as a number.
pub open spec fn form_beam(beam_text: Seq<char>) -> Option<usize> {
    let t = trim_ws(beam_text);
    if t.len() == 0 {
        None
    } else {
        parse_usize(t)
    }
}

/// The request that the search form describes: the trimmed input, the depth
/// and beam width read from their fields, deduplication on, and the selected
/// decoders and word list as given.
pub fn request_from_form(
    input_text: &str,
    depth_text: &str,
    beam_text: &str,
    selected_decoder_ids: Vec<String>,
    wordlist: Option<Vec<String>>,
) -> (r: DecryptRequest)
    ensures
        r.input@ == trim_ws(input_text@),
        r.max_depth == form_depth(depth_text@),
        r.beam_width == form_beam(beam_text@),
        r.dedup_on_text,
        r.selected_decoder_ids == selected_decoder_ids,
        r.wordlist == wordlist,
{
    let max_depth: usize = match parse_decimal_usize(&trim_whitespace(&chars_of(depth_text))) {
        Some(d) => d,
        None => 4,
    };
    let beam = trim_whitespace(&chars_of(beam_text));
    let beam_width: Option<usize> = if beam.len() == 0 {
        None
    } else {
        parse_decimal_usize(&beam)
    };
    DecryptRequest {
        input: string_from_chars(&trim_whitespace(&chars_of(input_text))),
        max_depth,
        beam_width,
        dedup_on_text: true,
        selected_decoder_ids,
        wordlist,
    }
}

/// The scoring engine for a request: the fixed scorers, then the dictionary
/// scorer when a word list is given, else the plain-text scorer.
pub fn build_scorer(wordlist: Option<Vec<String>>) -> (r: ScoringEngine)
    ensures
        request_scorers_ok(r.scorers(), words_view(wordlist)),
{
    let mut engine = ScoringEngine::new();
    engine.register(BuiltinScorer::Url(UrlScorer));
    engine.register(BuiltinScorer::YoutubeUrl(YoutubeURLScorer));
    engine.register(BuiltinScorer::Binary(BinaryScorer));
    engine.register(BuiltinScorer::Base64(Base64Scorer));
    engine.register(BuiltinScorer::EnglishStructure(EnglishStructureScorer));
    engine.register(BuiltinScorer::MorseCode(MorseCodeScorer));
    match wordlist {
        Some(set) => {
            engine.register(BuiltinScorer::English(EnglishScorer::new_with_wordlist(set)));
        },
        None => {
            engine.register(BuiltinScorer::EnglishText(EnglishTextScorer));
        },
    }
    engine
}

/// Answers a request: builds the decoder engine from the selected decoders
/// and the scoring engine from the word list, then runs the search.
pub fn decrypt_worker(req: DecryptRequest) -> (r: DecryptResponse)
    ensures
        exists|ds: Seq<BuiltinDecoder>, sc: Seq<BuiltinScorer>|
            #![trigger explored(ds, sc, req.input@, request_config(&req))]
            request_decoders_ok(ds, req.selected_decoder_ids@.map_values(|s: String| s@))
                && request_scorers_ok(sc, words_view(req.wordlist)) && r.results.deep_view()
                == explored(ds, sc, req.input@, request_config(&req)),
{
    let ghost ids = req.selected_decoder_ids@.map_values(|s: String| s@);
    let ghost words = words_view(req.wordlist);
    let ghost cfg_view = request_config(&req);
    let mut dec_engine = DecoderEngine::new();
    register_selected(&mut dec_engine, req.selected_decoder_ids.as_slice());
    let ghost ds = dec_engine.decoders();
    assert(request_decoders_ok(ds, ids)) by {
        let pos = selected_positions(ids, 11);
        assert forall|j: int| 0 <= j < pos.len() implies is_catalog_decoder(#[trigger] ds[j], pos[j]) by {
            assert(ds[0 + j] == ds[j]);
        }
    }
    let scorer = build_scorer(req.wordlist);
    let cfg = SearchConfig {
        max_depth: req.max_depth,
        beam_width: req.beam_width,
        dedup_on_text: req.dedup_on_text,
    };
    let results = explore(&dec_engine, &scorer, req.input.as_str(), cfg);
    let r = DecryptResponse { results };
    assert(request_scorers_ok(scorer.scorers(), words));
    assert(r.results.deep_view() == explored(ds, scorer.scorers(), req.input@, cfg_view));
    r
}

} // verus!
