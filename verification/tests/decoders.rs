use locksmith::decoders::{
    all_decoders_info, register_all, register_selected, Base32Decoder, Base58Decoder,
    Base64Decoder, BinaryDecoder, BuiltinDecoder, CaesarDecoder, Dec2AsciiDecoder, Filter,
    HTMLEntityDecoder, HexDecoder, MorseCodeDecoder, ReverseDecoder, ThreeOneTwoCipher,
    URLDecoder,
};
use locksmith::decoders::base32::base32_results;
use locksmith::decoders::base58::base58_results;
use locksmith::decoders::base64::base64_results;
use locksmith::decoders::url::url_results;
use locksmith::engine::{Decoder, DecoderEngine, Policy, Step};
use locksmith::outside::Base32Alphabet;

fn outputs(results: &[locksmith::engine::TransformResult]) -> Vec<String> {
    results.iter().map(|r| r.output.clone()).collect()
}

#[test]
fn test_base32_decoder() {
    let decoder = Base32Decoder;
    let input = "ORSXG5A=";
    let outputs: Vec<String> = decoder.apply(input).into_iter().map(|tr| tr.output).collect();
    assert!(outputs.contains(&"test".to_string()));
}

#[test]
fn base32_steps_name_the_alphabet() {
    let res = Base32Decoder.apply("ORSXG5A=");
    assert!(!res.is_empty());
    assert_eq!(res[0].step.op_id, "base32");
    assert_eq!(res[0].step.desc, "Base32 decode (RFC4648)");
    assert_eq!(res[0].output, "test");
}

#[test]
fn binary_to_ascii_basic() {
    let d = BinaryDecoder;
    let res = d.apply("01101000 01101001");
    assert_eq!(res.len(), 1);
    assert_eq!(res[0].output, "hi");
}

#[test]
fn ignores_non_binary_chars() {
    let d = BinaryDecoder;
    let res = d.apply("0110-1000, 0110-1001");
    assert_eq!(res.len(), 1);
    assert_eq!(res[0].output, "hi");
}

#[test]
fn incomplete_final_byte_is_ignored() {
    let d = BinaryDecoder;
    let res = d.apply("0110100");
    assert_eq!(res.len(), 1);
    assert_eq!(res[0].output, "");
}

#[test]
fn decodes_simple_hex() {
    let d = HexDecoder;
    let res = d.apply("6869");
    assert_eq!(res.len(), 1);
    assert_eq!(res[0].output, "hi");
}

#[test]
fn decodes_hex_with_spaces() {
    let d = HexDecoder;
    let res = d.apply("68 69");
    assert_eq!(res.len(), 1);
    assert_eq!(res[0].output, "hi");
}

#[test]
fn rejects_odd_digit_count() {
    let d = HexDecoder;
    assert!(d.apply("123").is_empty());
}

#[test]
fn rejects_invalid_hex() {
    let d = HexDecoder;
    assert!(d.apply("ZZ").is_empty());
}

#[test]
fn hex_rejects_signed_pairs() {
    assert!(HexDecoder.apply("+f").is_empty());
    assert!(HexDecoder.apply("+f41").is_empty());
    assert_eq!(HexDecoder.apply("4a 6B")[0].output, "Jk");
}

#[test]
fn hex_step_and_policy() {
    let res = HexDecoder.apply("41");
    assert_eq!(res[0].output, "A");
    assert_eq!(res[0].step.desc, "Hex decode");
    assert!(!HexDecoder.policy().no_consecutive_same_op);
}

#[test]
fn decodes_hello_world() {
    let d = MorseCodeDecoder::new();
    let res = d.apply(".... . .-.. .-.. --- / .-- --- .-. .-.. -..");
    assert_eq!(res.len(), 1);
    assert_eq!(res[0].output, "HELLO WORLD");
}

#[test]
fn rejects_entirely_invalid_input() {
    let d = MorseCodeDecoder::new();
    assert!(d.apply("..-.-").is_empty());
    assert!(d.apply("").is_empty());
}

#[test]
fn morse_unknown_tokens_become_question_marks() {
    let d = MorseCodeDecoder::new();
    let res = d.apply("... ..-.- -----");
    assert_eq!(res.len(), 1);
    assert_eq!(res[0].output, "S?0");
    assert_eq!(res[0].step.op_id, "morse");
    assert_eq!(res[0].step.desc, "Decode morse");
}

#[test]
fn reverses_simple_text() {
    let d = ReverseDecoder;
    let res = d.apply("abcd");
    assert_eq!(res.len(), 1);
    assert_eq!(res[0].output, "dcba");
}

#[test]
fn reverses_unicode() {
    let d = ReverseDecoder;
    let res = d.apply("hé🍊");
    assert_eq!(res[0].output, "🍊éh");
}

#[test]
fn reverse_twice_gives_input_back() {
    let once = ReverseDecoder.apply("Locksmith");
    let twice = ReverseDecoder.apply(&once[0].output);
    assert_eq!(twice[0].output, "Locksmith");
}

#[test]
fn caesar_tries_every_shift() {
    let res = CaesarDecoder.apply("uryyb, Jbeyq!");
    assert_eq!(res.len(), 25);
    assert_eq!(res[0].output, "vszzc, Kcfzr!");
    assert_eq!(res[12].output, "hello, World!");
    assert_eq!(res[12].step.desc, "Caesar shift 13");
    assert_eq!(res[24].step.desc, "Caesar shift 25");
    assert_eq!(res[24].output, "tqxxa, Iadxp!");
}

#[test]
fn caesar_shift_back_restores_input() {
    let res = CaesarDecoder.apply("Zebra 42");
    for (i, r) in res.iter().enumerate() {
        let back = CaesarDecoder.apply(&r.output);
        // Shifting on by 25 - i more places completes the alphabet.
        assert_eq!(back[24 - i].output, "Zebra 42");
    }
}

#[test]
fn base64_decodes_padded_text() {
    let res = Base64Decoder.apply("aGVsbG8gd29ybGQ=");
    assert_eq!(outputs(&res), vec!["hello world".to_string()]);
    assert_eq!(res[0].step.desc, "Base64 decode");
}

#[test]
fn base64_rejects_invalid_utf8_and_garbage() {
    assert!(Base64Decoder.apply("////").is_empty());
    assert!(Base64Decoder.apply("a$b").is_empty());
}

#[test]
fn base58_decodes_bitcoin_alphabet() {
    let res = Base58Decoder.apply("StV1DL6CwTryKyV");
    assert_eq!(outputs(&res), vec!["hello world".to_string()]);
    assert!(Base58Decoder.apply("0OIl").is_empty());
}

#[test]
fn url_decodes_percent_and_plus() {
    let res = URLDecoder.apply("a+b%20c%21");
    assert_eq!(outputs(&res), vec!["a b c!".to_string()]);
    assert_eq!(res[0].step.op_id, "url");
}

#[test]
fn url_leaves_plain_text_alone() {
    let res = URLDecoder.apply("plain");
    assert_eq!(outputs(&res), vec!["plain".to_string()]);
}

#[test]
fn url_rejects_invalid_utf8() {
    assert!(URLDecoder.apply("%FF").is_empty());
}

#[test]
fn html_entities_decimal_and_hex() {
    let res = HTMLEntityDecoder.apply("&#72;&#x69;");
    assert_eq!(res.len(), 1);
    assert_eq!(res[0].output, "\u{0}Hi");
    assert_eq!(res[0].step.desc, "Decode HTML entity");
}

#[test]
fn html_entities_out_of_range_become_question_marks() {
    assert!(HTMLEntityDecoder.apply("#xD800;").is_empty());
    let res = HTMLEntityDecoder.apply("65&#x110000;");
    assert_eq!(res[0].output, "A?");
}

#[test]
fn cipher312_decodes_triplets() {
    let res = ThreeOneTwoCipher.apply("132122213213223");
    assert_eq!(outputs(&res), vec!["HELLO".to_string()]);
    let res = ThreeOneTwoCipher.apply("3120311");
    assert_eq!(res[0].output, "T S");
    let res = ThreeOneTwoCipher.apply("312 0 311");
    assert_eq!(res[0].output, "T?S");
}

#[test]
fn cipher312_expands_squished_digits() {
    // 4 -> 11, 5 -> 22, 6 -> 33: "41" is "111" (A), "52" is "222" (N).
    let res = ThreeOneTwoCipher.apply("41052");
    assert_eq!(res[0].output, "A N");
    assert!(ThreeOneTwoCipher.apply("12a").is_empty());
    assert!(ThreeOneTwoCipher.apply("99").is_empty());
}

#[test]
fn dec2ascii_reads_codes() {
    let res = Dec2AsciiDecoder.apply("104105");
    assert_eq!(outputs(&res), vec!["hi".to_string()]);
    let res = Dec2AsciiDecoder.apply("72 101, 108");
    assert_eq!(res[0].output, "Hel");
    assert_eq!(res[0].step.desc, "Decimal to ASCII");
}

#[test]
fn filter_keeps_each_class() {
    let res = Filter.apply("a1 b2!");
    assert_eq!(
        outputs(&res),
        vec!["ab".to_string(), "a1b2".to_string(), "12".to_string(), "a1b2!".to_string()]
    );
    assert_eq!(res[3].step.desc, "Remove whitespace");
}

#[test]
fn can_follow_respects_policy() {
    let caesar_step = Step { op_id: "caesar".to_string(), desc: "Caesar shift 1".to_string() };
    let hex_step = Step { op_id: "hex".to_string(), desc: "Hex decode".to_string() };
    assert!(CaesarDecoder.can_follow(&[]));
    assert!(!CaesarDecoder.can_follow(&[hex_step.duplicate(), caesar_step.duplicate()]));
    assert!(CaesarDecoder.can_follow(&[caesar_step.duplicate(), hex_step.duplicate()]));
    assert!(HexDecoder.can_follow(&[hex_step.duplicate()]));
    let p: Policy = Default::default();
    assert!(p.no_consecutive_same_op);
}

#[test]
fn step_text_joins_id_and_description() {
    let s = Step { op_id: "hex".to_string(), desc: "Hex decode".to_string() };
    assert_eq!(s.to_text(), "hex: Hex decode");
}

#[test]
fn engine_expands_in_registration_order() {
    let mut engine = DecoderEngine::new();
    engine.register(BuiltinDecoder::Reverse(ReverseDecoder));
    engine.register(BuiltinDecoder::Hex(HexDecoder));
    let res = engine.expand("6869", &[]);
    assert_eq!(outputs(&res), vec!["9686".to_string(), "hi".to_string()]);
    let after_reverse = [Step { op_id: "reverse".to_string(), desc: "Reverse".to_string() }];
    let res = engine.expand("6869", &after_reverse);
    assert_eq!(outputs(&res), vec!["hi".to_string()]);
}

#[test]
fn catalog_lists_decoders() {
    let info = all_decoders_info();
    let ids: Vec<&str> = info.iter().map(|i| i.id).collect();
    assert_eq!(
        ids,
        vec![
            "base32", "base58", "base64", "binary", "caesar", "hex", "html_entity", "morse",
            "reverse", "url", "cipher312"
        ]
    );
    assert_eq!(info[6].label, "HTML entity");
    assert_eq!(info[10].label, "312 Cipher");
}

#[test]
fn register_all_matches_catalog() {
    let mut engine = DecoderEngine::new();
    register_all(&mut engine);
    let res = engine.expand("abcd", &[]);
    let reversed: Vec<&str> = res
        .iter()
        .filter(|r| r.step.op_id == "reverse")
        .map(|r| r.output.as_str())
        .collect();
    assert_eq!(reversed, vec!["dcba"]);
    let caesar = res.iter().filter(|r| r.step.op_id == "caesar").count();
    assert_eq!(caesar, 25);
}

#[test]
fn register_selected_keeps_catalog_order() {
    let mut engine = DecoderEngine::new();
    let selected = vec!["reverse".to_string(), "hex".to_string(), "nope".to_string()];
    register_selected(&mut engine, &selected);
    let res = engine.expand("6869", &[]);
    assert_eq!(outputs(&res), vec!["hi".to_string(), "9686".to_string()]);
}

#[test]
fn selecting_every_decoder_matches_register_all() {
    let ids: Vec<String> = all_decoders_info().iter().map(|i| i.id.to_string()).collect();
    let mut selected = DecoderEngine::new();
    register_selected(&mut selected, &ids);
    let mut all = DecoderEngine::new();
    register_all(&mut all);
    let a = selected.expand("68656c6c6f", &[]);
    let b = all.expand("68656c6c6f", &[]);
    assert_eq!(outputs(&a), outputs(&b));
    assert!(outputs(&a).contains(&"hello".to_string()));
}

#[test]
fn results_from_decoded_bytes() {
    let r = base32_results(Base32Alphabet::Crockford, Some(b"hi".to_vec()));
    assert_eq!(outputs(&r), vec!["hi".to_string()]);
    assert_eq!(r[0].step.desc, "Base32 decode (Crockford)");
    assert!(base32_results(Base32Alphabet::Rfc4648, None).is_empty());
    assert_eq!(outputs(&base64_results(Some(b"ok".to_vec()))), vec!["ok".to_string()]);
    assert!(base64_results(Some(vec![0xff])).is_empty());
    assert!(base64_results(None).is_empty());
    assert_eq!(outputs(&base58_results(Some(vec![0xff]))), vec!["\u{FFFD}".to_string()]);
    assert!(base58_results(None).is_empty());
    assert_eq!(outputs(&url_results(Some("a+b".to_string()))), vec!["a b".to_string()]);
    assert!(url_results(None).is_empty());
}

#[test]
fn base64_decoding_undoes_encoding() {
    assert_eq!(outputs(&Base64Decoder.apply(" aGk=\n")), vec!["hi".to_string()]);
    assert_eq!(outputs(&Base64Decoder.apply("aGk")), vec!["hi".to_string()]);
    assert_eq!(outputs(&Base64Decoder.apply("w6k=")), vec!["é".to_string()]);
    // The byte 0xFF is no UTF-8.
    assert!(Base64Decoder.apply("/w==").is_empty());
}
