//! The built-in decoders, their catalog, and their registration.
use vstd::prelude::*;
use crate::engine::{
    expansion, lemma_expansion_append, Decoder, DecoderEngine, DecoderId, Policy, StepView,
    TransformResult, TransformView,
};

pub mod base32;
pub mod base58;
pub mod base64;
pub mod binary;
pub mod caesar;
pub mod cipher312;
pub mod dec2ascii;
pub mod filter;
pub mod hex;
pub mod html_entity;
pub mod morse;
pub mod reverse;
pub mod url;

pub use base32::Base32Decoder;
pub use base58::Base58Decoder;
pub use base64::Base64Decoder;
pub use binary::BinaryDecoder;
pub use caesar::CaesarDecoder;
pub use cipher312::ThreeOneTwoCipher;
pub use dec2ascii::Dec2AsciiDecoder;
pub use filter::Filter;
pub use hex::HexDecoder;
pub use html_entity::HTMLEntityDecoder;
pub use morse::MorseCodeDecoder;
pub use reverse::ReverseDecoder;
pub use url::URLDecoder;

verus! {

/// The built-in decoders, as one type that the engine can hold.
pub enum BuiltinDecoder {
    Base32(Base32Decoder),
    Base58(Base58Decoder),
    Base64(Base64Decoder),
    Binary(BinaryDecoder),
    Caesar(CaesarDecoder),
    Hex(HexDecoder),
    HtmlEntity(HTMLEntityDecoder),
    Morse(MorseCodeDecoder),
    Reverse(ReverseDecoder),
    Url(URLDecoder),
    Cipher312(ThreeOneTwoCipher),
    Dec2Ascii(Dec2AsciiDecoder),
    Filter(Filter),
    /// A decoder of the library's user, boxed.
    Custom(Box<dyn Decoder>),
}

impl Decoder for BuiltinDecoder {
    open spec fn spec_id(&self) -> Seq<char> {
        match self {
            BuiltinDecoder::Base32(d) => d.spec_id(),
            BuiltinDecoder::Base58(d) => d.spec_id(),
            BuiltinDecoder::Base64(d) => d.spec_id(),
            BuiltinDecoder::Binary(d) => d.spec_id(),
            BuiltinDecoder::Caesar(d) => d.spec_id(),
            BuiltinDecoder::Hex(d) => d.spec_id(),
            BuiltinDecoder::HtmlEntity(d) => d.spec_id(),
            BuiltinDecoder::Morse(d) => d.spec_id(),
            BuiltinDecoder::Reverse(d) => d.spec_id(),
            BuiltinDecoder::Url(d) => d.spec_id(),
            BuiltinDecoder::Cipher312(d) => d.spec_id(),
            BuiltinDecoder::Dec2Ascii(d) => d.spec_id(),
            BuiltinDecoder::Filter(d) => d.spec_id(),
            BuiltinDecoder::Custom(d) => d.spec_id(),
        }
    }

    open spec fn spec_policy(&self) -> Policy {
        match self {
            BuiltinDecoder::Base32(d) => d.spec_policy(),
            BuiltinDecoder::Base58(d) => d.spec_policy(),
            BuiltinDecoder::Base64(d) => d.spec_policy(),
            BuiltinDecoder::Binary(d) => d.spec_policy(),
            BuiltinDecoder::Caesar(d) => d.spec_policy(),
            BuiltinDecoder::Hex(d) => d.spec_policy(),
            BuiltinDecoder::HtmlEntity(d) => d.spec_policy(),
            BuiltinDecoder::Morse(d) => d.spec_policy(),
            BuiltinDecoder::Reverse(d) => d.spec_policy(),
            BuiltinDecoder::Url(d) => d.spec_policy(),
            BuiltinDecoder::Cipher312(d) => d.spec_policy(),
            BuiltinDecoder::Dec2Ascii(d) => d.spec_policy(),
            BuiltinDecoder::Filter(d) => d.spec_policy(),
            BuiltinDecoder::Custom(d) => d.spec_policy(),
        }
    }

    open spec fn spec_apply(&self, input: Seq<char>) -> Seq<TransformView> {
        match self {
            BuiltinDecoder::Base32(d) => d.spec_apply(input),
            BuiltinDecoder::Base58(d) => d.spec_apply(input),
            BuiltinDecoder::Base64(d) => d.spec_apply(input),
            BuiltinDecoder::Binary(d) => d.spec_apply(input),
            BuiltinDecoder::Caesar(d) => d.spec_apply(input),
            BuiltinDecoder::Hex(d) => d.spec_apply(input),
            BuiltinDecoder::HtmlEntity(d) => d.spec_apply(input),
            BuiltinDecoder::Morse(d) => d.spec_apply(input),
            BuiltinDecoder::Reverse(d) => d.spec_apply(input),
            BuiltinDecoder::Url(d) => d.spec_apply(input),
            BuiltinDecoder::Cipher312(d) => d.spec_apply(input),
            BuiltinDecoder::Dec2Ascii(d) => d.spec_apply(input),
            BuiltinDecoder::Filter(d) => d.spec_apply(input),
            BuiltinDecoder::Custom(d) => d.spec_apply(input),
        }
    }

    fn id(&self) -> (r: DecoderId) {
        match self {
            BuiltinDecoder::Base32(d) => d.id(),
            BuiltinDecoder::Base58(d) => d.id(),
            BuiltinDecoder::Base64(d) => d.id(),
            BuiltinDecoder::Binary(d) => d.id(),
            BuiltinDecoder::Caesar(d) => d.id(),
            BuiltinDecoder::Hex(d) => d.id(),
            BuiltinDecoder::HtmlEntity(d) => d.id(),
            BuiltinDecoder::Morse(d) => d.id(),
            BuiltinDecoder::Reverse(d) => d.id(),
            BuiltinDecoder::Url(d) => d.id(),
            BuiltinDecoder::Cipher312(d) => d.id(),
            BuiltinDecoder::Dec2Ascii(d) => d.id(),
            BuiltinDecoder::Filter(d) => d.id(),
            BuiltinDecoder::Custom(d) => d.id(),
        }
    }

    fn policy(&self) -> (p: Policy) {
        match self {
            BuiltinDecoder::Base32(d) => d.policy(),
            BuiltinDecoder::Base58(d) => d.policy(),
            BuiltinDecoder::Base64(d) => d.policy(),
            BuiltinDecoder::Binary(d) => d.policy(),
            BuiltinDecoder::Caesar(d) => d.policy(),
            BuiltinDecoder::Hex(d) => d.policy(),
            BuiltinDecoder::HtmlEntity(d) => d.policy(),
            BuiltinDecoder::Morse(d) => d.policy(),
            BuiltinDecoder::Reverse(d) => d.policy(),
            BuiltinDecoder::Url(d) => d.policy(),
            BuiltinDecoder::Cipher312(d) => d.policy(),
            BuiltinDecoder::Dec2Ascii(d) => d.policy(),
            BuiltinDecoder::Filter(d) => d.policy(),
            BuiltinDecoder::Custom(d) => d.policy(),
        }
    }

    fn apply(&self, input: &str) -> (r: Vec<TransformResult>) {
        match self {
            BuiltinDecoder::Base32(d) => d.apply(input),
            BuiltinDecoder::Base58(d) => d.apply(input),
            BuiltinDecoder::Base64(d) => d.apply(input),
            BuiltinDecoder::Binary(d) => d.apply(input),
            BuiltinDecoder::Caesar(d) => d.apply(input),
            BuiltinDecoder::Hex(d) => d.apply(input),
            BuiltinDecoder::HtmlEntity(d) => d.apply(input),
            BuiltinDecoder::Morse(d) => d.apply(input),
            BuiltinDecoder::Reverse(d) => d.apply(input),
            BuiltinDecoder::Url(d) => d.apply(input),
            BuiltinDecoder::Cipher312(d) => d.apply(input),
            BuiltinDecoder::Dec2Ascii(d) => d.apply(input),
            BuiltinDecoder::Filter(d) => d.apply(input),
            BuiltinDecoder::Custom(d) => d.apply(input),
        }
    }
}

/// Public metadata shown in the UI.
pub struct DecoderInfo {
    pub id: &'static str,
    pub label: &'static str,
}

/// The catalog of decoders that can be selected: each identifier with its
/// label, in the order they are registered.
pub open spec fn decoder_catalog() -> Seq<(Seq<char>, Seq<char>)> {
    seq![
        ("base32"@, "Base32"@),
        ("base58"@, "Base58"@),
        ("base64"@, "Base64"@),
        ("binary"@, "Binary"@),
        ("caesar"@, "Caesar"@),
        ("hex"@, "Hex"@),
        ("html_entity"@, "HTML entity"@),
        ("morse"@, "Morse"@),
        ("reverse"@, "Reverse"@),
        ("url"@, "URL"@),
        ("cipher312"@, "312 Cipher"@),
    ]
}

/// Whether `d` is the built-in decoder that the `k`-th catalog entry names.
pub open spec fn is_catalog_decoder(d: BuiltinDecoder, k: int) -> bool {
    match d {
        BuiltinDecoder::Base32(_) => k == 0,
        BuiltinDecoder::Base58(_) => k == 1,
        BuiltinDecoder::Base64(_) => k == 2,
        BuiltinDecoder::Binary(_) => k == 3,
        BuiltinDecoder::Caesar(_) => k == 4,
        BuiltinDecoder::Hex(_) => k == 5,
        BuiltinDecoder::HtmlEntity(_) => k == 6,
        BuiltinDecoder::Morse(_) => k == 7,
        BuiltinDecoder::Reverse(_) => k == 8,
        BuiltinDecoder::Url(_) => k == 9,
        BuiltinDecoder::Cipher312(_) => k == 10,
        _ => false,
    }
}

/// Return user-facing metadata for all decoders.
pub fn all_decoders_info() -> (r: Vec<DecoderInfo>)
    ensures
        r@.map_values(|i: DecoderInfo| (i.id@, i.label@)) == decoder_catalog(),
{
    let r = vec![
        DecoderInfo { id: "base32", label: "Base32" },
        DecoderInfo { id: "base58", label: "Base58" },
        DecoderInfo { id: "base64", label: "Base64" },
        DecoderInfo { id: "binary", label: "Binary" },
        DecoderInfo { id: "caesar", label: "Caesar" },
        DecoderInfo { id: "hex", label: "Hex" },
        DecoderInfo { id: "html_entity", label: "HTML entity" },
        DecoderInfo { id: "morse", label: "Morse" },
        DecoderInfo { id: "reverse", label: "Reverse" },
        DecoderInfo { id: "url", label: "URL" },
        DecoderInfo { id: "cipher312", label: "312 Cipher" },
    ];
    assert(r@.map_values(|i: DecoderInfo| (i.id@, i.label@)) =~= decoder_catalog());
    r
}

/// The built-in decoder that the `k`-th catalog entry names.
fn catalog_decoder(k: usize) -> (d: BuiltinDecoder)
    requires
        k < 11,
    ensures
        is_catalog_decoder(d, k as int),
{
    if k == 0 {
        BuiltinDecoder::Base32(Base32Decoder)
    } else if k == 1 {
        BuiltinDecoder::Base58(Base58Decoder)
    } else if k == 2 {
        BuiltinDecoder::Base64(Base64Decoder)
    } else if k == 3 {
        BuiltinDecoder::Binary(BinaryDecoder)
    } else if k == 4 {
        BuiltinDecoder::Caesar(CaesarDecoder)
    } else if k == 5 {
        BuiltinDecoder::Hex(HexDecoder)
    } else if k == 6 {
        BuiltinDecoder::HtmlEntity(HTMLEntityDecoder)
    } else if k == 7 {
        BuiltinDecoder::Morse(MorseCodeDecoder::new())
    } else if k == 8 {
        BuiltinDecoder::Reverse(ReverseDecoder)
    } else if k == 9 {
        BuiltinDecoder::Url(URLDecoder)
    } else {
        BuiltinDecoder::Cipher312(ThreeOneTwoCipher)
    }
}

/// Convenience to register all built-in decoders into a decoder engine.
pub fn register_all(engine: &mut DecoderEngine)
    ensures
        final(engine).decoders().len() == old(engine).decoders().len() + 11,
        final(engine).decoders().take(old(engine).decoders().len() as int) == old(engine).decoders(),
        forall|k: int|
            0 <= k < 11 ==> is_catalog_decoder(
                #[trigger] final(engine).decoders()[old(engine).decoders().len() + k],
                k,
            ),
{
    let ghost start = engine.decoders();
    let mut k: usize = 0;
    while k < 11
        invariant
            k <= 11,
            engine.decoders().len() == start.len() + k,
            engine.decoders().take(start.len() as int) == start,
            forall|j: int|
                0 <= j < k ==> is_catalog_decoder(#[trigger] engine.decoders()[start.len() + j], j),
        decreases 11 - k,
    {
        let ghost before = engine.decoders();
        engine.register(catalog_decoder(k));
        assert(engine.decoders().take(start.len() as int) =~= before.take(start.len() as int));
        assert forall|j: int| 0 <= j < k + 1 implies is_catalog_decoder(
            #[trigger] engine.decoders()[start.len() + j],
            j,
        ) by {
            if j < k {
                assert(engine.decoders()[start.len() + j] == before[start.len() + j]);
            }
        }
        k = k + 1;
    }
}

/// Whether `id` is one of the identifiers in `selected`.
pub open spec fn is_selected(selected: Seq<Seq<char>>, id: Seq<char>) -> bool {
    selected.contains(id)
}

/// The positions of the catalog entries among the first `n` whose identifier
/// is selected, in catalog order.
pub open spec fn selected_positions(selected: Seq<Seq<char>>, n: nat) -> Seq<int>
    decreases n,
{
    if n == 0 {
        seq![]
    } else {
        let prev = selected_positions(selected, (n - 1) as nat);
        if is_selected(selected, decoder_catalog()[n - 1].0) {
            prev.push(n - 1)
        } else {
            prev
        }
    }
}

/// Selecting every identifier that `all_decoders_info` lists registers what
/// `register_all` registers: every catalog entry, in catalog order.
pub proof fn lemma_select_all(selected: Seq<Seq<char>>, n: nat)
    requires
        n <= decoder_catalog().len(),
        forall|k: int| 0 <= k < decoder_catalog().len() ==> selected.contains(#[trigger] decoder_catalog()[k].0),
    ensures
        selected_positions(selected, n) == Seq::new(n, |i: int| i),
    decreases n,
{
    if n > 0 {
        lemma_select_all(selected, (n - 1) as nat);
        assert(is_selected(selected, decoder_catalog()[n - 1].0));
        assert(selected_positions(selected, n) =~= Seq::new(n, |i: int| i));
    }
}

/// Whether `id` occurs in `selected`.
fn contains_id(selected: &[String], id: &str) -> (b: bool)
    ensures
        b == is_selected(selected@.map_values(|s: String| s@), id@),
{
    let ghost ids = selected@.map_values(|s: String| s@);
    let target = id.to_string();
    let mut i: usize = 0;
    while i < selected.len()
        invariant
            i <= selected@.len(),
            ids == selected@.map_values(|s: String| s@),
            target@ == id@,
            forall|j: int| 0 <= j < i ==> ids[j] != id@,
        decreases selected@.len() - i,
    {
        if selected[i] == target {
            assert(ids[i as int] == id@);
            return true;
        }
        i = i + 1;
    }
    false
}

/// Register only the selected decoders by their IDs, in catalog order, each
/// at most once.
pub fn register_selected(engine: &mut DecoderEngine, selected: &[String])
    ensures
        ({
            let pos = selected_positions(selected@.map_values(|s: String| s@), 11);
            &&& final(engine).decoders().len() == old(engine).decoders().len() + pos.len()
            &&& final(engine).decoders().take(old(engine).decoders().len() as int) == old(
                engine,
            ).decoders()
            &&& forall|j: int|
                0 <= j < pos.len() ==> is_catalog_decoder(
                    #[trigger] final(engine).decoders()[old(engine).decoders().len() + j],
                    pos[j],
                )
        }),
{
    let ghost start = engine.decoders();
    let ghost ids = selected@.map_values(|s: String| s@);
    let info = all_decoders_info();
    assert(info@.len() == 11) by {
        assert(info@.map_values(|i: DecoderInfo| (i.id@, i.label@)).len() == 11);
    }
    let mut k: usize = 0;
    while k < 11
        invariant
            k <= 11,
            info@.len() == 11,
            info@.map_values(|i: DecoderInfo| (i.id@, i.label@)) == decoder_catalog(),
            ids == selected@.map_values(|s: String| s@),
            ({
                let pos = selected_positions(ids, k as nat);
                &&& engine.decoders().len() == start.len() + pos.len()
                &&& engine.decoders().take(start.len() as int) == start
                &&& forall|j: int|
                    0 <= j < pos.len() ==> is_catalog_decoder(
                        #[trigger] engine.decoders()[start.len() + j],
                        pos[j],
                    )
            }),
        decreases 11 - k,
    {
        let ghost before = engine.decoders();
        let ghost prev = selected_positions(ids, k as nat);
        assert(info@[k as int].id@ == decoder_catalog()[k as int].0);
        if contains_id(selected, info[k].id) {
            engine.register(catalog_decoder(k));
            assert(engine.decoders().take(start.len() as int) =~= before.take(start.len() as int));
            let ghost pos = selected_positions(ids, (k + 1) as nat);
            assert(pos == prev.push(k as int));
            assert forall|j: int| 0 <= j < pos.len() implies is_catalog_decoder(
                #[trigger] engine.decoders()[start.len() + j],
                pos[j],
            ) by {
                if j < prev.len() {
                    assert(engine.decoders()[start.len() + j] == before[start.len() + j]);
                }
            }
        }
        k = k + 1;
    }
}

/// Every output of a decoder is recorded under that decoder's identifier:
/// the step of each result names the decoder that produced it.
pub proof fn lemma_steps_name_decoder(d: BuiltinDecoder, input: Seq<char>)
    requires
        !(d is Custom),
    ensures
        forall|k: int|
            0 <= k < d.spec_apply(input).len() ==> (#[trigger] d.spec_apply(input)[k]).1.0
                == d.spec_id(),
{
    match d {
        BuiltinDecoder::Base32(_) => {
            let bytes = vstd::utf8::encode_utf8(crate::text::trim_end_char(input, '='));
            let parts = seq![
                base32::base32_attempt(crate::outside::Base32Alphabet::Rfc4648, bytes),
                base32::base32_attempt(crate::outside::Base32Alphabet::Rfc4648Hex, bytes),
                base32::base32_attempt(crate::outside::Base32Alphabet::Crockford, bytes),
                base32::base32_attempt(crate::outside::Base32Alphabet::CrockfordLower, bytes),
            ];
            let all = d.spec_apply(input);
            assert(all == parts[0] + parts[1] + parts[2] + parts[3]);
            assert forall|k: int| 0 <= k < all.len() implies (#[trigger] all[k]).1.0 == d.spec_id() by {
                let n0 = parts[0].len();
                let n1 = parts[1].len();
                let n2 = parts[2].len();
                if k < n0 {
                    assert(all[k] == parts[0][k]);
                } else if k < n0 + n1 {
                    assert(all[k] == parts[1][k - n0]);
                } else if k < n0 + n1 + n2 {
                    assert(all[k] == parts[2][k - n0 - n1]);
                } else {
                    assert(all[k] == parts[3][k - n0 - n1 - n2]);
                }
            }
        },
        _ => {},
    }
}

/// Whether every output of `d`, for every input, is recorded under the
/// identifier of `d`. The built-in decoders all do so.
pub open spec fn names_its_steps(d: BuiltinDecoder) -> bool {
    forall|input: Seq<char>, k: int|
        0 <= k < d.spec_apply(input).len() ==> (#[trigger] d.spec_apply(input)[k]).1.0 == d.spec_id()
}

/// Every built-in decoder names its steps.
pub proof fn lemma_built_in_names_steps(d: BuiltinDecoder)
    requires
        !(d is Custom),
    ensures
        names_its_steps(d),
{
    assert forall|input: Seq<char>, k: int| 0 <= k < d.spec_apply(input).len() implies (
    #[trigger] d.spec_apply(input)[k]).1.0 == d.spec_id() by {
        lemma_steps_name_decoder(d, input);
    }
}

/// The decoders that `register_all` adds are those that `all_decoders_info`
/// lists, in the same order: the `k`-th added decoder has the `k`-th listed
/// identifier.
pub proof fn lemma_registered_match_catalog(d: BuiltinDecoder, k: int)
    requires
        0 <= k < decoder_catalog().len(),
        is_catalog_decoder(d, k),
    ensures
        d.spec_id() == decoder_catalog()[k].0,
{
}

/// The decoder that the `k`-th catalog entry names (any Morse decoder
/// behaves alike, whatever table it holds).
pub open spec fn catalog_entry(k: int) -> BuiltinDecoder {
    if k == 0 {
        BuiltinDecoder::Base32(Base32Decoder)
    } else 
    if k == 1 {
        BuiltinDecoder::Base58(Base58Decoder)
    } else 
    if k == 2 {
        BuiltinDecoder::Base64(Base64Decoder)
    } else 
    if k == 3 {
        BuiltinDecoder::Binary(BinaryDecoder)
    } else 
    if k == 4 {
        BuiltinDecoder::Caesar(CaesarDecoder)
    } else 
    if k == 5 {
        BuiltinDecoder::Hex(HexDecoder)
    } else 
    if k == 6 {
        BuiltinDecoder::HtmlEntity(HTMLEntityDecoder)
    } else 
    if k == 7 {
        BuiltinDecoder::Morse(vstd::pervasive::arbitrary())
    } else 
    if k == 8 {
        BuiltinDecoder::Reverse(ReverseDecoder)
    } else 
    if k == 9 {
        BuiltinDecoder::Url(URLDecoder)
    } else 
    {
        BuiltinDecoder::Cipher312(ThreeOneTwoCipher)
    }
}

/// The decoders that the catalog entries at `positions` name, in order.
pub open spec fn catalog_decoders(positions: Seq<int>) -> Seq<BuiltinDecoder> {
    positions.map_values(|k: int| catalog_entry(k))
}

/// Two decoders of the same catalog entry behave alike: the same identifier,
/// the same policy, and the same outputs.
pub proof fn lemma_same_entry_same_behaviour(a: BuiltinDecoder, b: BuiltinDecoder, k: int, input: Seq<char>)
    requires
        is_catalog_decoder(a, k),
        is_catalog_decoder(b, k),
    ensures
        a.spec_id() == b.spec_id(),
        a.spec_policy() == b.spec_policy(),
        a.spec_apply(input) == b.spec_apply(input),
{
}

/// Decoders of the same catalog entries, position by position, expand alike.
proof fn lemma_same_entries_same_expansion(
    a: Seq<BuiltinDecoder>,
    b: Seq<BuiltinDecoder>,
    positions: Seq<int>,
    input: Seq<char>,
    history: Seq<StepView>,
)
    requires
        a.len() == positions.len(),
        b.len() == positions.len(),
        forall|j: int| 0 <= j < positions.len() ==> is_catalog_decoder(#[trigger] a[j], positions[j]),
        forall|j: int| 0 <= j < positions.len() ==> is_catalog_decoder(#[trigger] b[j], positions[j]),
    ensures
        expansion(a, input, history) == expansion(b, input, history),
    decreases positions.len(),
{
    if positions.len() > 0 {
        let n = positions.len() - 1;
        let pa = a.drop_last();
        let pb = b.drop_last();
        let pp = positions.drop_last();
        assert forall|j: int| 0 <= j < pp.len() implies is_catalog_decoder(#[trigger] pa[j], pp[j]) by {
            assert(pa[j] == a[j]);
        }
        assert forall|j: int| 0 <= j < pp.len() implies is_catalog_decoder(#[trigger] pb[j], pp[j]) by {
            assert(pb[j] == b[j]);
        }
        lemma_same_entries_same_expansion(pa, pb, pp, input, history);
        lemma_same_entry_same_behaviour(a[n], b[n], positions[n], input);
    }
}

/// What `register_selected` leaves the engine expanding to: what it expanded
/// to before, followed by the outputs of the selected catalog decoders, in
/// catalog order.
pub proof fn lemma_register_selected_expansion(
    before: Seq<BuiltinDecoder>,
    after: Seq<BuiltinDecoder>,
    selected: Seq<Seq<char>>,
    input: Seq<char>,
    history: Seq<StepView>,
)
    requires
        ({
            let pos = selected_positions(selected, 11);
            &&& after.len() == before.len() + pos.len()
            &&& after.take(before.len() as int) == before
            &&& forall|j: int|
                0 <= j < pos.len() ==> is_catalog_decoder(#[trigger] after[before.len() + j], pos[j])
        }),
    ensures
        expansion(after, input, history) == expansion(before, input, history) + expansion(
            catalog_decoders(selected_positions(selected, 11)),
            input,
            history,
        ),
{
    let pos = selected_positions(selected, 11);
    lemma_selected_positions_in_catalog(selected, 11);
    let added = after.skip(before.len() as int);
    assert(after =~= before + added);
    lemma_expansion_append(before, added, input, history);
    let canon = catalog_decoders(pos);
    assert forall|j: int| 0 <= j < pos.len() implies is_catalog_decoder(#[trigger] added[j], pos[j]) by {
        assert(added[j] == after[before.len() + j]);
    }
    assert forall|j: int| 0 <= j < pos.len() implies is_catalog_decoder(#[trigger] canon[j], pos[j]) by {}
    lemma_same_entries_same_expansion(added, canon, pos, input, history);
}

/// The selected positions are positions of the catalog.
proof fn lemma_selected_positions_in_catalog(selected: Seq<Seq<char>>, n: nat)
    requires
        n <= 11,
    ensures
        forall|j: int|
            0 <= j < selected_positions(selected, n).len() ==> 0 <= #[trigger] selected_positions(
                selected,
                n,
            )[j] < n,
    decreases n,
{
    if n > 0 {
        lemma_selected_positions_in_catalog(selected, (n - 1) as nat);
        let prev = selected_positions(selected, (n - 1) as nat);
        let cur = selected_positions(selected, n);
        assert forall|j: int| 0 <= j < cur.len() implies 0 <= #[trigger] cur[j] < n by {
            if j < prev.len() {
                assert(cur[j] == prev[j]);
            }
        }
    }
}

/// What `register_all` leaves the engine expanding to: what it expanded to
/// before, followed by the outputs of every catalog decoder, in catalog order.
pub proof fn lemma_register_all_expansion(
    before: Seq<BuiltinDecoder>,
    after: Seq<BuiltinDecoder>,
    input: Seq<char>,
    history: Seq<StepView>,
)
    requires
        after.len() == before.len() + 11,
        after.take(before.len() as int) == before,
        forall|k: int| 0 <= k < 11 ==> is_catalog_decoder(#[trigger] after[before.len() + k], k),
    ensures
        expansion(after, input, history) == expansion(before, input, history) + expansion(
            catalog_decoders(Seq::new(11, |i: int| i)),
            input,
            history,
        ),
{
    let pos = Seq::new(11, |i: int| i);
    let added = after.skip(before.len() as int);
    assert(after =~= before + added);
    lemma_expansion_append(before, added, input, history);
    let canon = catalog_decoders(pos);
    assert forall|j: int| 0 <= j < pos.len() implies is_catalog_decoder(#[trigger] added[j], pos[j]) by {
        assert(added[j] == after[before.len() + j]);
    }
    assert forall|j: int| 0 <= j < pos.len() implies is_catalog_decoder(#[trigger] canon[j], pos[j]) by {}
    lemma_same_entries_same_expansion(added, canon, pos, input, history);
}

/// Registering every decoder and selecting every identifier that
/// `all_decoders_info` lists give engines that expand alike.
pub proof fn lemma_register_all_is_select_all(
    before: Seq<BuiltinDecoder>,
    all: Seq<BuiltinDecoder>,
    chosen: Seq<BuiltinDecoder>,
    selected: Seq<Seq<char>>,
    input: Seq<char>,
    history: Seq<StepView>,
)
    requires
        forall|k: int| 0 <= k < 11 ==> selected.contains(#[trigger] decoder_catalog()[k].0),
        all.len() == before.len() + 11,
        all.take(before.len() as int) == before,
        forall|k: int| 0 <= k < 11 ==> is_catalog_decoder(#[trigger] all[before.len() + k], k),
        ({
            let pos = selected_positions(selected, 11);
            &&& chosen.len() == before.len() + pos.len()
            &&& chosen.take(before.len() as int) == before
            &&& forall|j: int|
                0 <= j < pos.len() ==> is_catalog_decoder(#[trigger] chosen[before.len() + j], pos[j])
        }),
    ensures
        expansion(all, input, history) == expansion(chosen, input, history),
{
    lemma_select_all(selected, 11);
    lemma_register_all_expansion(before, all, input, history);
    lemma_register_selected_expansion(before, chosen, selected, input, history);
}

/// The catalog names each decoder once: its identifiers are distinct, and
/// every output of a decoder registered for an entry is recorded under that
/// entry's identifier.
pub proof fn lemma_catalog_names_decoders(d: BuiltinDecoder, k: int, input: Seq<char>)
    requires
        0 <= k < 11,
        is_catalog_decoder(d, k),
    ensures
        forall|a: int, b: int|
            0 <= a < 11 && 0 <= b < 11 && a != b ==> (#[trigger] decoder_catalog()[a]).0 != (
            #[trigger] decoder_catalog()[b]).0,
        forall|j: int|
            0 <= j < d.spec_apply(input).len() ==> (#[trigger] d.spec_apply(input)[j]).1.0
                == decoder_catalog()[k].0,
{
    lemma_steps_name_decoder(d, input);
    reveal_strlit("base32");
    reveal_strlit("base58");
    reveal_strlit("base64");
    reveal_strlit("binary");
    reveal_strlit("caesar");
    reveal_strlit("hex");
    reveal_strlit("html_entity");
    reveal_strlit("morse");
    reveal_strlit("reverse");
    reveal_strlit("url");
    reveal_strlit("cipher312");
    let c = decoder_catalog();
    assert forall|a: int, b: int| 0 <= a < 11 && 0 <= b < 11 && a != b implies (#[trigger] c[a]).0 != (
    #[trigger] c[b]).0 by {
        if c[a].0 == c[b].0 {
            assert(c[a].0.len() == c[b].0.len());
            assert(c[a].0[0] == c[b].0[0]);
            assert(c[a].0[c[a].0.len() - 1] == c[b].0[c[b].0.len() - 1]);
            assert(c[a].0[4] == c[b].0[4]);
        }
    }
}

} // verus!
