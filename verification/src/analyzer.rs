//! Content detection: what kind of data a chunk holds, and which coding suits it.
//!
//! Entropies are Shannon entropies in millionths of a bit per byte, measured by
//! the caller.

use vstd::prelude::*;
use vstd::utf8::{decode_utf8, encode_utf8, valid_utf8};

verus! {

/// The kinds of content that the analyzer tells apart.
#[derive(Debug, Clone, Copy, PartialEq, Eq, Structural)]
pub enum ContentType {
    Unknown,
    Text,
    Json,
    Xml,
    Binary,
    Image,
    Audio,
    Video,
    Archive,
}

/// How hard to try.
#[derive(Debug, Clone, Copy, PartialEq, Eq, Structural)]
pub enum CompressionHint {
    /// Speed first.
    Fast,
    /// Speed and ratio in balance.
    Balanced,
    /// Ratio first.
    Max,
}

/// A transform that the analyzer recommends.
#[derive(Debug, Clone, Copy, PartialEq, Eq, Structural)]
pub enum TransformRecommendation {
    NoTransform,
    Delta,
    RLE,
    Dictionary,
    XOR,
}

/// What the analyzer found out about a chunk.
#[derive(Debug, Clone)]
pub struct AnalysisResult {
    pub content_type: ContentType,
    /// The entropy that the caller measured.
    pub entropy: u32,
    pub compression_hint: CompressionHint,
    pub recommended_transforms: Vec<TransformRecommendation>,
}

/// The analyzer. It looks at the first bytes of a chunk only.
pub struct ContentAnalyzer {
    sample_size: usize,
}

/// Whether a character is white space: one of the 25 characters with the
/// Unicode property `White_Space`.
pub open spec fn white_space(c: char) -> bool {
    let code = c as u32;
    (0x09 <= code <= 0x0D) || code == 0x20 || code == 0x85 || code == 0xA0 || code == 0x1680 || (0x2000 <= code
        <= 0x200A) || code == 0x2028 || code == 0x2029 || code == 0x202F || code == 0x205F || code == 0x3000
}

/// A text without the white space at its start.
pub open spec fn trim_start_of(text: Seq<char>) -> Seq<char>
    decreases text.len(),
{
    if text.len() > 0 && white_space(text[0]) {
        trim_start_of(text.skip(1))
    } else {
        text
    }
}

/// `std::str::from_utf8`: the text that `bytes` encode, where they are valid UTF-8.
#[verifier::external_body]
pub(crate) fn utf8_text(bytes: &[u8]) -> (text: Option<&str>)
    ensures
        text is Some <==> valid_utf8(bytes@),
        text matches Some(t) ==> t@ == decode_utf8(bytes@),
{
    std::str::from_utf8(bytes).ok()
}

/// `str::trim_start`: `text` without the white space at its start, where
/// white space is what the Unicode property `White_Space` says.
#[verifier::external_body]
pub(crate) fn trimmed_start(text: &str) -> (trimmed: &str)
    ensures
        trimmed@ == trim_start_of(text@),
{
    text.trim_start()
}

/// The first `sample_size` bytes of `data`, or all of them.
pub open spec fn sample_of(data: Seq<u8>, sample_size: usize) -> Seq<u8> {
    if data.len() <= sample_size {
        data
    } else {
        data.take(sample_size as int)
    }
}

/// Whether a byte is printable ASCII, a tab, a line feed or a carriage return.
pub open spec fn printable(byte: u8) -> bool {
    (32 <= byte <= 126) || byte == 9 || byte == 10 || byte == 13
}

/// The number of printable bytes among the first `n` of `s`.
pub open spec fn printable_in(s: Seq<u8>, n: int) -> nat
    decreases n,
{
    if n <= 0 {
        0
    } else {
        printable_in(s, n - 1) + if printable(s[n - 1]) { 1nat } else { 0nat }
    }
}

/// At least 80% of the sample is printable.
pub open spec fn is_text_spec(data: Seq<u8>, sample_size: usize) -> bool {
    let sample = sample_of(data, sample_size);
    data.len() > 0 && sample.len() > 0 && 5 * printable_in(sample, sample.len() as int) >= 4 * sample.len()
}

/// The bytes of the sample's text, where the sample is valid UTF-8, without the
/// white space at its start.
pub open spec fn trimmed_sample(data: Seq<u8>, sample_size: usize) -> Option<Seq<u8>> {
    let sample = sample_of(data, sample_size);
    if valid_utf8(sample) {
        Some(encode_utf8(trim_start_of(decode_utf8(sample))))
    } else {
        None
    }
}

/// The sample is valid UTF-8 and, after white space, starts with `{` or `[`.
pub open spec fn is_json_spec(data: Seq<u8>, sample_size: usize) -> bool {
    match trimmed_sample(data, sample_size) {
        Some(t) => t.len() > 0 && (t[0] == 0x7B || t[0] == 0x5B),
        None => false,
    }
}

/// Whether `pattern` stands in `s` at `at`.
pub open spec fn stands_at(s: Seq<u8>, at: int, pattern: Seq<u8>) -> bool {
    0 <= at && at + pattern.len() <= s.len() && s.subrange(at, at + pattern.len()) == pattern
}

/// Whether `pattern` stands somewhere in `s`.
pub open spec fn holds(s: Seq<u8>, pattern: Seq<u8>) -> bool {
    exists|at: int| #[trigger] stands_at(s, at, pattern)
}

/// `<?xml`.
pub open spec fn xml_declaration() -> Seq<u8> {
    seq![0x3Cu8, 0x3Fu8, 0x78u8, 0x6Du8, 0x6Cu8]
}

/// The sample is valid UTF-8, starts with `<` after white space, and holds
/// `<?xml` or a `>`.
pub open spec fn is_xml_spec(data: Seq<u8>, sample_size: usize) -> bool {
    let sample = sample_of(data, sample_size);
    match trimmed_sample(data, sample_size) {
        Some(t) => t.len() > 0 && t[0] == 0x3C && (holds(sample, xml_declaration()) || (holds(
            sample,
            seq![0x3Cu8],
        ) && holds(sample, seq![0x3Eu8]))),
        None => false,
    }
}

/// The signatures of PNG, GIF, RIFF and BMP files.
pub open spec fn is_image_spec(data: Seq<u8>) -> bool {
    data.len() >= 4 && (stands_at(data, 0, seq![0x89u8, 0x50u8, 0x4Eu8, 0x47u8]) || stands_at(
        data,
        0,
        seq![0x47u8, 0x49u8, 0x46u8, 0x38u8],
    ) || stands_at(data, 0, seq![0x52u8, 0x49u8, 0x46u8, 0x46u8]) || stands_at(data, 0, seq![0x42u8, 0x4Du8]))
}

/// The signatures of WAV, Ogg and MP3 files, in data of at least 12 bytes.
pub open spec fn is_audio_spec(data: Seq<u8>) -> bool {
    data.len() >= 12 && ((stands_at(data, 0, seq![0x52u8, 0x49u8, 0x46u8, 0x46u8]) && stands_at(
        data,
        8,
        seq![0x57u8, 0x41u8, 0x56u8, 0x45u8],
    )) || stands_at(data, 0, seq![0x4Fu8, 0x67u8, 0x67u8, 0x53u8]) || stands_at(
        data,
        0,
        seq![0x49u8, 0x44u8, 0x33u8],
    ) || stands_at(data, 0, seq![0xFFu8, 0xFBu8]))
}

/// The signatures of AVI and MP4 files, in data of at least 12 bytes.
pub open spec fn is_video_spec(data: Seq<u8>) -> bool {
    data.len() >= 12 && ((stands_at(data, 0, seq![0x52u8, 0x49u8, 0x46u8, 0x46u8]) && stands_at(
        data,
        8,
        seq![0x41u8, 0x56u8, 0x49u8, 0x20u8],
    )) || stands_at(
        data,
        0,
        seq![0u8, 0u8, 0u8, 0x20u8, 0x66u8, 0x74u8, 0x79u8, 0x70u8, 0x6Du8, 0x70u8, 0x34u8, 0x32u8],
    ) || stands_at(
        data,
        0,
        seq![0u8, 0u8, 0u8, 0x18u8, 0x66u8, 0x74u8, 0x79u8, 0x70u8, 0x69u8, 0x73u8, 0x6Fu8, 0x6Du8],
    ))
}

/// The signatures of ZIP, RAR and 7z files.
pub open spec fn is_archive_spec(data: Seq<u8>) -> bool {
    data.len() >= 4 && (stands_at(data, 0, seq![0x50u8, 0x4Bu8, 0x03u8, 0x04u8]) || stands_at(
        data,
        0,
        seq![0x50u8, 0x4Bu8, 0x05u8, 0x06u8],
    ) || stands_at(data, 0, seq![0x50u8, 0x4Bu8, 0x07u8, 0x08u8]) || stands_at(
        data,
        0,
        seq![0x52u8, 0x61u8, 0x72u8, 0x21u8],
    ) || stands_at(data, 0, seq![0x37u8, 0x7Au8, 0xBCu8, 0xAFu8]))
}

/// The kind of content of `data`: text kinds first, then the binary signatures.
pub open spec fn content_type_spec(data: Seq<u8>, sample_size: usize) -> ContentType {
    if data.len() == 0 {
        ContentType::Unknown
    } else if is_text_spec(data, sample_size) {
        if is_json_spec(data, sample_size) {
            ContentType::Json
        } else if is_xml_spec(data, sample_size) {
            ContentType::Xml
        } else {
            ContentType::Text
        }
    } else if is_image_spec(data) {
        ContentType::Image
    } else if is_audio_spec(data) {
        ContentType::Audio
    } else if is_video_spec(data) {
        ContentType::Video
    } else if is_archive_spec(data) {
        ContentType::Archive
    } else {
        ContentType::Binary
    }
}

/// The hint for content of a kind and an entropy.
pub open spec fn hint_spec(content_type: ContentType, entropy: u32) -> CompressionHint {
    match content_type {
        ContentType::Json | ContentType::Xml | ContentType::Text => if entropy > 7_000_000 {
            CompressionHint::Max
        } else {
            CompressionHint::Balanced
        },
        ContentType::Image | ContentType::Audio | ContentType::Video => CompressionHint::Fast,
        ContentType::Binary => if entropy > 7_500_000 {
            CompressionHint::Max
        } else {
            CompressionHint::Balanced
        },
        _ => CompressionHint::Balanced,
    }
}

/// The transforms recommended for content of a kind and an entropy, in the
/// order in which they are to be applied.
pub open spec fn recommended_spec(content_type: ContentType, entropy: u32) -> Seq<TransformRecommendation> {
    match content_type {
        ContentType::Json | ContentType::Xml => if entropy < 6_000_000 {
            seq![TransformRecommendation::RLE, TransformRecommendation::Dictionary]
        } else {
            seq![TransformRecommendation::Dictionary]
        },
        ContentType::Text => if entropy < 6_000_000 {
            seq![TransformRecommendation::RLE, TransformRecommendation::Dictionary]
        } else {
            seq![TransformRecommendation::Dictionary]
        },
        ContentType::Binary => if entropy < 5_000_000 {
            seq![TransformRecommendation::RLE, TransformRecommendation::Delta]
        } else {
            seq![TransformRecommendation::Delta]
        },
        _ => if entropy < 4_000_000 {
            seq![TransformRecommendation::RLE]
        } else {
            Seq::<TransformRecommendation>::empty()
        },
    }
}

/// Whether `pattern` stands in `data` at `at`.
fn matches_at(data: &[u8], at: usize, pattern: &[u8]) -> (found: bool)
    requires
        at + pattern@.len() <= usize::MAX,
    ensures
        found == stands_at(data@, at as int, pattern@),
{
    let n: usize = data.len();
    let m: usize = pattern.len();
    if m > n || at > n - m {
        return false;
    }
    let mut k: usize = 0;
    while k < m
        invariant
            k <= m,
            m == pattern@.len(),
            n == data@.len(),
            at + m <= n,
            forall|j: int| 0 <= j < k ==> data@[at + j] == pattern@[j],
        decreases m - k,
    {
        if data[at + k] != pattern[k] {
            assert(data@.subrange(at as int, at + m)[k as int] != pattern@[k as int]);
            return false;
        }
        k += 1;
    }
    assert(data@.subrange(at as int, at + m) =~= pattern@);
    true
}

/// Whether `pattern` stands somewhere in `data`.
fn contains_bytes(data: &[u8], pattern: &[u8]) -> (found: bool)
    ensures
        found == holds(data@, pattern@),
{
    let n: usize = data.len();
    let m: usize = pattern.len();
    if m > n {
        assert forall|at: int| !#[trigger] stands_at(data@, at, pattern@) by {}
        return false;
    }
    if m == 0 {
        assert(stands_at(data@, 0, pattern@)) by {
            assert(data@.subrange(0, 0) =~= pattern@);
        }
        return true;
    }
    let mut at: usize = 0;
    while at <= n - m
        invariant
            1 <= m <= n,
            n == data@.len(),
            m == pattern@.len(),
            at <= n - m + 1,
            forall|j: int| 0 <= j < at ==> !#[trigger] stands_at(data@, j, pattern@),
        decreases n - m + 1 - at,
    {
        if matches_at(data, at, pattern) {
            return true;
        }
        at += 1;
    }
    assert forall|j: int| !#[trigger] stands_at(data@, j, pattern@) by {}
    false
}

impl ContentAnalyzer {
    /// The number of bytes that are looked at.
    pub closed spec fn sample_size(self) -> usize {
        self.sample_size
    }

    /// An analyzer that looks at the first 8192 bytes.
    pub fn new() -> (analyzer: Self)
        ensures
            analyzer.sample_size() == 8192,
    {
        ContentAnalyzer { sample_size: 8192 }
    }

    /// The first bytes of `data` that are looked at.
    fn sample<'a>(&self, data: &'a [u8]) -> (sample: &'a [u8])
        ensures
            sample@ == sample_of(data@, self.sample_size()),
    {
        if data.len() <= self.sample_size {
            data
        } else {
            let sample = vstd::slice::slice_subrange(data, 0, self.sample_size);
            assert(sample@ =~= data@.take(self.sample_size as int));
            sample
        }
    }

    /// Whether at least 80% of the first bytes of `data` are printable.
    pub fn is_text(&self, data: &[u8]) -> (text: bool)
        ensures
            text == is_text_spec(data@, self.sample_size()),
    {
        if data.len() == 0 {
            return false;
        }
        let sample = self.sample(data);
        let n: usize = sample.len();
        if n == 0 {
            return false;
        }
        let mut printable_count: usize = 0;
        let mut i: usize = 0;
        while i < n
            invariant
                i <= n,
                n == sample@.len(),
                printable_count <= i,
                printable_count == printable_in(sample@, i as int),
            decreases n - i,
        {
            let b: u8 = sample[i];
            if (b >= 32 && b <= 126) || b == 9 || b == 10 || b == 13 {
                printable_count += 1;
            }
            i += 1;
        }
        5 * (printable_count as u128) >= 4 * (n as u128)
    }

    /// The bytes of the sample's text without leading white space, where the
    /// sample is valid UTF-8.
    fn trimmed<'a>(&self, data: &'a [u8]) -> (trimmed: Option<&'a [u8]>)
        ensures
            match trimmed_sample(data@, self.sample_size()) {
                Some(t) => trimmed is Some && trimmed->Some_0@ == t,
                None => trimmed is None,
            },
    {
        let sample = self.sample(data);
        match utf8_text(sample) {
            Some(text) => Some(trimmed_start(text).as_bytes()),
            None => None,
        }
    }

    /// Whether the first bytes of `data` are text that starts, after white
    /// space, with `{` or `[`.
    pub fn is_json(&self, data: &[u8]) -> (json: bool)
        ensures
            json == is_json_spec(data@, self.sample_size()),
    {
        match self.trimmed(data) {
            Some(t) => t.len() > 0 && (t[0] == 0x7B || t[0] == 0x5B),
            None => false,
        }
    }

    /// Whether the first bytes of `data` are text that starts, after white
    /// space, with `<`, and hold `<?xml` or a `>`.
    pub fn is_xml(&self, data: &[u8]) -> (xml: bool)
        ensures
            xml == is_xml_spec(data@, self.sample_size()),
    {
        let sample = self.sample(data);
        match self.trimmed(data) {
            Some(t) => {
                if t.len() > 0 && t[0] == 0x3C {
                    let declaration: [u8; 5] = [0x3C, 0x3F, 0x78, 0x6D, 0x6C];
                    let open: [u8; 1] = [0x3C];
                    let close: [u8; 1] = [0x3E];
                    assert(declaration@ =~= xml_declaration());
                    assert(open@ =~= seq![0x3Cu8]);
                    assert(close@ =~= seq![0x3Eu8]);
                    contains_bytes(sample, declaration.as_slice()) || (contains_bytes(sample, open.as_slice())
                        && contains_bytes(sample, close.as_slice()))
                } else {
                    false
                }
            },
            None => false,
        }
    }

    /// Whether `data` starts with the signature of a PNG, GIF, RIFF or BMP file.
    pub fn is_image(&self, data: &[u8]) -> (image: bool)
        ensures
            image == is_image_spec(data@),
    {
        if data.len() < 4 {
            return false;
        }
        let png: [u8; 4] = [0x89, 0x50, 0x4E, 0x47];
        let gif: [u8; 4] = [0x47, 0x49, 0x46, 0x38];
        let riff: [u8; 4] = [0x52, 0x49, 0x46, 0x46];
        let bmp: [u8; 2] = [0x42, 0x4D];
        assert(png@ =~= seq![0x89u8, 0x50u8, 0x4Eu8, 0x47u8]);
        assert(gif@ =~= seq![0x47u8, 0x49u8, 0x46u8, 0x38u8]);
        assert(riff@ =~= seq![0x52u8, 0x49u8, 0x46u8, 0x46u8]);
        assert(bmp@ =~= seq![0x42u8, 0x4Du8]);
        matches_at(data, 0, png.as_slice()) || matches_at(data, 0, gif.as_slice()) || matches_at(
            data,
            0,
            riff.as_slice(),
        ) || matches_at(data, 0, bmp.as_slice())
    }

    /// Whether `data` starts with the signature of a WAV, Ogg or MP3 file.
    pub fn is_audio(&self, data: &[u8]) -> (audio: bool)
        ensures
            audio == is_audio_spec(data@),
    {
        if data.len() < 12 {
            return false;
        }
        let riff: [u8; 4] = [0x52, 0x49, 0x46, 0x46];
        let wave: [u8; 4] = [0x57, 0x41, 0x56, 0x45];
        let ogg: [u8; 4] = [0x4F, 0x67, 0x67, 0x53];
        let id3: [u8; 3] = [0x49, 0x44, 0x33];
        let mpeg: [u8; 2] = [0xFF, 0xFB];
        assert(riff@ =~= seq![0x52u8, 0x49u8, 0x46u8, 0x46u8]);
        assert(wave@ =~= seq![0x57u8, 0x41u8, 0x56u8, 0x45u8]);
        assert(ogg@ =~= seq![0x4Fu8, 0x67u8, 0x67u8, 0x53u8]);
        assert(id3@ =~= seq![0x49u8, 0x44u8, 0x33u8]);
        assert(mpeg@ =~= seq![0xFFu8, 0xFBu8]);
        (matches_at(data, 0, riff.as_slice()) && matches_at(data, 8, wave.as_slice())) || matches_at(
            data,
            0,
            ogg.as_slice(),
        ) || matches_at(data, 0, id3.as_slice()) || matches_at(data, 0, mpeg.as_slice())
    }

    /// Whether `data` starts with the signature of an AVI or MP4 file.
    pub fn is_video(&self, data: &[u8]) -> (video: bool)
        ensures
            video == is_video_spec(data@),
    {
        if data.len() < 12 {
            return false;
        }
        let riff: [u8; 4] = [0x52, 0x49, 0x46, 0x46];
        let avi: [u8; 4] = [0x41, 0x56, 0x49, 0x20];
        let mp42: [u8; 12] = [0, 0, 0, 0x20, 0x66, 0x74, 0x79, 0x70, 0x6D, 0x70, 0x34, 0x32];
        let isom: [u8; 12] = [0, 0, 0, 0x18, 0x66, 0x74, 0x79, 0x70, 0x69, 0x73, 0x6F, 0x6D];
        assert(riff@ =~= seq![0x52u8, 0x49u8, 0x46u8, 0x46u8]);
        assert(avi@ =~= seq![0x41u8, 0x56u8, 0x49u8, 0x20u8]);
        assert(mp42@ =~= seq![
            0u8,
            0u8,
            0u8,
            0x20u8,
            0x66u8,
            0x74u8,
            0x79u8,
            0x70u8,
            0x6Du8,
            0x70u8,
            0x34u8,
            0x32u8,
        ]);
        assert(isom@ =~= seq![
            0u8,
            0u8,
            0u8,
            0x18u8,
            0x66u8,
            0x74u8,
            0x79u8,
            0x70u8,
            0x69u8,
            0x73u8,
            0x6Fu8,
            0x6Du8,
        ]);
        (matches_at(data, 0, riff.as_slice()) && matches_at(data, 8, avi.as_slice())) || matches_at(
            data,
            0,
            mp42.as_slice(),
        ) || matches_at(data, 0, isom.as_slice())
    }

    /// Whether `data` starts with the signature of a ZIP, RAR or 7z file.
    pub fn is_archive(&self, data: &[u8]) -> (archive: bool)
        ensures
            archive == is_archive_spec(data@),
    {
        if data.len() < 4 {
            return false;
        }
        let zip: [u8; 4] = [0x50, 0x4B, 0x03, 0x04];
        let zip_empty: [u8; 4] = [0x50, 0x4B, 0x05, 0x06];
        let zip_spanned: [u8; 4] = [0x50, 0x4B, 0x07, 0x08];
        let rar: [u8; 4] = [0x52, 0x61, 0x72, 0x21];
        let seven: [u8; 4] = [0x37, 0x7A, 0xBC, 0xAF];
        assert(zip@ =~= seq![0x50u8, 0x4Bu8, 0x03u8, 0x04u8]);
        assert(zip_empty@ =~= seq![0x50u8, 0x4Bu8, 0x05u8, 0x06u8]);
        assert(zip_spanned@ =~= seq![0x50u8, 0x4Bu8, 0x07u8, 0x08u8]);
        assert(rar@ =~= seq![0x52u8, 0x61u8, 0x72u8, 0x21u8]);
        assert(seven@ =~= seq![0x37u8, 0x7Au8, 0xBCu8, 0xAFu8]);
        matches_at(data, 0, zip.as_slice()) || matches_at(data, 0, zip_empty.as_slice()) || matches_at(
            data,
            0,
            zip_spanned.as_slice(),
        ) || matches_at(data, 0, rar.as_slice()) || matches_at(data, 0, seven.as_slice())
    }

    /// Tells the kind of content of `data`: no data is unknown; text is JSON,
    /// XML or plain text; other data is an image, audio, video or an archive by
    /// its signature, in this order, or else binary.
    pub fn detect_content_type(&self, data: &[u8]) -> (content_type: ContentType)
        ensures
            content_type == content_type_spec(data@, self.sample_size()),
    {
        if data.len() == 0 {
            return ContentType::Unknown;
        }
        if self.is_text(data) {
            if self.is_json(data) {
                return ContentType::Json;
            }
            if self.is_xml(data) {
                return ContentType::Xml;
            }
            return ContentType::Text;
        }
        if self.is_image(data) {
            return ContentType::Image;
        }
        if self.is_audio(data) {
            return ContentType::Audio;
        }
        if self.is_video(data) {
            return ContentType::Video;
        }
        if self.is_archive(data) {
            return ContentType::Archive;
        }
        ContentType::Binary
    }

    /// The hint for content of a kind and an entropy: media are coded fast;
    /// text over 7 bits per byte and binary data over 7.5 get the maximum;
    /// everything else is balanced.
    pub fn determine_compression_hint(&self, content_type: &ContentType, entropy: u32) -> (hint: CompressionHint)
        ensures
            hint == hint_spec(*content_type, entropy),
    {
        match content_type {
            ContentType::Json | ContentType::Xml | ContentType::Text => {
                if entropy > 7_000_000 {
                    CompressionHint::Max
                } else {
                    CompressionHint::Balanced
                }
            },
            ContentType::Image | ContentType::Audio | ContentType::Video => CompressionHint::Fast,
            ContentType::Binary => {
                if entropy > 7_500_000 {
                    CompressionHint::Max
                } else {
                    CompressionHint::Balanced
                }
            },
            _ => CompressionHint::Balanced,
        }
    }

    /// The transforms to apply to content of a kind and an entropy, in order.
    pub fn recommend_transforms(&self, content_type: &ContentType, entropy: u32) -> (recommendations: Vec<
        TransformRecommendation,
    >)
        ensures
            recommendations@ == recommended_spec(*content_type, entropy),
    {
        let mut recommendations: Vec<TransformRecommendation> = Vec::new();
        match content_type {
            ContentType::Json | ContentType::Xml => {
                if entropy < 6_000_000 {
                    recommendations.push(TransformRecommendation::RLE);
                }
                recommendations.push(TransformRecommendation::Dictionary);
            },
            ContentType::Text => {
                if entropy < 6_000_000 {
                    recommendations.push(TransformRecommendation::RLE);
                }
                recommendations.push(TransformRecommendation::Dictionary);
            },
            ContentType::Binary => {
                if entropy < 5_000_000 {
                    recommendations.push(TransformRecommendation::RLE);
                }
                recommendations.push(TransformRecommendation::Delta);
            },
            _ => {
                if entropy < 4_000_000 {
                    recommendations.push(TransformRecommendation::RLE);
                }
            },
        }
        assert(recommendations@ =~= recommended_spec(*content_type, entropy));
        recommendations
    }

    /// Analyzes a chunk: its kind of content, and the hint and the transforms
    /// that go with this kind and the entropy that the caller measured.
    pub fn analyze_chunk(&self, data: &[u8], entropy: u32) -> (result: AnalysisResult)
        ensures
            result.content_type == content_type_spec(data@, self.sample_size()),
            result.entropy == entropy,
            result.compression_hint == hint_spec(result.content_type, entropy),
            result.recommended_transforms@ == recommended_spec(result.content_type, entropy),
    {
        let content_type = self.detect_content_type(data);
        let compression_hint = self.determine_compression_hint(&content_type, entropy);
        let recommended_transforms = self.recommend_transforms(&content_type, entropy);
        AnalysisResult { content_type, entropy, compression_hint, recommended_transforms }
    }
}

} // verus!
