//! Transforms as objects, and pipelines of them.

pub mod delta;
pub mod dictionary;
pub mod rle;

use vstd::prelude::*;
use vstd::slice::slice_to_vec;
use crate::analyzer::TransformRecommendation;
use crate::error::HlcError;
use crate::stages::delta::DeltaTransform;
use crate::stages::dictionary::{DictionaryTransform, LZ4DictionaryTransform};
use crate::stages::rle::{OptimizedRLETransform, RLETransform};

verus! {

/// A reversible transform on byte sequences.
pub trait Transform: Send + Sync {
    /// What `encode` returns for `data`; `None` is a failure.
    spec fn encoding(&self, data: Seq<u8>) -> Option<Seq<u8>>;

    /// What `decode` returns for `data`; `None` is a failure.
    spec fn decoding(&self, data: Seq<u8>) -> Option<Seq<u8>>;

    /// The identifier of the transform.
    spec fn id_spec(&self) -> u8;

    /// Applies the transform. What it gives, `decode` turns back into `data`.
    fn encode(&self, data: &[u8]) -> (result: Result<Vec<u8>, HlcError>)
        ensures
            match self.encoding(data@) {
                Some(encoded) => result is Ok && result->Ok_0@ == encoded && self.decoding(encoded) == Some(data@),
                None => result is Err,
            },
    ;

    /// Reverses the transform.
    fn decode(&self, data: &[u8]) -> (result: Result<Vec<u8>, HlcError>)
        ensures
            match self.decoding(data@) {
                Some(decoded) => result is Ok && result->Ok_0@ == decoded,
                None => result is Err,
            },
    ;

    /// The identifier of the transform.
    fn id(&self) -> (id: u8)
        ensures
            id == self.id_spec(),
    ;

}

/// A step of a pipeline: one of the transforms of this library, or a transform
/// of the caller's.
pub enum Stage {
    Delta(DeltaTransform),
    Rle(RLETransform),
    OptimizedRle(OptimizedRLETransform),
    Dictionary(DictionaryTransform),
    Lz4Dictionary(LZ4DictionaryTransform),
    Custom(Box<dyn Transform>),
}

impl Transform for Stage {
    open spec fn encoding(&self, data: Seq<u8>) -> Option<Seq<u8>> {
        match self {
            Stage::Delta(t) => t.encoding(data),
            Stage::Rle(t) => t.encoding(data),
            Stage::OptimizedRle(t) => t.encoding(data),
            Stage::Dictionary(t) => t.encoding(data),
            Stage::Lz4Dictionary(t) => t.encoding(data),
            Stage::Custom(t) => t.encoding(data),
        }
    }

    open spec fn decoding(&self, data: Seq<u8>) -> Option<Seq<u8>> {
        match self {
            Stage::Delta(t) => t.decoding(data),
            Stage::Rle(t) => t.decoding(data),
            Stage::OptimizedRle(t) => t.decoding(data),
            Stage::Dictionary(t) => t.decoding(data),
            Stage::Lz4Dictionary(t) => t.decoding(data),
            Stage::Custom(t) => t.decoding(data),
        }
    }

    open spec fn id_spec(&self) -> u8 {
        match self {
            Stage::Delta(t) => t.id_spec(),
            Stage::Rle(t) => t.id_spec(),
            Stage::OptimizedRle(t) => t.id_spec(),
            Stage::Dictionary(t) => t.id_spec(),
            Stage::Lz4Dictionary(t) => t.id_spec(),
            Stage::Custom(t) => t.id_spec(),
        }
    }

    fn encode(&self, data: &[u8]) -> (result: Result<Vec<u8>, HlcError>) {
        match self {
            Stage::Delta(t) => t.encode(data),
            Stage::Rle(t) => t.encode(data),
            Stage::OptimizedRle(t) => t.encode(data),
            Stage::Dictionary(t) => t.encode(data),
            Stage::Lz4Dictionary(t) => t.encode(data),
            Stage::Custom(t) => t.encode(data),
        }
    }

    fn decode(&self, data: &[u8]) -> (result: Result<Vec<u8>, HlcError>) {
        match self {
            Stage::Delta(t) => t.decode(data),
            Stage::Rle(t) => t.decode(data),
            Stage::OptimizedRle(t) => t.decode(data),
            Stage::Dictionary(t) => t.decode(data),
            Stage::Lz4Dictionary(t) => t.decode(data),
            Stage::Custom(t) => t.decode(data),
        }
    }

    fn id(&self) -> (id: u8) {
        match self {
            Stage::Delta(t) => t.id(),
            Stage::Rle(t) => t.id(),
            Stage::OptimizedRle(t) => t.id(),
            Stage::Dictionary(t) => t.id(),
            Stage::Lz4Dictionary(t) => t.id(),
            Stage::Custom(t) => t.id(),
        }
    }
}

/// What applying the stages in order gives for `data`; `None` where one fails.
pub open spec fn encoded_through(stages: Seq<Stage>, data: Seq<u8>) -> Option<Seq<u8>>
    decreases stages.len(),
{
    if stages.len() == 0 {
        Some(data)
    } else {
        match encoded_through(stages.drop_last(), data) {
            Some(middle) => stages.last().encoding(middle),
            None => None,
        }
    }
}

/// What reversing the stages, the last one first, gives for `data`; `None`
/// where one fails.
pub open spec fn decoded_through(stages: Seq<Stage>, data: Seq<u8>) -> Option<Seq<u8>>
    decreases stages.len(),
{
    if stages.len() == 0 {
        Some(data)
    } else {
        match stages.last().decoding(data) {
            Some(middle) => decoded_through(stages.drop_last(), middle),
            None => None,
        }
    }
}

/// Where a prefix of a pipeline fails, the pipeline fails.
pub proof fn lemma_encoded_prefix(stages: Seq<Stage>, data: Seq<u8>, n: int)
    requires
        0 <= n <= stages.len(),
    ensures
        encoded_through(stages.take(n), data) is None ==> encoded_through(stages, data) is None,
    decreases stages.len() - n,
{
    if n == stages.len() {
        assert(stages.take(n) =~= stages);
    } else {
        lemma_encoded_prefix(stages, data, n + 1);
        assert(stages.take(n + 1).drop_last() =~= stages.take(n));
    }
}

/// The bit of the transform with the identifier `id`: bit `id - 1` for
/// identifiers from 1 to 8, and no bit for any other.
pub open spec fn flag_of(id: u8) -> u8 {
    if id == 1 {
        1
    } else if id == 2 {
        2
    } else if id == 3 {
        4
    } else if id == 4 {
        8
    } else if id == 5 {
        16
    } else if id == 6 {
        32
    } else if id == 7 {
        64
    } else if id == 8 {
        128
    } else {
        0
    }
}

/// The bits of all `stages` together.
pub open spec fn flags_of(stages: Seq<Stage>) -> u8
    decreases stages.len(),
{
    if stages.len() == 0 {
        0
    } else {
        flags_of(stages.drop_last()) | flag_of(stages.last().id_spec())
    }
}

/// The bit of an identifier.
fn flag_for(id: u8) -> (flag: u8)
    ensures
        flag == flag_of(id),
{
    if id < 1 || id > 8 {
        return 0;
    }
    let shift: u8 = id - 1;
    let flag: u8 = 1u8 << shift;
    let ghost expected: u8 = flag_of(id);
    assert(flag == expected) by (bit_vector)
        requires
            1 <= id <= 8,
            shift == id - 1,
            flag == 1u8 << shift,
            expected == (if id == 1 {
                1u8
            } else if id == 2 {
                2u8
            } else if id == 3 {
                4u8
            } else if id == 4 {
                8u8
            } else if id == 5 {
                16u8
            } else if id == 6 {
                32u8
            } else if id == 7 {
                64u8
            } else {
                128u8
            }),
    ;
    flag
}

/// Transforms applied one after the other.
pub struct TransformPipeline {
    stages: Vec<Stage>,
}

impl View for TransformPipeline {
    type V = Seq<Stage>;

    closed spec fn view(&self) -> Seq<Stage> {
        self.stages@
    }
}

/// The stage that a recommendation stands for, if any: delta, run-length or
/// dictionary coding with the default settings.
pub open spec fn is_stage_for(stage: Stage, recommendation: TransformRecommendation) -> bool {
    match recommendation {
        TransformRecommendation::Delta => stage matches Stage::Delta(t) && t.mode()
            == crate::stages::delta::DeltaMode::Byte,
        TransformRecommendation::RLE => stage matches Stage::Rle(t) && t.max_run() == 255,
        TransformRecommendation::Dictionary => stage matches Stage::Dictionary(t) && t.params() == (
            32768usize,
            3usize,
            258usize,
        ),
        _ => false,
    }
}

/// Whether `wanted` is among the recommendations.
pub open spec fn asks_for(recommendations: Seq<TransformRecommendation>, wanted: TransformRecommendation) -> bool
    decreases recommendations.len(),
{
    recommendations.len() > 0 && (recommendations.last() == wanted || asks_for(
        recommendations.drop_last(),
        wanted,
    ))
}

/// The transforms in the canonical order: run-length coding first, then
/// delta coding, then dictionary coding, each one if it is asked for.
pub open spec fn canonical_order(rle: bool, delta: bool, dictionary: bool) -> Seq<TransformRecommendation> {
    (if rle {
        seq![TransformRecommendation::RLE]
    } else {
        Seq::<TransformRecommendation>::empty()
    }) + (if delta {
        seq![TransformRecommendation::Delta]
    } else {
        Seq::<TransformRecommendation>::empty()
    }) + (if dictionary {
        seq![TransformRecommendation::Dictionary]
    } else {
        Seq::<TransformRecommendation>::empty()
    })
}

/// The transforms that `flags` stand for, in the canonical order: run-length
/// coding for bit 1, delta coding for bit 0, dictionary coding for bit 3.
pub open spec fn canonical(flags: u8) -> Seq<TransformRecommendation> {
    canonical_order(flags & 2 != 0, flags & 1 != 0, flags & 8 != 0)
}

/// The recommended transforms in the canonical order, each one once.
/// Recommendations of no transform or of XOR stand for nothing.
pub open spec fn ordered(recommendations: Seq<TransformRecommendation>) -> Seq<TransformRecommendation> {
    canonical_order(
        asks_for(recommendations, TransformRecommendation::RLE),
        asks_for(recommendations, TransformRecommendation::Delta),
        asks_for(recommendations, TransformRecommendation::Dictionary),
    )
}

/// Whether the stages are those that the recommendations stand for, one for one.
pub open spec fn stages_for(stages: Seq<Stage>, recommendations: Seq<TransformRecommendation>) -> bool {
    &&& stages.len() == recommendations.len()
    &&& forall|i: int| 0 <= i < stages.len() ==> is_stage_for(#[trigger] stages[i], recommendations[i])
}

impl TransformPipeline {
    /// A pipeline without stages.
    pub fn new() -> (pipeline: Self)
        ensures
            pipeline@.len() == 0,
    {
        TransformPipeline { stages: Vec::new() }
    }

    /// Adds a transform of the caller's at the end.
    pub fn add_transform(&mut self, transform: Box<dyn Transform>)
        ensures
            final(self)@ == old(self)@.push(Stage::Custom(transform)),
    {
        self.stages.push(Stage::Custom(transform));
    }

    /// Adds a stage at the end.
    pub fn add_stage(&mut self, stage: Stage)
        ensures
            final(self)@ == old(self)@.push(stage),
    {
        self.stages.push(stage);
    }

    /// The pipeline of run-length, delta and dictionary coding with their
    /// default settings, in this order, each one if `wanted`.
    fn in_canonical_order(rle: bool, delta: bool, dictionary: bool) -> (pipeline: Self)
        ensures
            stages_for(pipeline@, canonical_order(rle, delta, dictionary)),
    {
        let mut pipeline = Self::new();
        if rle {
            pipeline.add_stage(Stage::Rle(RLETransform::new()));
        }
        if delta {
            pipeline.add_stage(Stage::Delta(DeltaTransform::new()));
        }
        if dictionary {
            pipeline.add_stage(Stage::Dictionary(DictionaryTransform::new()));
        }
        pipeline
    }

    /// The pipeline of the recommended transforms in the canonical order:
    /// run-length, delta and dictionary coding with their default settings,
    /// each one once if it is among the recommendations, whatever their order.
    /// Recommendations of no transform or of XOR add nothing. `from_flags`
    /// makes the same pipeline of the flags of this one.
    pub fn from_recommendations(recommendations: &[TransformRecommendation]) -> (pipeline: Self)
        ensures
            stages_for(pipeline@, ordered(recommendations@)),
    {
        let mut rle: bool = false;
        let mut delta: bool = false;
        let mut dictionary: bool = false;
        let mut i: usize = 0;
        proof {
            assert(recommendations@.take(0) =~= Seq::<TransformRecommendation>::empty());
        }
        while i < recommendations.len()
            invariant
                i <= recommendations@.len(),
                rle == asks_for(recommendations@.take(i as int), TransformRecommendation::RLE),
                delta == asks_for(recommendations@.take(i as int), TransformRecommendation::Delta),
                dictionary == asks_for(recommendations@.take(i as int), TransformRecommendation::Dictionary),
            decreases recommendations@.len() - i,
        {
            proof {
                let next = recommendations@.take(i + 1);
                assert(next.drop_last() =~= recommendations@.take(i as int));
                assert(next.last() == recommendations@[i as int]);
            }
            match recommendations[i] {
                TransformRecommendation::Delta => {
                    delta = true;
                },
                TransformRecommendation::RLE => {
                    rle = true;
                },
                TransformRecommendation::Dictionary => {
                    dictionary = true;
                },
                TransformRecommendation::XOR => {},
                TransformRecommendation::NoTransform => {},
            }
            i += 1;
        }
        proof {
            assert(recommendations@.take(i as int) =~= recommendations@);
        }
        Self::in_canonical_order(rle, delta, dictionary)
    }

    /// Applies all stages in order. Fails where one of them fails. What it
    /// gives, `decode` turns back into `data`.
    pub fn encode(&self, data: &[u8]) -> (result: Result<Vec<u8>, HlcError>)
        ensures
            match encoded_through(self@, data@) {
                Some(encoded) => result is Ok && result->Ok_0@ == encoded,
                None => result is Err,
            },
            result is Ok ==> decoded_through(self@, result->Ok_0@) == Some(data@),
    {
        let mut current: Vec<u8> = slice_to_vec(data);
        let mut i: usize = 0;
        proof {
            assert(self@.take(0) =~= Seq::<Stage>::empty());
        }
        while i < self.stages.len()
            invariant
                i <= self@.len(),
                self@ == self.stages@,
                encoded_through(self@.take(i as int), data@) == Some(current@),
                decoded_through(self@.take(i as int), current@) == Some(data@),
            decreases self@.len() - i,
        {
            proof {
                assert(self@.take(i + 1).drop_last() =~= self@.take(i as int));
                assert(self@.take(i + 1).last() == self@[i as int]);
                lemma_encoded_prefix(self@, data@, i + 1);
            }
            match self.stages[i].encode(current.as_slice()) {
                Ok(next) => {
                    current = next;
                },
                Err(e) => {
                    return Err(e);
                },
            }
            i += 1;
        }
        proof {
            assert(self@.take(i as int) =~= self@);
        }
        Ok(current)
    }

    /// Reverses all stages, the last one first. Fails where one of them fails.
    pub fn decode(&self, data: &[u8]) -> (result: Result<Vec<u8>, HlcError>)
        ensures
            match decoded_through(self@, data@) {
                Some(decoded) => result is Ok && result->Ok_0@ == decoded,
                None => result is Err,
            },
    {
        let mut current: Vec<u8> = slice_to_vec(data);
        let mut i: usize = self.stages.len();
        proof {
            assert(self@.take(i as int) =~= self@);
        }
        while i > 0
            invariant
                i <= self@.len(),
                self@ == self.stages@,
                decoded_through(self@.take(i as int), current@) == decoded_through(self@, data@),
            decreases i,
        {
            proof {
                assert(self@.take(i as int).drop_last() =~= self@.take(i - 1));
                assert(self@.take(i as int).last() == self@[i - 1]);
            }
            match self.stages[i - 1].decode(current.as_slice()) {
                Ok(next) => {
                    current = next;
                },
                Err(e) => {
                    return Err(e);
                },
            }
            i -= 1;
        }
        Ok(current)
    }

    /// The flags of the stages of the pipeline: bit `id - 1` for each
    /// identifier from 1 to 8; other identifiers add nothing.
    pub fn get_flags(&self) -> (flags: u8)
        ensures
            flags == flags_of(self@),
    {
        let mut flags: u8 = 0;
        let mut i: usize = 0;
        proof {
            assert(self@.take(0) =~= Seq::<Stage>::empty());
        }
        while i < self.stages.len()
            invariant
                i <= self@.len(),
                self@ == self.stages@,
                flags == flags_of(self@.take(i as int)),
            decreases self@.len() - i,
        {
            proof {
                assert(self@.take(i + 1).drop_last() =~= self@.take(i as int));
                assert(self@.take(i + 1).last() == self@[i as int]);
            }
            let id: u8 = self.stages[i].id();
            flags = flags | flag_for(id);
            i += 1;
        }
        proof {
            assert(self@.take(i as int) =~= self@);
        }
        flags
    }

    /// The pipeline that a set of flags stands for, in the canonical order:
    /// run-length coding for bit 1, then delta coding for bit 0, then
    /// dictionary coding for bit 3, each with its default settings. Other bits
    /// add nothing.
    pub fn from_flags(flags: u8) -> (pipeline: Self)
        ensures
            stages_for(pipeline@, canonical(flags)),
    {
        Self::in_canonical_order(flags & 2 != 0, flags & 1 != 0, flags & 8 != 0)
    }
}

/// What the stage that a recommendation stands for makes of `data`; a
/// recommendation without a stage leaves `data` as it is.
pub open spec fn stage_encoding(recommendation: TransformRecommendation, data: Seq<u8>) -> Seq<u8> {
    match recommendation {
        TransformRecommendation::Delta => crate::transforms::delta::encode_spec(data),
        TransformRecommendation::RLE => crate::stages::rle::rle_encoding(data, 255),
        TransformRecommendation::Dictionary => crate::stages::dictionary::dictionary_encoding_from(
            data,
            0,
            32768,
            3,
            258,
        ),
        _ => data,
    }
}

/// What the stages that the recommendations stand for make of `data`, one after the other.
pub open spec fn recommended_encoding(recommendations: Seq<TransformRecommendation>, data: Seq<u8>) -> Seq<u8>
    decreases recommendations.len(),
{
    if recommendations.len() == 0 {
        data
    } else {
        stage_encoding(recommendations.last(), recommended_encoding(recommendations.drop_last(), data))
    }
}

/// The flag of the stage that a recommendation stands for.
pub open spec fn stage_flag(recommendation: TransformRecommendation) -> u8 {
    match recommendation {
        TransformRecommendation::Delta => 1,
        TransformRecommendation::RLE => 2,
        TransformRecommendation::Dictionary => 8,
        _ => 0,
    }
}

/// The flags of the stages that the recommendations stand for.
pub open spec fn recommended_flags(recommendations: Seq<TransformRecommendation>) -> u8
    decreases recommendations.len(),
{
    if recommendations.len() == 0 {
        0
    } else {
        recommended_flags(recommendations.drop_last()) | stage_flag(recommendations.last())
    }
}

/// The stages of recommendations do what the recommendations stand for.
pub proof fn lemma_stages_for(stages: Seq<Stage>, recommendations: Seq<TransformRecommendation>, data: Seq<u8>)
    requires
        stages_for(stages, recommendations),
    ensures
        encoded_through(stages, data) == Some(recommended_encoding(recommendations, data)),
        flags_of(stages) == recommended_flags(recommendations),
    decreases stages.len(),
{
    if stages.len() > 0 {
        let front = stages.drop_last();
        let front_recommendations = recommendations.drop_last();
        assert forall|i: int| 0 <= i < front.len() implies is_stage_for(
            #[trigger] front[i],
            front_recommendations[i],
        ) by {
            assert(front[i] == stages[i]);
        }
        lemma_stages_for(front, front_recommendations, data);
        assert(is_stage_for(stages[stages.len() - 1], recommendations[stages.len() - 1]));
    }
}

/// The flags of the transforms in the canonical order stand for these
/// transforms in this order.
pub proof fn lemma_canonical_flags(rle: bool, delta: bool, dictionary: bool)
    ensures
        canonical(recommended_flags(canonical_order(rle, delta, dictionary))) == canonical_order(
            rle,
            delta,
            dictionary,
        ),
{
    let order = canonical_order(rle, delta, dictionary);
    let flags = recommended_flags(order);
    let a: u8 = if rle { 2 } else { 0 };
    let b: u8 = if delta { 1 } else { 0 };
    let c: u8 = if dictionary { 8 } else { 0 };
    reveal_with_fuel(recommended_flags, 4);
    assert(((0u8 | a) | b) | c == (a | b) | c && (0u8 | a) | b == a | b && (0u8 | a) | c == a | c && (0u8 | b)
        | c == b | c && 0u8 | a == a && 0u8 | b == b && 0u8 | c == c) by (bit_vector);
    assert(flags == (a | b) | c) by {
        if rle && delta && dictionary {
            assert(order.drop_last() =~= seq![TransformRecommendation::RLE, TransformRecommendation::Delta]);
            assert(order.drop_last().drop_last() =~= seq![TransformRecommendation::RLE]);
        } else if rle && delta {
            assert(order.drop_last() =~= seq![TransformRecommendation::RLE]);
            assert((a | b) | 0u8 == a | b) by (bit_vector);
        } else if rle && dictionary {
            assert(order.drop_last() =~= seq![TransformRecommendation::RLE]);
            assert((a | 0u8) | c == a | c) by (bit_vector);
        } else if delta && dictionary {
            assert(order.drop_last() =~= seq![TransformRecommendation::Delta]);
            assert((0u8 | b) | c == b | c) by (bit_vector);
        } else {
            assert((a | 0u8) | 0u8 == a && (0u8 | b) | 0u8 == b && (0u8 | 0u8) | c == c && (0u8 | 0u8) | 0u8 == 0u8)
                by (bit_vector);
        }
    }
    assert((((a | b) | c) & 2 != 0) == (a == 2) && (((a | b) | c) & 1 != 0) == (b == 1) && (((a | b) | c) & 8 != 0)
        == (c == 8)) by (bit_vector)
        requires
            a == 0 || a == 2,
            b == 0 || b == 1,
            c == 0 || c == 8,
    ;
}

/// The pipeline made of the flags of a pipeline in the canonical order holds
/// the same transforms in the same order: what one encodes, the other decodes.
pub proof fn lemma_flags_rebuild(flags: u8)
    ensures
        canonical(recommended_flags(canonical(flags))) == canonical(flags),
{
    lemma_canonical_flags(flags & 2 != 0, flags & 1 != 0, flags & 8 != 0);
}

impl Default for TransformPipeline {
    fn default() -> (pipeline: Self)
        ensures
            pipeline@.len() == 0,
    {
        Self::new()
    }
}

} // verus!
