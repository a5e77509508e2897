//! The work on one chunk of a stream: transforms, entropy coding, checksum, header.
//!
//! Chunks are independent of each other; a caller may hand them to workers.

use vstd::prelude::*;
use crate::analyzer::{
    content_type_spec, hint_spec, recommended_spec, AnalysisResult, CompressionHint, ContentAnalyzer,
    TransformRecommendation,
};
use crate::checksum::{crc32_of, ChecksumUtils};
use crate::chunker::Chunk;
use crate::entropy::{EntropyCoder, EntropyCoderFactory};
use crate::error::HlcError;
use crate::headers::{ChunkHeader, EntropyMethod};
use crate::stages::{lemma_stages_for, ordered, recommended_encoding, recommended_flags, TransformPipeline};

verus! {

/// The outcome of the work on one chunk.
#[derive(Debug)]
pub struct ChunkResult {
    pub chunk_id: u32,
    pub original_data: Vec<u8>,
    pub compressed_data: Vec<u8>,
    pub header: ChunkHeader,
}

/// Counters of a worker pool.
#[derive(Debug, Clone)]
pub struct ThreadPoolStats {
    pub num_workers: usize,
    pub pending_tasks: usize,
    pub completed_tasks: usize,
}

/// Processes chunks: analysis first, then the work on the chunk.
pub struct RayonChunkProcessor {
    analyzer: ContentAnalyzer,
}

/// The entropy method for a hint: LZ4 for speed, Zstandard for balance, the
/// range coder for the best ratio.
pub open spec fn method_for(hint: CompressionHint) -> EntropyMethod {
    match hint {
        CompressionHint::Fast => EntropyMethod::LZ4,
        CompressionHint::Balanced => EntropyMethod::Zstd,
        CompressionHint::Max => EntropyMethod::RangeCoder,
    }
}

/// What the coder of `method` at its default level makes of `data`.
pub open spec fn coded_by(method: EntropyMethod, data: Seq<u8>) -> Option<Seq<u8>> {
    match method {
        EntropyMethod::LZ4 => crate::entropy::lz4_encoding(data),
        EntropyMethod::Zstd => crate::transforms::entropy::zstd_frame(data, 3),
        _ => Some(data),
    }
}

/// Whether `result` is the outcome of the work on `chunk` with the transforms
/// `recommended` and the entropy method that goes with `hint`.
pub open spec fn is_outcome(
    result: Result<ChunkResult, HlcError>,
    chunk: Chunk,
    recommended: Seq<TransformRecommendation>,
    hint: CompressionHint,
) -> bool {
    let recommendations = ordered(recommended);
    let method = method_for(hint);
    let transformed = recommended_encoding(recommendations, chunk.data@);
    match coded_by(method, transformed) {
        None => result is Err && result->Err_0 is CompressionError,
        Some(coded) => if chunk.data@.len() > u32::MAX || coded.len() > u32::MAX {
            result is Err && result->Err_0 is PipelineError
        } else {
            &&& result is Ok
            &&& result->Ok_0.chunk_id == chunk.id
            &&& result->Ok_0.original_data == chunk.data
            &&& result->Ok_0.compressed_data@ == coded
            &&& result->Ok_0.header.chunk_id == chunk.id
            &&& result->Ok_0.header.original_size == chunk.data@.len()
            &&& result->Ok_0.header.compressed_size == coded.len()
            &&& result->Ok_0.header.transform_flags == recommended_flags(recommendations)
            &&& result->Ok_0.header.entropy_method == method.code_spec()
            &&& result->Ok_0.header.crc32 == crc32_of(chunk.data@)
            &&& result->Ok_0.header.sha256 is None
        },
    }
}

impl RayonChunkProcessor {
    /// The sample size of the analyzer.
    pub closed spec fn sample_size(self) -> usize {
        self.analyzer.sample_size()
    }

    /// A processor with a default analyzer.
    pub fn new() -> (processor: Self)
        ensures
            processor.sample_size() == 8192,
    {
        RayonChunkProcessor { analyzer: ContentAnalyzer::new() }
    }

    /// Does the work on one chunk as `analysis` says.
    ///
    /// The recommended transforms run in the canonical order; the entropy coder that goes
    /// with the hint codes their output; the header records the chunk's number,
    /// both sizes, the flags of the transforms, the entropy method and the CRC32
    /// of the chunk's bytes, without a SHA-256 digest.
    ///
    /// Fails with a pipeline error where a size does not fit 32 bits, and with a
    /// compression error where the entropy coder fails.
    pub fn process_single_chunk(chunk: Chunk, analysis: AnalysisResult) -> (result: Result<ChunkResult, HlcError>)
        ensures
            is_outcome(result, chunk, analysis.recommended_transforms@, analysis.compression_hint),
    {
        let pipeline = TransformPipeline::from_recommendations(analysis.recommended_transforms.as_slice());
        proof {
            lemma_stages_for(pipeline@, ordered(analysis.recommended_transforms@), chunk.data@);
        }
        let transformed = match pipeline.encode(chunk.data.as_slice()) {
            Ok(transformed) => transformed,
            Err(e) => {
                return Err(e);
            },
        };
        let entropy_method = match analysis.compression_hint {
            CompressionHint::Fast => EntropyMethod::LZ4,
            CompressionHint::Balanced => EntropyMethod::Zstd,
            CompressionHint::Max => EntropyMethod::RangeCoder,
        };
        let entropy_coder = EntropyCoderFactory::create(entropy_method, None);
        let compressed_data = match entropy_coder.encode(transformed.as_slice()) {
            Ok(compressed) => compressed,
            Err(e) => {
                return Err(e);
            },
        };
        if chunk.data.len() > u32::MAX as usize || compressed_data.len() > u32::MAX as usize {
            return Err(HlcError::PipelineError("Chunk too large for processing".to_string()));
        }
        let crc32: u32 = ChecksumUtils::crc32(chunk.data.as_slice());
        let transform_flags: u8 = pipeline.get_flags();
        let header = ChunkHeader::new(
            chunk.id,
            chunk.data.len() as u32,
            compressed_data.len() as u32,
            transform_flags,
            entropy_method.code(),
            crc32,
            None,
        );
        Ok(ChunkResult { chunk_id: chunk.id, original_data: chunk.data, compressed_data, header })
    }

    /// Analyzes a chunk, of the entropy that the caller measured, and does the
    /// work on it as the analysis says.
    pub fn process_chunk(&self, chunk: Chunk, entropy: u32) -> (result: Result<ChunkResult, HlcError>)
        ensures
            ({
                let kind = content_type_spec(chunk.data@, self.sample_size());
                is_outcome(result, chunk, recommended_spec(kind, entropy), hint_spec(kind, entropy))
            }),
    {
        let analysis = self.analyzer.analyze_chunk(chunk.data.as_slice(), entropy);
        Self::process_single_chunk(chunk, analysis)
    }
}

} // verus!
