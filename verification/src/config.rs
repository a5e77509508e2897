//! Compression settings.

use vstd::prelude::*;
use crate::error::HlcError;
use crate::text::{lowercase, lowercase_of, joined};

verus! {

/// The speed against ratio trade-off.
#[derive(Debug, Clone, Copy, PartialEq, Eq, Structural)]
pub enum HlcMode {
    /// Moderate entropy level, conservative analysis.
    Balanced,
    /// High entropy level, aggressive analysis.
    Max,
}

/// The algorithm of the per-chunk integrity tag.
#[derive(Debug, Clone, Copy, PartialEq, Eq, Structural)]
pub enum ChecksumType {
    CRC32,
    SHA256,
}

/// The smallest chunk size that the builder accepts.
pub const MIN_CHUNK_SIZE: usize = 1024;

/// The default chunk size: one mebibyte.
pub const DEFAULT_CHUNK_SIZE: usize = 1048576;

/// The entropy level of the balanced mode.
pub const BALANCED_LEVEL: i32 = 5;

/// The entropy level of the max mode.
pub const MAX_LEVEL: i32 = 19;

/// The settings of one compression run.
#[derive(Debug, Clone)]
pub struct HlcConfig {
    pub mode: HlcMode,
    pub checksum: ChecksumType,
    pub threads: usize,
    pub chunk_size: usize,
    pub entropy_level: i32,
}

/// `num_cpus::get`: the number of processors this process may use, which depends
/// on the machine and is at least 1.
#[verifier::external_body]
pub(crate) fn available_cpus() -> (count: usize)
    ensures
        count >= 1,
{
    num_cpus::get()
}

/// The entropy level that goes with a mode.
pub open spec fn level_of(mode: HlcMode) -> i32 {
    match mode {
        HlcMode::Balanced => BALANCED_LEVEL,
        HlcMode::Max => MAX_LEVEL,
    }
}

impl HlcConfig {
    /// Whether the settings are ones that the builder methods can produce:
    /// at least one worker and chunks of at least `MIN_CHUNK_SIZE` bytes.
    pub open spec fn valid(self) -> bool {
        &&& self.threads >= 1
        &&& self.chunk_size >= MIN_CHUNK_SIZE
    }

    /// The default settings: balanced mode, CRC32, one worker per processor,
    /// chunks of one mebibyte, entropy level 5.
    pub fn new() -> (config: Self)
        ensures
            config.mode == HlcMode::Balanced,
            config.checksum == ChecksumType::CRC32,
            config.threads >= 1,
            config.chunk_size == DEFAULT_CHUNK_SIZE,
            config.entropy_level == BALANCED_LEVEL,
            config.valid(),
    {
        HlcConfig {
            mode: HlcMode::Balanced,
            checksum: ChecksumType::CRC32,
            threads: available_cpus(),
            chunk_size: DEFAULT_CHUNK_SIZE,
            entropy_level: BALANCED_LEVEL,
        }
    }

    /// Sets the mode, and with it the entropy level of that mode.
    pub fn with_mode(self, mode: HlcMode) -> (config: Self)
        ensures
            config == (HlcConfig { mode: mode, entropy_level: level_of(mode), ..self }),
    {
        let mut config = self;
        config.mode = mode;
        config.entropy_level = match mode {
            HlcMode::Balanced => BALANCED_LEVEL,
            HlcMode::Max => MAX_LEVEL,
        };
        config
    }

    /// Sets the number of workers; zero is raised to one.
    pub fn with_threads(self, threads: usize) -> (config: Self)
        ensures
            config == (HlcConfig { threads: if threads >= 1 { threads } else { 1 }, ..self }),
    {
        let mut config = self;
        config.threads = if threads >= 1 { threads } else { 1 };
        config
    }

    /// Sets the checksum algorithm.
    pub fn with_checksum(self, checksum: ChecksumType) -> (config: Self)
        ensures
            config == (HlcConfig { checksum: checksum, ..self }),
    {
        let mut config = self;
        config.checksum = checksum;
        config
    }

    /// Sets the chunk size; a size under `MIN_CHUNK_SIZE` is raised to it.
    pub fn with_chunk_size(self, chunk_size: usize) -> (config: Self)
        ensures
            config == (HlcConfig {
                chunk_size: if chunk_size >= MIN_CHUNK_SIZE { chunk_size } else { MIN_CHUNK_SIZE },
                ..self
            }),
    {
        let mut config = self;
        config.chunk_size = if chunk_size >= MIN_CHUNK_SIZE { chunk_size } else { MIN_CHUNK_SIZE };
        config
    }
}

impl Default for HlcConfig {
    fn default() -> (config: Self)
        ensures
            config.mode == HlcMode::Balanced,
            config.checksum == ChecksumType::CRC32,
            config.threads >= 1,
            config.chunk_size == DEFAULT_CHUNK_SIZE,
            config.entropy_level == BALANCED_LEVEL,
    {
        HlcConfig::new()
    }
}

/// The mode that a lower-case name stands for.
pub open spec fn mode_named(name: Seq<char>) -> Option<HlcMode> {
    if name == "balanced"@ {
        Some(HlcMode::Balanced)
    } else if name == "max"@ {
        Some(HlcMode::Max)
    } else {
        None
    }
}

/// The checksum algorithm that a lower-case name stands for.
pub open spec fn checksum_named(name: Seq<char>) -> Option<ChecksumType> {
    if name == "crc32"@ {
        Some(ChecksumType::CRC32)
    } else if name == "sha256"@ {
        Some(ChecksumType::SHA256)
    } else {
        None
    }
}

impl HlcMode {
    /// The mode with the lower-case name `name`: `"balanced"` or `"max"`.
    /// Any other name is a configuration error.
    pub fn from_lowercase(name: &str) -> (result: Result<HlcMode, HlcError>)
        ensures
            match mode_named(name@) {
                Some(mode) => result == Ok::<HlcMode, HlcError>(mode),
                None => result is Err && result->Err_0 is ConfigError,
            },
    {
        let owned = name.to_string();
        if owned == "balanced".to_string() {
            Ok(HlcMode::Balanced)
        } else if owned == "max".to_string() {
            Ok(HlcMode::Max)
        } else {
            Err(HlcError::ConfigError(joined("Invalid mode: ", name)))
        }
    }

    /// The mode named by `name`, whatever its case.
    pub fn parse(name: &str) -> (result: Result<HlcMode, HlcError>)
        ensures
            match mode_named(lowercase_of(name@)) {
                Some(mode) => result == Ok::<HlcMode, HlcError>(mode),
                None => result is Err && result->Err_0 is ConfigError,
            },
    {
        let lowered = lowercase(name);
        match Self::from_lowercase(lowered.as_str()) {
            Ok(mode) => Ok(mode),
            Err(_) => Err(HlcError::ConfigError(joined("Invalid mode: ", name))),
        }
    }
}

impl ChecksumType {
    /// The algorithm with the lower-case name `name`: `"crc32"` or `"sha256"`.
    /// Any other name is a configuration error.
    pub fn from_lowercase(name: &str) -> (result: Result<ChecksumType, HlcError>)
        ensures
            match checksum_named(name@) {
                Some(kind) => result == Ok::<ChecksumType, HlcError>(kind),
                None => result is Err && result->Err_0 is ConfigError,
            },
    {
        let owned = name.to_string();
        if owned == "crc32".to_string() {
            Ok(ChecksumType::CRC32)
        } else if owned == "sha256".to_string() {
            Ok(ChecksumType::SHA256)
        } else {
            Err(HlcError::ConfigError(joined("Invalid checksum type: ", name)))
        }
    }

    /// The algorithm named by `name`, whatever its case.
    pub fn parse(name: &str) -> (result: Result<ChecksumType, HlcError>)
        ensures
            match checksum_named(lowercase_of(name@)) {
                Some(kind) => result == Ok::<ChecksumType, HlcError>(kind),
                None => result is Err && result->Err_0 is ConfigError,
            },
    {
        let lowered = lowercase(name);
        match Self::from_lowercase(lowered.as_str()) {
            Ok(kind) => Ok(kind),
            Err(_) => Err(HlcError::ConfigError(joined("Invalid checksum type: ", name))),
        }
    }

    /// The identifier of this algorithm in a container header.
    pub open spec fn id_spec(self) -> u8 {
        match self {
            ChecksumType::CRC32 => 0,
            ChecksumType::SHA256 => 1,
        }
    }

    /// The identifier of this algorithm in a container header.
    pub fn id(self) -> (id: u8)
        ensures
            id == self.id_spec(),
    {
        match self {
            ChecksumType::CRC32 => 0,
            ChecksumType::SHA256 => 1,
        }
    }
}

impl std::str::FromStr for HlcMode {
    type Err = HlcError;

    /// The mode that `s` names, whatever the case of its letters: `balanced`
    /// or `max`. Any other name is a configuration error.
    fn from_str(s: &str) -> (result: Result<Self, Self::Err>)
        ensures
            match mode_named(lowercase_of(s@)) {
                Some(mode) => result == Ok::<HlcMode, HlcError>(mode),
                None => result is Err && result->Err_0 is ConfigError,
            },
    {
        HlcMode::parse(s)
    }
}

impl std::str::FromStr for ChecksumType {
    type Err = HlcError;

    /// The algorithm that `s` names, whatever the case of its letters:
    /// `crc32` or `sha256`. Any other name is a configuration error.
    fn from_str(s: &str) -> (result: Result<Self, Self::Err>)
        ensures
            match checksum_named(lowercase_of(s@)) {
                Some(kind) => result == Ok::<ChecksumType, HlcError>(kind),
                None => result is Err && result->Err_0 is ConfigError,
            },
    {
        ChecksumType::parse(s)
    }
}

} // verus!
