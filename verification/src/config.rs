//! Configuration of the publisher: store address, credentials, the
//! retention bound, and the encoding-mode selector.

use vstd::prelude::*;

verus! {

use crate::message::WireFormat;

/// The encoding-mode selector.  `FromStart` and `FromCurrent` read the
/// primary format; `ProtoBuf` reads the legacy flat format; `Error`
/// marks a configuration that must be rejected.
#[derive(Debug, Clone, Copy, PartialEq, Eq, Structural)]
pub enum Mode {
    FromStart,
    FromCurrent,
    ProtoBuf,
    Error,
}

/// Why a configuration is unusable.
#[derive(Debug, Clone, Copy, PartialEq, Eq, Structural)]
pub enum ConfigError {
    /// The mode selector names the rejected variant.
    InvalidMode,
}

/// The store connection settings and the archive bounds.
#[derive(Debug)]
pub struct RedisPubberConfig {
    pub host: String,
    pub port: String,
    pub username: String,
    pub password: String,
    pub max_stream_size: usize,
    pub mode: Mode,
}

/// The whole configuration: the named log to publish to, and the
/// publisher's settings.
#[derive(Debug)]
pub struct RedisConfig {
    pub exchange: String,
    pub redis_pubber: RedisPubberConfig,
}

impl RedisConfig {
    /// Accepts every configuration except one whose mode is the
    /// rejected variant.
    pub fn validate(&self) -> (r: Result<(), ConfigError>)
        ensures
            r is Ok <==> self.redis_pubber.mode != Mode::Error,
            r matches Err(e) ==> e == ConfigError::InvalidMode,
    {
        if self.redis_pubber.mode == Mode::Error {
            Err(ConfigError::InvalidMode)
        } else {
            Ok(())
        }
    }

    /// The wire format the mode selects: the primary structured format,
    /// unless the legacy selector was chosen; the rejected mode selects
    /// nothing.
    pub fn wire_format(&self) -> (r: Option<WireFormat>)
        ensures
            r == (match self.redis_pubber.mode {
                Mode::FromStart => Some(WireFormat::Primary),
                Mode::FromCurrent => Some(WireFormat::Primary),
                Mode::ProtoBuf => Some(WireFormat::Legacy),
                Mode::Error => None::<WireFormat>,
            }),
    {
        match self.redis_pubber.mode {
            Mode::FromStart => Some(WireFormat::Primary),
            Mode::FromCurrent => Some(WireFormat::Primary),
            Mode::ProtoBuf => Some(WireFormat::Legacy),
            Mode::Error => None,
        }
    }
}

} // verus!
