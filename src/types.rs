//! Plain data shared with the speech-to-text side and the service manager.
use vstd::prelude::*;

verus! {

/// A transcription result.
#[derive(Debug, Clone)]
pub struct SttResponse {
    pub text: String,
    pub duration_ms: Option<u64>,
}

/// A model file: where it is fetched from and what it is saved as.
#[derive(Debug, Clone, Copy)]
pub struct ModelInfo {
    pub name: &'static str,
    pub filename: &'static str,
    pub url: &'static str,
    pub expected_size: u64,
}

/// Status of a single voice service.
#[derive(Debug, Clone, Copy, PartialEq, Eq, Structural)]
pub struct ServiceStatus {
    pub model_downloaded: bool,
    pub running: bool,
    pub port: u16,
}

/// Combined status of the voice services.
#[derive(Debug, Clone, Copy, PartialEq, Eq, Structural)]
pub struct VoiceServicesStatus {
    pub whisper: ServiceStatus,
    pub kokoro: ServiceStatus,
}

} // verus!
