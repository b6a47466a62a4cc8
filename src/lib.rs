//! Text-to-speech playback core: text preparation, WAV framing, PCM decoding,
//! and the decision logic of the synthesis pipeline's stages.
pub mod capture;
pub mod pcm;
pub mod streaming_source;
pub mod stt;
pub mod text_prep;
pub mod tracker;
pub mod tts;
pub mod types;
pub mod wav;
