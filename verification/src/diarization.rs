//! Where the speaker-diarization models live and whether they are installed.
//! Running the models over recorded audio is the inference engine's work;
//! attributing its output to transcript segments is in `transcription`.
use vstd::prelude::*;
use crate::paths::{join_path, path_join};

verus! {

/// A diarized stretch of audio (milliseconds) and the raw speaker index the
/// clustering gave it.
pub struct SpeakerSegment {
    pub start_ms: u64,
    pub end_ms: u64,
    pub speaker: i32,
}

pub open spec fn model_dir_spec(data_dir: Seq<char>) -> Seq<char> {
    path_join(path_join(data_dir, "models"@), "diarization"@)
}

/// `<app data>/models/diarization`
pub fn model_dir(data_dir: &str) -> (r: String)
    ensures
        r@ == model_dir_spec(data_dir@),
{
    let m = join_path(data_dir, "models");
    join_path(m.as_str(), "diarization")
}

/// The segmentation model file.
pub fn seg_path(data_dir: &str) -> (r: String)
    ensures
        r@ == path_join(model_dir_spec(data_dir@), "segmentation.onnx"@),
{
    let d = model_dir(data_dir);
    join_path(d.as_str(), "segmentation.onnx")
}

/// The speaker-embedding model file.
pub fn emb_path(data_dir: &str) -> (r: String)
    ensures
        r@ == path_join(model_dir_spec(data_dir@), "embedding.onnx"@),
{
    let d = model_dir(data_dir);
    join_path(d.as_str(), "embedding.onnx")
}

/// Both model files must be present.
pub fn models_installed(seg_exists: bool, emb_exists: bool) -> (b: bool)
    ensures
        b == (seg_exists && emb_exists),
{
    seg_exists && emb_exists
}

/// `installed` or `missing`, as the transcript panel expects.
pub fn diarization_models_status(installed: bool) -> (s: String)
    ensures
        s@ == if installed {
            "installed"@
        } else {
            "missing"@
        },
{
    if installed {
        "installed".to_owned()
    } else {
        "missing".to_owned()
    }
}

} // verus!
