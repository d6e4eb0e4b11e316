//! The models and where each lives under the single models folder, so that an
//! installer can copy one folder and the program finds everything in it.

use vstd::prelude::*;

verus! {

/// Speech recognition model.
#[derive(Clone, Copy, Debug, PartialEq, Eq, Structural)]
pub enum AsrModel {
    /// Parakeet TDT 0.6B v3: a transducer, fast, never caught repeating itself, with a
    /// time stamp per token.
    Parakeet,
    /// Canary 1B v2: encoder-decoder, better text, slower, no time stamp per token.
    Canary,
}

/// Spanish to English translation model.
#[derive(Clone, Copy, Debug, PartialEq, Eq, Structural)]
pub enum MtModel {
    /// opus-mt-es-en: small and very fast.
    Opus,
    /// NLLB-200 distilled 600M: better translation, slower and heavier.
    Nllb,
}

/// The recognizer that is not `m`.
pub open spec fn other_of(m: AsrModel) -> AsrModel {
    match m {
        AsrModel::Canary => AsrModel::Parakeet,
        AsrModel::Parakeet => AsrModel::Canary,
    }
}

impl AsrModel {
    /// Folder of the model, under the models folder.
    pub fn dir_name(self) -> (r: &'static str)
        ensures
            r@ == match self {
                AsrModel::Parakeet => "asr/parakeet-tdt-0.6b-v3-int8"@,
                AsrModel::Canary => "asr/canary-1b-v2-int8"@,
            },
    {
        match self {
            AsrModel::Parakeet => "asr/parakeet-tdt-0.6b-v3-int8",
            AsrModel::Canary => "asr/canary-1b-v2-int8",
        }
    }

    /// Whether the model gives a time stamp per token (needed for exact word times).
    pub fn has_word_timings(self) -> (r: bool)
        ensures
            r == (self is Parakeet),
    {
        match self {
            AsrModel::Parakeet => true,
            AsrModel::Canary => false,
        }
    }

    /// The other recognizer: the one that gives the second opinion.
    pub fn other(self) -> (r: AsrModel)
        ensures
            r == other_of(self),
            r != self,
    {
        match self {
            AsrModel::Canary => AsrModel::Parakeet,
            AsrModel::Parakeet => AsrModel::Canary,
        }
    }
}

impl MtModel {
    /// Folder of the model, under the models folder.
    pub fn dir_name(self) -> (r: &'static str)
        ensures
            r@ == match self {
                MtModel::Opus => "mt/opus-es-en"@,
                MtModel::Nllb => "mt/nllb-200-distilled-600M"@,
            },
    {
        match self {
            MtModel::Opus => "mt/opus-es-en",
            MtModel::Nllb => "mt/nllb-200-distilled-600M",
        }
    }
}

/// Voice activity model, under the models folder.
pub const VAD_FILE: &'static str = "vad/silero_vad.onnx";

/// Noise suppression model, under the models folder.
pub const DENOISER_FILE: &'static str = "denoise/gtcrn_simple.onnx";

/// Speaker segmentation model, under the models folder.
pub const DIAR_SEGMENTATION_FILE: &'static str = "diar/segmentation.onnx";

/// Speaker embedding model, under the models folder.
pub const DIAR_EMBEDDING_FILE: &'static str = "diar/embedding.onnx";

} // verus!
