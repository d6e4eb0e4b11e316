//! What a run is asked to do: which recognizer, whether to get a second opinion,
//! which translator, and the presets and interface settings that choose them.

use vstd::prelude::*;
use crate::models::{other_of, AsrModel, MtModel};
use crate::text::{chars_of, same_as_str};
use crate::translate::MtOptions;

verus! {

/// The choices of a run. (The tuning of speech detection and speaker separation,
/// which is made of real numbers, travels beside it.)
#[derive(Clone, Debug)]
pub struct Options {
    /// The model whose text is shown.
    pub asr: AsrModel,
    /// Compare with the other model, to mark doubts and refine the times.
    pub verify: bool,
    /// `None` when the recording is already in English and is only transcribed.
    pub mt: Option<MtModel>,
    /// Clean the audio before recognizing it. A manual switch on purpose: in tests it
    /// helped some recordings and ruined others.
    pub denoise: bool,
    pub diarize: bool,
    /// Number of speakers when known; `None` lets the diarizer decide.
    pub speakers: Option<i32>,
    pub threads: i32,
    /// Language of the recording: `es`, `en`, ...
    pub source_lang: String,
    pub mt_opts: MtOptions,
    /// Blocks translated per batch.
    pub mt_batch: usize,
}

/// The default choices with `threads` threads: the better recognizer checked by the
/// other, and the small translator, whose drafts are corrected by hand anyway.
pub open spec fn standard_spec(o: Options, threads: i32) -> bool {
    &&& o.asr == AsrModel::Canary
    &&& o.verify
    &&& o.mt == Some(MtModel::Opus)
    &&& o.source_lang@ == "es"@
    &&& standard_rest(o, threads)
}

/// The choices that no preset changes: no cleaning, speakers told apart and counted
/// by the diarizer, `threads` threads, beam 4, 512 tokens at most, no 6-gram
/// repeated, batches of 8.
pub open spec fn standard_rest(o: Options, threads: i32) -> bool {
    &&& !o.denoise
    &&& o.diarize
    &&& o.speakers is None
    &&& o.threads == threads
    &&& o.mt_opts.beam_size == 4
    &&& o.mt_opts.max_output_tokens == 512
    &&& o.mt_opts.no_repeat_ngram == 6
    &&& o.mt_batch == 8
}

fn es() -> (r: String)
    ensures
        r@ == "es"@,
{
    crate::translate::owned("es")
}

impl Options {
    /// The default choices, run with `threads` threads.
    pub fn standard(threads: i32) -> (r: Options)
        ensures
            standard_spec(r, threads),
    {
        Options {
            asr: AsrModel::Canary,
            verify: true,
            mt: Some(MtModel::Opus),
            denoise: false,
            diarize: true,
            speakers: None,
            threads,
            source_lang: es(),
            mt_opts: MtOptions::default(),
            mt_batch: 8,
        }
    }

    /// One model and the small translator, to have something readable soonest.
    pub fn fast(threads: i32) -> (r: Options)
        ensures
            r.asr == AsrModel::Parakeet,
            !r.verify,
            r.mt == Some(MtModel::Opus),
            r.source_lang@ == "es"@,
            standard_rest(r, threads),
    {
        Options { asr: AsrModel::Parakeet, verify: false, mt: Some(MtModel::Opus), ..Options::standard(threads) }
    }

    /// The best English possible, at about four times the time.
    pub fn best(threads: i32) -> (r: Options)
        ensures
            r.asr == AsrModel::Canary,
            r.verify,
            r.mt == Some(MtModel::Nllb),
            r.source_lang@ == "es"@,
            standard_rest(r, threads),
    {
        Options { asr: AsrModel::Canary, verify: true, mt: Some(MtModel::Nllb), ..Options::standard(threads) }
    }

    /// Only transcribe, without translating: the recording is already in `lang`.
    pub fn transcribe_only(lang: &str, threads: i32) -> (r: Options)
        ensures
            r.asr == AsrModel::Canary,
            r.verify,
            r.mt is None,
            r.source_lang@ == lang@,
            standard_rest(r, threads),
    {
        Options { mt: None, source_lang: crate::translate::owned(lang), ..Options::standard(threads) }
    }

    /// The model that gives the second opinion: always the one that is not the main one.
    pub fn verifier_model(&self) -> (r: Option<AsrModel>)
        ensures
            r == (if self.verify {
                Some(other_of(self.asr))
            } else {
                None
            }),
    {
        if !self.verify {
            return None;
        }
        Some(self.asr.other())
    }
}

/// `x` brought into `lo..=hi`.
pub open spec fn clamped(x: int, lo: int, hi: int) -> int {
    if x < lo {
        lo
    } else if x > hi {
        hi
    } else {
        x
    }
}

fn clamp_i32(x: i32, lo: i32, hi: i32) -> (r: i32)
    requires
        lo <= hi,
    ensures
        r == clamped(x as int, lo as int, hi as int),
{
    if x < lo {
        lo
    } else if x > hi {
        hi
    } else {
        x
    }
}

/// Threads to use by default, from the parallelism the machine reports: that
/// number (as an `i32`), 4 when it is unknown, kept within 1 to 8.
pub fn threads_for(parallelism: Option<usize>) -> (r: i32)
    ensures
        r == clamped(
            match parallelism {
                Some(n) => (n as i32) as int,
                None => 4,
            },
            1,
            8,
        ),
{
    let n: i32 = match parallelism {
        Some(n) => n as i32,
        None => 4,
    };
    clamp_i32(n, 1, 8)
}

/// The settings as the interface sends them.
#[derive(Clone, Debug)]
pub struct UiOptions {
    pub asr: String,
    pub mt: String,
    pub verify: bool,
    pub denoise: bool,
    pub diarize: bool,
    /// `0` = automatic.
    pub speakers: i32,
    pub source_lang: String,
    pub threads: i32,
}

/// The recognizer the interface names: Parakeet by that name, Canary otherwise.
pub open spec fn asr_named(name: Seq<char>) -> AsrModel {
    if name == "parakeet"@ {
        AsrModel::Parakeet
    } else {
        AsrModel::Canary
    }
}

/// The translator the interface names: opus, none, or NLLB otherwise; and none at
/// all when the recording is already in English.
pub open spec fn mt_named(name: Seq<char>, lang: Seq<char>) -> Option<MtModel> {
    if lang == "en"@ {
        None
    } else if name == "opus"@ {
        Some(MtModel::Opus)
    } else if name == "none"@ {
        None
    } else {
        Some(MtModel::Nllb)
    }
}

impl UiOptions {
    /// The interface's defaults, with `threads` threads.
    pub fn with_threads(threads: i32) -> (r: UiOptions)
        ensures
            r.asr@ == "canary"@,
            r.mt@ == "nllb"@,
            r.verify,
            !r.denoise,
            r.diarize,
            r.speakers == 0,
            r.source_lang@ == "es"@,
            r.threads == threads,
    {
        UiOptions {
            asr: crate::translate::owned("canary"),
            mt: crate::translate::owned("nllb"),
            verify: true,
            denoise: false,
            diarize: true,
            speakers: 0,
            source_lang: es(),
            threads,
        }
    }

    /// The run's choices from the interface's settings.
    pub fn to_options(&self) -> (r: Options)
        ensures
            r.asr == asr_named(self.asr@),
            r.mt == mt_named(self.mt@, self.source_lang@),
            r.verify == self.verify,
            r.denoise == self.denoise,
            r.diarize == self.diarize,
            r.speakers == (if self.speakers > 0 {
                Some(self.speakers)
            } else {
                None
            }),
            r.source_lang == self.source_lang,
            r.threads == clamped(self.threads as int, 1, 16),
            r.mt_opts.beam_size == 4,
            r.mt_opts.max_output_tokens == 512,
            r.mt_opts.no_repeat_ngram == 6,
            r.mt_batch == 8,
    {
        let asr_name = chars_of(self.asr.as_str());
        let mt_name = chars_of(self.mt.as_str());
        let lang = chars_of(self.source_lang.as_str());
        let asr = if same_as_str(asr_name.as_slice(), "parakeet") {
            AsrModel::Parakeet
        } else {
            AsrModel::Canary
        };
        let mut mt = if same_as_str(mt_name.as_slice(), "opus") {
            Some(MtModel::Opus)
        } else if same_as_str(mt_name.as_slice(), "none") {
            None
        } else {
            Some(MtModel::Nllb)
        };
        // A recording already in English has nothing to translate.
        if same_as_str(lang.as_slice(), "en") {
            mt = None;
        }
        Options {
            asr,
            mt,
            verify: self.verify,
            denoise: self.denoise,
            diarize: self.diarize,
            speakers: if self.speakers > 0 {
                Some(self.speakers)
            } else {
                None
            },
            source_lang: self.source_lang.clone(),
            threads: clamp_i32(self.threads, 1, 16),
            mt_opts: MtOptions::default(),
            mt_batch: 8,
        }
    }
}

/// What the interface needs to know when it starts.
pub struct Info {
    pub models_root: Option<String>,
    pub missing: Vec<String>,
    pub ffmpeg: bool,
    pub threads: i32,
}

} // verus!
