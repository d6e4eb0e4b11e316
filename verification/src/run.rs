//! The course of processing one file, as decisions.
//!
//! The way is always the same: decode, find the stretches with speech, optionally
//! clean them, optionally tell the speakers apart, recognize every stretch with the
//! main model, get a second opinion from the other model, translate. The models
//! never share memory: one is loaded, used for every stretch, and dropped before the
//! next one is loaded.
//!
//! The interface hears of every stage and answers each notice with `Flow`. Once it
//! answers `Abort`, the run stops at the next safe point and hands back what it has,
//! marked as cancelled; it is not asked again, but it is told that the run is done.
//!
//! `Run` holds the decisions: given what came of the last step, it says what to do
//! next. The program performs the step (the outside work, or showing a notice) and
//! reports back with an `Event`.

use vstd::prelude::*;
use crate::models::{AsrModel, MtModel};
use crate::options::Options;

verus! {

/// What the interface answers to each progress notice.
#[derive(Clone, Copy, Debug, PartialEq, Eq, Structural)]
pub enum Flow {
    Continue,
    /// Stop here and hand back what there is. An hour of audio takes a while; it
    /// must be possible to stop without losing what is done.
    Abort,
}

/// A progress notice. The program attaches what goes with it (the duration, the
/// recognized block, the translation).
#[derive(Clone, Copy, Debug, PartialEq, Eq, Structural)]
pub enum Notice {
    Decoded,
    Segmented { count: usize },
    Diarized,
    /// Stretch `span` was recognized by the main model; `done` of `total` stretches.
    Recognized { done: usize, total: usize, span: usize },
    Verifying { total: usize },
    /// The second model has gone over block `segment`; `done` of `total` blocks.
    Refined { done: usize, total: usize, segment: usize },
    Translating { total: usize },
    Translated { segment: usize },
    Done,
}

/// What to do next.
#[derive(Clone, Copy, Debug, PartialEq, Eq, Structural)]
pub enum Step {
    /// Decode the file to 16 kHz mono.
    Decode,
    /// Find the stretches with speech (or cut the audio in even chunks if none).
    DetectSpeech,
    /// Clean the audio of every stretch.
    Denoise,
    /// Tell the speakers apart.
    Diarize,
    /// Load a recognizer, dropping any model loaded before.
    LoadRecognizer { asr: AsrModel },
    /// Recognize stretch `span` with the main model; keep a block if it heard words.
    Recognize { span: usize },
    /// Recognize block `segment` again with the second model and merge the two.
    Verify { segment: usize },
    /// Load a translator, dropping any model loaded before.
    LoadTranslator { mt: MtModel },
    /// Translate blocks `first..end`.
    Translate { first: usize, end: usize },
    /// Show a notice and report the answer.
    Notify { notice: Notice },
    /// Hand back the transcript; `cancelled` when it was stopped half-way.
    Finish { cancelled: bool },
}

/// What came of the last step.
#[derive(Clone, Copy, Debug, PartialEq, Eq, Structural)]
pub enum Event {
    Decoded,
    SpeechFound { spans: usize },
    Denoised,
    Diarized,
    Loaded,
    /// The main model finished a stretch; `empty` when it heard nothing.
    Heard { empty: bool },
    Merged,
    Translated,
    Answer { flow: Flow },
}

/// Where a run stands: the step it waits on.
#[derive(Clone, Copy, Debug, PartialEq, Eq, Structural)]
pub enum Phase {
    Decoding,
    AnsweringDecoded,
    Detecting,
    AnsweringSegmented,
    Denoising,
    Diarizing,
    AnsweringDiarized,
    LoadingAsr,
    Recognizing { span: usize },
    AnsweringRecognized { span: usize },
    AnsweringVerifying,
    LoadingVerifier,
    Verifying { segment: usize },
    AnsweringRefined { segment: usize },
    AnsweringTranslating,
    LoadingMt,
    Translating { first: usize, end: usize },
    AnsweringTranslated { first: usize, end: usize, segment: usize },
    AnsweringDone { cancelled: bool },
    Finished { cancelled: bool },
}

/// What a run does, fixed when it starts.
#[derive(Clone, Copy, Debug, PartialEq, Eq, Structural)]
pub struct Plan {
    pub asr: AsrModel,
    pub verifier: Option<AsrModel>,
    pub mt: Option<MtModel>,
    pub denoise: bool,
    pub diarize: bool,
    /// Blocks per translation batch, at least one.
    pub batch: usize,
}

/// The decisions of one run.
#[derive(Clone, Copy, Debug, PartialEq, Eq, Structural)]
pub struct Run {
    pub plan: Plan,
    /// Stretches with speech.
    pub spans: usize,
    /// Blocks kept by the main recognizer so far.
    pub segments: usize,
    /// The interface asked to stop.
    pub aborted: bool,
    pub phase: Phase,
}

// ---------------------------------------------------------------------------
// The transitions.
// ---------------------------------------------------------------------------

/// The next index; it stays put at the top of `usize`, which no well-formed run reaches.
pub open spec fn succ(x: usize) -> usize {
    if x < usize::MAX {
        (x + 1) as usize
    } else {
        x
    }
}

pub open spec fn at(s: Run, p: Phase) -> Run {
    Run { phase: p, ..s }
}

/// The interface's answer recorded: an `Abort` is never forgotten.
pub open spec fn noted(s: Run, f: Flow) -> Run {
    Run { aborted: s.aborted || f == Flow::Abort, ..s }
}

/// The end of a batch that starts at block `j`.
pub open spec fn batch_end(s: Run, j: usize) -> usize {
    if s.segments - j > s.plan.batch {
        (j + s.plan.batch) as usize
    } else {
        s.segments
    }
}

/// Closing: whether it was stopped is recorded, and the interface is told it is done.
pub open spec fn close(s: Run) -> Run {
    Run { aborted: false, phase: Phase::AnsweringDone { cancelled: s.aborted }, ..s }
}

pub open spec fn to_batch(s: Run, j: usize) -> Run {
    if j < s.segments {
        at(s, Phase::Translating { first: j, end: batch_end(s, j) })
    } else {
        close(s)
    }
}

/// After batch `j..end` is translated, each of its blocks is announced while the
/// interface lets go on; a stop closes the run after the batch.
pub open spec fn to_notice(s: Run, j: usize, end: usize, k: usize) -> Run {
    if k < end && !s.aborted {
        at(s, Phase::AnsweringTranslated { first: j, end, segment: k })
    } else if s.aborted {
        close(s)
    } else {
        to_batch(s, end)
    }
}

pub open spec fn to_translate(s: Run) -> Run {
    if s.plan.mt is Some && !s.aborted {
        if s.segments == 0 {
            close(s)
        } else {
            at(s, Phase::AnsweringTranslating)
        }
    } else {
        close(s)
    }
}

pub open spec fn to_segment(s: Run, k: usize) -> Run {
    if k < s.segments {
        at(s, Phase::Verifying { segment: k })
    } else {
        to_translate(s)
    }
}

pub open spec fn to_verify(s: Run) -> Run {
    if s.plan.verifier is Some && !s.aborted {
        at(s, Phase::AnsweringVerifying)
    } else {
        to_translate(s)
    }
}

pub open spec fn to_span(s: Run, i: usize) -> Run {
    if i < s.spans {
        at(s, Phase::Recognizing { span: i })
    } else {
        to_verify(s)
    }
}

pub open spec fn to_asr(s: Run) -> Run {
    if s.aborted {
        to_verify(s)
    } else {
        at(s, Phase::LoadingAsr)
    }
}

pub open spec fn to_diarize(s: Run) -> Run {
    if s.plan.diarize && !s.aborted {
        at(s, Phase::Diarizing)
    } else {
        to_asr(s)
    }
}

pub open spec fn to_denoise(s: Run) -> Run {
    if s.plan.denoise {
        at(s, Phase::Denoising)
    } else {
        to_diarize(s)
    }
}

/// Whether `ev` is what the run waits on.
pub open spec fn fits(s: Run, ev: Event) -> bool {
    match s.phase {
        Phase::Decoding => ev is Decoded,
        Phase::Detecting => ev is SpeechFound,
        Phase::Denoising => ev is Denoised,
        Phase::Diarizing => ev is Diarized,
        Phase::LoadingAsr | Phase::LoadingVerifier | Phase::LoadingMt => ev is Loaded,
        Phase::Recognizing { .. } => ev is Heard,
        Phase::Verifying { .. } => ev is Merged,
        Phase::Translating { .. } => ev is Translated,
        Phase::Finished { .. } => false,
        _ => ev is Answer,
    }
}

/// The run after `ev`. An event that is not the one waited on changes nothing.
pub open spec fn after(s: Run, ev: Event) -> Run {
    if !fits(s, ev) {
        s
    } else {
        match (s.phase, ev) {
            (Phase::Decoding, _) => if !s.aborted {
                at(s, Phase::AnsweringDecoded)
            } else {
                at(s, Phase::Detecting)
            },
            (Phase::AnsweringDecoded, Event::Answer { flow }) => at(
                noted(s, flow),
                Phase::Detecting,
            ),
            (Phase::Detecting, Event::SpeechFound { spans }) => {
                let t = Run { spans, ..s };
                if !t.aborted {
                    at(t, Phase::AnsweringSegmented)
                } else {
                    to_denoise(t)
                }
            },
            (Phase::AnsweringSegmented, Event::Answer { flow }) => to_denoise(noted(s, flow)),
            (Phase::Denoising, _) => to_diarize(s),
            (Phase::Diarizing, _) => if !s.aborted {
                at(s, Phase::AnsweringDiarized)
            } else {
                to_asr(s)
            },
            (Phase::AnsweringDiarized, Event::Answer { flow }) => to_asr(noted(s, flow)),
            (Phase::LoadingAsr, _) => to_span(s, 0),
            (Phase::Recognizing { span }, Event::Heard { empty }) => if empty {
                to_span(s, succ(span))
            } else {
                at(
                    Run { segments: succ(s.segments), ..s },
                    Phase::AnsweringRecognized { span },
                )
            },
            (Phase::AnsweringRecognized { span }, Event::Answer { flow }) => {
                let t = noted(s, flow);
                if t.aborted {
                    to_verify(t)
                } else {
                    to_span(t, succ(span))
                }
            },
            (Phase::AnsweringVerifying, Event::Answer { flow }) => at(
                noted(s, flow),
                Phase::LoadingVerifier,
            ),
            (Phase::LoadingVerifier, _) => to_segment(s, 0),
            (Phase::Verifying { segment }, _) => if !s.aborted {
                at(s, Phase::AnsweringRefined { segment })
            } else {
                to_translate(s)
            },
            (Phase::AnsweringRefined { segment }, Event::Answer { flow }) => {
                let t = noted(s, flow);
                if t.aborted {
                    to_translate(t)
                } else {
                    to_segment(t, succ(segment))
                }
            },
            (Phase::AnsweringTranslating, Event::Answer { flow }) => at(
                noted(s, flow),
                Phase::LoadingMt,
            ),
            (Phase::LoadingMt, _) => to_batch(s, 0),
            (Phase::Translating { first, end }, _) => to_notice(s, first, end, first),
            (
                Phase::AnsweringTranslated { first, end, segment },
                Event::Answer { flow },
            ) => to_notice(noted(s, flow), first, end, succ(segment)),
            (Phase::AnsweringDone { cancelled }, _) => at(s, Phase::Finished { cancelled }),
            _ => s,
        }
    }
}

/// The step a run waits on.
pub open spec fn step_of(s: Run) -> Step {
    match s.phase {
        Phase::Decoding => Step::Decode,
        Phase::AnsweringDecoded => Step::Notify { notice: Notice::Decoded },
        Phase::Detecting => Step::DetectSpeech,
        Phase::AnsweringSegmented => Step::Notify { notice: Notice::Segmented { count: s.spans } },
        Phase::Denoising => Step::Denoise,
        Phase::Diarizing => Step::Diarize,
        Phase::AnsweringDiarized => Step::Notify { notice: Notice::Diarized },
        Phase::LoadingAsr => Step::LoadRecognizer { asr: s.plan.asr },
        Phase::Recognizing { span } => Step::Recognize { span },
        Phase::AnsweringRecognized { span } => Step::Notify {
            notice: Notice::Recognized { done: succ(span), total: s.spans, span },
        },
        Phase::AnsweringVerifying => Step::Notify { notice: Notice::Verifying { total: s.segments } },
        Phase::LoadingVerifier => Step::LoadRecognizer {
            asr: match s.plan.verifier {
                Some(m) => m,
                None => s.plan.asr,
            },
        },
        Phase::Verifying { segment } => Step::Verify { segment },
        Phase::AnsweringRefined { segment } => Step::Notify {
            notice: Notice::Refined { done: succ(segment), total: s.segments, segment },
        },
        Phase::AnsweringTranslating => Step::Notify {
            notice: Notice::Translating { total: s.segments },
        },
        Phase::LoadingMt => Step::LoadTranslator {
            mt: match s.plan.mt {
                Some(m) => m,
                None => MtModel::Opus,
            },
        },
        Phase::Translating { first, end } => Step::Translate { first, end },
        Phase::AnsweringTranslated { segment, .. } => Step::Notify {
            notice: Notice::Translated { segment },
        },
        Phase::AnsweringDone { .. } => Step::Notify { notice: Notice::Done },
        Phase::Finished { cancelled } => Step::Finish { cancelled },
    }
}

impl Run {
    /// Every run made by `new` and moved on by `next` is well formed: the counts
    /// agree with where it stands, and the interface is asked nothing after a stop.
    pub closed spec fn wf(self) -> bool {
        &&& self.plan.batch >= 1
        &&& self.segments <= self.spans
        &&& match self.phase {
            Phase::Decoding | Phase::AnsweringDecoded | Phase::Detecting => self.spans == 0
                && self.segments == 0 && (self.phase is AnsweringDecoded ==> !self.aborted),
            Phase::AnsweringSegmented => !self.aborted && self.segments == 0,
            Phase::Denoising => self.segments == 0,
            Phase::Diarizing | Phase::AnsweringDiarized | Phase::LoadingAsr => !self.aborted
                && self.segments == 0,
            Phase::Recognizing { span } => !self.aborted && span < self.spans && self.segments
                <= span,
            Phase::AnsweringRecognized { span } => !self.aborted && span < self.spans && 1
                <= self.segments <= span + 1,
            Phase::AnsweringVerifying => !self.aborted && self.plan.verifier is Some,
            Phase::LoadingVerifier => self.plan.verifier is Some,
            Phase::Verifying { segment } => segment < self.segments && self.plan.verifier is Some,
            Phase::AnsweringRefined { segment } => !self.aborted && segment < self.segments
                && self.plan.verifier is Some,
            Phase::AnsweringTranslating | Phase::LoadingMt => self.plan.mt is Some && 0
                < self.segments && (self.phase is AnsweringTranslating ==> !self.aborted),
            Phase::Translating { first, end } => self.plan.mt is Some && first < end
                <= self.segments && end - first <= self.plan.batch,
            Phase::AnsweringTranslated { first, end, segment } => !self.aborted && self.plan.mt is Some
                && first <= segment < end <= self.segments && end - first <= self.plan.batch,
            Phase::AnsweringDone { .. } | Phase::Finished { .. } => !self.aborted,
        }
    }
}

// ---------------------------------------------------------------------------
// Executable transitions.
// ---------------------------------------------------------------------------

fn succ_exec(x: usize) -> (r: usize)
    ensures
        r == succ(x),
{
    if x < usize::MAX {
        x + 1
    } else {
        x
    }
}

fn close_exec(s: Run) -> (t: Run)
    ensures
        t == close(s),
{
    Run { aborted: false, phase: Phase::AnsweringDone { cancelled: s.aborted }, ..s }
}

fn to_batch_exec(s: Run, j: usize) -> (t: Run)
    ensures
        t == to_batch(s, j),
{
    if j < s.segments {
        let end = if s.segments - j > s.plan.batch {
            j + s.plan.batch
        } else {
            s.segments
        };
        Run { phase: Phase::Translating { first: j, end }, ..s }
    } else {
        close_exec(s)
    }
}

fn to_notice_exec(s: Run, j: usize, end: usize, k: usize) -> (t: Run)
    ensures
        t == to_notice(s, j, end, k),
{
    if k < end && !s.aborted {
        Run { phase: Phase::AnsweringTranslated { first: j, end, segment: k }, ..s }
    } else if s.aborted {
        close_exec(s)
    } else {
        to_batch_exec(s, end)
    }
}

fn to_translate_exec(s: Run) -> (t: Run)
    ensures
        t == to_translate(s),
{
    if s.plan.mt.is_some() && !s.aborted {
        if s.segments == 0 {
            close_exec(s)
        } else {
            Run { phase: Phase::AnsweringTranslating, ..s }
        }
    } else {
        close_exec(s)
    }
}

fn to_segment_exec(s: Run, k: usize) -> (t: Run)
    ensures
        t == to_segment(s, k),
{
    if k < s.segments {
        Run { phase: Phase::Verifying { segment: k }, ..s }
    } else {
        to_translate_exec(s)
    }
}

fn to_verify_exec(s: Run) -> (t: Run)
    ensures
        t == to_verify(s),
{
    if s.plan.verifier.is_some() && !s.aborted {
        Run { phase: Phase::AnsweringVerifying, ..s }
    } else {
        to_translate_exec(s)
    }
}

fn to_span_exec(s: Run, i: usize) -> (t: Run)
    ensures
        t == to_span(s, i),
{
    if i < s.spans {
        Run { phase: Phase::Recognizing { span: i }, ..s }
    } else {
        to_verify_exec(s)
    }
}

fn to_asr_exec(s: Run) -> (t: Run)
    ensures
        t == to_asr(s),
{
    if s.aborted {
        to_verify_exec(s)
    } else {
        Run { phase: Phase::LoadingAsr, ..s }
    }
}

fn to_diarize_exec(s: Run) -> (t: Run)
    ensures
        t == to_diarize(s),
{
    if s.plan.diarize && !s.aborted {
        Run { phase: Phase::Diarizing, ..s }
    } else {
        to_asr_exec(s)
    }
}

fn to_denoise_exec(s: Run) -> (t: Run)
    ensures
        t == to_denoise(s),
{
    if s.plan.denoise {
        Run { phase: Phase::Denoising, ..s }
    } else {
        to_diarize_exec(s)
    }
}

fn noted_exec(s: Run, f: Flow) -> (t: Run)
    ensures
        t == noted(s, f),
{
    let stop = match f {
        Flow::Abort => true,
        Flow::Continue => false,
    };
    Run { aborted: s.aborted || stop, ..s }
}

fn fits_exec(s: Run, ev: Event) -> (r: bool)
    ensures
        r == fits(s, ev),
{
    match s.phase {
        Phase::Decoding => matches!(ev, Event::Decoded),
        Phase::Detecting => matches!(ev, Event::SpeechFound { .. }),
        Phase::Denoising => matches!(ev, Event::Denoised),
        Phase::Diarizing => matches!(ev, Event::Diarized),
        Phase::LoadingAsr | Phase::LoadingVerifier | Phase::LoadingMt => matches!(ev, Event::Loaded),
        Phase::Recognizing { .. } => matches!(ev, Event::Heard { .. }),
        Phase::Verifying { .. } => matches!(ev, Event::Merged),
        Phase::Translating { .. } => matches!(ev, Event::Translated),
        Phase::Finished { .. } => false,
        _ => matches!(ev, Event::Answer { .. }),
    }
}

fn advance(s: Run, ev: Event) -> (t: Run)
    ensures
        t == after(s, ev),
{
    if !fits_exec(s, ev) {
        return s;
    }
    match (s.phase, ev) {
        (Phase::Decoding, _) => if !s.aborted {
            Run { phase: Phase::AnsweringDecoded, ..s }
        } else {
            Run { phase: Phase::Detecting, ..s }
        },
        (Phase::AnsweringDecoded, Event::Answer { flow }) => {
            let t = noted_exec(s, flow);
            Run { phase: Phase::Detecting, ..t }
        },
        (Phase::Detecting, Event::SpeechFound { spans }) => {
            let t = Run { spans, ..s };
            if !t.aborted {
                Run { phase: Phase::AnsweringSegmented, ..t }
            } else {
                to_denoise_exec(t)
            }
        },
        (Phase::AnsweringSegmented, Event::Answer { flow }) => to_denoise_exec(noted_exec(s, flow)),
        (Phase::Denoising, _) => to_diarize_exec(s),
        (Phase::Diarizing, _) => if !s.aborted {
            Run { phase: Phase::AnsweringDiarized, ..s }
        } else {
            to_asr_exec(s)
        },
        (Phase::AnsweringDiarized, Event::Answer { flow }) => to_asr_exec(noted_exec(s, flow)),
        (Phase::LoadingAsr, _) => to_span_exec(s, 0),
        (Phase::Recognizing { span }, Event::Heard { empty }) => if empty {
            to_span_exec(s, succ_exec(span))
        } else {
            Run { segments: succ_exec(s.segments), phase: Phase::AnsweringRecognized { span }, ..s }
        },
        (Phase::AnsweringRecognized { span }, Event::Answer { flow }) => {
            let t = noted_exec(s, flow);
            if t.aborted {
                to_verify_exec(t)
            } else {
                to_span_exec(t, succ_exec(span))
            }
        },
        (Phase::AnsweringVerifying, Event::Answer { flow }) => {
            let t = noted_exec(s, flow);
            Run { phase: Phase::LoadingVerifier, ..t }
        },
        (Phase::LoadingVerifier, _) => to_segment_exec(s, 0),
        (Phase::Verifying { segment }, _) => if !s.aborted {
            Run { phase: Phase::AnsweringRefined { segment }, ..s }
        } else {
            to_translate_exec(s)
        },
        (Phase::AnsweringRefined { segment }, Event::Answer { flow }) => {
            let t = noted_exec(s, flow);
            if t.aborted {
                to_translate_exec(t)
            } else {
                to_segment_exec(t, succ_exec(segment))
            }
        },
        (Phase::AnsweringTranslating, Event::Answer { flow }) => {
            let t = noted_exec(s, flow);
            Run { phase: Phase::LoadingMt, ..t }
        },
        (Phase::LoadingMt, _) => to_batch_exec(s, 0),
        (Phase::Translating { first, end }, _) => to_notice_exec(s, first, end, first),
        (Phase::AnsweringTranslated { first, end, segment }, Event::Answer { flow }) => {
            to_notice_exec(noted_exec(s, flow), first, end, succ_exec(segment))
        },
        (Phase::AnsweringDone { cancelled }, _) => Run { phase: Phase::Finished { cancelled }, ..s },
        _ => s,
    }
}

fn step_exec(s: Run) -> (r: Step)
    ensures
        r == step_of(s),
{
    match s.phase {
        Phase::Decoding => Step::Decode,
        Phase::AnsweringDecoded => Step::Notify { notice: Notice::Decoded },
        Phase::Detecting => Step::DetectSpeech,
        Phase::AnsweringSegmented => Step::Notify { notice: Notice::Segmented { count: s.spans } },
        Phase::Denoising => Step::Denoise,
        Phase::Diarizing => Step::Diarize,
        Phase::AnsweringDiarized => Step::Notify { notice: Notice::Diarized },
        Phase::LoadingAsr => Step::LoadRecognizer { asr: s.plan.asr },
        Phase::Recognizing { span } => Step::Recognize { span },
        Phase::AnsweringRecognized { span } => Step::Notify {
            notice: Notice::Recognized { done: succ_exec(span), total: s.spans, span },
        },
        Phase::AnsweringVerifying => Step::Notify { notice: Notice::Verifying { total: s.segments } },
        Phase::LoadingVerifier => Step::LoadRecognizer {
            asr: match s.plan.verifier {
                Some(m) => m,
                None => s.plan.asr,
            },
        },
        Phase::Verifying { segment } => Step::Verify { segment },
        Phase::AnsweringRefined { segment } => Step::Notify {
            notice: Notice::Refined { done: succ_exec(segment), total: s.segments, segment },
        },
        Phase::AnsweringTranslating => Step::Notify {
            notice: Notice::Translating { total: s.segments },
        },
        Phase::LoadingMt => Step::LoadTranslator {
            mt: match s.plan.mt {
                Some(m) => m,
                None => MtModel::Opus,
            },
        },
        Phase::Translating { first, end } => Step::Translate { first, end },
        Phase::AnsweringTranslated { segment, .. } => Step::Notify {
            notice: Notice::Translated { segment },
        },
        Phase::AnsweringDone { .. } => Step::Notify { notice: Notice::Done },
        Phase::Finished { cancelled } => Step::Finish { cancelled },
    }
}

proof fn lemma_after_wf(s: Run, ev: Event)
    requires
        s.wf(),
    ensures
        after(s, ev).wf(),
{
}

impl Run {
    /// A run of `opts`, about to decode the file.
    pub fn new(opts: &Options) -> (r: Run)
        ensures
            r.wf(),
            r.plan.asr == opts.asr,
            r.plan.verifier == (if opts.verify {
                Some(crate::models::other_of(opts.asr))
            } else {
                None
            }),
            r.plan.mt == opts.mt,
            r.plan.denoise == opts.denoise,
            r.plan.diarize == opts.diarize,
            r.plan.batch == (if opts.mt_batch > 1 {
                opts.mt_batch
            } else {
                1
            }),
            r.spans == 0,
            r.segments == 0,
            !r.aborted,
            r.phase == Phase::Decoding,
            fresh(r),
    {
        let plan = Plan {
            asr: opts.asr,
            verifier: opts.verifier_model(),
            mt: opts.mt,
            denoise: opts.denoise,
            diarize: opts.diarize,
            batch: if opts.mt_batch > 1 {
                opts.mt_batch
            } else {
                1
            },
        };
        Run { plan, spans: 0, segments: 0, aborted: false, phase: Phase::Decoding }
    }

    /// The step the run waits on.
    pub fn pending(&self) -> (r: Step)
        ensures
            r == step_of(*self),
    {
        step_exec(*self)
    }

    /// Takes in what came of the last step and says what to do next.
    pub fn next(&mut self, ev: Event) -> (r: Step)
        ensures
            *final(self) == after(*old(self), ev),
            old(self).wf() ==> final(self).wf(),
            r == step_of(*final(self)),
    {
        let s = *self;
        proof {
            if s.wf() {
                lemma_after_wf(s, ev);
            }
        }
        let t = advance(s, ev);
        *self = t;
        step_exec(t)
    }
}

// ---------------------------------------------------------------------------
// Laws of a run.
// ---------------------------------------------------------------------------

/// The run was told to stop: it still is, or it closed as cancelled.
pub open spec fn stopped(s: Run) -> bool {
    ||| s.aborted
    ||| s.phase matches Phase::AnsweringDone { cancelled } && cancelled
    ||| s.phase matches Phase::Finished { cancelled } && cancelled
}

/// The run waits on the interface's answer to a notice other than the last one.
pub open spec fn asking(s: Run) -> bool {
    step_of(s) is Notify && !(s.phase is AnsweringDone)
}

/// How far a run has gone, in steps.
pub open spec fn progress(s: Run) -> nat {
    let r = 8 + 2 * s.spans;
    let t = r + 2 + 2 * s.segments;
    let c = t + 2 + 2 * s.segments;
    match s.phase {
        Phase::Decoding => 0,
        Phase::AnsweringDecoded => 1,
        Phase::Detecting => 2,
        Phase::AnsweringSegmented => 3,
        Phase::Denoising => 4,
        Phase::Diarizing => 5,
        Phase::AnsweringDiarized => 6,
        Phase::LoadingAsr => 7,
        Phase::Recognizing { span } => (8 + 2 * span) as nat,
        Phase::AnsweringRecognized { span } => (9 + 2 * span) as nat,
        Phase::AnsweringVerifying => r as nat,
        Phase::LoadingVerifier => (r + 1) as nat,
        Phase::Verifying { segment } => (r + 2 + 2 * segment) as nat,
        Phase::AnsweringRefined { segment } => (r + 3 + 2 * segment) as nat,
        Phase::AnsweringTranslating => t as nat,
        Phase::LoadingMt => (t + 1) as nat,
        Phase::Translating { first, .. } => (t + 2 + 2 * first) as nat,
        Phase::AnsweringTranslated { segment, .. } => (t + 3 + 2 * segment) as nat,
        Phase::AnsweringDone { .. } => c as nat,
        Phase::Finished { .. } => (c + 1) as nat,
    }
}

/// Law: the interface is asked nothing once it has said stop, but for being told
/// that the run is done; a stop is never forgotten, and the run ends reporting it
/// as cancelled exactly when the interface said stop.
pub proof fn law_stop_is_kept(s: Run, ev: Event)
    requires
        s.wf(),
    ensures
        step_of(s) is Notify && !(step_of(s)->notice is Done) ==> !s.aborted,
        stopped(after(s, ev)) == (stopped(s) || (asking(s) && ev == Event::Answer { flow: Flow::Abort })),
        step_of(s) matches Step::Finish { cancelled } ==> cancelled == stopped(s),
        after(s, ev).phase is Finished && !(s.phase is Finished) ==> s.phase is AnsweringDone,
        step_of(after(s, ev)) is Finish ==> step_of(s) is Finish || step_of(s)->notice == Notice::Done,
{
}

/// Law: every event the run waits on moves it forward, and any other changes
/// nothing; the number of stretches is fixed once speech is found, and a run takes
/// at most 13 + 6 · stretches steps.
pub proof fn law_run_ends(s: Run, ev: Event)
    requires
        s.wf(),
    ensures
        fits(s, ev) ==> progress(after(s, ev)) > progress(s),
        !fits(s, ev) ==> after(s, ev) == s,
        progress(s) <= 13 + 6 * s.spans,
        !(s.phase is Decoding || s.phase is AnsweringDecoded || s.phase is Detecting) ==> after(
            s,
            ev,
        ).spans == s.spans,
{
}

/// Law: the steps asked for stay within what there is: only stretches that exist
/// are recognized, only kept blocks are checked and translated, batches are
/// consecutive and no longer than the batch size, and a recognized stretch is
/// announced as number `span + 1` of all of them.
pub proof fn law_steps_in_range(s: Run)
    requires
        s.wf(),
    ensures
        step_of(s) matches Step::Recognize { span } ==> span < s.spans,
        step_of(s) matches Step::Verify { segment } ==> segment < s.segments,
        step_of(s) matches Step::Translate { first, end } ==> first < end <= s.segments && end
            - first <= s.plan.batch,
        step_of(s) matches Step::Notify { notice: Notice::Recognized { done, total, span } } ==> done
            == span + 1 <= total,
        step_of(s) matches Step::Notify { notice: Notice::Translated { segment } } ==> segment
            < s.segments,
        step_of(s) matches Step::LoadRecognizer { asr } ==> asr == s.plan.asr || Some(asr)
            == s.plan.verifier,
{
}

// ---------------------------------------------------------------------------
// A whole run.
// ---------------------------------------------------------------------------

/// A run as `Run::new` makes it: about to decode, nothing found, nothing stopped.
pub open spec fn fresh(s: Run) -> bool {
    &&& s.wf()
    &&& s.phase is Decoding
    &&& !s.aborted
    &&& s.spans == 0
    &&& s.segments == 0
}

/// The states a run goes through from `s` as it takes in `evs`: `s` first, then the
/// state after each event.
pub open spec fn states(s: Run, evs: Seq<Event>) -> Seq<Run>
    decreases evs.len(),
{
    if evs.len() == 0 {
        seq![s]
    } else {
        let p = states(s, evs.drop_last());
        p.push(after(p.last(), evs.last()))
    }
}

/// At step `i` the interface was asked and answered stop.
pub open spec fn stop_answered(st: Seq<Run>, evs: Seq<Event>, i: int) -> bool {
    asking(st[i]) && evs[i] == Event::Answer { flow: Flow::Abort }
}

/// At step `i` the interface was told that the run is done, and answered.
pub open spec fn done_answered(st: Seq<Run>, evs: Seq<Event>, i: int) -> bool {
    st[i].phase is AnsweringDone && evs[i] is Answer
}

/// The facts about a whole run that are carried from one event to the next.
pub open spec fn run_facts(st: Seq<Run>, evs: Seq<Event>) -> bool {
    let n = evs.len() as int;
    &&& st.len() == n + 1
    &&& forall|i: int| 0 <= i <= n ==> (#[trigger] st[i]).wf()
    &&& stopped(st[n]) == exists|i: int| 0 <= i < n && #[trigger] stop_answered(st, evs, i)
    &&& forall|i: int, j: int|
        0 <= i < j <= n && (#[trigger] st[i]).phase is Finished ==> (#[trigger] st[j]).phase is Finished
    &&& st[n].phase is Finished ==> exists|i: int|
        0 <= i < n && #[trigger] done_answered(st, evs, i) && forall|j: int|
            0 <= j < n && #[trigger] done_answered(st, evs, j) ==> j == i
}

proof fn lemma_stopped_asks_nothing(s: Run)
    requires
        s.wf(),
        stopped(s),
    ensures
        !asking(s),
{
    law_stop_is_kept(s, Event::Decoded);
}

proof fn lemma_run_facts(s: Run, evs: Seq<Event>)
    requires
        fresh(s),
    ensures
        states(s, evs)[0] == s,
        run_facts(states(s, evs), evs),
    decreases evs.len(),
{
    let st = states(s, evs);
    let n = evs.len() as int;
    if n == 0 {
        assert(!stopped(st[0]));
    } else {
        let pe = evs.drop_last();
        let p = states(s, pe);
        lemma_run_facts(s, pe);
        let last = p[n - 1];
        let ev = evs[n - 1];
        let t = after(last, ev);
        assert(st == p.push(t));
        lemma_states_len(s, pe);
        assert forall|i: int| 0 <= i < n implies #[trigger] st[i] == p[i] by {}
        assert forall|i: int| 0 <= i < n - 1 implies #[trigger] evs[i] == pe[i] by {}
        lemma_after_wf(last, ev);
        law_stop_is_kept(last, ev);
        assert(st[n] == t);
        assert forall|i: int| 0 <= i <= n implies (#[trigger] st[i]).wf() by {
            if i < n {
                assert(st[i] == p[i]);
            }
        }
        assert forall|i: int| 0 <= i < n - 1 implies stop_answered(st, evs, i) == stop_answered(
            p,
            pe,
            i,
        ) && done_answered(st, evs, i) == done_answered(p, pe, i) by {
            assert(st[i] == p[i] && evs[i] == pe[i]);
        }
        // A stop is remembered from the moment it is answered.
        if stopped(t) {
            if stopped(last) {
                let i = choose|i: int| 0 <= i < n - 1 && #[trigger] stop_answered(p, pe, i);
                assert(stop_answered(st, evs, i));
            } else {
                assert(stop_answered(st, evs, n - 1));
            }
        }
        if exists|i: int| 0 <= i < n && #[trigger] stop_answered(st, evs, i) {
            let i = choose|i: int| 0 <= i < n && #[trigger] stop_answered(st, evs, i);
            if i < n - 1 {
                assert(stop_answered(p, pe, i));
            }
        }
        // Once finished, a run stays finished.
        assert forall|i: int, j: int|
            0 <= i < j <= n && (#[trigger] st[i]).phase is Finished implies (
            #[trigger] st[j]).phase is Finished by {
            if j < n {
                assert(st[i] == p[i] && st[j] == p[j]);
            } else if i < n - 1 {
                assert(st[i] == p[i]);
                assert(p[n - 1].phase is Finished);
            }
        }
        // Done is answered exactly once, and nothing comes after it.
        if t.phase is Finished {
            if last.phase is Finished {
                let i = choose|i: int|
                    0 <= i < n - 1 && #[trigger] done_answered(p, pe, i) && forall|j: int|
                        0 <= j < n - 1 && #[trigger] done_answered(p, pe, j) ==> j == i;
                assert(done_answered(st, evs, i));
                assert forall|j: int| 0 <= j < n && #[trigger] done_answered(st, evs, j) implies j
                    == i by {
                    if j < n - 1 {
                        assert(done_answered(p, pe, j));
                    }
                }
            } else {
                assert(last.phase is AnsweringDone);
                assert(done_answered(st, evs, n - 1));
                assert forall|j: int| 0 <= j < n && #[trigger] done_answered(st, evs, j) implies j
                    == n - 1 by {
                    if j < n - 1 {
                        assert(st[j] == p[j]);
                        assert(after(p[j], pe[j]).phase is Finished);
                        lemma_states_step(s, pe, j);
                        assert(p[j + 1].phase is Finished);
                    }
                }
            }
        }
    }
}

proof fn lemma_states_step(s: Run, evs: Seq<Event>, j: int)
    requires
        0 <= j < evs.len(),
    ensures
        states(s, evs).len() == evs.len() + 1,
        states(s, evs)[j + 1] == after(states(s, evs)[j], evs[j]),
    decreases evs.len(),
{
    let p = states(s, evs.drop_last());
    if j < evs.len() - 1 {
        lemma_states_step(s, evs.drop_last(), j);
        assert(states(s, evs) == p.push(after(p.last(), evs.last())));
    }
    lemma_states_len(s, evs);
}

proof fn lemma_states_len(s: Run, evs: Seq<Event>)
    ensures
        states(s, evs).len() == evs.len() + 1,
        states(s, evs)[0] == s,
    decreases evs.len(),
{
    if evs.len() > 0 {
        lemma_states_len(s, evs.drop_last());
    }
}

/// Law of a whole run, whatever the interface answers: the run ends cancelled
/// exactly when some answer was stop; after a stop the interface is asked nothing
/// more, but for being told once that the run is done; and when the run finishes,
/// "done" was told and answered exactly once, with nothing after it.
pub proof fn law_whole_run(s: Run, evs: Seq<Event>)
    requires
        fresh(s),
    ensures
        ({
            let st = states(s, evs);
            let n = evs.len() as int;
            &&& st.len() == n + 1
            &&& st[0] == s
            &&& forall|i: int| 0 <= i <= n ==> (#[trigger] st[i]).wf()
            &&& forall|i: int, j: int|
                0 <= i < j <= n && #[trigger] stop_answered(st, evs, i) ==> !asking(#[trigger] st[j])
            &&& step_of(st[n]) matches Step::Finish { cancelled } ==> (cancelled <==> exists|i: int|
                0 <= i < n && #[trigger] stop_answered(st, evs, i))
            &&& step_of(st[n]) is Finish ==> exists|i: int|
                0 <= i < n && #[trigger] done_answered(st, evs, i) && (forall|j: int|
                    0 <= j < n && #[trigger] done_answered(st, evs, j) ==> j == i) && forall|j: int|
                    i < j <= n ==> (#[trigger] st[j]).phase is Finished
        }),
{
    lemma_run_facts(s, evs);
    let st = states(s, evs);
    let n = evs.len() as int;
    assert forall|i: int, j: int|
        0 <= i < j <= n && #[trigger] stop_answered(st, evs, i) implies !asking(#[trigger] st[j]) by {
        let sub = evs.take(j);
        lemma_run_facts(s, sub);
        lemma_states_prefix(s, evs, j);
        assert(stop_answered(states(s, sub), sub, i));
        assert(states(s, sub)[j] == st[j]);
        lemma_stopped_asks_nothing(st[j]);
    }
    if step_of(st[n]) is Finish {
        law_stop_is_kept(st[n], Event::Decoded);
        let i = choose|i: int|
            0 <= i < n && #[trigger] done_answered(st, evs, i) && forall|j: int|
                0 <= j < n && #[trigger] done_answered(st, evs, j) ==> j == i;
        lemma_states_step(s, evs, i);
        assert forall|j: int| i < j <= n implies (#[trigger] st[j]).phase is Finished by {
            assert(st[i + 1].phase is Finished);
        }
    }
}

proof fn lemma_states_prefix(s: Run, evs: Seq<Event>, k: int)
    requires
        0 <= k <= evs.len(),
    ensures
        states(s, evs.take(k)).len() == k + 1,
        forall|i: int| 0 <= i <= k ==> #[trigger] states(s, evs.take(k))[i] == states(s, evs)[i],
        forall|i: int| 0 <= i < k ==> #[trigger] evs.take(k)[i] == evs[i],
    decreases evs.len() - k,
{
    lemma_states_len(s, evs.take(k));
    if k < evs.len() {
        lemma_states_prefix(s, evs.drop_last(), k);
        assert(evs.drop_last().take(k) =~= evs.take(k));
        lemma_states_len(s, evs.drop_last());
        assert forall|i: int| 0 <= i <= k implies #[trigger] states(s, evs.take(k))[i] == states(
            s,
            evs,
        )[i] by {
            assert(states(s, evs) == states(s, evs.drop_last()).push(
                after(states(s, evs.drop_last()).last(), evs.last()),
            ));
        }
    } else {
        assert(evs.take(k) =~= evs);
    }
}

} // verus!
