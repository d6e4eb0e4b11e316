use transcriptor::models::{AsrModel, MtModel};
use transcriptor::options::Options;
use transcriptor::run::{Event, Flow, Notice, Run, Step};

fn go(run: &mut Run, ev: Event) -> Step {
    run.next(ev)
}

fn answer(run: &mut Run, flow: Flow) -> Step {
    run.next(Event::Answer { flow })
}

fn notify(n: Notice) -> Step {
    Step::Notify { notice: n }
}

#[test]
fn a_full_run_goes_through_every_stage() {
    let mut o = Options::standard(4);
    o.mt_batch = 2;
    let mut r = Run::new(&o);
    assert_eq!(r.pending(), Step::Decode);
    assert_eq!(go(&mut r, Event::Decoded), notify(Notice::Decoded));
    assert_eq!(answer(&mut r, Flow::Continue), Step::DetectSpeech);
    assert_eq!(go(&mut r, Event::SpeechFound { spans: 3 }), notify(Notice::Segmented { count: 3 }));
    // No cleaning asked for: straight to the speakers.
    assert_eq!(answer(&mut r, Flow::Continue), Step::Diarize);
    assert_eq!(go(&mut r, Event::Diarized), notify(Notice::Diarized));
    assert_eq!(answer(&mut r, Flow::Continue), Step::LoadRecognizer { asr: AsrModel::Canary });
    assert_eq!(go(&mut r, Event::Loaded), Step::Recognize { span: 0 });
    assert_eq!(
        go(&mut r, Event::Heard { empty: false }),
        notify(Notice::Recognized { done: 1, total: 3, span: 0 })
    );
    assert_eq!(answer(&mut r, Flow::Continue), Step::Recognize { span: 1 });
    // An empty stretch is skipped without a notice.
    assert_eq!(go(&mut r, Event::Heard { empty: true }), Step::Recognize { span: 2 });
    assert_eq!(
        go(&mut r, Event::Heard { empty: false }),
        notify(Notice::Recognized { done: 3, total: 3, span: 2 })
    );
    assert_eq!(answer(&mut r, Flow::Continue), notify(Notice::Verifying { total: 2 }));
    assert_eq!(answer(&mut r, Flow::Continue), Step::LoadRecognizer { asr: AsrModel::Parakeet });
    assert_eq!(go(&mut r, Event::Loaded), Step::Verify { segment: 0 });
    assert_eq!(go(&mut r, Event::Merged), notify(Notice::Refined { done: 1, total: 2, segment: 0 }));
    assert_eq!(answer(&mut r, Flow::Continue), Step::Verify { segment: 1 });
    assert_eq!(go(&mut r, Event::Merged), notify(Notice::Refined { done: 2, total: 2, segment: 1 }));
    assert_eq!(answer(&mut r, Flow::Continue), notify(Notice::Translating { total: 2 }));
    assert_eq!(answer(&mut r, Flow::Continue), Step::LoadTranslator { mt: MtModel::Opus });
    assert_eq!(go(&mut r, Event::Loaded), Step::Translate { first: 0, end: 2 });
    assert_eq!(go(&mut r, Event::Translated), notify(Notice::Translated { segment: 0 }));
    assert_eq!(answer(&mut r, Flow::Continue), notify(Notice::Translated { segment: 1 }));
    assert_eq!(answer(&mut r, Flow::Continue), notify(Notice::Done));
    assert_eq!(answer(&mut r, Flow::Continue), Step::Finish { cancelled: false });
}

#[test]
fn translation_goes_in_batches() {
    let mut o = Options::fast(2);
    o.diarize = false;
    o.mt_batch = 2;
    let mut r = Run::new(&o);
    go(&mut r, Event::Decoded);
    answer(&mut r, Flow::Continue);
    go(&mut r, Event::SpeechFound { spans: 3 });
    assert_eq!(answer(&mut r, Flow::Continue), Step::LoadRecognizer { asr: AsrModel::Parakeet });
    go(&mut r, Event::Loaded);
    for _ in 0..3 {
        go(&mut r, Event::Heard { empty: false });
        answer(&mut r, Flow::Continue);
    }
    // No second opinion in the fast preset.
    assert_eq!(r.pending(), notify(Notice::Translating { total: 3 }));
    answer(&mut r, Flow::Continue);
    assert_eq!(go(&mut r, Event::Loaded), Step::Translate { first: 0, end: 2 });
    go(&mut r, Event::Translated);
    answer(&mut r, Flow::Continue);
    assert_eq!(answer(&mut r, Flow::Continue), Step::Translate { first: 2, end: 3 });
    assert_eq!(go(&mut r, Event::Translated), notify(Notice::Translated { segment: 2 }));
    assert_eq!(answer(&mut r, Flow::Continue), notify(Notice::Done));
}

#[test]
fn a_stop_ends_the_run_at_the_next_safe_point() {
    let o = Options::standard(4);
    let mut r = Run::new(&o);
    go(&mut r, Event::Decoded);
    answer(&mut r, Flow::Continue);
    go(&mut r, Event::SpeechFound { spans: 5 });
    answer(&mut r, Flow::Continue);
    go(&mut r, Event::Diarized);
    answer(&mut r, Flow::Continue);
    go(&mut r, Event::Loaded);
    go(&mut r, Event::Heard { empty: false });
    // The interface says stop after the first block: no more recognizing, no second
    // opinion, no translation; it is told the run is done, and it comes back cancelled.
    assert_eq!(answer(&mut r, Flow::Abort), notify(Notice::Done));
    assert_eq!(answer(&mut r, Flow::Continue), Step::Finish { cancelled: true });
}

#[test]
fn a_stop_right_after_decoding_still_finds_speech() {
    let o = Options::standard(4);
    let mut r = Run::new(&o);
    go(&mut r, Event::Decoded);
    assert_eq!(answer(&mut r, Flow::Abort), Step::DetectSpeech);
    // Nothing more is shown, no speakers, no recognizer.
    assert_eq!(go(&mut r, Event::SpeechFound { spans: 2 }), notify(Notice::Done));
    assert_eq!(answer(&mut r, Flow::Continue), Step::Finish { cancelled: true });
}

#[test]
fn a_stop_while_announcing_the_check_still_merges_one_block() {
    let mut o = Options::standard(4);
    o.diarize = false;
    let mut r = Run::new(&o);
    go(&mut r, Event::Decoded);
    answer(&mut r, Flow::Continue);
    go(&mut r, Event::SpeechFound { spans: 2 });
    answer(&mut r, Flow::Continue);
    go(&mut r, Event::Loaded);
    go(&mut r, Event::Heard { empty: false });
    answer(&mut r, Flow::Continue);
    go(&mut r, Event::Heard { empty: false });
    assert_eq!(answer(&mut r, Flow::Continue), notify(Notice::Verifying { total: 2 }));
    assert_eq!(answer(&mut r, Flow::Abort), Step::LoadRecognizer { asr: AsrModel::Parakeet });
    assert_eq!(go(&mut r, Event::Loaded), Step::Verify { segment: 0 });
    assert_eq!(go(&mut r, Event::Merged), notify(Notice::Done));
}

#[test]
fn unexpected_events_change_nothing() {
    let o = Options::standard(4);
    let mut r = Run::new(&o);
    let before = r;
    assert_eq!(go(&mut r, Event::Merged), Step::Decode);
    assert_eq!(r, before);
    assert_eq!(go(&mut r, Event::Answer { flow: Flow::Abort }), Step::Decode);
    assert!(!r.aborted);
}

#[test]
fn nothing_heard_means_nothing_to_check_or_translate() {
    let mut o = Options::standard(4);
    o.diarize = false;
    let mut r = Run::new(&o);
    go(&mut r, Event::Decoded);
    answer(&mut r, Flow::Continue);
    go(&mut r, Event::SpeechFound { spans: 1 });
    answer(&mut r, Flow::Continue);
    go(&mut r, Event::Loaded);
    assert_eq!(go(&mut r, Event::Heard { empty: true }), notify(Notice::Verifying { total: 0 }));
    answer(&mut r, Flow::Continue);
    // The checker is still loaded, as the run always does, but there is nothing to check
    // and no translation of nothing.
    assert_eq!(go(&mut r, Event::Loaded), notify(Notice::Done));
}

#[test]
fn cleaning_comes_before_the_speakers() {
    let mut o = Options::transcribe_only("en", 4);
    o.denoise = true;
    o.verify = false;
    let mut r = Run::new(&o);
    go(&mut r, Event::Decoded);
    answer(&mut r, Flow::Continue);
    go(&mut r, Event::SpeechFound { spans: 0 });
    assert_eq!(answer(&mut r, Flow::Continue), Step::Denoise);
    assert_eq!(go(&mut r, Event::Denoised), Step::Diarize);
    go(&mut r, Event::Diarized);
    answer(&mut r, Flow::Continue);
    // No stretches, no second opinion, no translation.
    assert_eq!(go(&mut r, Event::Loaded), notify(Notice::Done));
}
