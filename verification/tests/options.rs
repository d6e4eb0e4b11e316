use transcriptor::models::{AsrModel, MtModel, DENOISER_FILE, DIAR_EMBEDDING_FILE, DIAR_SEGMENTATION_FILE, VAD_FILE};
use transcriptor::options::{threads_for, Options, UiOptions};
use transcriptor::speakers::{set_speaker_name, speaker_label};

#[test]
fn presets() {
    let d = Options::standard(4);
    assert_eq!(d.asr, AsrModel::Canary);
    assert!(d.verify);
    assert_eq!(d.mt, Some(MtModel::Opus));
    assert_eq!(d.source_lang, "es");
    assert_eq!(d.mt_batch, 8);
    let f = Options::fast(4);
    assert_eq!((f.asr, f.verify, f.mt), (AsrModel::Parakeet, false, Some(MtModel::Opus)));
    let b = Options::best(4);
    assert_eq!((b.asr, b.verify, b.mt), (AsrModel::Canary, true, Some(MtModel::Nllb)));
    let t = Options::transcribe_only("en", 3);
    assert_eq!(t.mt, None);
    assert_eq!(t.source_lang, "en");
    assert_eq!(t.threads, 3);
}

#[test]
fn the_second_opinion_is_the_other_model() {
    let mut o = Options::standard(4);
    assert_eq!(o.verifier_model(), Some(AsrModel::Parakeet));
    o.asr = AsrModel::Parakeet;
    assert_eq!(o.verifier_model(), Some(AsrModel::Canary));
    o.verify = false;
    assert_eq!(o.verifier_model(), None);
}

#[test]
fn default_threads_stay_between_one_and_eight() {
    assert_eq!(threads_for(None), 4);
    assert_eq!(threads_for(Some(2)), 2);
    assert_eq!(threads_for(Some(32)), 8);
    assert_eq!(threads_for(Some(0)), 1);
}

#[test]
fn interface_settings_become_choices() {
    let mut u = UiOptions::with_threads(6);
    assert_eq!(u.asr, "canary");
    assert_eq!(u.mt, "nllb");
    let o = u.to_options();
    assert_eq!(o.asr, AsrModel::Canary);
    assert_eq!(o.mt, Some(MtModel::Nllb));
    assert_eq!(o.speakers, None);
    assert_eq!(o.threads, 6);
    u.asr = "parakeet".to_string();
    u.mt = "opus".to_string();
    u.speakers = 3;
    u.threads = 99;
    let o = u.to_options();
    assert_eq!(o.asr, AsrModel::Parakeet);
    assert_eq!(o.mt, Some(MtModel::Opus));
    assert_eq!(o.speakers, Some(3));
    assert_eq!(o.threads, 16);
    u.mt = "none".to_string();
    assert_eq!(u.to_options().mt, None);
    u.mt = "opus".to_string();
    u.source_lang = "en".to_string();
    u.threads = -5;
    let o = u.to_options();
    // Already English: nothing to translate.
    assert_eq!(o.mt, None);
    assert_eq!(o.threads, 1);
}

#[test]
fn model_folders() {
    assert_eq!(AsrModel::Parakeet.dir_name(), "asr/parakeet-tdt-0.6b-v3-int8");
    assert_eq!(AsrModel::Canary.dir_name(), "asr/canary-1b-v2-int8");
    assert_eq!(MtModel::Opus.dir_name(), "mt/opus-es-en");
    assert_eq!(MtModel::Nllb.dir_name(), "mt/nllb-200-distilled-600M");
    assert!(AsrModel::Parakeet.has_word_timings());
    assert!(!AsrModel::Canary.has_word_timings());
    assert_eq!(VAD_FILE, "vad/silero_vad.onnx");
    assert_eq!(DENOISER_FILE, "denoise/gtcrn_simple.onnx");
    assert_eq!(DIAR_SEGMENTATION_FILE, "diar/segmentation.onnx");
    assert_eq!(DIAR_EMBEDDING_FILE, "diar/embedding.onnx");
}

#[test]
fn speakers_are_called_by_name_or_number() {
    let names = vec!["Cliente".to_string(), "  ".to_string()];
    assert_eq!(speaker_label(&names, 0), "Cliente");
    assert_eq!(speaker_label(&names, 1), "Hablante 2");
    assert_eq!(speaker_label(&names, 5), "Hablante 6");
    assert_eq!(speaker_label(&names, -3), "Cliente");
    assert_eq!(speaker_label(&[], -3), "Hablante -2");
}

#[test]
fn naming_a_speaker() {
    let mut names: Vec<String> = Vec::new();
    set_speaker_name(&mut names, 2, "  Abogada ");
    assert_eq!(names, vec!["", "", "Abogada"]);
    assert_eq!(speaker_label(&names, 2), "Abogada");
    assert_eq!(speaker_label(&names, 0), "Hablante 1");
    set_speaker_name(&mut names, -1, "Cliente");
    assert_eq!(names, vec!["Cliente", "", "Abogada"]);
    set_speaker_name(&mut names, 2, "   ");
    assert_eq!(speaker_label(&names, 2), "Hablante 3");
    assert_eq!(names.len(), 3);
}
