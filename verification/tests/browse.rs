use transcriptor::browse::plain_char;
use transcriptor::browse::{
    arrange, audio_extensions, es_audio, es_jornada, normaliza, playback_file_name, plays_directly,
    result_file_name, root_candidates, EntryInfo, Settings, TOPE,
};

#[test]
fn reconoce_las_jornadas() {
    for n in [
        "Lunes 3",
        "lunes3",
        "MARTES-4",
        "Miércoles 12",
        "miercoles 12",
        "Sábado 1",
        "domingo 30",
        "Jueves  7",
    ] {
        assert!(es_jornada(n), "deberia ser jornada: {n}");
    }
}

#[test]
fn no_confunde_otras_carpetas() {
    for n in [
        "audios viejos",
        "Lunes", // sin número
        "GoGlobal",
        "2024",
        "Entregado",
        "clientes 2023", // número pero no empieza con día
    ] {
        assert!(!es_jornada(n), "no deberia ser jornada: {n}");
    }
}

#[test]
fn normaliza_tildes() {
    assert_eq!(normaliza("Miércoles"), "miercoles");
    assert_eq!(normaliza("SÁBADO"), "sabado");
}

#[test]
fn normaliza_folds_every_accented_vowel() {
    assert_eq!(normaliza("ÀÄÂ èëê ÌÏÎ òöô ÙÜÛ"), "aaa eee iii ooo uuu");
    assert_eq!(normaliza("Ñandú"), "ñandu");
}

#[test]
fn jornada_needs_the_day_at_the_start() {
    assert!(!es_jornada("el lunes 3"));
    assert!(es_jornada("viernes, 9 de mayo"));
    assert!(!es_jornada(""));
}

fn dir(name: &str, modified: u64) -> EntryInfo {
    EntryInfo {
        name: name.to_string(),
        path: format!("/base/{name}"),
        is_dir: true,
        modified,
        size: 0,
        done: false,
    }
}

fn file(name: &str, size: u64, done: bool) -> EntryInfo {
    EntryInfo {
        name: name.to_string(),
        path: format!("/base/{name}"),
        is_dir: false,
        modified: 0,
        size,
        done,
    }
}

#[test]
fn workdays_come_first_and_newest_first() {
    let entries = vec![
        dir("audios viejos", 900),
        dir("Lunes 3", 100),
        dir("Entregado 2024", 50),
        dir("Miércoles 5", 300),
        file("suelto.wav", 10, false),
        file("notas.txt", 5, false),
    ];
    let l = arrange("/base".to_string(), Some("/".to_string()), &entries);
    let names: Vec<&str> = l.folders.iter().map(|f| f.name.as_str()).collect();
    assert_eq!(names, vec!["Miércoles 5", "Lunes 3", "audios viejos", "Entregado 2024"]);
    assert!(l.folders[0].workday && l.folders[1].workday);
    assert!(!l.folders[2].workday && !l.folders[3].workday);
    assert!(l.has_workdays);
    assert_eq!(l.audios.len(), 1);
    assert_eq!(l.audios[0].name, "suelto.wav");
    assert_eq!(l.audios[0].size, 10);
    assert_eq!(l.total_audios, 1);
    assert_eq!(l.path, "/base");
    assert_eq!(l.parent.as_deref(), Some("/"));
}

#[test]
fn same_date_folders_go_by_name_without_accents() {
    let entries = vec![dir("beta", 7), dir("Álamo", 7), dir("alfa", 7)];
    let l = arrange("/base".to_string(), None, &entries);
    let names: Vec<&str> = l.folders.iter().map(|f| f.name.as_str()).collect();
    assert_eq!(names, vec!["Álamo", "alfa", "beta"]);
    assert!(!l.has_workdays);
    assert_eq!(l.parent, None);
}

#[test]
fn hidden_folders_are_not_listed() {
    let entries = vec![dir(".git", 5), dir("Martes 2", 1)];
    let l = arrange("/base".to_string(), None, &entries);
    assert_eq!(l.folders.len(), 1);
    assert_eq!(l.folders[0].name, "Martes 2");
}

#[test]
fn recordings_are_sorted_by_name_and_marked_done() {
    let entries = vec![
        file("uno.mp3", 1, true),
        file("Dos.MP3", 2, false),
        file("álbum.wav", 3, false),
        file("leeme.txt", 4, false),
    ];
    let l = arrange("/base".to_string(), None, &entries);
    let names: Vec<&str> = l.audios.iter().map(|a| a.name.as_str()).collect();
    assert_eq!(names, vec!["álbum.wav", "Dos.MP3", "uno.mp3"]);
    assert!(l.audios[2].done);
    assert!(!l.audios[1].done);
    assert_eq!(l.total_audios, 3);
}

#[test]
fn a_huge_folder_does_not_overflow_the_list() {
    let entries: Vec<EntryInfo> = (0..900).map(|i| file(&format!("viejo-{i}.mp3"), 1, false)).collect();
    let l = arrange("/enorme".to_string(), None, &entries);
    assert_eq!(l.total_audios, 900, "el total se informa completo");
    assert_eq!(l.audios.len(), TOPE, "pero la lista se recorta");
    // The first TOPE read are the ones kept.
    assert!(l.audios.iter().all(|a| {
        let k: usize = a.name["viejo-".len()..a.name.len() - 4].parse().unwrap();
        k < TOPE
    }));
}

#[test]
fn recognizes_recordings_by_extension() {
    assert!(es_audio("llamada.mp3"));
    assert!(es_audio("LLAMADA.WAV"));
    assert!(es_audio("video.mkv"));
    assert!(es_audio("grabacion.3gp"));
    assert!(!es_audio("notas.txt"));
    assert!(!es_audio("mp3"));
    assert!(!es_audio(".mp3"));
    assert!(!es_audio("archivo."));
    assert!(es_audio("a.b.flac"));
}

#[test]
fn the_player_opens_common_formats_directly() {
    assert!(plays_directly("a.mp3"));
    assert!(plays_directly("a.M4A"));
    assert!(plays_directly("a.webm"));
    assert!(!plays_directly("a.amr"));
    assert!(!plays_directly("a.wma"));
    assert!(!plays_directly("sin_extension"));
}

#[test]
fn transcript_lives_next_to_the_recording() {
    assert_eq!(result_file_name(Some("uno.mp3")), "uno.transcripcion.json");
    assert_eq!(result_file_name(Some("a.b.wav")), "a.b.transcripcion.json");
    assert_eq!(result_file_name(Some(".oculto")), ".oculto.transcripcion.json");
    assert_eq!(result_file_name(Some("sin")), "sin.transcripcion.json");
    assert_eq!(result_file_name(None), "audio.transcripcion.json");
}

#[test]
fn converted_copy_keeps_the_stem() {
    assert_eq!(playback_file_name(Some("llamada.amr")), "llamada.m4a");
    assert_eq!(playback_file_name(None), "audio.m4a");
}

#[test]
fn every_listed_extension_is_a_recording() {
    let exts = audio_extensions();
    assert_eq!(exts.len(), 17);
    for e in exts {
        assert!(es_audio(&format!("x.{e}")));
    }
}

#[test]
fn settings_start_empty() {
    let s = Settings::default();
    assert!(s.root.is_none());
}

#[test]
fn the_base_folder_is_looked_for_on_the_desktop_first() {
    assert_eq!(
        root_candidates(),
        vec!["Desktop/GoGlobal", "Escritorio/GoGlobal", "OneDrive/Desktop/GoGlobal", "Desktop", "Escritorio"]
    );
}

#[test]
fn transcript_files_are_not_recordings() {
    let entries = vec![file("uno.mp3", 1, true), file("dos.mp3", 1, false), file("uno.transcripcion.json", 2, false)];
    let l = arrange("/hechos".to_string(), None, &entries);
    assert_eq!(l.audios.len(), 2);
    let uno = l.audios.iter().find(|a| a.name == "uno.mp3").unwrap();
    let dos = l.audios.iter().find(|a| a.name == "dos.mp3").unwrap();
    assert!(uno.done);
    assert!(!dos.done);
}

#[test]
fn lowercased_vowels_lose_their_accents() {
    assert_eq!(plain_char('é'), 'e');
    assert_eq!(plain_char('ü'), 'u');
    assert_eq!(plain_char('ñ'), 'ñ');
    assert_eq!(plain_char('É'), 'É');
}

#[test]
fn other_folders_go_by_name_whatever_their_date() {
    let entries = vec![dir("zeta", 999), dir("Viernes 2", 5), dir("alfa", 1), dir("Lunes 9", 50)];
    let l = arrange("/base".to_string(), None, &entries);
    let names: Vec<&str> = l.folders.iter().map(|f| f.name.as_str()).collect();
    assert_eq!(names, vec!["Lunes 9", "Viernes 2", "alfa", "zeta"]);
}
