//! Rules of the working-folder browser.
//!
//! The material lives in a base folder with one subfolder per working day
//! («Lunes 3», «Miércoles 12»). Next to them there are folders with thousands of
//! old recordings, so the browser lists one folder and stops. Working-day folders
//! are recognized, shown first and ordered from the most recent; the rest stays
//! visible, ordered by name.

use vstd::prelude::*;
use crate::sorting::{lex_less, lex_lt, law_lex_order, law_sort_by, ranked, sort_by, sort_ranked, sorted_by, strict_weak, Ranked};
use crate::text::{char_to_lowercase, chars_of, copy_range, lower_of, lower_text, push_str, same_as_str, string_of, text_to_lowercase};

verus! {

/// At most this many recordings of one folder are listed, so that opening the
/// folder with thousands of old recordings by mistake does not hang the interface.
pub const TOPE: usize = 400;

// ---------------------------------------------------------------------------
// Names.
// ---------------------------------------------------------------------------

/// Vowels with accents, dieresis or circumflex folded to the plain vowel.
pub open spec fn plain(c: char) -> char {
    if c == 'á' || c == 'à' || c == 'ä' || c == 'â' {
        'a'
    } else if c == 'é' || c == 'è' || c == 'ë' || c == 'ê' {
        'e'
    } else if c == 'í' || c == 'ì' || c == 'ï' || c == 'î' {
        'i'
    } else if c == 'ó' || c == 'ò' || c == 'ö' || c == 'ô' {
        'o'
    } else if c == 'ú' || c == 'ù' || c == 'ü' || c == 'û' {
        'u'
    } else {
        c
    }
}

/// A name lowercased and without accents, so that «Miércoles» and «miercoles» are the same.
pub open spec fn folded_name(s: Seq<char>) -> Seq<char>
    decreases s.len(),
{
    if s.len() == 0 {
        seq![]
    } else {
        folded_name(s.drop_last()) + lower_of(s.last()).map_values(|c: char| plain(c))
    }
}

/// Folds one already-lowercased char: accented vowels become the plain vowel.
pub fn plain_char(c: char) -> (r: char)
    ensures
        r == plain(c),
{
    if c == 'á' || c == 'à' || c == 'ä' || c == 'â' {
        'a'
    } else if c == 'é' || c == 'è' || c == 'ë' || c == 'ê' {
        'e'
    } else if c == 'í' || c == 'ì' || c == 'ï' || c == 'î' {
        'i'
    } else if c == 'ó' || c == 'ò' || c == 'ö' || c == 'ô' {
        'o'
    } else if c == 'ú' || c == 'ù' || c == 'ü' || c == 'û' {
        'u'
    } else {
        c
    }
}

fn fold_name(s: &[char]) -> (r: Vec<char>)
    ensures
        r@ == folded_name(s@),
{
    let mut r: Vec<char> = Vec::new();
    let mut i: usize = 0;
    while i < s.len()
        invariant
            i <= s@.len(),
            r@ == folded_name(s@.take(i as int)),
        decreases s.len() - i,
    {
        assert(s@.take(i + 1).drop_last() =~= s@.take(i as int));
        let low = char_to_lowercase(s[i]);
        let ghost before = r@;
        let mut k: usize = 0;
        while k < low.len()
            invariant
                k <= low@.len(),
                r@ == before + low@.take(k as int).map_values(|c: char| plain(c)),
            decreases low.len() - k,
        {
            r.push(plain_char(low[k]));
            k = k + 1;
            assert(r@ =~= before + low@.take(k as int).map_values(|c: char| plain(c)));
        }
        assert(low@.take(low@.len() as int) =~= low@);
        i = i + 1;
    }
    assert(s@.take(s@.len() as int) =~= s@);
    r
}

/// Lowercase and without accents, so that «Miércoles» and «miercoles» are the same.
pub fn normaliza(s: &str) -> (r: String)
    ensures
        r@ == folded_name(s@),
{
    let cs = chars_of(s);
    let f = fold_name(cs.as_slice());
    string_of(f.as_slice())
}

/// The weekdays, as they appear in folder names once folded.
pub open spec fn is_day(d: Seq<char>) -> bool {
    ||| d == "lunes"@
    ||| d == "martes"@
    ||| d == "miercoles"@
    ||| d == "jueves"@
    ||| d == "viernes"@
    ||| d == "sabado"@
    ||| d == "domingo"@
}

/// `n` starts with `d` and has an ASCII digit somewhere after it.
pub open spec fn day_then_number(n: Seq<char>, d: Seq<char>) -> bool {
    &&& d.len() <= n.len()
    &&& n.take(d.len() as int) == d
    &&& exists|k: int| d.len() <= k < n.len() && '0' <= #[trigger] n[k] <= '9'
}

/// A working-day folder name: a weekday followed by a number, in any form
/// («Lunes 3», «lunes3», «MARTES-4», «Miércoles 12»).
pub open spec fn workday_name(name: Seq<char>) -> bool {
    let n = folded_name(name);
    exists|d: Seq<char>| is_day(d) && #[trigger] day_then_number(n, d)
}

fn starts_then_digit(n: &[char], d: &str) -> (r: bool)
    ensures
        r == day_then_number(n@, d@),
{
    let dv = chars_of(d);
    let k = dv.len();
    if k > n.len() {
        return false;
    }
    let mut i: usize = 0;
    while i < k
        invariant
            dv@ == d@,
            k == dv@.len() <= n@.len(),
            i <= k,
            forall|q: int| 0 <= q < i ==> n@[q] == dv@[q],
        decreases k - i,
    {
        if n[i] != dv[i] {
            assert(n@.take(k as int)[i as int] == n@[i as int]);
            return false;
        }
        i = i + 1;
    }
    assert(n@.take(k as int) =~= dv@);
    let mut j: usize = k;
    while j < n.len()
        invariant
            dv@ == d@,
            k == dv@.len() <= n@.len(),
            n@.take(k as int) == d@,
            k <= j <= n@.len(),
            forall|q: int| k <= q < j ==> !('0' <= #[trigger] n@[q] <= '9'),
        decreases n.len() - j,
    {
        if '0' <= n[j] && n[j] <= '9' {
            assert('0' <= n@[j as int] <= '9');
            return true;
        }
        j = j + 1;
    }
    false
}

/// Does the folder name look like a working day?
pub fn es_jornada(nombre: &str) -> (r: bool)
    ensures
        r == workday_name(nombre@),
{
    let cs = chars_of(nombre);
    let n = fold_name(cs.as_slice());
    let ns = n.as_slice();
    let r = starts_then_digit(ns, "lunes") || starts_then_digit(ns, "martes") || starts_then_digit(
        ns,
        "miercoles",
    ) || starts_then_digit(ns, "jueves") || starts_then_digit(ns, "viernes") || starts_then_digit(
        ns,
        "sabado",
    ) || starts_then_digit(ns, "domingo");
    proof {
        if r {
            if day_then_number(n@, "lunes"@) {
                assert(is_day("lunes"@));
            } else if day_then_number(n@, "martes"@) {
                assert(is_day("martes"@));
            } else if day_then_number(n@, "miercoles"@) {
                assert(is_day("miercoles"@));
            } else if day_then_number(n@, "jueves"@) {
                assert(is_day("jueves"@));
            } else if day_then_number(n@, "viernes"@) {
                assert(is_day("viernes"@));
            } else if day_then_number(n@, "sabado"@) {
                assert(is_day("sabado"@));
            } else {
                assert(is_day("domingo"@));
            }
        }
    }
    r
}

// ---------------------------------------------------------------------------
// File names: extension and stem, as `std::path::Path` takes them apart.
// ---------------------------------------------------------------------------

/// Position of the last '.' in `s`, or -1 when there is none.
pub open spec fn last_dot(s: Seq<char>) -> int
    decreases s.len(),
{
    if s.len() == 0 {
        -1
    } else if s.last() == '.' {
        s.len() - 1
    } else {
        last_dot(s.drop_last())
    }
}

/// A name with no extension: no '.', a single leading '.', or "..".
pub open spec fn no_extension(name: Seq<char>) -> bool {
    name == ".."@ || last_dot(name) <= 0
}

/// `Path::extension` of a file name: what follows the last '.', when there is one
/// and the name is not a dot file.
pub open spec fn extension_of(name: Seq<char>) -> Option<Seq<char>> {
    if no_extension(name) {
        None
    } else {
        Some(name.skip(last_dot(name) + 1))
    }
}

/// `Path::file_stem` of a file name: the name without its extension.
pub open spec fn stem_of(name: Seq<char>) -> Seq<char> {
    if no_extension(name) {
        name
    } else {
        name.take(last_dot(name))
    }
}

proof fn lemma_last_dot(s: Seq<char>, i: int)
    requires
        0 <= i <= s.len(),
        forall|q: int| i <= q < s.len() ==> s[q] != '.',
    ensures
        last_dot(s) == last_dot(s.take(i)),
    decreases s.len() - i,
{
    if i == s.len() {
        assert(s.take(i) =~= s);
    } else {
        lemma_last_dot(s.drop_last(), i);
        assert(s.drop_last().take(i) =~= s.take(i));
    }
}

fn find_last_dot(s: &[char]) -> (r: usize)
    ensures
        r <= s@.len(),
        last_dot(s@) == r - 1,
{
    let mut i: usize = s.len();
    while i > 0 && s[i - 1] != '.'
        invariant
            i <= s@.len(),
            forall|q: int| i <= q < s@.len() ==> s@[q] != '.',
        decreases i,
    {
        i = i - 1;
    }
    proof {
        lemma_last_dot(s@, i as int);
        if i > 0 {
            assert(s@.take(i as int).drop_last() =~= s@.take(i - 1));
        }
    }
    i
}

fn is_dot_dot(s: &[char]) -> (r: bool)
    ensures
        r == (s@ == ".."@),
{
    proof {
        reveal_strlit("..");
    }
    let r = s.len() == 2 && s[0] == '.' && s[1] == '.';
    assert(r ==> s@ =~= ".."@);
    r
}

/// Splits a file name into stem and extension.
fn split_name(name: &str) -> (r: (Vec<char>, Option<Vec<char>>))
    ensures
        r.0@ == stem_of(name@),
        match r.1 {
            Some(e) => extension_of(name@) == Some(e@),
            None => extension_of(name@) is None,
        },
{
    let cs = chars_of(name);
    let k = find_last_dot(cs.as_slice());
    if is_dot_dot(cs.as_slice()) || k <= 1 {
        (cs, None)
    } else {
        let stem = copy_range(cs.as_slice(), 0, k - 1);
        let ext = copy_range(cs.as_slice(), k, cs.len());
        assert(stem@ =~= name@.take(k - 1));
        assert(ext@ =~= name@.skip(k as int));
        (stem, Some(ext))
    }
}

/// The file in which the transcript of a recording is kept, next to it: the
/// recording's stem (or "audio" when there is no file name) and ".transcripcion.json".
pub open spec fn result_name(file_name: Option<Seq<char>>) -> Seq<char> {
    match file_name {
        Some(n) => stem_of(n) + ".transcripcion.json"@,
        None => "audio.transcripcion.json"@,
    }
}

/// Name of the file that keeps the transcript of the recording `file_name`.
pub fn result_file_name(file_name: Option<&str>) -> (r: String)
    ensures
        r@ == result_name(
            match file_name {
                Some(n) => Some(n@),
                None => None,
            },
        ),
{
    match file_name {
        Some(n) => {
            let (mut stem, _) = split_name(n);
            push_str(&mut stem, ".transcripcion.json");
            string_of(stem.as_slice())
        },
        None => {
            let mut v: Vec<char> = Vec::new();
            push_str(&mut v, "audio.transcripcion.json");
            string_of(v.as_slice())
        },
    }
}

// ---------------------------------------------------------------------------
// Extensions.
// ---------------------------------------------------------------------------

/// Extensions shown as openable recordings (audio and video).
pub open spec fn audio_ext(e: Seq<char>) -> bool {
    ||| e == "mp3"@
    ||| e == "wav"@
    ||| e == "m4a"@
    ||| e == "mp4"@
    ||| e == "aac"@
    ||| e == "ogg"@
    ||| e == "oga"@
    ||| e == "opus"@
    ||| e == "flac"@
    ||| e == "wma"@
    ||| e == "amr"@
    ||| e == "3gp"@
    ||| e == "aiff"@
    ||| e == "webm"@
    ||| e == "mkv"@
    ||| e == "avi"@
    ||| e == "mov"@
}

fn in_audio_list(e: &[char]) -> (r: bool)
    ensures
        r == audio_ext(e@),
{
    same_as_str(e, "mp3") || same_as_str(e, "wav") || same_as_str(e, "m4a") || same_as_str(e, "mp4")
        || same_as_str(e, "aac") || same_as_str(e, "ogg") || same_as_str(e, "oga") || same_as_str(
        e,
        "opus",
    ) || same_as_str(e, "flac") || same_as_str(e, "wma") || same_as_str(e, "amr") || same_as_str(
        e,
        "3gp",
    ) || same_as_str(e, "aiff") || same_as_str(e, "webm") || same_as_str(e, "mkv") || same_as_str(
        e,
        "avi",
    ) || same_as_str(e, "mov")
}

/// A file name whose extension, in lowercase, is one of the recording extensions.
pub open spec fn recording_name(name: Seq<char>) -> bool {
    match extension_of(name) {
        Some(e) => audio_ext(lower_text(e)),
        None => false,
    }
}

/// Is the file a recording, going by its extension?
pub fn es_audio(file_name: &str) -> (r: bool)
    ensures
        r == recording_name(file_name@),
{
    let (_, ext) = split_name(file_name);
    match ext {
        Some(e) => {
            let low = text_to_lowercase(e.as_slice());
            in_audio_list(low.as_slice())
        },
        None => false,
    }
}

/// Extensions that the interface's player plays without help.
pub open spec fn playable_ext(e: Seq<char>) -> bool {
    ||| e == "mp3"@
    ||| e == "m4a"@
    ||| e == "mp4"@
    ||| e == "aac"@
    ||| e == "wav"@
    ||| e == "ogg"@
    ||| e == "oga"@
    ||| e == "opus"@
    ||| e == "webm"@
    ||| e == "flac"@
}

/// A recording the player can open as it is.
pub open spec fn plays_as_is(name: Seq<char>) -> bool {
    match extension_of(name) {
        Some(e) => playable_ext(lower_text(e)),
        None => false,
    }
}

/// Can the player open this recording as it is, or does it need a converted copy?
pub fn plays_directly(file_name: &str) -> (r: bool)
    ensures
        r == plays_as_is(file_name@),
{
    let (_, ext) = split_name(file_name);
    match ext {
        Some(e) => {
            let low = text_to_lowercase(e.as_slice());
            let e = low.as_slice();
            same_as_str(e, "mp3") || same_as_str(e, "m4a") || same_as_str(e, "mp4")
                || same_as_str(e, "aac") || same_as_str(e, "wav") || same_as_str(e, "ogg")
                || same_as_str(e, "oga") || same_as_str(e, "opus") || same_as_str(e, "webm")
                || same_as_str(e, "flac")
        },
        None => false,
    }
}

/// Name of the converted copy that the player opens in place of a recording it
/// cannot play: the recording's stem (or "audio") with the extension ".m4a".
pub fn playback_file_name(file_name: Option<&str>) -> (r: String)
    ensures
        r@ == match file_name {
            Some(n) => stem_of(n@) + ".m4a"@,
            None => "audio.m4a"@,
        },
{
    match file_name {
        Some(n) => {
            let (mut stem, _) = split_name(n);
            push_str(&mut stem, ".m4a");
            string_of(stem.as_slice())
        },
        None => {
            let mut v: Vec<char> = Vec::new();
            push_str(&mut v, "audio.m4a");
            string_of(v.as_slice())
        },
    }
}

/// The recording extensions, in the order a file dialog lists them.
pub fn audio_extensions() -> (r: Vec<&'static str>)
    ensures
        r@.len() == 17,
        forall|k: int| 0 <= k < r@.len() ==> audio_ext(#[trigger] r@[k]@),
        forall|e: Seq<char>| audio_ext(e) ==> exists|k: int| 0 <= k < r@.len() && #[trigger] r@[k]@ == e,
{
    let v: Vec<&'static str> = vec![
        "mp3", "wav", "m4a", "mp4", "aac", "ogg", "oga", "opus", "flac", "wma", "amr", "3gp", "aiff", "webm", "mkv", "avi", "mov",
    ];
    assert(v@[0]@ == "mp3"@);
    assert(v@[1]@ == "wav"@);
    assert(v@[2]@ == "m4a"@);
    assert(v@[3]@ == "mp4"@);
    assert(v@[4]@ == "aac"@);
    assert(v@[5]@ == "ogg"@);
    assert(v@[6]@ == "oga"@);
    assert(v@[7]@ == "opus"@);
    assert(v@[8]@ == "flac"@);
    assert(v@[9]@ == "wma"@);
    assert(v@[10]@ == "amr"@);
    assert(v@[11]@ == "3gp"@);
    assert(v@[12]@ == "aiff"@);
    assert(v@[13]@ == "webm"@);
    assert(v@[14]@ == "mkv"@);
    assert(v@[15]@ == "avi"@);
    assert(v@[16]@ == "mov"@);
    assert forall|e: Seq<char>| audio_ext(e) implies exists|k: int| 0 <= k < v@.len() && #[trigger] v@[k]@ == e by {
        if e == "mp3"@ {
            assert(v@[0]@ == e);
        } else if e == "wav"@ {
            assert(v@[1]@ == e);
        } else if e == "m4a"@ {
            assert(v@[2]@ == e);
        } else if e == "mp4"@ {
            assert(v@[3]@ == e);
        } else if e == "aac"@ {
            assert(v@[4]@ == e);
        } else if e == "ogg"@ {
            assert(v@[5]@ == e);
        } else if e == "oga"@ {
            assert(v@[6]@ == e);
        } else if e == "opus"@ {
            assert(v@[7]@ == e);
        } else if e == "flac"@ {
            assert(v@[8]@ == e);
        } else if e == "wma"@ {
            assert(v@[9]@ == e);
        } else if e == "amr"@ {
            assert(v@[10]@ == e);
        } else if e == "3gp"@ {
            assert(v@[11]@ == e);
        } else if e == "aiff"@ {
            assert(v@[12]@ == e);
        } else if e == "webm"@ {
            assert(v@[13]@ == e);
        } else if e == "mkv"@ {
            assert(v@[14]@ == e);
        } else if e == "avi"@ {
            assert(v@[15]@ == e);
        } else if e == "mov"@ {
            assert(v@[16]@ == e);
        }
    }
    v
}

/// Where the browser's base folder is looked for under the user's home when none
/// was chosen, in order of preference: the work folder on the desktop (English,
/// Spanish or synced desktop), then the desktop itself.
pub fn root_candidates() -> (r: Vec<&'static str>)
    ensures
        r@.len() == 5,
        r@[0]@ == "Desktop/GoGlobal"@,
        r@[1]@ == "Escritorio/GoGlobal"@,
        r@[2]@ == "OneDrive/Desktop/GoGlobal"@,
        r@[3]@ == "Desktop"@,
        r@[4]@ == "Escritorio"@,
{
    vec!["Desktop/GoGlobal", "Escritorio/GoGlobal", "OneDrive/Desktop/GoGlobal", "Desktop", "Escritorio"]
}


// ---------------------------------------------------------------------------
// One folder's listing.
// ---------------------------------------------------------------------------

/// A subfolder, as the browser shows it.
pub struct FolderEntry {
    pub name: String,
    pub path: String,
    /// The name looks like a working day («Lunes 3»).
    pub workday: bool,
    /// Seconds since the epoch of the last change; working days go from newest to oldest.
    pub modified: u64,
}

/// A recording, as the browser shows it.
pub struct AudioEntry {
    pub name: String,
    pub path: String,
    pub size: u64,
    /// A transcript is already saved next to it.
    pub done: bool,
}

/// What the browser shows of one folder.
pub struct Listing {
    pub path: String,
    pub parent: Option<String>,
    pub folders: Vec<FolderEntry>,
    pub audios: Vec<AudioEntry>,
    /// How many recordings there really are, in case the list was cut.
    pub total_audios: usize,
    /// Some subfolder has a working-day name.
    pub has_workdays: bool,
}

/// Settings that survive between sessions.
pub struct Settings {
    /// Base folder of the browser.
    pub root: Option<String>,
}

impl Default for Settings {
    fn default() -> (r: Settings)
        ensures
            r.root is None,
    {
        Settings { root: None }
    }
}

/// One entry of a folder as read from disk: its name, its path, whether it is a
/// folder, when it last changed, its size, and whether its transcript file exists.
pub struct EntryInfo {
    pub name: String,
    pub path: String,
    pub is_dir: bool,
    pub modified: u64,
    pub size: u64,
    pub done: bool,
}

/// Working-day folders come first, the most recently changed on top (by name when
/// they changed at the same time); the other folders follow, by name without case or
/// accents.
pub open spec fn folder_lt(a: FolderEntry, b: FolderEntry) -> bool {
    let name_lt = lex_lt(folded_name(a.name@), folded_name(b.name@));
    ||| a.workday && !b.workday
    ||| a.workday && b.workday && (a.modified > b.modified || (a.modified == b.modified
        && name_lt))
    ||| !a.workday && !b.workday && name_lt
}

/// Recordings are listed by name without case or accents.
pub open spec fn audio_lt(a: AudioEntry, b: AudioEntry) -> bool {
    lex_lt(folded_name(a.name@), folded_name(b.name@))
}

fn name_before(a: &String, b: &String) -> (r: bool)
    ensures
        r == lex_lt(folded_name(a@), folded_name(b@)),
{
    let x = chars_of(a.as_str());
    let y = chars_of(b.as_str());
    let fx = fold_name(x.as_slice());
    let fy = fold_name(y.as_slice());
    lex_less(fx.as_slice(), fy.as_slice())
}

impl Ranked for FolderEntry {
    open spec fn before(a: FolderEntry, b: FolderEntry) -> bool {
        folder_lt(a, b)
    }

    fn comes_before(&self, other: &FolderEntry) -> (r: bool) {
        if self.workday != other.workday {
            self.workday
        } else if self.workday && self.modified != other.modified {
            self.modified > other.modified
        } else {
            name_before(&self.name, &other.name)
        }
    }
}

impl Ranked for AudioEntry {
    open spec fn before(a: AudioEntry, b: AudioEntry) -> bool {
        audio_lt(a, b)
    }

    fn comes_before(&self, other: &AudioEntry) -> (r: bool) {
        name_before(&self.name, &other.name)
    }
}

/// A hidden entry: its name starts with '.'.
pub open spec fn hidden(name: Seq<char>) -> bool {
    name.len() > 0 && name[0] == '.'
}

fn is_hidden(name: &str) -> (r: bool)
    ensures
        r == hidden(name@),
{
    let cs = chars_of(name);
    cs.len() > 0 && cs[0] == '.'
}

pub open spec fn folder_of(e: EntryInfo) -> FolderEntry {
    FolderEntry { name: e.name, path: e.path, workday: workday_name(e.name@), modified: e.modified }
}

pub open spec fn audio_of(e: EntryInfo) -> AudioEntry {
    AudioEntry { name: e.name, path: e.path, size: e.size, done: e.done }
}

/// The visible subfolders among `s`, in the order read.
pub open spec fn folders_of(s: Seq<EntryInfo>) -> Seq<FolderEntry>
    decreases s.len(),
{
    if s.len() == 0 {
        seq![]
    } else if s.last().is_dir && !hidden(s.last().name@) {
        folders_of(s.drop_last()).push(folder_of(s.last()))
    } else {
        folders_of(s.drop_last())
    }
}

/// The recordings among `s`, in the order read.
pub open spec fn audios_of(s: Seq<EntryInfo>) -> Seq<AudioEntry>
    decreases s.len(),
{
    if s.len() == 0 {
        seq![]
    } else if !s.last().is_dir && recording_name(s.last().name@) {
        audios_of(s.drop_last()).push(audio_of(s.last()))
    } else {
        audios_of(s.drop_last())
    }
}

/// The first `n` elements of `s`, or all of them when there are fewer.
pub open spec fn first_n<T>(s: Seq<T>, n: nat) -> Seq<T> {
    if s.len() <= n {
        s
    } else {
        s.take(n as int)
    }
}

/// Puts together what the browser shows of the folder `path`, whose entries, in the
/// order read, are `entries`. Only that folder is looked at: never its subfolders.
pub fn arrange(path: String, parent: Option<String>, entries: &Vec<EntryInfo>) -> (r: Listing)
    ensures
        r.path == path,
        r.parent == parent,
        r.folders@ == sort_by(folders_of(entries@), ranked::<FolderEntry>()),
        r.audios@ == sort_by(first_n(audios_of(entries@), TOPE as nat), ranked::<AudioEntry>()),
        r.total_audios == audios_of(entries@).len(),
        r.has_workdays == exists|k: int| 0 <= k < r.folders@.len() && (#[trigger] r.folders@[k]).workday,
{
    let mut folders: Vec<FolderEntry> = Vec::new();
    let mut audios: Vec<AudioEntry> = Vec::new();
    let mut total_audios: usize = 0;
    let mut i: usize = 0;
    assert(entries@.take(0) =~= Seq::<EntryInfo>::empty());
    while i < entries.len()
        invariant
            i <= entries@.len(),
            folders@ == folders_of(entries@.take(i as int)),
            audios@ == first_n(audios_of(entries@.take(i as int)), TOPE as nat),
            total_audios == audios_of(entries@.take(i as int)).len(),
            total_audios <= i,
        decreases entries.len() - i,
    {
        let e = &entries[i];
        assert(entries@.take(i + 1).drop_last() =~= entries@.take(i as int));
        assert(entries@.take(i + 1).last() == entries@[i as int]);
        let hidden_name = is_hidden(e.name.as_str());
        if e.is_dir {
            if !hidden_name {
                let workday = es_jornada(e.name.as_str());
                folders.push(
                    FolderEntry {
                        name: e.name.clone(),
                        path: e.path.clone(),
                        workday,
                        modified: e.modified,
                    },
                );
            }
        } else if es_audio(e.name.as_str()) {
            total_audios = total_audios + 1;
            if audios.len() < TOPE {
                audios.push(
                    AudioEntry {
                        name: e.name.clone(),
                        path: e.path.clone(),
                        size: e.size,
                        done: e.done,
                    },
                );
                assert(audios@ =~= first_n(audios_of(entries@.take(i + 1)), TOPE as nat));
            } else {
                assert(audios_of(entries@.take(i + 1)).take(TOPE as int) =~= audios_of(
                    entries@.take(i as int),
                ).take(TOPE as int));
            }
        }
        i = i + 1;
    }
    assert(entries@.take(entries@.len() as int) =~= entries@);
    let folders = sort_ranked(folders);
    let audios = sort_ranked(audios);
    let mut has_workdays = false;
    let mut k: usize = 0;
    while k < folders.len()
        invariant
            k <= folders@.len(),
            has_workdays == exists|q: int| 0 <= q < k && (#[trigger] folders@[q]).workday,
        decreases folders.len() - k,
    {
        if folders[k].workday {
            has_workdays = true;
        }
        k = k + 1;
    }
    let ghost fs = folders@;
    let r = Listing { path, parent, folders, audios, total_audios, has_workdays };
    assert(r.folders@ == fs);
    assert(has_workdays ==> exists|q: int| 0 <= q < r.folders@.len() && (#[trigger] r.folders@[q]).workday);
    r
}

// ---------------------------------------------------------------------------
// Laws of the listing.
// ---------------------------------------------------------------------------

proof fn lemma_folder_order()
    ensures
        strict_weak(ranked::<FolderEntry>()),
{
    let lt = ranked::<FolderEntry>();
    assert forall|a: FolderEntry| !(#[trigger] lt(a, a)) by {
        law_lex_order(folded_name(a.name@), folded_name(a.name@), folded_name(a.name@));
    }
    assert forall|a: FolderEntry, b: FolderEntry, c: FolderEntry|
        #[trigger] lt(a, b) && #[trigger] lt(b, c) implies lt(a, c) by {
        law_lex_order(folded_name(a.name@), folded_name(b.name@), folded_name(c.name@));
    }
    assert forall|a: FolderEntry, b: FolderEntry, c: FolderEntry|
        !(#[trigger] lt(a, b)) && !(#[trigger] lt(b, c)) implies !lt(a, c) by {
        let (x, y, z) = (folded_name(a.name@), folded_name(b.name@), folded_name(c.name@));
        law_lex_order(x, y, z);
        law_lex_order(y, x, z);
        law_lex_order(z, y, x);
        law_lex_order(x, z, y);
        law_lex_order(y, z, x);
        law_lex_order(z, x, y);
    }
}

proof fn lemma_audio_order()
    ensures
        strict_weak(ranked::<AudioEntry>()),
{
    let lt = ranked::<AudioEntry>();
    assert forall|a: AudioEntry| !(#[trigger] lt(a, a)) by {
        law_lex_order(folded_name(a.name@), folded_name(a.name@), folded_name(a.name@));
    }
    assert forall|a: AudioEntry, b: AudioEntry, c: AudioEntry|
        #[trigger] lt(a, b) && #[trigger] lt(b, c) implies lt(a, c) by {
        law_lex_order(folded_name(a.name@), folded_name(b.name@), folded_name(c.name@));
    }
    assert forall|a: AudioEntry, b: AudioEntry, c: AudioEntry|
        !(#[trigger] lt(a, b)) && !(#[trigger] lt(b, c)) implies !lt(a, c) by {
        let (x, y, z) = (folded_name(a.name@), folded_name(b.name@), folded_name(c.name@));
        law_lex_order(x, y, z);
        law_lex_order(y, x, z);
        law_lex_order(z, y, x);
        law_lex_order(x, z, y);
        law_lex_order(y, z, x);
        law_lex_order(z, x, y);
    }
}

proof fn lemma_folders_visible(s: Seq<EntryInfo>)
    ensures
        forall|k: int|
            0 <= k < folders_of(s).len() ==> !hidden((#[trigger] folders_of(s)[k]).name@)
                && folders_of(s)[k].workday == workday_name(folders_of(s)[k].name@),
    decreases s.len(),
{
    if s.len() > 0 {
        lemma_folders_visible(s.drop_last());
        let prev = folders_of(s.drop_last());
        assert forall|k: int| 0 <= k < folders_of(s).len() implies !hidden(
            (#[trigger] folders_of(s)[k]).name@,
        ) && folders_of(s)[k].workday == workday_name(folders_of(s)[k].name@) by {
            if k < prev.len() {
                assert(folders_of(s)[k] == prev[k]);
            }
        }
    }
}

/// Law of the folder listing: the folders shown are those read, each once, none
/// hidden; working days come before any other folder, the most recently changed
/// first; the other folders follow in order of name without case or accents.
pub proof fn law_folders_listed(entries: Seq<EntryInfo>)
    ensures
        ({
            let f = sort_by(folders_of(entries), ranked::<FolderEntry>());
            &&& f.to_multiset() == folders_of(entries).to_multiset()
            &&& forall|k: int| 0 <= k < f.len() ==> !hidden((#[trigger] f[k]).name@)
                && f[k].workday == workday_name(f[k].name@)
            &&& forall|i: int, j: int|
                0 <= i < j < f.len() && (#[trigger] f[j]).workday ==> (#[trigger] f[i]).workday
            &&& forall|i: int, j: int|
                0 <= i < j < f.len() && (#[trigger] f[i]).workday && (#[trigger] f[j]).workday
                    ==> f[i].modified >= f[j].modified
            &&& forall|i: int, j: int|
                0 <= i < j < f.len() && !(#[trigger] f[i]).workday && !(#[trigger] f[j]).workday
                    ==> !lex_lt(folded_name(f[j].name@), folded_name(f[i].name@))
        }),
{
    let lt = ranked::<FolderEntry>();
    let f = sort_by(folders_of(entries), lt);
    lemma_folder_order();
    law_sort_by(folders_of(entries), lt);
    lemma_folders_visible(entries);
    f.to_multiset_ensures();
    folders_of(entries).to_multiset_ensures();
    assert forall|k: int| 0 <= k < f.len() implies !hidden((#[trigger] f[k]).name@)
        && f[k].workday == workday_name(f[k].name@) by {
        let g = folders_of(entries);
        assert(f.contains(f[k]));
        assert(f.to_multiset().count(f[k]) > 0);
        assert(g.to_multiset().count(f[k]) > 0);
        assert(g.contains(f[k]));
        let j = choose|j: int| 0 <= j < g.len() && g[j] == f[k];
        assert(!hidden(g[j].name@));
    }
    assert forall|i: int, j: int|
        0 <= i < j < f.len() && (#[trigger] f[j]).workday implies (#[trigger] f[i]).workday by {
        assert(!lt(f[j], f[i]));
    }
    assert forall|i: int, j: int|
        0 <= i < j < f.len() && (#[trigger] f[i]).workday && (#[trigger] f[j]).workday
        implies f[i].modified >= f[j].modified by {
        assert(!lt(f[j], f[i]));
    }
    assert forall|i: int, j: int|
        0 <= i < j < f.len() && !(#[trigger] f[i]).workday && !(#[trigger] f[j]).workday
        implies !lex_lt(folded_name(f[j].name@), folded_name(f[i].name@)) by {
        assert(!lt(f[j], f[i]));
    }
}

/// Law of the recordings listing: at most `TOPE` recordings are shown, the first
/// ones read, each once, ordered by name without case or accents; the total counts
/// them all.
pub proof fn law_audios_listed(entries: Seq<EntryInfo>)
    ensures
        ({
            let all = audios_of(entries);
            let a = sort_by(first_n(all, TOPE as nat), ranked::<AudioEntry>());
            &&& a.len() <= TOPE
            &&& a.len() <= all.len()
            &&& a.len() == all.len() || a.len() == TOPE
            &&& a.to_multiset() == first_n(all, TOPE as nat).to_multiset()
            &&& forall|i: int, j: int|
                0 <= i < j < a.len() ==> !lex_lt(
                    folded_name((#[trigger] a[j]).name@),
                    folded_name((#[trigger] a[i]).name@),
                )
        }),
{
    let lt = ranked::<AudioEntry>();
    let all = audios_of(entries);
    let a = sort_by(first_n(all, TOPE as nat), lt);
    lemma_audio_order();
    law_sort_by(first_n(all, TOPE as nat), lt);
    first_n(all, TOPE as nat).to_multiset_ensures();
    a.to_multiset_ensures();
    assert forall|i: int, j: int| 0 <= i < j < a.len() implies !lex_lt(
        folded_name((#[trigger] a[j]).name@),
        folded_name((#[trigger] a[i]).name@),
    ) by {
        assert(!lt(a[j], a[i]));
    }
}

} // verus!
