//! Names of the speakers: a name given by hand ("Cliente", "Abogada"...) or
//! "Hablante N".

use vstd::prelude::*;
use crate::text::{lemma_trim_idempotent, push_signed, push_str, signed_decimal, string_of, string_views, trim, trim_end, trim_start, trimmed_str};

verus! {

/// Where speaker `speaker`'s name is kept: negative numbers count as 0.
pub open spec fn name_slot(speaker: i32) -> int {
    if speaker < 0 {
        0
    } else {
        speaker as int
    }
}

/// Speaker `speaker` was given a name that is not blank.
pub open spec fn has_name(names: Seq<Seq<char>>, speaker: i32) -> bool {
    name_slot(speaker) < names.len() && trim(names[name_slot(speaker)]).len() > 0
}

/// How speaker `speaker` is called: the name given to it, or "Hablante N" with
/// N = speaker + 1.
pub open spec fn label_of(names: Seq<Seq<char>>, speaker: i32) -> Seq<char> {
    if has_name(names, speaker) {
        names[name_slot(speaker)]
    } else {
        "Hablante "@ + signed_decimal(speaker + 1)
    }
}

/// The names after speaker `index` is named `name`: the list grown with empty names
/// up to that speaker when too short, and `name` trimmed in its place.
pub open spec fn renamed(names: Seq<Seq<char>>, index: i32, name: Seq<char>) -> Seq<Seq<char>> {
    let i = name_slot(index);
    let grown = if names.len() <= i {
        names + Seq::new((i + 1 - names.len()) as nat, |_k: int| Seq::<char>::empty())
    } else {
        names
    };
    grown.update(i, trim(name))
}

/// How to call a speaker: the name it was given, or "Hablante N".
pub fn speaker_label(names: &[String], speaker: i32) -> (r: String)
    requires
        has_name(string_views(names@), speaker) || speaker < i32::MAX,
    ensures
        r@ == label_of(string_views(names@), speaker),
{
    let slot: usize = if speaker < 0 {
        0
    } else {
        speaker as usize
    };
    if slot < names.len() {
        let t = trimmed_str(names[slot].as_str());
        if t.len() > 0 {
            return names[slot].clone();
        }
    }
    let mut out: Vec<char> = Vec::new();
    push_str(&mut out, "Hablante ");
    push_signed(&mut out, speaker as i64 + 1);
    assert(out@ =~= label_of(string_views(names@), speaker));
    string_of(out.as_slice())
}

/// Gives speaker `index` the name `name`, trimmed. The list grows with empty names
/// up to that speaker when it is too short; no other name changes.
pub fn set_speaker_name(names: &mut Vec<String>, index: i32, name: &str)
    ensures
        string_views(final(names)@) == renamed(string_views(old(names)@), index, name@),
{
    let i: usize = if index < 0 {
        0
    } else {
        index as usize
    };
    if names.len() <= i {
        let blank = String::new();
        assert(blank@ == Seq::<char>::empty());
        names.resize(i + 1, blank);
        assert forall|k: int| old(names)@.len() <= k < names@.len() implies names@[k]@
            == Seq::<char>::empty() by {
            assert(cloned::<String>(blank, names@[k]));
        }
    }
    let ghost grown = names@;
    let t = trimmed_str(name);
    names.set(i, string_of(t.as_slice()));
    assert(string_views(names@) =~= renamed(string_views(old(names)@), index, name@)) by {
        let ng = string_views(grown);
        let rg = if string_views(old(names)@).len() <= name_slot(index) {
            string_views(old(names)@) + Seq::new(
                (name_slot(index) + 1 - old(names)@.len()) as nat,
                |_k: int| Seq::<char>::empty(),
            )
        } else {
            string_views(old(names)@)
        };
        assert forall|k: int| 0 <= k < ng.len() implies ng[k] == rg[k] by {
            if k < old(names)@.len() {
                assert(grown.subrange(0, old(names)@.len() as int)[k] == grown[k]);
            }
        }
        assert(ng =~= rg);
    }
}

/// Law: a speaker given a name is called by that name, trimmed; given a blank name,
/// it is called "Hablante N" again; every speaker kept elsewhere keeps its label.
pub proof fn law_naming(names: Seq<Seq<char>>, index: i32, name: Seq<char>, other: i32)
    ensures
        trim(name).len() > 0 ==> label_of(renamed(names, index, name), index) == trim(name),
        trim(name).len() == 0 ==> label_of(renamed(names, index, name), index) == "Hablante "@
            + signed_decimal(index + 1),
        name_slot(other) != name_slot(index) ==> label_of(renamed(names, index, name), other)
            == label_of(names, other),
{
    let r = renamed(names, index, name);
    lemma_trim_idempotent(name);
    assert(r[name_slot(index)] == trim(name));
    if name_slot(other) != name_slot(index) {
        let j = name_slot(other);
        if j < names.len() {
            assert(r[j] == names[j]);
        } else if j < r.len() {
            assert(r[j] == Seq::<char>::empty());
            assert(trim_end(trim_start(Seq::<char>::empty())) == Seq::<char>::empty());
        }
    }
}

} // verus!
