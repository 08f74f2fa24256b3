use vstd::prelude::*;
use vstd::string::*;

use crate::keywords::{Keyword, Lookup};
use crate::table::{
    abbrev_views, all_plain, choices_of, compile, compiled, entry_views, first_slots_plain,
    keys_plain, lemma_compiled_plain, starts_plain, slot_views, table_ok, Abbreviation, Entry,
    KeywordTable, Slot, SlotView,
};

verus! {

const MOVE: usize = 0;
const FORWARD: usize = 1;
const BACKWARD: usize = 2;
const ROTATE: usize = 3;
const LEFT: usize = 4;
const RIGHT: usize = 5;
const ARM: usize = 6;
const FRONT: usize = 7;
const BACK: usize = 8;
const UP: usize = 9;
const DOWN: usize = 10;
const ABBREVIATIONS: usize = 11;

/// A group of slots, each any variant of the abbreviation with that index.
pub open spec fn abbrev_refs(ids: Seq<int>) -> Seq<SlotView> {
    ids.map_values(|i: int| SlotView::Abbrev(i))
}

/// One group of one word for each of `ws`.
pub open spec fn one_word_groups(ws: Seq<Seq<char>>) -> Seq<Seq<SlotView>> {
    ws.map_values(|w: Seq<char>| seq![SlotView::Word(w)])
}

/// The abbreviations of the language: move, forward, backward, rotate, left,
/// right, arm, front, back, up, down.
pub open spec fn standard_abbreviations() -> Seq<Seq<Seq<char>>> {
    seq![
        seq!["move"@, "mv"@, "go"@, "drive"@],
        seq!["forward"@, "forwards"@, "fwd"@, "ahead"@],
        seq!["backward"@, "backwards"@, "back"@, "bwd"@],
        seq!["rotate"@, "rot"@, "turn"@],
        seq!["left"@, "lt"@],
        seq!["right"@, "rt"@],
        seq!["arm"@],
        seq!["front"@, "fr"@],
        seq!["back"@, "bk"@, "rear"@],
        seq!["up"@, "raise"@],
        seq!["down"@, "lower"@],
    ]
}

/// The keywords of the language, each with its groups of slots.
pub open spec fn standard_entries() -> Seq<(Keyword, Seq<Seq<SlotView>>)> {
    seq![
        (Keyword::MoveForward, seq![abbrev_refs(seq![0, 1])]),
        (Keyword::MoveBackward, seq![abbrev_refs(seq![0, 2])]),
        (Keyword::RotateLeft, seq![abbrev_refs(seq![3, 4])]),
        (Keyword::RotateRight, seq![abbrev_refs(seq![3, 5])]),
        (Keyword::ArmFrontUp, seq![abbrev_refs(seq![7, 6, 9]), abbrev_refs(seq![6, 7, 9])]),
        (Keyword::ArmFrontDown, seq![abbrev_refs(seq![7, 6, 10]), abbrev_refs(seq![6, 7, 10])]),
        (Keyword::ArmBackUp, seq![abbrev_refs(seq![8, 6, 9]), abbrev_refs(seq![6, 8, 9])]),
        (Keyword::ArmBackDown, seq![abbrev_refs(seq![8, 6, 10]), abbrev_refs(seq![6, 8, 10])]),
        (Keyword::Debug, one_word_groups(seq!["debug"@])),
        (Keyword::Then, one_word_groups(seq!["then"@, ";"@])),
        (
            Keyword::Cm,
            one_word_groups(
                seq!["cm"@, "centimeters"@, "centimeter"@, "centimetres"@, "centimetre"@],
            ),
        ),
        (Keyword::In, one_word_groups(seq!["in"@, "inches"@, "inch"@])),
        (Keyword::Deg, one_word_groups(seq!["deg"@, "degrees"@, "degree"@])),
        (Keyword::Rad, one_word_groups(seq!["rad"@, "radians"@, "radian"@])),
    ]
}

/// The literals of the language, each with the keyword it stands for.
pub open spec fn standard_keywords() -> Map<Seq<char>, Keyword> {
    compiled(standard_abbreviations(), standard_entries())
}

pub open spec fn ints(v: Seq<usize>) -> Seq<int> {
    v.map_values(|i: usize| i as int)
}

/// The language has finitely many literals.
pub proof fn lemma_standard_keywords_finite()
    ensures
        standard_keywords().dom().finite(),
{
    crate::table::lemma_compiled_finite(standard_abbreviations(), standard_entries());
}

/// No literal of the language starts with a digit, `#` or a line break, so the
/// lexer's longest-match law applies to all of them.
pub proof fn lemma_standard_keywords_plain()
    ensures
        keys_plain(standard_keywords()),
{
    reveal_strlit("move");
    reveal_strlit("mv");
    reveal_strlit("go");
    reveal_strlit("drive");
    reveal_strlit("rotate");
    reveal_strlit("rot");
    reveal_strlit("turn");
    reveal_strlit("front");
    reveal_strlit("fr");
    reveal_strlit("arm");
    reveal_strlit("back");
    reveal_strlit("bk");
    reveal_strlit("rear");
    reveal_strlit("debug");
    reveal_strlit("then");
    reveal_strlit(";");
    reveal_strlit("cm");
    reveal_strlit("centimeters");
    reveal_strlit("centimeter");
    reveal_strlit("centimetres");
    reveal_strlit("centimetre");
    reveal_strlit("in");
    reveal_strlit("inches");
    reveal_strlit("inch");
    reveal_strlit("deg");
    reveal_strlit("degrees");
    reveal_strlit("degree");
    reveal_strlit("rad");
    reveal_strlit("radians");
    reveal_strlit("radian");
    let av = standard_abbreviations();
    let es = standard_entries();
    assert forall|e: int| 0 <= e < es.len() implies first_slots_plain(av, #[trigger] es[e].1) by {
        assert forall|g: int| 0 <= g < es[e].1.len() && #[trigger] es[e].1[g].len() > 0 implies all_plain(
            choices_of(av, es[e].1[g][0]),
        ) by {
            let c = choices_of(av, es[e].1[g][0]);
            assert forall|i: int| 0 <= i < c.len() implies starts_plain(#[trigger] c[i]) by {}
        }
    }
    lemma_compiled_plain(av, es);
}

pub open spec fn str_views(v: Seq<&str>) -> Seq<Seq<char>> {
    v.map_values(|s: &str| s@)
}

/// Every reference of `e` is below `n`.
pub open spec fn entry_refs_below(e: Entry, n: nat) -> bool {
    forall|g: int, s: int|
        0 <= g < e.groups@.len() && 0 <= s < e.groups@[g]@.len() ==> (
        #[trigger] e.groups@[g]@[s] matches Slot::Abbrev(i) ==> i < n)
}

fn strings(list: Vec<&str>) -> (r: Vec<String>)
    ensures
        r@.map_values(|v: String| v@) == str_views(list@),
{
    let mut r: Vec<String> = Vec::new();
    let mut k: usize = 0;
    while k < list.len()
        invariant
            0 <= k <= list@.len(),
            r@.map_values(|v: String| v@) == str_views(list@).take(k as int),
        decreases list@.len() - k,
    {
        let ghost before = r@;
        r.push(String::from_str(list[k]));
        assert(r@.map_values(|v: String| v@) =~= before.map_values(|v: String| v@).push(list@[k as int]@));
        assert(str_views(list@).take(k + 1) =~= str_views(list@).take(k as int).push(list@[k as int]@));
        k = k + 1;
    }
    assert(str_views(list@).take(list@.len() as int) =~= str_views(list@));
    r
}

fn abbreviation(abbrevs: &mut Vec<Abbreviation>, name: &str, variants: Vec<&str>)
    ensures
        final(abbrevs)@.len() == old(abbrevs)@.len() + 1,
        abbrev_views(final(abbrevs)@) == abbrev_views(old(abbrevs)@).push(str_views(variants@)),
{
    abbrevs.push(Abbreviation { name: String::from_str(name), variants: strings(variants) });
    assert(abbrev_views(abbrevs@) =~= abbrev_views(old(abbrevs)@).push(str_views(variants@)));
}

/// A group of slots, each any variant of the abbreviation with that index.
fn refs(ids: Vec<usize>) -> (r: Vec<Slot>)
    requires
        forall|k: int| 0 <= k < ids@.len() ==> #[trigger] ids@[k] < ABBREVIATIONS,
    ensures
        forall|s: int| 0 <= s < r@.len() ==> (#[trigger] r@[s] matches Slot::Abbrev(i) ==> i
            < ABBREVIATIONS),
        slot_views(r@) == abbrev_refs(ints(ids@)),
{
    let mut r: Vec<Slot> = Vec::new();
    let mut k: usize = 0;
    while k < ids.len()
        invariant
            0 <= k <= ids@.len(),
            forall|k: int| 0 <= k < ids@.len() ==> #[trigger] ids@[k] < ABBREVIATIONS,
            forall|s: int| 0 <= s < r@.len() ==> (#[trigger] r@[s] matches Slot::Abbrev(i) ==> i
                < ABBREVIATIONS),
            slot_views(r@) == abbrev_refs(ints(ids@)).take(k as int),
        decreases ids@.len() - k,
    {
        let ghost before = r@;
        r.push(Slot::Abbrev(ids[k]));
        assert(slot_views(r@) =~= slot_views(before).push(SlotView::Abbrev(ids@[k as int] as int)));
        assert(abbrev_refs(ints(ids@)).take(k + 1) =~= abbrev_refs(ints(ids@)).take(k as int).push(
            SlotView::Abbrev(ids@[k as int] as int),
        ));
        k = k + 1;
    }
    assert(abbrev_refs(ints(ids@)).take(ids@.len() as int) =~= abbrev_refs(ints(ids@)));
    r
}

/// Adds an entry for `kw` whose groups are `groups`.
fn entry(entries: &mut Vec<Entry>, kw: Keyword, groups: Vec<Vec<Slot>>)
    requires
        forall|i: int| 0 <= i < old(entries)@.len() ==> entry_refs_below(#[trigger] old(entries)@[i], ABBREVIATIONS as nat),
        forall|g: int, s: int|
            0 <= g < groups@.len() && 0 <= s < groups@[g]@.len() ==> (
            #[trigger] groups@[g]@[s] matches Slot::Abbrev(i) ==> i < ABBREVIATIONS),
    ensures
        forall|i: int| 0 <= i < final(entries)@.len() ==> entry_refs_below(#[trigger] final(entries)@[i], ABBREVIATIONS as nat),
        entry_views(final(entries)@) == entry_views(old(entries)@).push(
            (kw, groups@.map_values(|g: Vec<Slot>| slot_views(g@))),
        ),
{
    let ghost gv = groups@.map_values(|g: Vec<Slot>| slot_views(g@));
    let e = Entry { keyword: kw, groups };
    assert(entry_refs_below(e, ABBREVIATIONS as nat));
    entries.push(e);
    assert(forall|i: int| 0 <= i < old(entries)@.len() ==> final(entries)@[i] == old(entries)@[i]);
    assert(entry_views(entries@) =~= entry_views(old(entries)@).push((kw, gv)));
}

/// Adds an entry for `kw` with two groups of abbreviation references.
fn entry_refs(entries: &mut Vec<Entry>, kw: Keyword, first: Vec<usize>, second: Vec<usize>)
    requires
        forall|i: int| 0 <= i < old(entries)@.len() ==> entry_refs_below(#[trigger] old(entries)@[i], ABBREVIATIONS as nat),
        forall|k: int| 0 <= k < first@.len() ==> #[trigger] first@[k] < ABBREVIATIONS,
        forall|k: int| 0 <= k < second@.len() ==> #[trigger] second@[k] < ABBREVIATIONS,
    ensures
        forall|i: int| 0 <= i < final(entries)@.len() ==> entry_refs_below(#[trigger] final(entries)@[i], ABBREVIATIONS as nat),
        entry_views(final(entries)@) == entry_views(old(entries)@).push(
            (
                kw,
                if second@.len() == 0 {
                    seq![abbrev_refs(ints(first@))]
                } else {
                    seq![abbrev_refs(ints(first@)), abbrev_refs(ints(second@))]
                },
            ),
        ),
{
    let mut groups: Vec<Vec<Slot>> = Vec::new();
    groups.push(refs(first));
    if second.len() > 0 {
        groups.push(refs(second));
    }
    assert(groups@.map_values(|g: Vec<Slot>| slot_views(g@)) =~= if second@.len() == 0 {
        seq![abbrev_refs(ints(first@))]
    } else {
        seq![abbrev_refs(ints(first@)), abbrev_refs(ints(second@))]
    });
    entry(entries, kw, groups);
}

/// Adds an entry for `kw` with each of `words` as a one-word group.
fn entry_words(entries: &mut Vec<Entry>, kw: Keyword, words: Vec<&str>)
    requires
        forall|i: int| 0 <= i < old(entries)@.len() ==> entry_refs_below(#[trigger] old(entries)@[i], ABBREVIATIONS as nat),
    ensures
        forall|i: int| 0 <= i < final(entries)@.len() ==> entry_refs_below(#[trigger] final(entries)@[i], ABBREVIATIONS as nat),
        entry_views(final(entries)@) == entry_views(old(entries)@).push(
            (kw, one_word_groups(str_views(words@))),
        ),
{
    let ghost target = one_word_groups(str_views(words@));
    let mut groups: Vec<Vec<Slot>> = Vec::new();
    let mut k: usize = 0;
    while k < words.len()
        invariant
            0 <= k <= words@.len(),
            forall|g: int, s: int|
                0 <= g < groups@.len() && 0 <= s < groups@[g]@.len() ==> #[trigger] groups@[g]@[s] is Word,
            target == one_word_groups(str_views(words@)),
            groups@.map_values(|g: Vec<Slot>| slot_views(g@)) == target.take(k as int),
        decreases words@.len() - k,
    {
        let ghost before = groups@;
        let mut g: Vec<Slot> = Vec::new();
        g.push(Slot::Word(String::from_str(words[k])));
        assert(slot_views(g@) =~= seq![SlotView::Word(words@[k as int]@)]);
        groups.push(g);
        assert(groups@.map_values(|g: Vec<Slot>| slot_views(g@)) =~= before.map_values(
            |g: Vec<Slot>| slot_views(g@),
        ).push(seq![SlotView::Word(words@[k as int]@)]));
        assert(target.take(k + 1) =~= target.take(k as int).push(seq![SlotView::Word(words@[k as int]@)]));
        k = k + 1;
    }
    assert(target.take(words@.len() as int) =~= target);
    entry(entries, kw, groups);
}

/// The keyword table of the language.
pub fn standard_table() -> (r: KeywordTable)
    ensures
        table_ok(r),
        abbrev_views(r.abbreviations@) == standard_abbreviations(),
        entry_views(r.entries@) == standard_entries(),
{
    let mut a: Vec<Abbreviation> = Vec::new();
    abbreviation(&mut a, "move", vec!["move", "mv", "go", "drive"]);
    abbreviation(&mut a, "forward", vec!["forward", "forwards", "fwd", "ahead"]);
    abbreviation(&mut a, "backward", vec!["backward", "backwards", "back", "bwd"]);
    abbreviation(&mut a, "rotate", vec!["rotate", "rot", "turn"]);
    abbreviation(&mut a, "left", vec!["left", "lt"]);
    abbreviation(&mut a, "right", vec!["right", "rt"]);
    abbreviation(&mut a, "arm", vec!["arm"]);
    abbreviation(&mut a, "front", vec!["front", "fr"]);
    abbreviation(&mut a, "back", vec!["back", "bk", "rear"]);
    abbreviation(&mut a, "up", vec!["up", "raise"]);
    abbreviation(&mut a, "down", vec!["down", "lower"]);
    let mut e: Vec<Entry> = Vec::new();
    entry_refs(&mut e, Keyword::MoveForward, vec![MOVE, FORWARD], vec![]);
    entry_refs(&mut e, Keyword::MoveBackward, vec![MOVE, BACKWARD], vec![]);
    entry_refs(&mut e, Keyword::RotateLeft, vec![ROTATE, LEFT], vec![]);
    entry_refs(&mut e, Keyword::RotateRight, vec![ROTATE, RIGHT], vec![]);
    entry_refs(&mut e, Keyword::ArmFrontUp, vec![FRONT, ARM, UP], vec![ARM, FRONT, UP]);
    entry_refs(&mut e, Keyword::ArmFrontDown, vec![FRONT, ARM, DOWN], vec![ARM, FRONT, DOWN]);
    entry_refs(&mut e, Keyword::ArmBackUp, vec![BACK, ARM, UP], vec![ARM, BACK, UP]);
    entry_refs(&mut e, Keyword::ArmBackDown, vec![BACK, ARM, DOWN], vec![ARM, BACK, DOWN]);
    entry_words(&mut e, Keyword::Debug, vec!["debug"]);
    entry_words(&mut e, Keyword::Then, vec!["then", ";"]);
    entry_words(&mut e, Keyword::Cm, vec!["cm", "centimeters", "centimeter", "centimetres", "centimetre"]);
    entry_words(&mut e, Keyword::In, vec!["in", "inches", "inch"]);
    entry_words(&mut e, Keyword::Deg, vec!["deg", "degrees", "degree"]);
    entry_words(&mut e, Keyword::Rad, vec!["rad", "radians", "radian"]);
    assert(a@.len() == ABBREVIATIONS);
    assert(abbrev_views(a@) =~~= standard_abbreviations());
    assert(entry_views(e@) =~~= standard_entries());
    let r = KeywordTable { abbreviations: a, entries: e };
    assert forall|i: int, g: int, s: int|
        0 <= i < r.entries@.len() && 0 <= g < r.entries@[i].groups@.len() && 0 <= s
            < r.entries@[i].groups@[g]@.len() implies crate::table::slot_ok(
        r.abbreviations@,
        #[trigger] r.entries@[i].groups@[g]@[s],
    ) by {
        assert(entry_refs_below(r.entries@[i], ABBREVIATIONS as nat));
    }
    r
}

/// The lookup compiled from the language's keyword table.
pub fn standard_lookup() -> (r: Lookup)
    ensures
        r.wf(),
        r.view() == standard_keywords(),
{
    let t = standard_table();
    let r = compile(&t);
    // Every reference of the table resolves, so this is `Ok`.
    assert(r is Ok);
    match r {
        Ok(l) => l,
        Err(_) => Lookup::new(),
    }
}

} // verus!
