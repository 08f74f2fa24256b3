use vstd::prelude::*;

use crate::keywords::{Keyword, Lookup};
use crate::text::{chars_of, is_digit};

verus! {

/// One word position of a keyword spelling.
#[derive(Debug, Clone)]
pub enum Slot {
    /// A literal word.
    Word(String),
    /// Any variant of the abbreviation at this index.
    Abbrev(usize),
}

/// A set of variants that stand for one word; it is never a token by itself.
#[derive(Debug, Clone)]
pub struct Abbreviation {
    pub name: String,
    pub variants: Vec<String>,
}

/// A tokenizable keyword, with one or more groups of word slots.
#[derive(Debug, Clone)]
pub struct Entry {
    pub keyword: Keyword,
    pub groups: Vec<Vec<Slot>>,
}

/// The declarative keyword table.
#[derive(Debug, Clone)]
pub struct KeywordTable {
    pub abbreviations: Vec<Abbreviation>,
    pub entries: Vec<Entry>,
}

#[derive(Debug, Clone, Copy, PartialEq, Eq, Structural)]
pub enum TableError {
    /// A slot refers to an abbreviation index that the table does not have.
    DanglingReference(usize),
}

pub open spec fn slot_ok(abbrevs: Seq<Abbreviation>, s: Slot) -> bool {
    match s {
        Slot::Word(_) => true,
        Slot::Abbrev(i) => i < abbrevs.len(),
    }
}

/// Every reference of the table names one of its abbreviations.
pub open spec fn table_ok(t: KeywordTable) -> bool {
    forall|e: int, g: int, s: int|
        0 <= e < t.entries@.len() && 0 <= g < t.entries@[e].groups@.len() && 0 <= s
            < t.entries@[e].groups@[g]@.len() ==> slot_ok(
            t.abbreviations@,
            #[trigger] t.entries@[e].groups@[g]@[s],
        )
}

/// A slot, as a plain value.
pub enum SlotView {
    Word(Seq<char>),
    Abbrev(int),
}

pub open spec fn slot_view(s: Slot) -> SlotView {
    match s {
        Slot::Word(w) => SlotView::Word(w@),
        Slot::Abbrev(i) => SlotView::Abbrev(i as int),
    }
}

pub open spec fn slot_views(g: Seq<Slot>) -> Seq<SlotView> {
    g.map_values(|s: Slot| slot_view(s))
}

/// The variants of each abbreviation.
pub open spec fn abbrev_views(a: Seq<Abbreviation>) -> Seq<Seq<Seq<char>>> {
    a.map_values(|x: Abbreviation| x.variants@.map_values(|v: String| v@))
}

/// Each entry: its keyword and its groups of slots.
pub open spec fn entry_views(e: Seq<Entry>) -> Seq<(Keyword, Seq<Seq<SlotView>>)> {
    e.map_values(|x: Entry| (x.keyword, x.groups@.map_values(|g: Vec<Slot>| slot_views(g@))))
}

/// The words that a slot may stand for.
pub open spec fn choices_of(abbrevs: Seq<Seq<Seq<char>>>, s: SlotView) -> Seq<Seq<char>> {
    match s {
        SlotView::Word(w) => seq![w],
        SlotView::Abbrev(i) => abbrevs[i],
    }
}

/// The text between two words: nothing, a space, an underscore or a hyphen.
pub open spec fn delimiter(d: int) -> Seq<char> {
    if d == 1 {
        seq![' ']
    } else if d == 2 {
        seq!['_']
    } else if d == 3 {
        seq!['-']
    } else {
        seq![]
    }
}

pub open spec fn row(a: Seq<char>, d: int, cs: Seq<Seq<char>>) -> Seq<Seq<char>> {
    cs.map_values(|b: Seq<char>| a + delimiter(d) + b)
}

/// `a` followed by each of the first `n` delimiters and each word of `cs`.
pub open spec fn block(a: Seq<char>, cs: Seq<Seq<char>>, n: int) -> Seq<Seq<char>>
    decreases n,
{
    if n <= 0 {
        seq![]
    } else {
        block(a, cs, n - 1) + row(a, n - 1, cs)
    }
}

/// Each spelling of `cur`, followed by any delimiter and any word of `cs`.
pub open spec fn extend(cur: Seq<Seq<char>>, cs: Seq<Seq<char>>) -> Seq<Seq<char>>
    decreases cur.len(),
{
    if cur.len() == 0 {
        seq![]
    } else {
        extend(cur.drop_last(), cs) + block(cur.last(), cs, 4)
    }
}

/// Every spelling of a group of slots: one word per slot, and between two words
/// any of the four delimiters, chosen gap by gap.
pub open spec fn spellings(group: Seq<Seq<Seq<char>>>) -> Seq<Seq<char>>
    decreases group.len(),
{
    if group.len() == 0 {
        seq![]
    } else if group.len() == 1 {
        group[0]
    } else {
        extend(spellings(group.drop_last()), group.last())
    }
}

/// `m` with each non-empty literal of `lits` registered for `kw`.
pub open spec fn insert_all(m: Map<Seq<char>, Keyword>, lits: Seq<Seq<char>>, kw: Keyword) -> Map<
    Seq<char>,
    Keyword,
>
    decreases lits.len(),
{
    if lits.len() == 0 {
        m
    } else if lits.last().len() == 0 {
        insert_all(m, lits.drop_last(), kw)
    } else {
        insert_all(m, lits.drop_last(), kw).insert(lits.last(), kw)
    }
}

pub open spec fn group_choices(abbrevs: Seq<Seq<Seq<char>>>, g: Seq<SlotView>) -> Seq<Seq<Seq<char>>> {
    g.map_values(|s: SlotView| choices_of(abbrevs, s))
}

pub open spec fn compile_groups(
    m: Map<Seq<char>, Keyword>,
    abbrevs: Seq<Seq<Seq<char>>>,
    groups: Seq<Seq<SlotView>>,
    kw: Keyword,
) -> Map<Seq<char>, Keyword>
    decreases groups.len(),
{
    if groups.len() == 0 {
        m
    } else {
        insert_all(
            compile_groups(m, abbrevs, groups.drop_last(), kw),
            spellings(group_choices(abbrevs, groups.last())),
            kw,
        )
    }
}

/// The literals of the entries, registered in order: where two entries share a
/// literal, the later one keeps it.
pub open spec fn compiled(
    abbrevs: Seq<Seq<Seq<char>>>,
    entries: Seq<(Keyword, Seq<Seq<SlotView>>)>,
) -> Map<Seq<char>, Keyword>
    decreases entries.len(),
{
    if entries.len() == 0 {
        Map::empty()
    } else {
        compile_groups(
            compiled(abbrevs, entries.drop_last()),
            abbrevs,
            entries.last().1,
            entries.last().0,
        )
    }
}

/// `k` is non-empty and starts with neither a digit, `#` nor a line break.
pub open spec fn starts_plain(k: Seq<char>) -> bool {
    k.len() > 0 && !is_digit(k[0]) && k[0] != '#' && k[0] != '\n'
}

pub open spec fn all_plain(ks: Seq<Seq<char>>) -> bool {
    forall|i: int| 0 <= i < ks.len() ==> starts_plain(#[trigger] ks[i])
}

/// Every literal of `m` starts plainly.
pub open spec fn keys_plain(m: Map<Seq<char>, Keyword>) -> bool {
    forall|k: Seq<char>| #[trigger] m.contains_key(k) ==> starts_plain(k)
}

proof fn lemma_block_plain(a: Seq<char>, cs: Seq<Seq<char>>, n: int)
    requires
        starts_plain(a),
    ensures
        all_plain(block(a, cs, n)),
    decreases n,
{
    if n > 0 {
        lemma_block_plain(a, cs, n - 1);
        let r = row(a, n - 1, cs);
        assert forall|i: int| 0 <= i < r.len() implies starts_plain(#[trigger] r[i]) by {
            assert((a + delimiter(n - 1) + cs[i])[0] == a[0]);
        }
        let b = block(a, cs, n);
        assert forall|i: int| 0 <= i < b.len() implies starts_plain(#[trigger] b[i]) by {
            if i < block(a, cs, n - 1).len() {
                assert(b[i] == block(a, cs, n - 1)[i]);
            } else {
                assert(b[i] == r[i - block(a, cs, n - 1).len()]);
            }
        }
    }
}

proof fn lemma_extend_plain(cur: Seq<Seq<char>>, cs: Seq<Seq<char>>)
    requires
        all_plain(cur),
    ensures
        all_plain(extend(cur, cs)),
    decreases cur.len(),
{
    if cur.len() > 0 {
        lemma_extend_plain(cur.drop_last(), cs);
        lemma_block_plain(cur.last(), cs, 4);
        let e1 = extend(cur.drop_last(), cs);
        let b = block(cur.last(), cs, 4);
        let e = extend(cur, cs);
        assert forall|i: int| 0 <= i < e.len() implies starts_plain(#[trigger] e[i]) by {
            if i < e1.len() {
                assert(e[i] == e1[i]);
            } else {
                assert(e[i] == b[i - e1.len()]);
            }
        }
    }
}

/// Every spelling of a group starts as a word of its first slot does.
pub proof fn lemma_spellings_plain(group: Seq<Seq<Seq<char>>>)
    requires
        group.len() > 0 ==> all_plain(group[0]),
    ensures
        all_plain(spellings(group)),
    decreases group.len(),
{
    if group.len() > 1 {
        assert(group.drop_last()[0] == group[0]);
        lemma_spellings_plain(group.drop_last());
        lemma_extend_plain(spellings(group.drop_last()), group.last());
    }
}

proof fn lemma_insert_all_plain(m: Map<Seq<char>, Keyword>, lits: Seq<Seq<char>>, kw: Keyword)
    requires
        keys_plain(m),
        all_plain(lits),
    ensures
        keys_plain(insert_all(m, lits, kw)),
    decreases lits.len(),
{
    if lits.len() > 0 {
        assert(all_plain(lits.drop_last())) by {
            assert forall|i: int| 0 <= i < lits.drop_last().len() implies starts_plain(
                #[trigger] lits.drop_last()[i],
            ) by {
                assert(lits.drop_last()[i] == lits[i]);
            }
        }
        assert(starts_plain(lits[lits.len() - 1]));
        lemma_insert_all_plain(m, lits.drop_last(), kw);
    }
}

/// The first slot of every group of `groups` stands only for plain words.
pub open spec fn first_slots_plain(abbrevs: Seq<Seq<Seq<char>>>, groups: Seq<Seq<SlotView>>) -> bool {
    forall|g: int|
        0 <= g < groups.len() && #[trigger] groups[g].len() > 0 ==> all_plain(
            choices_of(abbrevs, groups[g][0]),
        )
}

proof fn lemma_compile_groups_plain(
    m: Map<Seq<char>, Keyword>,
    abbrevs: Seq<Seq<Seq<char>>>,
    groups: Seq<Seq<SlotView>>,
    kw: Keyword,
)
    requires
        keys_plain(m),
        first_slots_plain(abbrevs, groups),
    ensures
        keys_plain(compile_groups(m, abbrevs, groups, kw)),
    decreases groups.len(),
{
    if groups.len() > 0 {
        let d = groups.drop_last();
        assert forall|g: int| 0 <= g < d.len() && #[trigger] d[g].len() > 0 implies all_plain(
            choices_of(abbrevs, d[g][0]),
        ) by {
            assert(d[g] == groups[g]);
        }
        lemma_compile_groups_plain(m, abbrevs, d, kw);
        let gc = group_choices(abbrevs, groups.last());
        assert(groups[groups.len() - 1] == groups.last());
        if gc.len() > 0 {
            assert(gc[0] == choices_of(abbrevs, groups.last()[0]));
        }
        lemma_spellings_plain(gc);
        lemma_insert_all_plain(compile_groups(m, abbrevs, d, kw), spellings(gc), kw);
    }
}

/// Where the first slot of every group stands only for words that start with
/// neither a digit, `#` nor a line break, so does every literal of the table.
pub proof fn lemma_compiled_plain(
    abbrevs: Seq<Seq<Seq<char>>>,
    entries: Seq<(Keyword, Seq<Seq<SlotView>>)>,
)
    requires
        forall|e: int| 0 <= e < entries.len() ==> first_slots_plain(abbrevs, #[trigger] entries[e].1),
    ensures
        keys_plain(compiled(abbrevs, entries)),
    decreases entries.len(),
{
    if entries.len() > 0 {
        let d = entries.drop_last();
        assert forall|e: int| 0 <= e < d.len() implies first_slots_plain(abbrevs, #[trigger] d[e].1) by {
            assert(d[e] == entries[e]);
        }
        lemma_compiled_plain(abbrevs, d);
        assert(entries[entries.len() - 1] == entries.last());
        lemma_compile_groups_plain(compiled(abbrevs, d), abbrevs, entries.last().1, entries.last().0);
    }
}

pub proof fn lemma_insert_all_finite(m: Map<Seq<char>, Keyword>, lits: Seq<Seq<char>>, kw: Keyword)
    requires
        m.dom().finite(),
    ensures
        insert_all(m, lits, kw).dom().finite(),
    decreases lits.len(),
{
    if lits.len() > 0 {
        lemma_insert_all_finite(m, lits.drop_last(), kw);
    }
}

pub proof fn lemma_compile_groups_finite(
    m: Map<Seq<char>, Keyword>,
    abbrevs: Seq<Seq<Seq<char>>>,
    groups: Seq<Seq<SlotView>>,
    kw: Keyword,
)
    requires
        m.dom().finite(),
    ensures
        compile_groups(m, abbrevs, groups, kw).dom().finite(),
    decreases groups.len(),
{
    if groups.len() > 0 {
        lemma_compile_groups_finite(m, abbrevs, groups.drop_last(), kw);
        lemma_insert_all_finite(
            compile_groups(m, abbrevs, groups.drop_last(), kw),
            spellings(group_choices(abbrevs, groups.last())),
            kw,
        );
    }
}

/// A compiled table holds finitely many literals.
pub proof fn lemma_compiled_finite(
    abbrevs: Seq<Seq<Seq<char>>>,
    entries: Seq<(Keyword, Seq<Seq<SlotView>>)>,
)
    ensures
        compiled(abbrevs, entries).dom().finite(),
    decreases entries.len(),
{
    if entries.len() > 0 {
        lemma_compiled_finite(abbrevs, entries.drop_last());
        lemma_compile_groups_finite(
            compiled(abbrevs, entries.drop_last()),
            abbrevs,
            entries.last().1,
            entries.last().0,
        );
    }
}

pub open spec fn views(v: Seq<Vec<char>>) -> Seq<Seq<char>> {
    v.map_values(|x: Vec<char>| x@)
}

/// `a`, the delimiter `d`, then `b`.
fn join(a: &Vec<char>, d: usize, b: &Vec<char>) -> (r: Vec<char>)
    requires
        d < 4,
    ensures
        r@ == a@ + delimiter(d as int) + b@,
{
    let mut r: Vec<char> = Vec::new();
    let mut i: usize = 0;
    while i < a.len()
        invariant
            0 <= i <= a@.len(),
            r@ == a@.take(i as int),
        decreases a@.len() - i,
    {
        r.push(a[i]);
        i = i + 1;
        assert(r@ =~= a@.take(i as int));
    }
    assert(a@.take(a@.len() as int) =~= a@);
    if d == 1 {
        r.push(' ');
    } else if d == 2 {
        r.push('_');
    } else if d == 3 {
        r.push('-');
    }
    let ghost mid = r@;
    assert(mid =~= a@ + delimiter(d as int));
    let mut j: usize = 0;
    while j < b.len()
        invariant
            0 <= j <= b@.len(),
            r@ == mid + b@.take(j as int),
        decreases b@.len() - j,
    {
        r.push(b[j]);
        j = j + 1;
        assert(r@ =~= mid + b@.take(j as int));
    }
    assert(b@.take(b@.len() as int) =~= b@);
    r
}

/// Each of `cur`, followed by each delimiter and each of `cs`.
fn extend_all(cur: &Vec<Vec<char>>, cs: &Vec<Vec<char>>) -> (r: Vec<Vec<char>>)
    ensures
        views(r@) == extend(views(cur@), views(cs@)),
{
    let ghost vc = views(cs@);
    let mut out: Vec<Vec<char>> = Vec::new();
    let mut i: usize = 0;
    while i < cur.len()
        invariant
            0 <= i <= cur@.len(),
            vc == views(cs@),
            views(out@) == extend(views(cur@).take(i as int), vc),
        decreases cur@.len() - i,
    {
        let a = &cur[i];
        let mut d: usize = 0;
        while d < 4
            invariant
                0 <= i < cur@.len(),
                a == cur@[i as int],
                0 <= d <= 4,
                vc == views(cs@),
                views(out@) == extend(views(cur@).take(i as int), vc) + block(a@, vc, d as int),
            decreases 4 - d,
        {
            let mut k: usize = 0;
            while k < cs.len()
                invariant
                    0 <= i < cur@.len(),
                    a == cur@[i as int],
                    0 <= d < 4,
                    0 <= k <= cs@.len(),
                    vc == views(cs@),
                    views(out@) == extend(views(cur@).take(i as int), vc) + block(a@, vc, d as int)
                        + row(a@, d as int, vc.take(k as int)),
                decreases cs@.len() - k,
            {
                let s = join(a, d, &cs[k]);
                let ghost before = views(out@);
                out.push(s);
                assert(views(out@) =~= before.push(s@));
                assert(row(a@, d as int, vc.take(k + 1)) =~= row(a@, d as int, vc.take(k as int)).push(
                    s@,
                ));
                k = k + 1;
            }
            assert(vc.take(cs@.len() as int) =~= vc);
            d = d + 1;
        }
        assert(views(cur@).take(i + 1).drop_last() =~= views(cur@).take(i as int));
        i = i + 1;
    }
    assert(views(cur@).take(cur@.len() as int) =~= views(cur@));
    out
}

/// The words that `slot` may stand for.
fn slot_choices(abbrevs: &Vec<Abbreviation>, slot: &Slot) -> (r: Vec<Vec<char>>)
    requires
        slot_ok(abbrevs@, *slot),
    ensures
        views(r@) == choices_of(abbrev_views(abbrevs@), slot_view(*slot)),
{
    match slot {
        Slot::Word(w) => {
            let mut r: Vec<Vec<char>> = Vec::new();
            r.push(chars_of(w.as_str()));
            assert(views(r@) =~= seq![w@]);
            r
        },
        Slot::Abbrev(i) => {
            let vs = &abbrevs[*i].variants;
            let ghost target = vs@.map_values(|v: String| v@);
            let mut r: Vec<Vec<char>> = Vec::new();
            let mut k: usize = 0;
            while k < vs.len()
                invariant
                    0 <= k <= vs@.len(),
                    target == vs@.map_values(|v: String| v@),
                    views(r@) == target.take(k as int),
                decreases vs@.len() - k,
            {
                let ghost before = views(r@);
                r.push(chars_of(vs[k].as_str()));
                assert(views(r@) =~= before.push(vs@[k as int]@));
                assert(target.take(k + 1) =~= target.take(k as int).push(vs@[k as int]@));
                k = k + 1;
            }
            assert(target.take(vs@.len() as int) =~= target);
            r
        },
    }
}

/// Every spelling of a group of slots.
fn group_spellings(abbrevs: &Vec<Abbreviation>, group: &Vec<Slot>) -> (r: Vec<Vec<char>>)
    requires
        forall|s: int| 0 <= s < group@.len() ==> slot_ok(abbrevs@, #[trigger] group@[s]),
    ensures
        views(r@) == spellings(group_choices(abbrev_views(abbrevs@), slot_views(group@))),
{
    let ghost g = group_choices(abbrev_views(abbrevs@), slot_views(group@));
    if group.len() == 0 {
        return Vec::new();
    }
    let mut cur = slot_choices(abbrevs, &group[0]);
    let mut i: usize = 1;
    assert(g.take(1).len() == 1);
    while i < group.len()
        invariant
            1 <= i <= group@.len(),
            g == group_choices(abbrev_views(abbrevs@), slot_views(group@)),
            forall|s: int| 0 <= s < group@.len() ==> slot_ok(abbrevs@, #[trigger] group@[s]),
            views(cur@) == spellings(g.take(i as int)),
        decreases group@.len() - i,
    {
        let cs = slot_choices(abbrevs, &group[i]);
        cur = extend_all(&cur, &cs);
        assert(g.take(i + 1).drop_last() =~= g.take(i as int));
        i = i + 1;
    }
    assert(g.take(group@.len() as int) =~= g);
    cur
}

/// Registers each non-empty literal of `lits` for `kw`.
fn register(lookup: &mut Lookup, lits: Vec<Vec<char>>, kw: Keyword)
    requires
        old(lookup).wf(),
    ensures
        final(lookup).wf(),
        final(lookup).view() == insert_all(old(lookup).view(), views(lits@), kw),
{
    let ghost start = lookup.view();
    let ghost all = views(lits@);
    let ghost total = all.len();
    let mut lits = lits;
    let len0 = lits.len();
    let mut n: usize = 0;
    while lits.len() > 0
        invariant
            lookup.wf(),
            total == all.len(),
            total == len0,
            lits@.len() + n == total,
            views(lits@) == all.subrange(n as int, total as int),
            lookup.view() == insert_all(start, all.take(n as int), kw),
        decreases lits@.len(),
    {
        let ghost l0 = views(lits@);
        let x = lits.remove(0);
        assert(l0[0] == x@);
        assert(all[n as int] == x@);
        assert(views(lits@) =~= l0.subrange(1, l0.len() as int));
        assert(all.take(n + 1).drop_last() =~= all.take(n as int));
        assert(all.take(n + 1).last() == x@);
        if x.len() > 0 {
            lookup.insert(x, kw);
        }
        n = n + 1;
    }
    assert(all.take(total as int) =~= all);
}

/// The lookup that holds every spelling of every entry of `table`; an error where
/// a slot refers to an abbreviation that the table does not have.
#[verifier::loop_isolation(false)]
pub fn compile(table: &KeywordTable) -> (r: Result<Lookup, TableError>)
    ensures
        r is Ok <==> table_ok(*table),
        r matches Ok(l) ==> l.wf() && l.view() == compiled(
            abbrev_views(table.abbreviations@),
            entry_views(table.entries@),
        ),
{
    let abbrevs = &table.abbreviations;
    let entries = &table.entries;
    let mut lookup = Lookup::new();
    let mut e: usize = 0;
    while e < entries.len()
        invariant
            0 <= e <= entries@.len(),
            abbrevs == &table.abbreviations,
            entries == &table.entries,
            lookup.wf(),
            lookup.view() == compiled(abbrev_views(abbrevs@), entry_views(entries@).take(e as int)),
            forall|e2: int, g: int, s: int|
                0 <= e2 < e && 0 <= g < entries@[e2].groups@.len() && 0 <= s
                    < entries@[e2].groups@[g]@.len() ==> slot_ok(
                    abbrevs@,
                    #[trigger] entries@[e2].groups@[g]@[s],
                ),
        decreases entries@.len() - e,
    {
        let entry = &entries[e];
        let ghost base = lookup.view();
        let mut g: usize = 0;
        while g < entry.groups.len()
            invariant
                0 <= e < entries@.len(),
                entry == &entries@[e as int],
                0 <= g <= entry.groups@.len(),
                lookup.wf(),
                lookup.view() == compile_groups(
                    base,
                    abbrev_views(abbrevs@),
                    entry_views(entries@)[e as int].1.take(g as int),
                    entry.keyword,
                ),
                forall|e2: int, g2: int, s: int|
                    0 <= e2 < e && 0 <= g2 < entries@[e2].groups@.len() && 0 <= s
                        < entries@[e2].groups@[g2]@.len() ==> slot_ok(
                        abbrevs@,
                        #[trigger] entries@[e2].groups@[g2]@[s],
                    ),
                forall|g2: int, s: int|
                    0 <= g2 < g && 0 <= s < entries@[e as int].groups@[g2]@.len() ==> slot_ok(
                        abbrevs@,
                        #[trigger] entries@[e as int].groups@[g2]@[s],
                    ),
            decreases entry.groups@.len() - g,
        {
            let group = &entry.groups[g];
            let mut s: usize = 0;
            while s < group.len()
                invariant
                    0 <= s <= group@.len(),
                    group == &entry.groups@[g as int],
                    forall|s2: int| 0 <= s2 < s ==> slot_ok(abbrevs@, #[trigger] group@[s2]),
                decreases group@.len() - s,
            {
                if let Slot::Abbrev(i) = &group[s] {
                    if *i >= abbrevs.len() {
                        assert(entries@[e as int].groups@[g as int]@[s as int] == group@[s as int]);
                        return Err(TableError::DanglingReference(*i));
                    }
                }
                s = s + 1;
            }
            let lits = group_spellings(abbrevs, group);
            register(&mut lookup, lits, entry.keyword);
            let ghost gv = entry_views(entries@)[e as int].1;
            assert(gv[g as int] == slot_views(group@));
            assert(gv.take(g + 1).drop_last() =~= gv.take(g as int));
            g = g + 1;
        }
        let ghost ev = entry_views(entries@);
        assert(ev[e as int].1.take(entry.groups@.len() as int) =~= ev[e as int].1);
        assert(ev.take(e + 1).drop_last() =~= ev.take(e as int));
        e = e + 1;
    }
    assert(entry_views(entries@).take(entries@.len() as int) =~= entry_views(entries@));
    Ok(lookup)
}

} // verus!
