use vstd::prelude::*;

verus! {

/// Canonical identity of a recognised word, independent of how it is spelled.
#[derive(Debug, Clone, Copy, PartialEq, Eq, Structural)]
pub enum Keyword {
    Then,
    Cm,
    In,
    Deg,
    Rad,
    MoveForward,
    MoveBackward,
    RotateLeft,
    RotateRight,
    ArmFrontUp,
    ArmFrontDown,
    ArmBackUp,
    ArmBackDown,
    Debug,
}

/// `p` occurs in `text` starting at position `start`.
pub open spec fn occurs_at(p: Seq<char>, text: Seq<char>, start: int) -> bool {
    0 <= start && start + p.len() <= text.len() && text.subrange(start, start + p.len()) == p
}

/// The map that results from inserting the pairs of `s` in order, later ones winning.
pub open spec fn map_of(s: Seq<(Seq<char>, Keyword)>) -> Map<Seq<char>, Keyword>
    decreases s.len(),
{
    if s.len() == 0 {
        Map::empty()
    } else {
        map_of(s.drop_last()).insert(s.last().0, s.last().1)
    }
}

/// The longest literal of `m` that occurs at `start`: its keyword and its length.
pub open spec fn is_longest_match(
    m: Map<Seq<char>, Keyword>,
    text: Seq<char>,
    start: int,
    kw: Keyword,
    n: int,
) -> bool {
    &&& 0 <= start && 0 <= n && start + n <= text.len()
    &&& m.contains_key(text.subrange(start, start + n))
    &&& m[text.subrange(start, start + n)] == kw
    &&& forall|k: Seq<char>| #[trigger] m.contains_key(k) && occurs_at(k, text, start) ==> k.len() <= n
}

/// No literal of `m` occurs at `start`.
pub open spec fn no_match(m: Map<Seq<char>, Keyword>, text: Seq<char>, start: int) -> bool {
    forall|k: Seq<char>| #[trigger] m.contains_key(k) ==> !occurs_at(k, text, start)
}

/// Where two literals of `m` occur at `start` and the shorter is a prefix of the
/// longer, the longest match is never the shorter: it is at least as long as the
/// longer one, and it is the longer one, with its keyword, where no literal longer
/// still occurs there.
pub proof fn lemma_longer_literal_wins(
    m: Map<Seq<char>, Keyword>,
    text: Seq<char>,
    start: int,
    l1: Seq<char>,
    l2: Seq<char>,
    kw: Keyword,
    n: int,
)
    requires
        m.contains_key(l1),
        m.contains_key(l2),
        l1.len() < l2.len(),
        l1.is_prefix_of(l2),
        occurs_at(l2, text, start),
        is_longest_match(m, text, start, kw, n),
    ensures
        n >= l2.len(),
        n != l1.len(),
        (forall|k: Seq<char>| #[trigger] m.contains_key(k) && occurs_at(k, text, start) ==> k.len()
            <= l2.len()) ==> n == l2.len() && kw == m[l2],
{
    if forall|k: Seq<char>| #[trigger] m.contains_key(k) && occurs_at(k, text, start) ==> k.len()
        <= l2.len() {
        let key = text.subrange(start, start + n);
        assert(occurs_at(key, text, start));
        assert(key.len() <= l2.len());
        assert(key =~= l2);
    }
}

/// Where some literal of a finite map occurs at `start`, a longest one does.
pub proof fn lemma_longest_exists(m: Map<Seq<char>, Keyword>, text: Seq<char>, start: int)
    requires
        m.dom().finite(),
        0 <= start <= text.len(),
        !no_match(m, text, start),
    ensures
        exists|p: (Keyword, int)| #[trigger] is_longest_match(m, text, start, p.0, p.1),
    decreases m.dom().len(),
{
    let k0 = choose|k: Seq<char>| #[trigger] m.contains_key(k) && occurs_at(k, text, start);
    let m2 = m.remove(k0);
    assert(m2.dom() =~= m.dom().remove(k0));
    assert(text.subrange(start, start + k0.len()) == k0);
    if no_match(m2, text, start) {
        assert forall|k: Seq<char>| #[trigger] m.contains_key(k) && occurs_at(k, text, start) implies k.len()
            <= k0.len() by {
            if k != k0 {
                assert(m2.contains_key(k));
            }
        }
        assert(is_longest_match(m, text, start, (m[k0], k0.len() as int).0, (m[k0], k0.len() as int).1));
    } else {
        lemma_longest_exists(m2, text, start);
        let p = choose|p: (Keyword, int)| #[trigger] is_longest_match(m2, text, start, p.0, p.1);
        if k0.len() > p.1 {
            assert forall|k: Seq<char>| #[trigger] m.contains_key(k) && occurs_at(k, text, start) implies k.len()
                <= k0.len() by {
                if k != k0 {
                    assert(m2.contains_key(k));
                }
            }
            assert(is_longest_match(m, text, start, (m[k0], k0.len() as int).0, (m[k0], k0.len() as int).1));
        } else {
            assert forall|k: Seq<char>| #[trigger] m.contains_key(k) && occurs_at(k, text, start) implies k.len()
                <= p.1 by {
                if k != k0 {
                    assert(m2.contains_key(k));
                }
            }
            assert(is_longest_match(m, text, start, p.0, p.1));
        }
    }
}

pub proof fn lemma_map_of_finite(s: Seq<(Seq<char>, Keyword)>)
    ensures
        map_of(s).dom().finite(),
    decreases s.len(),
{
    if s.len() > 0 {
        lemma_map_of_finite(s.drop_last());
    }
}

/// Longest-prefix lookup from literal spellings to keywords.
pub struct Lookup {
    entries: Vec<(Vec<char>, Keyword)>,
}

impl Lookup {
    pub closed spec fn pairs(&self) -> Seq<(Seq<char>, Keyword)> {
        self.entries@.map_values(|e: (Vec<char>, Keyword)| (e.0@, e.1))
    }

    /// The literals, each with the keyword it stands for.
    pub closed spec fn view(&self) -> Map<Seq<char>, Keyword> {
        map_of(self.pairs())
    }

    pub closed spec fn wf(&self) -> bool {
        forall|i: int| 0 <= i < self.entries@.len() ==> #[trigger] self.entries@[i].0@.len() > 0
    }

    pub fn new() -> (r: Lookup)
        ensures
            r.wf(),
            r.view() == Map::<Seq<char>, Keyword>::empty(),
    {
        Lookup { entries: Vec::new() }
    }

    /// A lookup holds finitely many literals.
    pub proof fn lemma_finite(&self)
        ensures
            self.view().dom().finite(),
    {
        lemma_map_of_finite(self.pairs());
    }

    /// Registers `lit` for `kw`; a literal registered before now stands for `kw`.
    pub fn insert(&mut self, lit: Vec<char>, kw: Keyword)
        requires
            old(self).wf(),
            lit@.len() > 0,
        ensures
            final(self).wf(),
            final(self).view() == old(self).view().insert(lit@, kw),
    {
        let ghost old_pairs = self.pairs();
        self.entries.push((lit, kw));
        assert(self.pairs().drop_last() =~= old_pairs);
    }

    /// The keyword of the longest literal that occurs in `text` at `start`, and
    /// that literal's length.
    pub fn longest_match(&self, text: &Vec<char>, start: usize) -> (r: Option<(Keyword, usize)>)
        requires
            self.wf(),
            start <= text@.len(),
        ensures
            r is None <==> no_match(self.view(), text@, start as int),
            r matches Some((kw, n)) ==> n > 0 && is_longest_match(
                self.view(),
                text@,
                start as int,
                kw,
                n as int,
            ),
    {
        let mut best: Option<(Keyword, usize)> = None;
        let ghost all = self.pairs();
        let mut i: usize = 0;
        while i < self.entries.len()
            invariant
                self.wf(),
                all == self.pairs(),
                0 <= i <= self.entries@.len(),
                start <= text@.len(),
                best is None ==> no_match(map_of(all.take(i as int)), text@, start as int),
                best matches Some((kw, n)) ==> n > 0 && is_longest_match(
                    map_of(all.take(i as int)),
                    text@,
                    start as int,
                    kw,
                    n as int,
                ),
            decreases self.entries@.len() - i,
        {
            let ghost before = map_of(all.take(i as int));
            assert(all.take(i + 1).drop_last() =~= all.take(i as int));
            assert(all.take(i + 1).last() == all[i as int]);
            let lit = &self.entries[i].0;
            let kw = self.entries[i].1;
            proof {
                assert(self.entries@[i as int].0@.len() > 0);
            }
            let found = occurs(lit, text, start);
            let take = found && match best {
                None => true,
                Some((_, n)) => lit.len() >= n,
            };
            let ghost after = map_of(all.take(i + 1));
            assert(after == before.insert(lit@, kw));
            if take {
                best = Some((kw, lit.len()));
                proof {
                    assert(text@.subrange(start as int, start + lit@.len()) == lit@);
                }
            } else {
                proof {
                    if let Some((bk, n)) = best {
                        let key = text@.subrange(start as int, start + n);
                        assert(occurs_at(key, text@, start as int));
                        assert(key.len() == n);
                        if key == lit@ {
                            assert(found);
                            assert(lit@.len() == n);
                            assert(take);
                        }
                        assert(key != lit@);
                        assert(after.contains_key(key));
                        assert(after[key] == bk);
                        assert forall|k: Seq<char>| #[trigger]
                            after.contains_key(k) && occurs_at(k, text@, start as int) implies k.len()
                            <= n by {
                            if k != lit@ {
                                assert(before.contains_key(k));
                            }
                        }
                    } else {
                        assert forall|k: Seq<char>| #[trigger] after.contains_key(k) implies !occurs_at(
                            k,
                            text@,
                            start as int,
                        ) by {
                            if k != lit@ {
                                assert(before.contains_key(k));
                            }
                        }
                    }
                }
            }
            i = i + 1;
        }
        assert(all.take(all.len() as int) =~= all);
        best
    }
}

/// Whether `lit` occurs in `text` at `start`.
fn occurs(lit: &Vec<char>, text: &Vec<char>, start: usize) -> (r: bool)
    requires
        start <= text@.len(),
    ensures
        r == occurs_at(lit@, text@, start as int),
{
    if lit.len() > text.len() - start {
        return false;
    }
    let mut j: usize = 0;
    while j < lit.len()
        invariant
            start + lit@.len() <= text.len(),
            0 <= j <= lit@.len(),
            forall|k: int| 0 <= k < j ==> text@[start + k] == lit@[k],
        decreases lit@.len() - j,
    {
        if text[start + j] != lit[j] {
            assert(text@.subrange(start as int, start + lit@.len())[j as int] != lit@[j as int]);
            return false;
        }
        j = j + 1;
    }
    assert(text@.subrange(start as int, start + lit@.len()) =~= lit@);
    true
}

} // verus!
