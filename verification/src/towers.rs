//! Tower territory bookkeeping: a registry that renames towers to unique
//! one-letter identifiers, and the troop waves that spread from them. When
//! troops of two different towers arrive on one cell in the same wave, the
//! cell becomes contested and is marked `+`.

use vstd::prelude::*;

verus! {

/// The registry of towers seen so far: the tower at slot `i` was renamed to
/// the unique identifier `'A' + i`.
pub struct TowersRegistry {
    pub ids: Vec<char>,
    pub next_uid: char,
}

impl TowersRegistry {
    /// The next free identifier always sits one past the registered ones,
    /// and the identifier space ('A' up to the end of the byte range) is not
    /// exhausted.
    pub open spec fn wf(&self) -> bool {
        &&& self.next_uid as int == 'A' as int + self.ids@.len()
        &&& self.ids@.len() <= 190
    }

    /// Whether `uid` has been handed out.
    pub open spec fn registered(&self, uid: char) -> bool {
        let u = uid as int;
        let n = self.next_uid as int;
        'A' as int <= u && u < n
    }

    /// The original tower identifier that `uid` stands for.
    pub open spec fn spec_get(&self, uid: char) -> char {
        self.ids@[uid as int - 'A' as int]
    }

    /// An empty registry; the first tower will get `'A'`.
    pub fn new() -> (r: TowersRegistry)
        ensures
            r.wf(),
            r.ids@ =~= Seq::<char>::empty(),
            r.next_uid == 'A',
    {
        TowersRegistry { ids: Vec::new(), next_uid: 'A' }
    }

    /// Registers the tower `id` and returns the fresh unique identifier
    /// assigned to it.
    pub fn add(&mut self, id: char) -> (uid: char)
        requires
            old(self).wf(),
            old(self).ids@.len() < 190,
        ensures
            final(self).wf(),
            uid == old(self).next_uid,
            final(self).ids@ == old(self).ids@.push(id),
            final(self).registered(uid),
            final(self).spec_get(uid) == id,
            forall|u: char|
                old(self).registered(u) ==> final(self).registered(u) && final(self).spec_get(u)
                    == old(self).spec_get(u),
    {
        let uid = self.next_uid;
        self.ids.push(id);
        self.next_uid = ((uid as u8) + 1) as char;
        uid
    }

    /// The original tower identifier behind a handed-out unique one.
    pub fn get(&self, uid: &char) -> (r: char)
        requires
            self.wf(),
            self.registered(*uid),
        ensures
            r == self.spec_get(*uid),
    {
        self.ids[(*uid as u8 - 65) as usize]
    }
}

/// The troop positions of one wave, as a map from cell to the identifier
/// holding it (`'+'` for a contested cell). Entries are `(x, y, holder)`.
pub open spec fn troops_map(s: Seq<(usize, usize, char)>) -> Map<(usize, usize), char>
    decreases s.len(),
{
    if s.len() == 0 {
        Map::empty()
    } else {
        troops_map(s.drop_last()).insert((s.last().0, s.last().1), s.last().2)
    }
}

/// The cells of one wave, each held by a tower identifier or contested.
/// An association list with unique cells stands in for a hash map.
pub struct Troops {
    pub entries: Vec<(usize, usize, char)>,
}

/// No two entries name the same cell.
pub open spec fn keys_unique(s: Seq<(usize, usize, char)>) -> bool {
    forall|i: int, j: int|
        0 <= i < j < s.len() ==> !((#[trigger] s[i]).0 == (#[trigger] s[j]).0 && s[i].1 == s[j].1)
}

/// A cell is in the wave's map exactly when an entry names it.
proof fn lemma_troops_map_mem(s: Seq<(usize, usize, char)>, x: usize, y: usize)
    ensures
        troops_map(s).contains_key((x, y)) <==> exists|i: int|
            0 <= i < s.len() && (#[trigger] s[i]).0 == x && s[i].1 == y,
    decreases s.len(),
{
    if s.len() > 0 {
        lemma_troops_map_mem(s.drop_last(), x, y);
        if s.last().0 == x && s.last().1 == y {
            assert(s[s.len() - 1].0 == x && s[s.len() - 1].1 == y);
        } else if troops_map(s).contains_key((x, y)) {
            let i = choose|i: int|
                0 <= i < s.drop_last().len() && (#[trigger] s.drop_last()[i]).0 == x
                    && s.drop_last()[i].1 == y;
            assert(s[i].0 == x && s[i].1 == y);
        } else {
            assert forall|i: int| 0 <= i < s.len() implies !((#[trigger] s[i]).0 == x && s[i].1
                == y) by {
                if i < s.len() - 1 {
                    assert(s.drop_last()[i] == s[i]);
                }
            }
        }
    }
}

/// With unique cells, the map agrees with every entry.
proof fn lemma_troops_map_at(s: Seq<(usize, usize, char)>, i: int)
    requires
        keys_unique(s),
        0 <= i < s.len(),
    ensures
        troops_map(s).contains_key((s[i].0, s[i].1)),
        troops_map(s)[(s[i].0, s[i].1)] == s[i].2,
    decreases s.len(),
{
    if i == s.len() - 1 {
        lemma_troops_map_mem(s, s[i].0, s[i].1);
    } else {
        assert(s.drop_last()[i] == s[i]);
        assert(keys_unique(s.drop_last())) by {
            assert forall|a: int, b: int| 0 <= a < b < s.drop_last().len() implies !((
            #[trigger] s.drop_last()[a]).0 == (#[trigger] s.drop_last()[b]).0 && s.drop_last()[a].1
                == s.drop_last()[b].1) by {
                assert(s.drop_last()[a] == s[a] && s.drop_last()[b] == s[b]);
            }
        }
        lemma_troops_map_at(s.drop_last(), i);
    }
}

/// With unique cells, rewriting one entry's holder rewrites one cell of the
/// map.
proof fn lemma_troops_map_update(s: Seq<(usize, usize, char)>, i: int, v: char)
    requires
        keys_unique(s),
        0 <= i < s.len(),
    ensures
        troops_map(s.update(i, (s[i].0, s[i].1, v))) =~= troops_map(s).insert((s[i].0, s[i].1), v),
    decreases s.len(),
{
    let s2 = s.update(i, (s[i].0, s[i].1, v));
    if i == s.len() - 1 {
        assert(s2.drop_last() =~= s.drop_last());
        assert(s2.last() == (s[i].0, s[i].1, v));
    } else {
        assert(s2.drop_last() =~= s.drop_last().update(i, (s[i].0, s[i].1, v)));
        assert(s2.last() == s.last());
        assert(keys_unique(s.drop_last())) by {
            assert forall|a: int, b: int| 0 <= a < b < s.drop_last().len() implies !((
            #[trigger] s.drop_last()[a]).0 == (#[trigger] s.drop_last()[b]).0 && s.drop_last()[a].1
                == s.drop_last()[b].1) by {
                assert(s.drop_last()[a] == s[a] && s.drop_last()[b] == s[b]);
            }
        }
        assert(s.drop_last()[i] == s[i]);
        lemma_troops_map_update(s.drop_last(), i, v);
        assert(!(s[i].0 == s.last().0 && s[i].1 == s.last().1));
        assert(troops_map(s2) =~= troops_map(s).insert((s[i].0, s[i].1), v));
    }
}

impl Troops {
    /// The wave as a map from cell to holder.
    pub open spec fn view(&self) -> Map<(usize, usize), char> {
        troops_map(self.entries@)
    }

    /// The wave's internal entries name each cell once.
    pub open spec fn wf(&self) -> bool {
        keys_unique(self.entries@)
    }

    /// An empty wave.
    pub fn new() -> (r: Troops)
        ensures
            r.wf(),
            r.view() =~= Map::<(usize, usize), char>::empty(),
    {
        Troops { entries: Vec::new() }
    }

    /// Whether the wave holds no cell.
    pub fn is_empty(&self) -> (r: bool)
        ensures
            r == (self.entries@.len() == 0),
    {
        self.entries.len() == 0
    }

    /// Troops of `uid` arrive on cell `(x, y)`: a free cell is taken, a
    /// cell already taken by another tower becomes contested (`'+'`), and a
    /// cell already taken by the same tower is left alone.
    pub fn push(&mut self, x: usize, y: usize, uid: char)
        requires
            old(self).wf(),
        ensures
            final(self).wf(),
            final(self).view() =~= (if !old(self).view().contains_key((x, y)) {
                old(self).view().insert((x, y), uid)
            } else if old(self).view()[(x, y)] != uid {
                old(self).view().insert((x, y), '+')
            } else {
                old(self).view()
            }),
    {
        let mut i: usize = 0;
        while i < self.entries.len()
            invariant
                self == old(self),
                keys_unique(self.entries@),
                i <= self.entries@.len(),
                forall|j: int|
                    0 <= j < i ==> !((#[trigger] self.entries@[j]).0 == x && self.entries@[j].1
                        == y),
            decreases self.entries@.len() - i,
        {
            let e = self.entries[i];
            if e.0 == x && e.1 == y {
                proof {
                    lemma_troops_map_at(self.entries@, i as int);
                }
                if e.2 != uid {
                    let ghost s0 = self.entries@;
                    self.entries[i] = (x, y, '+');
                    proof {
                        lemma_troops_map_update(s0, i as int, '+');
                        assert(self.entries@ =~= s0.update(i as int, (x, y, '+')));
                        assert(keys_unique(self.entries@)) by {
                            assert forall|a: int, b: int|
                                0 <= a < b < self.entries@.len() implies !((
                            #[trigger] self.entries@[a]).0 == (#[trigger] self.entries@[b]).0
                                && self.entries@[a].1 == self.entries@[b].1) by {
                                assert(s0[a].0 == self.entries@[a].0 && s0[a].1
                                    == self.entries@[a].1);
                                assert(s0[b].0 == self.entries@[b].0 && s0[b].1
                                    == self.entries@[b].1);
                            }
                        }
                    }
                }
                return ;
            }
            i += 1;
        }
        proof {
            lemma_troops_map_mem(self.entries@, x, y);
            assert(!self.view().contains_key((x, y)));
        }
        let ghost s0 = self.entries@;
        self.entries.push((x, y, uid));
        proof {
            assert(self.entries@.drop_last() =~= s0);
            assert(keys_unique(self.entries@)) by {
                assert forall|a: int, b: int| 0 <= a < b < self.entries@.len() implies !((
                #[trigger] self.entries@[a]).0 == (#[trigger] self.entries@[b]).0
                    && self.entries@[a].1 == self.entries@[b].1) by {
                    if b < self.entries@.len() - 1 {
                        assert(s0[a] == self.entries@[a] && s0[b] == self.entries@[b]);
                    } else {
                        assert(s0[a] == self.entries@[a]);
                    }
                }
            }
        }
    }
}

} // verus!
