//! The session layer's verified core: the registry mapping connection ids
//! to their optional colour assignment (at most one holder per colour, first
//! come first served), and the caller-identity check for passing.

use vstd::prelude::*;
use crate::game::Game;
use crate::types::Color;

verus! {

/// The registry as a mapping from connection id to its assigned colour.
pub open spec fn color_taken(m: Map<u64, Option<Color>>, color: Color) -> bool {
    exists|id: u64| #[trigger] m.dom().contains(id) && m[id] == Some(color)
}

/// The session invariant: at most one connection holds a given colour at a
/// time.
pub open spec fn at_most_one_holder(m: Map<u64, Option<Color>>) -> bool {
    forall|a: u64, b: u64|
        m.dom().contains(a) && m.dom().contains(b) && m[a] is Some && m[a] == m[b] ==> a == b
}

/// Registering a connection, or clearing one connection's colour, keeps the
/// one-holder invariant: a `None` value can collide with nothing.
pub proof fn lemma_one_holder_insert_none(m: Map<u64, Option<Color>>, id: u64)
    requires
        at_most_one_holder(m),
    ensures
        at_most_one_holder(m.insert(id, None::<Color>)),
{
}

/// Dropping a registration keeps the one-holder invariant.
pub proof fn lemma_one_holder_remove(m: Map<u64, Option<Color>>, id: u64)
    requires
        at_most_one_holder(m),
    ensures
        at_most_one_holder(m.remove(id)),
{
}

/// First come, first served keeps the one-holder invariant: a colour is
/// only handed out while nobody holds it.
pub proof fn lemma_one_holder_assign(m: Map<u64, Option<Color>>, id: u64, color: Color)
    requires
        at_most_one_holder(m),
        !color_taken(m, color),
    ensures
        at_most_one_holder(m.insert(id, Some(color))),
{
    let m2 = m.insert(id, Some(color));
    assert forall|a: u64, b: u64|
        m2.dom().contains(a) && m2.dom().contains(b) && m2[a] is Some && m2[a]
            == m2[b] implies a == b by {
        if a == id && b != id {
            assert(m.dom().contains(b) && m[b] == Some(color));
        } else if b == id && a != id {
            assert(m.dom().contains(a) && m[a] == Some(color));
        }
    }
}

spec fn entries_map(s: Seq<(u64, Option<Color>)>) -> Map<u64, Option<Color>>
    decreases s.len(),
{
    if s.len() == 0 {
        Map::empty()
    } else {
        entries_map(s.drop_last()).insert(s.last().0, s.last().1)
    }
}

spec fn ids_no_dup(s: Seq<(u64, Option<Color>)>) -> bool {
    forall|i: int, j: int| 0 <= i < j < s.len() ==> s[i].0 != s[j].0
}

/// Looking a registration list up reads the entry with the matching id.
proof fn lemma_entries_map_lookup(s: Seq<(u64, Option<Color>)>)
    requires
        ids_no_dup(s),
    ensures
        forall|id: u64| #[trigger] entries_map(s).dom().contains(id) <==> exists|i: int|
            0 <= i < s.len() && s[i].0 == id,
        forall|i: int| 0 <= i < s.len() ==> entries_map(s)[#[trigger] s[i].0] == s[i].1,
    decreases s.len(),
{
    if s.len() > 0 {
        let d = s.drop_last();
        lemma_entries_map_lookup(d);
        assert forall|id: u64| #[trigger] entries_map(s).dom().contains(id) <==> exists|i: int|
            0 <= i < s.len() && s[i].0 == id by {
            if entries_map(s).dom().contains(id) {
                if id == s.last().0 {
                    assert(s[s.len() - 1].0 == id);
                } else {
                    assert(entries_map(d).dom().contains(id));
                    let i = choose|i: int| 0 <= i < d.len() && d[i].0 == id;
                    assert(d[i] == s[i]);
                    assert(s[i].0 == id);
                }
            }
            if exists|i: int| 0 <= i < s.len() && s[i].0 == id {
                let i = choose|i: int| 0 <= i < s.len() && s[i].0 == id;
                if i < s.len() - 1 {
                    assert(d[i].0 == id);
                    assert(entries_map(d).dom().contains(id));
                }
            }
        }
        assert forall|i: int| 0 <= i < s.len() implies entries_map(s)[#[trigger] s[i].0]
            == s[i].1 by {
            if i < s.len() - 1 {
                assert(d[i] == s[i]);
                assert(s[i].0 != s.last().0);
            }
        }
    }
}

/// Overwriting one entry's colour updates exactly that id of the mapping.
proof fn lemma_entries_map_update(s: Seq<(u64, Option<Color>)>, i: int, v: Option<Color>)
    requires
        ids_no_dup(s),
        0 <= i < s.len(),
    ensures
        ids_no_dup(s.update(i, (s[i].0, v))),
        entries_map(s.update(i, (s[i].0, v))) == entries_map(s).insert(s[i].0, v),
    decreases s.len(),
{
    let t = s.update(i, (s[i].0, v));
    if i == s.len() - 1 {
        assert(t.drop_last() =~= s.drop_last());
        assert(entries_map(t) =~= entries_map(s).insert(s[i].0, v));
    } else {
        assert(t.drop_last() =~= s.drop_last().update(i, (s[i].0, v)));
        lemma_entries_map_update(s.drop_last(), i, v);
        assert(s.drop_last()[i] == s[i]);
        // The updated id differs from the last entry's id, so the two
        // insertions commute.
        assert(s[i].0 != s.last().0);
        assert(entries_map(t) =~= entries_map(s).insert(s[i].0, v));
    }
}

/// Removing one entry removes exactly that id from the mapping.
proof fn lemma_entries_map_remove(s: Seq<(u64, Option<Color>)>, i: int)
    requires
        ids_no_dup(s),
        0 <= i < s.len(),
    ensures
        ids_no_dup(s.remove(i)),
        entries_map(s.remove(i)) == entries_map(s).remove(s[i].0),
    decreases s.len(),
{
    lemma_entries_map_lookup(s);
    let t = s.remove(i);
    assert forall|a: int, b: int| 0 <= a < b < t.len() implies t[a].0 != t[b].0 by {
        if b < i {
        } else if a < i {
            assert(t[b] == s[b + 1]);
        } else {
            assert(t[a] == s[a + 1]);
            assert(t[b] == s[b + 1]);
        }
    }
    if i == s.len() - 1 {
        assert(t =~= s.drop_last());
        // The removed id does not occur earlier in the list.
        assert(!entries_map(t).dom().contains(s[i].0)) by {
            lemma_entries_map_lookup(t);
            if exists|k: int| 0 <= k < t.len() && t[k].0 == s[i].0 {
                let k = choose|k: int| 0 <= k < t.len() && t[k].0 == s[i].0;
                assert(s[k].0 == s[i].0);
            }
        }
        assert(entries_map(t) =~= entries_map(s).remove(s[i].0));
    } else {
        assert(t.drop_last() =~= s.drop_last().remove(i));
        lemma_entries_map_remove(s.drop_last(), i);
        assert(s.drop_last()[i] == s[i]);
        assert(t.last() == s.last());
        assert(s[i].0 != s.last().0);
        assert(entries_map(t) =~= entries_map(s).remove(s[i].0));
    }
}

/// The registry of connections and their colour assignments.
pub struct Lobby {
    entries: Vec<(u64, Option<Color>)>,
}

impl View for Lobby {
    type V = Map<u64, Option<Color>>;

    closed spec fn view(&self) -> Map<u64, Option<Color>> {
        entries_map(self.entries@)
    }
}

impl Lobby {
    /// Each connection id is registered at most once.
    pub closed spec fn inv(self) -> bool {
        ids_no_dup(self.entries@)
    }

    /// An empty registry.
    pub fn new() -> (r: Lobby)
        ensures
            r.inv(),
            r@ == Map::<u64, Option<Color>>::empty(),
    {
        Lobby { entries: Vec::new() }
    }

    /// The index of a connection's entry, if it is registered.
    fn find(&self, id: u64) -> (r: Option<usize>)
        requires
            self.inv(),
        ensures
            match r {
                Some(i) => i < self.entries@.len() && self.entries@[i as int].0 == id
                    && self@.dom().contains(id) && self@[id] == self.entries@[i as int].1,
                None => !self@.dom().contains(id),
            },
    {
        proof {
            lemma_entries_map_lookup(self.entries@);
        }
        let mut i: usize = 0;
        while i < self.entries.len()
            invariant
                self.inv(),
                i <= self.entries@.len(),
                forall|k: int| 0 <= k < i ==> self.entries@[k].0 != id,
            decreases self.entries@.len() - i,
        {
            if self.entries[i].0 == id {
                proof {
                    lemma_entries_map_lookup(self.entries@);
                    assert(self.entries@[i as int].0 == id);
                }
                return Some(i);
            }
            i += 1;
        }
        proof {
            if self@.dom().contains(id) {
                let k = choose|k: int|
                    0 <= k < self.entries@.len() && self.entries@[k].0 == id;
            }
        }
        None
    }

    /// Register a connection with no colour; re-registering an id clears
    /// its colour.
    pub fn register(&mut self, id: u64)
        requires
            old(self).inv(),
        ensures
            final(self).inv(),
            final(self)@ == old(self)@.insert(id, None::<Color>),
    {
        let ghost s0 = self.entries@;
        match self.find(id) {
            Some(i) => {
                self.entries[i] = (id, None);
                proof {
                    lemma_entries_map_update(s0, i as int, None);
                }
            },
            None => {
                self.entries.push((id, None));
                proof {
                    assert(self.entries@.drop_last() =~= s0);
                    assert forall|a: int, b: int|
                        0 <= a < b < self.entries@.len() implies self.entries@[a].0
                        != self.entries@[b].0 by {
                        lemma_entries_map_lookup(s0);
                        if b == self.entries@.len() - 1 {
                            assert(s0[a].0 == self.entries@[a].0);
                            if s0[a].0 == id {
                                assert(exists|k: int| 0 <= k < s0.len() && s0[k].0 == id);
                            }
                        }
                    }
                }
            },
        }
    }

    /// Drop a connection's registration (a no-op for an unknown id).
    pub fn deregister(&mut self, id: u64)
        requires
            old(self).inv(),
        ensures
            final(self).inv(),
            final(self)@ == old(self)@.remove(id),
    {
        let ghost s0 = self.entries@;
        match self.find(id) {
            Some(i) => {
                self.entries.remove(i);
                proof {
                    lemma_entries_map_remove(s0, i as int);
                }
            },
            None => {
                proof {
                    assert(self@ =~= self@.remove(id));
                }
            },
        }
    }

    /// The colour a connection holds, if it is registered and has chosen.
    pub fn color_of(&self, id: u64) -> (r: Option<Color>)
        requires
            self.inv(),
        ensures
            r == (if self@.dom().contains(id) {
                self@[id]
            } else {
                None::<Color>
            }),
    {
        match self.find(id) {
            Some(i) => self.entries[i].1,
            None => None,
        }
    }

    /// Whether some connection currently holds `color`.
    pub fn is_color_taken(&self, color: Color) -> (r: bool)
        requires
            self.inv(),
        ensures
            r == color_taken(self@, color),
    {
        proof {
            lemma_entries_map_lookup(self.entries@);
        }
        let mut i: usize = 0;
        while i < self.entries.len()
            invariant
                self.inv(),
                i <= self.entries@.len(),
                forall|k: int| 0 <= k < i ==> self.entries@[k].1 != Some(color),
            decreases self.entries@.len() - i,
        {
            let e = self.entries[i];
            if match e.1 {
                Some(c) => c == color,
                None => false,
            } {
                proof {
                    lemma_entries_map_lookup(self.entries@);
                    assert(self.entries@[i as int].0 == e.0);
                    assert(exists|k: int|
                        0 <= k < self.entries@.len() && self.entries@[k].0 == e.0);
                    assert(self@.dom().contains(e.0) && self@[e.0] == Some(color));
                }
                return true;
            }
            i += 1;
        }
        proof {
            if color_taken(self@, color) {
                let id = choose|id: u64|
                    #[trigger] self@.dom().contains(id) && self@[id] == Some(color);
                let k = choose|k: int|
                    0 <= k < self.entries@.len() && self.entries@[k].0 == id;
                assert(self.entries@[k].1 == Some(color));
            }
        }
        false
    }

    /// Record a colour choice, first come first served: rejected — with
    /// every assignment, in particular the current holder's, untouched —
    /// exactly when some connection already holds the colour. Choosing for
    /// an unregistered id assigns nothing.
    pub fn assign_color(&mut self, id: u64, color: Color) -> (r: bool)
        requires
            old(self).inv(),
        ensures
            final(self).inv(),
            r == !color_taken(old(self)@, color),
            !r ==> final(self)@ == old(self)@,
            r ==> final(self)@ == (if old(self)@.dom().contains(id) {
                old(self)@.insert(id, Some(color))
            } else {
                old(self)@
            }),
    {
        if self.is_color_taken(color) {
            return false;
        }
        let ghost s0 = self.entries@;
        match self.find(id) {
            Some(i) => {
                self.entries[i] = (id, Some(color));
                proof {
                    lemma_entries_map_update(s0, i as int, Some(color));
                }
            },
            None => {},
        }
        true
    }

    /// Clear every connection's colour assignment, keeping the
    /// registrations themselves.
    pub fn clear_colors(&mut self)
        requires
            old(self).inv(),
        ensures
            final(self).inv(),
            final(self)@.dom() == old(self)@.dom(),
            forall|id: u64| old(self)@.dom().contains(id) ==> final(self)@[id]
                == None::<Color>,
    {
        let ghost s0 = self.entries@;
        let n = self.entries.len();
        let mut i: usize = 0;
        while i < n
            invariant
                n == s0.len(),
                i <= n,
                self.entries@.len() == s0.len(),
                forall|k: int| 0 <= k < s0.len() ==> self.entries@[k].0 == s0[k].0,
                forall|k: int| 0 <= k < i ==> self.entries@[k].1 is None,
                forall|k: int| i <= k < s0.len() ==> self.entries@[k].1 == s0[k].1,
                ids_no_dup(self.entries@),
            decreases n - i,
        {
            let e = self.entries[i];
            self.entries[i] = (e.0, None);
            proof {
                assert forall|k: int| 0 <= k < s0.len() implies self.entries@[k].0
                    == s0[k].0 by {}
            }
            i += 1;
        }
        proof {
            lemma_entries_map_lookup(s0);
            lemma_entries_map_lookup(self.entries@);
            assert forall|id: u64|
                self@.dom().contains(id) <==> entries_map(s0).dom().contains(id) by {
                if self@.dom().contains(id) {
                    let k = choose|k: int|
                        0 <= k < self.entries@.len() && self.entries@[k].0 == id;
                    assert(s0[k].0 == id);
                }
                if entries_map(s0).dom().contains(id) {
                    let k = choose|k: int| 0 <= k < s0.len() && s0[k].0 == id;
                    assert(self.entries@[k].0 == id);
                }
            }
            assert(self@.dom() =~= entries_map(s0).dom());
            assert forall|id: u64| entries_map(s0).dom().contains(id) implies self@[id]
                == None::<Color> by {
                let k = choose|k: int| 0 <= k < s0.len() && s0[k].0 == id;
                assert(self.entries@[k].0 == id);
                assert(self@[self.entries@[k].0] == self.entries@[k].1);
            }
        }
    }

    /// Which colours are currently held, as `(black taken, white taken)`.
    pub fn assigned_flags(&self) -> (r: (bool, bool))
        requires
            self.inv(),
        ensures
            r.0 == color_taken(self@, Color::Black),
            r.1 == color_taken(self@, Color::White),
    {
        (self.is_color_taken(Color::Black), self.is_color_taken(Color::White))
    }
}

/// The caller-identity check for passing lives in the session layer, not in
/// the game: flip the turn only when it is the caller's colour's move, and
/// report whether that happened.
pub fn try_pass(game: &mut Game, color: Color) -> (r: bool)
    requires
        old(game).wf(),
    ensures
        final(game).wf(),
        r == (old(game)@.turn == color),
        r ==> {
            &&& final(game)@.board == old(game)@.board
            &&& final(game)@.turn == old(game)@.turn.spec_opposite()
            &&& final(game)@.black_captures == old(game)@.black_captures
            &&& final(game)@.white_captures == old(game)@.white_captures
            &&& final(game)@.history == old(game)@.history
        },
        !r ==> final(game)@ == old(game)@,
{
    let turn = game.get_turn();
    if turn == color {
        game.pass();
        true
    } else {
        false
    }
}

} // verus!
