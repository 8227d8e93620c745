//! What the updater has surfaced so far, so that shutdown can clear it.
//!
//! [`IdSet`] and [`TokenMap`] keep their entries in insertion order and never
//! hold an id twice.

use crate::text;
use vstd::prelude::*;

verus! {

// ---- a set of ids -----------------------------------------------------------

/// A set of pane ids.
#[derive(Debug)]
pub struct IdSet {
    ids: Vec<String>,
}

impl View for IdSet {
    type V = Set<Seq<char>>;

    open spec fn view(&self) -> Set<Seq<char>> {
        self.order().to_set()
    }
}

impl IdSet {
    /// The ids in the order in which they were inserted.
    pub closed spec fn order(&self) -> Seq<Seq<char>> {
        text::views(self.ids@)
    }

    #[verifier::type_invariant]
    spec fn distinct(&self) -> bool {
        self.order().no_duplicates()
    }

    /// The empty set.
    pub fn new() -> (s: Self)
        ensures
            s@ == Set::<Seq<char>>::empty(),
            s.order() == Seq::<Seq<char>>::empty(),
    {
        let ids: Vec<String> = Vec::new();
        assert(text::views(ids@) =~= Seq::<Seq<char>>::empty());
        let s = IdSet { ids };
        assert(s@ =~= Set::<Seq<char>>::empty());
        s
    }

    /// The ids, each once.
    pub fn ids(&self) -> (r: &Vec<String>)
        ensures
            text::views(r@) == self.order(),
            self.order().no_duplicates(),
    {
        proof {
            use_type_invariant(self);
        }
        &self.ids
    }

    /// Position of an id.
    fn position(&self, id: &str) -> (r: Option<usize>)
        ensures
            r is Some <==> self@.contains(id@),
            r matches Some(i) ==> i < self.ids@.len() && self.order()[i as int] == id@,
    {
        let mut i: usize = 0;
        while i < self.ids.len()
            invariant
                i <= self.ids@.len(),
                forall|k: int| 0 <= k < i ==> self.order()[k] != id@,
            decreases self.ids@.len() - i,
        {
            assert(self.order()[i as int] == self.ids@[i as int]@);
            if text::same(self.ids[i].as_str(), id) {
                return Some(i);
            }
            i += 1;
        }
        None
    }

    /// Whether the set holds an id.
    pub fn contains(&self, id: &str) -> (r: bool)
        ensures
            r == self@.contains(id@),
    {
        self.position(id).is_some()
    }

    /// Adds an id.
    pub fn insert(&mut self, id: &str)
        ensures
            final(self)@ == old(self)@.insert(id@),
    {
        proof {
            use_type_invariant(&*self);
        }
        if self.position(id).is_none() {
            let ghost prev = self.order();
            let mut ids: Vec<String> = Vec::new();
            std::mem::swap(&mut ids, &mut self.ids);
            ids.push(String::from_str(id));
            proof {
                assert(text::views(ids@) =~= prev.push(id@));
                assert forall|i: int, j: int|
                    0 <= i < j < prev.push(id@).len() implies prev.push(id@)[i] != prev.push(
                    id@,
                )[j] by {
                    if j == prev.len() {
                        assert(prev.contains(prev[i]));
                    }
                }
            }
            self.ids = ids;
            proof {
                assert(self.order() == prev.push(id@));
                assert forall|x: Seq<char>| self@.contains(x) <==> old(self)@.insert(id@).contains(
                    x,
                ) by {
                    if prev.contains(x) {
                        let k = choose|k: int| 0 <= k < prev.len() && prev[k] == x;
                        assert(self.order()[k] == x);
                    }
                    if x == id@ {
                        assert(self.order()[prev.len() as int] == x);
                    }
                }
            }
        }
        assert(self@ =~= old(self)@.insert(id@));
    }

    /// Removes an id.
    pub fn remove(&mut self, id: &str)
        ensures
            final(self)@ == old(self)@.remove(id@),
    {
        proof {
            use_type_invariant(&*self);
        }
        if let Some(i) = self.position(id) {
            let ghost prev = self.order();
            let mut ids: Vec<String> = Vec::new();
            std::mem::swap(&mut ids, &mut self.ids);
            ids.remove(i);
            assert(text::views(ids@) =~= prev.remove(i as int));
            self.ids = ids;
            proof {
                let now = prev.remove(i as int);
                assert(self.order() == now);
                assert forall|x: Seq<char>| self@.contains(x) <==> old(self)@.remove(id@).contains(
                    x,
                ) by {
                    if prev.contains(x) && x != id@ {
                        let k = choose|k: int| 0 <= k < prev.len() && prev[k] == x;
                        if k < i {
                            assert(now[k] == x);
                        } else {
                            assert(now[k - 1] == x);
                        }
                    }
                    if now.contains(x) {
                        let k = choose|k: int| 0 <= k < now.len() && now[k] == x;
                        if k < i {
                            assert(prev[k] == x);
                        } else {
                            assert(prev[k + 1] == x);
                        }
                    }
                }
            }
        }
        assert(self@ =~= old(self)@.remove(id@));
    }
}

// ---- a map from ids to tokens -----------------------------------------------

/// A map from pane or workspace ids to the status token that is set there.
#[derive(Debug)]
pub struct TokenMap {
    ids: Vec<String>,
    tokens: Vec<&'static str>,
}

impl View for TokenMap {
    type V = Map<Seq<char>, Seq<char>>;

    open spec fn view(&self) -> Map<Seq<char>, Seq<char>> {
        Map::new(
            |id: Seq<char>| self.order().contains(id),
            |id: Seq<char>| self.values()[self.order().index_of(id)],
        )
    }
}

impl TokenMap {
    /// The ids in the order in which they were first inserted.
    pub closed spec fn order(&self) -> Seq<Seq<char>> {
        text::views(self.ids@)
    }

    /// The tokens, in the order of the ids.
    pub closed spec fn values(&self) -> Seq<Seq<char>> {
        Seq::new(self.tokens@.len(), |i: int| self.tokens@[i]@)
    }

    #[verifier::type_invariant]
    spec fn distinct(&self) -> bool {
        self.order().no_duplicates() && self.ids@.len() == self.tokens@.len()
    }

    /// The empty map.
    pub fn new() -> (m: Self)
        ensures
            m@ == Map::<Seq<char>, Seq<char>>::empty(),
            m.order() == Seq::<Seq<char>>::empty(),
    {
        let ids: Vec<String> = Vec::new();
        let tokens: Vec<&'static str> = Vec::new();
        assert(text::views(ids@) =~= Seq::<Seq<char>>::empty());
        let m = TokenMap { ids, tokens };
        assert(m@ =~= Map::<Seq<char>, Seq<char>>::empty());
        m
    }

    /// The ids, each once.
    pub fn ids(&self) -> (r: &Vec<String>)
        ensures
            text::views(r@) == self.order(),
            self.order().no_duplicates(),
    {
        proof {
            use_type_invariant(self);
        }
        &self.ids
    }

    /// Position of an id.
    fn position(&self, id: &str) -> (r: Option<usize>)
        ensures
            r is Some <==> self@.contains_key(id@),
            r matches Some(i) ==> i < self.ids@.len() && i < self.tokens@.len()
                && self.order()[i as int] == id@ && self.order().index_of(id@) == i
                && self@[id@] == self.values()[i as int],
    {
        proof {
            use_type_invariant(self);
        }
        let mut i: usize = 0;
        while i < self.ids.len()
            invariant
                i <= self.ids@.len(),
                self.ids@.len() == self.tokens@.len(),
                self.order().no_duplicates(),
                forall|k: int| 0 <= k < i ==> self.order()[k] != id@,
            decreases self.ids@.len() - i,
        {
            assert(self.order()[i as int] == self.ids@[i as int]@);
            if text::same(self.ids[i].as_str(), id) {
                assert(self.order().contains(id@));
                return Some(i);
            }
            i += 1;
        }
        None
    }

    /// The token set for an id.
    pub fn get(&self, id: &str) -> (r: Option<&'static str>)
        ensures
            r is Some <==> self@.contains_key(id@),
            r matches Some(t) ==> t@ == self@[id@],
    {
        match self.position(id) {
            Some(i) => Some(self.tokens[i]),
            None => None,
        }
    }

    /// Sets the token for an id.
    pub fn insert(&mut self, id: &str, token: &'static str)
        ensures
            final(self)@ == old(self)@.insert(id@, token@),
    {
        proof {
            use_type_invariant(&*self);
        }
        let at = self.position(id);
        let ghost (keys, vals) = (self.order(), self.values());
        let mut next = TokenMap::new();
        std::mem::swap(&mut next, self);
        proof {
            use_type_invariant(&next);
        }
        let TokenMap { mut ids, mut tokens } = next;
        match at {
            Some(i) => {
                tokens.set(i, token);
                *self = TokenMap { ids, tokens };
                assert(self.order() =~= keys);
                assert(self.values() =~= vals.update(i as int, token@));
            },
            None => {
                ids.push(String::from_str(id));
                tokens.push(token);
                proof {
                    assert(text::views(ids@) =~= keys.push(id@));
                    assert forall|i: int, j: int|
                        0 <= i < j < keys.push(id@).len() implies keys.push(id@)[i] != keys.push(
                        id@,
                    )[j] by {
                        if j == keys.len() {
                            assert(keys.contains(keys[i]));
                        }
                    }
                }
                *self = TokenMap { ids, tokens };
                assert(self.order() =~= keys.push(id@));
                assert(self.values() =~= vals.push(token@));
            },
        }
        proof {
            let now = self.order();
            assert forall|x: Seq<char>| self@.contains_key(x) <==> old(self)@.insert(
                id@,
                token@,
            ).contains_key(x) by {
                if keys.contains(x) {
                    let k = keys.index_of(x);
                    assert(now[k] == x);
                }
                if x == id@ && at is None {
                    assert(now[keys.len() as int] == x);
                }
                if now.contains(x) {
                    let k = now.index_of(x);
                    if k < keys.len() {
                        assert(keys[k] == x);
                    }
                }
            }
            assert forall|x: Seq<char>| self@.contains_key(x) implies self@[x] == old(self)@.insert(
                id@,
                token@,
            )[x] by {
                let k = now.index_of(x);
                assert(now[k] == x);
                if k < keys.len() {
                    assert(keys[k] == x);
                    assert(keys.index_of(x) == k);
                }
            }
        }
        assert(self@ =~= old(self)@.insert(id@, token@));
    }

    /// Forgets an id, handing out the token that was set for it.
    pub fn remove(&mut self, id: &str) -> (r: Option<&'static str>)
        ensures
            final(self)@ == old(self)@.remove(id@),
            r is Some <==> old(self)@.contains_key(id@),
            r matches Some(t) ==> t@ == old(self)@[id@],
    {
        proof {
            use_type_invariant(&*self);
        }
        match self.position(id) {
            Some(i) => {
                let ghost (keys, vals) = (self.order(), self.values());
                let mut next = TokenMap::new();
                std::mem::swap(&mut next, self);
                proof {
                    use_type_invariant(&next);
                }
                let TokenMap { mut ids, mut tokens } = next;
                ids.remove(i);
                let token = tokens.remove(i);
                assert(text::views(ids@) =~= keys.remove(i as int));
                *self = TokenMap { ids, tokens };
                proof {
                    let now = keys.remove(i as int);
                    assert(self.order() =~= now);
                    assert(self.values() =~= vals.remove(i as int));
                    assert forall|x: Seq<char>| self@.contains_key(x) <==> old(self)@.remove(
                        id@,
                    ).contains_key(x) by {
                        if keys.contains(x) && x != id@ {
                            let k = keys.index_of(x);
                            if k < i {
                                assert(now[k] == x);
                            } else {
                                assert(now[k - 1] == x);
                            }
                        }
                        if now.contains(x) {
                            let k = now.index_of(x);
                            if k < i {
                                assert(keys[k] == x);
                            } else {
                                assert(keys[k + 1] == x);
                            }
                        }
                    }
                    assert forall|x: Seq<char>| self@.contains_key(x) implies self@[x] == old(
                        self,
                    )@.remove(id@)[x] by {
                        let k = now.index_of(x);
                        assert(now[k] == x);
                        let k0 = if k < i {
                            k
                        } else {
                            k + 1
                        };
                        assert(keys[k0] == x);
                        assert(keys.index_of(x) == k0);
                    }
                    assert(self@ =~= old(self)@.remove(id@));
                }
                Some(token)
            },
            None => {
                assert(self@ =~= old(self)@.remove(id@));
                None
            },
        }
    }
}

// ---- everything surfaced ----------------------------------------------------

/// Panes/workspaces we have pushed status onto this run, so shutdown can clear
/// them. The stored value is the currently-set status token, so a severity flip
/// (e.g. dirty → conflict) clears the previous token before setting the new one.
#[derive(Debug)]
pub struct Surfaced {
    /// Panes carrying our pseudo-agent (released, not TTL'd).
    pub pseudo: IdSet,
    /// Pane id → its active TTL'd status token (agents-panel mode).
    pub metadata: TokenMap,
    /// Workspace id → its active TTL'd status token (sidebar mode → the spaces
    /// card, which renders workspace tokens rather than pane tokens).
    pub workspaces: TokenMap,
}

/// What has been surfaced, as sets and maps.
pub ghost struct SurfacedView {
    pub pseudo: Set<Seq<char>>,
    pub metadata: Map<Seq<char>, Seq<char>>,
    pub workspaces: Map<Seq<char>, Seq<char>>,
}

impl View for Surfaced {
    type V = SurfacedView;

    open spec fn view(&self) -> SurfacedView {
        SurfacedView {
            pseudo: self.pseudo@,
            metadata: self.metadata@,
            workspaces: self.workspaces@,
        }
    }
}

impl Default for Surfaced {
    fn default() -> (s: Self)
        ensures
            s@.pseudo == Set::<Seq<char>>::empty(),
            s@.metadata == Map::<Seq<char>, Seq<char>>::empty(),
            s@.workspaces == Map::<Seq<char>, Seq<char>>::empty(),
    {
        Surfaced { pseudo: IdSet::new(), metadata: TokenMap::new(), workspaces: TokenMap::new() }
    }
}

} // verus!
