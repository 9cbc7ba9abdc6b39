//! The hash tables of the engine, as far as the grid needs them.
//!
//! The tables are `bevy::utils::HashMap` and `bevy::utils::HashSet`, keyed by
//! tuples of integers. Nothing in this file is proved: each function hands
//! one call to the table and states what the table's documentation says of
//! it. A table is described by what it holds, a map or a set of plain values.

use vstd::prelude::*;
use crate::coord::Coord;

verus! {

/// The value under `k` in `m`, if there is one.
pub open spec fn lookup<K, V>(m: Map<K, V>, k: K) -> Option<V> {
    if m.contains_key(k) {
        Some(m[k])
    } else {
        None
    }
}

/// A table from cells to numbers: a `bevy::utils::HashMap` keyed by the
/// three coordinates of the cell.
#[verifier::external_body]
pub struct CoordMap {
    inner: bevy::utils::HashMap<(i32, i32, i32), u64>,
}

/// What a [`CoordMap`] holds.
pub uninterp spec fn coord_map_entries(m: CoordMap) -> Map<Coord, u64>;

impl View for CoordMap {
    type V = Map<Coord, u64>;

    open spec fn view(&self) -> Map<Coord, u64> {
        coord_map_entries(*self)
    }
}

impl CoordMap {
    /// `HashMap::default`: a table that holds nothing.
    #[verifier::external_body]
    pub(crate) fn new() -> (m: CoordMap)
        ensures
            coord_map_entries(m).dom() == Set::<Coord>::empty(),
    {
        CoordMap { inner: bevy::utils::HashMap::default() }
    }

    /// `HashMap::insert`: puts `v` under `k` and returns what was there
    /// before, if anything was.
    #[verifier::external_body]
    pub(crate) fn insert(&mut self, k: Coord, v: u64) -> (prev: Option<u64>)
        ensures
            coord_map_entries(*final(self)) == coord_map_entries(*old(self)).insert(k, v),
            prev == lookup(coord_map_entries(*old(self)), k),
    {
        self.inner.insert(k.key(), v)
    }

    /// `HashMap::get`: the value under `k`, if there is one.
    #[verifier::external_body]
    pub(crate) fn get(&self, k: Coord) -> (v: Option<u64>)
        ensures
            v == lookup(coord_map_entries(*self), k),
    {
        self.inner.get(&k.key()).copied()
    }

    /// `HashMap::remove`: takes the entry under `k` out and returns its
    /// value, if there was one.
    #[verifier::external_body]
    pub(crate) fn remove(&mut self, k: Coord) -> (prev: Option<u64>)
        ensures
            coord_map_entries(*final(self)) == coord_map_entries(*old(self)).remove(k),
            prev == lookup(coord_map_entries(*old(self)), k),
    {
        self.inner.remove(&k.key())
    }
}

/// A table from numbers to cells: a `bevy::utils::HashMap` whose values are
/// the three coordinates of a cell.
#[verifier::external_body]
pub struct IdMap {
    inner: bevy::utils::HashMap<u64, (i32, i32, i32)>,
}

/// What an [`IdMap`] holds.
pub uninterp spec fn id_map_entries(m: IdMap) -> Map<u64, Coord>;

impl View for IdMap {
    type V = Map<u64, Coord>;

    open spec fn view(&self) -> Map<u64, Coord> {
        id_map_entries(*self)
    }
}

impl IdMap {
    /// `HashMap::default`: a table that holds nothing.
    #[verifier::external_body]
    pub(crate) fn new() -> (m: IdMap)
        ensures
            id_map_entries(m).dom() == Set::<u64>::empty(),
    {
        IdMap { inner: bevy::utils::HashMap::default() }
    }

    /// `HashMap::insert`: puts `v` under `k` and returns what was there
    /// before, if anything was.
    #[verifier::external_body]
    pub(crate) fn insert(&mut self, k: u64, v: Coord) -> (prev: Option<Coord>)
        ensures
            id_map_entries(*final(self)) == id_map_entries(*old(self)).insert(k, v),
            prev == lookup(id_map_entries(*old(self)), k),
    {
        self.inner.insert(k, v.key()).map(Coord::from_key)
    }

    /// `HashMap::get`: the value under `k`, if there is one.
    #[verifier::external_body]
    pub(crate) fn get(&self, k: u64) -> (v: Option<Coord>)
        ensures
            v == lookup(id_map_entries(*self), k),
    {
        self.inner.get(&k).copied().map(Coord::from_key)
    }

    /// `HashMap::remove`: takes the entry under `k` out and returns its
    /// value, if there was one.
    #[verifier::external_body]
    pub(crate) fn remove(&mut self, k: u64) -> (prev: Option<Coord>)
        ensures
            id_map_entries(*final(self)) == id_map_entries(*old(self)).remove(k),
            prev == lookup(id_map_entries(*old(self)), k),
    {
        self.inner.remove(&k).map(Coord::from_key)
    }
}

/// A table from cells to cells: a `bevy::utils::HashMap` whose keys and
/// values are the three coordinates of a cell.
#[verifier::external_body]
pub struct LinkMap {
    inner: bevy::utils::HashMap<(i32, i32, i32), (i32, i32, i32)>,
}

/// What a [`LinkMap`] holds.
pub uninterp spec fn link_map_entries(m: LinkMap) -> Map<Coord, Coord>;

impl View for LinkMap {
    type V = Map<Coord, Coord>;

    open spec fn view(&self) -> Map<Coord, Coord> {
        link_map_entries(*self)
    }
}

impl LinkMap {
    /// `HashMap::default`: a table that holds nothing.
    #[verifier::external_body]
    pub(crate) fn new() -> (m: LinkMap)
        ensures
            link_map_entries(m).dom() == Set::<Coord>::empty(),
    {
        LinkMap { inner: bevy::utils::HashMap::default() }
    }

    /// `HashMap::insert`: puts `v` under `k` and returns what was there
    /// before, if anything was.
    #[verifier::external_body]
    pub(crate) fn insert(&mut self, k: Coord, v: Coord) -> (prev: Option<Coord>)
        ensures
            link_map_entries(*final(self)) == link_map_entries(*old(self)).insert(k, v),
            prev == lookup(link_map_entries(*old(self)), k),
    {
        self.inner.insert(k.key(), v.key()).map(Coord::from_key)
    }

    /// `HashMap::get`: the value under `k`, if there is one.
    #[verifier::external_body]
    pub(crate) fn get(&self, k: Coord) -> (v: Option<Coord>)
        ensures
            v == lookup(link_map_entries(*self), k),
    {
        self.inner.get(&k.key()).copied().map(Coord::from_key)
    }
}

/// A set of cells: a `bevy::utils::HashSet` of the three coordinates of
/// each.
#[verifier::external_body]
pub struct CoordSet {
    inner: bevy::utils::HashSet<(i32, i32, i32)>,
}

/// The cells in a [`CoordSet`].
pub uninterp spec fn coord_set_members(s: CoordSet) -> Set<Coord>;

impl View for CoordSet {
    type V = Set<Coord>;

    open spec fn view(&self) -> Set<Coord> {
        coord_set_members(*self)
    }
}

impl CoordSet {
    /// `HashSet::default`: a set without members.
    #[verifier::external_body]
    pub(crate) fn new() -> (s: CoordSet)
        ensures
            coord_set_members(s) == Set::<Coord>::empty(),
    {
        CoordSet { inner: bevy::utils::HashSet::default() }
    }

    /// `HashSet::insert`: adds `c` and says whether it was new.
    #[verifier::external_body]
    pub(crate) fn insert(&mut self, c: Coord) -> (fresh: bool)
        ensures
            coord_set_members(*final(self)) == coord_set_members(*old(self)).insert(c),
            fresh == !coord_set_members(*old(self)).contains(c),
    {
        self.inner.insert(c.key())
    }

    /// `HashSet::contains`: whether `c` is a member.
    #[verifier::external_body]
    pub(crate) fn has(&self, c: Coord) -> (b: bool)
        ensures
            b == coord_set_members(*self).contains(c),
    {
        self.inner.contains(&c.key())
    }

    /// Whether `c` is in the set.
    pub fn contains(&self, c: Coord) -> (b: bool)
        ensures
            b == self@.contains(c),
    {
        self.has(c)
    }
}

} // verus!
