//! Which level of the WAD archive is loaded, and which one was asked for next.
//!
//! Loading a level reads the archive, so the caller does it: `begin_update` says which level
//! to load, if any, and `level_loaded` records that it was loaded.
use vstd::prelude::*;

verus! {

/// The initial level index lies outside the archive's levels.
#[derive(Eq, PartialEq, Structural, Copy, Clone, Debug)]
pub struct LevelOutOfRange {
    pub level_index: usize,
    pub num_levels: usize,
}

/// The level bookkeeping of the WAD system.
pub struct WadSystem {
    num_levels: usize,
    current_level_index: usize,
    next_level_index: usize,
    level_changed: bool,
}

impl WadSystem {
    pub closed spec fn levels(self) -> usize {
        self.num_levels
    }

    pub closed spec fn current(self) -> usize {
        self.current_level_index
    }

    pub closed spec fn next(self) -> usize {
        self.next_level_index
    }

    pub closed spec fn changed(self) -> bool {
        self.level_changed
    }

    /// The current level is one of the archive's levels.
    pub open spec fn wf(self) -> bool {
        self.current() < self.levels()
    }

    /// Starts at `level_index` of an archive with `num_levels` levels; an index outside the
    /// archive is refused.
    pub fn create(level_index: usize, num_levels: usize) -> (created: Result<Self, LevelOutOfRange>)
        ensures
            created is Ok == (level_index < num_levels),
            created matches Ok(select) ==> {
                &&& select.wf()
                &&& select.levels() == num_levels
                &&& select.current() == level_index
                &&& select.next() == level_index
                &&& !select.changed()
            },
            created matches Err(e) ==> e == (LevelOutOfRange { level_index, num_levels }),
    {
        if level_index >= num_levels {
            return Err(LevelOutOfRange { level_index, num_levels });
        }
        Ok(WadSystem {
            num_levels,
            current_level_index: level_index,
            next_level_index: level_index,
            level_changed: false,
        })
    }

    /// The index of the current level.
    pub fn level_index(&self) -> (index: usize)
        ensures
            index == self.current(),
    {
        self.current_level_index
    }

    /// How many levels the archive has.
    pub fn num_levels(&self) -> (count: usize)
        ensures
            count == self.levels(),
    {
        self.num_levels
    }

    /// Asks for level `new_level_index` at the next update.
    pub fn change_level(&mut self, new_level_index: usize)
        ensures
            final(self).next() == new_level_index,
            final(self).current() == old(self).current(),
            final(self).levels() == old(self).levels(),
            final(self).changed() == old(self).changed(),
    {
        self.next_level_index = new_level_index;
    }

    /// Whether the last update replaced the level.
    pub fn level_changed(&self) -> (changed: bool)
        ensures
            changed == self.changed(),
    {
        self.level_changed
    }

    /// Starts an update: clears the change flag, drops a request for a level outside the
    /// archive, and otherwise makes the requested level current and returns it for loading.
    pub fn begin_update(&mut self) -> (to_load: Option<usize>)
        requires
            old(self).wf(),
        ensures
            final(self).wf(),
            !final(self).changed(),
            final(self).levels() == old(self).levels(),
            old(self).next() == old(self).current() ==> {
                &&& to_load is None
                &&& final(self).current() == old(self).current()
                &&& final(self).next() == old(self).next()
            },
            old(self).next() != old(self).current() && old(self).next() >= old(self).levels() ==> {
                &&& to_load is None
                &&& final(self).current() == old(self).current()
                &&& final(self).next() == old(self).current()
            },
            old(self).next() != old(self).current() && old(self).next() < old(self).levels() ==> {
                &&& to_load == Some(old(self).next())
                &&& final(self).current() == old(self).next()
                &&& final(self).next() == old(self).next()
            },
    {
        self.level_changed = false;
        if self.next_level_index != self.current_level_index {
            if self.next_level_index >= self.num_levels {
                self.next_level_index = self.current_level_index;
            } else {
                self.current_level_index = self.next_level_index;
                return Some(self.next_level_index);
            }
        }
        None
    }

    /// Records that the level that `begin_update` returned was loaded.
    pub fn level_loaded(&mut self)
        ensures
            final(self).changed(),
            final(self).current() == old(self).current(),
            final(self).next() == old(self).next(),
            final(self).levels() == old(self).levels(),
    {
        self.level_changed = true;
    }
}

} // verus!
