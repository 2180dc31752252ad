//! The windows that a runner manages, keyed by the identifiers of the windowing system.
use vstd::prelude::*;
use crate::entities::entity_id::EntityId;

verus! {

/// What a runner records of a window besides the window itself.
#[derive(Clone, Copy, PartialEq, Eq, Structural, Debug)]
pub struct WindowRecord {
    /// The entity that has the window component.
    pub entity: EntityId,
    /// The width of the surface, in physical pixels.
    pub width: u32,
    /// The height of the surface, in physical pixels.
    pub height: u32,
    /// Whether the window has a surface to render to.
    pub has_surface: bool,
    /// Whether the surface must be configured before the next frame.
    pub needs_configuration: bool,
}

/// A `hashbrown` hash map from window identifiers to window records.
#[verifier::external_body]
pub struct WindowMap {
    map: hashbrown::HashMap<u64, WindowRecord, foldhash::fast::FixedState>,
}

/// The records of a [`WindowMap`], by window identifier.
pub uninterp spec fn window_map_entries(m: WindowMap) -> Map<u64, WindowRecord>;

impl WindowMap {
    /// Creates an empty map with `hashbrown::HashMap::default`.
    #[verifier::external_body]
    pub(crate) fn new() -> (res: WindowMap)
        ensures
            window_map_entries(res).dom() == Set::<u64>::empty(),
    {
        WindowMap { map: hashbrown::HashMap::default() }
    }

    /// Looks a window up with `hashbrown::HashMap::get`, which returns the record stored for it.
    #[verifier::external_body]
    pub(crate) fn get(&self, id: u64) -> (res: Option<WindowRecord>)
        ensures
            res is Some <==> window_map_entries(*self).contains_key(id),
            res matches Some(r) ==> r == window_map_entries(*self)[id],
    {
        self.map.get(&id).copied()
    }

    /// Stores the record of a window with `hashbrown::HashMap::insert`, which replaces any
    /// record stored for it before.
    #[verifier::external_body]
    pub(crate) fn insert(&mut self, id: u64, record: WindowRecord)
        ensures
            window_map_entries(*final(self)) == window_map_entries(*old(self)).insert(id, record),
    {
        self.map.insert(id, record);
    }

    /// Removes the record of a window with `hashbrown::HashMap::remove`.
    #[verifier::external_body]
    pub(crate) fn remove(&mut self, id: u64)
        ensures
            window_map_entries(*final(self)) == window_map_entries(*old(self)).remove(id),
    {
        self.map.remove(&id);
    }

    /// Tests whether the map holds no record with `hashbrown::HashMap::is_empty`.
    #[verifier::external_body]
    pub(crate) fn is_empty(&self) -> (res: bool)
        ensures
            res <==> window_map_entries(*self).dom() == Set::<u64>::empty(),
    {
        self.map.is_empty()
    }

    /// Collects the window identifiers with `hashbrown::HashMap::keys`, in the map's iteration
    /// order, which this contract leaves open: each identifier comes out once.
    #[verifier::external_body]
    pub(crate) fn keys(&self) -> (res: Vec<u64>)
        ensures
            res@.to_set() == window_map_entries(*self).dom(),
            res@.no_duplicates(),
    {
        self.map.keys().copied().collect()
    }
}

/// What to do to render a frame to a window.
#[derive(Clone, Copy, PartialEq, Eq, Structural, Debug)]
pub enum RedrawPlan {
    /// The window is not managed by the runner: nothing is done.
    UnknownWindow,
    /// The window has no surface: the schedules run, and nothing is presented.
    NoSurface,
    /// The surface is configured to the given width and height, then a frame is rendered and
    /// presented.
    ConfigureAndPresent { width: u32, height: u32 },
    /// A frame is rendered and presented.
    Present,
}

/// The windows that a runner manages, and whether surfaces can be created for them.
pub struct WindowTable {
    windows: WindowMap,
    surfaces_available: bool,
}

impl WindowTable {
    /// The records of the windows, by window identifier.
    pub closed spec fn records(&self) -> Map<u64, WindowRecord> {
        window_map_entries(self.windows)
    }

    /// Whether surfaces can be created for the windows.
    pub closed spec fn surfaces_enabled(&self) -> bool {
        self.surfaces_available
    }

    /// Creates a table with no window, before surfaces can be created.
    pub fn new() -> (r: WindowTable)
        ensures
            r.records() == Map::<u64, WindowRecord>::empty(),
            !r.surfaces_enabled(),
    {
        WindowTable { windows: WindowMap::new(), surfaces_available: false }
    }

    /// Returns whether surfaces can be created for the windows.
    pub fn surfaces_available(&self) -> (r: bool)
        ensures
            r == self.surfaces_enabled(),
    {
        self.surfaces_available
    }

    /// Returns the record of a window, if the runner manages it.
    pub fn get(&self, window_id: u64) -> (r: Option<WindowRecord>)
        ensures
            r == (if self.records().contains_key(window_id) {
                Some(self.records()[window_id])
            } else {
                None
            }),
    {
        self.windows.get(window_id)
    }

    /// Records a new window of the given size for `entity`. It has a surface where surfaces
    /// can be created, and that surface must be configured before the first frame.
    pub fn add_window(&mut self, window_id: u64, entity: EntityId, width: u32, height: u32) -> (r: WindowRecord)
        ensures
            r == (WindowRecord {
                entity,
                width,
                height,
                has_surface: old(self).surfaces_enabled(),
                needs_configuration: true,
            }),
            final(self).records() == old(self).records().insert(window_id, r),
            final(self).surfaces_enabled() == old(self).surfaces_enabled(),
    {
        let record = WindowRecord {
            entity,
            width,
            height,
            has_surface: self.surfaces_available,
            needs_configuration: true,
        };
        self.windows.insert(window_id, record);
        record
    }

    /// Records that the surface of a window was resized: it must be configured again before
    /// the next frame. Returns the entity of the window, if the runner manages it.
    pub fn resized(&mut self, window_id: u64, width: u32, height: u32) -> (r: Option<EntityId>)
        ensures
            final(self).surfaces_enabled() == old(self).surfaces_enabled(),
            !old(self).records().contains_key(window_id) ==> r is None && final(self).records()
                == old(self).records(),
            old(self).records().contains_key(window_id) ==> {
                let before = old(self).records()[window_id];
                &&& r == Some(before.entity)
                &&& final(self).records() == old(self).records().insert(
                    window_id,
                    WindowRecord { width, height, needs_configuration: true, ..before },
                )
            },
    {
        match self.windows.get(window_id) {
            None => None,
            Some(record) => {
                let updated = WindowRecord { width, height, needs_configuration: true, ..record };
                self.windows.insert(window_id, updated);
                Some(record.entity)
            },
        }
    }

    /// Decides how to render a frame to a window. A surface that needs to be configured is
    /// configured to the recorded size, and is then recorded as configured.
    pub fn begin_redraw(&mut self, window_id: u64) -> (r: RedrawPlan)
        ensures
            final(self).surfaces_enabled() == old(self).surfaces_enabled(),
            !old(self).records().contains_key(window_id) ==> r == RedrawPlan::UnknownWindow
                && final(self).records() == old(self).records(),
            old(self).records().contains_key(window_id) ==> {
                let before = old(self).records()[window_id];
                if !before.has_surface {
                    r == RedrawPlan::NoSurface && final(self).records() == old(self).records()
                } else if before.needs_configuration {
                    &&& r == (RedrawPlan::ConfigureAndPresent { width: before.width, height: before.height })
                    &&& final(self).records() == old(self).records().insert(
                        window_id,
                        WindowRecord { needs_configuration: false, ..before },
                    )
                } else {
                    r == RedrawPlan::Present && final(self).records() == old(self).records()
                }
            },
    {
        match self.windows.get(window_id) {
            None => RedrawPlan::UnknownWindow,
            Some(record) => {
                if !record.has_surface {
                    RedrawPlan::NoSurface
                } else if record.needs_configuration {
                    self.windows.insert(window_id, WindowRecord { needs_configuration: false, ..record });
                    proof {
                        assert(self.records() =~= old(self).records().insert(
                            window_id,
                            WindowRecord { needs_configuration: false, ..record },
                        ));
                    }
                    RedrawPlan::ConfigureAndPresent { width: record.width, height: record.height }
                } else {
                    RedrawPlan::Present
                }
            },
        }
    }

    /// Sets whether each window has a surface, keeping the rest of its record.
    fn set_surfaces(&mut self, present: bool)
        ensures
            final(self).surfaces_enabled() == old(self).surfaces_enabled(),
            final(self).records().dom() == old(self).records().dom(),
            forall|id: u64|
                #[trigger] final(self).records().contains_key(id) ==> final(self).records()[id]
                    == (WindowRecord { has_surface: present, ..old(self).records()[id] }),
    {
        let ids = self.windows.keys();
        let ghost before = self.records();
        let mut i: usize = 0;
        while i < ids.len()
            invariant
                ids@.to_set() == before.dom(),
                ids@.no_duplicates(),
                before == old(self).records(),
                self.surfaces_available == old(self).surfaces_available,
                i <= ids.len(),
                self.records().dom() == before.dom(),
                forall|id: u64|
                    #[trigger] self.records().contains_key(id) ==> self.records()[id] == if ids@.subrange(
                        0,
                        i as int,
                    ).contains(id) {
                        WindowRecord { has_surface: present, ..before[id] }
                    } else {
                        before[id]
                    },
            decreases ids.len() - i,
        {
            let id = ids[i];
            assert(ids@.to_set().contains(id));
            let record = self.windows.get(id).unwrap();
            self.windows.insert(id, WindowRecord { has_surface: present, ..record });
            proof {
                assert(self.records().dom() =~= before.dom());
                assert forall|x: u64| #[trigger] self.records().contains_key(x) implies self.records()[x]
                    == if ids@.subrange(0, i + 1).contains(x) {
                    WindowRecord { has_surface: present, ..before[x] }
                } else {
                    before[x]
                } by {
                    if x == id {
                        assert(ids@.subrange(0, i + 1)[i as int] == x);
                        assert(!ids@.subrange(0, i as int).contains(x)) by {
                            if ids@.subrange(0, i as int).contains(x) {
                                let j = choose|j: int| 0 <= j < i && #[trigger] ids@.subrange(0, i as int)[j] == x;
                                assert(ids@[j] == ids@[i as int]);
                            }
                        }
                    } else {
                        assert(ids@.subrange(0, i + 1).contains(x) == ids@.subrange(0, i as int).contains(x)) by {
                            if ids@.subrange(0, i + 1).contains(x) {
                                let j = choose|j: int| 0 <= j < i + 1 && #[trigger] ids@.subrange(0, i + 1)[j] == x;
                                assert(j != i);
                                assert(ids@.subrange(0, i as int)[j] == x);
                            }
                            if ids@.subrange(0, i as int).contains(x) {
                                let j = choose|j: int| 0 <= j < i && #[trigger] ids@.subrange(0, i as int)[j] == x;
                                assert(ids@.subrange(0, i + 1)[j] == x);
                            }
                        }
                    }
                }
            }
            i = i + 1;
        }
        proof {
            assert(ids@.subrange(0, ids@.len() as int) == ids@);
            assert forall|id: u64| #[trigger] self.records().contains_key(id) implies ids@.contains(id) by {
                assert(ids@.to_set().contains(id));
            }
        }
    }

    /// Records that surfaces can no longer be created: no window has a surface any more.
    pub fn suspend(&mut self)
        ensures
            !final(self).surfaces_enabled(),
            final(self).records().dom() == old(self).records().dom(),
            forall|id: u64|
                #[trigger] final(self).records().contains_key(id) ==> final(self).records()[id]
                    == (WindowRecord { has_surface: false, ..old(self).records()[id] }),
    {
        self.surfaces_available = false;
        self.set_surfaces(false);
    }

    /// Records that surfaces can be created again: every window gets a new surface.
    pub fn resume(&mut self)
        ensures
            final(self).surfaces_enabled(),
            final(self).records().dom() == old(self).records().dom(),
            forall|id: u64|
                #[trigger] final(self).records().contains_key(id) ==> final(self).records()[id]
                    == (WindowRecord { has_surface: true, ..old(self).records()[id] }),
    {
        self.surfaces_available = true;
        self.set_surfaces(true);
    }

    /// Returns the identifiers of the windows, each once, in an order that is left open.
    pub fn window_ids(&self) -> (r: Vec<u64>)
        ensures
            r@.to_set() == self.records().dom(),
            r@.no_duplicates(),
    {
        self.windows.keys()
    }

    /// Forgets the windows whose identifiers are listed: they are closed.
    pub fn close_windows(&mut self, closed: &Vec<u64>)
        ensures
            final(self).surfaces_enabled() == old(self).surfaces_enabled(),
            final(self).records() == old(self).records().remove_keys(closed@.to_set()),
    {
        let mut i: usize = 0;
        while i < closed.len()
            invariant
                i <= closed.len(),
                self.surfaces_available == old(self).surfaces_available,
                self.records() == old(self).records().remove_keys(closed@.subrange(0, i as int).to_set()),
            decreases closed.len() - i,
        {
            self.windows.remove(closed[i]);
            proof {
                assert(closed@.subrange(0, i + 1) == closed@.subrange(0, i as int).push(closed@[i as int]));
                closed@.subrange(0, i as int).lemma_push_to_set_commute(closed@[i as int]);
                assert(self.records() =~= old(self).records().remove_keys(
                    closed@.subrange(0, i + 1).to_set(),
                ));
            }
            i = i + 1;
        }
        assert(closed@.subrange(0, closed@.len() as int) == closed@);
    }

    /// Picks the windows to close once the user had control: each listed window whose entity
    /// no longer holds a window component that shows it. `shown` pairs the identifier of each
    /// window with the identifier of the window that the component of its entity shows, if the
    /// entity still has one.
    pub fn windows_to_close(shown: &Vec<(u64, Option<u64>)>) -> (r: Vec<u64>)
        ensures
            forall|id: u64|
                r@.contains(id) <==> exists|k: int|
                    0 <= k < shown@.len() && (#[trigger] shown@[k]).0 == id && shown@[k].1 != Some(id),
    {
        let mut closed: Vec<u64> = Vec::new();
        let mut i: usize = 0;
        while i < shown.len()
            invariant
                i <= shown@.len(),
                forall|id: u64|
                    closed@.contains(id) <==> exists|k: int|
                        0 <= k < i && (#[trigger] shown@[k]).0 == id && shown@[k].1 != Some(id),
            decreases shown@.len() - i,
        {
            let (id, current) = shown[i];
            let ghost before = closed@;
            let keep = match current {
                Some(c) => c == id,
                None => false,
            };
            if !keep {
                closed.push(id);
            }
            proof {
                assert forall|x: u64|
                    closed@.contains(x) <==> exists|k: int|
                        0 <= k < i + 1 && (#[trigger] shown@[k]).0 == x && shown@[k].1 != Some(x) by {
                    let had = before.contains(x);
                    assert(had <==> exists|k: int|
                        0 <= k < i && (#[trigger] shown@[k]).0 == x && shown@[k].1 != Some(x));
                    if had {
                        let w = choose|w: int| 0 <= w < before.len() && before[w] == x;
                        assert(closed@[w] == x);
                    }
                    if closed@.contains(x) && !had {
                        let w = choose|w: int| 0 <= w < closed@.len() && closed@[w] == x;
                        if w < before.len() {
                            assert(before[w] == x);
                        }
                        assert(shown@[i as int].0 == x);
                    }
                    if !keep && x == id {
                        assert(closed@[before.len() as int] == x);
                    }
                }
            }
            i = i + 1;
        }
        closed
    }

    /// Decides whether the event loop exits: when it was asked to, or when no window is left.
    pub fn should_exit(&self, exit_requested: bool) -> (r: bool)
        ensures
            r == (exit_requested || self.records().dom() == Set::<u64>::empty()),
    {
        exit_requested || self.windows.is_empty()
    }
}

/// Picks the format that surfaces are drawn in, among those that a surface supports, given
/// whether each is an sRGB format: the first sRGB format, or else the first format; none where
/// the surface supports no format.
pub fn pick_output_format(srgb: &Vec<bool>) -> (r: Option<usize>)
    ensures
        r is None <==> srgb@.len() == 0,
        r matches Some(i) ==> i < srgb@.len() && forall|j: int| 0 <= j < i ==> !#[trigger] srgb@[j],
        r matches Some(i) ==> srgb@[i as int] || (i == 0 && forall|j: int| 0 <= j < srgb@.len() ==> !#[trigger] srgb@[j]),
{
    let mut i: usize = 0;
    while i < srgb.len()
        invariant
            i <= srgb@.len(),
            forall|j: int| 0 <= j < i ==> !#[trigger] srgb@[j],
        decreases srgb@.len() - i,
    {
        if srgb[i] {
            return Some(i);
        }
        i = i + 1;
    }
    if srgb.len() == 0 {
        None
    } else {
        Some(0)
    }
}

} // verus!
