//! The inspector's selection state: which entity is selected, whether the
//! panel is open, and whether its cached edit fields still belong to the
//! entity on show.
//!
//! The shell owns the widgets; every decision about what the state becomes
//! on a click, a spawn, a close or a delete is taken here, exactly.

use vstd::prelude::*;

verus! {

/// Global editor UI state: whether the scene editor panels are shown at all.
pub struct SceneEditState {
    pub panel_open: bool,
}

impl Default for SceneEditState {
    /// The editor starts with its panels shown.
    fn default() -> (r: Self)
        ensures
            r.panel_open == true,
    {
        SceneEditState { panel_open: true }
    }
}

impl SceneEditState {
    /// The panel hotkey: shown becomes hidden and back.
    pub fn toggle(&mut self)
        ensures
            final(self).panel_open == !old(self).panel_open,
    {
        self.panel_open = !self.panel_open;
    }
}

/// The inspector window's state over the currently selected entity (entities
/// are plain numeric ids here; the shell maps them to its own handles).
pub struct InspectorState {
    /// The entity whose values the cached edit fields were last loaded from.
    pub last_selected: Option<u64>,
    /// The entity the inspector acts on, if any.
    pub selected: Option<u64>,
    /// Whether the inspector window is open.
    pub window_open: bool,
    /// Whether the cached edit fields reflect the selected entity; cleared
    /// when the selection changes so the window reloads them.
    pub cache_initialized: bool,
}

impl Default for InspectorState {
    /// No selection, window closed, nothing cached.
    fn default() -> (r: Self)
        ensures
            r.selected is None,
            r.last_selected is None,
            !r.window_open,
            !r.cache_initialized,
    {
        InspectorState { last_selected: None, selected: None, window_open: false,
            cache_initialized: false }
    }
}

impl InspectorState {
    /// A click hit entity `e`: select it and open the window. If the
    /// selection actually changed, drop the cached fields so they reload.
    pub fn select(&mut self, e: u64)
        ensures
            final(self).selected == Some(e),
            final(self).window_open,
            old(self).selected == Some(e) ==> {
                &&& final(self).cache_initialized == old(self).cache_initialized
                &&& final(self).last_selected == old(self).last_selected
            },
            old(self).selected != Some(e) ==> {
                &&& !final(self).cache_initialized
                &&& final(self).last_selected == Some(e)
            },
    {
        let changed: bool = match self.selected {
            Some(prev) => prev != e,
            None => true,
        };
        self.selected = Some(e);
        self.window_open = true;
        if changed {
            self.cache_initialized = false;
            self.last_selected = Some(e);
        }
    }

    /// A new object was just spawned as entity `e`: focus it and force the
    /// cached fields to reload from its transform.
    pub fn spawn_new(&mut self, e: u64)
        ensures
            final(self).selected == Some(e),
            final(self).window_open,
            !final(self).cache_initialized,
            final(self).last_selected == Some(e),
    {
        self.selected = Some(e);
        self.window_open = true;
        self.cache_initialized = false;
        self.last_selected = Some(e);
    }

    /// Whether the cached edit fields must be reloaded before showing
    /// entity `e`.
    pub fn needs_reload(&self, e: u64) -> (r: bool)
        ensures
            r == (!self.cache_initialized || self.last_selected != Some(e)),
    {
        !self.cache_initialized || !(match self.last_selected {
            Some(prev) => prev == e,
            None => false,
        })
    }

    /// The cached fields were just loaded from entity `e`.
    pub fn mark_cached(&mut self, e: u64)
        ensures
            final(self).selected == old(self).selected,
            final(self).window_open,
            final(self).cache_initialized,
            final(self).last_selected == Some(e),
    {
        self.cache_initialized = true;
        self.window_open = true;
        self.last_selected = Some(e);
    }

    /// The user closed the window: keep the selection, drop the cache.
    pub fn close_window(&mut self)
        ensures
            final(self).selected == old(self).selected,
            final(self).last_selected == old(self).last_selected,
            !final(self).window_open,
            !final(self).cache_initialized,
    {
        self.window_open = false;
        self.cache_initialized = false;
    }

    /// The user deleted the selected entity: hand its id back for the shell
    /// to despawn and clear everything.
    pub fn delete_selected(&mut self) -> (prev: Option<u64>)
        ensures
            prev == old(self).selected,
            final(self).selected is None,
            final(self).last_selected is None,
            !final(self).window_open,
            !final(self).cache_initialized,
    {
        let prev: Option<u64> = self.selected;
        self.selected = None;
        self.window_open = false;
        self.cache_initialized = false;
        self.last_selected = None;
        prev
    }
}

} // verus!
