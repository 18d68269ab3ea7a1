//! View settings of the graph widget and the rules that tie them together.
use vstd::prelude::*;

verus! {

/// What the user may do with nodes and edges of the graph view.
#[derive(Clone, Copy, Debug)]
pub struct SettingsInteraction {
    pub dragging_enabled: bool,
    pub node_clicking_enabled: bool,
    pub node_selection_enabled: bool,
    pub node_selection_multi_enabled: bool,
    pub edge_clicking_enabled: bool,
    pub edge_selection_enabled: bool,
    pub edge_selection_multi_enabled: bool,
}

impl Default for SettingsInteraction {
    /// Dragging, clicking and single selection on; multi-selection off.
    fn default() -> (r: Self)
        ensures
            r.node_click_consistent(),
            r.edge_click_consistent(),
            r.dragging_enabled,
            r.node_clicking_enabled,
            r.node_selection_enabled,
            !r.node_selection_multi_enabled,
            r.edge_clicking_enabled,
            r.edge_selection_enabled,
            !r.edge_selection_multi_enabled,
    {
        SettingsInteraction {
            dragging_enabled: true,
            node_clicking_enabled: true,
            node_selection_enabled: true,
            node_selection_multi_enabled: false,
            edge_clicking_enabled: true,
            edge_selection_enabled: true,
            edge_selection_multi_enabled: false,
        }
    }
}

impl SettingsInteraction {
    /// Node clicking is on whenever an interaction that needs it is on.
    pub open spec fn node_click_consistent(&self) -> bool {
        (self.dragging_enabled || self.node_selection_enabled || self.node_selection_multi_enabled)
            ==> self.node_clicking_enabled
    }

    /// Edge clicking is on whenever an edge selection is on.
    pub open spec fn edge_click_consistent(&self) -> bool {
        (self.edge_selection_enabled || self.edge_selection_multi_enabled) ==> self.edge_clicking_enabled
    }

    /// The "dragging_enabled" box was drawn and now shows `checked` (a click
    /// flips it): dragging follows it, and turning dragging on turns node
    /// clicking on. Keeps both clicking rules.
    pub fn dragging_checkbox(&mut self, checked: bool)
        ensures
            final(self).dragging_enabled == checked,
            final(self).node_clicking_enabled == (old(self).node_clicking_enabled
                || (checked && checked != old(self).dragging_enabled)),
            final(self).node_selection_enabled == old(self).node_selection_enabled,
            final(self).node_selection_multi_enabled == old(self).node_selection_multi_enabled,
            final(self).edge_clicking_enabled == old(self).edge_clicking_enabled,
            final(self).edge_selection_enabled == old(self).edge_selection_enabled,
            final(self).edge_selection_multi_enabled == old(self).edge_selection_multi_enabled,
            old(self).node_click_consistent() ==> final(self).node_click_consistent(),
            old(self).edge_click_consistent() ==> final(self).edge_click_consistent(),
    {
        let clicked = checked != self.dragging_enabled;
        self.dragging_enabled = checked;
        self.dragging_clicked(clicked);
    }

    /// The "node_clicking_enabled" box was drawn and shows `checked`; it is
    /// disabled, and so changes nothing, unless `node_clicking_editable`.
    /// Keeps both clicking rules.
    pub fn node_clicking_checkbox(&mut self, checked: bool)
        ensures
            final(self).node_clicking_enabled == (if old(self).node_clicking_editable_spec() {
                checked
            } else {
                old(self).node_clicking_enabled
            }),
            final(self).dragging_enabled == old(self).dragging_enabled,
            final(self).node_selection_enabled == old(self).node_selection_enabled,
            final(self).node_selection_multi_enabled == old(self).node_selection_multi_enabled,
            final(self).edge_clicking_enabled == old(self).edge_clicking_enabled,
            final(self).edge_selection_enabled == old(self).edge_selection_enabled,
            final(self).edge_selection_multi_enabled == old(self).edge_selection_multi_enabled,
            old(self).node_click_consistent() ==> final(self).node_click_consistent(),
            old(self).edge_click_consistent() ==> final(self).edge_click_consistent(),
    {
        if self.node_clicking_editable() {
            self.node_clicking_enabled = checked;
        }
    }

    /// The "edge_clicking_enabled" box was drawn and shows `checked`; it is
    /// disabled, and so changes nothing, unless `edge_clicking_editable`.
    /// Keeps both clicking rules.
    pub fn edge_clicking_checkbox(&mut self, checked: bool)
        ensures
            final(self).edge_clicking_enabled == (if old(self).edge_clicking_editable_spec() {
                checked
            } else {
                old(self).edge_clicking_enabled
            }),
            final(self).dragging_enabled == old(self).dragging_enabled,
            final(self).node_clicking_enabled == old(self).node_clicking_enabled,
            final(self).node_selection_enabled == old(self).node_selection_enabled,
            final(self).node_selection_multi_enabled == old(self).node_selection_multi_enabled,
            final(self).edge_selection_enabled == old(self).edge_selection_enabled,
            final(self).edge_selection_multi_enabled == old(self).edge_selection_multi_enabled,
            old(self).node_click_consistent() ==> final(self).node_click_consistent(),
            old(self).edge_click_consistent() ==> final(self).edge_click_consistent(),
    {
        if self.edge_clicking_editable() {
            self.edge_clicking_enabled = checked;
        }
    }

    /// No other node interaction is on.
    pub open spec fn node_clicking_editable_spec(&self) -> bool {
        !(self.dragging_enabled || self.node_selection_enabled || self.node_selection_multi_enabled)
    }

    /// No edge selection is on.
    pub open spec fn edge_clicking_editable_spec(&self) -> bool {
        !(self.edge_selection_enabled || self.edge_selection_multi_enabled)
    }

    /// The "dragging_enabled" box was clicked: turning dragging on turns
    /// node clicking on too.
    pub fn dragging_clicked(&mut self, clicked: bool)
        ensures
            final(self).node_clicking_enabled == (old(self).node_clicking_enabled || (clicked && old(self).dragging_enabled)),
            final(self).dragging_enabled == old(self).dragging_enabled,
            final(self).node_selection_enabled == old(self).node_selection_enabled,
            final(self).node_selection_multi_enabled == old(self).node_selection_multi_enabled,
            final(self).edge_clicking_enabled == old(self).edge_clicking_enabled,
            final(self).edge_selection_enabled == old(self).edge_selection_enabled,
            final(self).edge_selection_multi_enabled == old(self).edge_selection_multi_enabled,
    {
        if clicked && self.dragging_enabled {
            self.node_clicking_enabled = true;
        }
    }

    /// The node-clicking box can be changed only while no other node
    /// interaction (dragging, selection) is on, since those imply clicking.
    pub fn node_clicking_editable(&self) -> (r: bool)
        ensures
            r == !(self.dragging_enabled || self.node_selection_enabled || self.node_selection_multi_enabled),
    {
        !(self.dragging_enabled || self.node_selection_enabled || self.node_selection_multi_enabled)
    }

    /// The edge-clicking box can be changed only while edge selection is off.
    pub fn edge_clicking_editable(&self) -> (r: bool)
        ensures
            r == !(self.edge_selection_enabled || self.edge_selection_multi_enabled),
    {
        !(self.edge_selection_enabled || self.edge_selection_multi_enabled)
    }
}

/// Whether labels are shown always or only on interaction.
#[derive(Clone, Copy, Debug)]
pub struct SettingsStyle {
    pub labels_always: bool,
}

impl Default for SettingsStyle {
    /// Labels always shown.
    fn default() -> (r: Self)
        ensures
            r.labels_always,
    {
        SettingsStyle { labels_always: true }
    }
}

/// The two switches of graph navigation.
#[derive(Clone, Copy, Debug)]
pub struct NavigationFlags {
    pub fit_to_screen_enabled: bool,
    pub zoom_and_pan_enabled: bool,
}

impl Default for NavigationFlags {
    /// Fitting to the screen off, zoom and pan on.
    fn default() -> (r: Self)
        ensures
            !r.fit_to_screen_enabled,
            r.zoom_and_pan_enabled,
            r.consistent(),
    {
        NavigationFlags { fit_to_screen_enabled: false, zoom_and_pan_enabled: true }
    }
}

impl NavigationFlags {
    /// Zoom and pan are off while fitting to the screen is on.
    pub open spec fn consistent(&self) -> bool {
        self.fit_to_screen_enabled ==> !self.zoom_and_pan_enabled
    }

    /// The "fit_to_screen" box was drawn and shows `checked`: turning it on
    /// turns zoom and pan off; turning it off leaves them as they are.
    /// Keeps the rule.
    pub fn fit_to_screen_checkbox(&mut self, checked: bool)
        ensures
            final(self).fit_to_screen_enabled == checked,
            final(self).zoom_and_pan_enabled == (old(self).zoom_and_pan_enabled
                && !(checked && checked != old(self).fit_to_screen_enabled)),
            old(self).consistent() ==> final(self).consistent(),
    {
        let changed = checked != self.fit_to_screen_enabled;
        self.fit_to_screen_enabled = checked;
        self.zoom_and_pan_enabled = zoom_and_pan_after_fit_toggle(changed, checked, self.zoom_and_pan_enabled);
    }

    /// The "zoom_and_pan" box was drawn and shows `checked`; it is disabled,
    /// and so changes nothing, while fitting to the screen is on. Keeps the
    /// rule.
    pub fn zoom_and_pan_checkbox(&mut self, checked: bool)
        ensures
            final(self).fit_to_screen_enabled == old(self).fit_to_screen_enabled,
            final(self).zoom_and_pan_enabled == (if old(self).fit_to_screen_enabled {
                old(self).zoom_and_pan_enabled
            } else {
                checked
            }),
            old(self).consistent() ==> final(self).consistent(),
    {
        if !self.fit_to_screen_enabled {
            self.zoom_and_pan_enabled = checked;
        }
    }
}

/// The zoom-and-pan flag after the "fit_to_screen" box was drawn: fitting to
/// the screen, once switched on, switches zoom and pan off.
pub fn zoom_and_pan_after_fit_toggle(changed: bool, fit_to_screen_enabled: bool, zoom_and_pan_enabled: bool) -> (r: bool)
    ensures
        r == (zoom_and_pan_enabled && !(changed && fit_to_screen_enabled)),
{
    if changed && fit_to_screen_enabled {
        false
    } else {
        zoom_and_pan_enabled
    }
}

} // verus!
