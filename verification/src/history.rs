//! What the browser's session history will tell us, which is less than it looks.
//!
//! `can_go_back` is always true on the web: the browser will not say whether the
//! entry behind the current one is a page of ours or whatever the tab showed
//! before somebody followed a link into the app. The one thing it does expose is
//! how many entries the session has. Recording that as the document loads —
//! before anything can navigate — is enough to tell a back that stays inside the
//! app from one that walks out of it.

use vstd::prelude::*;

verus! {

/// How long the session history was when this document loaded.
#[derive(Clone, Copy, PartialEq, Eq, Debug)]
pub struct AtEntry(pub u32);

impl AtEntry {
    /// Whether the app has since pushed an entry of its own, so there is a page
    /// of ours behind this one: the history, `length` entries long now, has grown
    /// since the document loaded.
    pub fn app_has_pushed(self, length: u32) -> (r: bool)
        ensures
            r == (length > self.0),
    {
        length > self.0
    }
}

} // verus!
