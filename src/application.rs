use vstd::prelude::*;

use crate::preferences::{Preferences, Theme};
use crate::timer::{message_step, Action, KubiaTimer, Message};

verus! {

/// The whole application state: the user's preferences and the timer.
pub struct KTApplication {
    preferences: Preferences,
    timer: KubiaTimer,
}

impl KTApplication {
    pub closed spec fn spec_theme(&self) -> Theme {
        self.preferences.theme
    }

    pub closed spec fn spec_timer(&self) -> KubiaTimer {
        self.timer
    }

    pub closed spec fn wf(&self) -> bool {
        self.timer.wf()
    }

    /// Default preferences and a fresh timer; `now` is the current instant.
    pub fn new(now: u64) -> (r: KTApplication)
        ensures
            r.wf(),
            r.spec_theme() == Theme::Light,
            r.spec_timer().spec_state() == (crate::timer::State::Idle { pressed: false }),
            r.spec_timer().entries().len() == 0,
            r.spec_timer().pressed_at() == now,
    {
        KTApplication { preferences: Preferences::new(), timer: KubiaTimer::new(now) }
    }

    pub fn theme(&self) -> (r: Theme)
        ensures
            r == self.spec_theme(),
    {
        self.preferences.theme
    }

    pub fn timer(&self) -> (r: &KubiaTimer)
        ensures
            *r == self.spec_timer(),
            self.wf() ==> r.wf(),
    {
        &self.timer
    }

    /// Handles one event: a theme choice changes the preferences, every other
    /// event goes to the timer.
    pub fn update(&mut self, message: Message, now: u64, timestamp: u64) -> (r: Action)
        requires
            old(self).wf(),
        ensures
            final(self).wf(),
            message matches Message::ThemeSelected(t) ==> {
                &&& final(self).spec_theme() == t
                &&& final(self).spec_timer() == old(self).spec_timer()
                &&& r == Action::Nothing
            },
            !(message is ThemeSelected) ==> {
                &&& final(self).spec_theme() == old(self).spec_theme()
                &&& message_step(old(self).spec_timer(), final(self).spec_timer(), message, now, timestamp, r)
            },
    {
        match message {
            Message::ThemeSelected(theme) => {
                self.preferences.theme = theme;
                Action::Nothing
            },
            _ => self.timer.update(message, now, timestamp),
        }
    }
}

} // verus!
