use vstd::prelude::*;

verus! {

/// The colour themes the timer can be shown in.
#[derive(Clone, Copy, Debug, PartialEq, Eq, Structural)]
pub enum Theme {
    Light,
    Dark,
    Tangible,
}

/// The name of a theme as shown to the user.
pub open spec fn theme_name(t: Theme) -> Seq<char> {
    match t {
        Theme::Light => seq!['L', 'i', 'g', 'h', 't'],
        Theme::Dark => seq!['D', 'a', 'r', 'k'],
        Theme::Tangible => seq!['T', 'a', 'n', 'g', 'i', 'b', 'l', 'e'],
    }
}

impl Theme {
    /// Every theme, in the order they are offered.
    pub fn all() -> (r: Vec<Theme>)
        ensures
            r@ == seq![Theme::Light, Theme::Dark, Theme::Tangible],
    {
        vec![Theme::Light, Theme::Dark, Theme::Tangible]
    }

    pub fn name(&self) -> (r: &'static str)
        ensures
            r@ == theme_name(*self),
    {
        proof {
            reveal_strlit("Light");
            reveal_strlit("Dark");
            reveal_strlit("Tangible");
        }
        match self {
            Theme::Light => "Light",
            Theme::Dark => "Dark",
            Theme::Tangible => "Tangible",
        }
    }
}

impl Default for Theme {
    fn default() -> (r: Theme)
        ensures
            r == Theme::Light,
    {
        Theme::Light
    }
}

/// The user's settings.
#[derive(Clone, Copy, Debug)]
pub struct Preferences {
    pub theme: Theme,
}

impl Preferences {
    pub fn new() -> (r: Preferences)
        ensures
            r.theme == Theme::Light,
    {
        Preferences { theme: Theme::Light }
    }
}

impl Default for Preferences {
    fn default() -> (r: Preferences)
        ensures
            r.theme == Theme::Light,
    {
        Preferences::new()
    }
}

} // verus!
