//! What the window wears.
//!
//! Only the choice lives here; the colours are the window's own. A broken theme
//! file must never be a reason the library does not open.

use vstd::prelude::*;

use crate::config;
use crate::config::read_json;
use crate::config::AppDirs;
use crate::config::Save;
use crate::config::Stored;
use crate::core_error::Error;

verus! {

/// A palette family: Catppuccin's four, and the one this app came with.
#[derive(Debug, Clone, Copy, PartialEq, Eq, Structural)]
pub enum Flavor {
    /// Near-black and Proton purple. The default.
    Proton,
    /// The light one.
    Latte,
    Frappe,
    Macchiato,
    Mocha,
}

impl Default for Flavor {
    fn default() -> (r: Self)
        ensures
            r == Flavor::Proton,
    {
        Flavor::Proton
    }
}

impl Flavor {
    pub const ALL: [Flavor; 5] = [
        Flavor::Proton,
        Flavor::Mocha,
        Flavor::Macchiato,
        Flavor::Frappe,
        Flavor::Latte,
    ];

    pub fn label(self) -> (r: &'static str)
        ensures
            r@ == match self {
                Flavor::Proton => "Proton"@,
                Flavor::Latte => "Catppuccin Latte"@,
                Flavor::Frappe => "Catppuccin Frappé"@,
                Flavor::Macchiato => "Catppuccin Macchiato"@,
                Flavor::Mocha => "Catppuccin Mocha"@,
            },
    {
        match self {
            Flavor::Proton => "Proton",
            Flavor::Latte => "Catppuccin Latte",
            Flavor::Frappe => "Catppuccin Frappé",
            Flavor::Macchiato => "Catppuccin Macchiato",
            Flavor::Mocha => "Catppuccin Mocha",
        }
    }

    pub fn description(self) -> (r: &'static str)
        ensures
            r@ == match self {
                Flavor::Proton =>
                    "Near-black, so the artwork is the only bright thing on screen"@,
                Flavor::Latte => "Light. The only one that is"@,
                Flavor::Frappe => "Dark, warm, the lowest contrast of the three"@,
                Flavor::Macchiato => "Dark, between Frappé and Mocha"@,
                Flavor::Mocha => "Dark, the deepest of Catppuccin's three"@,
            },
    {
        match self {
            Flavor::Proton => "Near-black, so the artwork is the only bright thing on screen",
            Flavor::Latte => "Light. The only one that is",
            Flavor::Frappe => "Dark, warm, the lowest contrast of the three",
            Flavor::Macchiato => "Dark, between Frappé and Mocha",
            Flavor::Mocha => "Dark, the deepest of Catppuccin's three",
        }
    }

    /// Whether this flavour is a light theme. Latte, and only Latte.
    pub fn is_light(self) -> (r: bool)
        ensures
            r == (self is Latte),
    {
        match self {
            Flavor::Latte => true,
            _ => false,
        }
    }
}

/// The one strong colour in the window and, where a gradient is drawn, the hue
/// it runs into.
#[derive(Debug, Clone, Copy, PartialEq, Eq, Structural)]
pub enum Accent {
    /// Proton purple, and the equivalent hue in every other flavour.
    Mauve,
    Pink,
    Sky,
    /// Pink running into light blue.
    PinkSky,
    Lavender,
    Blue,
    Teal,
    Peach,
}

impl Default for Accent {
    fn default() -> (r: Self)
        ensures
            r == Accent::Mauve,
    {
        Accent::Mauve
    }
}

impl Accent {
    pub const ALL: [Accent; 8] = [
        Accent::Mauve,
        Accent::Pink,
        Accent::Sky,
        Accent::PinkSky,
        Accent::Lavender,
        Accent::Blue,
        Accent::Teal,
        Accent::Peach,
    ];

    pub fn label(self) -> (r: &'static str)
        ensures
            r@ == match self {
                Accent::Mauve => "Mauve"@,
                Accent::Pink => "Pink"@,
                Accent::Sky => "Sky"@,
                Accent::PinkSky => "Pink → Sky"@,
                Accent::Lavender => "Lavender"@,
                Accent::Blue => "Blue"@,
                Accent::Teal => "Teal"@,
                Accent::Peach => "Peach"@,
            },
    {
        match self {
            Accent::Mauve => "Mauve",
            Accent::Pink => "Pink",
            Accent::Sky => "Sky",
            Accent::PinkSky => "Pink → Sky",
            Accent::Lavender => "Lavender",
            Accent::Blue => "Blue",
            Accent::Teal => "Teal",
            Accent::Peach => "Peach",
        }
    }
}

/// The whole of the choice.
#[derive(Debug, Clone, Copy, PartialEq, Eq, Structural)]
pub struct Appearance {
    pub flavor: Flavor,
    pub accent: Accent,
    /// Whether the accent is painted as a gradient or flat. On a screen that
    /// cannot show a slow ramp, flat is better than striped.
    pub gradients: bool,
}

/// What a first run wears.
pub open spec fn first_appearance() -> Appearance {
    Appearance { flavor: Flavor::Proton, accent: Accent::Mauve, gradients: true }
}

impl Default for Appearance {
    fn default() -> (r: Self)
        ensures
            r == first_appearance(),
    {
        Appearance { flavor: Flavor::Proton, accent: Accent::Mauve, gradients: true }
    }
}

/// A choice of which a file may state only some: one written by hand, or before
/// a field existed.
#[derive(Debug, Clone, Copy, PartialEq, Eq, Structural)]
pub struct PartialAppearance {
    pub flavor: Option<Flavor>,
    pub accent: Option<Accent>,
    pub gradients: Option<bool>,
}

/// A choice with what it does not state filled in.
pub open spec fn filled(partial: PartialAppearance) -> Appearance {
    Appearance {
        flavor: match partial.flavor {
            Some(flavor) => flavor,
            None => Flavor::Proton,
        },
        accent: match partial.accent {
            Some(accent) => accent,
            None => Accent::Mauve,
        },
        gradients: match partial.gradients {
            Some(gradients) => gradients,
            None => true,
        },
    }
}

/// The stored choice, or the defaults on a first run. What the file does not
/// state is a default too. `path` is the file's name as it is printed.
pub fn load(path: &str, stored: Stored<PartialAppearance>) -> (r: Result<Appearance, Error>)
    ensures
        match stored {
            Stored::Missing => r == Ok::<Appearance, Error>(first_appearance()),
            Stored::Found(partial) => r == Ok::<Appearance, Error>(filled(partial)),
            Stored::Unreadable(why) => r == Err::<Appearance, Error>(Error::Io(why)),
            Stored::Invalid(why) => r is Err && r->Err_0 is Config && r->Err_0->Config_0@ == path@
                + " is not valid config: "@ + why@,
        },
{
    match read_json(path, stored) {
        Ok(Some(partial)) => Ok(
            Appearance {
                flavor: match partial.flavor {
                    Some(flavor) => flavor,
                    None => Flavor::Proton,
                },
                accent: match partial.accent {
                    Some(accent) => accent,
                    None => Accent::Mauve,
                },
                gradients: match partial.gradients {
                    Some(gradients) => gradients,
                    None => true,
                },
            },
        ),
        Ok(None) => Ok(Appearance::default()),
        Err(error) => Err(error),
    }
}

/// What to write to keep a choice, and where. It is written only where what is
/// there may be replaced: see [`config::replaceable`].
pub fn save(dirs: &AppDirs, appearance: &Appearance) -> (r: Save<Appearance>)
    ensures
        r.place@ == (config::PlaceView { base: dirs.config@, parts: seq!["appearance.json"@] }),
        r.value == *appearance,
{
    Save { place: dirs.appearance_file(), value: *appearance }
}

/// What was saved is what loads: a file that states every field gives each of
/// them back.
pub proof fn law_what_was_saved_is_what_loads(appearance: Appearance)
    ensures
        filled(
            (PartialAppearance {
                flavor: Some(appearance.flavor),
                accent: Some(appearance.accent),
                gradients: Some(appearance.gradients),
            }),
        ) == appearance,
{
}

/// What a stored appearance states is kept, and what it leaves out is as on a
/// first run.
pub proof fn law_what_is_left_out_is_as_on_a_first_run(partial: PartialAppearance)
    ensures
        partial.flavor matches Some(flavor) ==> filled(partial).flavor == flavor,
        partial.flavor is None ==> filled(partial).flavor == Flavor::Proton,
        partial.accent matches Some(accent) ==> filled(partial).accent == accent,
        partial.accent is None ==> filled(partial).accent == Accent::Mauve,
        partial.gradients matches Some(gradients) ==> filled(partial).gradients == gradients,
        partial.gradients is None ==> filled(partial).gradients,
        first_appearance() == filled(
            PartialAppearance { flavor: None, accent: None, gradients: None },
        ),
{
}

} // verus!
