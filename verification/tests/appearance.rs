use proton_stream::appearance::{load, save, Accent, Appearance, Flavor, PartialAppearance};
use proton_stream::config::{AppDirs, Stored};
use proton_stream::core_error::Error;

fn dirs() -> AppDirs {
    AppDirs::from_paths("/config".into(), "/data".into(), "/cache".into())
}

#[test]
fn a_first_run_gets_the_palette_the_app_shipped_with() {
    let appearance = Appearance::default();
    assert_eq!(appearance.flavor, Flavor::Proton);
    assert_eq!(appearance.accent, Accent::Mauve);
    assert!(appearance.gradients);
}

#[test]
fn appearance_what_was_saved_is_what_loads() {
    let appearance = Appearance {
        flavor: Flavor::Mocha,
        accent: Accent::PinkSky,
        gradients: false,
    };
    let written = save(&dirs(), &appearance);
    assert_eq!(written.place.base, "/config");
    assert_eq!(written.place.parts, vec!["appearance.json"]);
    assert_eq!(written.value, appearance);

    let stored = Stored::Found(PartialAppearance {
        flavor: Some(written.value.flavor),
        accent: Some(written.value.accent),
        gradients: Some(written.value.gradients),
    });
    assert_eq!(load("appearance.json", stored).unwrap(), appearance);
}

#[test]
fn a_file_written_before_a_field_existed_keeps_the_rest() {
    let stored = Stored::Found(PartialAppearance {
        flavor: Some(Flavor::Mocha),
        accent: None,
        gradients: None,
    });
    let appearance = load("appearance.json", stored).unwrap();
    assert_eq!(appearance.flavor, Flavor::Mocha);
    assert_eq!(appearance.accent, Accent::default());
    assert!(appearance.gradients);
}

#[test]
fn only_latte_is_a_light_theme() {
    for flavor in Flavor::ALL {
        assert_eq!(flavor.is_light(), flavor == Flavor::Latte);
    }
}

#[test]
fn a_first_run_loads_the_defaults_and_a_broken_file_is_an_error() {
    assert_eq!(load("appearance.json", Stored::Missing).unwrap(), Appearance::default());
    assert_eq!(
        load("/config/appearance.json", Stored::Invalid("expected a value".into())),
        Err(Error::Config(
            "/config/appearance.json is not valid config: expected a value".into()
        ))
    );
    assert_eq!(
        load("appearance.json", Stored::Unreadable("denied".into())),
        Err(Error::Io("denied".into()))
    );
}

#[test]
fn every_flavour_and_accent_has_its_own_label() {
    let flavours: Vec<&str> = Flavor::ALL.iter().map(|f| f.label()).collect();
    assert_eq!(
        flavours,
        vec![
            "Proton",
            "Catppuccin Mocha",
            "Catppuccin Macchiato",
            "Catppuccin Frappé",
            "Catppuccin Latte"
        ]
    );
    let accents: Vec<&str> = Accent::ALL.iter().map(|a| a.label()).collect();
    assert_eq!(
        accents,
        vec!["Mauve", "Pink", "Sky", "Pink → Sky", "Lavender", "Blue", "Teal", "Peach"]
    );
    assert_eq!(Flavor::Latte.description(), "Light. The only one that is");
}
