use saeos::config_toml::{read_toml, TomlValue};
use saeos::config::{
    default_values, entries_for, features_csv, menu_step, render_cargo_config, render_config,
    render_defconfig, selected_features, toggle, value_for, ConfigValues, Entry, MenuKey,
    MenuStep, Module, OptionDef,
};

fn option(id: &str, default: bool, feature: Option<&str>) -> OptionDef {
    OptionDef {
        id: id.to_string(),
        name: id.to_uppercase(),
        default,
        feature: feature.map(str::to_string),
        help: None,
    }
}

fn sample_modules() -> Vec<Module> {
    vec![
        Module {
            id: "drivers".to_string(),
            name: "Drivers".to_string(),
            description: None,
            options: vec![
                option("serial", true, Some("serial")),
                option("vga", false, Some("vga-text")),
            ],
        },
        Module {
            id: "arch.x86".to_string(),
            name: "x86".to_string(),
            description: Some("CPU".to_string()),
            options: vec![option("apic", false, Some("apic")), option("nx", true, None)],
        },
    ]
}

#[test]
fn defaults_and_rendered_config() {
    let modules = sample_modules();
    let values = default_values(&modules);
    assert!(value_for(&values, &"drivers".to_string(), &"serial".to_string(), false));
    assert!(!value_for(&values, &"arch.x86".to_string(), &"apic".to_string(), true));
    assert!(value_for(&values, &"none".to_string(), &"x".to_string(), true));
    assert_eq!(
        render_config(&modules, &values),
        "[drivers]\nserial = true\nvga = false\n\n[arch.x86]\napic = false\nnx = true\n\n"
    );
    assert_eq!(render_defconfig(&modules, &values), "");
}

#[test]
fn features_are_sorted_and_unique() {
    let modules = sample_modules();
    let mut values = default_values(&modules);
    values.set(&"arch.x86".to_string(), &"apic".to_string(), true);
    assert_eq!(selected_features(&modules, &values), vec!["apic".to_string(), "serial".to_string()]);
    assert_eq!(
        render_cargo_config(&modules, &values),
        "[features]\nkernel = [\n    \"apic\",\n    \"serial\",\n]\n"
    );
    assert_eq!(features_csv(&modules, &values), "apic,serial");
    assert_eq!(render_defconfig(&modules, &values), "[arch.x86]\napic = true\n\n");
    let mut twice = sample_modules();
    twice[1].options[0].feature = Some("serial".to_string());
    assert_eq!(selected_features(&twice, &values), vec!["serial".to_string()]);
    assert_eq!(features_csv(&modules, &ConfigValues::new()), "serial");
}

#[test]
fn menu_navigation_and_toggle() {
    let modules = sample_modules();
    let entries = entries_for(&modules);
    assert_eq!(entries.len(), 4);
    assert_eq!(
        entries[2],
        Entry {
            module_index: 1,
            option_index: 0
        }
    );
    assert_eq!(menu_step(0, 4, MenuKey::Down), MenuStep::Continue(1));
    assert_eq!(menu_step(3, 4, MenuKey::Down), MenuStep::Continue(3));
    assert_eq!(menu_step(0, 4, MenuKey::Up), MenuStep::Continue(0));
    assert_eq!(menu_step(2, 4, MenuKey::Up), MenuStep::Continue(1));
    assert_eq!(menu_step(2, 4, MenuKey::Quit), MenuStep::Finish);
    assert_eq!(menu_step(2, 4, MenuKey::Save), MenuStep::Finish);
    assert_eq!(menu_step(2, 4, MenuKey::Toggle), MenuStep::Continue(2));
    let mut values = default_values(&modules);
    toggle(&mut values, &modules, entries[0]);
    assert!(!value_for(&values, &"drivers".to_string(), &"serial".to_string(), true));
    toggle(&mut values, &modules, entries[0]);
    assert!(value_for(&values, &"drivers".to_string(), &"serial".to_string(), false));
    assert_eq!(values.get(&"drivers".to_string(), &"vga".to_string()), Some(false));
}

#[test]
fn toggling_an_option_twice_restores_it() {
    let modules = sample_modules();
    let entries = entries_for(&modules);
    let mut values = default_values(&modules);
    let entry = entries[0];
    let module = &modules[entry.module_index];
    let option = &module.options[entry.option_index];
    let before = value_for(&values, &module.id, &option.id, option.default);
    toggle(&mut values, &modules, entry);
    assert_eq!(value_for(&values, &module.id, &option.id, option.default), !before);
    toggle(&mut values, &modules, entry);
    assert_eq!(value_for(&values, &module.id, &option.id, option.default), before);
}

#[test]
fn toml_text_is_read_into_the_model() {
    match read_toml("a = true\nname = \"x\"\n") {
        Ok(TomlValue::Table(entries)) => {
            assert_eq!(entries.len(), 2);
            assert_eq!(entries[0].0, "a");
            assert!(matches!(entries[0].1, TomlValue::Bool(true)));
            assert_eq!(entries[1].0, "name");
            assert!(matches!(&entries[1].1, TomlValue::Str(s) if s == "x"));
        }
        other => panic!("unexpected {:?}", other),
    }
    assert!(read_toml("a = ").is_err());
}
