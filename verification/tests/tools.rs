use saeos::arch::x86_64::cpu::{enable_nxe, interrupts_enabled, msr_halves, msr_value};
use saeos::config::{render_config, value_for, Module, OptionDef};
use saeos::config_toml::{
    array_of_strings, lookup, lookup_dotted, read_config, read_sconfig, split_dotted, TomlValue,
};
use saeos::shell::commands::{execute, help_lines, trim, Command};
use saeos::shell::{LineEditor, ShellAction};

fn s(text: &str) -> String {
    text.to_string()
}

fn table(entries: Vec<(&str, TomlValue)>) -> TomlValue {
    TomlValue::Table(entries.into_iter().map(|(k, v)| (k.to_string(), v)).collect())
}

fn option_table(id: &str, kind: &str, default: TomlValue) -> TomlValue {
    table(vec![
        ("id", TomlValue::Str(s(id))),
        ("name", TomlValue::Str(id.to_uppercase())),
        ("type", TomlValue::Str(s(kind))),
        ("default", default),
        ("feature", TomlValue::Str(format!("f-{id}"))),
    ])
}

fn module_file(options: Vec<TomlValue>) -> TomlValue {
    table(vec![
        (
            "module",
            table(vec![
                ("id", TomlValue::Str(s("arch.x86"))),
                ("name", TomlValue::Str(s("x86"))),
                ("description", TomlValue::Str(s("CPU"))),
            ]),
        ),
        ("option", TomlValue::Array(options)),
    ])
}

#[test]
fn module_files_are_read() {
    let file = module_file(vec![
        option_table("apic", "bool", TomlValue::Bool(false)),
        option_table("nx", "bool", TomlValue::Bool(true)),
    ]);
    let module = read_sconfig(&file, &s("arch/SConfig.toml")).unwrap();
    assert_eq!(module.id, "arch.x86");
    assert_eq!(module.description, Some(s("CPU")));
    assert_eq!(module.options.len(), 2);
    assert_eq!(module.options[1].id, "nx");
    assert!(module.options[1].default);
    assert_eq!(module.options[0].feature, Some(s("f-apic")));
    assert_eq!(module.options[0].help, None);
}

#[test]
fn module_file_problems() {
    let path = s("m.toml");
    let err = |v: TomlValue| read_sconfig(&v, &path).err().unwrap();
    assert_eq!(err(table(vec![])), "m.toml has no [module] table");
    assert_eq!(
        err(table(vec![("module", table(vec![("name", TomlValue::Str(s("x")))]))])),
        "m.toml module.id must be a string"
    );
    assert_eq!(
        err(table(vec![(
            "module",
            table(vec![("id", TomlValue::Str(s("x"))), ("name", TomlValue::Str(s("x")))])
        )])),
        "m.toml has no [[option]] entries"
    );
    assert_eq!(
        err(module_file(vec![option_table("a", "int", TomlValue::Bool(true))])),
        "m.toml option type `int` is not supported yet"
    );
    assert_eq!(
        err(module_file(vec![option_table("a", "bool", TomlValue::Other)])),
        "m.toml option.default must be bool"
    );
    assert_eq!(
        err(module_file(vec![TomlValue::Bool(true)])),
        "m.toml has a non-table option"
    );
}

#[test]
fn configuration_values_are_read_by_dotted_id() {
    let file = module_file(vec![
        option_table("apic", "bool", TomlValue::Bool(false)),
        option_table("nx", "bool", TomlValue::Bool(true)),
    ]);
    let modules: Vec<Module> = vec![read_sconfig(&file, &s("x")).unwrap()];
    let saved = table(vec![(
        "arch",
        table(vec![(
            "x86",
            table(vec![("apic", TomlValue::Bool(true)), ("nx", TomlValue::Str(s("yes")))]),
        )]),
    )]);
    let values = read_config(&modules, &saved);
    assert!(value_for(&values, &s("arch.x86"), &s("apic"), false));
    assert!(value_for(&values, &s("arch.x86"), &s("nx"), false));
    assert_eq!(
        render_config(&modules, &values),
        "[arch.x86]\napic = true\nnx = true\n\n"
    );
    assert!(lookup_dotted(&saved, &s("arch.x86")).is_some());
    assert!(lookup_dotted(&saved, &s("arch.x64")).is_none());
    assert!(lookup(&saved, &[s("arch"), s("x86"), s("apic")]).is_some());
}

#[test]
fn dotted_keys_and_string_arrays() {
    assert_eq!(split_dotted(&s("a.b.c")), vec![s("a"), s("b"), s("c")]);
    assert_eq!(split_dotted(&s("a..b")), vec![s("a"), s(""), s("b")]);
    assert_eq!(split_dotted(&s("")), vec![s("")]);
    let build = table(vec![(
        "config",
        table(vec![(
            "files",
            TomlValue::Array(vec![
                TomlValue::Str(s("a.toml")),
                TomlValue::Bool(true),
                TomlValue::Str(s("b.toml")),
            ]),
        )]),
    )]);
    assert_eq!(
        array_of_strings(&build, &[s("config"), s("files")]),
        vec![s("a.toml"), s("b.toml")]
    );
    assert!(array_of_strings(&build, &[s("config"), s("roots")]).is_empty());
}

#[test]
fn option_def_fields_are_plain_data() {
    let option = OptionDef {
        id: s("x"),
        name: s("X"),
        default: false,
        feature: None,
        help: Some(s("h")),
    };
    assert_eq!(option.help.as_deref(), Some("h"));
}

#[test]
fn line_editor_keys() {
    let mut editor = LineEditor::new();
    assert_eq!(editor.feed('\x08'), ShellAction::Nothing);
    assert_eq!(editor.feed('h'), ShellAction::Echo('h'));
    assert_eq!(editor.feed('i'), ShellAction::Echo('i'));
    assert_eq!(editor.feed('\t'), ShellAction::Nothing);
    assert_eq!(editor.feed('é'), ShellAction::Nothing);
    assert_eq!(editor.feed('\x08'), ShellAction::Erase);
    assert_eq!(editor.line(), b"h");
    assert_eq!(editor.feed('\n'), ShellAction::Submit(Some(b"h".to_vec())));
    assert_eq!(editor.feed('\n'), ShellAction::Submit(None));
    for c in " mem ".chars() {
        editor.feed(c);
    }
    assert_eq!(editor.feed('\n'), ShellAction::Submit(Some(b"mem".to_vec())));
    for _ in 0..100 {
        editor.feed('x');
    }
    assert_eq!(editor.line().len(), 79);
}

#[test]
fn shell_commands() {
    assert_eq!(execute(b"help"), Command::Help);
    assert_eq!(execute(b"  help "), Command::Echo(b"  help ".to_vec()));
    assert_eq!(execute(b"clear"), Command::Clear);
    assert_eq!(execute(b"mem"), Command::Mem);
    assert_eq!(execute(b"alloc"), Command::Mem);
    assert_eq!(execute(b"apic"), Command::Apic);
    assert_eq!(execute(b"status"), Command::Apic);
    assert_eq!(execute(b"hello world"), Command::Echo(b"hello world".to_vec()));
    assert_eq!(trim(b"   "), Vec::<u8>::new());
    assert_eq!(help_lines().len(), 6);
    assert_eq!(help_lines()[0], "Available Commands:");
}

#[test]
fn cpu_register_values() {
    assert!(interrupts_enabled(0x202));
    assert!(!interrupts_enabled(0x002));
    assert_eq!(msr_value(0x89AB_CDEF, 0x0123_4567), 0x0123_4567_89AB_CDEF);
    assert_eq!(msr_halves(0x0123_4567_89AB_CDEF), (0x89AB_CDEF, 0x0123_4567));
    assert_eq!(enable_nxe(0x8000_0008, 1 << 20, 0x500), Some(0xD00));
    assert_eq!(enable_nxe(0x8000_0008, 1 << 20, 0xD00), None);
    assert_eq!(enable_nxe(0x8000_0000, 1 << 20, 0x500), None);
    assert_eq!(enable_nxe(0x8000_0008, 0, 0x500), None);
}
