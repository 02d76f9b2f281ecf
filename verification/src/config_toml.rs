//! The configuration files as TOML values: module definitions and chosen
//! values read out of them.
use vstd::prelude::*;
use vstd::string::StringExecFns;
use vstd::string::StrSliceExecFns;
use crate::config::{
    default_values, defaults_of, fold_pairs, module_defaults, option_defaults, ConfigValues, Module, OptionDef, OptionKey,
};

verus! {

/// A TOML value, as far as the configuration files use it.
#[derive(Debug)]
pub enum TomlValue {
    Str(String),
    Bool(bool),
    Array(Vec<TomlValue>),
    Table(Vec<(String, TomlValue)>),
    /// Integers, floats and dates: present, but never read.
    Other,
}

#[verifier::external_type_specification]
#[verifier::external_body]
pub struct ExTomlDocumentValue(toml::Value);

/// The document that the `toml` crate parses `source` into, in this
/// library's model, or the text of its parse error.
pub uninterp spec fn toml_document(source: Seq<char>) -> Result<TomlValue, String>;

/// A value of the `toml` crate in this library's model, one variant for
/// one variant; tables in the order the crate walks them.
#[verifier::external_body]
fn toml_model(value: toml::Value) -> TomlValue {
    match value {
        toml::Value::String(s) => TomlValue::Str(s),
        toml::Value::Boolean(b) => TomlValue::Bool(b),
        toml::Value::Array(items) => TomlValue::Array(items.into_iter().map(toml_model).collect()),
        toml::Value::Table(table) => TomlValue::Table(table.into_iter().map(|(k, v)| (k, toml_model(v))).collect()),
        _ => TomlValue::Other,
    }
}

/// `str::parse::<toml::Value>` of the `toml` crate: the document `source`
/// holds, or the parser's error message. Nothing about the parse itself is
/// stated beyond its being a function of `source`.
#[verifier::external_body]
pub(crate) fn parse_toml(source: &str) -> (r: Result<TomlValue, String>)
    ensures
        r == toml_document(source@),
{
    match source.parse::<toml::Value>() {
        Ok(value) => Ok(toml_model(value)),
        Err(error) => Err(error.to_string()),
    }
}

/// The configuration document in the text `source`, as the `toml` crate
/// reads it, or the crate's parse error.
pub fn read_toml(source: &str) -> (r: Result<TomlValue, String>)
    ensures
        r == toml_document(source@),
{
    parse_toml(source)
}

/// The value under `key` of a table (the first entry with that key).
pub open spec fn table_get(entries: Seq<(String, TomlValue)>, key: Seq<char>) -> Option<TomlValue>
    decreases entries.len(),
{
    if entries.len() == 0 {
        None
    } else if entries[0].0@ == key {
        Some(entries[0].1)
    } else {
        table_get(entries.drop_first(), key)
    }
}

pub open spec fn value_get(v: TomlValue, key: Seq<char>) -> Option<TomlValue> {
    match v {
        TomlValue::Table(entries) => table_get(entries@, key),
        _ => None,
    }
}

impl TomlValue {
    /// The value under `key` where `self` is a table.
    pub fn get(&self, key: &String) -> (r: Option<&TomlValue>)
        ensures
            r matches Some(x) ==> value_get(*self, key@) == Some(*x),
            r is None ==> value_get(*self, key@) is None,
    {
        match self {
            TomlValue::Table(entries) => {
                proof {
                    assert(entries@.subrange(0, entries@.len() as int) =~= entries@);
                }
                let mut i: usize = 0;
                while i < entries.len()
                    invariant
                        value_get(*self, key@) == table_get(entries@, key@),
                        0 <= i <= entries@.len(),
                        table_get(entries@.subrange(i as int, entries@.len() as int), key@) == table_get(entries@, key@),
                    decreases entries@.len() - i,
                {
                    proof {
                        let rest = entries@.subrange(i as int, entries@.len() as int);
                        assert(rest.drop_first() =~= entries@.subrange(i + 1, entries@.len() as int));
                    }
                    if entries[i].0.eq(key) {
                        proof {
                            let rest = entries@.subrange(i as int, entries@.len() as int);
                            assert(rest[0] == entries@[i as int]);
                        }
                        return Some(&entries[i].1);
                    }
                    i = i + 1;
                }
                None
            },
            _ => None,
        }
    }

    pub fn as_str(&self) -> (r: Option<&String>)
        ensures
            r matches Some(s) ==> *self == TomlValue::Str(*s),
            r is None ==> !(self is Str),
    {
        match self {
            TomlValue::Str(s) => Some(s),
            _ => None,
        }
    }

    pub fn as_bool(&self) -> (r: Option<bool>)
        ensures
            r matches Some(b) ==> *self == TomlValue::Bool(b),
            r is None ==> !(self is Bool),
    {
        match self {
            TomlValue::Bool(b) => Some(*b),
            _ => None,
        }
    }
}

/// The value at `path` below `v`, following one table key per segment.
pub open spec fn lookup_path(v: TomlValue, path: Seq<Seq<char>>) -> Option<TomlValue>
    decreases path.len(),
{
    if path.len() == 0 {
        Some(v)
    } else {
        match lookup_path(v, path.drop_last()) {
            Some(x) => value_get(x, path.last()),
            None => None,
        }
    }
}

pub open spec fn string_views(s: Seq<String>) -> Seq<Seq<char>> {
    s.map_values(|x: String| x@)
}

/// The value at `path` below `value`.
pub fn lookup<'a>(value: &'a TomlValue, path: &[String]) -> (r: Option<&'a TomlValue>)
    ensures
        r matches Some(x) ==> lookup_path(*value, string_views(path@)) == Some(*x),
        r is None ==> lookup_path(*value, string_views(path@)) is None,
{
    let mut current = value;
    let mut i: usize = 0;
    while i < path.len()
        invariant
            0 <= i <= path@.len(),
            lookup_path(*value, string_views(path@.subrange(0, i as int))) == Some(*current),
        decreases path@.len() - i,
    {
        proof {
            let next = string_views(path@.subrange(0, i + 1));
            assert(next.drop_last() =~= string_views(path@.subrange(0, i as int)));
            assert(next.last() == path@[i as int]@);
        }
        match current.get(&path[i]) {
            Some(x) => {
                current = x;
            },
            None => {
                proof {
                    let k = i + 1;
                    lemma_lookup_none_extends(*value, path@, k as int);
                }
                return None;
            },
        }
        i = i + 1;
    }
    proof {
        assert(path@.subrange(0, path@.len() as int) =~= path@);
    }
    Some(current)
}

/// A path that leads nowhere leads nowhere when longer.
proof fn lemma_lookup_none_extends(v: TomlValue, path: Seq<String>, k: int)
    requires
        0 < k <= path.len(),
        lookup_path(v, string_views(path.subrange(0, k))) is None,
    ensures
        lookup_path(v, string_views(path)) is None,
    decreases path.len() - k,
{
    if k < path.len() {
        let next = string_views(path.subrange(0, k + 1));
        assert(next.drop_last() =~= string_views(path.subrange(0, k)));
        lemma_lookup_none_extends(v, path, k + 1);
    } else {
        assert(path.subrange(0, k) =~= path);
    }
}

/// The strings of an array, others skipped.
pub open spec fn strings_of(items: Seq<TomlValue>) -> Seq<Seq<char>>
    decreases items.len(),
{
    if items.len() == 0 {
        Seq::empty()
    } else {
        strings_of(items.drop_last()) + match items.last() {
            TomlValue::Str(s) => seq![s@],
            _ => Seq::empty(),
        }
    }
}

/// The strings of the array at `path` below `value` (nothing where there is
/// no array there).
pub fn array_of_strings(value: &TomlValue, path: &[String]) -> (r: Vec<String>)
    ensures
        string_views(r@) == (match lookup_path(*value, string_views(path@)) {
            Some(TomlValue::Array(items)) => strings_of(items@),
            _ => Seq::<Seq<char>>::empty(),
        }),
{
    let mut out: Vec<String> = Vec::new();
    let items = match lookup(value, path) {
        Some(TomlValue::Array(items)) => items,
        _ => {
            proof {
                assert(string_views(out@) =~= Seq::<Seq<char>>::empty());
            }
            return out;
        },
    };
    let mut i: usize = 0;
    while i < items.len()
        invariant
            0 <= i <= items@.len(),
            string_views(out@) == strings_of(items@.subrange(0, i as int)),
        decreases items@.len() - i,
    {
        let ghost before = out@;
        if let Some(s) = items[i].as_str() {
            out.push(s.clone());
        }
        proof {
            let next = items@.subrange(0, i + 1);
            assert(next.drop_last() =~= items@.subrange(0, i as int));
            assert(string_views(out@) =~= strings_of(next));
        }
        i = i + 1;
    }
    proof {
        assert(items@.subrange(0, items@.len() as int) =~= items@);
    }
    out
}

/// `s` split at every `.`, empty pieces kept.
pub open spec fn dotted_segments(s: Seq<char>) -> Seq<Seq<char>>
    decreases s.len(),
{
    if s.len() == 0 {
        seq![Seq::empty()]
    } else {
        let p = dotted_segments(s.drop_last());
        if s.last() == '.' {
            p.push(Seq::empty())
        } else {
            p.update(p.len() - 1, p.last().push(s.last()))
        }
    }
}

proof fn lemma_dotted_segments_nonempty(s: Seq<char>)
    ensures
        dotted_segments(s).len() >= 1,
    decreases s.len(),
{
    if s.len() > 0 {
        lemma_dotted_segments_nonempty(s.drop_last());
    }
}

/// `dotted` split at every `.`.
pub fn split_dotted(dotted: &String) -> (r: Vec<String>)
    ensures
        string_views(r@) == dotted_segments(dotted@),
{
    let s = dotted.as_str();
    let n = s.unicode_len();
    let mut done: Vec<String> = Vec::new();
    let mut current = String::new();
    let mut i: usize = 0;
    proof {
        assert(s@.subrange(0, 0) =~= Seq::<char>::empty());
        assert(string_views(done@).push(current@) =~= dotted_segments(Seq::<char>::empty()));
    }
    while i < n
        invariant
            n == s@.len(),
            s@ == dotted@,
            0 <= i <= n,
            string_views(done@).push(current@) == dotted_segments(s@.subrange(0, i as int)),
        decreases n - i,
    {
        let c = s.get_char(i);
        let ghost prefix = s@.subrange(0, i + 1);
        proof {
            assert(prefix.drop_last() =~= s@.subrange(0, i as int));
            assert(prefix.last() == c);
            lemma_dotted_segments_nonempty(s@.subrange(0, i as int));
        }
        if c == '.' {
            let mut finished = String::new();
            std::mem::swap(&mut finished, &mut current);
            done.push(finished);
            proof {
                assert(string_views(done@).push(current@) =~= dotted_segments(prefix));
            }
        } else {
            let piece = s.substring_char(i, i + 1);
            let ghost before = current@;
            current.append(piece);
            proof {
                assert(piece@ =~= seq![c]);
                assert(current@ =~= before.push(c));
                let p = dotted_segments(s@.subrange(0, i as int));
                assert(p == string_views(done@).push(before));
                assert(string_views(done@).push(current@) =~= dotted_segments(prefix));
            }
        }
        i = i + 1;
    }
    done.push(current);
    proof {
        assert(s@.subrange(0, n as int) =~= s@);
        assert(string_views(done@) =~= dotted_segments(dotted@));
    }
    done
}

/// The table at the dotted key `dotted` below `value`.
pub fn lookup_dotted<'a>(value: &'a TomlValue, dotted: &String) -> (r: Option<&'a Vec<(String, TomlValue)>>)
    ensures
        r matches Some(t) ==> lookup_path(*value, dotted_segments(dotted@)) == Some(TomlValue::Table(*t)),
        r is None ==> !(lookup_path(*value, dotted_segments(dotted@)) matches Some(TomlValue::Table(_))),
{
    let segments = split_dotted(dotted);
    match lookup(value, segments.as_slice()) {
        Some(TomlValue::Table(entries)) => Some(entries),
        _ => None,
    }
}

/// The entries of a table value.
pub open spec fn table_of(v: Option<TomlValue>) -> Option<Seq<(String, TomlValue)>> {
    match v {
        Some(TomlValue::Table(entries)) => Some(entries@),
        _ => None,
    }
}

/// The string under `key` of table `t`.
pub open spec fn string_field(t: Seq<(String, TomlValue)>, key: Seq<char>) -> Option<Seq<char>> {
    match table_get(t, key) {
        Some(TomlValue::Str(s)) => Some(s@),
        _ => None,
    }
}

/// The boolean under `key` of table `t`.
pub open spec fn bool_field(t: Seq<(String, TomlValue)>, key: Seq<char>) -> Option<bool> {
    match table_get(t, key) {
        Some(TomlValue::Bool(b)) => Some(b),
        _ => None,
    }
}

pub open spec fn must_be_string(path: Seq<char>, name: Seq<char>) -> Seq<char> {
    path + " "@ + name + " must be a string"@
}

/// The first problem with an `[[option]]` entry of the file at `path`.
pub open spec fn option_problem(o: TomlValue, path: Seq<char>) -> Option<Seq<char>> {
    match o {
        TomlValue::Table(e) => {
            let t = e@;
            match string_field(t, "type"@) {
                None => Some(must_be_string(path, "option.type"@)),
                Some(kind) => if kind != "bool"@ {
                    Some(path + " option type `"@ + kind + "` is not supported yet"@)
                } else if string_field(t, "id"@) is None {
                    Some(must_be_string(path, "option.id"@))
                } else if string_field(t, "name"@) is None {
                    Some(must_be_string(path, "option.name"@))
                } else if bool_field(t, "default"@) is None {
                    Some(path + " option.default must be bool"@)
                } else {
                    None
                },
            }
        },
        _ => Some(path + " has a non-table option"@),
    }
}

/// The first problem among the first `n` options.
pub open spec fn options_problem(items: Seq<TomlValue>, path: Seq<char>, n: int) -> Option<Seq<char>>
    decreases n,
{
    if n <= 0 {
        None
    } else {
        match options_problem(items, path, n - 1) {
            Some(p) => Some(p),
            None => option_problem(items[n - 1], path, ),
        }
    }
}

/// The first problem with the module file at `path` whose contents are `v`.
pub open spec fn module_problem(v: TomlValue, path: Seq<char>) -> Option<Seq<char>> {
    match table_of(value_get(v, "module"@)) {
        None => Some(path + " has no [module] table"@),
        Some(m) => if string_field(m, "id"@) is None {
            Some(must_be_string(path, "module.id"@))
        } else if string_field(m, "name"@) is None {
            Some(must_be_string(path, "module.name"@))
        } else {
            match value_get(v, "option"@) {
                Some(TomlValue::Array(items)) => options_problem(items@, path, items@.len() as int),
                _ => Some(path + " has no [[option]] entries"@),
            }
        },
    }
}

/// `o` is the option that the table `t` describes.
pub open spec fn option_from(o: OptionDef, t: Seq<(String, TomlValue)>) -> bool {
    &&& string_field(t, "id"@) == Some(o.id@)
    &&& string_field(t, "name"@) == Some(o.name@)
    &&& bool_field(t, "default"@) == Some(o.default)
    &&& string_field(t, "feature"@) == (match o.feature {
        Some(f) => Some(f@),
        None => None::<Seq<char>>,
    })
    &&& string_field(t, "help"@) == (match o.help {
        Some(h) => Some(h@),
        None => None::<Seq<char>>,
    })
}

fn key(text: &str) -> (r: String)
    ensures
        r@ == text@,
{
    String::from_str(text)
}

fn table_lookup<'a>(entries: &'a Vec<(String, TomlValue)>, k: &String) -> (r: Option<&'a TomlValue>)
    ensures
        r matches Some(x) ==> table_get(entries@, k@) == Some(*x),
        r is None ==> table_get(entries@, k@) is None,
{
    let mut i: usize = 0;
    proof {
        assert(entries@.subrange(0, entries@.len() as int) =~= entries@);
    }
    while i < entries.len()
        invariant
            0 <= i <= entries@.len(),
            table_get(entries@.subrange(i as int, entries@.len() as int), k@) == table_get(entries@, k@),
        decreases entries@.len() - i,
    {
        proof {
            let rest = entries@.subrange(i as int, entries@.len() as int);
            assert(rest.drop_first() =~= entries@.subrange(i + 1, entries@.len() as int));
        }
        if entries[i].0.eq(k) {
            proof {
                let rest = entries@.subrange(i as int, entries@.len() as int);
                assert(rest[0] == entries@[i as int]);
            }
            return Some(&entries[i].1);
        }
        i = i + 1;
    }
    None
}

fn string_lookup(entries: &Vec<(String, TomlValue)>, k: &str) -> (r: Option<String>)
    ensures
        r matches Some(s) ==> string_field(entries@, k@) == Some(s@),
        r is None ==> string_field(entries@, k@) is None,
{
    match table_lookup(entries, &key(k)) {
        Some(TomlValue::Str(s)) => Some(s.clone()),
        _ => None,
    }
}

fn problem(path: &String, text: &str) -> (r: String)
    ensures
        r@ == path@ + text@,
{
    let mut out = path.clone();
    out.append(text);
    out
}

fn not_a_string(path: &String, name: &str) -> (r: String)
    ensures
        r@ == must_be_string(path@, name@),
{
    let mut out = path.clone();
    out.append(" ");
    out.append(name);
    out.append(" must be a string");
    out
}

/// The string that `value` holds, or the message that `name` in the file at
/// `path` must be a string.
pub fn required_string(value: Option<&TomlValue>, path: &String, name: &str) -> (r: Result<String, String>)
    ensures
        match value {
            Some(TomlValue::Str(s)) => r matches Ok(t) && t@ == s@,
            _ => r matches Err(e) && e@ == must_be_string(path@, name@),
        },
{
    match value {
        Some(TomlValue::Str(s)) => Ok(s.clone()),
        _ => Err(not_a_string(path, name)),
    }
}

/// Reads one option entry of the module file at `path`.
fn option_from_toml(o: &TomlValue, path: &String) -> (r: Result<OptionDef, String>)
    ensures
        match r {
            Ok(d) => option_problem(*o, path@) is None && (o matches TomlValue::Table(e) && option_from(d, e@)),
            Err(e) => option_problem(*o, path@) == Some(e@),
        },
{
    let t = match o {
        TomlValue::Table(t) => t,
        _ => {
            return Err(problem(path, " has a non-table option"));
        },
    };
    let kind = match string_lookup(t, "type") {
        Some(k) => k,
        None => {
            return Err(not_a_string(path, "option.type"));
        },
    };
    let expected = key("bool");
    if !kind.eq(&expected) {
        let mut out = path.clone();
        out.append(" option type `");
        out.append(kind.as_str());
        out.append("` is not supported yet");
        return Err(out);
    }
    let id = match string_lookup(t, "id") {
        Some(s) => s,
        None => {
            return Err(not_a_string(path, "option.id"));
        },
    };
    let name = match string_lookup(t, "name") {
        Some(s) => s,
        None => {
            return Err(not_a_string(path, "option.name"));
        },
    };
    let default = match table_lookup(t, &key("default")) {
        Some(TomlValue::Bool(b)) => *b,
        _ => {
            return Err(problem(path, " option.default must be bool"));
        },
    };
    let feature = string_lookup(t, "feature");
    let help = string_lookup(t, "help");
    Ok(OptionDef { id, name, default, feature, help })
}

/// The module described by the module file at `path` whose contents are
/// `value`, or the first problem with it.
pub fn read_sconfig(value: &TomlValue, path: &String) -> (r: Result<Module, String>)
    ensures
        match r {
            Err(e) => module_problem(*value, path@) == Some(e@),
            Ok(m) => {
                &&& module_problem(*value, path@) is None
                &&& table_of(value_get(*value, "module"@)) matches Some(t) && string_field(t, "id"@) == Some(m.id@)
                    && string_field(t, "name"@) == Some(m.name@) && string_field(t, "description"@) == (match m.description {
                    Some(d) => Some(d@),
                    None => None::<Seq<char>>,
                })
                &&& value_get(*value, "option"@) matches Some(TomlValue::Array(items)) && items@.len() == m.options@.len()
                    && forall|i: int| 0 <= i < items@.len() ==> (#[trigger] items@[i] matches TomlValue::Table(e) && option_from(m.options@[i], e@))
            },
        },
{
    let module_table = match value.get(&key("module")) {
        Some(TomlValue::Table(t)) => t,
        _ => {
            return Err(problem(path, " has no [module] table"));
        },
    };
    let id = match string_lookup(module_table, "id") {
        Some(s) => s,
        None => {
            return Err(not_a_string(path, "module.id"));
        },
    };
    let name = match string_lookup(module_table, "name") {
        Some(s) => s,
        None => {
            return Err(not_a_string(path, "module.name"));
        },
    };
    let description = string_lookup(module_table, "description");
    let items = match value.get(&key("option")) {
        Some(TomlValue::Array(items)) => items,
        _ => {
            return Err(problem(path, " has no [[option]] entries"));
        },
    };
    let mut options: Vec<OptionDef> = Vec::new();
    let mut i: usize = 0;
    while i < items.len()
        invariant
            0 <= i <= items@.len(),
            value_get(*value, "option"@) == Some(TomlValue::Array(*items)),
            module_problem(*value, path@) == options_problem(items@, path@, items@.len() as int),
            table_of(value_get(*value, "module"@)) matches Some(t) && string_field(t, "id"@) == Some(id@)
                && string_field(t, "name"@) == Some(name@) && string_field(t, "description"@) == (match description {
                Some(d) => Some(d@),
                None => None::<Seq<char>>,
            }),
            options_problem(items@, path@, i as int) is None,
            options@.len() == i,
            forall|j: int| 0 <= j < i ==> (#[trigger] items@[j] matches TomlValue::Table(e) && option_from(options@[j], e@)),
        decreases items@.len() - i,
    {
        match option_from_toml(&items[i], path) {
            Ok(d) => {
                options.push(d);
            },
            Err(e) => {
                proof {
                    lemma_options_problem_stays(items@, path@, i as int + 1);
                }
                return Err(e);
            },
        }
        i = i + 1;
    }
    Ok(Module { id, name, description, options })
}

/// Once a problem is found, it stays the first.
proof fn lemma_options_problem_stays(items: Seq<TomlValue>, path: Seq<char>, k: int)
    requires
        0 < k <= items.len(),
        options_problem(items, path, k) is Some,
    ensures
        options_problem(items, path, items.len() as int) == options_problem(items, path, k),
    decreases items.len() - k,
{
    if k < items.len() {
        lemma_options_problem_stays(items, path, k + 1);
    }
}

/// The chosen values: the defaults of `modules`, overridden by the booleans
/// that the configuration file `parsed` holds under each module's dotted id.
pub open spec fn config_from(modules: Seq<Module>, parsed: TomlValue) -> Map<OptionKey, bool> {
    Map::new(
        |k: OptionKey| defaults_of(modules).contains_key(k),
        |k: OptionKey|
            match parsed_bool(parsed, k) {
                Some(b) => b,
                None => defaults_of(modules)[k],
            },
    )
}

/// The boolean the configuration file `parsed` holds for option key `k`.
pub open spec fn parsed_bool(parsed: TomlValue, k: OptionKey) -> Option<bool> {
    match table_of(lookup_path(parsed, dotted_segments(k.0))) {
        Some(t) => bool_field(t, k.1),
        None => None,
    }
}

/// The key of option `b` of module `a`.
pub open spec fn key_at(mods: Seq<Module>, a: int, b: int) -> OptionKey {
    (mods[a].id@, mods[a].options@[b].id@)
}

/// Option `b` of module `a` comes before position (`mi`, `oi`).
pub open spec fn seen(mods: Seq<Module>, mi: int, oi: int, k: OptionKey) -> bool {
    exists|a: int, b: int|
        (a < mi || (a == mi && b < oi)) && 0 <= a < mods.len() && 0 <= b < mods[a].options@.len() && #[trigger] key_at(mods, a, b) == k
}

proof fn lemma_fold_pairs_domain(p: Seq<(OptionKey, bool)>, k: OptionKey)
    ensures
        fold_pairs(p).contains_key(k) <==> exists|i: int| 0 <= i < p.len() && (#[trigger] p[i]).0 == k,
    decreases p.len(),
{
    if p.len() > 0 {
        lemma_fold_pairs_domain(p.drop_last(), k);
        if p.last().0 == k {
            assert(p[p.len() - 1].0 == k);
        }
        if exists|i: int| 0 <= i < p.len() - 1 && (#[trigger] p.drop_last()[i]).0 == k {
            let i = choose|i: int| 0 <= i < p.len() - 1 && (#[trigger] p.drop_last()[i]).0 == k;
            assert(p[i].0 == k);
        }
        if exists|i: int| 0 <= i < p.len() && (#[trigger] p[i]).0 == k {
            let i = choose|i: int| 0 <= i < p.len() && (#[trigger] p[i]).0 == k;
            if i < p.len() - 1 {
                assert(p.drop_last()[i].0 == k);
            }
        }
    }
}

proof fn lemma_defaults_keys(mods: Seq<Module>, k: OptionKey)
    ensures
        defaults_of(mods).contains_key(k) ==> seen(mods, mods.len() as int, 0, k),
        seen(mods, mods.len() as int, 0, k) ==> defaults_of(mods).contains_key(k),
    decreases mods.len(),
{
    lemma_fold_pairs_domain(option_defaults(mods), k);
    if mods.len() > 0 {
        let init = mods.drop_last();
        let m = mods.last();
        let p = option_defaults(mods);
        let q = option_defaults(init);
        lemma_defaults_keys(init, k);
        lemma_fold_pairs_domain(q, k);
        assert(p == q + module_defaults(m, m.options@.len() as int));
        if defaults_of(mods).contains_key(k) {
            let i = choose|i: int| 0 <= i < p.len() && (#[trigger] p[i]).0 == k;
            if i < q.len() {
                assert(q[i].0 == k);
                let (a, b) = choose|a: int, b: int|
                    (a < init.len() || (a == init.len() && b < 0)) && 0 <= a < init.len() && 0 <= b
                        < init[a].options@.len() && #[trigger] key_at(init, a, b) == k;
                assert(mods[a] == init[a]);
                assert(key_at(mods, a, b) == k);
            } else {
                let b = i - q.len();
                assert(p[i] == module_defaults(m, m.options@.len() as int)[b]);
                assert(key_at(mods, mods.len() - 1, b) == k);
            }
        }
        if seen(mods, mods.len() as int, 0, k) {
            let (a, b) = choose|a: int, b: int|
                (a < mods.len() || (a == mods.len() && b < 0)) && 0 <= a < mods.len() && 0 <= b
                    < mods[a].options@.len() && #[trigger] key_at(mods, a, b) == k;
            if a < init.len() {
                assert(init[a] == mods[a]);
                assert(key_at(init, a, b) == k);
                let j = choose|j: int| 0 <= j < q.len() && (#[trigger] q[j]).0 == k;
                assert(p[j] == q[j]);
            } else {
                assert(p[q.len() + b].0 == k);
            }
        }
    }
}

/// The chosen values of `modules` read from the configuration file
/// `parsed`: each option's boolean under its module's dotted id, its
/// default where there is none.
pub fn read_config(modules: &[Module], parsed: &TomlValue) -> (r: ConfigValues)
    ensures
        r@ == config_from(modules@, *parsed),
{
    let mut values = default_values(modules);
    let ghost defaults = defaults_of(modules@);
    let mut mi: usize = 0;
    while mi < modules.len()
        invariant
            0 <= mi <= modules@.len(),
            defaults == defaults_of(modules@),
            values@.dom() == defaults.dom(),
            forall|k: OptionKey|
                #[trigger] values@.contains_key(k) ==> values@[k] == (if seen(modules@, mi as int, 0, k) && parsed_bool(
                    *parsed,
                    k,
                ) is Some {
                    parsed_bool(*parsed, k)->0
                } else {
                    defaults[k]
                }),
        decreases modules@.len() - mi,
    {
        let module = &modules[mi];
        let table = lookup_dotted(parsed, &module.id);
        let mut oi: usize = 0;
        while oi < module.options.len()
            invariant
                0 <= mi < modules@.len(),
                0 <= oi <= module.options@.len(),
                module == &modules@[mi as int],
                defaults == defaults_of(modules@),
                values@.dom() == defaults.dom(),
                table matches Some(t) ==> lookup_path(*parsed, dotted_segments(module.id@)) == Some(TomlValue::Table(*t)),
                table is None ==> !(lookup_path(*parsed, dotted_segments(module.id@)) matches Some(TomlValue::Table(_))),
                forall|k: OptionKey|
                    #[trigger] values@.contains_key(k) ==> values@[k] == (if seen(modules@, mi as int, oi as int, k)
                        && parsed_bool(*parsed, k) is Some {
                        parsed_bool(*parsed, k)->0
                    } else {
                        defaults[k]
                    }),
            decreases module.options@.len() - oi,
        {
            let option = &module.options[oi];
            let ghost key = (module.id@, option.id@);
            proof {
                lemma_defaults_keys(modules@, key);
                assert(key_at(modules@, mi as int, oi as int) == key);
                assert(defaults.contains_key(key));
            }
            if let Some(t) = table {
                if let Some(TomlValue::Bool(b)) = table_lookup(t, &option.id) {
                    values.set(&module.id, &option.id, *b);
                }
            }
            proof {
                assert forall|k: OptionKey| #[trigger] values@.contains_key(k) implies values@[k] == (if seen(
                    modules@,
                    mi as int,
                    oi as int + 1,
                    k,
                ) && parsed_bool(*parsed, k) is Some {
                    parsed_bool(*parsed, k)->0
                } else {
                    defaults[k]
                }) by {
                    if k == key {
                        assert(key_at(modules@, mi as int, oi as int) == k);
                    } else if seen(modules@, mi as int, oi as int + 1, k) {
                        let (a, b) = choose|a: int, b: int|
                            (a < mi || (a == mi && b < oi + 1)) && 0 <= a < modules@.len() && 0 <= b
                                < modules@[a].options@.len() && #[trigger] key_at(modules@, a, b) == k;
                        assert(seen(modules@, mi as int, oi as int, k));
                    }
                }
                assert(values@.dom() =~= defaults.dom());
            }
            oi = oi + 1;
        }
        proof {
            assert forall|k: OptionKey| seen(modules@, mi as int, modules@[mi as int].options@.len() as int, k)
                == seen(modules@, mi as int + 1, 0, k) by {
                if seen(modules@, mi as int + 1, 0, k) {
                    let (a, b) = choose|a: int, b: int|
                        (a < mi + 1 || (a == mi + 1 && b < 0)) && 0 <= a < modules@.len() && 0 <= b
                            < modules@[a].options@.len() && #[trigger] key_at(modules@, a, b)
                            == k;
                    assert(seen(modules@, mi as int, modules@[mi as int].options@.len() as int, k));
                }
                if seen(modules@, mi as int, modules@[mi as int].options@.len() as int, k) {
                    let (a, b) = choose|a: int, b: int|
                        (a < mi || (a == mi && b < modules@[mi as int].options@.len())) && 0 <= a < modules@.len()
                            && 0 <= b < modules@[a].options@.len() && #[trigger] key_at(modules@, a, b) == k;
                    assert(seen(modules@, mi as int + 1, 0, k));
                }
            }
        }
        mi = mi + 1;
    }
    proof {
        assert forall|k: OptionKey| #[trigger] values@.contains_key(k) implies seen(modules@, modules@.len() as int, 0, k) by {
            lemma_defaults_keys(modules@, k);
        }
        assert(values@ =~= config_from(modules@, *parsed));
    }
    values
}

} // verus!
