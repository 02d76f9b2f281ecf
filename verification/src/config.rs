//! The kernel configuration model: modules of boolean options, the values
//! chosen for them, and the files rendered from those values.
use vstd::prelude::*;
use vstd::string::StringExecFns;
use vstd::string::StrSliceExecFns;

verus! {

/// One boolean option of a module.
pub struct OptionDef {
    pub id: String,
    pub name: String,
    pub default: bool,
    pub feature: Option<String>,
    pub help: Option<String>,
}

/// A configuration module and its options.
pub struct Module {
    pub id: String,
    pub name: String,
    pub description: Option<String>,
    pub options: Vec<OptionDef>,
}

/// An option of the menu, by its module and its place in the module.
#[derive(Debug, Clone, Copy, PartialEq, Eq, Structural)]
pub struct Entry {
    pub module_index: usize,
    pub option_index: usize,
}

/// One chosen value.
pub struct ConfigValue {
    pub module: String,
    pub option: String,
    pub value: bool,
}

/// The chosen values, by module id and option id.
pub struct ConfigValues {
    values: Vec<ConfigValue>,
}

/// The key of an option: its module's id and its own.
pub type OptionKey = (Seq<char>, Seq<char>);

/// The entries `v[0..n]` as a map; a later entry for a key wins.
pub open spec fn values_map(v: Seq<ConfigValue>, n: int) -> Map<OptionKey, bool>
    decreases n,
{
    if n <= 0 {
        Map::empty()
    } else {
        values_map(v, n - 1).insert((v[n - 1].module@, v[n - 1].option@), v[n - 1].value)
    }
}

impl View for ConfigValues {
    type V = Map<OptionKey, bool>;

    closed spec fn view(&self) -> Map<OptionKey, bool> {
        values_map(self.values@, self.values@.len() as int)
    }
}

/// The value of option `option` of module `module`, or `default` where none
/// was chosen.
pub open spec fn value_of(values: Map<OptionKey, bool>, module: Seq<char>, option: Seq<char>, default: bool) -> bool {
    if values.contains_key((module, option)) {
        values[(module, option)]
    } else {
        default
    }
}

pub open spec fn key_of(v: ConfigValue) -> OptionKey {
    (v.module@, v.option@)
}

proof fn lemma_values_map_contains(v: Seq<ConfigValue>, n: int, k: OptionKey)
    requires
        0 <= n <= v.len(),
    ensures
        values_map(v, n).contains_key(k) <==> exists|i: int| 0 <= i < n && key_of(#[trigger] v[i]) == k,
    decreases n,
{
    if n > 0 {
        lemma_values_map_contains(v, n - 1, k);
        if key_of(v[n - 1]) == k {
            assert(key_of(v[n - 1]) == k);
        }
    }
}

proof fn lemma_values_map_last(v: Seq<ConfigValue>, n: int, i: int, k: OptionKey)
    requires
        0 <= i < n <= v.len(),
        key_of(v[i]) == k,
        forall|j: int| i < j < n ==> key_of(#[trigger] v[j]) != k,
    ensures
        values_map(v, n).contains_key(k),
        values_map(v, n)[k] == v[i].value,
    decreases n,
{
    if n - 1 > i {
        lemma_values_map_last(v, n - 1, i, k);
    }
}

impl ConfigValues {
    /// No value chosen.
    pub fn new() -> (r: Self)
        ensures
            r@ == Map::<OptionKey, bool>::empty(),
    {
        ConfigValues { values: Vec::new() }
    }

    /// The value chosen for `option` of `module`, if any.
    pub fn get(&self, module: &String, option: &String) -> (r: Option<bool>)
        ensures
            r == (if self@.contains_key((module@, option@)) {
                Some(self@[(module@, option@)])
            } else {
                None::<bool>
            }),
    {
        let ghost k = (module@, option@);
        let mut i: usize = self.values.len();
        while i > 0
            invariant
                k == (module@, option@),
                0 <= i <= self.values@.len(),
                forall|j: int| i <= j < self.values@.len() ==> key_of(#[trigger] self.values@[j]) != k,
            decreases i,
        {
            let v = &self.values[i - 1];
            if v.module.eq(module) && v.option.eq(option) {
                proof {
                    lemma_values_map_last(self.values@, self.values@.len() as int, i - 1, k);
                }
                return Some(v.value);
            }
            i = i - 1;
        }
        proof {
            lemma_values_map_contains(self.values@, self.values@.len() as int, k);
        }
        None
    }

    /// Chooses `value` for `option` of `module`.
    pub fn set(&mut self, module: &String, option: &String, value: bool)
        ensures
            final(self)@ == old(self)@.insert((module@, option@), value),
    {
        self.values.push(ConfigValue { module: module.clone(), option: option.clone(), value });
        proof {
            let v = self.values@;
            assert(v.subrange(0, v.len() - 1) =~= old(self).values@);
            lemma_values_map_prefix(v, old(self).values@, old(self).values@.len() as int);
        }
    }
}

proof fn lemma_values_map_prefix(v: Seq<ConfigValue>, w: Seq<ConfigValue>, n: int)
    requires
        0 <= n <= w.len(),
        n <= v.len(),
        forall|i: int| 0 <= i < n ==> v[i] == w[i],
    ensures
        values_map(v, n) == values_map(w, n),
    decreases n,
{
    if n > 0 {
        lemma_values_map_prefix(v, w, n - 1);
    }
}

/// The value of `option` of `module` in `values`, or `default`.
pub fn value_for(values: &ConfigValues, module: &String, option: &String, default: bool) -> (r: bool)
    ensures
        r == value_of(values@, module@, option@, default),
{
    match values.get(module, option) {
        Some(v) => v,
        None => default,
    }
}

/// The (key, default) of every option, module by module, in order.
pub open spec fn option_defaults(mods: Seq<Module>) -> Seq<(OptionKey, bool)>
    decreases mods.len(),
{
    if mods.len() == 0 {
        Seq::empty()
    } else {
        option_defaults(mods.drop_last()) + module_defaults(mods.last(), mods.last().options@.len() as int)
    }
}

/// The (key, default) of the first `n` options of `m`.
pub open spec fn module_defaults(m: Module, n: int) -> Seq<(OptionKey, bool)> {
    Seq::new(n as nat, |i: int| ((m.id@, m.options@[i].id@), m.options@[i].default))
}

/// The pairs as a map; a later pair for a key wins.
pub open spec fn fold_pairs(p: Seq<(OptionKey, bool)>) -> Map<OptionKey, bool>
    decreases p.len(),
{
    if p.len() == 0 {
        Map::empty()
    } else {
        fold_pairs(p.drop_last()).insert(p.last().0, p.last().1)
    }
}

/// Every option at its default.
pub open spec fn defaults_of(mods: Seq<Module>) -> Map<OptionKey, bool> {
    fold_pairs(option_defaults(mods))
}

/// Every option of `modules` at its default.
pub fn default_values(modules: &[Module]) -> (r: ConfigValues)
    ensures
        r@ == defaults_of(modules@),
{
    let mut values = ConfigValues::new();
    let mut mi: usize = 0;
    while mi < modules.len()
        invariant
            0 <= mi <= modules@.len(),
            values@ == fold_pairs(option_defaults(modules@.subrange(0, mi as int))),
        decreases modules@.len() - mi,
    {
        let module = &modules[mi];
        let ghost before = option_defaults(modules@.subrange(0, mi as int));
        let mut oi: usize = 0;
        while oi < module.options.len()
            invariant
                0 <= oi <= module.options@.len(),
                module == &modules@[mi as int],
                values@ == fold_pairs(before + module_defaults(*module, oi as int)),
            decreases module.options@.len() - oi,
        {
            let option = &module.options[oi];
            values.set(&module.id, &option.id, option.default);
            proof {
                let p = before + module_defaults(*module, oi as int + 1);
                assert(p.drop_last() =~= before + module_defaults(*module, oi as int));
            }
            oi = oi + 1;
        }
        proof {
            let next = modules@.subrange(0, mi as int + 1);
            assert(next.drop_last() =~= modules@.subrange(0, mi as int));
            assert(next.last() == modules@[mi as int]);
        }
        mi = mi + 1;
    }
    proof {
        assert(modules@.subrange(0, modules@.len() as int) =~= modules@);
    }
    values
}

/// The menu entries of the first `n` modules: each option in order.
pub open spec fn entries_of(mods: Seq<Module>, n: int) -> Seq<Entry>
    decreases n,
{
    if n <= 0 {
        Seq::empty()
    } else {
        entries_of(mods, n - 1) + Seq::new(
            mods[n - 1].options@.len(),
            |oi: int| Entry { module_index: (n - 1) as usize, option_index: oi as usize },
        )
    }
}

/// One menu entry per option, module by module.
pub fn entries_for(modules: &[Module]) -> (r: Vec<Entry>)
    ensures
        r@ == entries_of(modules@, modules@.len() as int),
{
    let mut entries: Vec<Entry> = Vec::new();
    let mut mi: usize = 0;
    while mi < modules.len()
        invariant
            0 <= mi <= modules@.len(),
            entries@ == entries_of(modules@, mi as int),
        decreases modules@.len() - mi,
    {
        let ghost before = entries@;
        let mut oi: usize = 0;
        while oi < modules[mi].options.len()
            invariant
                0 <= mi < modules@.len(),
                0 <= oi <= modules@[mi as int].options@.len(),
                entries@ == before + Seq::new(
                    oi as nat,
                    |k: int| Entry { module_index: mi, option_index: k as usize },
                ),
            decreases modules@[mi as int].options@.len() - oi,
        {
            entries.push(Entry { module_index: mi, option_index: oi });
            proof {
                assert(entries@ =~= before + Seq::new(
                    (oi + 1) as nat,
                    |k: int| Entry { module_index: mi, option_index: k as usize },
                ));
            }
            oi = oi + 1;
        }
        proof {
            assert(entries@ =~= entries_of(modules@, mi as int + 1));
        }
        mi = mi + 1;
    }
    entries
}

pub open spec fn bool_text(b: bool) -> Seq<char> {
    if b {
        "true"@
    } else {
        "false"@
    }
}

/// `id = value` lines for the first `n` options of `m`.
pub open spec fn option_lines(m: Module, values: Map<OptionKey, bool>, n: int) -> Seq<char>
    decreases n,
{
    if n <= 0 {
        Seq::empty()
    } else {
        let o = m.options@[n - 1];
        option_lines(m, values, n - 1) + o.id@ + " = "@ + bool_text(value_of(values, m.id@, o.id@, o.default))
            + "\n"@
    }
}

/// The `.config` section of `m`.
pub open spec fn module_section(m: Module, values: Map<OptionKey, bool>) -> Seq<char> {
    "["@ + m.id@ + "]\n"@ + option_lines(m, values, m.options@.len() as int) + "\n"@
}

/// The `.config` text of the first `n` modules.
pub open spec fn config_text(mods: Seq<Module>, values: Map<OptionKey, bool>, n: int) -> Seq<char>
    decreases n,
{
    if n <= 0 {
        Seq::empty()
    } else {
        config_text(mods, values, n - 1) + module_section(mods[n - 1], values)
    }
}

fn append_bool(out: &mut String, b: bool)
    ensures
        final(out)@ == old(out)@ + bool_text(b),
{
    if b {
        out.append("true");
    } else {
        out.append("false");
    }
}

/// The `.config` file: a section per module with every option's value.
pub fn render_config(modules: &[Module], values: &ConfigValues) -> (r: String)
    ensures
        r@ == config_text(modules@, values@, modules@.len() as int),
{
    let mut output = String::new();
    let mut mi: usize = 0;
    while mi < modules.len()
        invariant
            0 <= mi <= modules@.len(),
            output@ == config_text(modules@, values@, mi as int),
        decreases modules@.len() - mi,
    {
        let module = &modules[mi];
        let ghost before = output@;
        output.append("[");
        output.append(module.id.as_str());
        output.append("]\n");
        let ghost header = output@;
        proof {
            assert(header =~= before + "["@ + module.id@ + "]\n"@);
        }
        let mut oi: usize = 0;
        while oi < module.options.len()
            invariant
                0 <= oi <= module.options@.len(),
                module == &modules@[mi as int],
                output@ == header + option_lines(*module, values@, oi as int),
            decreases module.options@.len() - oi,
        {
            let option = &module.options[oi];
            let value = value_for(values, &module.id, &option.id, option.default);
            output.append(option.id.as_str());
            output.append(" = ");
            append_bool(&mut output, value);
            output.append("\n");
            proof {
                assert(output@ =~= header + option_lines(*module, values@, oi as int + 1));
            }
            oi = oi + 1;
        }
        output.append("\n");
        proof {
            assert(output@ =~= config_text(modules@, values@, mi as int + 1));
        }
        mi = mi + 1;
    }
    output
}

/// Lexicographic order of texts by code point.
pub open spec fn text_lt(a: Seq<char>, b: Seq<char>) -> bool
    decreases a.len(),
{
    if b.len() == 0 {
        false
    } else if a.len() == 0 {
        true
    } else if a[0] != b[0] {
        (a[0] as u32) < (b[0] as u32)
    } else {
        text_lt(a.drop_first(), b.drop_first())
    }
}

proof fn lemma_text_lt_irreflexive(a: Seq<char>)
    ensures
        !text_lt(a, a),
    decreases a.len(),
{
    if a.len() > 0 {
        lemma_text_lt_irreflexive(a.drop_first());
    }
}

proof fn lemma_text_lt_transitive(a: Seq<char>, b: Seq<char>, c: Seq<char>)
    requires
        text_lt(a, b),
        text_lt(b, c),
    ensures
        text_lt(a, c),
    decreases a.len(),
{
    if a.len() > 0 && b.len() > 0 && c.len() > 0 && a[0] == b[0] && b[0] == c[0] {
        lemma_text_lt_transitive(a.drop_first(), b.drop_first(), c.drop_first());
    }
}

proof fn lemma_text_lt_total(a: Seq<char>, b: Seq<char>)
    requires
        a != b,
    ensures
        text_lt(a, b) || text_lt(b, a),
    decreases a.len(),
{
    if a.len() > 0 && b.len() > 0 && a[0] == b[0] {
        if a.drop_first() == b.drop_first() {
            assert(a =~= seq![a[0]] + a.drop_first());
            assert(b =~= seq![b[0]] + b.drop_first());
        }
        lemma_text_lt_total(a.drop_first(), b.drop_first());
    } else if a.len() > 0 && b.len() > 0 {
        vstd::utf8::char_u32_cast(a[0], a[0] as u32);
        vstd::utf8::char_u32_cast(b[0], b[0] as u32);
    } else if a.len() == 0 && b.len() == 0 {
        assert(a =~= b);
    }
}

/// Comparing texts that agree on their first `i` characters comes down to
/// comparing what follows them.
proof fn lemma_text_lt_skip(a: Seq<char>, b: Seq<char>, i: int)
    requires
        0 <= i < a.len(),
        i < b.len(),
        a[i] == b[i],
    ensures
        text_lt(a.skip(i), b.skip(i)) == text_lt(a.skip(i + 1), b.skip(i + 1)),
{
    assert(a.skip(i).drop_first() =~= a.skip(i + 1));
    assert(b.skip(i).drop_first() =~= b.skip(i + 1));
}

/// `a < b` on strings: the order of their characters by code point, which
/// is the byte order std gives strings.
fn string_lt(a: &String, b: &String) -> (r: bool)
    ensures
        r == text_lt(a@, b@),
{
    let sa = a.as_str();
    let sb = b.as_str();
    let la = sa.unicode_len();
    let lb = sb.unicode_len();
    proof {
        assert(a@.skip(0) =~= a@);
        assert(b@.skip(0) =~= b@);
    }
    let mut i: usize = 0;
    while i < la && i < lb
        invariant
            sa@ == a@,
            sb@ == b@,
            la == a@.len(),
            lb == b@.len(),
            i <= la,
            i <= lb,
            text_lt(a@, b@) == text_lt(a@.skip(i as int), b@.skip(i as int)),
        decreases la - i,
    {
        let ca = sa.get_char(i);
        let cb = sb.get_char(i);
        if ca != cb {
            proof {
                assert(a@.skip(i as int)[0] == ca);
                assert(b@.skip(i as int)[0] == cb);
            }
            return (ca as u32) < (cb as u32);
        }
        proof {
            lemma_text_lt_skip(a@, b@, i as int);
        }
        i = i + 1;
    }
    i < lb
}

/// The texts of `v`, strictly increasing.
pub open spec fn sorted_texts(v: Seq<String>) -> bool {
    forall|i: int, j: int| 0 <= i < j < v.len() ==> text_lt((#[trigger] v[i])@, (#[trigger] v[j])@)
}

/// The texts held in `v`.
pub open spec fn text_set(v: Seq<String>) -> Set<Seq<char>> {
    Set::new(|t: Seq<char>| exists|i: int| 0 <= i < v.len() && (#[trigger] v[i])@ == t)
}

/// Adds `s` to the sorted list `out` unless it holds it already.
fn insert_sorted(out: &mut Vec<String>, s: String)
    requires
        sorted_texts(old(out)@),
    ensures
        sorted_texts(final(out)@),
        text_set(final(out)@) == text_set(old(out)@).insert(s@),
{
    let mut p: usize = 0;
    while p < out.len() && string_lt(&out[p], &s)
        invariant
            0 <= p <= out@.len(),
            out@ == old(out)@,
            sorted_texts(out@),
            forall|i: int| 0 <= i < p ==> text_lt((#[trigger] out@[i])@, s@),
        decreases out@.len() - p,
    {
        p = p + 1;
    }
    if p < out.len() && out[p].eq(&s) {
        proof {
            assert(text_set(out@) =~= text_set(old(out)@).insert(s@));
        }
        return;
    }
    let ghost before = out@;
    proof {
        if p < before.len() {
            lemma_text_lt_total(before[p as int]@, s@);
        }
    }
    out.insert(p, s);
    proof {
        let after = out@;
        assert forall|i: int, j: int| 0 <= i < j < after.len() implies text_lt((#[trigger] after[i])@, (#[trigger] after[j])@) by {
            if j < p {
                assert(after[i] == before[i] && after[j] == before[j]);
            } else if j == p {
                assert(after[i] == before[i]);
            } else if i < p {
                assert(after[i] == before[i] && after[j] == before[j - 1]);
                assert(text_lt(s@, before[p as int]@));
                if j - 1 > p {
                    assert(text_lt(before[p as int]@, before[j - 1]@));
                    lemma_text_lt_transitive(s@, before[p as int]@, before[j - 1]@);
                }
                lemma_text_lt_transitive(before[i]@, s@, before[j - 1]@);
            } else if i == p {
                assert(after[j] == before[j - 1]);
                if j - 1 > p {
                    assert(text_lt(before[p as int]@, before[j - 1]@));
                    lemma_text_lt_transitive(s@, before[p as int]@, before[j - 1]@);
                }
            } else {
                assert(after[i] == before[i - 1] && after[j] == before[j - 1]);
            }
        }
        assert forall|t: Seq<char>| text_set(after).contains(t) <==> text_set(before).insert(s@).contains(t) by {
            if text_set(after).contains(t) {
                let i = choose|i: int| 0 <= i < after.len() && (#[trigger] after[i])@ == t;
                if i < p {
                    assert(before[i]@ == t);
                } else if i > p {
                    assert(before[i - 1]@ == t);
                }
            }
            if text_set(before).contains(t) {
                let i = choose|i: int| 0 <= i < before.len() && (#[trigger] before[i])@ == t;
                if i < p {
                    assert(after[i]@ == t);
                } else {
                    assert(after[i + 1]@ == t);
                }
            }
            if t == s@ {
                assert(after[p as int]@ == t);
            }
        }
        assert(text_set(after) =~= text_set(before).insert(s@));
    }
}

/// Option `oi` of module `mi` is on and names the feature `f`.
pub open spec fn selects(mods: Seq<Module>, values: Map<OptionKey, bool>, mi: int, oi: int, f: Seq<char>) -> bool {
    &&& 0 <= mi < mods.len()
    &&& 0 <= oi < mods[mi].options@.len()
    &&& value_of(values, mods[mi].id@, mods[mi].options@[oi].id@, mods[mi].options@[oi].default)
    &&& mods[mi].options@[oi].feature matches Some(x) && x@ == f
}

/// The Cargo features of the options that are on.
pub open spec fn selected_set(mods: Seq<Module>, values: Map<OptionKey, bool>) -> Set<Seq<char>> {
    Set::new(|f: Seq<char>| exists|mi: int, oi: int| selects(mods, values, mi, oi, f))
}

/// The Cargo features of the options that are on, sorted, each once.
pub fn selected_features(modules: &[Module], values: &ConfigValues) -> (r: Vec<String>)
    ensures
        sorted_texts(r@),
        text_set(r@) == selected_set(modules@, values@),
{
    let mut features: Vec<String> = Vec::new();
    let mut mi: usize = 0;
    while mi < modules.len()
        invariant
            0 <= mi <= modules@.len(),
            sorted_texts(features@),
            text_set(features@) == Set::new(
                |f: Seq<char>| exists|a: int, b: int| a < mi && selects(modules@, values@, a, b, f),
            ),
        decreases modules@.len() - mi,
    {
        let module = &modules[mi];
        let mut oi: usize = 0;
        while oi < module.options.len()
            invariant
                0 <= mi < modules@.len(),
                0 <= oi <= module.options@.len(),
                module == &modules@[mi as int],
                sorted_texts(features@),
                text_set(features@) == Set::new(
                    |f: Seq<char>|
                        exists|a: int, b: int|
                            (a < mi || (a == mi && b < oi)) && selects(modules@, values@, a, b, f),
                ),
            decreases module.options@.len() - oi,
        {
            let option = &module.options[oi];
            let enabled = value_for(values, &module.id, &option.id, option.default);
            let ghost old_set = text_set(features@);
            if enabled {
                if let Some(feature) = &option.feature {
                    insert_sorted(&mut features, feature.clone());
                }
            }
            proof {
                let next = Set::new(
                    |f: Seq<char>|
                        exists|a: int, b: int|
                            (a < mi || (a == mi && b < oi + 1)) && selects(modules@, values@, a, b, f),
                );
                assert forall|f: Seq<char>| text_set(features@).contains(f) <==> next.contains(f) by {
                    if next.contains(f) {
                        let (a, b) = choose|a: int, b: int|
                            (a < mi || (a == mi && b < oi + 1)) && selects(modules@, values@, a, b, f);
                        if !(a == mi && b == oi) {
                            assert(old_set.contains(f));
                        }
                    }
                    if old_set.contains(f) {
                        let (a, b) = choose|a: int, b: int|
                            (a < mi || (a == mi && b < oi)) && selects(modules@, values@, a, b, f);
                        assert(selects(modules@, values@, a, b, f));
                    }
                    if enabled && option.feature is Some && f == option.feature->0@ {
                        assert(selects(modules@, values@, mi as int, oi as int, f));
                    }
                }
                assert(text_set(features@) =~= next);
            }
            oi = oi + 1;
        }
        proof {
            assert(Set::new(
                |f: Seq<char>|
                    exists|a: int, b: int|
                        (a < mi || (a == mi && b < module.options@.len())) && selects(modules@, values@, a, b, f),
            ) =~= Set::new(|f: Seq<char>| exists|a: int, b: int| a < mi + 1 && selects(modules@, values@, a, b, f)));
        }
        mi = mi + 1;
    }
    proof {
        assert(Set::new(|f: Seq<char>| exists|a: int, b: int| a < modules@.len() && selects(modules@, values@, a, b, f))
            =~= selected_set(modules@, values@));
    }
    features
}

/// Two sorted lists that hold the same texts are the same list of texts:
/// the feature list is canonical.
pub proof fn law_sorted_texts_unique(a: Seq<String>, b: Seq<String>)
    requires
        sorted_texts(a),
        sorted_texts(b),
        text_set(a) == text_set(b),
    ensures
        a.len() == b.len(),
        forall|i: int| 0 <= i < a.len() ==> (#[trigger] a[i])@ == b[i]@,
    decreases a.len() + b.len(),
{
    if a.len() > 0 && b.len() > 0 {
        // The first elements are the least texts of the same set.
        assert(text_set(b).contains(a[0]@));
        assert(text_set(a).contains(b[0]@));
        let ja = choose|j: int| 0 <= j < b.len() && (#[trigger] b[j])@ == a[0]@;
        let jb = choose|j: int| 0 <= j < a.len() && (#[trigger] a[j])@ == b[0]@;
        if a[0]@ != b[0]@ {
            if ja > 0 {
                assert(text_lt(b[0]@, b[ja]@));
            }
            if jb > 0 {
                assert(text_lt(a[0]@, a[jb]@));
            }
            lemma_text_lt_irreflexive(a[0]@);
            lemma_text_lt_irreflexive(b[0]@);
            if ja > 0 && jb > 0 {
                lemma_text_lt_transitive(a[0]@, b[0]@, a[0]@);
            }
        }
        let ra = a.drop_first();
        let rb = b.drop_first();
        assert forall|t: Seq<char>| text_set(ra).contains(t) <==> text_set(rb).contains(t) by {
            if text_set(ra).contains(t) {
                let i = choose|i: int| 0 <= i < ra.len() && (#[trigger] ra[i])@ == t;
                assert(a[i + 1]@ == t);
                assert(text_lt(a[0]@, t));
                assert(text_set(b).contains(t));
                let j = choose|j: int| 0 <= j < b.len() && (#[trigger] b[j])@ == t;
                if j == 0 {
                    lemma_text_lt_irreflexive(t);
                }
                assert(rb[j - 1]@ == t);
            }
            if text_set(rb).contains(t) {
                let i = choose|i: int| 0 <= i < rb.len() && (#[trigger] rb[i])@ == t;
                assert(b[i + 1]@ == t);
                assert(text_lt(b[0]@, t));
                assert(text_set(a).contains(t));
                let j = choose|j: int| 0 <= j < a.len() && (#[trigger] a[j])@ == t;
                if j == 0 {
                    lemma_text_lt_irreflexive(t);
                }
                assert(ra[j - 1]@ == t);
            }
        }
        assert(text_set(ra) =~= text_set(rb));
        law_sorted_texts_unique(ra, rb);
        assert forall|i: int| 0 <= i < a.len() implies (#[trigger] a[i])@ == b[i]@ by {
            if i > 0 {
                assert(ra[i - 1] == a[i] && rb[i - 1] == b[i]);
            }
        }
    } else if a.len() > 0 {
        assert(text_set(a).contains(a[0]@));
    } else if b.len() > 0 {
        assert(text_set(b).contains(b[0]@));
    }
}

/// The `kernel = [ ... ]` lines for `fs`.
pub open spec fn feature_lines(fs: Seq<String>, n: int) -> Seq<char>
    decreases n,
{
    if n <= 0 {
        Seq::empty()
    } else {
        feature_lines(fs, n - 1) + "    \""@ + fs[n - 1]@ + "\",\n"@
    }
}

/// The Cargo configuration that turns on the features `fs`.
pub open spec fn cargo_text(fs: Seq<String>) -> Seq<char> {
    "[features]\nkernel = [\n"@ + feature_lines(fs, fs.len() as int) + "]\n"@
}

/// The Cargo configuration file: the selected features, sorted, as the
/// `kernel` feature list.
pub fn render_cargo_config(modules: &[Module], values: &ConfigValues) -> (r: String)
    ensures
        exists|fs: Seq<String>|
            sorted_texts(fs) && text_set(fs) == selected_set(modules@, values@) && r@ == cargo_text(fs),
{
    let features = selected_features(modules, values);
    let mut output = String::new();
    output.append("[features]\nkernel = [\n");
    let ghost header = output@;
    let mut i: usize = 0;
    while i < features.len()
        invariant
            0 <= i <= features@.len(),
            output@ == header + feature_lines(features@, i as int),
        decreases features@.len() - i,
    {
        output.append("    \"");
        output.append(features[i].as_str());
        output.append("\",\n");
        proof {
            assert(output@ =~= header + feature_lines(features@, i as int + 1));
        }
        i = i + 1;
    }
    output.append("]\n");
    proof {
        assert(output@ =~= cargo_text(features@));
    }
    output
}

/// The selected features joined by commas.
pub open spec fn csv_text(fs: Seq<String>, n: int) -> Seq<char>
    decreases n,
{
    if n <= 0 {
        Seq::empty()
    } else if n == 1 {
        fs[0]@
    } else {
        csv_text(fs, n - 1) + ","@ + fs[n - 1]@
    }
}

/// The selected features, sorted, separated by commas.
pub fn features_csv(modules: &[Module], values: &ConfigValues) -> (r: String)
    ensures
        exists|fs: Seq<String>|
            sorted_texts(fs) && text_set(fs) == selected_set(modules@, values@) && r@ == csv_text(
                fs,
                fs.len() as int,
            ),
{
    let features = selected_features(modules, values);
    let mut output = String::new();
    let mut i: usize = 0;
    while i < features.len()
        invariant
            0 <= i <= features@.len(),
            output@ == csv_text(features@, i as int),
        decreases features@.len() - i,
    {
        if i > 0 {
            output.append(",");
        }
        output.append(features[i].as_str());
        proof {
            assert(output@ =~= csv_text(features@, i as int + 1));
        }
        i = i + 1;
    }
    output
}

/// The `id = value` lines of the first `n` options of `m` whose value differs
/// from the one in `defaults`.
pub open spec fn changed_lines(m: Module, values: Map<OptionKey, bool>, defaults: Map<OptionKey, bool>, n: int) -> Seq<
    char,
>
    decreases n,
{
    if n <= 0 {
        Seq::empty()
    } else {
        let o = m.options@[n - 1];
        let v = value_of(values, m.id@, o.id@, o.default);
        let d = value_of(defaults, m.id@, o.id@, o.default);
        changed_lines(m, values, defaults, n - 1) + if v != d {
            o.id@ + " = "@ + bool_text(v) + "\n"@
        } else {
            Seq::empty()
        }
    }
}

/// The saved section of `m`: its changed options, or nothing.
pub open spec fn defconfig_section(m: Module, values: Map<OptionKey, bool>, defaults: Map<OptionKey, bool>) -> Seq<
    char,
> {
    let lines = changed_lines(m, values, defaults, m.options@.len() as int);
    if lines.len() == 0 {
        Seq::empty()
    } else {
        "["@ + m.id@ + "]\n"@ + lines + "\n"@
    }
}

/// The minimal configuration text of the first `n` modules.
pub open spec fn defconfig_text(mods: Seq<Module>, values: Map<OptionKey, bool>, n: int) -> Seq<char>
    decreases n,
{
    if n <= 0 {
        Seq::empty()
    } else {
        defconfig_text(mods, values, n - 1) + defconfig_section(mods[n - 1], values, defaults_of(mods))
    }
}

/// The minimal configuration: for each module with options that differ
/// from their defaults, a section with those options.
pub fn render_defconfig(modules: &[Module], values: &ConfigValues) -> (r: String)
    ensures
        r@ == defconfig_text(modules@, values@, modules@.len() as int),
{
    let defaults = default_values(modules);
    let mut output = String::new();
    let mut mi: usize = 0;
    while mi < modules.len()
        invariant
            0 <= mi <= modules@.len(),
            defaults@ == defaults_of(modules@),
            output@ == defconfig_text(modules@, values@, mi as int),
        decreases modules@.len() - mi,
    {
        let module = &modules[mi];
        let mut lines = String::new();
        let mut any = false;
        let mut oi: usize = 0;
        while oi < module.options.len()
            invariant
                0 <= oi <= module.options@.len(),
                module == &modules@[mi as int],
                lines@ == changed_lines(*module, values@, defaults@, oi as int),
                any == (lines@.len() > 0),
            decreases module.options@.len() - oi,
        {
            let option = &module.options[oi];
            let value = value_for(values, &module.id, &option.id, option.default);
            let default = value_for(&defaults, &module.id, &option.id, option.default);
            let ghost before = lines@;
            if value != default {
                lines.append(option.id.as_str());
                lines.append(" = ");
                append_bool(&mut lines, value);
                lines.append("\n");
                any = true;
            }
            proof {
                reveal_strlit("\n");
                assert(lines@ =~= changed_lines(*module, values@, defaults@, oi as int + 1));
            }
            oi = oi + 1;
        }
        if any {
            output.append("[");
            output.append(module.id.as_str());
            output.append("]\n");
            output.append(lines.as_str());
            output.append("\n");
        }
        proof {
            assert(output@ =~= defconfig_text(modules@, values@, mi as int + 1));
        }
        mi = mi + 1;
    }
    output
}

/// A key pressed in the menu.
#[derive(Debug, Clone, Copy, PartialEq, Eq, Structural)]
pub enum MenuKey {
    Quit,
    Save,
    Down,
    Up,
    Toggle,
    Other,
}

/// What the menu does after a key.
#[derive(Debug, Clone, Copy, PartialEq, Eq, Structural)]
pub enum MenuStep {
    /// Keep going with this entry selected.
    Continue(usize),
    /// Leave the menu and write the configuration.
    Finish,
}

/// The menu's answer to `key` with entry `selected` of `count` selected.
pub fn menu_step(selected: usize, count: usize, key: MenuKey) -> (r: MenuStep)
    requires
        count > 0,
    ensures
        (key == MenuKey::Quit || key == MenuKey::Save) ==> r == MenuStep::Finish,
        key == MenuKey::Down ==> r == MenuStep::Continue(if selected + 1 < count { (selected + 1) as usize } else { (count - 1) as usize }),
        key == MenuKey::Up ==> r == MenuStep::Continue(if selected > 0 { (selected - 1) as usize } else { 0 }),
        (key == MenuKey::Toggle || key == MenuKey::Other) ==> r == MenuStep::Continue(selected),
{
    match key {
        MenuKey::Quit | MenuKey::Save => MenuStep::Finish,
        MenuKey::Down => {
            let next = if selected < count - 1 { selected + 1 } else { count - 1 };
            MenuStep::Continue(next)
        },
        MenuKey::Up => MenuStep::Continue(selected.saturating_sub(1)),
        MenuKey::Toggle | MenuKey::Other => MenuStep::Continue(selected),
    }
}

/// Flips the option of `entry`.
pub fn toggle(values: &mut ConfigValues, modules: &[Module], entry: Entry)
    requires
        entry.module_index < modules@.len(),
        entry.option_index < modules@[entry.module_index as int].options@.len(),
    ensures
        ({
            let m = modules@[entry.module_index as int];
            let o = m.options@[entry.option_index as int];
            final(values)@ == toggled(old(values)@, (m.id@, o.id@), o.default)
        }),
{
    let module = &modules[entry.module_index];
    let option = &module.options[entry.option_index];
    let current = value_for(values, &module.id, &option.id, option.default);
    values.set(&module.id, &option.id, !current);
}

/// The values after `toggle` flips the option `key` whose default is
/// `default`.
pub open spec fn toggled(values: Map<OptionKey, bool>, key: OptionKey, default: bool) -> Map<OptionKey, bool> {
    values.insert(key, !value_of(values, key.0, key.1, default))
}

/// Reading an option after choosing a value for it gives that value; every
/// other option reads as before.
pub proof fn law_value_after_set(
    values: Map<OptionKey, bool>,
    key: OptionKey,
    value: bool,
    other: OptionKey,
    default: bool,
)
    ensures
        value_of(values.insert(key, value), key.0, key.1, default) == value,
        other != key ==> value_of(values.insert(key, value), other.0, other.1, default) == value_of(
            values,
            other.0,
            other.1,
            default,
        ),
{
}

/// Toggling an option twice gives it back the value it read before, and
/// leaves every other option as it was.
pub proof fn law_toggle_twice(values: Map<OptionKey, bool>, key: OptionKey, default: bool, other: OptionKey)
    ensures
        value_of(toggled(toggled(values, key, default), key, default), key.0, key.1, default) == value_of(
            values,
            key.0,
            key.1,
            default,
        ),
        other != key ==> toggled(toggled(values, key, default), key, default).get(other) == values.get(other),
{
}

} // verus!
