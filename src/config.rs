//! Configuration types: the resolved configuration, the raw keys and values
//! it is resolved from, and the diagnostics of that resolution.
use vstd::prelude::*;

verus! {

/// When a comma follows the last element of an array or object.
#[derive(Clone, Copy, Debug, PartialEq, Eq, Structural)]
pub enum TrailingCommaKind {
    /// Always format with trailing commas. Beware: trailing commas can cause many JSON parsers to fail.
    Always,
    /// Use trailing commas in JSONC files and do not use trailing commas in JSON files.
    Jsonc,
    /// Keep the trailing comma if it exists.
    Maintain,
    /// Never format with trailing commas.
    Never,
}

/// The line ending that the printer writes.
#[derive(Clone, Copy, Debug, PartialEq, Eq, Structural)]
pub enum NewLineKind {
    /// Decide which newline kind to use based on the last newline in the file.
    Auto,
    /// Use slash n new lines.
    LineFeed,
    /// Use slash r slash n new lines.
    CarriageReturnLineFeed,
}

/// Resolved formatting configuration.
#[derive(Clone, Debug)]
pub struct Configuration {
    pub line_width: u32,
    pub use_tabs: bool,
    pub indent_width: u8,
    pub new_line_kind: NewLineKind,
    pub comment_line_force_space_after_slashes: bool,
    pub ignore_node_comment_text: String,
    pub array_prefer_single_line: bool,
    pub object_prefer_single_line: bool,
    pub trailing_commas: TrailingCommaKind,
    /// Path suffixes of files that are treated as JSONC, each in a form
    /// with forward slashes and one with backslashes.
    pub json_trailing_comma_files: Vec<String>,
}

/// A raw configuration value, as read from a configuration file.
#[derive(Debug)]
pub enum ConfigKeyValue {
    String(String),
    Number(i32),
    Bool(bool),
    Array(Vec<ConfigKeyValue>),
    /// An object; no setting of this library reads one.
    Object,
    Null,
}

impl ConfigKeyValue {
    /// A copy of the value, nested arrays included.
    pub fn copy(&self) -> (r: ConfigKeyValue)
        ensures
            self is Number ==> r == *self,
            self is Bool ==> r == *self,
            self is Null ==> r == *self,
            self is Object ==> r == *self,
            self matches ConfigKeyValue::String(s) ==> r matches ConfigKeyValue::String(t) && t@ == s@,
            self matches ConfigKeyValue::Array(a) ==> r matches ConfigKeyValue::Array(b) && b@.len() == a@.len(),
        decreases self, 2int,
    {
        match self {
            ConfigKeyValue::String(s) => ConfigKeyValue::String(s.clone()),
            ConfigKeyValue::Number(n) => ConfigKeyValue::Number(*n),
            ConfigKeyValue::Bool(b) => ConfigKeyValue::Bool(*b),
            ConfigKeyValue::Array(items) => ConfigKeyValue::Array(copy_values(items)),
            ConfigKeyValue::Object => ConfigKeyValue::Object,
            ConfigKeyValue::Null => ConfigKeyValue::Null,
        }
    }
}

fn copy_values(items: &Vec<ConfigKeyValue>) -> (r: Vec<ConfigKeyValue>)
    ensures
        r@.len() == items@.len(),
    decreases items, 1int,
{
    let mut copied: Vec<ConfigKeyValue> = Vec::new();
    let mut i: usize = 0;
    while i < items.len()
        invariant
            i <= items@.len(),
            copied@.len() == i,
        decreases items@.len() - i,
    {
        copied.push(items[i].copy());
        i = i + 1;
    }
    copied
}

/// The value of the first entry whose key is `key`.
pub open spec fn lookup(entries: Seq<(String, ConfigKeyValue)>, key: Seq<char>) -> Option<ConfigKeyValue>
    decreases entries.len(),
{
    if entries.len() == 0 {
        None
    } else if entries[0].0@ == key {
        Some(entries[0].1)
    } else {
        lookup(entries.drop_first(), key)
    }
}

/// Whether some entry has the key `key`.
pub open spec fn has_key(entries: Seq<(String, ConfigKeyValue)>, key: Seq<char>) -> bool {
    exists|i: int| 0 <= i < entries.len() && (#[trigger] entries[i]).0@ == key
}

proof fn lemma_lookup_none(entries: Seq<(String, ConfigKeyValue)>, key: Seq<char>)
    ensures
        lookup(entries, key) is None <==> !has_key(entries, key),
    decreases entries.len(),
{
    if entries.len() > 0 {
        lemma_lookup_none(entries.drop_first(), key);
        if has_key(entries.drop_first(), key) {
            let i = choose|i: int| 0 <= i < entries.drop_first().len() && (#[trigger] entries.drop_first()[i]).0@ == key;
            assert(entries[i + 1] == entries.drop_first()[i]);
        }
        if has_key(entries, key) && entries[0].0@ != key {
            let i = choose|i: int| 0 <= i < entries.len() && (#[trigger] entries[i]).0@ == key;
            assert(entries.drop_first()[i - 1] == entries[i]);
        }
    }
}

proof fn lemma_lookup_at(entries: Seq<(String, ConfigKeyValue)>, key: Seq<char>, i: int)
    requires
        0 <= i < entries.len(),
        entries[i].0@ == key,
        forall|k: int| 0 <= k < i ==> (#[trigger] entries[k]).0@ != key,
    ensures
        lookup(entries, key) == Some(entries[i].1),
    decreases i,
{
    if i > 0 {
        assert forall|k: int| 0 <= k < i - 1 implies (#[trigger] entries.drop_first()[k]).0@ != key by {
            assert(entries.drop_first()[k] == entries[k + 1]);
        }
        lemma_lookup_at(entries.drop_first(), key, i - 1);
    }
}

proof fn lemma_lookup_push(entries: Seq<(String, ConfigKeyValue)>, e: (String, ConfigKeyValue), key: Seq<char>)
    requires
        !has_key(entries, e.0@),
    ensures
        lookup(entries.push(e), key) == if key == e.0@ {
            Some(e.1)
        } else {
            lookup(entries, key)
        },
    decreases entries.len(),
{
    reveal_with_fuel(lookup, 2);
    if entries.len() == 0 {
        assert(entries.push(e)[0] == e);
        assert(entries.push(e).drop_first().len() == 0);
    } else {
        assert(entries.push(e)[0] == entries[0]);
        if entries[0].0@ == e.0@ {
            assert(has_key(entries, e.0@));
        }
        assert(entries.push(e).drop_first() =~= entries.drop_first().push(e));
        if has_key(entries.drop_first(), e.0@) {
            let i = choose|i: int| 0 <= i < entries.drop_first().len() && (#[trigger] entries.drop_first()[i]).0@ == e.0@;
            assert(entries[i + 1] == entries.drop_first()[i]);
        }
        lemma_lookup_push(entries.drop_first(), e, key);
    }
}

proof fn lemma_lookup_same_keys(a: Seq<(String, ConfigKeyValue)>, b: Seq<(String, ConfigKeyValue)>, key: Seq<char>)
    requires
        a.len() == b.len(),
        forall|j: int| 0 <= j < a.len() ==> (#[trigger] a[j]).0@ == b[j].0@,
        forall|j: int| 0 <= j < a.len() && (#[trigger] a[j]).0@ == key ==> a[j].1 == b[j].1,
    ensures
        lookup(a, key) == lookup(b, key),
    decreases a.len(),
{
    if a.len() > 0 {
        assert(a[0].0@ == b[0].0@);
        assert forall|j: int| 0 <= j < a.len() - 1 implies (#[trigger] a.drop_first()[j]).0@ == b.drop_first()[j].0@ by {
            assert(a.drop_first()[j] == a[j + 1]);
            assert(b.drop_first()[j] == b[j + 1]);
        }
        assert forall|j: int| 0 <= j < a.len() - 1 && (#[trigger] a.drop_first()[j]).0@ == key implies a.drop_first()[j].1 == b.drop_first()[j].1 by {
            assert(a.drop_first()[j] == a[j + 1]);
            assert(b.drop_first()[j] == b[j + 1]);
        }
        lemma_lookup_same_keys(a.drop_first(), b.drop_first(), key);
    }
}

/// Configuration keys and their raw values, in the order they were first
/// set; each key at most once.
pub struct ConfigKeyMap {
    entries: Vec<(String, ConfigKeyValue)>,
}

impl ConfigKeyMap {
    pub closed spec fn entries(&self) -> Seq<(String, ConfigKeyValue)> {
        self.entries@
    }

    /// The value set for `key`.
    pub open spec fn spec_get(&self, key: Seq<char>) -> Option<ConfigKeyValue> {
        lookup(self.entries(), key)
    }

    pub fn new() -> (r: ConfigKeyMap)
        ensures
            r.entries().len() == 0,
    {
        ConfigKeyMap { entries: Vec::new() }
    }

    pub fn len(&self) -> (r: usize)
        ensures
            r == self.entries().len(),
    {
        self.entries.len()
    }

    fn index_of(&self, key: &str) -> (r: Option<usize>)
        ensures
            match r {
                Some(i) => i < self.entries().len() && self.entries()[i as int].0@ == key@ && forall|k: int|
                    0 <= k < i ==> (#[trigger] self.entries()[k]).0@ != key@,
                None => !has_key(self.entries(), key@),
            },
    {
        let mut i: usize = 0;
        while i < self.entries.len()
            invariant
                i <= self.entries@.len(),
                forall|k: int| 0 <= k < i ==> (#[trigger] self.entries@[k]).0@ != key@,
            decreases self.entries@.len() - i,
        {
            if str_eq(self.entries[i].0.as_str(), key) {
                return Some(i);
            }
            i = i + 1;
        }
        None
    }

    /// The value set for `key`.
    pub fn get(&self, key: &str) -> (r: Option<&ConfigKeyValue>)
        ensures
            match r {
                Some(v) => self.spec_get(key@) == Some(*v),
                None => self.spec_get(key@) is None,
            },
    {
        match self.index_of(key) {
            Some(i) => {
                proof {
                    lemma_lookup_at(self.entries@, key@, i as int);
                }
                Some(&self.entries[i].1)
            },
            None => {
                proof {
                    lemma_lookup_none(self.entries@, key@);
                }
                None
            },
        }
    }

    /// Sets `key` to `value`: in place where the key was set, else last.
    pub fn insert(&mut self, key: String, value: ConfigKeyValue)
        ensures
            forall|k: Seq<char>| #[trigger] final(self).spec_get(k) == if k == key@ {
                Some(value)
            } else {
                old(self).spec_get(k)
            },
            !has_key(old(self).entries(), key@) ==> final(self).entries() == old(self).entries().push((key, value)),
            has_key(old(self).entries(), key@) ==> exists|i: int|
                0 <= i < old(self).entries().len() && (#[trigger] old(self).entries()[i]).0@ == key@
                    && final(self).entries() == old(self).entries().update(i, (key, value)),
    {
        match self.index_of(key.as_str()) {
            Some(i) => {
                let ghost before = self.entries@;
                let ghost e = (key, value);
                self.entries.remove(i);
                self.entries.insert(i, (key, value));
                proof {
                    let after = self.entries@;
                    assert(after =~= before.update(i as int, e));
                    assert(has_key(before, key@));
                    assert forall|k: Seq<char>| #[trigger] lookup(after, k) == if k == e.0@ {
                        Some(e.1)
                    } else {
                        lookup(before, k)
                    } by {
                        if k == e.0@ {
                            assert forall|j: int| 0 <= j < i implies (#[trigger] after[j]).0@ != k by {
                                assert(after[j] == before[j]);
                            }
                            lemma_lookup_at(after, k, i as int);
                        } else {
                            lemma_lookup_same_keys(after, before, k);
                        }
                    }
                }
            },
            None => {
                let ghost before = self.entries@;
                let ghost e = (key, value);
                self.entries.push((key, value));
                proof {
                    assert forall|k: Seq<char>| #[trigger] lookup(self.entries@, k) == if k == e.0@ {
                        Some(e.1)
                    } else {
                        lookup(before, k)
                    } by {
                        lemma_lookup_push(before, e, k);
                    }
                }
            },
        }
    }

    /// A copy of the map: the same keys in the same order, each with a copy
    /// of its value.
    pub fn copy(&self) -> (r: ConfigKeyMap)
        ensures
            r.entries().len() == self.entries().len(),
            forall|i: int| 0 <= i < self.entries().len() ==> #[trigger] r.entries()[i].0@ == self.entries()[i].0@,
    {
        let mut entries: Vec<(String, ConfigKeyValue)> = Vec::new();
        let mut i: usize = 0;
        while i < self.entries.len()
            invariant
                i <= self.entries@.len(),
                entries@.len() == i,
                forall|k: int| 0 <= k < i ==> #[trigger] entries@[k].0@ == self.entries@[k].0@,
            decreases self.entries@.len() - i,
        {
            entries.push((self.entries[i].0.clone(), self.entries[i].1.copy()));
            i = i + 1;
        }
        ConfigKeyMap { entries }
    }

    /// The key of entry `i`.
    pub fn key_at(&self, i: usize) -> (r: &String)
        requires
            i < self.entries().len(),
        ensures
            *r == self.entries()[i as int].0,
    {
        &self.entries[i].0
    }
}

/// Whether two texts are the same.
pub fn str_eq(a: &str, b: &str) -> (r: bool)
    ensures
        r == (a@ == b@),
{
    let x = crate::format::chars_of(a);
    let y = crate::format::chars_of(b);
    if x.len() != y.len() {
        assert(x@.len() != y@.len());
        return false;
    }
    let mut i: usize = 0;
    while i < x.len()
        invariant
            x@ == a@,
            y@ == b@,
            x@.len() == y@.len(),
            i <= x@.len(),
            forall|k: int| 0 <= k < i ==> x@[k] == y@[k],
        decreases x@.len() - i,
    {
        if x[i] != y[i] {
            assert(x@[i as int] != y@[i as int]);
            return false;
        }
        i = i + 1;
    }
    assert(x@ =~= y@);
    true
}

/// The global settings that a plugin's own settings fall back to.
#[derive(Clone, Copy, Debug, Default)]
pub struct GlobalConfiguration {
    pub line_width: Option<u32>,
    pub use_tabs: Option<bool>,
    pub indent_width: Option<u8>,
    pub new_line_kind: Option<NewLineKind>,
}

/// A problem with one property of the configuration.
#[derive(Clone, Debug)]
pub struct ConfigurationDiagnostic {
    pub property_name: String,
    pub message: String,
}

/// A configuration and the problems found while resolving it.
#[derive(Debug)]
pub struct ResolveConfigurationResult {
    pub config: Configuration,
    pub diagnostics: Vec<ConfigurationDiagnostic>,
}

} // verus!
