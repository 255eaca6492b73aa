//! Resolution of raw configuration keys into a configuration, with a
//! diagnostic for each value that cannot be used.
use crate::config::{
    str_eq, ConfigKeyMap, ConfigKeyValue, Configuration, ConfigurationDiagnostic, GlobalConfiguration,
    NewLineKind, ResolveConfigurationResult, TrailingCommaKind,
};
use crate::format::{chars_of, string_views};
use vstd::prelude::*;
use vstd::string::StringExecFns;

verus! {

/// The property names and messages of the diagnostics, in order.
pub open spec fn diagnostic_entries(d: Seq<ConfigurationDiagnostic>) -> Seq<(Seq<char>, Seq<char>)> {
    d.map_values(|x: ConfigurationDiagnostic| (x.property_name@, x.message@))
}

pub open spec fn bool_setting(v: Option<ConfigKeyValue>, default: bool) -> bool {
    match v {
        Some(ConfigKeyValue::Bool(b)) => b,
        _ => default,
    }
}

pub open spec fn bool_ok(v: Option<ConfigKeyValue>) -> bool {
    match v {
        Some(ConfigKeyValue::Bool(_)) | Some(ConfigKeyValue::Null) | None => true,
        _ => false,
    }
}

pub open spec fn u32_setting(v: Option<ConfigKeyValue>, default: u32) -> u32 {
    match v {
        Some(ConfigKeyValue::Number(n)) => if n >= 0 {
            n as u32
        } else {
            default
        },
        _ => default,
    }
}

pub open spec fn u32_ok(v: Option<ConfigKeyValue>) -> bool {
    match v {
        Some(ConfigKeyValue::Number(n)) => n >= 0,
        Some(ConfigKeyValue::Null) | None => true,
        _ => false,
    }
}

pub open spec fn u8_setting(v: Option<ConfigKeyValue>, default: u8) -> u8 {
    match v {
        Some(ConfigKeyValue::Number(n)) => if 0 <= n <= 255 {
            n as u8
        } else {
            default
        },
        _ => default,
    }
}

pub open spec fn u8_ok(v: Option<ConfigKeyValue>) -> bool {
    match v {
        Some(ConfigKeyValue::Number(n)) => 0 <= n <= 255,
        Some(ConfigKeyValue::Null) | None => true,
        _ => false,
    }
}

pub open spec fn string_setting(v: Option<ConfigKeyValue>, default: Seq<char>) -> Seq<char> {
    match v {
        Some(ConfigKeyValue::String(s)) => s@,
        _ => default,
    }
}

pub open spec fn string_ok(v: Option<ConfigKeyValue>) -> bool {
    match v {
        Some(ConfigKeyValue::String(_)) | Some(ConfigKeyValue::Null) | None => true,
        _ => false,
    }
}

/// The line ending named `s`: `auto`, `lf` or `crlf`.
pub open spec fn new_line_kind_named(s: Seq<char>) -> Option<NewLineKind> {
    if s == "auto"@ {
        Some(NewLineKind::Auto)
    } else if s == "lf"@ {
        Some(NewLineKind::LineFeed)
    } else if s == "crlf"@ {
        Some(NewLineKind::CarriageReturnLineFeed)
    } else {
        None
    }
}

/// The trailing comma policy named `s`: `always`, `maintain`, `never` or
/// `jsonc`.
pub open spec fn trailing_comma_kind_named(s: Seq<char>) -> Option<TrailingCommaKind> {
    if s == "always"@ {
        Some(TrailingCommaKind::Always)
    } else if s == "maintain"@ {
        Some(TrailingCommaKind::Maintain)
    } else if s == "never"@ {
        Some(TrailingCommaKind::Never)
    } else if s == "jsonc"@ {
        Some(TrailingCommaKind::Jsonc)
    } else {
        None
    }
}

pub open spec fn new_line_setting(v: Option<ConfigKeyValue>, default: NewLineKind) -> NewLineKind {
    match v {
        Some(ConfigKeyValue::String(s)) => match new_line_kind_named(s@) {
            Some(k) => k,
            None => default,
        },
        _ => default,
    }
}

pub open spec fn new_line_ok(v: Option<ConfigKeyValue>) -> bool {
    match v {
        Some(ConfigKeyValue::String(s)) => new_line_kind_named(s@) is Some,
        Some(ConfigKeyValue::Null) | None => true,
        _ => false,
    }
}

pub open spec fn trailing_commas_setting(v: Option<ConfigKeyValue>, default: TrailingCommaKind) -> TrailingCommaKind {
    match v {
        Some(ConfigKeyValue::String(s)) => match trailing_comma_kind_named(s@) {
            Some(k) => k,
            None => default,
        },
        _ => default,
    }
}

pub open spec fn trailing_commas_ok(v: Option<ConfigKeyValue>) -> bool {
    match v {
        Some(ConfigKeyValue::String(s)) => trailing_comma_kind_named(s@) is Some,
        Some(ConfigKeyValue::Null) | None => true,
        _ => false,
    }
}

/// `diags` gained one diagnostic for `key` where `ok` fails.
pub open spec fn diagnosed(
    before: Seq<ConfigurationDiagnostic>,
    after: Seq<ConfigurationDiagnostic>,
    key: Seq<char>,
    message: Seq<char>,
    ok: bool,
) -> bool {
    diagnostic_entries(after) =~= diagnostic_entries(before) + flagged(key, message, ok)
}

/// `key` with `message`, where `ok` fails.
pub open spec fn flagged(key: Seq<char>, message: Seq<char>, ok: bool) -> Seq<(Seq<char>, Seq<char>)> {
    if ok {
        Seq::empty()
    } else {
        seq![(key, message)]
    }
}

/// The decimal digits of `n`.
pub open spec fn decimal(n: nat) -> Seq<char>
    decreases n,
{
    let digit = seq!['0', '1', '2', '3', '4', '5', '6', '7', '8', '9'][(n % 10) as int];
    if n < 10 {
        seq![digit]
    } else {
        decimal(n / 10).push(digit)
    }
}

/// The message for a rejected entry at `index` of the file list.
pub open spec fn file_entry_message(index: nat, item: ConfigKeyValue) -> Seq<char> {
    if item is String {
        "Element at index "@ + decimal(index) + " starting with dot slash (./) is not supported. Remove the leading dot slash."@
    } else {
        "Expected element at index "@ + decimal(index) + " to be a string."@
    }
}

fn push_diagnostic(diags: &mut Vec<ConfigurationDiagnostic>, key: &str, message: String)
    ensures
        diagnostic_entries(final(diags)@) == diagnostic_entries(old(diags)@).push((key@, message@)),
{
    diags.push(ConfigurationDiagnostic { property_name: key.to_owned(), message });
    assert(diagnostic_entries(diags@) =~= diagnostic_entries(old(diags)@).push((key@, message@)));
}

fn read_bool(config: &ConfigKeyMap, key: &str, default: bool, diags: &mut Vec<ConfigurationDiagnostic>) -> (r:
    bool)
    ensures
        r == bool_setting(config.spec_get(key@), default),
        diagnosed(old(diags)@, final(diags)@, key@, "Expected a boolean."@, bool_ok(config.spec_get(key@))),
{
    match config.get(key) {
        Some(ConfigKeyValue::Bool(b)) => *b,
        Some(ConfigKeyValue::Null) | None => default,
        Some(_) => {
            push_diagnostic(diags, key, "Expected a boolean.".to_owned());
            default
        },
    }
}

fn read_u32(config: &ConfigKeyMap, key: &str, default: u32, diags: &mut Vec<ConfigurationDiagnostic>) -> (r:
    u32)
    ensures
        r == u32_setting(config.spec_get(key@), default),
        diagnosed(old(diags)@, final(diags)@, key@, "Expected a number that is zero or greater."@, u32_ok(config.spec_get(key@))),
{
    match config.get(key) {
        Some(ConfigKeyValue::Number(n)) if *n >= 0 => *n as u32,
        Some(ConfigKeyValue::Null) | None => default,
        Some(_) => {
            push_diagnostic(diags, key, "Expected a number that is zero or greater.".to_owned());
            default
        },
    }
}

fn read_u8(config: &ConfigKeyMap, key: &str, default: u8, diags: &mut Vec<ConfigurationDiagnostic>) -> (r: u8)
    ensures
        r == u8_setting(config.spec_get(key@), default),
        diagnosed(old(diags)@, final(diags)@, key@, "Expected a number from 0 to 255."@, u8_ok(config.spec_get(key@))),
{
    match config.get(key) {
        Some(ConfigKeyValue::Number(n)) if 0 <= *n && *n <= 255 => *n as u8,
        Some(ConfigKeyValue::Null) | None => default,
        Some(_) => {
            push_diagnostic(diags, key, "Expected a number from 0 to 255.".to_owned());
            default
        },
    }
}

fn read_string(
    config: &ConfigKeyMap,
    key: &str,
    default: &str,
    diags: &mut Vec<ConfigurationDiagnostic>,
) -> (r: String)
    ensures
        r@ == string_setting(config.spec_get(key@), default@),
        diagnosed(old(diags)@, final(diags)@, key@, "Expected a string."@, string_ok(config.spec_get(key@))),
{
    match config.get(key) {
        Some(ConfigKeyValue::String(s)) => s.clone(),
        Some(ConfigKeyValue::Null) | None => default.to_owned(),
        Some(_) => {
            push_diagnostic(diags, key, "Expected a string.".to_owned());
            default.to_owned()
        },
    }
}

fn new_line_kind_from(s: &str) -> (r: Option<NewLineKind>)
    ensures
        r == new_line_kind_named(s@),
{
    if str_eq(s, "auto") {
        Some(NewLineKind::Auto)
    } else if str_eq(s, "lf") {
        Some(NewLineKind::LineFeed)
    } else if str_eq(s, "crlf") {
        Some(NewLineKind::CarriageReturnLineFeed)
    } else {
        None
    }
}

fn trailing_comma_kind_from(s: &str) -> (r: Option<TrailingCommaKind>)
    ensures
        r == trailing_comma_kind_named(s@),
{
    if str_eq(s, "always") {
        Some(TrailingCommaKind::Always)
    } else if str_eq(s, "maintain") {
        Some(TrailingCommaKind::Maintain)
    } else if str_eq(s, "never") {
        Some(TrailingCommaKind::Never)
    } else if str_eq(s, "jsonc") {
        Some(TrailingCommaKind::Jsonc)
    } else {
        None
    }
}

fn read_new_line_kind(
    config: &ConfigKeyMap,
    key: &str,
    default: NewLineKind,
    diags: &mut Vec<ConfigurationDiagnostic>,
) -> (r: NewLineKind)
    ensures
        r == new_line_setting(config.spec_get(key@), default),
        diagnosed(old(diags)@, final(diags)@, key@, "Expected one of: auto, lf, crlf."@, new_line_ok(config.spec_get(key@))),
{
    let found = match config.get(key) {
        Some(ConfigKeyValue::String(s)) => new_line_kind_from(s.as_str()),
        Some(ConfigKeyValue::Null) | None => return default,
        Some(_) => None,
    };
    match found {
        Some(k) => k,
        None => {
            push_diagnostic(diags, key, "Expected one of: auto, lf, crlf.".to_owned());
            default
        },
    }
}

fn read_trailing_commas(
    config: &ConfigKeyMap,
    key: &str,
    default: TrailingCommaKind,
    diags: &mut Vec<ConfigurationDiagnostic>,
) -> (r: TrailingCommaKind)
    ensures
        r == trailing_commas_setting(config.spec_get(key@), default),
        diagnosed(old(diags)@, final(diags)@, key@, "Expected one of: always, maintain, never, jsonc."@, trailing_commas_ok(config.spec_get(key@))),
{
    let found = match config.get(key) {
        Some(ConfigKeyValue::String(s)) => trailing_comma_kind_from(s.as_str()),
        Some(ConfigKeyValue::Null) | None => return default,
        Some(_) => None,
    };
    match found {
        Some(k) => k,
        None => {
            push_diagnostic(diags, key, "Expected one of: always, maintain, never, jsonc.".to_owned());
            default
        },
    }
}

// Files treated as JSONC

pub open spec fn starts_with_dot_slash(v: Seq<char>) -> bool {
    v.len() >= 2 && v[0] == '.' && v[1] == '/'
}

pub open spec fn is_separator(c: char) -> bool {
    c == '/' || c == '\\'
}

pub open spec fn has_separator(v: Seq<char>) -> bool {
    exists|i: int| 0 <= i < v.len() && is_separator(#[trigger] v[i])
}

/// `v` with every `from` replaced by `to`.
pub open spec fn replace_char(v: Seq<char>, from: char, to: char) -> Seq<char> {
    Seq::new(v.len(), |i: int| if v[i] == from { to } else { v[i] })
}

/// The two suffixes that a configured file name stands for: with a leading
/// separator, once with forward slashes and once with backslashes.
pub open spec fn suffix_variants(v: Seq<char>) -> Seq<Seq<char>> {
    if has_separator(v) {
        let w = if is_separator(v[0]) {
            v
        } else {
            seq!['/'] + v
        };
        seq![replace_char(w, '/', '\\'), replace_char(w, '\\', '/')]
    } else {
        seq![seq!['/'] + v, seq!['\\'] + v]
    }
}

/// Whether an entry of the file list is accepted: a string without a
/// leading `./`.
pub open spec fn file_entry_ok(item: ConfigKeyValue) -> bool {
    item matches ConfigKeyValue::String(s) && !starts_with_dot_slash(s@)
}

pub open spec fn suffixes_of(items: Seq<ConfigKeyValue>) -> Seq<Seq<char>>
    decreases items.len(),
{
    if items.len() == 0 {
        Seq::empty()
    } else {
        suffixes_of(items.drop_last()) + match items.last() {
            ConfigKeyValue::String(s) => if starts_with_dot_slash(s@) {
                Seq::empty()
            } else {
                suffix_variants(s@)
            },
            _ => Seq::empty(),
        }
    }
}

/// A diagnostic for `key` for each rejected entry, in order.
pub open spec fn rejected_entries(items: Seq<ConfigKeyValue>, key: Seq<char>) -> Seq<(Seq<char>, Seq<char>)>
    decreases items.len(),
{
    if items.len() == 0 {
        Seq::empty()
    } else {
        rejected_entries(items.drop_last(), key) + flagged(
            key,
            file_entry_message((items.len() - 1) as nat, items.last()),
            file_entry_ok(items.last()),
        )
    }
}

pub open spec fn trailing_files_setting(v: Option<ConfigKeyValue>) -> Seq<Seq<char>> {
    match v {
        Some(ConfigKeyValue::Array(items)) => suffixes_of(items@),
        _ => Seq::empty(),
    }
}

pub open spec fn trailing_files_problems(v: Option<ConfigKeyValue>, key: Seq<char>) -> Seq<(Seq<char>, Seq<char>)> {
    match v {
        None => Seq::empty(),
        Some(ConfigKeyValue::Array(items)) => rejected_entries(items@, key),
        Some(_) => seq![(key, "Expected an array."@)],
    }
}

/// Relies on std's `String::push`: appends the character.
#[verifier::external_body]
fn push_char(s: &mut String, c: char)
    ensures
        final(s)@ == old(s)@.push(c),
{
    s.push(c)
}

fn with_prefix(c: char, s: &str) -> (r: String)
    ensures
        r@ == seq![c] + s@,
{
    let mut r = String::new();
    push_char(&mut r, c);
    r.append(s);
    assert(r@ =~= seq![c] + s@);
    r
}

fn replace_all(s: &Vec<char>, from: char, to: char) -> (r: String)
    ensures
        r@ == replace_char(s@, from, to),
{
    let mut r = String::new();
    let mut i: usize = 0;
    while i < s.len()
        invariant
            i <= s@.len(),
            r@ =~= replace_char(s@, from, to).take(i as int),
        decreases s@.len() - i,
    {
        let c = if s[i] == from {
            to
        } else {
            s[i]
        };
        push_char(&mut r, c);
        i = i + 1;
    }
    assert(r@ =~= replace_char(s@, from, to));
    r
}

fn variants(value: &String) -> (r: (String, String))
    ensures
        seq![r.0@, r.1@] == suffix_variants(value@),
{
    let chars = chars_of(value.as_str());
    let mut has_sep = false;
    let mut i: usize = 0;
    while i < chars.len()
        invariant
            chars@ == value@,
            i <= chars@.len(),
            has_sep == exists|k: int| 0 <= k < i && is_separator(#[trigger] chars@[k]),
        decreases chars@.len() - i,
    {
        if chars[i] == '/' || chars[i] == '\\' {
            has_sep = true;
        }
        i = i + 1;
    }
    if has_sep {
        let w = if chars[0] == '/' || chars[0] == '\\' {
            chars
        } else {
            chars_of(with_prefix('/', value.as_str()).as_str())
        };
        (replace_all(&w, '/', '\\'), replace_all(&w, '\\', '/'))
    } else {
        (with_prefix('/', value.as_str()), with_prefix('\\', value.as_str()))
    }
}

/// Appends the decimal digits of `n`.
fn push_decimal(s: &mut String, n: usize)
    ensures
        final(s)@ == old(s)@ + decimal(n as nat),
    decreases n,
{
    if n >= 10 {
        push_decimal(s, n / 10);
    }
    let d = n % 10;
    let c = if d == 0 {
        '0'
    } else if d == 1 {
        '1'
    } else if d == 2 {
        '2'
    } else if d == 3 {
        '3'
    } else if d == 4 {
        '4'
    } else if d == 5 {
        '5'
    } else if d == 6 {
        '6'
    } else if d == 7 {
        '7'
    } else if d == 8 {
        '8'
    } else {
        '9'
    };
    let ghost digits = seq!['0', '1', '2', '3', '4', '5', '6', '7', '8', '9'];
    assert(c == digits[(n % 10) as int]);
    push_char(s, c);
    proof {
        if n >= 10 {
            assert(final(s)@ =~= old(s)@ + decimal(n as nat)) by {
                assert(decimal(n as nat) == decimal((n / 10) as nat).push(c));
            }
        } else {
            assert(decimal(n as nat) == seq![c]);
            assert(final(s)@ =~= old(s)@ + decimal(n as nat));
        }
    }
}

/// `before`, the index in decimal, then `after`.
fn index_message(before: &str, i: usize, after: &str) -> (r: String)
    ensures
        r@ == before@ + decimal(i as nat) + after@,
{
    let mut message = before.to_owned();
    push_decimal(&mut message, i);
    message.append(after);
    message
}

fn read_trailing_comma_files(
    config: &ConfigKeyMap,
    key: &str,
    diags: &mut Vec<ConfigurationDiagnostic>,
) -> (r: Vec<String>)
    ensures
        string_views(r@) == trailing_files_setting(config.spec_get(key@)),
        diagnostic_entries(final(diags)@) =~= diagnostic_entries(old(diags)@) + trailing_files_problems(
            config.spec_get(key@),
            key@,
        ),
{
    let mut entries: Vec<String> = Vec::new();
    match config.get(key) {
        None => {
            assert(string_views(entries@) =~= Seq::<Seq<char>>::empty());
            assert(diagnostic_entries(diags@) =~= diagnostic_entries(old(diags)@) + Seq::<(Seq<char>, Seq<char>)>::empty());
        },
        Some(ConfigKeyValue::Array(items)) => {
            let mut i: usize = 0;
            assert(items@.take(0) =~= Seq::<ConfigKeyValue>::empty());
            assert(string_views(entries@) =~= Seq::<Seq<char>>::empty());
            while i < items.len()
                invariant
                    i <= items@.len(),
                    string_views(entries@) =~= suffixes_of(items@.take(i as int)),
                    diagnostic_entries(diags@) =~= diagnostic_entries(old(diags)@) + rejected_entries(
                        items@.take(i as int),
                        key@,
                    ),
                decreases items@.len() - i,
            {
                let ghost prefix = items@.take(i + 1);
                assert(prefix.drop_last() =~= items@.take(i as int));
                assert(prefix.last() == items@[i as int]);
                let ghost names_before = diagnostic_entries(diags@);
                let ghost views_before = string_views(entries@);
                match &items[i] {
                    ConfigKeyValue::String(value) => {
                        let chars = chars_of(value.as_str());
                        if chars.len() >= 2 && chars[0] == '.' && chars[1] == '/' {
                            let message = index_message(
                                "Element at index ",
                                i,
                                " starting with dot slash (./) is not supported. Remove the leading dot slash.",
                            );
                            push_diagnostic(diags, key, message);
                            assert(string_views(entries@) =~= views_before + Seq::<Seq<char>>::empty());
                        } else {
                            let (a, b) = variants(value);
                            entries.push(a);
                            entries.push(b);
                            assert(string_views(entries@) =~= views_before + suffix_variants(value@));
                            assert(diagnostic_entries(diags@) =~= names_before + Seq::<(Seq<char>, Seq<char>)>::empty());
                        }
                    },
                    _ => {
                        let message = index_message("Expected element at index ", i, " to be a string.");
                        push_diagnostic(diags, key, message);
                        assert(string_views(entries@) =~= views_before + Seq::<Seq<char>>::empty());
                    },
                }
                i = i + 1;
            }
            assert(items@.take(i as int) =~= items@);
        },
        Some(_) => {
            push_diagnostic(diags, key, "Expected an array.".to_owned());
            assert(string_views(entries@) =~= Seq::<Seq<char>>::empty());
        },
    }
    entries
}

// Resolution

/// The keys that this library reads.
pub open spec fn is_known_key(k: Seq<char>) -> bool {
    ||| k == "deno"@
    ||| k == "preferSingleLine"@
    ||| k == "lineWidth"@
    ||| k == "useTabs"@
    ||| k == "indentWidth"@
    ||| k == "newLineKind"@
    ||| k == "commentLine.forceSpaceAfterSlashes"@
    ||| k == "ignoreNodeCommentText"@
    ||| k == "array.preferSingleLine"@
    ||| k == "object.preferSingleLine"@
    ||| k == "trailingCommas"@
    ||| k == "jsonTrailingCommaFiles"@
}

/// The keys that this library does not read, in order.
pub open spec fn unknown_keys(entries: Seq<(String, ConfigKeyValue)>) -> Seq<(Seq<char>, Seq<char>)>
    decreases entries.len(),
{
    if entries.len() == 0 {
        Seq::empty()
    } else {
        unknown_keys(entries.drop_last()) + flagged(
            entries.last().0@,
            "Unknown property in configuration"@,
            is_known_key(entries.last().0@),
        )
    }
}

fn is_known(k: &str) -> (r: bool)
    ensures
        r == is_known_key(k@),
{
    str_eq(k, "deno") || str_eq(k, "preferSingleLine") || str_eq(k, "lineWidth") || str_eq(k, "useTabs")
        || str_eq(k, "indentWidth") || str_eq(k, "newLineKind") || str_eq(
        k,
        "commentLine.forceSpaceAfterSlashes",
    ) || str_eq(k, "ignoreNodeCommentText") || str_eq(k, "array.preferSingleLine") || str_eq(
        k,
        "object.preferSingleLine",
    ) || str_eq(k, "trailingCommas") || str_eq(k, "jsonTrailingCommaFiles")
}

/// The `deno` setting is on.
pub open spec fn deno_on(config: ConfigKeyMap) -> bool {
    bool_setting(config.spec_get("deno"@), false)
}

/// `key` is filled from the Deno preset: the preset is on and the key is not
/// set.
pub open spec fn from_deno(config: ConfigKeyMap, key: Seq<char>) -> bool {
    deno_on(config) && config.spec_get(key) is None
}

/// `c` is what `config` resolves to over `global`: each setting as set,
/// else from the Deno preset where it is on, else from `global`, else the
/// default.
pub open spec fn resolves_to(config: ConfigKeyMap, global: GlobalConfiguration, c: Configuration) -> bool {
    let prefer_single_line = bool_setting(config.spec_get("preferSingleLine"@), false);
    &&& c.line_width == u32_setting(
        config.spec_get("lineWidth"@),
        if from_deno(config, "lineWidth"@) {
            80
        } else {
            match global.line_width {
                Some(w) => w,
                None => 120,
            }
        },
    )
    &&& c.use_tabs == bool_setting(
        config.spec_get("useTabs"@),
        match global.use_tabs {
            Some(t) => t,
            None => false,
        },
    )
    &&& c.indent_width == u8_setting(
        config.spec_get("indentWidth"@),
        match global.indent_width {
            Some(w) => w,
            None => 2,
        },
    )
    &&& c.new_line_kind == new_line_setting(
        config.spec_get("newLineKind"@),
        match global.new_line_kind {
            Some(k) => k,
            None => NewLineKind::LineFeed,
        },
    )
    &&& c.comment_line_force_space_after_slashes == bool_setting(
        config.spec_get("commentLine.forceSpaceAfterSlashes"@),
        !from_deno(config, "commentLine.forceSpaceAfterSlashes"@),
    )
    &&& c.ignore_node_comment_text@ == string_setting(
        config.spec_get("ignoreNodeCommentText"@),
        if from_deno(config, "ignoreNodeCommentText"@) {
            "deno-fmt-ignore"@
        } else {
            "dprint-ignore"@
        },
    )
    &&& c.array_prefer_single_line == bool_setting(config.spec_get("array.preferSingleLine"@), prefer_single_line)
    &&& c.object_prefer_single_line == bool_setting(config.spec_get("object.preferSingleLine"@), prefer_single_line)
    &&& c.trailing_commas == trailing_commas_setting(config.spec_get("trailingCommas"@), TrailingCommaKind::Jsonc)
    &&& string_views(c.json_trailing_comma_files@) == trailing_files_setting(config.spec_get("jsonTrailingCommaFiles"@))
}

/// The properties that get a diagnostic, in order: each read key whose
/// value has the wrong type or is not one of the names it takes, each
/// rejected entry of the file list, then each key that is not read.
pub open spec fn expected_diagnostics(config: ConfigKeyMap) -> Seq<(Seq<char>, Seq<char>)> {
    flagged("deno"@, "Expected a boolean."@, bool_ok(config.spec_get("deno"@))) + flagged(
        "preferSingleLine"@,
        "Expected a boolean."@,
        bool_ok(config.spec_get("preferSingleLine"@)),
    ) + flagged("lineWidth"@, "Expected a number that is zero or greater."@, u32_ok(config.spec_get("lineWidth"@))) + flagged(
        "useTabs"@,
        "Expected a boolean."@,
        bool_ok(config.spec_get("useTabs"@)),
    ) + flagged("indentWidth"@, "Expected a number from 0 to 255."@, u8_ok(config.spec_get("indentWidth"@))) + flagged(
        "newLineKind"@,
        "Expected one of: auto, lf, crlf."@,
        new_line_ok(config.spec_get("newLineKind"@)),
    ) + flagged(
        "commentLine.forceSpaceAfterSlashes"@,
        "Expected a boolean."@,
        bool_ok(config.spec_get("commentLine.forceSpaceAfterSlashes"@)),
    ) + flagged("ignoreNodeCommentText"@, "Expected a string."@, string_ok(config.spec_get("ignoreNodeCommentText"@))) + flagged(
        "array.preferSingleLine"@,
        "Expected a boolean."@,
        bool_ok(config.spec_get("array.preferSingleLine"@)),
    ) + flagged("object.preferSingleLine"@, "Expected a boolean."@, bool_ok(config.spec_get("object.preferSingleLine"@))) + flagged(
        "trailingCommas"@,
        "Expected one of: always, maintain, never, jsonc."@,
        trailing_commas_ok(config.spec_get("trailingCommas"@)),
    ) + trailing_files_problems(config.spec_get("jsonTrailingCommaFiles"@), "jsonTrailingCommaFiles"@)
        + unknown_keys(config.entries())
}

fn unknown_property_diagnostics(config: &ConfigKeyMap, diags: &mut Vec<ConfigurationDiagnostic>)
    ensures
        diagnostic_entries(final(diags)@) =~= diagnostic_entries(old(diags)@) + unknown_keys(config.entries()),
{
    let n = config.len();
    let mut i: usize = 0;
    assert(config.entries().take(0) =~= Seq::<(String, ConfigKeyValue)>::empty());
    while i < n
        invariant
            n == config.entries().len(),
            i <= n,
            diagnostic_entries(diags@) =~= diagnostic_entries(old(diags)@) + unknown_keys(config.entries().take(i as int)),
        decreases n - i,
    {
        let ghost prefix = config.entries().take(i + 1);
        assert(prefix.drop_last() =~= config.entries().take(i as int));
        let key = config.key_at(i);
        if !is_known(key.as_str()) {
            push_diagnostic(diags, key.as_str(), "Unknown property in configuration".to_owned());
        }
        i = i + 1;
    }
    assert(config.entries().take(n as int) =~= config.entries());
}

/// Resolves a configuration from its raw keys over the global settings.
pub fn resolve_config(config: ConfigKeyMap, global_config: &GlobalConfiguration) -> (r: ResolveConfigurationResult)
    ensures
        resolves_to(config, *global_config, r.config),
        diagnostic_entries(r.diagnostics@) == expected_diagnostics(config),
{
    resolve_config_of(&config, global_config)
}

pub(crate) fn resolve_config_of(config: &ConfigKeyMap, global: &GlobalConfiguration) -> (r: ResolveConfigurationResult)
    ensures
        resolves_to(*config, *global, r.config),
        diagnostic_entries(r.diagnostics@) == expected_diagnostics(*config),
{
    let mut diagnostics: Vec<ConfigurationDiagnostic> = Vec::new();
    let ghost d0 = diagnostic_entries(diagnostics@);
    let deno = read_bool(config, "deno", false, &mut diagnostics);
    let prefer_single_line = read_bool(config, "preferSingleLine", false, &mut diagnostics);
    let global_line_width = match global.line_width {
        Some(w) => w,
        None => 120,
    };
    let line_width_default = if deno && config.get("lineWidth").is_none() {
        80
    } else {
        global_line_width
    };
    let line_width = read_u32(config, "lineWidth", line_width_default, &mut diagnostics);
    let use_tabs = read_bool(
        config,
        "useTabs",
        match global.use_tabs {
            Some(t) => t,
            None => false,
        },
        &mut diagnostics,
    );
    let indent_width = read_u8(
        config,
        "indentWidth",
        match global.indent_width {
            Some(w) => w,
            None => 2,
        },
        &mut diagnostics,
    );
    let new_line_kind = read_new_line_kind(
        config,
        "newLineKind",
        match global.new_line_kind {
            Some(k) => k,
            None => NewLineKind::LineFeed,
        },
        &mut diagnostics,
    );
    let force_space_default = !(deno && config.get("commentLine.forceSpaceAfterSlashes").is_none());
    let comment_line_force_space_after_slashes = read_bool(
        config,
        "commentLine.forceSpaceAfterSlashes",
        force_space_default,
        &mut diagnostics,
    );
    let ignore_default = if deno && config.get("ignoreNodeCommentText").is_none() {
        "deno-fmt-ignore"
    } else {
        "dprint-ignore"
    };
    let ignore_node_comment_text = read_string(config, "ignoreNodeCommentText", ignore_default, &mut diagnostics);
    let array_prefer_single_line = read_bool(config, "array.preferSingleLine", prefer_single_line, &mut diagnostics);
    let object_prefer_single_line = read_bool(config, "object.preferSingleLine", prefer_single_line, &mut diagnostics);
    let trailing_commas = read_trailing_commas(config, "trailingCommas", TrailingCommaKind::Jsonc, &mut diagnostics);
    let json_trailing_comma_files = read_trailing_comma_files(config, "jsonTrailingCommaFiles", &mut diagnostics);
    unknown_property_diagnostics(config, &mut diagnostics);
    assert(d0 =~= Seq::<(Seq<char>, Seq<char>)>::empty());
    assert(diagnostic_entries(diagnostics@) =~= expected_diagnostics(*config));
    ResolveConfigurationResult {
        config: Configuration {
            line_width,
            use_tabs,
            indent_width,
            new_line_kind,
            comment_line_force_space_after_slashes,
            ignore_node_comment_text,
            array_prefer_single_line,
            object_prefer_single_line,
            trailing_commas,
            json_trailing_comma_files,
        },
        diagnostics,
    }
}

} // verus!
