//! A builder that sets raw configuration keys one at a time.
use crate::config::{ConfigKeyMap, ConfigKeyValue, Configuration, GlobalConfiguration, NewLineKind};
use crate::resolve::{new_line_kind_named, resolve_config_of, resolves_to};
use vstd::prelude::*;

verus! {

broadcast use vstd::string::group_string_axioms;

/// Builds a configuration from settings given one at a time.
pub struct ConfigurationBuilder {
    config: ConfigKeyMap,
    global_config: Option<GlobalConfiguration>,
}

impl ConfigurationBuilder {
    /// The settings given so far, as raw keys.
    pub closed spec fn spec_config(&self) -> ConfigKeyMap {
        self.config
    }

    pub closed spec fn spec_global_config(&self) -> Option<GlobalConfiguration> {
        self.global_config
    }

    /// `self` is `before` with `key` set to `value`.
    pub open spec fn sets(self, before: Self, key: Seq<char>, value: ConfigKeyValue) -> bool {
        &&& self.spec_global_config() == before.spec_global_config()
        &&& forall|k: Seq<char>| #[trigger] self.spec_config().spec_get(k) == if k == key {
            Some(value)
        } else {
            before.spec_config().spec_get(k)
        }
    }

    /// A builder with no settings.
    pub fn new() -> (r: ConfigurationBuilder)
        ensures
            r.spec_config().entries().len() == 0,
            r.spec_global_config() is None,
    {
        ConfigurationBuilder { config: ConfigKeyMap::new(), global_config: None }
    }

    /// The configuration that the settings resolve to, over the global
    /// configuration, or over no global settings where none was given.
    pub fn build(&self) -> (r: Configuration)
        ensures
            resolves_to(
                self.spec_config(),
                match self.spec_global_config() {
                    Some(g) => g,
                    None => GlobalConfiguration {
                        line_width: None,
                        use_tabs: None,
                        indent_width: None,
                        new_line_kind: None,
                    },
                },
                r,
            ),
    {
        let global = match self.global_config {
            Some(g) => g,
            None => GlobalConfiguration { line_width: None, use_tabs: None, indent_width: None, new_line_kind: None },
        };
        resolve_config_of(&self.config, &global).config
    }

    /// A copy of the settings given so far, as raw keys.
    pub fn get_inner_config(&self) -> (r: ConfigKeyMap)
        ensures
            r.entries().len() == self.spec_config().entries().len(),
    {
        self.config.copy()
    }

    /// Sets the global configuration.
    pub fn global_config(&mut self, global_config: GlobalConfiguration) -> (r: &mut Self)
        ensures
            r.spec_config() == old(self).spec_config(),
            r.spec_global_config() == Some(global_config),
            *final(self) == *final(r),
    {
        self.global_config = Some(global_config);
        self
    }

    fn insert(&mut self, name: &str, value: ConfigKeyValue) -> (r: &mut Self)
        ensures
            r.sets(*old(self), name@, value),
            *final(self) == *final(r),
    {
        self.config.insert(name.to_owned(), value);
        self
    }

    /// The width of a line the printer will try to stay under. Note that the printer may exceed this width in certain cases.
    pub fn line_width(&mut self, value: u32) -> (r: &mut Self)
        ensures
            r.sets(*old(self), "lineWidth"@, ConfigKeyValue::Number(value as i32)),
            *final(self) == *final(r),
    {
        self.insert("lineWidth", ConfigKeyValue::Number(value as i32))
    }

    /// `self` is `before` but for the setting `key`.
    pub open spec fn keeps_all_but(self, before: Self, key: Seq<char>) -> bool {
        &&& self.spec_global_config() == before.spec_global_config()
        &&& forall|k: Seq<char>| k != key ==> #[trigger] self.spec_config().spec_get(k) == before.spec_config().spec_get(k)
    }

    /// Whether to use tabs (true) or spaces (false).
    pub fn use_tabs(&mut self, value: bool) -> (r: &mut Self)
        ensures
            r.sets(*old(self), "useTabs"@, ConfigKeyValue::Bool(value)),
            *final(self) == *final(r),
    {
        self.insert("useTabs", ConfigKeyValue::Bool(value))
    }

    /// The number of columns for an indent.
    pub fn indent_width(&mut self, value: u8) -> (r: &mut Self)
        ensures
            r.sets(*old(self), "indentWidth"@, ConfigKeyValue::Number(value as i32)),
            *final(self) == *final(r),
    {
        self.insert("indentWidth", ConfigKeyValue::Number(value as i32))
    }

    /// The kind of newline to use.
    pub fn new_line_kind(&mut self, value: NewLineKind) -> (r: &mut Self)
        ensures
            r.keeps_all_but(*old(self), "newLineKind"@),
            r.spec_config().spec_get("newLineKind"@) matches Some(ConfigKeyValue::String(s)) && new_line_kind_named(s@) == Some(value),
            *final(self) == *final(r),
    {
        let name = match value {
            NewLineKind::Auto => "auto".to_owned(),
            NewLineKind::LineFeed => "lf".to_owned(),
            NewLineKind::CarriageReturnLineFeed => "crlf".to_owned(),
        };
        proof {
            reveal_strlit("auto");
            reveal_strlit("lf");
            reveal_strlit("crlf");
            assert("crlf"@[0] != "auto"@[0]);
        }
        self.insert("newLineKind", ConfigKeyValue::String(name))
    }

    /// Whether to force a space after the slashes of a line comment.
    pub fn comment_line_force_space_after_slashes(&mut self, value: bool) -> (r: &mut Self)
        ensures
            r.sets(*old(self), "commentLine.forceSpaceAfterSlashes"@, ConfigKeyValue::Bool(value)),
            *final(self) == *final(r),
    {
        self.insert("commentLine.forceSpaceAfterSlashes", ConfigKeyValue::Bool(value))
    }

    /// The text to use for an ignore comment (ex. `// dprint-ignore`).
    pub fn ignore_node_comment_text(&mut self, value: &str) -> (r: &mut Self)
        ensures
            r.keeps_all_but(*old(self), "ignoreNodeCommentText"@),
            r.spec_config().spec_get("ignoreNodeCommentText"@) matches Some(ConfigKeyValue::String(s)) && s@ == value@,
            *final(self) == *final(r),
    {
        self.insert("ignoreNodeCommentText", ConfigKeyValue::String(value.to_owned()))
    }

    /// Whether to make objects and arrays collapse to a single line when below the line width.
    pub fn prefer_single_line(&mut self, value: bool) -> (r: &mut Self)
        ensures
            r.sets(*old(self), "preferSingleLine"@, ConfigKeyValue::Bool(value)),
            *final(self) == *final(r),
    {
        self.insert("preferSingleLine", ConfigKeyValue::Bool(value))
    }

    /// Whether to make arrays collapse to a single line when below the line width.
    pub fn array_prefer_single_line(&mut self, value: bool) -> (r: &mut Self)
        ensures
            r.sets(*old(self), "array.preferSingleLine"@, ConfigKeyValue::Bool(value)),
            *final(self) == *final(r),
    {
        self.insert("array.preferSingleLine", ConfigKeyValue::Bool(value))
    }

    /// Whether to make objects collapse to a single line when below the line width.
    pub fn object_prefer_single_line(&mut self, value: bool) -> (r: &mut Self)
        ensures
            r.sets(*old(self), "object.preferSingleLine"@, ConfigKeyValue::Bool(value)),
            *final(self) == *final(r),
    {
        self.insert("object.preferSingleLine", ConfigKeyValue::Bool(value))
    }

    /// File path suffixes whose files are formatted as JSONC.
    pub fn json_trailing_comma_files(&mut self, value: Vec<String>) -> (r: &mut Self)
        ensures
            r.keeps_all_but(*old(self), "jsonTrailingCommaFiles"@),
            r.spec_config().spec_get("jsonTrailingCommaFiles"@) matches Some(ConfigKeyValue::Array(items))
                && items@.len() == value@.len() && forall|i: int| 0 <= i < value@.len() ==> #[trigger] items@[i] == ConfigKeyValue::String(value@[i]),
            *final(self) == *final(r),
    {
        let mut items: Vec<ConfigKeyValue> = Vec::new();
        let mut rest = value;
        let ghost all = rest@;
        while rest.len() > 0
            invariant
                items@.len() + rest@.len() == all.len(),
                forall|i: int| 0 <= i < items@.len() ==> #[trigger] items@[i] == ConfigKeyValue::String(all[i]),
                rest@ == all.skip(items@.len() as int),
            decreases rest@.len(),
        {
            let s = rest.remove(0);
            items.push(ConfigKeyValue::String(s));
            assert(rest@ =~= all.skip(items@.len() as int));
        }
        self.insert("jsonTrailingCommaFiles", ConfigKeyValue::Array(items))
    }

    /// Sets the configuration to what is used in Deno: a line width of 80,
    /// `deno-fmt-ignore` as the ignore comment, and no space forced after
    /// the slashes of a line comment.
    pub fn deno(&mut self) -> (r: &mut Self)
        ensures
            r.spec_global_config() == old(self).spec_global_config(),
            r.spec_config().spec_get("lineWidth"@) == Some(ConfigKeyValue::Number(80)),
            r.spec_config().spec_get("commentLine.forceSpaceAfterSlashes"@) == Some(ConfigKeyValue::Bool(false)),
            r.spec_config().spec_get("ignoreNodeCommentText"@) matches Some(ConfigKeyValue::String(s)) && s@ == "deno-fmt-ignore"@,
            forall|k: Seq<char>| k != "lineWidth"@ && k != "commentLine.forceSpaceAfterSlashes"@ && k != "ignoreNodeCommentText"@
                ==> #[trigger] r.spec_config().spec_get(k) == old(self).spec_config().spec_get(k),
            *final(self) == *final(r),
    {
        proof {
            reveal_strlit("lineWidth");
            reveal_strlit("commentLine.forceSpaceAfterSlashes");
            reveal_strlit("ignoreNodeCommentText");
            assert("lineWidth"@.len() == 9);
            assert("ignoreNodeCommentText"@.len() == 21);
            assert("commentLine.forceSpaceAfterSlashes"@.len() == 34);
        }
        self.config.insert("lineWidth".to_owned(), ConfigKeyValue::Number(80));
        self.config.insert("ignoreNodeCommentText".to_owned(), ConfigKeyValue::String("deno-fmt-ignore".to_owned()));
        self.config.insert("commentLine.forceSpaceAfterSlashes".to_owned(), ConfigKeyValue::Bool(false));
        self
    }
}

} // verus!
