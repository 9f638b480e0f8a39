//! The settings of a repository: where they live, and reading and changing them.
use vstd::prelude::*;
use crate::settings::{lemma_save_load, parse_text, render_pairs, storable, Settings};
use crate::text::{is_blank, is_blank_str, join_path, join_str, lines_of, split_lines, views};

verus! {

/// Why a settings operation did not go through.
#[derive(Clone, Copy, PartialEq, Eq, Debug, Structural)]
pub enum SettingsError {
    /// The key has no value.
    KeyNotFound,
    /// The value is empty once trimmed.
    InvalidValue,
}

impl SettingsError {
    /// A message for a person.
    pub fn message(&self) -> (r: String)
        ensures
            r@ == match self {
                SettingsError::KeyNotFound => "Key not found"@,
                SettingsError::InvalidValue => "Value cannot be empty"@,
            },
    {
        match self {
            SettingsError::KeyNotFound => String::from_str("Key not found"),
            SettingsError::InvalidValue => String::from_str("Value cannot be empty"),
        }
    }
}

/// The tool's directory in a repository, the path of its settings file, and
/// the settings read from it.
pub struct FileHandle {
    gitter_path: String,
    settings_path: String,
    settings: Settings,
}

impl FileHandle {
    /// The tool's directory.
    pub closed spec fn gitter(&self) -> Seq<char> {
        self.gitter_path@
    }

    /// The path of the settings file.
    pub closed spec fn settings_file(&self) -> Seq<char> {
        self.settings_path@
    }

    /// The settings.
    pub closed spec fn store(&self) -> Settings {
        self.settings
    }

    /// The settings are well formed.
    pub open spec fn wf(&self) -> bool {
        self.store().wf()
    }

    /// A handle on directory `gitter_path`, whose settings file holds
    /// `settings_text` (empty where the file is missing).
    pub fn new(gitter_path: String, settings_text: &str) -> (r: FileHandle)
        ensures
            r.wf(),
            r.gitter() == gitter_path@,
            r.settings_file() == join_path(gitter_path@, "settings.txt"@),
            r.store()@ == parse_text(settings_text@),
    {
        let settings_path = FileHandle::get_settings_path(gitter_path.as_str());
        let settings = Settings::parse(settings_text);
        FileHandle { gitter_path, settings_path, settings }
    }

    /// The path of the settings file in directory `path`.
    pub fn get_settings_path(path: &str) -> (r: String)
        ensures
            r@ == join_path(path@, "settings.txt"@),
    {
        join_str(path, "settings.txt")
    }

    /// The tool's directory.
    pub fn get_gitter_path(&self) -> (r: &String)
        ensures
            r@ == self.gitter(),
    {
        &self.gitter_path
    }

    /// The path of the settings file.
    pub fn settings_path(&self) -> (r: &String)
        ensures
            r@ == self.settings_file(),
    {
        &self.settings_path
    }

    /// The settings.
    pub fn get_settings(&self) -> (r: &Settings)
        ensures
            *r == self.store(),
    {
        &self.settings
    }

    /// The value of `key`, or `KeyNotFound`.
    pub fn get_settings_value(&self, key: &str) -> (r: Result<&String, SettingsError>)
        requires
            self.wf(),
        ensures
            match r {
                Ok(v) => self.store()@.contains_key(key@) && self.store()@[key@] == v@,
                Err(e) => e == SettingsError::KeyNotFound && !self.store()@.contains_key(key@),
            },
    {
        match self.settings.get(key) {
            Some(v) => Ok(v),
            None => Err(SettingsError::KeyNotFound),
        }
    }

    /// Sets `key` to `value` and returns a confirmation; a value that is blank
    /// is refused with `InvalidValue` and nothing changes. The caller then
    /// writes `settings_text` to the settings file.
    pub fn set_settings_value(&mut self, key: &str, value: &str) -> (r: Result<String, SettingsError>)
        requires
            old(self).wf(),
        ensures
            final(self).wf(),
            is_blank(value@) ==> r == Err::<String, SettingsError>(SettingsError::InvalidValue)
                && *final(self) == *old(self),
            !is_blank(value@) ==> r is Ok && r->Ok_0@ == "Key '"@ + key@ + "' updated."@
                && final(self).store()@ == old(self).store()@.insert(key@, value@)
                && final(self).gitter() == old(self).gitter() && final(self).settings_file()
                == old(self).settings_file(),
    {
        if is_blank_str(value) {
            return Err(SettingsError::InvalidValue);
        }
        self.settings.insert(key, value);
        let mut msg = String::from_str("Key '");
        msg.append(key);
        msg.append("' updated.");
        Ok(msg)
    }

    /// The text to write to the settings file: one `key=value` line per
    /// setting, in key order.
    pub fn settings_text(&self) -> (r: String)
        requires
            self.wf(),
        ensures
            r@ == render_pairs(self.store().pairs()),
    {
        self.settings.render()
    }

    /// The lines of a file's text.
    pub fn text_to_vec(text: &str) -> (r: Vec<String>)
        ensures
            views(r@) == lines_of(text@),
    {
        split_lines(text)
    }
}

/// After a value is set, saving the settings and loading them back gives, for
/// every key, the value most recently set: the new value for the key just
/// set, the earlier one for the others. It holds where keys and values are
/// storable.
pub proof fn lemma_set_save_load(before: FileHandle, after: FileHandle, key: Seq<char>, value: Seq<char>)
    requires
        before.wf(),
        after.wf(),
        after.store()@ == before.store()@.insert(key, value),
        forall|k: Seq<char>| #[trigger] before.store()@.contains_key(k) ==> storable(k, before.store()@[k]),
        storable(key, value),
    ensures
        parse_text(render_pairs(after.store().pairs())) == before.store()@.insert(key, value),
        parse_text(render_pairs(after.store().pairs())).contains_key(key),
        parse_text(render_pairs(after.store().pairs()))[key] == value,
{
    let m = after.store()@;
    assert forall|k: Seq<char>| #[trigger] m.contains_key(k) implies storable(k, m[k]) by {
        if k != key {
            assert(before.store()@.contains_key(k));
        }
    }
    lemma_save_load(after.store());
}

} // verus!
