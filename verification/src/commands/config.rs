//! The decisions of the `config` subcommand: which setting a name means
//! and how a text value changes the configuration.
use vstd::prelude::*;
use vstd::string::StringExecFns;

use crate::commands::keys::{parse_unsigned, unsigned_text};
use crate::config::Config;
use crate::error::ShrinkError;
use crate::text::{lowercase, same_text, split_on, split_text, trim, trimmed, unicode_lowercase};

verus! {

/// The settings of the configuration file that `config get` can show.
#[derive(Debug, Clone, Copy, PartialEq, Eq, Structural)]
pub enum ConfigField {
    Concurrency,
    Overwrite,
    MinSize,
    Extensions,
    SkipCompressed,
}

/// The setting a name means, if any.
pub open spec fn field_named(name: Seq<char>) -> Option<ConfigField> {
    if name == "concurrency"@ {
        Some(ConfigField::Concurrency)
    } else if name == "overwrite"@ {
        Some(ConfigField::Overwrite)
    } else if name == "min_size"@ {
        Some(ConfigField::MinSize)
    } else if name == "extensions"@ {
        Some(ConfigField::Extensions)
    } else if name == "skip_compressed"@ {
        Some(ConfigField::SkipCompressed)
    } else {
        None
    }
}

fn unknown_key(name: &str) -> (e: ShrinkError)
    ensures
        e matches ShrinkError::BadArgument(m) && m@ == "unknown key: "@ + name@,
{
    let mut m = String::from_str("unknown key: ");
    m.append(name);
    ShrinkError::BadArgument(m)
}

impl ConfigField {
    /// The setting called `name`; an unknown name is a bad argument.
    pub fn from_name(name: &str) -> (r: Result<ConfigField, ShrinkError>)
        ensures
            match field_named(name@) {
                Some(f) => r == Ok::<ConfigField, ShrinkError>(f),
                None => r matches Err(ShrinkError::BadArgument(m)) && m@ == "unknown key: "@ + name@,
            },
    {
        if same_text(name, "concurrency") {
            Ok(ConfigField::Concurrency)
        } else if same_text(name, "overwrite") {
            Ok(ConfigField::Overwrite)
        } else if same_text(name, "min_size") {
            Ok(ConfigField::MinSize)
        } else if same_text(name, "extensions") {
            Ok(ConfigField::Extensions)
        } else if same_text(name, "skip_compressed") {
            Ok(ConfigField::SkipCompressed)
        } else {
            Err(unknown_key(name))
        }
    }
}

/// The boolean `s` spells, as `str::parse::<bool>` reads it.
pub open spec fn bool_text(s: Seq<char>) -> Option<bool> {
    if s == "true"@ {
        Some(true)
    } else if s == "false"@ {
        Some(false)
    } else {
        None
    }
}

fn parse_bool(s: &str) -> (r: Option<bool>)
    ensures
        r == bool_text(s@),
{
    if same_text(s, "true") {
        Some(true)
    } else if same_text(s, "false") {
        Some(false)
    } else {
        None
    }
}

/// `new` is `old` with only the setting `f` possibly changed.
pub open spec fn only_changed(old: Config, new: Config, f: ConfigField) -> bool {
    &&& f != ConfigField::Concurrency ==> new.concurrency == old.concurrency
    &&& f != ConfigField::Overwrite ==> new.overwrite == old.overwrite
    &&& f != ConfigField::MinSize ==> new.min_size == old.min_size
    &&& f != ConfigField::Extensions ==> new.extensions == old.extensions
    &&& f != ConfigField::SkipCompressed ==> new.skip_compressed == old.skip_compressed
    &&& new.keys == old.keys
}

/// The extension list `value` sets: its comma-separated pieces, each
/// trimmed and lowercased.
pub open spec fn extension_list(value: Seq<char>) -> Seq<Seq<char>> {
    split_on(value, ',').map_values(|p: Seq<char>| unicode_lowercase(trim(p)))
}

fn bad_argument(text: &str) -> (e: ShrinkError)
    ensures
        e matches ShrinkError::BadArgument(m) && m@ == text@,
{
    ShrinkError::BadArgument(String::from_str(text))
}

/// Sets the setting called `key` to the text `value`. A number of workers
/// must be an unsigned integer and a switch `true` or `false`; a minimum
/// size is stored as given and an extension list is split at commas,
/// trimmed and lowercased. An unknown name or an unreadable value is a bad
/// argument and leaves the configuration as it was.
pub fn apply_setting(config: &mut Config, key: &str, value: &str) -> (r: Result<(), ShrinkError>)
    ensures
        field_named(key@) is None ==> (r matches Err(ShrinkError::BadArgument(m)) && m@ == "unknown key: "@
            + key@) && *final(config) == *old(config),
        field_named(key@) == Some(ConfigField::Concurrency) ==> match unsigned_text(value@, usize::MAX as nat) {
            Some(n) => r is Ok && final(config).concurrency == Some(n as usize) && only_changed(*old(config), *final(config), ConfigField::Concurrency),
            None => (r matches Err(ShrinkError::BadArgument(m)) && m@ == "concurrency must be integer"@) && *final(config) == *old(config),
        },
        field_named(key@) == Some(ConfigField::Overwrite) ==> match bool_text(value@) {
            Some(b) => r is Ok && final(config).overwrite == Some(b) && only_changed(*old(config), *final(config), ConfigField::Overwrite),
            None => (r matches Err(ShrinkError::BadArgument(m)) && m@ == "overwrite must be bool"@) && *final(config) == *old(config),
        },
        field_named(key@) == Some(ConfigField::SkipCompressed) ==> match bool_text(value@) {
            Some(b) => r is Ok && final(config).skip_compressed == Some(b) && only_changed(*old(config), *final(config), ConfigField::SkipCompressed),
            None => (r matches Err(ShrinkError::BadArgument(m)) && m@ == "skip_compressed must be bool"@) && *final(config) == *old(config),
        },
        field_named(key@) == Some(ConfigField::MinSize) ==> r is Ok && (final(config).min_size matches Some(s) && s@ == value@)
            && only_changed(*old(config), *final(config), ConfigField::MinSize),
        field_named(key@) == Some(ConfigField::Extensions) ==> r is Ok && (final(config).extensions matches Some(v) && v@.map_values(|s: String| s@) == extension_list(value@))
            && only_changed(*old(config), *final(config), ConfigField::Extensions),
{
    let field = match ConfigField::from_name(key) {
        Ok(f) => f,
        Err(e) => return Err(e),
    };
    match field {
        ConfigField::Concurrency => match parse_unsigned(value, usize::MAX as u64) {
            Some(n) => {
                config.concurrency = Some(n as usize);
                Ok(())
            },
            None => Err(bad_argument("concurrency must be integer")),
        },
        ConfigField::Overwrite => match parse_bool(value) {
            Some(b) => {
                config.overwrite = Some(b);
                Ok(())
            },
            None => Err(bad_argument("overwrite must be bool")),
        },
        ConfigField::SkipCompressed => match parse_bool(value) {
            Some(b) => {
                config.skip_compressed = Some(b);
                Ok(())
            },
            None => Err(bad_argument("skip_compressed must be bool")),
        },
        ConfigField::MinSize => {
            config.min_size = Some(String::from_str(value));
            Ok(())
        },
        ConfigField::Extensions => {
            let pieces = split_text(value, ',');
            let mut list: Vec<String> = Vec::new();
            let mut i: usize = 0;
            while i < pieces.len()
                invariant
                    i <= pieces@.len(),
                    pieces@.len() == split_on(value@, ',').len(),
                    forall|j: int| 0 <= j < pieces@.len() ==> #[trigger] pieces@[j]@ == split_on(value@, ',')[j],
                    list@.len() == i,
                    forall|j: int| 0 <= j < i ==> #[trigger] list@[j]@ == unicode_lowercase(trim(split_on(value@, ',')[j])),
                decreases pieces@.len() - i,
            {
                let t = trimmed(pieces[i].as_str());
                list.push(lowercase(t.as_str()));
                i = i + 1;
            }
            proof {
                assert(list@.map_values(|s: String| s@) =~= extension_list(value@));
            }
            config.extensions = Some(list);
            Ok(())
        },
    }
}

} // verus!
