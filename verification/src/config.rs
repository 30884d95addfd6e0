//! The configuration store: a lazily-initialized JSON object that holds
//! the record log's path under the `database` key.
//!
//! The caller reads and writes the configuration file; this module owns
//! every decision about its contents: parsing, checking for the
//! `database` key, setting it on first use, and serializing back.

use vstd::prelude::*;
use crate::jsonval::{
    is_obj, db_entry, eq_except_db, parse_shape, parsed_value, parseable, parsed_db, json_parse,
    json_is_object, json_db_present, json_db_str, json_set_db, json_render,
};

verus! {

/// Why configuration text could not be parsed.
#[derive(Clone, Copy, Debug, PartialEq, Eq, Structural)]
pub enum ConfigParseError {
    /// The text is not valid JSON.
    InvalidJson,
    /// The text is valid JSON but not an object.
    NotAnObject,
}

/// Why a parsed configuration could not be used.
#[derive(Clone, Copy, Debug, PartialEq, Eq, Structural)]
pub enum ConfigError {
    /// The `database` key is absent or null.
    MissingDatabase,
    /// The `database` key holds something that is not a text path.
    NotText,
}

/// The `database` entry after the lazily-initializing step: an absent or
/// null entry is set to the default path; anything else is kept.
pub open spec fn db_after_init(
    entry: Option<Option<Seq<char>>>,
    default: Seq<char>,
) -> Option<Option<Seq<char>>> {
    match entry {
        None => Some(Some(default)),
        Some(e) => Some(e),
    }
}

/// A parsed configuration: a JSON object carried whole, so members other
/// than `database` survive a rewrite untouched.
pub struct Config {
    value: serde_json::Value,
}

impl Config {
    /// The model of this configuration: its `database` entry.
    pub closed spec fn db(&self) -> Option<Option<Seq<char>>> {
        db_entry(self.value)
    }

    /// The underlying JSON value, whole. Stated so that contracts can
    /// say a persisted configuration is re-read exactly, every member
    /// included.
    pub closed spec fn raw(&self) -> serde_json::Value {
        self.value
    }

    /// Well-formed: the underlying JSON value is an object, shallow
    /// enough that serializing and re-parsing it goes through. Every
    /// configuration this module hands out is well-formed: `parse`
    /// establishes it and `ensure_database` keeps it.
    pub closed spec fn wf(&self) -> bool {
        is_obj(self.value) && parseable(self.value)
    }

    /// Whether this configuration agrees with `other` on every member
    /// other than `database`.
    pub closed spec fn agrees_outside_db(&self, other: &Config) -> bool {
        eq_except_db(self.value, other.value)
    }

    /// The text a fresh configuration file is created with: an empty
    /// JSON object.
    pub fn initial_text() -> (r: String)
        ensures
            r@ == "{}"@,
    {
        "{}".to_owned()
    }

    /// Parses configuration text: it succeeds exactly on the texts that
    /// parse to a JSON object, and the result's `database` entry is the
    /// text's. Text that is not JSON at all is `InvalidJson`; JSON that
    /// is not an object is `NotAnObject`. The empty object always
    /// parses, with no `database` entry.
    pub fn parse(text: &str) -> (r: Result<Config, ConfigParseError>)
        ensures
            r is Ok <==> parse_shape(text@) == Some(true),
            r is Ok ==> r->Ok_0.wf() && r->Ok_0.raw() == parsed_value(text@) && r->Ok_0.db()
                == parsed_db(text@),
            r == Err::<Config, ConfigParseError>(ConfigParseError::InvalidJson) <==> parse_shape(
                text@,
            ) is None,
            r == Err::<Config, ConfigParseError>(ConfigParseError::NotAnObject) <==> parse_shape(
                text@,
            ) == Some(false),
            text@ == "{}"@ ==> r is Ok && r->Ok_0.db() is None,
    {
        match json_parse(text) {
            Err(_) => Err(ConfigParseError::InvalidJson),
            Ok(v) => {
                if json_is_object(&v) {
                    Ok(Config { value: v })
                } else {
                    Err(ConfigParseError::NotAnObject)
                }
            },
        }
    }

    /// Makes sure the `database` key is set: where it is absent or null
    /// it is set to the default path and `true` comes back — the caller
    /// then creates that file and persists the configuration. Where it
    /// is already set nothing changes at all and `false` comes back, so
    /// no file is ever created twice. Members other than `database` are
    /// preserved either way: untouched when nothing changes, and kept
    /// as they were by the rewrite of the one key.
    pub fn ensure_database(&mut self, default_path: &str) -> (changed: bool)
        requires
            old(self).wf(),
        ensures
            final(self).wf(),
            changed == (old(self).db() is None),
            final(self).db() == db_after_init(old(self).db(), default_path@),
            !changed ==> *final(self) == *old(self),
            changed ==> old(self).agrees_outside_db(final(self)),
    {
        let already = json_db_present(&self.value);
        if already {
            false
        } else {
            json_set_db(&mut self.value, default_path);
            true
        }
    }

    /// The resolved record log path: the string under the `database`
    /// key. Fails with `MissingDatabase` exactly where the key is absent
    /// or null, and with `NotText` exactly where it holds a non-string
    /// value.
    pub fn database_path(&self) -> (r: Result<String, ConfigError>)
        ensures
            match r {
                Ok(p) => self.db() == Some(Some(p@)),
                Err(e) => {
                    &&& (e == ConfigError::MissingDatabase <==> self.db() is None)
                    &&& (e == ConfigError::NotText <==> self.db() == Some(None::<Seq<char>>))
                },
            },
    {
        match json_db_str(&self.value) {
            Some(p) => Ok(p),
            None => {
                if json_db_present(&self.value) {
                    Err(ConfigError::NotText)
                } else {
                    Err(ConfigError::MissingDatabase)
                }
            },
        }
    }

    /// Serializes the configuration back to text for persisting.
    /// Serializing a JSON value never fails, and for a well-formed
    /// configuration the text parses back to the very value persisted —
    /// every member, known and unknown alike — so what a later
    /// invocation reads is exactly what was written.
    pub fn render(&self) -> (r: String)
        ensures
            self.wf() ==> parse_shape(r@) == Some(true) && parsed_value(r@) == self.raw()
                && parsed_db(r@) == self.db(),
    {
        match json_render(&self.value) {
            Ok(text) => text,
            Err(_) => {
                proof {
                    assert(false);
                }
                String::new()
            },
        }
    }
}

/// Idempotent lazy initialization: one initializing step always leaves
/// the `database` entry set, and a second step with the same default
/// changes nothing. Together with `ensure_database`'s contract — which
/// reports `false` and leaves the configuration untouched whenever the
/// entry is already set — running initialization twice in a row yields
/// the same configuration and asks for no file to be created again.
pub proof fn lemma_init_idempotent(entry: Option<Option<Seq<char>>>, default: Seq<char>)
    ensures
        !(db_after_init(entry, default) is None),
        db_after_init(db_after_init(entry, default), default) == db_after_init(entry, default),
{
}

} // verus!
