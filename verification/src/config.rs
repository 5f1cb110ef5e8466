//! Application configuration: the slip-box root path and the keyboard
//! shortcuts, read from a TOML document with a `[repo]` table holding
//! `path` and a `[shortcut]` table holding `find`, `insert` and `quit`.
//! The caller finds and reads the configuration file; parsing the text and
//! the defaults live here.

use vstd::prelude::*;

use crate::text::str_eq;

verus! {

/// The TOML parser's error type, opaque to the library.
#[verifier::external_type_specification]
#[verifier::external_body]
pub struct ExTomlDeError(toml::de::Error);

/// Why a configuration document was rejected.
#[derive(Debug)]
pub enum ConfigError {
    ParseError(toml::de::Error),
}

/// What parsing a configuration document yields: the four fields
/// `repo.path`, `shortcut.find`, `shortcut.insert`, `shortcut.quit`, or
/// nothing when the document does not parse or lacks one of them. A
/// function of the text alone.
pub uninterp spec fn toml_config_of(s: Seq<char>) -> Option<
    (Seq<char>, Seq<char>, Seq<char>, Seq<char>),
>;

/// Relies on toml::from_str, toml::Value::get and toml::Value::as_str: one
/// deterministic parse of the document and four lookups in it.
#[verifier::external_body]
fn parse_config_fields(s: &str) -> (r: Result<
    (String, String, String, String),
    toml::de::Error,
>)
    ensures
        match r {
            Ok(t) => toml_config_of(s@) == Some((t.0@, t.1@, t.2@, t.3@)),
            Err(_) => toml_config_of(s@) is None,
        },
{
    let v: toml::Value = toml::from_str(s)?;
    let g = |t: &str, k: &str| v.get(t).and_then(|x| x.get(k)).and_then(|x| x.as_str());
    match (g("repo", "path"), g("shortcut", "find"), g("shortcut", "insert"), g("shortcut", "quit")) {
        (Some(r), Some(f), Some(i), Some(q)) => Ok((r.into(), f.into(), i.into(), q.into())),
        _ => Err(<toml::de::Error as serde::de::Error>::custom("missing configuration field")),
    }
}

/// Mathematical model of the keyboard shortcuts.
pub struct ShortcutModel {
    pub find: Seq<char>,
    pub insert: Seq<char>,
    pub quit: Seq<char>,
}

#[derive(Debug)]
pub struct Shortcut {
    find: String,
    insert: String,
    quit: String,
}

impl View for Shortcut {
    type V = ShortcutModel;

    closed spec fn view(&self) -> ShortcutModel {
        ShortcutModel { find: self.find@, insert: self.insert@, quit: self.quit@ }
    }
}

impl Shortcut {
    /// The shortcut opening the search dialog.
    pub fn find(&self) -> (r: &str)
        ensures
            r@ == self@.find,
    {
        self.find.as_str()
    }

    /// The shortcut inserting a reference to another note.
    pub fn insert(&self) -> (r: &str)
        ensures
            r@ == self@.insert,
    {
        self.insert.as_str()
    }

    /// The shortcut quitting the application.
    pub fn quit(&self) -> (r: &str)
        ensures
            r@ == self@.quit,
    {
        self.quit.as_str()
    }
}

impl Default for Shortcut {
    /// The shortcuts shipped when no configuration sets them.
    fn default() -> (r: Shortcut)
        ensures
            r@.find == "<Control><Shift>f"@,
            r@.insert == "<Control>i"@,
            r@.quit == "<Meta>q"@,
    {
        Shortcut {
            find: String::from_str("<Control><Shift>f"),
            insert: String::from_str("<Control>i"),
            quit: String::from_str("<Meta>q"),
        }
    }
}

/// The slip-box directory the configuration points at.
#[derive(Debug)]
pub struct Repo {
    path: String,
}

impl View for Repo {
    type V = Seq<char>;

    closed spec fn view(&self) -> Seq<char> {
        self.path@
    }
}

impl Default for Repo {
    /// The placeholder path meaning that no repository was configured yet.
    fn default() -> (r: Repo)
        ensures
            r@ == "__default"@,
    {
        Repo { path: String::from_str("__default") }
    }
}

/// Mathematical model of a configuration: the repository path and the three
/// shortcuts.
pub struct ConfigModel {
    pub repo_path: Seq<char>,
    pub shortcut: ShortcutModel,
}

#[derive(Debug)]
pub struct Config {
    repo: Repo,
    shortcut: Shortcut,
}

impl View for Config {
    type V = ConfigModel;

    closed spec fn view(&self) -> ConfigModel {
        ConfigModel { repo_path: self.repo@, shortcut: self.shortcut@ }
    }
}

impl Default for Config {
    /// The configuration used when no file exists yet: placeholder
    /// repository, shipped shortcuts.
    fn default() -> (r: Config)
        ensures
            r@.repo_path == "__default"@,
            r@.shortcut.find == "<Control><Shift>f"@,
            r@.shortcut.insert == "<Control>i"@,
            r@.shortcut.quit == "<Meta>q"@,
    {
        Config { repo: Repo::default(), shortcut: Shortcut::default() }
    }
}

impl Config {
    /// Parses a configuration document. Exactly the documents the TOML
    /// parser accepts with all four fields present are accepted.
    pub fn from_str(s: &str) -> (r: Result<Config, ConfigError>)
        ensures
            match r {
                Ok(c) => toml_config_of(s@) == Some(
                    (c@.repo_path, c@.shortcut.find, c@.shortcut.insert, c@.shortcut.quit),
                ),
                Err(e) => toml_config_of(s@) is None && e matches ConfigError::ParseError(_),
            },
    {
        match parse_config_fields(s) {
            Err(e) => Err(ConfigError::ParseError(e)),
            Ok(t) => {
                let (p, f, i, q) = t;
                Ok(Config { repo: Repo { path: p }, shortcut: Shortcut { find: f, insert: i, quit: q } })
            },
        }
    }

    /// What loading a configuration file decides: a file that is not there
    /// yields the default configuration; one that is there must parse.
    pub fn from_file_text(text: Option<&str>) -> (r: Result<Config, ConfigError>)
        ensures
            match text {
                None => r matches Ok(c) && c@.repo_path == "__default"@,
                Some(s) => match r {
                    Ok(c) => toml_config_of(s@) == Some(
                        (c@.repo_path, c@.shortcut.find, c@.shortcut.insert, c@.shortcut.quit),
                    ),
                    Err(e) => toml_config_of(s@) is None,
                },
            },
    {
        match text {
            None => Ok(Config::default()),
            Some(s) => Config::from_str(s),
        }
    }

    /// The configured slip-box root path.
    pub fn repo_path(&self) -> (r: &str)
        ensures
            r@ == self@.repo_path,
    {
        self.repo.path.as_str()
    }

    /// The configured shortcuts.
    pub fn shortcut(&self) -> (r: &Shortcut)
        ensures
            r@ == self@.shortcut,
    {
        &self.shortcut
    }

    /// Whether the repository path still holds the placeholder, meaning no
    /// slip-box was configured yet.
    pub fn is_default(&self) -> (r: bool)
        ensures
            r == (self@.repo_path == "__default"@),
    {
        str_eq(self.repo.path.as_str(), "__default")
    }
}

} // verus!
