//! The command-line arguments, as plain values.

use vstd::prelude::*;

verus! {

/// The whole command line.
#[derive(Debug)]
pub struct Cli {
    pub verbose: bool,
    pub command: Command,
}

/// The subcommands.
#[derive(Debug)]
pub enum Command {
    /// Dump the current view hierarchy once.
    Dump(DumpArgs),
    /// Interactive session.
    Repl(ReplArgs),
    /// Configuration management.
    Config(ConfigArgs),
}

/// Regular expressions matched against the attributes that each neutral
/// name stands for (see `attr`).
#[derive(Debug, Clone)]
pub struct AttrFilters {
    pub id: Option<String>,
    pub text: Option<String>,
    pub class: Option<String>,
    pub content_desc: Option<String>,
}

/// An optional string as plain text.
pub open spec fn opt_view(o: Option<String>) -> Option<Seq<char>> {
    match o {
        Some(s) => Some(s@),
        None => None,
    }
}

/// The filters as plain text.
pub struct FiltersView {
    pub id: Option<Seq<char>>,
    pub text: Option<Seq<char>>,
    pub class: Option<Seq<char>>,
    pub content_desc: Option<Seq<char>>,
}

impl View for AttrFilters {
    type V = FiltersView;

    open spec fn view(&self) -> FiltersView {
        FiltersView {
            id: opt_view(self.id),
            text: opt_view(self.text),
            class: opt_view(self.class),
            content_desc: opt_view(self.content_desc),
        }
    }
}

/// Some filter is given.
pub open spec fn any_filter(f: FiltersView) -> bool {
    f.id is Some || f.text is Some || f.class is Some || f.content_desc is Some
}

impl AttrFilters {
    /// Whether any filter is given.
    pub fn any(&self) -> (b: bool)
        ensures
            b == any_filter(self@),
    {
        self.id.is_some() || self.text.is_some() || self.class.is_some()
            || self.content_desc.is_some()
    }
}

impl Default for AttrFilters {
    fn default() -> (r: AttrFilters)
        ensures
            r.id is None && r.text is None && r.class is None && r.content_desc is None,
    {
        AttrFilters { id: None, text: None, class: None, content_desc: None }
    }
}

/// Arguments of `dump`.
#[derive(Debug, Clone)]
pub struct DumpArgs {
    pub platform: Platform,
    pub filters: AttrFilters,
    /// An XPath expression; when given, the attribute filters are ignored.
    pub xpath: Option<String>,
    pub format: OutputFormat,
    /// The adb device serial (Android).
    pub serial: Option<String>,
    /// The Appium session id (iOS).
    pub session: Option<String>,
}

/// Arguments of `repl`.
#[derive(Debug)]
pub struct ReplArgs {
    pub platform: Platform,
    pub serial: Option<String>,
    pub session: Option<String>,
}

/// Arguments of `config`.
#[derive(Debug)]
pub struct ConfigArgs {
    pub action: ConfigAction,
}

/// What `config` does.
#[derive(Debug)]
pub enum ConfigAction {
    /// Print the value of a key (such as `appium.url`).
    Get { key: String },
    /// Set the value of a key.
    Put { key: String, value: String },
    /// Print the path of the configuration file.
    Path,
}

/// The device platform.
#[derive(Debug, Clone, Copy, PartialEq, Eq, Structural)]
pub enum Platform {
    Android,
    Ios,
}

/// The output format.
#[derive(Debug, Clone, Copy, PartialEq, Eq, Structural)]
pub enum OutputFormat {
    Xml,
    Json,
    Table,
}

} // verus!
