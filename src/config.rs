use vstd::prelude::*;

verus! {

/// Where a new plugin's skeleton comes from.
#[derive(Debug, PartialEq, Eq)]
pub enum Template {
    /// A repository to clone, by URL.
    RemoteRepository(String),
    /// A directory on disk to copy.
    LocalDirectory(String),
    /// The template tree built into the tool.
    EmbeddedBundle,
}

/// The author details a user may configure.
#[derive(Debug, PartialEq, Eq)]
pub struct Author {
    pub name: Option<String>,
    pub email: Option<String>,
    pub company: Option<String>,
}

/// What the `check` command reports on.
#[derive(Clone, Copy, Debug, PartialEq, Eq, Structural)]
pub enum CheckOption {
    Version,
    Qplug,
    Config,
}

/// Name of the marker file that makes a directory a project root.
pub const MARKER_FILE: &'static str = ".qplug";

/// Directory under the project root that holds the template and the modules.
pub const PLUGIN_ROOT: &'static str = "plugin_src";

pub open spec fn starts_with_http(s: Seq<char>) -> bool {
    s.len() >= 4 && s.subrange(0, 4) == seq!['h', 't', 't', 'p']
}

impl Template {
    /// The template source a configured value names: a value starting with
    /// `http` is a repository URL, any other value a local directory, and no
    /// value the built-in template.
    pub fn from_setting(setting: Option<String>) -> (r: Template)
        ensures
            match setting {
                None => r == Template::EmbeddedBundle,
                Some(s) => if starts_with_http(s@) {
                    r == Template::RemoteRepository(s)
                } else {
                    r == Template::LocalDirectory(s)
                },
            },
    {
        match setting {
            None => Template::EmbeddedBundle,
            Some(s) => {
                let cs = crate::text::chars_of(s.as_str());
                if cs.len() >= 4 && cs[0] == 'h' && cs[1] == 't' && cs[2] == 't' && cs[3] == 'p' {
                    assert(s@.subrange(0, 4) =~= seq!['h', 't', 't', 'p']);
                    Template::RemoteRepository(s)
                } else {
                    assert(!starts_with_http(s@)) by {
                        if starts_with_http(s@) {
                            assert(s@.subrange(0, 4)[0] == s@[0]);
                            assert(s@.subrange(0, 4)[1] == s@[1]);
                            assert(s@.subrange(0, 4)[2] == s@[2]);
                            assert(s@.subrange(0, 4)[3] == s@[3]);
                        }
                    }
                    Template::LocalDirectory(s)
                }
            },
        }
    }
}

} // verus!
