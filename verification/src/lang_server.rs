//! The language-server launch configuration.
//!
//! The launcher is a plain builder for the backend process's settings; the
//! spawn itself is outside the library.  The language check mirrors what the
//! backend supports: only `cc` and `cpp` sources.

use vstd::prelude::*;
use crate::text::{seq_views, str_eq};

verus! {

/// The settings a backend process is launched with.
#[derive(Debug)]
pub struct LanguageServerLauncher {
    pub server_path: String,
    pub project_path: String,
    pub languages: Vec<String>,
}

/// Whether every named language is one the backend supports.
pub open spec fn sp_languages_supported(languages: Seq<Seq<char>>) -> bool {
    forall|i: int| 0 <= i < languages.len() ==> languages[i] == "cc"@ || languages[i] == "cpp"@
}

impl LanguageServerLauncher {
    /// An empty launch configuration.
    pub fn new() -> (r: LanguageServerLauncher)
        ensures
            r.server_path@ == Seq::<char>::empty(),
            r.project_path@ == Seq::<char>::empty(),
            r.languages@.len() == 0,
    {
        LanguageServerLauncher {
            server_path: String::new(),
            project_path: String::new(),
            languages: Vec::new(),
        }
    }

    /// The configuration with the backend binary's path set.
    pub fn server(self, path: String) -> (r: LanguageServerLauncher)
        ensures
            r.server_path@ == path@,
            r.project_path@ == self.project_path@,
            r.languages@ == self.languages@,
    {
        LanguageServerLauncher { server_path: path, ..self }
    }

    /// The configuration with the project directory set.
    pub fn project(self, path: String) -> (r: LanguageServerLauncher)
        ensures
            r.server_path@ == self.server_path@,
            r.project_path@ == path@,
            r.languages@ == self.languages@,
    {
        LanguageServerLauncher { project_path: path, ..self }
    }

    /// Whether this configuration's languages are all supported ones, the
    /// check a launch performs before spawning anything.
    pub fn languages_supported(&self) -> (r: bool)
        ensures
            r == sp_languages_supported(seq_views(self.languages@)),
    {
        let mut i: usize = 0;
        while i < self.languages.len()
            invariant
                0 <= i <= self.languages.len(),
                forall|j: int|
                    0 <= j < i ==> #[trigger] seq_views(self.languages@)[j] == "cc"@ || seq_views(
                        self.languages@,
                    )[j] == "cpp"@,
            decreases self.languages.len() - i,
        {
            let ok = str_eq(self.languages[i].as_str(), "cc") || str_eq(
                self.languages[i].as_str(),
                "cpp",
            );
            if !ok {
                proof {
                    assert(seq_views(self.languages@)[i as int] != "cc"@);
                    assert(seq_views(self.languages@)[i as int] != "cpp"@);
                }
                return false;
            }
            i = i + 1;
        }
        true
    }
}

} // verus!
