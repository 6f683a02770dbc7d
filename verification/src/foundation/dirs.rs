//! The directories that hold this machine's own state, from the environment.
//!
//! The configuration root comes first and everything else hangs off it.
use vstd::prelude::*;
use crate::strings::{ascii_alpha, chars_of};

verus! {

/// The separator of native paths.
pub open spec fn separator(windows: bool) -> char {
    if windows {
        '\\'
    } else {
        '/'
    }
}

/// Nothing stands between such a directory and a name in it: it is empty, ends in a separator, or
/// is a bare drive.
pub open spec fn joins_bare(dir: Seq<char>, windows: bool) -> bool {
    ||| dir.len() == 0
    ||| dir.last() == '/'
    ||| windows && dir.last() == '\\'
    ||| windows && dir.len() == 2 && ascii_alpha(dir[0]) && dir[1] == ':'
}

/// `dir` with one more segment.
pub open spec fn below_of(dir: Seq<char>, windows: bool, name: Seq<char>) -> Seq<char> {
    if joins_bare(dir, windows) {
        dir + name
    } else {
        dir.push(separator(windows)) + name
    }
}

/// A directory inside `dir`.
pub fn in_dir(dir: &str, windows: bool, name: &str) -> (r: String)
    ensures
        r@ == below_of(dir@, windows, name@),
{
    let v = chars_of(dir);
    let n = v.len();
    let bare = n == 0 || v[n - 1] == '/' || (windows && v[n - 1] == '\\') || (windows && n == 2 && ((
    'A' <= v[0] && v[0] <= 'Z') || ('a' <= v[0] && v[0] <= 'z')) && v[1] == ':');
    let mut s = dir.to_owned();
    if !bare {
        s.push(
            if windows {
                '\\'
            } else {
                '/'
            },
        );
    }
    s.append(name);
    s
}

/// What the directories are made from.
pub struct Places {
    /// `APPDATA`
    pub appdata: Option<String>,
    /// `LOCALAPPDATA`
    pub local_appdata: Option<String>,
    /// `HOME`
    pub home: Option<String>,
    pub windows: bool,
}

impl Places {
    pub open spec fn config(self) -> Seq<char> {
        let w = self.windows;
        match self.appdata {
            Some(a) => below_of(a@, w, "syncdash"@),
            None => match self.home {
                Some(h) => below_of(below_of(h@, w, ".config"@), w, "syncdash"@),
                None => "syncdash"@,
            },
        }
    }

    pub open spec fn data(self) -> Seq<char> {
        let w = self.windows;
        match self.local_appdata {
            Some(l) => below_of(l@, w, "syncdash"@),
            None => match self.home {
                Some(h) => below_of(below_of(h@, w, ".cache"@), w, "syncdash"@),
                None => ".syncdash"@,
            },
        }
    }

    /// The configuration root. A bare environment falls back to a relative directory.
    pub fn config_dir(&self) -> (r: String)
        ensures
            r@ == self.config(),
    {
        match &self.appdata {
            Some(a) => in_dir(a.as_str(), self.windows, "syncdash"),
            None => match &self.home {
                Some(h) => in_dir(
                    in_dir(h.as_str(), self.windows, ".config").as_str(),
                    self.windows,
                    "syncdash",
                ),
                None => "syncdash".to_owned(),
            },
        }
    }

    /// Machine-local state, which must not follow a user to another machine.
    pub fn data_dir(&self) -> (r: String)
        ensures
            r@ == self.data(),
    {
        match &self.local_appdata {
            Some(l) => in_dir(l.as_str(), self.windows, "syncdash"),
            None => match &self.home {
                Some(h) => in_dir(
                    in_dir(h.as_str(), self.windows, ".cache").as_str(),
                    self.windows,
                    "syncdash",
                ),
                None => ".syncdash".to_owned(),
            },
        }
    }
}

/// One file for each job lives here.
pub fn jobs_dir(places: &Places) -> (r: String)
    ensures
        r@ == below_of(places.config(), places.windows, "jobs"@),
{
    in_dir(places.config_dir().as_str(), places.windows, "jobs")
}

/// The tables of the last sync.
pub fn archive_dir(places: &Places) -> (r: String)
    ensures
        r@ == below_of(places.config(), places.windows, "archive"@),
{
    in_dir(places.config_dir().as_str(), places.windows, "archive")
}

/// Run logs, unless the settings say otherwise.
pub fn default_log_dir(places: &Places) -> (r: String)
    ensures
        r@ == below_of(places.config(), places.windows, "logs"@),
{
    in_dir(places.config_dir().as_str(), places.windows, "logs")
}

/// The three directories are different.
pub proof fn the_directories_are_distinct(places: Places)
    ensures
        ({
            let w = places.windows;
            let c = places.config();
            &&& below_of(c, w, "jobs"@) != below_of(c, w, "archive"@)
            &&& below_of(c, w, "jobs"@) != below_of(c, w, "logs"@)
            &&& below_of(c, w, "archive"@) != below_of(c, w, "logs"@)
        }),
{
    reveal_strlit("jobs");
    reveal_strlit("archive");
    reveal_strlit("logs");
    let w = places.windows;
    let c = places.config();
    let k = below_of(c, w, Seq::empty()).len() as int;
    assert(below_of(c, w, "jobs"@)[k] == 'j');
    assert(below_of(c, w, "archive"@)[k] == 'a');
    assert(below_of(c, w, "logs"@)[k] == 'l');
}

/// What follows the user and what stays on the machine come from different places, and each variable beats
/// the home directory. Only without either is the place relative.
pub proof fn the_environment_names_the_places(a: Places, b: Places)
    requires
        a.windows == b.windows,
    ensures
        a.appdata == b.appdata && a.appdata is Some ==> a.config() == b.config(),
        a.local_appdata == b.local_appdata && a.local_appdata is Some ==> a.data() == b.data(),
        a.appdata matches Some(d) ==> d@.is_prefix_of(a.config()),
        a.local_appdata matches Some(d) ==> d@.is_prefix_of(a.data()),
        a.appdata is None ==> (a.home matches Some(h) ==> h@.is_prefix_of(a.config())),
        a.local_appdata is None ==> (a.home matches Some(h) ==> h@.is_prefix_of(a.data())),
        a.appdata is None && a.local_appdata is None ==> a.config() != a.data(),
{
    let w = a.windows;
    if let Some(d) = a.appdata {
        assert(d@ =~= a.config().take(d@.len() as int));
    }
    if let Some(d) = a.local_appdata {
        assert(d@ =~= a.data().take(d@.len() as int));
    }
    reveal_strlit(".config");
    reveal_strlit(".cache");
    reveal_strlit("syncdash");
    reveal_strlit(".syncdash");
    match a.home {
        Some(h) => {
            if a.appdata is None {
                assert(h@ =~= a.config().take(h@.len() as int));
            }
            if a.local_appdata is None {
                assert(h@ =~= a.data().take(h@.len() as int));
            }
            if a.appdata is None && a.local_appdata is None {
                let k = below_of(h@, w, Seq::empty()).len() as int;
                assert(a.config()[k + 2] == 'o');
                assert(a.data()[k + 2] == 'a');
            }
        },
        None => {
            if a.appdata is None && a.local_appdata is None {
                assert(a.config().len() != a.data().len());
            }
        },
    }
}

} // verus!
