use vstd::prelude::*;

verus! {

/// Where and how to look for projects.
pub struct Config {
    /// Directories to scan for projects.
    pub scan_paths: Vec<String>,
    /// Names whose presence inside a directory makes it a project root, in
    /// order of preference.
    pub project_markers: Vec<String>,
    /// How deep below a scan root to look; the root itself is at depth 0.
    pub max_depth: usize,
}

/// The scan depth used when none is configured.
pub fn default_max_depth() -> (r: usize)
    ensures
        r == 5,
{
    5
}

/// `base` and `name` joined by one separator.
pub open spec fn joined(base: Seq<char>, name: Seq<char>) -> Seq<char> {
    if base.len() > 0 && base.last() == '/' {
        base + name
    } else {
        base + seq!['/'] + name
    }
}

/// Joins `name` onto the directory `base`.
pub fn join_path(base: &str, name: &str) -> (r: String)
    ensures
        r@ == joined(base@, name@),
{
    let n = base.unicode_len();
    let mut r = String::from_str(base);
    if !(n > 0 && base.get_char(n - 1) == '/') {
        r.append("/");
        proof {
            reveal_strlit("/");
        }
    }
    r.append(name);
    r
}

/// Relies on dirs' `home_dir`: the current user's home directory, if known.
#[verifier::external_body]
fn home_directory() -> Option<String> {
    dirs::home_dir().map(|p| p.to_string_lossy().into_owned())
}

impl Config {
    /// The default settings for a user whose home directory is `home`: scan
    /// `Projects` in it (in the current directory where there is none), for
    /// the markers `.git`, `.jj`, `.hg` and `.project`, five levels deep.
    pub fn for_home(home: Option<String>) -> (r: Config)
        ensures
            r.max_depth == 5,
            r.scan_paths.len() == 1,
            r.scan_paths[0]@ == joined(
                match home {
                    Some(h) => h@,
                    None => "."@,
                },
                "Projects"@,
            ),
            r.project_markers.len() == 4,
            r.project_markers[0]@ == ".git"@,
            r.project_markers[1]@ == ".jj"@,
            r.project_markers[2]@ == ".hg"@,
            r.project_markers[3]@ == ".project"@,
    {
        let base = match home {
            Some(h) => h,
            None => String::from_str("."),
        };
        let mut scan_paths: Vec<String> = Vec::new();
        scan_paths.push(join_path(base.as_str(), "Projects"));
        let mut project_markers: Vec<String> = Vec::new();
        project_markers.push(String::from_str(".git"));
        project_markers.push(String::from_str(".jj"));
        project_markers.push(String::from_str(".hg"));
        project_markers.push(String::from_str(".project"));
        Config { scan_paths, project_markers, max_depth: default_max_depth() }
    }
}

impl Default for Config {
    /// The default settings for the current user.
    fn default() -> (r: Config)
        ensures
            r.max_depth == 5,
            r.scan_paths.len() == 1,
            exists|home: Seq<char>| r.scan_paths[0]@ == joined(home, "Projects"@),
            r.project_markers.len() == 4,
            r.project_markers[0]@ == ".git"@,
            r.project_markers[1]@ == ".jj"@,
            r.project_markers[2]@ == ".hg"@,
            r.project_markers[3]@ == ".project"@,
    {
        let home = home_directory();
        let ghost base = match &home {
            Some(h) => h@,
            None => "."@,
        };
        let r = Config::for_home(home);
        assert(r.scan_paths[0]@ == joined(base, "Projects"@));
        r
    }
}

} // verus!
