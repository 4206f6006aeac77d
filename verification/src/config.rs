//! Deciding what to reload after configuration files changed, and
//! converting launch counters to their current width.

use vstd::prelude::*;

verus! {

/// Which kind of configuration file changed.
#[derive(PartialEq, Eq, Structural, Clone, Copy, Debug, Hash)]
pub enum ConfigFileChange {
    Actions,
    Alias,
    Apps,
    Config,
    Ignore,
    Fallback,
    Other,
}

/// What has to be loaded again.
#[derive(PartialEq, Eq, Structural, Clone, Copy, Debug)]
pub struct ReloadNeeds {
    /// The main configuration.
    pub config: bool,
    /// The launchers, whose files are fallback, alias, actions and ignore.
    pub launchers: bool,
    /// The desktop applications.
    pub apps: bool,
}

/// Whether a change of a file of this kind calls for reloading the
/// launchers.
pub open spec fn touches_launchers(c: ConfigFileChange) -> bool {
    c is Fallback || c is Alias || c is Actions || c is Ignore
}

impl ReloadNeeds {
    /// What the changes `changes` call for: the configuration when the main
    /// configuration file changed, the launchers when one of their files
    /// changed, the applications when a desktop file changed. Other files
    /// call for nothing.
    pub fn from_changes(changes: &[ConfigFileChange]) -> (r: Self)
        ensures
            r.config == exists|i: int| 0 <= i < changes@.len() && changes@[i] is Config,
            r.launchers == exists|i: int|
                0 <= i < changes@.len() && touches_launchers(#[trigger] changes@[i]),
            r.apps == exists|i: int| 0 <= i < changes@.len() && changes@[i] is Apps,
    {
        let mut needs = ReloadNeeds { config: false, launchers: false, apps: false };
        let mut i: usize = 0;
        while i < changes.len()
            invariant
                i <= changes@.len(),
                needs.config == exists|j: int| 0 <= j < i && changes@[j] is Config,
                needs.launchers == exists|j: int|
                    0 <= j < i && touches_launchers(#[trigger] changes@[j]),
                needs.apps == exists|j: int| 0 <= j < i && changes@[j] is Apps,
            decreases changes@.len() - i,
        {
            match changes[i] {
                ConfigFileChange::Config => {
                    needs.config = true;
                },
                ConfigFileChange::Fallback
                | ConfigFileChange::Alias
                | ConfigFileChange::Actions
                | ConfigFileChange::Ignore => {
                    needs.launchers = true;
                },
                ConfigFileChange::Apps => {
                    needs.apps = true;
                },
                ConfigFileChange::Other => {},
            }
            assert(touches_launchers(changes@[i as int]) ==> needs.launchers);
            i = i + 1;
        }
        needs
    }
}

/// Launch counters stored as 32-bit counts, brought to the 16-bit width:
/// each count keeps its low 16 bits, as an `as u16` conversion does.
pub fn narrow_counts(counts: Vec<(String, u32)>) -> (r: Vec<(String, u16)>)
    ensures
        r@.len() == counts@.len(),
        forall|i: int|
            0 <= i < r@.len() ==> #[trigger] r@[i].0 == counts@[i].0 && r@[i].1 == counts@[i].1
                % 65536,
{
    let mut out: Vec<(String, u16)> = Vec::new();
    let mut i: usize = 0;
    while i < counts.len()
        invariant
            i <= counts@.len(),
            out@.len() == i,
            forall|k: int|
                0 <= k < i ==> #[trigger] out@[k].0 == counts@[k].0 && out@[k].1 == counts@[k].1
                    % 65536,
        decreases counts@.len() - i,
    {
        let low = (counts[i].1 % 65536) as u16;
        out.push((counts[i].0.clone(), low));
        i = i + 1;
    }
    out
}

/// A path as its components, each as its bytes (`/` for the root): two
/// paths are the same path when their components are the same.
pub open spec fn path_view(p: Seq<Vec<u8>>) -> Seq<Seq<u8>> {
    p.map_values(|c: Vec<u8>| c@)
}

/// Where the configuration files live, as component lists.
pub struct ConfigPaths {
    pub config: Vec<Vec<u8>>,
    pub fallback: Vec<Vec<u8>>,
    pub alias: Vec<Vec<u8>>,
    pub ignore: Vec<Vec<u8>>,
    pub actions: Vec<Vec<u8>>,
}

/// Which configuration file `path` is.
pub open spec fn change_kind(path: Seq<Seq<u8>>, files: ConfigPaths) -> ConfigFileChange {
    if path == path_view(files.config@) {
        ConfigFileChange::Config
    } else if path == path_view(files.fallback@) {
        ConfigFileChange::Fallback
    } else if path == path_view(files.alias@) {
        ConfigFileChange::Alias
    } else if path == path_view(files.ignore@) {
        ConfigFileChange::Ignore
    } else if path == path_view(files.actions@) {
        ConfigFileChange::Actions
    } else {
        ConfigFileChange::Other
    }
}

/// What the audit learnt of one entry of the configuration directory.
pub struct FileStamp {
    pub path: Vec<Vec<u8>>,
    /// The entry is a regular file.
    pub is_file: bool,
    /// Its modification time could be read and is later than the last audit.
    pub modified_after: bool,
}

/// The entry counts as changed.
pub open spec fn changed(e: FileStamp) -> bool {
    e.is_file && e.modified_after
}

fn bytes_equal(a: &Vec<u8>, b: &Vec<u8>) -> (r: bool)
    ensures
        r == (a@ == b@),
{
    if a.len() != b.len() {
        return false;
    }
    let mut i: usize = 0;
    while i < a.len()
        invariant
            a@.len() == b@.len(),
            i <= a@.len(),
            forall|j: int| 0 <= j < i ==> a@[j] == b@[j],
        decreases a@.len() - i,
    {
        if a[i] != b[i] {
            return false;
        }
        i = i + 1;
    }
    assert(a@ == b@);
    true
}

/// Whether two component lists name the same path.
fn same_path(a: &Vec<Vec<u8>>, b: &Vec<Vec<u8>>) -> (r: bool)
    ensures
        r == (path_view(a@) == path_view(b@)),
{
    if a.len() != b.len() {
        assert(path_view(a@).len() != path_view(b@).len());
        return false;
    }
    let mut i: usize = 0;
    while i < a.len()
        invariant
            a@.len() == b@.len(),
            i <= a@.len(),
            forall|j: int| 0 <= j < i ==> a@[j]@ == b@[j]@,
        decreases a@.len() - i,
    {
        if !bytes_equal(&a[i], &b[i]) {
            assert(path_view(a@)[i as int] != path_view(b@)[i as int]);
            return false;
        }
        i = i + 1;
    }
    assert(path_view(a@) =~= path_view(b@));
    true
}

/// Which configuration file `path` is; see `change_kind`.
pub fn classify_change(path: &Vec<Vec<u8>>, files: &ConfigPaths) -> (r: ConfigFileChange)
    ensures
        r == change_kind(path_view(path@), *files),
{
    if same_path(path, &files.config) {
        ConfigFileChange::Config
    } else if same_path(path, &files.fallback) {
        ConfigFileChange::Fallback
    } else if same_path(path, &files.alias) {
        ConfigFileChange::Alias
    } else if same_path(path, &files.ignore) {
        ConfigFileChange::Ignore
    } else if same_path(path, &files.actions) {
        ConfigFileChange::Actions
    } else {
        ConfigFileChange::Other
    }
}

fn holds(v: &Vec<ConfigFileChange>, c: ConfigFileChange) -> (r: bool)
    ensures
        r == v@.contains(c),
{
    let mut i: usize = 0;
    while i < v.len()
        invariant
            i <= v@.len(),
            forall|j: int| 0 <= j < i ==> v@[j] != c,
        decreases v@.len() - i,
    {
        if v[i] == c {
            return true;
        }
        i = i + 1;
    }
    false
}

proof fn lemma_push_contains(s: Seq<ConfigFileChange>, x: ConfigFileChange, c: ConfigFileChange)
    ensures
        s.push(x).contains(c) <==> (s.contains(c) || c == x),
{
    if s.push(x).contains(c) {
        let w = choose|w: int| 0 <= w < s.push(x).len() && s.push(x)[w] == c;
        if w < s.len() {
            assert(s[w] == c);
        }
    }
    if s.contains(c) {
        let w = choose|w: int| 0 <= w < s.len() && s[w] == c;
        assert(s.push(x)[w] == c);
    }
    if c == x {
        assert(s.push(x)[s.len() as int] == x);
    }
}

/// Adds `c` to `out` unless it is there already.
fn add_once(out: &mut Vec<ConfigFileChange>, c: ConfigFileChange)
    requires
        old(out)@.no_duplicates(),
    ensures
        final(out)@.no_duplicates(),
        forall|d: ConfigFileChange| #[trigger] final(out)@.contains(d) <==> (old(out)@.contains(d) || d == c),
{
    if holds(out, c) {
        return;
    }
    let ghost before = out@;
    out.push(c);
    proof {
        assert forall|d: ConfigFileChange| #[trigger] out@.contains(d) <==> (before.contains(d) || d == c) by {
            lemma_push_contains(before, c, d);
        }
        assert forall|a: int, b: int| 0 <= a < out@.len() && 0 <= b < out@.len() && a != b implies out@[a]
            != out@[b] by {
            if a < before.len() && b < before.len() {
            } else if a < before.len() {
                assert(before.contains(out@[a]));
            } else {
                assert(before.contains(out@[b]));
            }
        }
    }
}

/// The kind of entry `i` when it changed.
pub open spec fn entry_change(entries: Seq<FileStamp>, files: ConfigPaths, i: int, c: ConfigFileChange) -> bool {
    changed(entries[i]) && change_kind(path_view(entries[i].path@), files) == c
}

/// The kinds of files that changed since the last audit, each once: the
/// kind of every changed entry, and `Apps` when a desktop file changed.
pub fn audit_changes(entries: &Vec<FileStamp>, files: &ConfigPaths, apps_changed: bool) -> (r: Vec<
    ConfigFileChange,
>)
    ensures
        r@.no_duplicates(),
        forall|c: ConfigFileChange|
            #[trigger] r@.contains(c) <==> ((exists|i: int|
                0 <= i < entries@.len() && #[trigger] entry_change(entries@, *files, i, c)) || (
            apps_changed && c == ConfigFileChange::Apps)),
{
    let mut out: Vec<ConfigFileChange> = Vec::new();
    let mut i: usize = 0;
    while i < entries.len()
        invariant
            i <= entries@.len(),
            out@.no_duplicates(),
            forall|c: ConfigFileChange|
                #[trigger] out@.contains(c) <==> exists|k: int|
                    0 <= k < i && #[trigger] entry_change(entries@, *files, k, c),
        decreases entries@.len() - i,
    {
        let ghost before = out@;
        let e = &entries[i];
        if e.is_file && e.modified_after {
            let kind = classify_change(&e.path, files);
            add_once(&mut out, kind);
        }
        proof {
            assert forall|c: ConfigFileChange| #[trigger] out@.contains(c) <==> exists|k: int|
                0 <= k < i + 1 && #[trigger] entry_change(entries@, *files, k, c) by {
                if entry_change(entries@, *files, i as int, c) {
                    assert(out@.contains(c));
                }
                if out@.contains(c) && !before.contains(c) {
                    assert(entry_change(entries@, *files, i as int, c));
                }
            }
        }
        i = i + 1;
    }
    if apps_changed {
        add_once(&mut out, ConfigFileChange::Apps);
    }
    out
}

} // verus!
