use vstd::prelude::*;

verus! {

/// The parts of a byte string between separators, empty parts included
/// (a string without separators is one part).
pub open spec fn split_bytes(s: Seq<u8>, sep: u8) -> Seq<Seq<u8>>
    decreases s.len(),
{
    if s.len() == 0 {
        seq![Seq::empty()]
    } else {
        let parts = split_bytes(s.drop_last(), sep);
        if s.last() == sep {
            parts.push(Seq::empty())
        } else {
            parts.update(parts.len() - 1, parts.last().push(s.last()))
        }
    }
}

/// The separator of entries in a Unix search list.
pub open spec fn list_separator() -> u8 {
    58u8
}

/// The directory separator of a Unix path.
pub open spec fn dir_separator() -> u8 {
    47u8
}

/// The number of empty parts.
pub open spec fn empty_part_count(parts: Seq<Seq<u8>>) -> nat
    decreases parts.len(),
{
    if parts.len() == 0 {
        0
    } else if parts.last().len() == 0 {
        empty_part_count(parts.drop_last()) + 1
    } else {
        empty_part_count(parts.drop_last())
    }
}

/// Splits a byte string at every separator byte.
pub fn split_at_separator(s: &[u8], sep: u8) -> (parts: Vec<Vec<u8>>)
    ensures
        parts@.map_values(|p: Vec<u8>| p@) == split_bytes(s@, sep),
{
    let mut parts: Vec<Vec<u8>> = Vec::new();
    let mut current: Vec<u8> = Vec::new();
    let mut i: usize = 0;
    assert(s@.take(0) =~= Seq::<u8>::empty());
    assert(parts@.map_values(|p: Vec<u8>| p@).push(current@) =~= split_bytes(s@.take(0), sep));
    while i < s.len()
        invariant
            i <= s@.len(),
            parts@.map_values(|p: Vec<u8>| p@).push(current@) == split_bytes(s@.take(i as int), sep),
        decreases s@.len() - i,
    {
        let ghost before = parts@.map_values(|p: Vec<u8>| p@).push(current@);
        assert(s@.take(i + 1).drop_last() =~= s@.take(i as int));
        if s[i] == sep {
            let done = current;
            let ghost old_parts = parts@;
            parts.push(done);
            current = Vec::new();
            assert(parts@.map_values(|p: Vec<u8>| p@).push(current@) =~= before.push(Seq::empty()));
        } else {
            let ghost old_current = current@;
            current.push(s[i]);
            assert(parts@.map_values(|p: Vec<u8>| p@).push(current@) =~= before.update(
                before.len() - 1,
                before.last().push(s@[i as int]),
            ));
        }
        i = i + 1;
    }
    assert(s@.take(i as int) =~= s@);
    let ghost before = parts@;
    parts.push(current);
    assert(parts@.map_values(|p: Vec<u8>| p@) =~= before.map_values(|p: Vec<u8>| p@).push(current@));
    parts
}

/// The entries of a search list (a Unix `PATH` value): the parts between
/// colons, empty ones included. An unset list has no entries.
pub fn split_paths(raw_path: Option<&[u8]>) -> (entries: Vec<Vec<u8>>)
    ensures
        entries@.map_values(|p: Vec<u8>| p@) == match raw_path {
            Some(raw) => split_bytes(raw@, list_separator()),
            None => Seq::empty(),
        },
{
    match raw_path {
        Some(raw) => split_at_separator(raw, 58u8),
        None => {
            let entries: Vec<Vec<u8>> = Vec::new();
            assert(entries@.map_values(|p: Vec<u8>| p@) =~= Seq::<Seq<u8>>::empty());
            entries
        },
    }
}

/// The number of empty entries of a search list.
pub fn count_empty_path_entries(raw_path: &[u8]) -> (n: usize)
    ensures
        n == empty_part_count(split_bytes(raw_path@, list_separator())),
{
    let parts = split_at_separator(raw_path, 58u8);
    let ghost ps = parts@.map_values(|p: Vec<u8>| p@);
    let mut n: usize = 0;
    let mut i: usize = 0;
    while i < parts.len()
        invariant
            ps == parts@.map_values(|p: Vec<u8>| p@),
            i <= ps.len(),
            n == empty_part_count(ps.take(i as int)),
            n <= i,
        decreases ps.len() - i,
    {
        assert(ps.take(i + 1).drop_last() =~= ps.take(i as int));
        assert(ps[i as int] == parts@[i as int]@);
        if parts[i].len() == 0 {
            n = n + 1;
        }
        i = i + 1;
    }
    assert(ps.take(i as int) =~= ps);
    n
}

/// The last component of a split path that names something: empty parts and
/// `.` parts are skipped.
pub open spec fn last_component(parts: Seq<Seq<u8>>) -> Option<Seq<u8>>
    decreases parts.len(),
{
    if parts.len() == 0 {
        None
    } else if parts.last().len() == 0 || parts.last() == seq![46u8] {
        last_component(parts.drop_last())
    } else {
        Some(parts.last())
    }
}

/// The final component of a path (as `Path::file_name` gives it on Unix):
/// none when the path ends in `..` or has no normal component.
pub open spec fn file_name_of(path: Seq<u8>) -> Option<Seq<u8>> {
    match last_component(split_bytes(path, dir_separator())) {
        Some(c) => if c == seq![46u8, 46u8] {
            None
        } else {
            Some(c)
        },
        None => None,
    }
}

/// The final component of a path, if it has one.
pub fn file_name(path: &[u8]) -> (name: Option<Vec<u8>>)
    ensures
        match name {
            Some(n) => file_name_of(path@) == Some(n@),
            None => file_name_of(path@) is None,
        },
{
    let mut parts = split_at_separator(path, 47u8);
    let ghost all = parts@.map_values(|p: Vec<u8>| p@);
    while parts.len() > 0
        invariant
            all == split_bytes(path@, dir_separator()),
            last_component(all) == last_component(parts@.map_values(|p: Vec<u8>| p@)),
        decreases parts@.len(),
    {
        let ghost before = parts@;
        let part = parts.pop().unwrap();
        proof {
            assert(parts@ == before.drop_last());
            assert(before.map_values(|p: Vec<u8>| p@).drop_last() =~= parts@.map_values(|p: Vec<u8>| p@));
            assert(before.map_values(|p: Vec<u8>| p@).last() == part@);
        }
        let dot = part.len() == 1 && part[0] == 46u8;
        proof {
            if part@.len() == 1 {
                if part@[0] == 46u8 {
                    assert(part@ =~= seq![46u8]);
                } else {
                    assert(part@ != seq![46u8]);
                }
            } else {
                assert(part@.len() != seq![46u8].len());
            }
        }
        if part.len() > 0 && !dot {
            let dotdot = part.len() == 2 && part[0] == 46u8 && part[1] == 46u8;
            proof {
                if part@.len() == 2 && part@[0] == 46u8 && part@[1] == 46u8 {
                    assert(part@ =~= seq![46u8, 46u8]);
                } else if part@ == seq![46u8, 46u8] {
                    assert(part@[0] == 46u8 && part@[1] == 46u8);
                }
            }
            if dotdot {
                return None;
            }
            return Some(part);
        }
    }
    assert(parts@.map_values(|p: Vec<u8>| p@) =~= Seq::<Seq<u8>>::empty());
    None
}

/// The position of the last `.` in a name, or -1.
pub open spec fn last_dot(name: Seq<u8>) -> int
    decreases name.len(),
{
    if name.len() == 0 {
        -1
    } else if name.last() == 46u8 {
        name.len() - 1
    } else {
        last_dot(name.drop_last())
    }
}

/// The extension of a file name (as `Path::extension` gives it): what follows
/// the last `.`, unless that `.` opens the name or there is none.
pub open spec fn extension_of(name: Seq<u8>) -> Option<Seq<u8>> {
    if name == seq![46u8, 46u8] || last_dot(name) <= 0 {
        None
    } else {
        Some(name.skip(last_dot(name) + 1))
    }
}

/// A byte with ASCII upper-case letters made lower-case.
pub open spec fn ascii_lower(b: u8) -> u8 {
    if 65 <= b <= 90 {
        (b + 32) as u8
    } else {
        b
    }
}

/// Whether a three-byte extension is, ignoring ASCII case, the given word.
pub open spec fn is_word(ext: Seq<u8>, a: u8, b: u8, c: u8) -> bool {
    ext.len() == 3 && ascii_lower(ext[0]) == a && ascii_lower(ext[1]) == b && ascii_lower(ext[2]) == c
}

/// The extensions Windows runs directly: `exe`, `cmd`, `bat`, `com` and `ps1`,
/// in any ASCII case.
pub open spec fn windows_executable_extension(ext: Seq<u8>) -> bool {
    ||| is_word(ext, 101, 120, 101)
    ||| is_word(ext, 99, 109, 100)
    ||| is_word(ext, 98, 97, 116)
    ||| is_word(ext, 99, 111, 109)
    ||| is_word(ext, 112, 115, 49)
}

fn lower(b: u8) -> (r: u8)
    ensures
        r == ascii_lower(b),
{
    if 65 <= b && b <= 90 {
        b + 32
    } else {
        b
    }
}

fn word_is(ext: &[u8], a: u8, b: u8, c: u8) -> (r: bool)
    ensures
        r == is_word(ext@, a, b, c),
{
    ext.len() == 3 && lower(ext[0]) == a && lower(ext[1]) == b && lower(ext[2]) == c
}

/// Whether the path's file name has one of the extensions Windows runs
/// directly (`exe`, `cmd`, `bat`, `com`, `ps1`, in any case).
pub fn has_windows_executable_extension(path: &[u8]) -> (r: bool)
    ensures
        r == has_executable_extension(file_name_of(path@)),
{
    match file_name(path) {
        Some(n) => name_has_executable_extension(n.as_slice()),
        None => false,
    }
}

fn name_has_executable_extension(name: &[u8]) -> (r: bool)
    ensures
        r == has_executable_extension(Some(name@)),
{
    if name.len() == 2 && name[0] == 46u8 && name[1] == 46u8 {
        assert(name@ =~= seq![46u8, 46u8]);
        return false;
    }
    assert(name@ != seq![46u8, 46u8]);
    let mut i: usize = name.len();
    assert(name@.take(i as int) =~= name@);
    while i > 0 && name[i - 1] != 46u8
        invariant
            i <= name@.len(),
            last_dot(name@) == last_dot(name@.take(i as int)),
        decreases i,
    {
        assert(name@.take(i as int).drop_last() =~= name@.take(i - 1));
        i = i - 1;
    }
    proof {
        if i > 0 {
            assert(name@.take(i as int).last() == 46u8);
        } else {
            assert(name@.take(0) =~= Seq::<u8>::empty());
        }
    }
    if i <= 1 {
        return false;
    }
    let mut ext: Vec<u8> = Vec::new();
    let mut j: usize = i;
    while j < name.len()
        invariant
            i <= j <= name@.len(),
            ext@ == name@.subrange(i as int, j as int),
        decreases name@.len() - j,
    {
        ext.push(name[j]);
        j = j + 1;
        assert(ext@ =~= name@.subrange(i as int, j as int));
    }
    assert(ext@ =~= name@.skip(last_dot(name@) + 1));
    word_is(ext.as_slice(), 101, 120, 101) || word_is(ext.as_slice(), 99, 109, 100) || word_is(
        ext.as_slice(),
        98,
        97,
        116,
    ) || word_is(ext.as_slice(), 99, 111, 109) || word_is(ext.as_slice(), 112, 115, 49)
}

/// Whether Unix permission bits let anyone execute the file (any of the
/// three execute bits is set).
pub fn is_executable_mode(mode: u32) -> (r: bool)
    ensures
        r == (mode & 0o111u32 != 0),
{
    mode & 0o111u32 != 0
}

/// A path with one more component (as `PathBuf::push` adds a relative
/// component): a `/` goes between unless the base is empty or already ends in one.
pub open spec fn join_path(base: Seq<u8>, component: Seq<u8>) -> Seq<u8> {
    if base.len() == 0 || base.last() == dir_separator() {
        base + component
    } else {
        base.push(dir_separator()) + component
    }
}

/// Appends a relative component to a path.
pub fn joined(base: &[u8], component: &[u8]) -> (path: Vec<u8>)
    ensures
        path@ == join_path(base@, component@),
{
    joined_on(Platform::Unix, base, component)
}

/// Whether a Unix path is absolute (begins at the root).
pub open spec fn is_absolute(path: Seq<u8>) -> bool {
    path.len() > 0 && path[0] == dir_separator()
}

/// The message for a Homebrew prefix that is not an absolute path.
pub open spec fn relative_prefix_message() -> Seq<char> {
    "HOMEBREW_PREFIX must be an absolute path."@
}

/// The two directories Homebrew installs commands into, `bin` then `sbin`,
/// under a prefix.
pub open spec fn homebrew_dirs(prefix: Seq<u8>) -> Seq<Seq<u8>> {
    seq![join_path(prefix, seq![98u8, 105u8, 110u8]), join_path(prefix, seq![115u8, 98u8, 105u8, 110u8])]
}

/// The search list of a Homebrew-only scan: `bin` and `sbin` under the
/// configured prefix, which must be absolute, or else under the platform's
/// default prefix.
pub fn homebrew_search_list(configured_prefix: Option<&[u8]>, default_prefix: &[u8]) -> (r: Result<Vec<Vec<u8>>, String>)
    ensures
        match configured_prefix {
            Some(p) => if is_absolute(p@) {
                r is Ok && r->Ok_0@.map_values(|d: Vec<u8>| d@) == homebrew_dirs(p@)
            } else {
                r is Err && r->Err_0@ == relative_prefix_message()
            },
            None => r is Ok && r->Ok_0@.map_values(|d: Vec<u8>| d@) == homebrew_dirs(default_prefix@),
        },
{
    let prefix = match configured_prefix {
        Some(p) => {
            if p.len() == 0 || p[0] != 47u8 {
                return Err(String::from_str("HOMEBREW_PREFIX must be an absolute path."));
            }
            p
        },
        None => default_prefix,
    };
    let bin: [u8; 3] = [98u8, 105u8, 110u8];
    let sbin: [u8; 4] = [115u8, 98u8, 105u8, 110u8];
    assert(bin@ =~= seq![98u8, 105u8, 110u8]);
    assert(sbin@ =~= seq![115u8, 98u8, 105u8, 110u8]);
    let mut dirs: Vec<Vec<u8>> = Vec::new();
    dirs.push(joined(prefix, bin.as_slice()));
    dirs.push(joined(prefix, sbin.as_slice()));
    assert(dirs@.map_values(|d: Vec<u8>| d@) =~= homebrew_dirs(prefix@));
    Ok(dirs)
}

/// The directory an entry of the search list stands for: an empty entry is
/// the current directory (`.` when it is not known).
pub fn normalize_path_entry(entry: &[u8], current_dir: Option<Vec<u8>>) -> (dir: Vec<u8>)
    ensures
        dir@ == if entry@.len() == 0 {
            match current_dir {
                Some(d) => d@,
                None => seq![46u8],
            }
        } else {
            entry@
        },
{
    if entry.len() == 0 {
        match current_dir {
            Some(d) => d,
            None => {
                let mut dot: Vec<u8> = Vec::new();
                dot.push(46u8);
                assert(dot@ =~= seq![46u8]);
                dot
            },
        }
    } else {
        let mut dir: Vec<u8> = Vec::new();
        let mut i: usize = 0;
        while i < entry.len()
            invariant
                i <= entry@.len(),
                dir@ == entry@.take(i as int),
            decreases entry@.len() - i,
        {
            dir.push(entry[i]);
            i = i + 1;
            assert(dir@ =~= entry@.take(i as int));
        }
        assert(entry@.take(i as int) =~= entry@);
        dir
    }
}

/// What the file system says of one entry of the search list.
#[derive(Debug, Clone, Copy, PartialEq, Eq)]
pub enum EntryStatus {
    /// Nothing exists at the entry.
    Missing,
    /// Something exists there, but not a directory.
    NotDirectory,
    /// A directory whose contents cannot be listed.
    Unreadable,
    /// A directory whose contents can be listed.
    Readable,
}

/// How an entry of the search list is counted from what the file system
/// says of it, asked in turn: whether it is there, whether it is a directory,
/// and whether it can be listed.
pub open spec fn entry_status_of(present: bool, is_dir: bool, readable: bool) -> EntryStatus {
    if !present {
        EntryStatus::Missing
    } else if !is_dir {
        EntryStatus::NotDirectory
    } else if !readable {
        EntryStatus::Unreadable
    } else {
        EntryStatus::Readable
    }
}

/// Classifies an entry of the search list.
pub fn entry_status(present: bool, is_dir: bool, readable: bool) -> (status: EntryStatus)
    ensures
        status == entry_status_of(present, is_dir, readable),
{
    if !present {
        EntryStatus::Missing
    } else if !is_dir {
        EntryStatus::NotDirectory
    } else if !readable {
        EntryStatus::Unreadable
    } else {
        EntryStatus::Readable
    }
}

/// What the file system says of one item of a listed directory.
#[derive(Debug, Clone, Copy, PartialEq, Eq)]
pub struct CandidateFacts {
    /// The item's own metadata (not following a link) could be read.
    pub symlink_metadata_ok: bool,
    /// The item is a symbolic link.
    pub is_symlink: bool,
    /// The metadata of what the item leads to could be read.
    pub metadata_ok: bool,
    /// What the item leads to is a regular file.
    pub is_file: bool,
    /// That file may be executed.
    pub executable: bool,
}

/// What a directory item counts as.
#[derive(Debug, Clone, Copy, PartialEq, Eq)]
pub enum CandidateKind {
    /// Left out of the scan.
    Skipped,
    /// A symbolic link whose target does not exist.
    BrokenSymlink,
    /// An executable.
    Executable,
}

/// How a directory item is counted: unreadable items are skipped, links
/// whose target cannot be read are broken, executable regular files are
/// binaries, and everything else is skipped.
pub open spec fn candidate_kind_of(f: CandidateFacts) -> CandidateKind {
    if !f.symlink_metadata_ok {
        CandidateKind::Skipped
    } else if f.is_symlink && !f.metadata_ok {
        CandidateKind::BrokenSymlink
    } else if !f.metadata_ok || !f.is_file || !f.executable {
        CandidateKind::Skipped
    } else {
        CandidateKind::Executable
    }
}

/// Classifies a directory item from what the file system says of it.
pub fn candidate_kind(facts: CandidateFacts) -> (kind: CandidateKind)
    ensures
        kind == candidate_kind_of(facts),
{
    if !facts.symlink_metadata_ok {
        CandidateKind::Skipped
    } else if facts.is_symlink && !facts.metadata_ok {
        CandidateKind::BrokenSymlink
    } else if !facts.metadata_ok || !facts.is_file || !facts.executable {
        CandidateKind::Skipped
    } else {
        CandidateKind::Executable
    }
}

/// How a directory item is counted, in terms of what the file system says:
/// it is a broken link exactly when it is a link whose target cannot be read
/// (a link to something that exists is never broken, whatever that is), and
/// a binary exactly when it leads to a regular file that may be executed.
pub proof fn law_candidate_kinds(f: CandidateFacts)
    ensures
        (candidate_kind_of(f) == CandidateKind::BrokenSymlink) <==> (f.symlink_metadata_ok && f.is_symlink
            && !f.metadata_ok),
        (candidate_kind_of(f) == CandidateKind::Executable) <==> (f.symlink_metadata_ok && f.metadata_ok && f.is_file
            && f.executable),
        f.metadata_ok ==> candidate_kind_of(f) != CandidateKind::BrokenSymlink,
{
}

/// The platforms whose search lists, paths and executables are read differently.
#[derive(Debug, Clone, Copy, PartialEq, Eq, Structural)]
pub enum Platform {
    /// Unix: `:` separates entries, `/` separates components, execute bits decide.
    Unix,
    /// Windows: `;` separates entries (double quotes protect it), `\` and `/`
    /// separate components, the extension decides.
    Windows,
    /// Any other platform: entries as on Unix, every regular file counts.
    Other,
}

/// The byte that separates the entries of a search list.
pub open spec fn separator_of(platform: Platform) -> u8 {
    if platform == Platform::Windows {
        59u8
    } else {
        58u8
    }
}

/// What splitting a Windows search list leaves after some bytes: the parts
/// done, the part being read, and whether a double quote is open.
pub open spec fn windows_split_state(s: Seq<u8>) -> (Seq<Seq<u8>>, Seq<u8>, bool)
    decreases s.len(),
{
    if s.len() == 0 {
        (Seq::empty(), Seq::empty(), false)
    } else {
        let (parts, current, quoted) = windows_split_state(s.drop_last());
        let b = s.last();
        if b == 34u8 {
            (parts, current, !quoted)
        } else if b == 59u8 && !quoted {
            (parts.push(current), Seq::empty(), quoted)
        } else {
            (parts, current.push(b), quoted)
        }
    }
}

/// The entries of a Windows search list (as `std::env::split_paths` reads
/// it there): split at `;` outside double quotes, the quotes removed.
pub open spec fn windows_split(s: Seq<u8>) -> Seq<Seq<u8>> {
    windows_split_state(s).0.push(windows_split_state(s).1)
}

/// The entries of a search list on a platform.
pub open spec fn path_entries_on(platform: Platform, raw: Seq<u8>) -> Seq<Seq<u8>> {
    if platform == Platform::Windows {
        windows_split(raw)
    } else {
        split_bytes(raw, separator_of(platform))
    }
}

fn split_windows(s: &[u8]) -> (parts: Vec<Vec<u8>>)
    ensures
        parts@.map_values(|p: Vec<u8>| p@) == windows_split(s@),
{
    let mut parts: Vec<Vec<u8>> = Vec::new();
    let mut current: Vec<u8> = Vec::new();
    let mut quoted = false;
    let mut i: usize = 0;
    assert(s@.take(0) =~= Seq::<u8>::empty());
    assert(parts@.map_values(|p: Vec<u8>| p@) =~= Seq::<Seq<u8>>::empty());
    while i < s.len()
        invariant
            i <= s@.len(),
            windows_split_state(s@.take(i as int)) == (parts@.map_values(|p: Vec<u8>| p@), current@, quoted),
        decreases s@.len() - i,
    {
        assert(s@.take(i + 1).drop_last() =~= s@.take(i as int));
        assert(s@.take(i + 1).last() == s@[i as int]);
        let b = s[i];
        if b == 34u8 {
            quoted = !quoted;
        } else if b == 59u8 && !quoted {
            let done = current;
            let ghost before = parts@;
            parts.push(done);
            current = Vec::new();
            assert(parts@.map_values(|p: Vec<u8>| p@) =~= before.map_values(|p: Vec<u8>| p@).push(done@));
            assert(current@ =~= Seq::<u8>::empty());
        } else {
            current.push(b);
        }
        i = i + 1;
    }
    assert(s@.take(i as int) =~= s@);
    let ghost before = parts@;
    parts.push(current);
    assert(parts@.map_values(|p: Vec<u8>| p@) =~= before.map_values(|p: Vec<u8>| p@).push(current@));
    parts
}

/// The entries of a search list on a platform; an unset list has none.
pub fn split_paths_on(platform: Platform, raw_path: Option<&[u8]>) -> (entries: Vec<Vec<u8>>)
    ensures
        entries@.map_values(|p: Vec<u8>| p@) == match raw_path {
            Some(raw) => path_entries_on(platform, raw@),
            None => Seq::empty(),
        },
{
    match raw_path {
        Some(raw) => match platform {
            Platform::Windows => split_windows(raw),
            _ => split_at_separator(raw, 58u8),
        },
        None => {
            let entries: Vec<Vec<u8>> = Vec::new();
            assert(entries@.map_values(|p: Vec<u8>| p@) =~= Seq::<Seq<u8>>::empty());
            entries
        },
    }
}

/// The number of empty parts of a search list cut at every separator of the
/// platform (quotes are not looked at here).
pub fn count_empty_path_entries_on(platform: Platform, raw_path: &[u8]) -> (n: usize)
    ensures
        n == empty_part_count(split_bytes(raw_path@, separator_of(platform))),
{
    let separator = if platform == Platform::Windows {
        59u8
    } else {
        58u8
    };
    let parts = split_at_separator(raw_path, separator);
    let ghost ps = parts@.map_values(|p: Vec<u8>| p@);
    let mut n: usize = 0;
    let mut i: usize = 0;
    while i < parts.len()
        invariant
            ps == parts@.map_values(|p: Vec<u8>| p@),
            i <= ps.len(),
            n == empty_part_count(ps.take(i as int)),
            n <= i,
        decreases ps.len() - i,
    {
        assert(ps.take(i + 1).drop_last() =~= ps.take(i as int));
        assert(ps[i as int] == parts@[i as int]@);
        if parts[i].len() == 0 {
            n = n + 1;
        }
        i = i + 1;
    }
    assert(ps.take(i as int) =~= ps);
    n
}

/// A Windows path read with `/` for every `\` and without a leading drive
/// letter and colon.
pub open spec fn windows_path_as_slashes(path: Seq<u8>) -> Seq<u8> {
    let rest = if path.len() >= 2 && path[1] == 58u8 && ((65 <= path[0] <= 90) || (97 <= path[0] <= 122)) {
        path.skip(2)
    } else {
        path
    };
    rest.map_values(|b: u8| if b == 92u8 { 47u8 } else { b })
}

/// The final component of a path on a platform. On Windows both `\` and `/`
/// separate components and a leading drive (`C:`) is not part of any.
pub open spec fn file_name_on(platform: Platform, path: Seq<u8>) -> Option<Seq<u8>> {
    if platform == Platform::Windows {
        file_name_of(windows_path_as_slashes(path))
    } else {
        file_name_of(path)
    }
}

/// The final component of a path on a platform, if it has one.
pub fn file_name_for(platform: Platform, path: &[u8]) -> (name: Option<Vec<u8>>)
    ensures
        match name {
            Some(n) => file_name_on(platform, path@) == Some(n@),
            None => file_name_on(platform, path@) is None,
        },
{
    if platform != Platform::Windows {
        return file_name(path);
    }
    let start: usize = if path.len() >= 2 && path[1] == 58u8 && ((65 <= path[0] && path[0] <= 90) || (97 <= path[0] && path[0] <= 122)) {
        2
    } else {
        0
    };
    let ghost rest = path@.skip(start as int);
    let mut slashed: Vec<u8> = Vec::new();
    let mut i: usize = start;
    while i < path.len()
        invariant
            start <= i <= path@.len(),
            rest == path@.skip(start as int),
            slashed@ == rest.take(i - start).map_values(|b: u8| if b == 92u8 { 47u8 } else { b }),
        decreases path@.len() - i,
    {
        let b = path[i];
        slashed.push(if b == 92u8 { 47u8 } else { b });
        i = i + 1;
        assert(slashed@ =~= rest.take(i - start).map_values(|b: u8| if b == 92u8 { 47u8 } else { b }));
    }
    assert(rest.take(i - start) =~= rest);
    assert(slashed@ == windows_path_as_slashes(path@));
    file_name(slashed.as_slice())
}

/// Whether a file name has one of the extensions Windows runs directly.
pub open spec fn has_executable_extension(name: Option<Seq<u8>>) -> bool {
    match name {
        Some(n) => match extension_of(n) {
            Some(ext) => windows_executable_extension(ext),
            None => false,
        },
        None => false,
    }
}

/// Whether a regular file counts as executable on a platform: on Unix any
/// execute bit of its mode, on Windows an executable extension of its name,
/// elsewhere being a regular file.
pub open spec fn executable_on(platform: Platform, is_file: bool, mode: u32, path: Seq<u8>) -> bool {
    match platform {
        Platform::Unix => mode & 0o111u32 != 0,
        Platform::Windows => has_executable_extension(file_name_on(Platform::Windows, path)),
        Platform::Other => is_file,
    }
}

/// Whether a file counts as executable on a platform.
pub fn is_executable(platform: Platform, is_file: bool, mode: u32, path: &[u8]) -> (r: bool)
    ensures
        r == executable_on(platform, is_file, mode, path@),
{
    match platform {
        Platform::Unix => is_executable_mode(mode),
        Platform::Windows => match file_name_for(Platform::Windows, path) {
            Some(name) => name_has_executable_extension(name.as_slice()),
            None => false,
        },
        Platform::Other => is_file,
    }
}

/// Whether a byte separates path components on a platform: `/` everywhere,
/// and `\` on Windows too.
pub open spec fn is_separator_on(platform: Platform, b: u8) -> bool {
    b == 47u8 || (platform == Platform::Windows && b == 92u8)
}

/// Whether a Windows path is a drive and nothing else (such as `C:`).
pub open spec fn is_bare_drive(path: Seq<u8>) -> bool {
    path.len() == 2 && path[1] == 58u8 && ((65 <= path[0] <= 90) || (97 <= path[0] <= 122))
}

/// A path with a plain name appended as the platform appends one: a
/// separator (`\` on Windows, `/` elsewhere) goes between them unless the
/// path is empty, already ends in a separator, or is a bare Windows drive.
pub open spec fn join_on(platform: Platform, base: Seq<u8>, component: Seq<u8>) -> Seq<u8> {
    if base.len() == 0 || is_separator_on(platform, base.last()) || (platform == Platform::Windows
        && is_bare_drive(base)) {
        base + component
    } else if platform == Platform::Windows {
        base.push(92u8) + component
    } else {
        base.push(47u8) + component
    }
}

/// A path with a plain name appended as the platform appends one.
pub fn joined_on(platform: Platform, base: &[u8], component: &[u8]) -> (path: Vec<u8>)
    ensures
        path@ == join_on(platform, base@, component@),
{
    let windows = platform == Platform::Windows;
    let mut path: Vec<u8> = Vec::new();
    let mut i: usize = 0;
    while i < base.len()
        invariant
            i <= base@.len(),
            path@ == base@.take(i as int),
        decreases base@.len() - i,
    {
        path.push(base[i]);
        i = i + 1;
        assert(path@ =~= base@.take(i as int));
    }
    assert(base@.take(i as int) =~= base@);
    let n = base.len();
    let ends_in_separator = n > 0 && (base[n - 1] == 47u8 || (windows && base[n - 1] == 92u8));
    let bare_drive = windows && n == 2 && base[1] == 58u8 && ((65 <= base[0] && base[0] <= 90) || (97 <= base[0]
        && base[0] <= 122));
    if n > 0 && !ends_in_separator && !bare_drive {
        path.push(if windows { 92u8 } else { 47u8 });
    }
    let ghost head = path@;
    let mut j: usize = 0;
    while j < component.len()
        invariant
            j <= component@.len(),
            path@ == head + component@.take(j as int),
        decreases component@.len() - j,
    {
        path.push(component[j]);
        j = j + 1;
        assert(path@ =~= head + component@.take(j as int));
    }
    assert(component@.take(j as int) =~= component@);
    path
}

} // verus!
