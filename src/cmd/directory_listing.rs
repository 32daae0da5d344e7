use vstd::prelude::*;

verus! {

/// Why the repository could not be listed.
#[derive(Debug, PartialEq, Eq, Structural)]
pub enum DirectoryListingError {
    /// The working directory or its ignore file could not be read.
    GitIgnoreNotFound,
}

impl DirectoryListingError {
    /// The message shown for the error.
    pub fn message(&self) -> (r: String)
        ensures
            r@ == "Couldn't determine gitignore."@,
    {
        match self {
            DirectoryListingError::GitIgnoreNotFound => "Couldn't determine gitignore.".to_owned(),
        }
    }
}

/// How the ignore rules judged one entry of the walk.
#[derive(Debug, Clone, Copy, PartialEq, Eq, Structural)]
pub enum IgnoreVerdict {
    /// The entry could not be resolved to an absolute path, or its metadata
    /// could not be read (a broken link, a permission error).
    Unresolved,
    /// The ignore rules could not be evaluated for the entry.
    CheckFailed,
    /// An ignore rule matches the entry.
    Ignored,
    /// No ignore rule matches the entry.
    NotIgnored,
}

/// One entry of the repository walk, with what the filters read of it.
#[derive(Debug, Clone)]
pub struct WalkedEntry {
    /// The path relative to the root of the walk.
    pub path: String,
    /// The entry's file name; `None` when it is not valid UTF-8.
    pub name: Option<String>,
    pub is_dir: bool,
    /// The size in bytes at the time of the walk.
    pub size: u64,
    pub ignore: IgnoreVerdict,
}

/// A file chosen for analysis, with its size at discovery time.
#[derive(Debug, Clone)]
pub struct FileEntry {
    pub path: String,
    pub size: u64,
}

/// The extensions of files that are never analysed.
pub open spec fn excluded_extension(e: Seq<char>) -> bool {
    e == "lock"@
}

/// A name that starts with the hidden-file marker.
pub open spec fn hidden_name(n: Seq<char>) -> bool {
    n.len() > 0 && n[0] == '.'
}

/// `i` is the position of the last `.` in `n`.
pub open spec fn is_last_dot(n: Seq<char>, i: int) -> bool {
    &&& 0 <= i < n.len()
    &&& n[i] == '.'
    &&& forall|j: int| i < j < n.len() ==> n[j] != '.'
}

/// The extension of a file name, as `Path::extension` reads it: what follows
/// the last `.`, unless that `.` starts the name, or the name is `..`.
pub open spec fn extension_of(n: Seq<char>) -> Option<Seq<char>> {
    if n != seq!['.', '.'] && exists|i: int| #[trigger] is_last_dot(n, i) && i > 0 {
        let i = choose|i: int| #[trigger] is_last_dot(n, i) && i > 0;
        Some(n.subrange(i + 1, n.len() as int))
    } else {
        None
    }
}

pub open spec fn name_is_hidden(name: Option<String>) -> bool {
    match name {
        Some(n) => hidden_name(n@),
        None => false,
    }
}

pub open spec fn name_has_excluded_extension(name: Option<String>) -> bool {
    match name {
        Some(n) => match extension_of(n@) {
            Some(e) => excluded_extension(e),
            None => false,
        },
        None => false,
    }
}

/// Whether discovery keeps the entry: a file that is not hidden, has no
/// excluded extension, and that the ignore rules were checked for and do not
/// match.
pub open spec fn is_relevant(e: WalkedEntry) -> bool {
    &&& !name_is_hidden(e.name)
    &&& !name_has_excluded_extension(e.name)
    &&& !e.is_dir
    &&& e.ignore == IgnoreVerdict::NotIgnored
}

pub open spec fn file_entry_of(e: WalkedEntry) -> FileEntry {
    FileEntry { path: e.path, size: e.size }
}

/// The files that discovery keeps from the walk `s`, in walk order.
pub open spec fn relevant_files_of(s: Seq<WalkedEntry>) -> Seq<FileEntry>
    decreases s.len(),
{
    if s.len() == 0 {
        Seq::empty()
    } else if is_relevant(s.last()) {
        relevant_files_of(s.drop_last()).push(file_entry_of(s.last()))
    } else {
        relevant_files_of(s.drop_last())
    }
}

fn is_hidden(name: &Option<String>) -> (r: bool)
    ensures
        r == name_is_hidden(*name),
{
    match name {
        Some(n) => n.as_str().unicode_len() > 0 && n.as_str().get_char(0) == '.',
        None => false,
    }
}

/// The extension of the file name `name`.
fn file_extension(name: &str) -> (r: Option<&str>)
    ensures
        r matches Some(e) ==> extension_of(name@) == Some(e@),
        r is None ==> extension_of(name@) is None,
{
    let n = name.unicode_len();
    if n == 2 && name.get_char(0) == '.' && name.get_char(1) == '.' {
        assert(name@ =~= seq!['.', '.']);
        return None;
    }
    let mut i: usize = n;
    while i > 0 && name.get_char(i - 1) != '.'
        invariant
            i <= n,
            n == name@.len(),
            forall|j: int| i <= j < n ==> name@[j] != '.',
        decreases i,
    {
        i -= 1;
    }
    if i > 1 {
        let dot = i - 1;
        assert(is_last_dot(name@, dot as int));
        let r = name.substring_char(i, n);
        proof {
            let c = choose|c: int| #[trigger] is_last_dot(name@, c) && c > 0;
            if c < dot {
                assert(name@[dot as int] != '.');
            } else if c > dot {
                assert(name@[c] != '.');
            }
        }
        Some(r)
    } else {
        proof {
            if i == 1 {
                assert forall|c: int| !(#[trigger] is_last_dot(name@, c) && c > 0) by {
                    if is_last_dot(name@, c) && c > 0 {
                        assert(name@[0] == '.');
                    }
                }
            } else {
                assert forall|c: int| !(#[trigger] is_last_dot(name@, c) && c > 0) by {
                    if is_last_dot(name@, c) && c > 0 {
                        assert(name@[c] != '.');
                    }
                }
            }
        }
        None
    }
}

fn is_excluded_extension(name: &Option<String>) -> (r: bool)
    ensures
        r == name_has_excluded_extension(*name),
{
    match name {
        Some(n) => match file_extension(n.as_str()) {
            Some(e) => e.to_owned() == "lock".to_owned(),
            None => false,
        },
        None => false,
    }
}

/// The files of the walk that are worth analysing, in walk order, each with
/// its size.
pub fn relevant_files(entries: &Vec<WalkedEntry>) -> (r: Vec<FileEntry>)
    ensures
        r@ == relevant_files_of(entries@),
{
    let mut r: Vec<FileEntry> = Vec::new();
    let mut i: usize = 0;
    while i < entries.len()
        invariant
            i <= entries.len(),
            r@ == relevant_files_of(entries@.take(i as int)),
        decreases entries.len() - i,
    {
        let e = &entries[i];
        proof {
            assert(entries@.take(i + 1).drop_last() =~= entries@.take(i as int));
            assert(entries@.take(i + 1).last() == entries@[i as int]);
        }
        if !is_hidden(&e.name) && !is_excluded_extension(&e.name) && !e.is_dir && e.ignore
            == IgnoreVerdict::NotIgnored {
            r.push(FileEntry { path: e.path.clone(), size: e.size });
        }
        i += 1;
    }
    assert(entries@.take(i as int) =~= entries@);
    r
}

/// `f` is what discovery makes of some relevant entry of `s`.
pub open spec fn made_from_relevant(s: Seq<WalkedEntry>, f: FileEntry) -> bool {
    exists|i: int| 0 <= i < s.len() && is_relevant(#[trigger] s[i]) && f == file_entry_of(s[i])
}

proof fn lemma_relevant_origin(s: Seq<WalkedEntry>)
    ensures
        forall|j: int|
            0 <= j < relevant_files_of(s).len() ==> made_from_relevant(
                s,
                #[trigger] relevant_files_of(s)[j],
            ),
    decreases s.len(),
{
    if s.len() > 0 {
        let rest = s.drop_last();
        lemma_relevant_origin(rest);
        assert forall|j: int| 0 <= j < relevant_files_of(s).len() implies made_from_relevant(
            s,
            #[trigger] relevant_files_of(s)[j],
        ) by {
            if j < relevant_files_of(rest).len() {
                assert(relevant_files_of(s)[j] == relevant_files_of(rest)[j]);
                assert(made_from_relevant(rest, relevant_files_of(rest)[j]));
                let i = choose|i: int|
                    0 <= i < rest.len() && is_relevant(#[trigger] rest[i])
                        && relevant_files_of(rest)[j] == file_entry_of(rest[i]);
                assert(s[i] == rest[i]);
            } else {
                assert(is_relevant(s.last()));
                assert(s[s.len() - 1] == s.last());
                assert(relevant_files_of(s)[j] == file_entry_of(s[s.len() - 1]));
            }
        }
    }
}

proof fn lemma_relevant_complete(s: Seq<WalkedEntry>)
    ensures
        forall|i: int|
            0 <= i < s.len() && is_relevant(#[trigger] s[i]) ==> relevant_files_of(s).contains(
                file_entry_of(s[i]),
            ),
    decreases s.len(),
{
    if s.len() > 0 {
        let rest = s.drop_last();
        lemma_relevant_complete(rest);
        let r = relevant_files_of(s);
        assert forall|i: int| 0 <= i < s.len() && is_relevant(#[trigger] s[i]) implies r.contains(
            file_entry_of(s[i]),
        ) by {
            if i < rest.len() {
                assert(rest[i] == s[i]);
                let j = choose|j: int|
                    0 <= j < relevant_files_of(rest).len() && relevant_files_of(rest)[j]
                        == file_entry_of(rest[i]);
                assert(r[j] == file_entry_of(s[i]));
            } else {
                assert(r[r.len() - 1] == file_entry_of(s[i]));
            }
        }
    }
}

proof fn lemma_relevant_paths_distinct(s: Seq<WalkedEntry>)
    requires
        forall|a: int, b: int| 0 <= a < b < s.len() ==> s[a].path@ != s[b].path@,
    ensures
        forall|a: int, b: int|
            0 <= a < b < relevant_files_of(s).len() ==> relevant_files_of(s)[a].path@
                != relevant_files_of(s)[b].path@,
    decreases s.len(),
{
    if s.len() > 0 {
        let rest = s.drop_last();
        lemma_relevant_paths_distinct(rest);
        lemma_relevant_origin(rest);
        let r = relevant_files_of(s);
        let q = relevant_files_of(rest);
        if is_relevant(s.last()) {
            assert forall|a: int, b: int| 0 <= a < b < r.len() implies r[a].path@ != r[b].path@ by {
                if b == r.len() - 1 {
                    assert(made_from_relevant(rest, q[a]));
                    let i = choose|i: int|
                        0 <= i < rest.len() && is_relevant(#[trigger] rest[i]) && q[a]
                            == file_entry_of(rest[i]);
                    assert(rest[i] == s[i]);
                    assert(s[i].path@ != s[s.len() - 1].path@);
                } else {
                    assert(r[a] == q[a] && r[b] == q[b]);
                }
            }
        }
    }
}

/// Discovery keeps exactly the relevant files of a walk: nothing hidden, with
/// an excluded extension, a directory, or not cleared by the ignore rules,
/// and every other file once. A walk visits each path once.
pub proof fn lemma_discovery_keeps_exactly_relevant(s: Seq<WalkedEntry>)
    requires
        forall|a: int, b: int| 0 <= a < b < s.len() ==> s[a].path@ != s[b].path@,
    ensures
        forall|i: int, j: int|
            0 <= i < s.len() && !is_relevant(s[i]) && 0 <= j < relevant_files_of(s).len()
                ==> relevant_files_of(s)[j].path@ != s[i].path@,
        forall|i: int|
            0 <= i < s.len() && is_relevant(#[trigger] s[i]) ==> relevant_files_of(s).contains(
                file_entry_of(s[i]),
            ),
        forall|a: int, b: int|
            0 <= a < b < relevant_files_of(s).len() ==> relevant_files_of(s)[a].path@
                != relevant_files_of(s)[b].path@,
{
    lemma_relevant_origin(s);
    lemma_relevant_complete(s);
    lemma_relevant_paths_distinct(s);
    let r = relevant_files_of(s);
    assert forall|i: int, j: int|
        0 <= i < s.len() && !is_relevant(s[i]) && 0 <= j < r.len() implies r[j].path@
        != s[i].path@ by {
        assert(made_from_relevant(s, r[j]));
        let k = choose|k: int| 0 <= k < s.len() && is_relevant(#[trigger] s[k]) && r[j] == file_entry_of(s[k]);
        assert(k != i);
    }
}

} // verus!
