//! The discovery rules: which visited entries become file records, and how
//! each record's path relative to the scan root is derived.
use crate::path::{
    components, is_absolute, is_component, join_components, joined, lemma_components_of_joined,
    lemma_components_well_formed, lemma_joined_not_absolute, split_components, views,
};
use vstd::prelude::*;
use vstd::string::*;

verus! {

/// The name of the tool's own configuration file: never collected, whatever
/// its extension.
pub const CONFIG_FILE_NAME: &'static str = ".amc.toml";

/// The file name that is excluded unconditionally.
pub open spec fn reserved_name() -> Seq<char> {
    CONFIG_FILE_NAME@
}

/// What a visited filesystem node is.
#[derive(Clone, Copy, Debug, PartialEq, Eq, Structural)]
pub enum EntryKind {
    File,
    Directory,
    Other,
}

/// A node visited during traversal: its absolute path and its kind.
#[derive(Debug)]
pub struct CandidateEntry {
    pub path: String,
    pub kind: EntryKind,
}

impl View for CandidateEntry {
    type V = (Seq<char>, EntryKind);

    open spec fn view(&self) -> (Seq<char>, EntryKind) {
        (self.path@, self.kind)
    }
}

/// A collected file: its absolute path and its path relative to the scan root.
#[derive(Debug)]
pub struct FileEntry {
    pub absolute_path: String,
    pub relative_path: String,
}

impl View for FileEntry {
    type V = (Seq<char>, Seq<char>);

    open spec fn view(&self) -> (Seq<char>, Seq<char>) {
        (self.absolute_path@, self.relative_path@)
    }
}

/// The discovery engine's configuration: the allowed extensions, stored
/// without their leading dot, and the names of the excluded folders.
pub struct FileWalker {
    extensions: Vec<String>,
    excluded_folders: Vec<String>,
}

/// `s` without its leading dot, if it has one.
pub open spec fn strip_dot(s: Seq<char>) -> Seq<char> {
    if s.len() > 0 && s[0] == '.' {
        s.drop_first()
    } else {
        s
    }
}

/// The index of the last dot in `s`, or -1 when there is none.
pub open spec fn last_dot(s: Seq<char>) -> int
    decreases s.len(),
{
    if s.len() == 0 {
        -1
    } else if s.last() == '.' {
        s.len() - 1
    } else {
        last_dot(s.drop_last())
    }
}

/// The extension of a file name: what follows its last dot, provided that
/// dot is not the name's first character.
pub open spec fn extension_of(name: Seq<char>) -> Option<Seq<char>> {
    if last_dot(name) > 0 {
        Some(name.skip(last_dot(name) + 1))
    } else {
        None
    }
}

/// The last component of a path, if it has any.
pub open spec fn file_name(p: Seq<char>) -> Option<Seq<char>> {
    if components(p).len() > 0 {
        Some(components(p).last())
    } else {
        None
    }
}

/// Whether the components `a` begin the components `b`.
pub open spec fn is_prefix(a: Seq<Seq<char>>, b: Seq<Seq<char>>) -> bool {
    a.len() <= b.len() && b.take(a.len() as int) == a
}

/// The path of `abs` relative to `root`: the components of `abs` after those
/// of `root`; `abs` itself when it does not lie under `root`.
pub open spec fn relative_of(root: Seq<char>, abs: Seq<char>) -> Seq<char> {
    let rc = components(root);
    let ac = components(abs);
    if is_prefix(rc, ac) {
        joined(ac.skip(rc.len() as int))
    } else {
        abs
    }
}

/// Whether a folder on the way to `rel` (any component but the last) bears
/// one of the excluded names.
pub open spec fn has_excluded_ancestor(excluded: Seq<Seq<char>>, rel: Seq<char>) -> bool {
    let cs = components(rel);
    exists|i: int| 0 <= i < cs.len() - 1 && excluded.contains(#[trigger] cs[i])
}

/// Whether a file name has an extension among `exts`.
pub open spec fn has_allowed_extension(exts: Seq<Seq<char>>, name: Seq<char>) -> bool {
    match extension_of(name) {
        Some(e) => exts.contains(e),
        None => false,
    }
}

/// Whether the file at `p` passes the fixed-name and the extension filters.
pub open spec fn name_accepted(exts: Seq<Seq<char>>, p: Seq<char>) -> bool {
    match file_name(p) {
        Some(n) => n != reserved_name() && has_allowed_extension(exts, n),
        None => false,
    }
}

/// Whether a visited node becomes a record: it is a regular file, no folder
/// on its way from the root is excluded, and its name passes.
pub open spec fn accepts(
    exts: Seq<Seq<char>>,
    excluded: Seq<Seq<char>>,
    root: Seq<char>,
    c: (Seq<char>, EntryKind),
) -> bool {
    &&& c.1 == EntryKind::File
    &&& !has_excluded_ancestor(excluded, relative_of(root, c.0))
    &&& name_accepted(exts, c.0)
}

/// The record made of the file at `p`.
pub open spec fn record_of(root: Seq<char>, p: Seq<char>) -> (Seq<char>, Seq<char>) {
    (p, relative_of(root, p))
}

/// The records of the accepted nodes, in the order in which they were visited.
pub open spec fn selected(
    exts: Seq<Seq<char>>,
    excluded: Seq<Seq<char>>,
    root: Seq<char>,
    cs: Seq<(Seq<char>, EntryKind)>,
) -> Seq<(Seq<char>, Seq<char>)>
    decreases cs.len(),
{
    if cs.len() == 0 {
        Seq::empty()
    } else {
        let prev = selected(exts, excluded, root, cs.drop_last());
        if accepts(exts, excluded, root, cs.last()) {
            prev.push(record_of(root, cs.last().0))
        } else {
            prev
        }
    }
}

/// Removes the leading dot of `s`, if it has one.
fn strip_leading_dot(s: &str) -> (r: String)
    ensures
        r@ == strip_dot(s@),
{
    let n = s.unicode_len();
    let k: usize = if n > 0 && s.get_char(0) == '.' { 1 } else { 0 };
    assert(s@.subrange(k as int, n as int) =~= strip_dot(s@));
    String::from_str(s.substring_char(k, n))
}

/// Whether `v` holds a string equal to `s`.
fn contains_text(v: &Vec<String>, s: &String) -> (r: bool)
    ensures
        r == views(v@).contains(s@),
{
    let mut i: usize = 0;
    while i < v.len()
        invariant
            i <= v.len(),
            forall|j: int| 0 <= j < i ==> v@[j]@ != s@,
        decreases v.len() - i,
    {
        if v[i] == *s {
            assert(views(v@)[i as int] == s@);
            return true;
        }
        i = i + 1;
    }
    assert forall|j: int| 0 <= j < views(v@).len() implies views(v@)[j] != s@ by {
        assert(views(v@)[j] == v@[j]@);
    }
    false
}

/// The extension of a file name, as `extension_of` defines it.
fn name_extension(name: &str) -> (r: Option<String>)
    ensures
        match r {
            Some(e) => extension_of(name@) == Some(e@),
            None => extension_of(name@) is None,
        },
{
    let n = name.unicode_len();
    let mut last: usize = 0;
    let mut found = false;
    let mut i: usize = 0;
    while i < n
        invariant
            n == name@.len(),
            i <= n,
            last < n || !found,
            last_dot(name@.take(i as int)) == if found { last as int } else { -1 },
        decreases n - i,
    {
        let ghost t = name@.take(i as int + 1);
        assert(t.drop_last() =~= name@.take(i as int));
        if name.get_char(i) == '.' {
            last = i;
            found = true;
        }
        i = i + 1;
    }
    assert(name@.take(n as int) =~= name@);
    if found && last > 0 {
        Some(String::from_str(name.substring_char(last + 1, n)))
    } else {
        None
    }
}

impl FileWalker {
    /// The allowed extensions.
    pub closed spec fn allowed(&self) -> Seq<Seq<char>> {
        views(self.extensions@)
    }

    /// The excluded folder names.
    pub closed spec fn excluded(&self) -> Seq<Seq<char>> {
        views(self.excluded_folders@)
    }

    /// Makes a walker; each extension loses one leading dot, so that `rs`
    /// and `.rs` mean the same.
    pub fn new(extensions: Vec<String>, excluded_folders: Vec<String>) -> (w: FileWalker)
        ensures
            w.allowed() == views(extensions@).map_values(|e: Seq<char>| strip_dot(e)),
            w.excluded() == views(excluded_folders@),
    {
        let mut exts: Vec<String> = Vec::new();
        let mut i: usize = 0;
        while i < extensions.len()
            invariant
                i <= extensions.len(),
                views(exts@) == views(extensions@).take(i as int).map_values(
                    |e: Seq<char>| strip_dot(e),
                ),
            decreases extensions.len() - i,
        {
            let t = strip_leading_dot(extensions[i].as_str());
            let ghost before = exts@;
            exts.push(t);
            assert(views(exts@) =~= views(before).push(t@));
            assert(views(extensions@).take(i as int + 1) =~= views(extensions@).take(i as int).push(
                extensions@[i as int]@,
            ));
            assert(views(exts@) =~= views(extensions@).take(i as int + 1).map_values(
                |e: Seq<char>| strip_dot(e),
            ));
            i = i + 1;
        }
        assert(views(extensions@).take(i as int) =~= views(extensions@));
        FileWalker { extensions: exts, excluded_folders }
    }

    /// Whether the file at `path` passes the fixed-name filter and has one of
    /// the allowed extensions.
    pub fn is_valid_extension(&self, path: &str) -> (r: bool)
        ensures
            r == name_accepted(self.allowed(), path@),
    {
        let cs = split_components(path);
        if cs.len() == 0 {
            return false;
        }
        let name = &cs[cs.len() - 1];
        assert(views(cs@).last() == name@);
        let reserved = String::from_str(CONFIG_FILE_NAME);
        if *name == reserved {
            return false;
        }
        match name_extension(name.as_str()) {
            Some(e) => contains_text(&self.extensions, &e),
            None => false,
        }
    }

    /// Whether a folder on the way to the relative path `rel` bears an
    /// excluded name. Names are compared whole, never as substrings.
    pub fn is_excluded_directory(&self, rel: &str) -> (r: bool)
        ensures
            r == has_excluded_ancestor(self.excluded(), rel@),
    {
        if self.excluded_folders.len() == 0 {
            return false;
        }
        let cs = split_components(rel);
        let ghost cv = components(rel@);
        let m: usize = if cs.len() > 0 { cs.len() - 1 } else { 0 };
        let mut i: usize = 0;
        while i < m
            invariant
                views(cs@) == cv,
                cv == components(rel@),
                m == if cs.len() > 0 { cs.len() - 1 } else { 0 },
                i <= m,
                forall|j: int| 0 <= j < i ==> !self.excluded().contains(#[trigger] cv[j]),
            decreases cs.len() - i,
        {
            assert(cv[i as int] == cs@[i as int]@);
            if contains_text(&self.excluded_folders, &cs[i]) {
                assert(views(self.excluded_folders@).contains(cv[i as int]));
                assert(0 <= i < cv.len() - 1);
                return true;
            }
            i = i + 1;
        }
        false
    }

    /// Whether a visited node becomes a record under the scan root `root`.
    pub fn accepts(&self, root: &str, c: &CandidateEntry) -> (r: bool)
        ensures
            r == accepts(self.allowed(), self.excluded(), root@, c@),
    {
        if c.kind != EntryKind::File {
            return false;
        }
        let rel = relative_path(root, c.path.as_str());
        if self.is_excluded_directory(rel.as_str()) {
            return false;
        }
        self.is_valid_extension(c.path.as_str())
    }

    /// The records of the nodes visited under the scan root `root` that pass
    /// every filter, in the order of the visit.
    pub fn select(&self, root: &str, candidates: &Vec<CandidateEntry>) -> (r: Vec<FileEntry>)
        ensures
            r@.map_values(|f: FileEntry| f@) == selected(
                self.allowed(),
                self.excluded(),
                root@,
                candidates@.map_values(|c: CandidateEntry| c@),
            ),
    {
        let ghost cv = candidates@.map_values(|c: CandidateEntry| c@);
        let mut r: Vec<FileEntry> = Vec::new();
        let mut i: usize = 0;
        while i < candidates.len()
            invariant
                i <= candidates.len(),
                cv == candidates@.map_values(|c: CandidateEntry| c@),
                r@.map_values(|f: FileEntry| f@) == selected(
                    self.allowed(),
                    self.excluded(),
                    root@,
                    cv.take(i as int),
                ),
            decreases candidates.len() - i,
        {
            let c = &candidates[i];
            assert(cv.take(i as int + 1).drop_last() =~= cv.take(i as int));
            assert(cv.take(i as int + 1).last() == c@);
            if self.accepts(root, c) {
                let rel = relative_path(root, c.path.as_str());
                let abs = c.path.clone();
                let ghost before = r@;
                r.push(FileEntry { absolute_path: abs, relative_path: rel });
                assert(r@.map_values(|f: FileEntry| f@) =~= before.map_values(|f: FileEntry| f@).push(
                    record_of(root@, c.path@),
                ));
            }
            i = i + 1;
        }
        assert(cv.take(i as int) =~= cv);
        r
    }
}

/// The path of `abs` relative to the scan root `root`; `abs` itself when it
/// does not lie under `root`.
pub fn relative_path(root: &str, abs: &str) -> (r: String)
    ensures
        r@ == relative_of(root@, abs@),
{
    let rc = split_components(root);
    let ac = split_components(abs);
    if rc.len() > ac.len() {
        return String::from_str(abs);
    }
    let mut k: usize = 0;
    while k < rc.len()
        invariant
            rc.len() <= ac.len(),
            views(rc@) == components(root@),
            views(ac@) == components(abs@),
            k <= rc.len(),
            forall|j: int| 0 <= j < k ==> views(ac@)[j] == views(rc@)[j],
        decreases rc.len() - k,
    {
        if !(ac[k] == rc[k]) {
            assert(views(ac@)[k as int] == ac@[k as int]@);
            assert(views(rc@)[k as int] == rc@[k as int]@);
            assert(views(ac@).take(rc.len() as int)[k as int] != views(rc@)[k as int]);

            return String::from_str(abs);
        }
        k = k + 1;
    }
    assert(views(ac@).take(rc.len() as int) =~= views(rc@));
    join_components(&ac, rc.len())
}

/// A record is among the selected ones exactly when some visited node was
/// accepted and yields it.
pub proof fn lemma_selected_members(
    exts: Seq<Seq<char>>,
    excluded: Seq<Seq<char>>,
    root: Seq<char>,
    cs: Seq<(Seq<char>, EntryKind)>,
)
    ensures
        forall|x: (Seq<char>, Seq<char>)|
            #![trigger selected(exts, excluded, root, cs).contains(x)]
            selected(exts, excluded, root, cs).contains(x) <==> exists|i: int|
                0 <= i < cs.len() && accepts(exts, excluded, root, #[trigger] cs[i]) && x
                    == record_of(root, cs[i].0),
    decreases cs.len(),
{
    if cs.len() > 0 {
        let front = cs.drop_last();
        lemma_selected_members(exts, excluded, root, front);
        let sel = selected(exts, excluded, root, cs);
        let prev = selected(exts, excluded, root, front);
        assert forall|x: (Seq<char>, Seq<char>)| sel.contains(x) implies exists|i: int|
            0 <= i < cs.len() && accepts(exts, excluded, root, #[trigger] cs[i]) && x
                == record_of(root, cs[i].0) by {
            if prev.contains(x) {
                let i = choose|i: int|
                    0 <= i < front.len() && accepts(exts, excluded, root, #[trigger] front[i]) && x
                        == record_of(root, front[i].0);
                assert(cs[i] == front[i]);
            } else {
                let j = choose|j: int| 0 <= j < sel.len() && sel[j] == x;
                assert(j == prev.len());
                assert(cs[cs.len() - 1] == cs.last());
            }
        }
        assert forall|x: (Seq<char>, Seq<char>)|
            (exists|i: int|
                0 <= i < cs.len() && accepts(exts, excluded, root, #[trigger] cs[i]) && x
                    == record_of(root, cs[i].0)) implies sel.contains(x) by {
            let i = choose|i: int|
                0 <= i < cs.len() && accepts(exts, excluded, root, #[trigger] cs[i]) && x
                    == record_of(root, cs[i].0);
            if i < front.len() {
                assert(front[i] == cs[i]);
                assert(prev.contains(x));
                let j = choose|j: int| 0 <= j < prev.len() && prev[j] == x;
                assert(sel[j] == x);
            } else {
                assert(sel[prev.len() as int] == x);
            }
        }
    }
}

/// Every collected record names a file whose extension is among the allowed
/// ones, compared exactly, and none of whose folders, from the scan root
/// down, bears an excluded name.
pub proof fn lemma_records_pass_filters(
    exts: Seq<Seq<char>>,
    excluded: Seq<Seq<char>>,
    root: Seq<char>,
    cs: Seq<(Seq<char>, EntryKind)>,
)
    ensures
        forall|k: int|
            #![trigger selected(exts, excluded, root, cs)[k]]
            0 <= k < selected(exts, excluded, root, cs).len() ==> {
                let rec = selected(exts, excluded, root, cs)[k];
                &&& file_name(rec.0) is Some
                &&& extension_of(file_name(rec.0)->0) is Some
                &&& exts.contains(extension_of(file_name(rec.0)->0)->0)
                &&& rec.1 == relative_of(root, rec.0)
                &&& !has_excluded_ancestor(excluded, rec.1)
                &&& exists|i: int|
                    0 <= i < cs.len() && #[trigger] cs[i] == (rec.0, EntryKind::File)
            },
{
    lemma_selected_members(exts, excluded, root, cs);
    let sel = selected(exts, excluded, root, cs);
    assert forall|k: int| 0 <= k < sel.len() implies {
        let rec = #[trigger] sel[k];
        &&& file_name(rec.0) is Some
        &&& extension_of(file_name(rec.0)->0) is Some
        &&& exts.contains(extension_of(file_name(rec.0)->0)->0)
        &&& rec.1 == relative_of(root, rec.0)
        &&& !has_excluded_ancestor(excluded, rec.1)
        &&& exists|i: int| 0 <= i < cs.len() && #[trigger] cs[i] == (rec.0, EntryKind::File)
    } by {
        assert(sel.contains(sel[k]));
        let i = choose|i: int|
            0 <= i < cs.len() && accepts(exts, excluded, root, #[trigger] cs[i]) && sel[k]
                == record_of(root, cs[i].0);
        assert(cs[i] == (sel[k].0, EntryKind::File));
    }
}

/// The tool's own configuration file is never collected, whatever the
/// allowed extensions.
pub proof fn lemma_config_file_never_collected(
    exts: Seq<Seq<char>>,
    excluded: Seq<Seq<char>>,
    root: Seq<char>,
    cs: Seq<(Seq<char>, EntryKind)>,
)
    ensures
        forall|k: int|
            #![trigger selected(exts, excluded, root, cs)[k]]
            0 <= k < selected(exts, excluded, root, cs).len() ==> file_name(
                selected(exts, excluded, root, cs)[k].0,
            ) != Some(reserved_name()),
{
    lemma_selected_members(exts, excluded, root, cs);
    let sel = selected(exts, excluded, root, cs);
    assert forall|k: int| 0 <= k < sel.len() implies file_name(sel[k].0) != Some(
        reserved_name(),
    ) by {
        assert(sel.contains(sel[k]));
        let i = choose|i: int|
            0 <= i < cs.len() && accepts(exts, excluded, root, #[trigger] cs[i]) && sel[k]
                == record_of(root, cs[i].0);
    }
}

/// For a file under the scan root, the relative path is not absolute, and the
/// root's components followed by those of the relative path are exactly the
/// components of the absolute path: joining the two names the same file. The
/// relative path holds no component that the absolute path does not hold
/// below the root, so it cannot climb out of the root.
pub proof fn lemma_relative_path_rejoins(root: Seq<char>, abs: Seq<char>)
    requires
        is_prefix(components(root), components(abs)),
    ensures
        !is_absolute(relative_of(root, abs)),
        components(root) + components(relative_of(root, abs)) == components(abs),
        components(relative_of(root, abs)) == components(abs).skip(components(root).len() as int),
{
    let rc = components(root);
    let ac = components(abs);
    let rest = ac.skip(rc.len() as int);
    lemma_components_well_formed(abs);
    assert forall|i: int| 0 <= i < rest.len() implies is_component(#[trigger] rest[i]) by {
        assert(rest[i] == ac[i + rc.len()]);
    }
    lemma_components_of_joined(rest);
    lemma_joined_not_absolute(rest);
    assert(rc + rest =~= ac);
}

/// Every collected record of a file under the scan root has a relative path
/// that is not absolute and that, joined to the root, gives back the
/// components of its absolute path.
pub proof fn lemma_records_rejoin(
    exts: Seq<Seq<char>>,
    excluded: Seq<Seq<char>>,
    root: Seq<char>,
    cs: Seq<(Seq<char>, EntryKind)>,
)
    ensures
        forall|k: int|
            #![trigger selected(exts, excluded, root, cs)[k]]
            0 <= k < selected(exts, excluded, root, cs).len() && is_prefix(
                components(root),
                components(selected(exts, excluded, root, cs)[k].0),
            ) ==> {
                let rec = selected(exts, excluded, root, cs)[k];
                &&& !is_absolute(rec.1)
                &&& components(root) + components(rec.1) == components(rec.0)
            },
{
    lemma_records_pass_filters(exts, excluded, root, cs);
    let sel = selected(exts, excluded, root, cs);
    assert forall|k: int|
        0 <= k < sel.len() && is_prefix(components(root), components(sel[k].0)) implies {
        let rec = #[trigger] sel[k];
        &&& !is_absolute(rec.1)
        &&& components(root) + components(rec.1) == components(rec.0)
    } by {
        lemma_relative_path_rejoins(root, sel[k].0);
    }
}

/// The order in which nodes are visited does not matter: two visits of the
/// same nodes yield the same set of records.
pub proof fn lemma_selection_ignores_visit_order(
    exts: Seq<Seq<char>>,
    excluded: Seq<Seq<char>>,
    root: Seq<char>,
    cs1: Seq<(Seq<char>, EntryKind)>,
    cs2: Seq<(Seq<char>, EntryKind)>,
)
    requires
        cs1.to_set() == cs2.to_set(),
    ensures
        selected(exts, excluded, root, cs1).to_set() == selected(exts, excluded, root, cs2).to_set(),
{
    lemma_selected_members(exts, excluded, root, cs1);
    lemma_selected_members(exts, excluded, root, cs2);
    let s1 = selected(exts, excluded, root, cs1);
    let s2 = selected(exts, excluded, root, cs2);
    assert forall|x: (Seq<char>, Seq<char>)| s1.contains(x) implies s2.contains(x) by {
        let i = choose|i: int|
            0 <= i < cs1.len() && accepts(exts, excluded, root, #[trigger] cs1[i]) && x
                == record_of(root, cs1[i].0);
        assert(cs1.to_set().contains(cs1[i]));
        assert(cs2.contains(cs1[i]));
        let j = choose|j: int| 0 <= j < cs2.len() && cs2[j] == cs1[i];
        assert(accepts(exts, excluded, root, cs2[j]));
    }
    assert forall|x: (Seq<char>, Seq<char>)| s2.contains(x) implies s1.contains(x) by {
        let i = choose|i: int|
            0 <= i < cs2.len() && accepts(exts, excluded, root, #[trigger] cs2[i]) && x
                == record_of(root, cs2[i].0);
        assert(cs2.to_set().contains(cs2[i]));
        assert(cs1.contains(cs2[i]));
        let j = choose|j: int| 0 <= j < cs1.len() && cs1[j] == cs2[i];
        assert(accepts(exts, excluded, root, cs1[j]));
    }
    assert(s1.to_set() =~= s2.to_set());
}

/// A visit that reaches no node twice yields no record twice.
pub proof fn lemma_selected_no_duplicates(
    exts: Seq<Seq<char>>,
    excluded: Seq<Seq<char>>,
    root: Seq<char>,
    cs: Seq<(Seq<char>, EntryKind)>,
)
    requires
        cs.no_duplicates(),
    ensures
        selected(exts, excluded, root, cs).no_duplicates(),
    decreases cs.len(),
{
    if cs.len() > 0 {
        let front = cs.drop_last();
        assert(front.no_duplicates());
        lemma_selected_no_duplicates(exts, excluded, root, front);
        lemma_selected_members(exts, excluded, root, front);
        let prev = selected(exts, excluded, root, front);
        let c = cs.last();
        if accepts(exts, excluded, root, c) {
            let x = record_of(root, c.0);
            if prev.contains(x) {
                let i = choose|i: int|
                    0 <= i < front.len() && accepts(exts, excluded, root, #[trigger] front[i]) && x
                        == record_of(root, front[i].0);
                assert(front[i] == cs[i]);
                assert(cs[i] == cs[cs.len() - 1]);
            }
            let sel = prev.push(x);
            assert forall|a: int, b: int|
                0 <= a < sel.len() && 0 <= b < sel.len() && a != b implies sel[a] != sel[b] by {
                if a < prev.len() && b < prev.len() {
                } else if a < prev.len() {
                    assert(prev.contains(sel[a]));
                } else {
                    assert(prev.contains(sel[b]));
                }
            }
        }
    }
}

/// Two visits that each reach every node once, and reach the same nodes,
/// yield the same records, as many of them, whatever the order of the visit.
pub proof fn lemma_repeated_visit_same_records(
    exts: Seq<Seq<char>>,
    excluded: Seq<Seq<char>>,
    root: Seq<char>,
    cs1: Seq<(Seq<char>, EntryKind)>,
    cs2: Seq<(Seq<char>, EntryKind)>,
)
    requires
        cs1.no_duplicates(),
        cs2.no_duplicates(),
        cs1.to_set() == cs2.to_set(),
    ensures
        selected(exts, excluded, root, cs1).to_set() == selected(exts, excluded, root, cs2).to_set(),
        selected(exts, excluded, root, cs1).len() == selected(exts, excluded, root, cs2).len(),
        selected(exts, excluded, root, cs1).no_duplicates(),
{
    lemma_selection_ignores_visit_order(exts, excluded, root, cs1, cs2);
    lemma_selected_no_duplicates(exts, excluded, root, cs1);
    lemma_selected_no_duplicates(exts, excluded, root, cs2);
    selected(exts, excluded, root, cs1).unique_seq_to_set();
    selected(exts, excluded, root, cs2).unique_seq_to_set();
}

/// A folder with an excluded name excludes what lies under it at any depth:
/// directly under the scan root or below other folders.
pub proof fn lemma_folder_excluded_at_any_depth(
    excluded: Seq<Seq<char>>,
    dirs: Seq<Seq<char>>,
    name: Seq<char>,
    i: int,
)
    requires
        forall|j: int| 0 <= j < dirs.len() ==> is_component(#[trigger] dirs[j]),
        is_component(name),
        0 <= i < dirs.len(),
        excluded.contains(dirs[i]),
    ensures
        has_excluded_ancestor(excluded, joined(dirs.push(name))),
{
    let cs = dirs.push(name);
    assert forall|j: int| 0 <= j < cs.len() implies is_component(#[trigger] cs[j]) by {
        if j < dirs.len() {
            assert(cs[j] == dirs[j]);
        }
    }
    lemma_components_of_joined(cs);
    assert(cs[i] == dirs[i]);
}

/// Folder names are compared whole: a file none of whose folders bears an
/// excluded name exactly (`targetx` beside `target`) is kept by this filter.
pub proof fn lemma_folder_exclusion_compares_whole_names(
    excluded: Seq<Seq<char>>,
    dirs: Seq<Seq<char>>,
    name: Seq<char>,
)
    requires
        forall|j: int| 0 <= j < dirs.len() ==> is_component(#[trigger] dirs[j]),
        is_component(name),
        forall|j: int| 0 <= j < dirs.len() ==> !excluded.contains(#[trigger] dirs[j]),
    ensures
        !has_excluded_ancestor(excluded, joined(dirs.push(name))),
{
    let cs = dirs.push(name);
    assert forall|j: int| 0 <= j < cs.len() implies is_component(#[trigger] cs[j]) by {
        if j < dirs.len() {
            assert(cs[j] == dirs[j]);
        }
    }
    lemma_components_of_joined(cs);
    assert forall|j: int| 0 <= j < cs.len() - 1 implies !excluded.contains(#[trigger] cs[j]) by {
        assert(cs[j] == dirs[j]);
    }
}

} // verus!
