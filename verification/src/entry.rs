//! Request paths and what they resolve to below the served root.
//!
//! A request path stays inside the root when it begins with `/` and none of
//! its segments is `..`. The path on disk is then the root with the request
//! path behind it. Reading the disk is the caller's part: it hands over what
//! it found there as a [`Found`], and gets a [`ResolvedEntry`] whose paths all
//! lie under the root.

use vstd::prelude::*;
use crate::text::push_char;
use crate::text::to_chars;

verus! {

/// One entry of the served tree.
#[derive(Clone, Debug, PartialEq, Eq)]
pub struct EntryInfo {
    /// The path on disk: the root, then the path below it.
    pub absolute_path: String,
    pub is_directory: bool,
    /// The length in bytes; it counts for files only.
    pub size: u64,
}

/// What an [`EntryInfo`] stands for.
pub struct EntryView {
    pub absolute_path: Seq<char>,
    pub is_directory: bool,
    pub size: u64,
}

impl View for EntryInfo {
    type V = EntryView;

    open spec fn view(&self) -> EntryView {
        EntryView {
            absolute_path: self.absolute_path@,
            is_directory: self.is_directory,
            size: self.size,
        }
    }
}

/// What a request path resolves to.
#[derive(Clone, Debug, PartialEq, Eq)]
pub enum ResolvedEntry {
    /// A directory, with its immediate children in the order of the listing.
    Directory(Vec<EntryInfo>),
    /// A regular file.
    File(EntryInfo),
    /// Nothing that is served.
    NotFound,
}

/// What a [`ResolvedEntry`] stands for.
pub enum ResolvedView {
    Directory(Seq<EntryView>),
    File(EntryView),
    NotFound,
}

/// What each of `entries` stands for.
pub open spec fn entry_views(entries: Seq<EntryInfo>) -> Seq<EntryView> {
    entries.map_values(|entry: EntryInfo| entry@)
}

impl View for ResolvedEntry {
    type V = ResolvedView;

    open spec fn view(&self) -> ResolvedView {
        match *self {
            ResolvedEntry::Directory(children) => ResolvedView::Directory(entry_views(children@)),
            ResolvedEntry::File(info) => ResolvedView::File(info@),
            ResolvedEntry::NotFound => ResolvedView::NotFound,
        }
    }
}

/// One line of a directory's listing, as read from disk.
#[derive(Clone, Debug, PartialEq, Eq)]
pub struct Listed {
    /// The entry's name within its directory.
    pub name: String,
    pub is_directory: bool,
    pub size: u64,
}

/// What a [`Listed`] stands for.
pub struct ListedView {
    pub name: Seq<char>,
    pub is_directory: bool,
    pub size: u64,
}

impl View for Listed {
    type V = ListedView;

    open spec fn view(&self) -> ListedView {
        ListedView { name: self.name@, is_directory: self.is_directory, size: self.size }
    }
}

/// What is on disk at a path.
#[derive(Clone, Debug, PartialEq, Eq)]
pub enum Found {
    /// A directory, with its listing.
    Directory(Vec<Listed>),
    /// A regular file of that many bytes.
    File(u64),
    /// No entry, one of another kind, or one that could not be read.
    Nothing,
}

/// What a [`Found`] stands for.
pub enum FoundView {
    Directory(Seq<ListedView>),
    File(u64),
    Nothing,
}

/// What each line of `listing` stands for.
pub open spec fn listed_views(listing: Seq<Listed>) -> Seq<ListedView> {
    listing.map_values(|line: Listed| line@)
}

impl View for Found {
    type V = FoundView;

    open spec fn view(&self) -> FoundView {
        match *self {
            Found::Directory(listing) => FoundView::Directory(listed_views(listing@)),
            Found::File(size) => FoundView::File(size),
            Found::Nothing => FoundView::Nothing,
        }
    }
}

/// Whether the segment `..` stands at place `i` of `path`.
pub open spec fn parent_segment_at(path: Seq<char>, i: int) -> bool {
    &&& 0 <= i
    &&& i + 2 <= path.len()
    &&& path[i] == '.'
    &&& path[i + 1] == '.'
    &&& (i == 0 || path[i - 1] == '/')
    &&& (i + 2 == path.len() || path[i + 2] == '/')
}

/// Whether one of the segments of `path` is `..`.
pub open spec fn has_parent_segment(path: Seq<char>) -> bool {
    exists|i: int| parent_segment_at(path, i)
}

/// Whether the request path `path` stays inside the root: it begins with `/`,
/// so that it cannot run on from the root's last segment, and it never steps
/// up.
pub open spec fn stays_inside(path: Seq<char>) -> bool {
    &&& path.len() > 0
    &&& path[0] == '/'
    &&& !has_parent_segment(path)
}

/// Whether the path on disk `path` lies under `root`.
pub open spec fn lies_under(root: Seq<char>, path: Seq<char>) -> bool {
    &&& root.is_prefix_of(path)
    &&& stays_inside(path.skip(root.len() as int))
}

/// Whether `name` can be the name of a child: one segment, which is neither
/// the directory itself nor its parent.
pub open spec fn is_child_name(name: Seq<char>) -> bool {
    &&& name.len() > 0
    &&& !name.contains('/')
    &&& name != seq!['.']
    &&& name != seq!['.', '.']
}

/// The path of the child `name` of the directory `dir`.
pub open spec fn child_path(dir: Seq<char>, name: Seq<char>) -> Seq<char> {
    if dir.len() > 0 && dir.last() == '/' {
        dir + name
    } else {
        dir + seq!['/'] + name
    }
}

/// Whether every line of `listing` bears a child's name.
pub open spec fn all_child_names(listing: Seq<ListedView>) -> bool {
    forall|i: int| 0 <= i < listing.len() ==> is_child_name(#[trigger] listing[i].name)
}

/// The child of the directory `dir` that `line` lists.
pub open spec fn child_of(dir: Seq<char>, line: ListedView) -> EntryView {
    EntryView {
        absolute_path: child_path(dir, line.name),
        is_directory: line.is_directory,
        size: line.size,
    }
}

/// The children of the directory `dir` that `listing` lists, one for one and
/// in its order.
pub open spec fn children_of(dir: Seq<char>, listing: Seq<ListedView>) -> Seq<EntryView> {
    listing.map_values(|line: ListedView| child_of(dir, line))
}

impl EntryView {
    /// The path below `root`, as a request names it; empty where the entry's
    /// path is shorter than the root.
    pub open spec fn relative_path(&self, root: Seq<char>) -> Seq<char> {
        if root.len() <= self.absolute_path.len() {
            self.absolute_path.skip(root.len() as int)
        } else {
            Seq::empty()
        }
    }

    /// Whether the entry lies under `root`.
    pub open spec fn is_under(&self, root: Seq<char>) -> bool {
        lies_under(root, self.absolute_path)
    }
}

/// Whether every one of `entries` lies under `root`.
pub open spec fn all_under(entries: Seq<EntryView>, root: Seq<char>) -> bool {
    forall|i: int| 0 <= i < entries.len() ==> (#[trigger] entries[i]).is_under(root)
}

impl ResolvedView {
    /// Whether every path in it lies under `root`.
    pub open spec fn is_under(&self, root: Seq<char>) -> bool {
        match *self {
            ResolvedView::Directory(children) => all_under(children, root),
            ResolvedView::File(info) => info.is_under(root),
            ResolvedView::NotFound => true,
        }
    }
}

/// What the request path `path` resolves to below `root`, with `found` on
/// disk at the root joined with the path.
///
/// A path that does not stay inside the root is not found, whatever is on
/// disk. A file resolves to its entry. A directory resolves to its children,
/// in the order of the listing; a listing with a line that names no child is
/// not served.
pub open spec fn resolved(root: Seq<char>, path: Seq<char>, found: FoundView) -> ResolvedView {
    if !stays_inside(path) {
        ResolvedView::NotFound
    } else {
        match found {
            FoundView::Nothing => ResolvedView::NotFound,
            FoundView::File(size) => ResolvedView::File(
                EntryView { absolute_path: root + path, is_directory: false, size },
            ),
            FoundView::Directory(listing) => {
                if all_child_names(listing) {
                    ResolvedView::Directory(children_of(root + path, listing))
                } else {
                    ResolvedView::NotFound
                }
            },
        }
    }
}

/// A child of a directory inside the root is inside the root.
pub proof fn lemma_child_stays_inside(dir: Seq<char>, name: Seq<char>)
    requires
        stays_inside(dir),
        is_child_name(name),
    ensures
        stays_inside(child_path(dir, name)),
{
    let path = child_path(dir, name);
    let at = path.len() - name.len();
    assert(path[0] == dir[0]);
    assert(path[at - 1] == '/');
    assert forall|k: int| 0 <= k < name.len() implies path[at + k] == name[k] && name[k] != '/' by {
        assert(name.contains(name[k]));
    }
    assert forall|i: int| !parent_segment_at(path, i) by {
        if parent_segment_at(path, i) {
            if i + 2 <= dir.len() {
                assert(path[i] == dir[i] && path[i + 1] == dir[i + 1]);
                if i > 0 {
                    assert(path[i - 1] == dir[i - 1]);
                }
                if i + 2 < dir.len() {
                    assert(path[i + 2] == dir[i + 2]);
                }
                assert(parent_segment_at(dir, i));
            } else if i < at {
                // one of the two dots would be the separator before the name
                assert(i == at - 1 || i + 1 == at - 1);
            } else {
                if i > at {
                    assert(path[i - 1] == name[i - 1 - at]);
                }
                if i + 2 < path.len() {
                    assert(path[i + 2] == name[i + 2 - at]);
                }
                assert(name =~= seq!['.', '.']);
            }
        }
    }
}

/// Whether the request path stays inside the root.
pub fn inside_root(path: &str) -> (out: bool)
    ensures
        out == stays_inside(path@),
{
    let chars = to_chars(path);
    let n: usize = chars.len();
    if n == 0 || chars[0] != '/' {
        return false;
    }
    let mut i: usize = 0;
    while i < n
        invariant
            i <= n,
            n == chars@.len(),
            chars@ == path@,
            forall|k: int| 0 <= k < i ==> !parent_segment_at(path@, k),
        decreases n - i,
    {
        if chars[i] == '.' && i + 1 < n && chars[i + 1] == '.' && (i == 0 || chars[i - 1] == '/')
            && (i + 2 == n || chars[i + 2] == '/') {
            assert(parent_segment_at(path@, i as int));
            return false;
        }
        i += 1;
    }
    true
}

/// Whether `name` can be the name of a child.
pub fn child_name(name: &str) -> (out: bool)
    ensures
        out == is_child_name(name@),
{
    let chars = to_chars(name);
    let n: usize = chars.len();
    if n == 0 {
        return false;
    }
    if chars[0] == '.' && (n == 1 || (n == 2 && chars[1] == '.')) {
        assert(name@ =~= seq!['.'] || name@ =~= seq!['.', '.']);
        return false;
    }
    proof {
        if name@ == seq!['.'] || name@ == seq!['.', '.'] {
            assert(seq!['.'].len() == 1 && seq!['.', '.'].len() == 2);
            assert(seq!['.'][0] == '.' && seq!['.', '.'][0] == '.' && seq!['.', '.'][1] == '.');
        }
    }
    let mut i: usize = 0;
    while i < n
        invariant
            i <= n,
            n == chars@.len(),
            chars@ == name@,
            forall|k: int| 0 <= k < i ==> name@[k] != '/',
        decreases n - i,
    {
        if chars[i] == '/' {
            assert(name@.contains('/'));
            return false;
        }
        i += 1;
    }
    true
}

/// The path on disk that the request path names below `root`, or `None`
/// where the request path does not stay inside the root.
pub fn locate(root: &str, path: &str) -> (out: Option<String>)
    ensures
        out is Some <==> stays_inside(path@),
        out is Some ==> out->0@ == root@ + path@ && lies_under(root@, out->0@),
{
    if !inside_root(path) {
        return None;
    }
    let mut target = String::from_str(root);
    target.append(path);
    proof {
        assert((root@ + path@).skip(root@.len() as int) =~= path@);
    }
    Some(target)
}

/// Whatever is on disk, nothing that a request path resolves to lies
/// outside the root.
pub proof fn lemma_resolved_is_under_root(root: Seq<char>, path: Seq<char>, found: FoundView)
    ensures
        resolved(root, path, found).is_under(root),
{
    if stays_inside(path) {
        assert((root + path).skip(root.len() as int) =~= path);
        if let FoundView::Directory(listing) = found {
            if all_child_names(listing) {
                let children = children_of(root + path, listing);
                assert forall|i: int| 0 <= i < children.len() implies (#[trigger] children[i]).is_under(
                    root,
                ) by {
                    let name = listing[i].name;
                    lemma_child_stays_inside(path, name);
                    assert(children[i].absolute_path.skip(root.len() as int) =~= child_path(
                        path,
                        name,
                    ));
                }
            }
        }
    }
}

/// The entry for the line `line` of the listing of the directory `dir`.
fn child_entry(dir: &str, ends_in_separator: bool, line: &Listed) -> (out: EntryInfo)
    requires
        ends_in_separator == (dir@.len() > 0 && dir@.last() == '/'),
    ensures
        out@ == child_of(dir@, line@),
{
    let mut path = String::from_str(dir);
    if !ends_in_separator {
        push_char(&mut path, '/');
        assert(dir@.push('/') =~= dir@ + seq!['/']);
    }
    path.append(line.name.as_str());
    EntryInfo { absolute_path: path, is_directory: line.is_directory, size: line.size }
}

/// Resolves the request path `path` below `root`, with `found` on disk at
/// the root joined with the path.
pub fn resolve(root: &str, path: &str, found: &Found) -> (out: ResolvedEntry)
    ensures
        out@ == resolved(root@, path@, found@),
        !stays_inside(path@) ==> out is NotFound,
        out@.is_under(root@),
{
    proof {
        lemma_resolved_is_under_root(root@, path@, found@);
    }
    let target = match locate(root, path) {
        Some(target) => target,
        None => { return ResolvedEntry::NotFound; },
    };
    match found {
        Found::Nothing => ResolvedEntry::NotFound,
        Found::File(size) => ResolvedEntry::File(
            EntryInfo { absolute_path: target, is_directory: false, size: *size },
        ),
        Found::Directory(listing) => {
            let chars = to_chars(path);
            let ends_in_separator: bool = chars[chars.len() - 1] == '/';
            let mut children: Vec<EntryInfo> = Vec::new();
            let mut i: usize = 0;
            while i < listing.len()
                invariant
                    i <= listing@.len(),
                    found@ == FoundView::Directory(listed_views(listing@)),
                    target@ == root@ + path@,
                    ends_in_separator == (target@.len() > 0 && target@.last() == '/'),
                    all_child_names(listed_views(listing@).take(i as int)),
                    entry_views(children@) == children_of(
                        target@,
                        listed_views(listing@).take(i as int),
                    ),
                decreases listing@.len() - i,
            {
                let line = &listing[i];
                let ghost lines = listed_views(listing@);
                if !child_name(line.name.as_str()) {
                    assert(!is_child_name(lines[i as int].name));
                    return ResolvedEntry::NotFound;
                }
                let child = child_entry(target.as_str(), ends_in_separator, line);
                proof {
                    assert(lines.take(i + 1) =~= lines.take(i as int).push(line@));
                    assert(entry_views(children@.push(child)) =~= entry_views(children@).push(
                        child@,
                    ));
                    assert(children_of(target@, lines.take(i as int).push(line@)) =~= children_of(
                        target@,
                        lines.take(i as int),
                    ).push(child_of(target@, line@)));
                }
                children.push(child);
                i += 1;
            }
            proof {
                assert(listed_views(listing@).take(i as int) =~= listed_views(listing@));
            }
            ResolvedEntry::Directory(children)
        },
    }
}

} // verus!
