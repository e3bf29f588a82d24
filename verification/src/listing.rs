//! The index page of a directory.
//!
//! The page shows the directory's path, a link to its parent unless it is
//! the root, and one link for each child, in the order given. A link leads to
//! the child's path below the root, escaped; it shows the child's name, with
//! a `/` behind the name of a directory.

use vstd::prelude::*;
use crate::entry::EntryInfo;
use crate::entry::EntryView;
use crate::entry::child_path;
use crate::entry::entry_views;
use crate::entry::is_child_name;
use crate::escape::escape;
use crate::escape::escaped;
use crate::escape::lemma_unescape_escaped;
use crate::escape::unescaped;
use crate::text::from_chars;
use crate::text::push_char;
use crate::text::to_chars;

verus! {

/// The page up to its title.
pub const PAGE_OPEN: &'static str =
    "<!doctype html>\n<html lang=\"en\">\n<head>\n<meta charset=\"utf-8\">\n<meta name=\"viewport\" content=\"width=device-width\">\n<title>";

/// From the title to the heading.
pub const PAGE_HEADING: &'static str = "</title>\n</head>\n<body>\n<h1>";

/// From the heading to the links.
pub const PAGE_LINKS: &'static str = "</h1>\n<div>\n";

/// The page behind its links.
pub const PAGE_CLOSE: &'static str = "\n</div>\n</body>\n</html>";

/// One link of an index page.
#[derive(Clone, Debug, PartialEq, Eq)]
pub struct Link {
    /// Where the link leads, escaped.
    pub href: String,
    /// What the link shows.
    pub label: String,
}

/// What a [`Link`] stands for.
pub struct LinkView {
    pub href: Seq<char>,
    pub label: Seq<char>,
}

impl View for Link {
    type V = LinkView;

    open spec fn view(&self) -> LinkView {
        LinkView { href: self.href@, label: self.label@ }
    }
}

/// What each of `links` stands for.
pub open spec fn link_views(links: Seq<Link>) -> Seq<LinkView> {
    links.map_values(|link: Link| link@)
}

/// Where the last segment of `path` begins: behind its last `/`.
pub open spec fn name_start(path: Seq<char>) -> int
    decreases path.len(),
{
    if path.len() == 0 || path.last() == '/' {
        path.len() as int
    } else {
        name_start(path.drop_last())
    }
}

/// The last segment of `path`: what stands behind its last `/`.
pub open spec fn base_name(path: Seq<char>) -> Seq<char> {
    path.skip(name_start(path))
}

/// The path of a directory as its page shows it: with a `/` at its end.
pub open spec fn shown_path(current_path: Seq<char>) -> Seq<char> {
    if current_path.len() > 0 && current_path.last() == '/' {
        current_path
    } else {
        current_path.push('/')
    }
}

/// The link for `entry`, served below `root`.
pub open spec fn link_to(root: Seq<char>, entry: EntryView) -> LinkView {
    LinkView {
        href: escaped(entry.relative_path(root)),
        label: if entry.is_directory {
            base_name(entry.absolute_path).push('/')
        } else {
            base_name(entry.absolute_path)
        },
    }
}

/// The links for `entries`, one for one and in their order.
pub open spec fn links_to(root: Seq<char>, entries: Seq<EntryView>) -> Seq<LinkView> {
    entries.map_values(|entry: EntryView| link_to(root, entry))
}

/// A link as the page writes it.
pub open spec fn anchor(link: LinkView) -> Seq<char> {
    "<a href="@ + link.href + ">"@ + link.label + "</a></br>"@
}

/// The links as the page writes them, one after the other.
pub open spec fn anchors(links: Seq<LinkView>) -> Seq<char>
    decreases links.len(),
{
    if links.len() == 0 {
        Seq::empty()
    } else {
        anchors(links.drop_last()) + anchor(links.last())
    }
}

/// The link to the parent of the directory shown as `shown`; nothing for
/// the root.
pub open spec fn parent_anchor(shown: Seq<char>) -> Seq<char> {
    if shown == seq!['/'] {
        Seq::empty()
    } else {
        "<a href="@ + escaped(shown) + "..>..</a>"@
    }
}

/// The title of the page of the directory shown as `shown`.
pub open spec fn title(shown: Seq<char>) -> Seq<char> {
    "Index of "@ + shown
}

/// The page with the links `links`, for the directory at the request path
/// `current_path`.
pub open spec fn page_with(current_path: Seq<char>, links: Seq<LinkView>) -> Seq<char> {
    let shown = shown_path(current_path);
    PAGE_OPEN@ + title(shown) + PAGE_HEADING@ + title(shown) + PAGE_LINKS@ + parent_anchor(shown)
        + "</br>"@ + anchors(links) + PAGE_CLOSE@
}

/// The index page of the directory at the request path `current_path`, with
/// the children `entries`, served below `root`.
pub open spec fn page(root: Seq<char>, current_path: Seq<char>, entries: Seq<EntryView>) -> Seq<
    char,
> {
    page_with(current_path, links_to(root, entries))
}

/// The page has one link for each child, in the children's order, and each
/// link's target unescapes to that child's path below the root. For a child
/// that lies under the root, the root and that path are the child's path on
/// disk.
pub proof fn lemma_links_lead_to_children(root: Seq<char>, entries: Seq<EntryView>)
    ensures
        links_to(root, entries).len() == entries.len(),
        forall|i: int|
            0 <= i < entries.len() ==> unescaped(#[trigger] links_to(root, entries)[i].href)
                == Some(entries[i].relative_path(root)),
        forall|i: int|
            0 <= i < entries.len() && entries[i].is_under(root) ==> root + (
            #[trigger] entries[i]).relative_path(root) == entries[i].absolute_path,
{
    assert forall|i: int| 0 <= i < entries.len() implies unescaped(
        #[trigger] links_to(root, entries)[i].href,
    ) == Some(entries[i].relative_path(root)) by {
        lemma_unescape_escaped(entries[i].relative_path(root));
    }
    assert forall|i: int| 0 <= i < entries.len() && entries[i].is_under(root) implies root + (
    #[trigger] entries[i]).relative_path(root) == entries[i].absolute_path by {
        let path = entries[i].absolute_path;
        assert(root + path.skip(root.len() as int) =~= path);
    }
}

/// The last segment of a path is what stands behind the last `/`: it holds
/// no `/`, and a `/` stands before it unless it is the whole path.
pub proof fn lemma_name_start(path: Seq<char>)
    ensures
        0 <= name_start(path) <= path.len(),
        forall|i: int| name_start(path) <= i < path.len() ==> path[i] != '/',
        name_start(path) > 0 ==> path[name_start(path) - 1] == '/',
    decreases path.len(),
{
    if path.len() == 0 || path.last() == '/' {
    } else {
        let front = path.drop_last();
        lemma_name_start(front);
        assert forall|i: int| name_start(path) <= i < path.len() implies path[i] != '/' by {
            if i < front.len() {
                assert(path[i] == front[i]);
            }
        }
        if name_start(path) > 0 {
            assert(path[name_start(path) - 1] == front[name_start(front) - 1]);
        }
    }
}

/// The name under which a directory lists a child is the last segment of the
/// child's path.
pub proof fn lemma_base_name_of_child(dir: Seq<char>, name: Seq<char>)
    requires
        is_child_name(name),
    ensures
        base_name(child_path(dir, name)) == name,
{
    let path = child_path(dir, name);
    let at = path.len() - name.len();
    lemma_name_start(path);
    assert(path[at - 1] == '/');
    assert forall|j: int| at <= j < path.len() implies path[j] != '/' by {
        assert(path[j] == name[j - at]);
        assert(name.contains(name[j - at]));
    }
    let start = name_start(path);
    if start < at {
        assert(path[at - 1] != '/');
    } else if start > at {
        assert(path[start - 1] == '/');
    }
    assert(path.skip(at) =~= name);
}

/// Where the last segment of `chars` begins.
fn find_name_start(chars: &[char]) -> (out: usize)
    ensures
        out == name_start(chars@),
{
    let mut i: usize = chars.len();
    assert(chars@.take(i as int) =~= chars@);
    while i > 0 && chars[i - 1] != '/'
        invariant
            i <= chars@.len(),
            name_start(chars@) == name_start(chars@.take(i as int)),
        decreases i,
    {
        assert(chars@.take(i as int).drop_last() =~= chars@.take(i - 1));
        i -= 1;
    }
    assert(i > 0 ==> chars@.take(i as int).last() == '/');
    i
}

/// The link for `entry`, served below a root of `root_length` characters.
fn make_link(root: &str, root_length: usize, entry: &EntryInfo) -> (out: Link)
    requires
        root_length == root@.len(),
    ensures
        out@ == link_to(root@, entry@),
{
    let chars = to_chars(entry.absolute_path.as_str());
    let n: usize = chars.len();
    let relative = if root_length <= n {
        from_chars(chars.as_slice(), root_length, n)
    } else {
        String::new()
    };
    proof {
        lemma_name_start(chars@);
    }
    let mut label = from_chars(chars.as_slice(), find_name_start(chars.as_slice()), n);
    if entry.is_directory {
        push_char(&mut label, '/');
    }
    Link { href: escape(relative.as_str()), label }
}

/// The links for `children`, served below `root`: one for each child, in
/// the children's order.
pub fn links(root: &str, children: &Vec<EntryInfo>) -> (out: Vec<Link>)
    ensures
        link_views(out@) == links_to(root@, entry_views(children@)),
        out@.len() == children@.len(),
{
    let root_length: usize = to_chars(root).len();
    let mut out: Vec<Link> = Vec::new();
    let mut i: usize = 0;
    while i < children.len()
        invariant
            i <= children@.len(),
            root_length == root@.len(),
            out@.len() == i,
            link_views(out@) == links_to(root@, entry_views(children@).take(i as int)),
        decreases children@.len() - i,
    {
        let link = make_link(root, root_length, &children[i]);
        proof {
            let entries = entry_views(children@);
            assert(entries.take(i + 1) =~= entries.take(i as int).push(children@[i as int]@));
            assert(link_views(out@.push(link)) =~= link_views(out@).push(link@));
            assert(links_to(root@, entries.take(i as int).push(children@[i as int]@))
                =~= links_to(root@, entries.take(i as int)).push(link@));
        }
        out.push(link);
        i += 1;
    }
    proof {
        assert(entry_views(children@).take(i as int) =~= entry_views(children@));
    }
    out
}

/// The page with the links `links`, for the directory at the request path
/// `current_path`.
pub fn render_links(current_path: &str, links: &Vec<Link>) -> (out: String)
    ensures
        out@ == page_with(current_path@, link_views(links@)),
{
    let chars = to_chars(current_path);
    let mut shown = String::from_str(current_path);
    if chars.len() == 0 || chars[chars.len() - 1] != '/' {
        push_char(&mut shown, '/');
    }
    assert(shown@ == shown_path(current_path@));
    let is_root: bool = to_chars(shown.as_str()).len() == 1;
    proof {
        if is_root {
            assert(shown@ =~= seq!['/']);
        } else {
            assert(seq!['/'].len() == 1);
        }
    }
    let mut heading = String::from_str("Index of ");
    heading.append(shown.as_str());

    let mut out = String::from_str(PAGE_OPEN);
    out.append(heading.as_str());
    out.append(PAGE_HEADING);
    out.append(heading.as_str());
    out.append(PAGE_LINKS);
    if !is_root {
        let mut parent = String::from_str("<a href=");
        parent.append(escape(shown.as_str()).as_str());
        parent.append("..>..</a>");
        out.append(parent.as_str());
    } else {
        assert(out@ + Seq::<char>::empty() =~= out@);
    }
    out.append("</br>");
    let ghost front = out@;
    let ghost all = link_views(links@);
    let mut i: usize = 0;
    assert(front + anchors(all.take(0)) =~= front);
    while i < links.len()
        invariant
            i <= links@.len(),
            all == link_views(links@),
            out@ == front + anchors(all.take(i as int)),
        decreases links@.len() - i,
    {
        let link = &links[i];
        let ghost before = out@;
        out.append("<a href=");
        out.append(link.href.as_str());
        out.append(">");
        out.append(link.label.as_str());
        out.append("</a></br>");
        proof {
            assert(all.take(i + 1).drop_last() =~= all.take(i as int));
            assert(all.take(i + 1).last() == link@);
            assert(out@ =~= before + anchor(link@));
            assert(before + anchor(link@) =~= front + (anchors(all.take(i as int)) + anchor(
                link@,
            )));
        }
        i += 1;
    }
    proof {
        assert(all.take(i as int) =~= all);
    }
    out.append(PAGE_CLOSE);
    out
}

/// The index page of the directory at the request path `current_path`, with
/// the children `children`, served below `root`.
pub fn render_page(root: &str, current_path: &str, children: &Vec<EntryInfo>) -> (out: String)
    ensures
        out@ == page(root@, current_path@, entry_views(children@)),
{
    let links = links(root, children);
    render_links(current_path, &links)
}

} // verus!
