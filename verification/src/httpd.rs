//! The server's decisions for one request.
//!
//! A request is answered in two steps, with the caller's look at the disk
//! between them. [`D::begin`] reads the request path and either answers at
//! once or names the path on disk to look at. [`D::render`] takes what was
//! found there and gives the response. Neither step keeps anything from one
//! request to the next.

use vstd::prelude::*;
use crate::entry::EntryInfo;
use crate::entry::EntryView;
use crate::entry::Found;
use crate::entry::FoundView;
use crate::entry::ListedView;
use crate::entry::ResolvedEntry;
use crate::entry::ResolvedView;
use crate::entry::child_of;
use crate::entry::child_path;
use crate::entry::entry_views;
use crate::entry::has_parent_segment;
use crate::entry::is_child_name;
use crate::entry::lemma_child_stays_inside;
use crate::entry::locate;
use crate::entry::resolve;
use crate::entry::resolved;
use crate::entry::stays_inside;
use crate::escape::lemma_unescape_escaped;
use crate::escape::lemma_unescape_plain_text;
use crate::escape::unescape;
use crate::escape::unescaped;
use crate::listing::link_to;
use crate::listing::page;
use crate::listing::render_page;
use crate::range::ByteRange;
use crate::range::header_view;
use crate::range::lemma_ten_to_nineteen;
use crate::range::parse_range;
use crate::range::requested_range;
use crate::response::Response;
use crate::response::HeaderView;
use crate::response::ResponseView;
use crate::response::confirmed;
use crate::response::content_length;
use crate::response::file_response;
use crate::response::internal_error_response;
use crate::response::lemma_file_response_bytes;
use crate::response::not_found_response;
use crate::response::page_response;
use crate::response::respond;
use crate::text::decimal;
use crate::text::from_chars;
use crate::text::to_chars;

verus! {

/// The server of one directory tree.
pub struct D {
    path: String,
}

/// What to do first for a request.
#[derive(Clone, Debug, PartialEq, Eq)]
pub enum Step {
    /// Answer with this response; the disk is not looked at.
    Reply(Response),
    /// Look at `target` on disk, then render what is there for the request
    /// path `path`.
    Look { path: String, target: String },
}

/// What a [`Step`] stands for.
pub enum StepView {
    Reply(ResponseView),
    Look { path: Seq<char>, target: Seq<char> },
}

impl View for Step {
    type V = StepView;

    open spec fn view(&self) -> StepView {
        match *self {
            Step::Reply(response) => StepView::Reply(response@),
            Step::Look { path, target } => StepView::Look { path: path@, target: target@ },
        }
    }
}

/// `path` without the `/` at its end, as many as there are.
pub open spec fn without_trailing_separators(path: Seq<char>) -> Seq<char>
    decreases path.len(),
{
    if path.len() > 0 && path.last() == '/' {
        without_trailing_separators(path.drop_last())
    } else {
        path
    }
}

/// The request path as it is resolved: without one `/` at its end, unless
/// it is `/` alone.
pub open spec fn normalized(path: Seq<char>) -> Seq<char> {
    if path.len() > 1 && path.last() == '/' {
        path.drop_last()
    } else {
        path
    }
}

/// The path that browsers ask for unbidden, and that is never served.
pub open spec fn favicon() -> Seq<char> {
    "/favicon.ico"@
}

/// The first step for the raw request path `raw`, below `root`.
///
/// The 404 at once where the path does not unescape to text, where it asks
/// for the favicon, and where it does not stay inside the root. Else a look
/// at the root joined with the path.
pub open spec fn first_step(root: Seq<char>, raw: Seq<char>) -> StepView {
    match unescaped(raw) {
        None => StepView::Reply(not_found_response()),
        Some(decoded) => {
            let path = normalized(decoded);
            if path == favicon() || !stays_inside(path) {
                StepView::Reply(not_found_response())
            } else {
                StepView::Look { path, target: root + path }
            }
        },
    }
}

/// The response for the request path `path` below `root`, with `found` on
/// disk and `range_header` as the value of the request's `Range` header.
///
/// The 404 where the path resolves to nothing; the index page for a
/// directory; for a file the range that the header asks for, or all of it.
pub open spec fn reply(
    root: Seq<char>,
    path: Seq<char>,
    found: FoundView,
    range_header: Option<Seq<char>>,
) -> ResponseView {
    match resolved(root, path, found) {
        ResolvedView::NotFound => not_found_response(),
        ResolvedView::File(info) => file_response(info, requested_range(range_header, info.size)),
        ResolvedView::Directory(children) => page_response(page(root, path, children)),
    }
}

/// The response for the raw request path `raw`, where `found` is what a look
/// at the disk gives, if one is asked for.
pub open spec fn handled(
    root: Seq<char>,
    raw: Seq<char>,
    found: FoundView,
    range_header: Option<Seq<char>>,
) -> ResponseView {
    match first_step(root, raw) {
        StepView::Reply(response) => response,
        StepView::Look { path, target } => reply(root, path, found, range_header),
    }
}

impl D {
    /// The root that is served.
    pub closed spec fn root(&self) -> Seq<char> {
        self.path@
    }

    /// The server of the tree under `path`. A `/` at the end of `path` does
    /// not count.
    pub fn new(path: &str) -> (out: D)
        ensures
            out.root() == without_trailing_separators(path@),
    {
        let chars = to_chars(path);
        let mut n: usize = chars.len();
        assert(chars@.take(n as int) =~= chars@);
        while n > 0 && chars[n - 1] == '/'
            invariant
                n <= chars@.len(),
                without_trailing_separators(chars@) == without_trailing_separators(
                    chars@.take(n as int),
                ),
            decreases n,
        {
            assert(chars@.take(n as int).drop_last() =~= chars@.take(n - 1));
            n -= 1;
        }
        assert(n > 0 ==> chars@.take(n as int).last() != '/');
        D { path: from_chars(chars.as_slice(), 0, n) }
    }

    /// The root that is served.
    pub fn path(&self) -> (out: &str)
        ensures
            out@ == self.root(),
    {
        self.path.as_str()
    }

    /// The first step for the raw request path `raw_path`.
    pub fn begin(&self, raw_path: &str) -> (out: Step)
        ensures
            out@ == first_step(self.root(), raw_path@),
    {
        let decoded = match unescape(raw_path) {
            Some(decoded) => decoded,
            None => { return Step::Reply(Response::not_found()); },
        };
        let chars = to_chars(decoded.as_str());
        let n: usize = chars.len();
        let keep: usize = if n > 1 && chars[n - 1] == '/' {
            n - 1
        } else {
            n
        };
        let path = from_chars(chars.as_slice(), 0, keep);
        proof {
            assert(chars@.subrange(0, keep as int) =~= normalized(decoded@));
        }
        if path == String::from_str("/favicon.ico") {
            return Step::Reply(Response::not_found());
        }
        match locate(self.path.as_str(), path.as_str()) {
            Some(target) => Step::Look { path, target },
            None => Step::Reply(Response::not_found()),
        }
    }

    /// What the request path `path` resolves to, with `found` on disk at the
    /// root joined with the path.
    pub fn resolve(&self, path: &str, found: &Found) -> (out: ResolvedEntry)
        ensures
            out@ == resolved(self.root(), path@, found@),
            !stays_inside(path@) ==> out is NotFound,
            out@.is_under(self.root()),
    {
        resolve(self.path.as_str(), path, found)
    }

    /// The index page of the directory at the request path `current_path`,
    /// with the children `files`.
    pub fn render_dir(&self, current_path: &str, files: &Vec<EntryInfo>) -> (out: Response)
        ensures
            out@ == page_response(page(self.root(), current_path@, entry_views(files@))),
    {
        let page = render_page(self.path.as_str(), current_path, files);
        Response::html(page.as_str())
    }

    /// The response that hands out the file `file_info`: the range that
    /// `range_header` asks for, or all of it.
    pub fn render_file(&self, file_info: &EntryInfo, range_header: Option<&str>) -> (out: Response)
        ensures
            out@ == file_response(
                file_info@,
                requested_range(header_view(range_header), file_info.size),
            ),
    {
        let range = parse_range(range_header, file_info.size);
        respond(file_info, range)
    }

    /// The response for the request path `rel_path`, with `found` on disk at
    /// the root joined with the path and `range_header` as the value of the
    /// request's `Range` header.
    pub fn render(&self, rel_path: &str, found: &Found, range_header: Option<&str>) -> (out:
        Response)
        ensures
            out@ == reply(self.root(), rel_path@, found@, header_view(range_header)),
    {
        match self.resolve(rel_path, found) {
            ResolvedEntry::Directory(files) => self.render_dir(rel_path, &files),
            ResolvedEntry::File(file_info) => self.render_file(&file_info, range_header),
            ResolvedEntry::NotFound => Response::not_found(),
        }
    }
}

/// A request path that steps up with a `..` segment, or that does not begin
/// with `/`, resolves to nothing and is answered with the 404, whatever is
/// on disk.
pub proof fn lemma_escaping_path_is_not_found(
    root: Seq<char>,
    path: Seq<char>,
    found: FoundView,
    range_header: Option<Seq<char>>,
)
    requires
        has_parent_segment(path) || path.len() == 0 || path[0] != '/',
    ensures
        resolved(root, path, found) == ResolvedView::NotFound,
        reply(root, path, found, range_header) == not_found_response(),
{
}

/// A raw request path that unescapes to a path with a `..` segment is
/// answered with the 404 before the disk is looked at.
pub proof fn lemma_escaping_request_is_not_found(root: Seq<char>, raw: Seq<char>)
    requires
        unescaped(raw) is Some,
        has_parent_segment(normalized(unescaped(raw)->0)),
    ensures
        first_step(root, raw) == StepView::Reply(not_found_response()),
{
}

/// The favicon is answered with the 404, whatever is on disk.
pub proof fn lemma_favicon_is_not_found(
    root: Seq<char>,
    found: FoundView,
    range_header: Option<Seq<char>>,
)
    ensures
        first_step(root, favicon()) == StepView::Reply(not_found_response()),
        handled(root, favicon(), found, range_header) == not_found_response(),
{
    reveal_strlit("/favicon.ico");
    let text = favicon();
    assert(text.len() == 12);
    assert forall|i: int| 0 <= i < text.len() implies '\0' <= #[trigger] text[i] <= '\u{7f}'
        && text[i] != '%' by {}
    assert(!text.contains('%'));
    lemma_unescape_plain_text(text);
    assert(text.last() == 'o');
    assert(normalized(text) == text);
}

/// A path with nothing on disk behind it is answered with the 404.
pub proof fn lemma_missing_is_not_found(
    root: Seq<char>,
    raw: Seq<char>,
    range_header: Option<Seq<char>>,
)
    ensures
        handled(root, raw, FoundView::Nothing, range_header) == not_found_response(),
{
}

/// A file that cannot be opened when its response is due is answered with
/// the 500.
pub proof fn lemma_vanished_file_is_internal_error(info: EntryView, range: Option<ByteRange>)
    ensures
        confirmed(file_response(info, range), false) == internal_error_response(),
        confirmed(file_response(info, range), false).status.code_of() == 500,
{
}

/// Without a `Range` header a file goes out whole: status 200, its length
/// in `Content-Length`, and its bytes as the body.
pub proof fn lemma_whole_file_without_range(info: EntryView, content: Seq<u8>)
    requires
        content.len() == info.size,
    ensures
        requested_range(None, info.size) is None,
        file_response(info, None).status.code_of() == 200,
        file_response(info, None).headers == seq![content_length(info.size as nat)],
        file_response(info, None).body.bytes(content) == content,
{
    lemma_file_response_bytes(info, None, content);
}

/// The header `Range: bytes=10-19` on a file of more than 20 bytes is
/// answered with the ten bytes 10 to 19: status 206, the range and the
/// file's length in `Content-Range`, and 10 as the length.
pub proof fn lemma_ten_bytes_of_a_file(info: EntryView, content: Seq<u8>)
    requires
        info.size > 20,
        content.len() == info.size,
    ensures
        ({
            let range = requested_range(Some("bytes=10-19"@), info.size);
            let response = file_response(info, range);
            &&& range == Some(ByteRange { start: 10, end: 19 })
            &&& response.status.code_of() == 206
            &&& response.headers == seq![
                HeaderView {
                    name: "Content-Range"@,
                    value: "bytes 10-19/"@ + decimal(info.size as nat),
                },
                HeaderView { name: "Content-Length"@, value: "10"@ },
            ]
            &&& response.body.bytes(content) == content.subrange(10, 20)
        }),
{
    lemma_ten_to_nineteen(info.size);
    let range = Some(ByteRange { start: 10, end: 19 });
    lemma_file_response_bytes(info, range, content);
    reveal_strlit("bytes 10-19/");
    reveal_strlit("bytes ");
    reveal_strlit("10");
    assert(decimal(1) =~= seq!['1']);
    assert(decimal(10) =~= seq!['1', '0']);
    assert(decimal(19) =~= seq!['1', '9']);
    assert("bytes "@ + decimal(10) + seq!['-'] + decimal(19) + seq!['/'] + decimal(
        info.size as nat,
    ) =~= "bytes 10-19/"@ + decimal(info.size as nat));
    assert("10"@ =~= decimal(10));
}

/// Following a link of an index page leads to the child that the link
/// stands for: for a directory inside the root and a child that it lists,
/// the link's target, taken as a raw request path, makes the server look at
/// that child's path on disk. The one child that no link reaches is a
/// `favicon.ico` directly under the root, which is never served.
pub proof fn lemma_link_leads_to_child(root: Seq<char>, path: Seq<char>, line: ListedView)
    requires
        stays_inside(path),
        is_child_name(line.name),
        child_path(path, line.name) != favicon(),
    ensures
        ({
            let child = child_of(root + path, line);
            first_step(root, link_to(root, child).href) == StepView::Look {
                path: child_path(path, line.name),
                target: child.absolute_path,
            }
        }),
{
    let child = child_of(root + path, line);
    let below = child_path(path, line.name);
    assert((root + path).last() == path.last());
    assert(child.absolute_path =~= root + below);
    assert(child.relative_path(root) =~= below);
    lemma_unescape_escaped(below);
    lemma_child_stays_inside(path, line.name);
    assert(below.last() == line.name.last());
    assert(line.name.contains(line.name.last()));
    assert(normalized(below) == below);
}

} // verus!
