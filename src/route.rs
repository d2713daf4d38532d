use vstd::prelude::*;
use vstd::string::StringSliceAdditionalSpecFns;
use vstd::utf8::{encode_utf8, is_char_boundary};

verus! {

/// Finds the repository part of a request path: everything up to `.git`.
pub const PREFIX_PATTERN: &'static str = "(?P<prefix>/.*[.]git)/.*";

/// Finds the view text of a request path: between the first `/` and `.git/`.
pub const VIEW_PATTERN: &'static str = "/(?P<view>.*)[.]git/.*";

/// What the named group `group` of the first match of `pattern` in `hay`
/// holds; `None` where nothing matches or the pattern is not valid.
pub uninterp spec fn regex_group(pattern: Seq<char>, group: Seq<char>, hay: Seq<char>) -> Option<Seq<char>>;

pub open spec fn opt_chars(o: Option<String>) -> Option<Seq<char>> {
    match o {
        Some(s) => Some(s@),
        None => None,
    }
}

/// Relies on regex::Regex::new and regex::Regex::captures: compiles `pattern`
/// and hands back the text of group `group` in the first match in `hay`.
#[verifier::external_body]
fn capture_group(pattern: &str, group: &str, hay: &str) -> (r: Option<String>)
    ensures
        opt_chars(r) == regex_group(pattern@, group@, hay@),
{
    match regex::Regex::new(pattern) {
        Ok(re) => re.captures(hay).and_then(|c| c.name(group)).map(|m| m.as_str().to_string()),
        Err(_) => None,
    }
}

/// The view text for a captured group: the capture itself, or `.` (the
/// whole tree) where the path named no view.
pub open spec fn view_or_whole(cap: Option<Seq<char>>) -> Seq<char> {
    match cap {
        Some(v) => v,
        None => seq!['.'],
    }
}

/// The view text that a request path names, given what the view pattern captured.
pub fn view_from_capture(cap: Option<String>) -> (r: String)
    ensures
        r@ == view_or_whole(opt_chars(cap)),
{
    match cap {
        Some(v) => v,
        None => {
            let r = ".".to_owned();
            proof {
                reveal_strlit(".");
                assert(r@ =~= seq!['.']);
            }
            r
        },
    }
}

/// The view text of request path `path` (`/lib.git/info/refs` names `lib`).
pub fn view_of_path(path: &str) -> (r: String)
    ensures
        r@ == view_or_whole(regex_group(VIEW_PATTERN@, "view"@, path@)),
{
    let cap = capture_group(VIEW_PATTERN, "view", path);
    view_from_capture(cap)
}

pub open spec fn prefix_text(path: Seq<char>) -> Seq<char> {
    match regex_group(PREFIX_PATTERN@, "prefix"@, path) {
        Some(p) => p,
        None => Seq::empty(),
    }
}

/// The repository prefix of request path `path` (`/lib.git` for
/// `/lib.git/info/refs`); empty where there is none.
pub fn prefix_of_path(path: &str) -> (r: String)
    ensures
        r@ == prefix_text(path@),
{
    match capture_group(PREFIX_PATTERN, "prefix", path) {
        Some(p) => p,
        None => {
            let r = String::new();
            assert(r@ =~= Seq::<char>::empty());
            r
        },
    }
}

/// The part of `path` that follows `prefix`, where `path` starts with a
/// non-empty `prefix` that ends on a character; `path` itself otherwise.
pub open spec fn after_prefix(path: Seq<u8>, prefix: Seq<u8>) -> Seq<u8> {
    if 0 < prefix.len() <= path.len() && path.subrange(0, prefix.len() as int) == prefix
        && is_char_boundary(path, prefix.len() as int) {
        path.subrange(prefix.len() as int, path.len() as int)
    } else {
        path
    }
}

/// The path handed to the git backend: the request path without its repository prefix.
pub fn path_info<'a>(path: &'a str, prefix: &str) -> (r: &'a str)
    ensures
        r.spec_bytes() == after_prefix(path.spec_bytes(), prefix.spec_bytes()),
{
    let p = path.as_bytes();
    let q = prefix.as_bytes();
    let n = q.len();
    if n == 0 || n > p.len() {
        return path;
    }
    let mut i: usize = 0;
    while i < n
        invariant
            p@ == path.spec_bytes(),
            q@ == prefix.spec_bytes(),
            n == q@.len(),
            n <= p@.len(),
            0 <= i <= n,
            forall|k: int| 0 <= k < i ==> p@[k] == q@[k],
        decreases n - i,
    {
        if p[i] != q[i] {
            proof {
                assert(p@.subrange(0, n as int)[i as int] != q@[i as int]);
            }
            return path;
        }
        i = i + 1;
    }
    assert(p@.subrange(0, n as int) =~= q@);
    if !path.is_char_boundary(n) {
        return path;
    }
    let (_, rest) = path.split_at(n);
    rest
}

/// What the server does with a request.
pub enum Route {
    /// Ask for credentials: the answer is `401` with a Basic challenge.
    Unauthorized,
    /// Serve the request from the virtual repository of `view`.
    Serve { view: String, path_info: String, username: String, password: String },
}

/// Decides how to serve a request for `path` with the given Basic
/// credentials (a user name and, if any, a password).
pub fn route(path: &str, credentials: Option<(String, Option<String>)>) -> (r: Route)
    ensures
        credentials is None <==> r is Unauthorized,
        match (r, credentials) {
            (Route::Serve { view, path_info, username, password }, Some((u, pw))) => {
                &&& view@ == view_or_whole(regex_group(VIEW_PATTERN@, "view"@, path@))
                &&& username@ == u@
                &&& password@ == (match pw {
                    Some(x) => x@,
                    None => Seq::<char>::empty(),
                })
                &&& encode_utf8(path_info@) == after_prefix(
                    encode_utf8(path@),
                    encode_utf8(prefix_text(path@)),
                )
            },
            _ => true,
        },
{
    match credentials {
        None => Route::Unauthorized,
        Some((username, pw)) => {
            let password = match pw {
                Some(x) => x,
                None => {
                    let e = String::new();
                    assert(e@ =~= Seq::<char>::empty());
                    e
                },
            };
            let prefix = prefix_of_path(path);
            let info = path_info(path, prefix.as_str()).to_owned();
            let view = view_of_path(path);
            Route::Serve { view, path_info: info, username, password }
        },
    }
}

} // verus!
