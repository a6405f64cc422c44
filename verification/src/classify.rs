//! Classification of discovered references.
//!
//! Each `href`/`src` value found on a page is resolved against the page's
//! own URL and sorted into a subpage to recurse into, a resource to
//! download, or a reference to ignore: off-domain targets, targets with a
//! fragment, and targets struck by the reject-extension or
//! exclude-directory filters.

use vstd::prelude::*;
use crate::strings::{list_contains, str_views, list_contains_str, contains_char, push_char};
use crate::urls::{
    resolve_of, resolve_reference, ext_of, extension_of, host_of, path_of, split_url,
    last_segment, basename_of,
};
use crate::paths::{parent_dir_spec, extract_parent_directory};

verus! {

/// What a discovered reference is to the crawl.
#[derive(Clone, Copy, Debug, PartialEq, Eq, Structural)]
pub enum RefClass {
    /// A same-domain page to recurse into.
    Subpage,
    /// A same-domain file to download once.
    Resource,
    /// A reference the crawl leaves alone.
    Ignored,
}

/// The reference's extension is in the reject set.
pub open spec fn rejected_by_ext(link: Seq<char>, reject: Seq<Seq<char>>) -> bool {
    match ext_of(link) {
        Some(e) => list_contains(reject, e),
        None => false,
    }
}

/// The reference's immediate parent directory is in the exclude set,
/// which names directories with a leading slash.
pub open spec fn excluded_by_dir(link: Seq<char>, exclude: Seq<Seq<char>>) -> bool {
    match parent_dir_spec(link) {
        Some(d) => list_contains(exclude, seq!['/'] + d),
        None => false,
    }
}

/// A resolved target that looks like a page rather than a file: it ends
/// in a slash, or its last path segment carries no extension.
pub open spec fn subpage_like(f: Seq<char>) -> bool {
    ||| (f.len() > 0 && f.last() == '/')
    ||| !last_segment(path_of(f)).contains('.')
}

/// How a reference found on the page at `page` is classified.
pub open spec fn classify_spec(
    page: Seq<char>,
    link: Seq<char>,
    reject: Seq<Seq<char>>,
    exclude: Seq<Seq<char>>,
) -> RefClass {
    if rejected_by_ext(link, reject) || excluded_by_dir(link, exclude) {
        RefClass::Ignored
    } else {
        match resolve_of(page, link) {
            Option::None => RefClass::Ignored,
            Option::Some(f) => {
                if f.contains('#') {
                    RefClass::Ignored
                } else if host_of(f) != host_of(page) || host_of(page).len() == 0 {
                    RefClass::Ignored
                } else if subpage_like(f) {
                    RefClass::Subpage
                } else {
                    RefClass::Resource
                }
            },
        }
    }
}

/// Classify a reference, returning also its resolved absolute URL where
/// the classification needed one.
pub fn classify_reference(
    page_url: &str,
    link: &str,
    reject: &Vec<String>,
    exclude: &Vec<String>,
) -> (r: (RefClass, Option<String>))
    ensures
        r.0 == classify_spec(page_url@, link@, str_views(reject@), str_views(exclude@)),
        r.0 != RefClass::Ignored ==> (match r.1 {
            Some(f) => resolve_of(page_url@, link@) == Some(f@),
            None => false,
        }),
{
    let rejected = match extension_of(link) {
        Some(e) => list_contains_str(reject, e.as_str()),
        None => false,
    };
    if rejected {
        return (RefClass::Ignored, None);
    }
    let excluded = match extract_parent_directory(link) {
        Some(d) => {
            let mut fp = String::new();
            push_char(&mut fp, '/');
            fp.append(d.as_str());
            proof {
                assert(fp@ =~= seq!['/'] + d@);
            }
            list_contains_str(exclude, fp.as_str())
        },
        None => false,
    };
    if excluded {
        return (RefClass::Ignored, None);
    }
    match resolve_reference(page_url, link) {
        Option::None => (RefClass::Ignored, None),
        Option::Some(f) => {
            if contains_char(f.as_str(), '#') {
                return (RefClass::Ignored, None);
            }
            let fparts = split_url(f.as_str());
            let pparts = split_url(page_url);
            if !(fparts.1 == pparts.1) || pparts.1.unicode_len() == 0 {
                return (RefClass::Ignored, None);
            }
            let n = f.as_str().unicode_len();
            let ends_slash = n > 0 && f.as_str().get_char(n - 1) == '/';
            let base = basename_of(fparts.2.as_str());
            if ends_slash || !contains_char(base.as_str(), '.') {
                (RefClass::Subpage, Some(f))
            } else {
                (RefClass::Resource, Some(f))
            }
        },
    }
}

} // verus!
