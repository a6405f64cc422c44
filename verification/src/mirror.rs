//! Per-page planning and crawl state of the site mirror.
//!
//! For one fetched page, `plan_page` computes everything the crawl does
//! with it: the resources to download with their save paths, the subpage
//! URLs to enqueue, the rewritten markup when link conversion is on, and
//! where the page itself is persisted.  `MirrorState` carries the shared
//! visited record and the frontier of pending subpages; the surrounding
//! application performs the fetches and file writes the plan asks for.

use vstd::prelude::*;
use crate::strings::{str_views, list_contains, push_char};
use crate::paths::{normalize_path, clean_path_segments};
use crate::rewrite::{rewrite_delim, replace_all_spec, replace_exact_link, replace_all};
use crate::urls::{resolve_of, strip_scheme_spec, path_of, last_segment, split_url, basename_of, resolve_reference};
use crate::classify::{RefClass, classify_spec, rejected_by_ext, excluded_by_dir, classify_reference};
use crate::visited::VisitedSet;
use crate::stylesheet::{css_refs_spec, extract_css_refs};
use crate::scan::{links_of, styles_of, scan_link_attributes, scan_style_blocks};

verus! {

/// The crawl configuration of one mirror run, fixed for its duration.
pub struct MirrorConfig {
    /// Directory under which the mirror tree is laid out.
    pub output_root: String,
    /// Extensions whose references are rejected.
    pub reject_types: Vec<String>,
    /// Directories (named with a leading slash) whose references are
    /// excluded.
    pub exclude_dirs: Vec<String>,
    /// Whether in-page references are rewritten to the local copies.
    pub convert_links: bool,
}

/// The mathematical content of a configuration.
pub struct ConfigV {
    pub root: Seq<char>,
    pub reject: Seq<Seq<char>>,
    pub exclude: Seq<Seq<char>>,
    pub convert: bool,
}

impl View for MirrorConfig {
    type V = ConfigV;

    open spec fn view(&self) -> ConfigV {
        ConfigV {
            root: self.output_root@,
            reject: str_views(self.reject_types@),
            exclude: str_views(self.exclude_dirs@),
            convert: self.convert_links,
        }
    }
}

/// One resource download the plan asks for.
pub struct ResourceJob {
    /// Absolute URL to fetch.
    pub url: String,
    /// Path the body is saved at, under the output root.
    pub save_path: String,
}

impl View for ResourceJob {
    type V = (Seq<char>, Seq<char>);

    open spec fn view(&self) -> (Seq<char>, Seq<char>) {
        (self.url@, self.save_path@)
    }
}

/// The pairs (url, save path) of a job list.
pub open spec fn job_views(v: Seq<ResourceJob>) -> Seq<(Seq<char>, Seq<char>)> {
    v.map_values(|j: ResourceJob| j@)
}

/// Everything the crawl does with one fetched page.
pub struct PagePlan {
    /// The page's directory in the mirror tree.
    pub page_dir: String,
    /// Where the page's markup is persisted.
    pub index_path: String,
    /// The markup to persist: rewritten when link conversion is on, the
    /// fetched text otherwise.
    pub output_html: String,
    /// The resources to download, in discovery order.
    pub resources: Vec<ResourceJob>,
    /// The subpages to enqueue, in discovery order.
    pub subpages: Vec<String>,
}

/// The resolved target of a reference, or empty where resolution fails
/// (in which case the reference is classified `Ignored` and the target
/// is never used).
pub open spec fn target_of(page: Seq<char>, link: Seq<char>) -> Seq<char> {
    match resolve_of(page, link) {
        Option::Some(f) => f,
        Option::None => Seq::empty(),
    }
}

/// The canonical relative path a same-site target is keyed by: its URL
/// path after the domain, normalized.
pub open spec fn rel_path_spec(page: Seq<char>, link: Seq<char>) -> Seq<char> {
    normalize_path(path_of(target_of(page, link)))
}

/// The directory of a page in the mirror tree: the output root followed
/// by the page URL without its scheme, normalized.
pub open spec fn page_dir_spec(root: Seq<char>, page: Seq<char>) -> Seq<char> {
    normalize_path(root + seq!['/'] + strip_scheme_spec(page))
}

/// Where a page's markup is persisted.
pub open spec fn index_path_spec(root: Seq<char>, page: Seq<char>) -> Seq<char> {
    page_dir_spec(root, page) + seq!['/'] + "index.html"@
}

/// Where a resource reference of a page is saved.
pub open spec fn save_path_spec(root: Seq<char>, page: Seq<char>, link: Seq<char>) -> Seq<char> {
    page_dir_spec(root, page) + seq!['/'] + rel_path_spec(page, link)
}

/// The replacement written for a resource reference.
pub open spec fn resource_repl_spec(page: Seq<char>, link: Seq<char>) -> Seq<char> {
    seq!['.', '/'] + rel_path_spec(page, link)
}

/// The replacement written for a subpage reference.
pub open spec fn subpage_repl_spec(page: Seq<char>, link: Seq<char>) -> Seq<char> {
    seq!['.', '/'] + rel_path_spec(page, link) + seq!['/'] + "index.html"@
}

/// How a reference of this page is classified under this configuration.
pub open spec fn class_of(page: Seq<char>, link: Seq<char>, c: ConfigV) -> RefClass {
    classify_spec(page, link, c.reject, c.exclude)
}

/// The markup after one reference is dispatched.
pub open spec fn step_html(h: Seq<char>, page: Seq<char>, link: Seq<char>, c: ConfigV) -> Seq<
    char,
> {
    if !c.convert {
        h
    } else {
        match class_of(page, link, c) {
            RefClass::Subpage => rewrite_delim(
                h,
                link,
                normalize_path(subpage_repl_spec(page, link)),
            ),
            RefClass::Resource => rewrite_delim(
                h,
                link,
                normalize_path(resource_repl_spec(page, link)),
            ),
            RefClass::Ignored => h,
        }
    }
}

/// The download jobs one reference contributes.
pub open spec fn step_jobs(page: Seq<char>, link: Seq<char>, c: ConfigV) -> Seq<
    (Seq<char>, Seq<char>),
> {
    if class_of(page, link, c) == RefClass::Resource {
        seq![(target_of(page, link), save_path_spec(c.root, page, link))]
    } else {
        Seq::empty()
    }
}

/// The subpage URLs one reference contributes.
pub open spec fn step_subs(page: Seq<char>, link: Seq<char>, c: ConfigV) -> Seq<Seq<char>> {
    if class_of(page, link, c) == RefClass::Subpage {
        seq![target_of(page, link)]
    } else {
        Seq::empty()
    }
}

/// The markup after all discovered references are dispatched, in order.
pub open spec fn dispatch_html(
    h: Seq<char>,
    page: Seq<char>,
    links: Seq<Seq<char>>,
    c: ConfigV,
) -> Seq<char>
    decreases links.len(),
{
    if links.len() == 0 {
        h
    } else {
        dispatch_html(step_html(h, page, links[0], c), page, links.drop_first(), c)
    }
}

/// The download jobs of all discovered references, in order.
pub open spec fn dispatch_jobs(page: Seq<char>, links: Seq<Seq<char>>, c: ConfigV) -> Seq<
    (Seq<char>, Seq<char>),
>
    decreases links.len(),
{
    if links.len() == 0 {
        Seq::empty()
    } else {
        step_jobs(page, links[0], c) + dispatch_jobs(page, links.drop_first(), c)
    }
}

/// The subpage URLs of all discovered references, in order.
pub open spec fn dispatch_subs(page: Seq<char>, links: Seq<Seq<char>>, c: ConfigV) -> Seq<
    Seq<char>,
>
    decreases links.len(),
{
    if links.len() == 0 {
        Seq::empty()
    } else {
        step_subs(page, links[0], c) + dispatch_subs(page, links.drop_first(), c)
    }
}

/// Stylesheet text with each reference replaced by its bare filename, in
/// order.
pub open spec fn css_rewrite(t: Seq<char>, refs: Seq<Seq<char>>) -> Seq<char>
    decreases refs.len(),
{
    if refs.len() == 0 {
        t
    } else {
        css_rewrite(replace_all_spec(t, refs[0], last_segment(refs[0])), refs.drop_first())
    }
}

/// The download jobs of a stylesheet's references: each resolved target,
/// saved in the page's directory under the reference's final segment.
pub open spec fn css_jobs(page: Seq<char>, dir: Seq<char>, refs: Seq<Seq<char>>) -> Seq<
    (Seq<char>, Seq<char>),
>
    decreases refs.len(),
{
    if refs.len() == 0 {
        Seq::empty()
    } else {
        (match resolve_of(page, refs[0]) {
            Option::Some(f) => seq![(f, dir + seq!['/'] + last_segment(refs[0]))],
            Option::None => Seq::empty(),
        }) + css_jobs(page, dir, refs.drop_first())
    }
}

/// The markup after each inline stylesheet block is replaced by its
/// rewritten text.
pub open spec fn styles_html(h: Seq<char>, styles: Seq<Seq<char>>) -> Seq<char>
    decreases styles.len(),
{
    if styles.len() == 0 {
        h
    } else {
        styles_html(
            replace_all_spec(h, styles[0], css_rewrite(styles[0], css_refs_spec(styles[0]))),
            styles.drop_first(),
        )
    }
}

/// The download jobs of all inline stylesheet blocks.
pub open spec fn styles_jobs(page: Seq<char>, dir: Seq<char>, styles: Seq<Seq<char>>) -> Seq<
    (Seq<char>, Seq<char>),
>
    decreases styles.len(),
{
    if styles.len() == 0 {
        Seq::empty()
    } else {
        css_jobs(page, dir, css_refs_spec(styles[0])) + styles_jobs(
            page,
            dir,
            styles.drop_first(),
        )
    }
}

/// The markup a page is persisted with.
pub open spec fn output_html_spec(page: Seq<char>, html: Seq<char>, c: ConfigV) -> Seq<char> {
    if c.convert {
        styles_html(dispatch_html(html, page, links_of(html), c), styles_of(html))
    } else {
        html
    }
}

/// All download jobs of a page: its reference resources, then its
/// stylesheet resources.
pub open spec fn plan_jobs_spec(page: Seq<char>, html: Seq<char>, c: ConfigV) -> Seq<
    (Seq<char>, Seq<char>),
> {
    dispatch_jobs(page, links_of(html), c) + styles_jobs(
        page,
        page_dir_spec(c.root, page),
        styles_of(html),
    )
}

/// The subpage URLs a page contributes to the frontier.
pub open spec fn plan_subs_spec(page: Seq<char>, html: Seq<char>, c: ConfigV) -> Seq<Seq<char>> {
    dispatch_subs(page, links_of(html), c)
}

/// Compute everything the crawl does with one fetched page.  Every part
/// of the result is a function of the page URL, the fetched markup and
/// the configuration alone, so repeated runs against an unchanged site
/// persist byte-identical output at identical paths.
pub fn plan_page(page_url: &str, html: &str, cfg: &MirrorConfig) -> (p: PagePlan)
    ensures
        p.page_dir@ == page_dir_spec(cfg@.root, page_url@),
        p.index_path@ == index_path_spec(cfg@.root, page_url@),
        p.output_html@ == output_html_spec(page_url@, html@, cfg@),
        job_views(p.resources@) == plan_jobs_spec(page_url@, html@, cfg@),
        str_views(p.subpages@) == plan_subs_spec(page_url@, html@, cfg@),
{
    let ghost c = cfg@;
    let parts = split_url(page_url);
    let mut d = String::new();
    d.append(cfg.output_root.as_str());
    push_char(&mut d, '/');
    d.append(parts.0.as_str());
    proof {
        assert(d@ =~= c.root + seq!['/'] + strip_scheme_spec(page_url@));
    }
    let page_dir = clean_path_segments(d.as_str());
    proof {
        assert(page_dir@ == page_dir_spec(c.root, page_url@));
    }
    let mut index_path = page_dir.clone();
    push_char(&mut index_path, '/');
    index_path.append("index.html");
    proof {
        assert(index_path@ =~= index_path_spec(c.root, page_url@));
    }
    let links = scan_link_attributes(html);
    let styles = scan_style_blocks(html);
    let mut h = html.to_owned();
    let mut resources: Vec<ResourceJob> = Vec::new();
    let mut subpages: Vec<String> = Vec::new();
    let ghost lv = str_views(links@);
    let mut i: usize = 0;
    proof {
        assert(lv.skip(0) =~= lv);
        assert(job_views(resources@) + dispatch_jobs(page_url@, lv, c) =~= dispatch_jobs(
            page_url@,
            lv,
            c,
        ));
        assert(str_views(subpages@) + dispatch_subs(page_url@, lv, c) =~= dispatch_subs(
            page_url@,
            lv,
            c,
        ));
    }
    while i < links.len()
        invariant
            i <= links@.len(),
            lv == str_views(links@),
            lv == links_of(html@),
            c == cfg@,
            page_dir@ == page_dir_spec(c.root, page_url@),
            dispatch_html(html@, page_url@, lv, c) == dispatch_html(
                h@,
                page_url@,
                lv.skip(i as int),
                c,
            ),
            dispatch_jobs(page_url@, lv, c) == job_views(resources@) + dispatch_jobs(
                page_url@,
                lv.skip(i as int),
                c,
            ),
            dispatch_subs(page_url@, lv, c) == str_views(subpages@) + dispatch_subs(
                page_url@,
                lv.skip(i as int),
                c,
            ),
        decreases links@.len() - i,
    {
        let ghost rest = lv.skip(i as int);
        proof {
            assert(rest[0] == links@[i as int]@);
            assert(rest.drop_first() =~= lv.skip(i as int + 1));
        }
        let link = links[i].clone();
        let cr = classify_reference(page_url, link.as_str(), &cfg.reject_types, &cfg.exclude_dirs);
        proof {
            assert(cr.0 == class_of(page_url@, rest[0], c));
        }
        let ghost h0 = h@;
        let ghost jobs0 = job_views(resources@);
        let ghost subs0 = str_views(subpages@);
        match cr.0 {
            RefClass::Ignored => {
                proof {
                    assert(step_html(h0, page_url@, rest[0], c) == h0);
                    assert(step_jobs(page_url@, rest[0], c) =~= Seq::<(Seq<char>, Seq<char>)>::empty());
                    assert(step_subs(page_url@, rest[0], c) =~= Seq::<Seq<char>>::empty());
                    assert(dispatch_html(h0, page_url@, rest, c) == dispatch_html(
                        h@,
                        page_url@,
                        rest.drop_first(),
                        c,
                    ));
                    assert(dispatch_jobs(page_url@, rest, c) =~= dispatch_jobs(
                        page_url@,
                        rest.drop_first(),
                        c,
                    ));
                    assert(dispatch_subs(page_url@, rest, c) =~= dispatch_subs(
                        page_url@,
                        rest.drop_first(),
                        c,
                    ));
                }
            },
            RefClass::Resource => {
                let f = match cr.1 {
                    Option::Some(f) => f,
                    Option::None => {
                        proof {
                            assert(false);
                        }
                        String::new()
                    },
                };
                proof {
                    assert(target_of(page_url@, rest[0]) == f@);
                }
                let fparts = split_url(f.as_str());
                let rel = clean_path_segments(fparts.2.as_str());
                proof {
                    assert(rel@ == rel_path_spec(page_url@, rest[0]));
                }
                let mut sp = page_dir.clone();
                push_char(&mut sp, '/');
                sp.append(rel.as_str());
                proof {
                    assert(sp@ =~= page_dir@ + seq!['/'] + rel@);
                    assert(page_dir@ + seq!['/'] + rel@ == save_path_spec(
                        c.root,
                        page_url@,
                        rest[0],
                    ));
                }
                let ghost fv = f@;
                let ghost spv = sp@;
                if cfg.convert_links {
                    let mut repl = String::new();
                    push_char(&mut repl, '.');
                    push_char(&mut repl, '/');
                    repl.append(rel.as_str());
                    proof {
                        assert(repl@ =~= resource_repl_spec(page_url@, rest[0]));
                    }
                    let h2 = replace_exact_link(h.as_str(), link.as_str(), repl.as_str());
                    h = h2;
                    proof {
                        assert(h@ == step_html(h0, page_url@, rest[0], c));
                    }
                } else {
                    proof {
                        assert(h@ == step_html(h0, page_url@, rest[0], c));
                    }
                }
                let job = ResourceJob { url: f, save_path: sp };
                resources.push(job);
                proof {
                    assert(job_views(resources@) =~= jobs0.push((fv, spv)));
                    assert(step_jobs(page_url@, rest[0], c) == seq![(fv, spv)]);
                    assert(jobs0.push((fv, spv)) =~= jobs0 + seq![(fv, spv)]);
                    assert(dispatch_html(h0, page_url@, rest, c) == dispatch_html(
                        h@,
                        page_url@,
                        rest.drop_first(),
                        c,
                    ));
                    assert(dispatch_jobs(page_url@, rest, c) =~= seq![(fv, spv)] + dispatch_jobs(
                        page_url@,
                        rest.drop_first(),
                        c,
                    ));
                    assert(step_subs(page_url@, rest[0], c) =~= Seq::<Seq<char>>::empty());
                    assert(dispatch_subs(page_url@, rest, c) =~= dispatch_subs(
                        page_url@,
                        rest.drop_first(),
                        c,
                    ));
                }
            },
            RefClass::Subpage => {
                let f = match cr.1 {
                    Option::Some(f) => f,
                    Option::None => {
                        proof {
                            assert(false);
                        }
                        String::new()
                    },
                };
                proof {
                    assert(target_of(page_url@, rest[0]) == f@);
                }
                let ghost fv = f@;
                if cfg.convert_links {
                    let fparts = split_url(f.as_str());
                    let rel = clean_path_segments(fparts.2.as_str());
                    proof {
                        assert(rel@ == rel_path_spec(page_url@, rest[0]));
                    }
                    let mut repl = String::new();
                    push_char(&mut repl, '.');
                    push_char(&mut repl, '/');
                    repl.append(rel.as_str());
                    push_char(&mut repl, '/');
                    repl.append("index.html");
                    proof {
                        assert(repl@ =~= subpage_repl_spec(page_url@, rest[0]));
                    }
                    let h2 = replace_exact_link(h.as_str(), link.as_str(), repl.as_str());
                    h = h2;
                    proof {
                        assert(h@ == step_html(h0, page_url@, rest[0], c));
                    }
                } else {
                    proof {
                        assert(h@ == step_html(h0, page_url@, rest[0], c));
                    }
                }
                subpages.push(f);
                proof {
                    assert(str_views(subpages@) =~= subs0.push(fv));
                    assert(step_subs(page_url@, rest[0], c) == seq![fv]);
                    assert(subs0.push(fv) =~= subs0 + seq![fv]);
                    assert(dispatch_html(h0, page_url@, rest, c) == dispatch_html(
                        h@,
                        page_url@,
                        rest.drop_first(),
                        c,
                    ));
                    assert(step_jobs(page_url@, rest[0], c) =~= Seq::<(Seq<char>, Seq<char>)>::empty());
                    assert(dispatch_jobs(page_url@, rest, c) =~= dispatch_jobs(
                        page_url@,
                        rest.drop_first(),
                        c,
                    ));
                    assert(dispatch_subs(page_url@, rest, c) =~= seq![fv] + dispatch_subs(
                        page_url@,
                        rest.drop_first(),
                        c,
                    ));
                }
            },
        }
        proof {
            assert(dispatch_html(html@, page_url@, lv, c) == dispatch_html(
                h@,
                page_url@,
                lv.skip(i as int + 1),
                c,
            ));
            assert(dispatch_jobs(page_url@, lv, c) =~= job_views(resources@) + dispatch_jobs(
                page_url@,
                lv.skip(i as int + 1),
                c,
            ));
            assert(dispatch_subs(page_url@, lv, c) =~= str_views(subpages@) + dispatch_subs(
                page_url@,
                lv.skip(i as int + 1),
                c,
            ));
        }
        i = i + 1;
    }
    proof {
        assert(lv.skip(links@.len() as int) =~= Seq::<Seq<char>>::empty());
        assert(dispatch_html(html@, page_url@, lv, c) == h@);
        assert(job_views(resources@) =~= dispatch_jobs(page_url@, lv, c));
        assert(str_views(subpages@) =~= dispatch_subs(page_url@, lv, c));
    }
    // inline stylesheet blocks
    let ghost sv = str_views(styles@);
    let ghost h_links = h@;
    let ghost jobs_links = job_views(resources@);
    let ghost pd = page_dir_spec(c.root, page_url@);
    let mut k: usize = 0;
    proof {
        assert(sv.skip(0) =~= sv);
        assert(jobs_links + styles_jobs(page_url@, pd, sv) =~= job_views(resources@)
            + styles_jobs(page_url@, pd, sv));
    }
    while k < styles.len()
        invariant
            k <= styles@.len(),
            sv == str_views(styles@),
            sv == styles_of(html@),
            c == cfg@,
            page_dir@ == pd,
            styles_html(h_links, sv) == styles_html(h@, sv.skip(k as int)),
            jobs_links + styles_jobs(page_url@, pd, sv) == job_views(resources@) + styles_jobs(
                page_url@,
                pd,
                sv.skip(k as int),
            ),
        decreases styles@.len() - k,
    {
        let ghost srest = sv.skip(k as int);
        proof {
            assert(srest[0] == styles@[k as int]@);
            assert(srest.drop_first() =~= sv.skip(k as int + 1));
        }
        let s = styles[k].clone();
        let refs = extract_css_refs(s.as_str());
        let mut css = s.clone();
        let ghost rv = str_views(refs@);
        let mut r: usize = 0;
        let ghost jobs_style = job_views(resources@);
        proof {
            assert(rv.skip(0) =~= rv);
            assert(jobs_style + css_jobs(page_url@, pd, rv) =~= job_views(resources@) + css_jobs(
                page_url@,
                pd,
                rv,
            ));
        }
        while r < refs.len()
            invariant
                r <= refs@.len(),
                rv == str_views(refs@),
                c == cfg@,
                page_dir@ == pd,
                s@ == srest[0],
                css_rewrite(s@, rv) == css_rewrite(css@, rv.skip(r as int)),
                jobs_style + css_jobs(page_url@, pd, rv) == job_views(resources@) + css_jobs(
                    page_url@,
                    pd,
                    rv.skip(r as int),
                ),
            decreases refs@.len() - r,
        {
            let ghost rrest = rv.skip(r as int);
            proof {
                assert(rrest[0] == refs@[r as int]@);
                assert(rrest.drop_first() =~= rv.skip(r as int + 1));
            }
            let ref_s = refs[r].clone();
            let base = basename_of(ref_s.as_str());
            let ghost css0 = css@;
            let css2 = replace_all(css.as_str(), ref_s.as_str(), base.as_str());
            css = css2;
            proof {
                assert(css@ == replace_all_spec(css0, rrest[0], last_segment(rrest[0])));
                assert(css_rewrite(css0, rrest) == css_rewrite(css@, rrest.drop_first()));
            }
            let ghost jobs1 = job_views(resources@);
            match resolve_reference(page_url, ref_s.as_str()) {
                Option::Some(f) => {
                    let ghost fv = f@;
                    let mut spath = page_dir.clone();
                    push_char(&mut spath, '/');
                    spath.append(base.as_str());
                    let ghost spv = spath@;
                    proof {
                        assert(spv =~= pd + seq!['/'] + last_segment(rrest[0]));
                    }
                    let job = ResourceJob { url: f, save_path: spath };
                    resources.push(job);
                    proof {
                        assert(job_views(resources@) =~= jobs1.push((fv, spv)));
                        assert(jobs1.push((fv, spv)) =~= jobs1 + seq![(fv, spv)]);
                        assert(css_jobs(page_url@, pd, rrest) =~= seq![(fv, spv)] + css_jobs(
                            page_url@,
                            pd,
                            rrest.drop_first(),
                        ));
                    }
                },
                Option::None => {
                    proof {
                        assert(css_jobs(page_url@, pd, rrest) =~= css_jobs(
                            page_url@,
                            pd,
                            rrest.drop_first(),
                        ));
                    }
                },
            }
            proof {
                assert(css_rewrite(s@, rv) == css_rewrite(css@, rv.skip(r as int + 1)));
                assert(jobs_style + css_jobs(page_url@, pd, rv) =~= job_views(resources@)
                    + css_jobs(page_url@, pd, rv.skip(r as int + 1)));
            }
            r = r + 1;
        }
        proof {
            assert(rv.skip(refs@.len() as int) =~= Seq::<Seq<char>>::empty());
            assert(css@ == css_rewrite(s@, rv));
            assert(rv == css_refs_spec(s@));
            assert(job_views(resources@) =~= jobs_style + css_jobs(page_url@, pd, rv));
        }
        let ghost h0 = h@;
        let h2 = replace_all(h.as_str(), s.as_str(), css.as_str());
        h = h2;
        proof {
            assert(h@ == replace_all_spec(h0, srest[0], css_rewrite(srest[0], css_refs_spec(
                srest[0],
            ))));
            assert(styles_html(h0, srest) == styles_html(h@, srest.drop_first()));
            assert(css_jobs(page_url@, pd, rv) == css_jobs(page_url@, pd, css_refs_spec(
                srest[0],
            )));
            assert(styles_jobs(page_url@, pd, srest) =~= css_jobs(page_url@, pd, css_refs_spec(
                srest[0],
            )) + styles_jobs(page_url@, pd, srest.drop_first()));
            assert(styles_html(h_links, sv) == styles_html(h@, sv.skip(k as int + 1)));
            assert(jobs_links + styles_jobs(page_url@, pd, sv) =~= job_views(resources@)
                + styles_jobs(page_url@, pd, sv.skip(k as int + 1)));
        }
        k = k + 1;
    }
    proof {
        assert(sv.skip(styles@.len() as int) =~= Seq::<Seq<char>>::empty());
        assert(styles_html(h_links, sv) == h@);
        assert(job_views(resources@) =~= jobs_links + styles_jobs(page_url@, pd, sv));
        assert(job_views(resources@) =~= plan_jobs_spec(page_url@, html@, c));
    }
    let output_html = if cfg.convert_links {
        h
    } else {
        html.to_owned()
    };
    proof {
        assert(output_html@ == output_html_spec(page_url@, html@, c));
    }
    PagePlan { page_dir, index_path, output_html, resources, subpages }
}

/// Every part of a page's plan is a function of the page URL, the
/// fetched markup and the configuration alone.  So two mirror runs over
/// an unchanged site persist byte-identical markup at identical paths:
/// `plan_page` pins each of its results to exactly these functions.
pub proof fn lemma_plan_deterministic(
    page: Seq<char>,
    html: Seq<char>,
    c: ConfigV,
    out1: Seq<char>,
    out2: Seq<char>,
    path1: Seq<char>,
    path2: Seq<char>,
    jobs1: Seq<(Seq<char>, Seq<char>)>,
    jobs2: Seq<(Seq<char>, Seq<char>)>,
)
    requires
        out1 == output_html_spec(page, html, c),
        out2 == output_html_spec(page, html, c),
        path1 == index_path_spec(c.root, page),
        path2 == index_path_spec(c.root, page),
        jobs1 == plan_jobs_spec(page, html, c),
        jobs2 == plan_jobs_spec(page, html, c),
    ensures
        out1 == out2,
        path1 == path2,
        jobs1 == jobs2,
{
}

/// A reference struck by the reject-extension or exclude-directory
/// filter contributes nothing to a page's plan: it is never downloaded,
/// never rewritten, and never joins the frontier.  Dropping it from the
/// discovered links leaves every part of the dispatch unchanged.
pub proof fn lemma_filtered_reference_inert(
    h: Seq<char>,
    page: Seq<char>,
    links: Seq<Seq<char>>,
    c: ConfigV,
    i: int,
)
    requires
        0 <= i < links.len(),
        rejected_by_ext(links[i], c.reject) || excluded_by_dir(links[i], c.exclude),
    ensures
        dispatch_html(h, page, links, c) == dispatch_html(h, page, links.remove(i), c),
        dispatch_jobs(page, links, c) == dispatch_jobs(page, links.remove(i), c),
        dispatch_subs(page, links, c) == dispatch_subs(page, links.remove(i), c),
    decreases links.len(), 1int,
{
    assert(class_of(page, links[i], c) == RefClass::Ignored);
    if i == 0 {
        assert(links.remove(0) =~= links.drop_first());
        assert(step_html(h, page, links[0], c) == h);
        assert(step_jobs(page, links[0], c) =~= Seq::<(Seq<char>, Seq<char>)>::empty());
        assert(step_subs(page, links[0], c) =~= Seq::<Seq<char>>::empty());
        assert(dispatch_jobs(page, links, c) =~= dispatch_jobs(page, links.drop_first(), c));
        assert(dispatch_subs(page, links, c) =~= dispatch_subs(page, links.drop_first(), c));
    } else {
        let tail = links.drop_first();
        assert(tail[i - 1] == links[i]);
        lemma_filtered_reference_inert(step_html(h, page, links[0], c), page, tail, c, i - 1);
        lemma_filtered_reference_inert_jobs_helper(page, links, c, i);
        assert(links.remove(i)[0] == links[0]);
        assert(links.remove(i).drop_first() =~= tail.remove(i - 1));
        assert(dispatch_html(h, page, links.remove(i), c) == dispatch_html(
            step_html(h, page, links[0], c),
            page,
            tail.remove(i - 1),
            c,
        ));
        assert(dispatch_jobs(page, links.remove(i), c) =~= step_jobs(page, links[0], c)
            + dispatch_jobs(page, tail.remove(i - 1), c));
        assert(dispatch_subs(page, links.remove(i), c) =~= step_subs(page, links[0], c)
            + dispatch_subs(page, tail.remove(i - 1), c));
    }
}

/// Helper: the job and subpage folds over the tail, used by the
/// induction above.
proof fn lemma_filtered_reference_inert_jobs_helper(
    page: Seq<char>,
    links: Seq<Seq<char>>,
    c: ConfigV,
    i: int,
)
    requires
        1 <= i < links.len(),
        rejected_by_ext(links[i], c.reject) || excluded_by_dir(links[i], c.exclude),
    ensures
        dispatch_jobs(page, links.drop_first(), c) == dispatch_jobs(
            page,
            links.drop_first().remove(i - 1),
            c,
        ),
        dispatch_subs(page, links.drop_first(), c) == dispatch_subs(
            page,
            links.drop_first().remove(i - 1),
            c,
        ),
    decreases links.len(), 0int,
{
    let tail = links.drop_first();
    assert(tail[i - 1] == links[i]);
    lemma_filtered_reference_inert(Seq::empty(), page, tail, c, i - 1);
}

/// The shared state of one mirror run: the visited record, the frontier
/// of pending subpage URLs, and the fixed configuration.
pub struct MirrorState {
    /// URLs already handed out for processing.
    pub visited: VisitedSet,
    /// Pending subpage URLs, in discovery order.
    pub frontier: Vec<String>,
    /// The run's configuration.
    pub config: MirrorConfig,
}

impl MirrorState {
    /// A fresh crawl whose frontier holds the seed URL alone.
    pub fn new(seed: &str, config: MirrorConfig) -> (s: Self)
        ensures
            s.visited@ == Set::<Seq<char>>::empty(),
            str_views(s.frontier@) == seq![seed@],
            s.config == config,
    {
        let mut frontier: Vec<String> = Vec::new();
        frontier.push(seed.to_owned());
        let s = MirrorState { visited: VisitedSet::new(), frontier, config };
        proof {
            assert(str_views(s.frontier@) =~= seq![seed@]);
        }
        s
    }

    /// Hand out the next URL to process: the first pending URL not yet
    /// visited, marked visited by the same step.  URLs already visited
    /// are dropped from the frontier unprocessed, so no URL is ever
    /// handed out twice.
    pub fn next_url(&mut self) -> (r: Option<String>)
        ensures
            final(self).config == old(self).config,
            match r {
                Option::Some(u) => {
                    &&& !old(self).visited@.contains(u@)
                    &&& final(self).visited@ == old(self).visited@.insert(u@)
                    &&& list_contains(str_views(old(self).frontier@), u@)
                    &&& exists|k: int|
                        1 <= k <= old(self).frontier@.len() && str_views(
                            final(self).frontier@,
                        ) == str_views(old(self).frontier@).skip(k) && str_views(
                            old(self).frontier@,
                        )[k - 1] == u@
                },
                Option::None => {
                    &&& final(self).visited@ == old(self).visited@
                    &&& final(self).frontier@.len() == 0
                    &&& forall|j: int|
                        0 <= j < old(self).frontier@.len() ==> old(self).visited@.contains(
                            str_views(old(self).frontier@)[j],
                        )
                },
            },
    {
        let ghost fv0 = str_views(old(self).frontier@);
        let ghost mut k: int = 0;
        loop
            invariant
                self.config == old(self).config,
                self.visited@ == old(self).visited@,
                0 <= k <= fv0.len(),
                fv0 == str_views(old(self).frontier@),
                str_views(self.frontier@) == fv0.skip(k),
                forall|j: int| 0 <= j < k ==> old(self).visited@.contains(fv0[j]),
            decreases self.frontier@.len(),
        {
            if self.frontier.len() == 0 {
                proof {
                    assert(fv0.skip(k) =~= Seq::<Seq<char>>::empty());
                    assert(k == fv0.len());
                }
                return None;
            }
            let u = self.frontier.remove(0);
            proof {
                assert(str_views(self.frontier@) =~= fv0.skip(k).drop_first());
                assert(fv0.skip(k).drop_first() =~= fv0.skip(k + 1));
                assert(u@ == fv0.skip(k)[0]);
                assert(u@ == fv0[k]);
            }
            let fresh = self.visited.visit(u.as_str());
            if fresh {
                proof {
                    assert(list_contains(fv0, u@));
                }
                return Some(u);
            }
            proof {
                k = k + 1;
            }
        }
    }

    /// Take in one fetched page: compute its plan and enqueue its
    /// subpages, in discovery order, behind the pending ones.
    pub fn on_page(&mut self, page_url: &str, html: &str) -> (p: PagePlan)
        ensures
            final(self).visited == old(self).visited,
            final(self).config == old(self).config,
            p.page_dir@ == page_dir_spec(old(self).config@.root, page_url@),
            p.index_path@ == index_path_spec(old(self).config@.root, page_url@),
            p.output_html@ == output_html_spec(page_url@, html@, old(self).config@),
            job_views(p.resources@) == plan_jobs_spec(page_url@, html@, old(self).config@),
            str_views(p.subpages@) == plan_subs_spec(page_url@, html@, old(self).config@),
            str_views(final(self).frontier@) == str_views(old(self).frontier@) + plan_subs_spec(
                page_url@,
                html@,
                old(self).config@,
            ),
    {
        let p = plan_page(page_url, html, &self.config);
        let ghost f0 = str_views(self.frontier@);
        let ghost pv = str_views(p.subpages@);
        let mut i: usize = 0;
        proof {
            assert(pv.take(0) =~= Seq::<Seq<char>>::empty());
            assert(f0 + pv.take(0) =~= f0);
        }
        while i < p.subpages.len()
            invariant
                i <= p.subpages@.len(),
                pv == str_views(p.subpages@),
                self.config == old(self).config,
                self.visited == old(self).visited,
                str_views(self.frontier@) == f0 + pv.take(i as int),
            decreases p.subpages@.len() - i,
        {
            let ghost fprev = str_views(self.frontier@);
            let u = p.subpages[i].clone();
            let ghost uv = u@;
            self.frontier.push(u);
            i = i + 1;
            proof {
                assert(uv == pv[i - 1]);
                assert(str_views(self.frontier@) =~= fprev.push(uv));
                assert(fprev.push(uv) =~= f0 + pv.take(i as int));
            }
        }
        proof {
            assert(pv.take(p.subpages@.len() as int) =~= pv);
        }
        p
    }
}

} // verus!
