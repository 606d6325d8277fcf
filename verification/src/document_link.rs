//! Document links: the path of every static `include` leads to the file that it
//! names.

use vstd::prelude::*;

use crate::paths::{resolve_target, resolved, FilePath};
use crate::rename_files::IncludeSite;
use crate::search::{kept, lemma_kept_from, lemma_kept_holds, lemma_kept_step};
use crate::text::{fits, range_at, LineIndex, PositionEncoding, Range};

verus! {

/// A link: the text that it covers, and the file that it leads to.
#[derive(Debug)]
pub struct DocumentLink {
    pub range: Range,
    pub target: FilePath,
}

/// What a [`DocumentLink`] says.
pub struct LinkView {
    pub range: Range,
    pub target: Seq<Seq<char>>,
}

impl DeepView for DocumentLink {
    type V = LinkView;

    open spec fn deep_view(&self) -> LinkView {
        LinkView { range: self.range, target: self.target.deep_view() }
    }
}

/// A path where there is one.
pub open spec fn path_view(path: Option<&FilePath>) -> Option<Seq<Seq<char>>> {
    match path {
        Some(path) => Some(path.deep_view()),
        None => None,
    }
}

/// The link of an include: from the path between the quotes to the file that it
/// names from the directory of the document. An empty path has none, nor has a
/// relative one where the document has no directory.
pub open spec fn include_link(
    s: Seq<char>,
    base: Option<Seq<Seq<char>>>,
    encoding: PositionEncoding,
) -> spec_fn(IncludeSite) -> Option<LinkView> {
    |site: IncludeSite|
        match (site.content, resolved(site.path@, base)) {
            (Some(content), Some(target)) => Some(
                LinkView {
                    range: range_at(s, content.start as int, content.end as int, encoding),
                    target,
                },
            ),
            _ => None,
        }
}

/// The links of `text`, given its static includes.
pub fn compute_document_links(
    text: &str,
    base_dir: Option<&FilePath>,
    sites: &Vec<IncludeSite>,
    encoding: PositionEncoding,
) -> (r: Vec<DocumentLink>)
    requires
        fits(text@),
    ensures
        r.deep_view() == kept(sites@, include_link(text@, path_view(base_dir), encoding)),
{
    let line_index = LineIndex::new(text);
    let ghost pick = include_link(text@, path_view(base_dir), encoding);
    let mut out: Vec<DocumentLink> = Vec::new();
    let mut i: usize = 0;
    proof {
        assert(sites@.take(0) =~= Seq::<IncludeSite>::empty());
        assert(out.deep_view() =~= Seq::<LinkView>::empty());
    }
    while i < sites.len()
        invariant
            line_index.wf(),
            line_index@ == text@,
            i <= sites.len(),
            pick == include_link(text@, path_view(base_dir), encoding),
            out.deep_view() == kept(sites@.take(i as int), pick),
        decreases sites.len() - i,
    {
        proof {
            lemma_kept_step(sites@, pick, i as int);
        }
        let site = &sites[i];
        i = i + 1;
        if let Some(content) = site.content {
            if let Some(target) = resolve_target(site.path.as_str(), base_dir) {
                let ghost before = out.deep_view();
                let range = line_index.range(
                    content.start as usize,
                    content.end as usize,
                    encoding,
                );
                out.push(DocumentLink { range, target });
                proof {
                    assert(out.deep_view() =~= before.push(out@.last().deep_view()));
                }
            }
        }
    }
    proof {
        assert(sites@.take(i as int) =~= sites@);
    }
    out
}

/// Every include whose path leads to a file, and whose quotes hold text, is a link to
/// that file from the text between the quotes; and every link is one of those.
pub proof fn law_includes_are_linked(
    s: Seq<char>,
    base: Option<Seq<Seq<char>>>,
    sites: Seq<IncludeSite>,
    encoding: PositionEncoding,
    k: int,
)
    ensures
        ({
            let links = kept(sites, include_link(s, base, encoding));
            let link = |site: IncludeSite|
                LinkView {
                    range: range_at(
                        s,
                        site.content->0.start as int,
                        site.content->0.end as int,
                        encoding,
                    ),
                    target: resolved(site.path@, base)->0,
                };
            &&& 0 <= k < sites.len() && sites[k].content is Some && resolved(
                sites[k].path@,
                base,
            ) is Some ==> links.contains(link(sites[k]))
            &&& 0 <= k < links.len() ==> exists|i: int|
                0 <= i < sites.len() && (#[trigger] sites[i]).content is Some && resolved(
                    sites[i].path@,
                    base,
                ) is Some && links[k] == link(sites[i])
        }),
{
    let f = include_link(s, base, encoding);
    let links = kept(sites, f);
    if 0 <= k < sites.len() && sites[k].content is Some && resolved(
        sites[k].path@,
        base,
    ) is Some {
        let j = lemma_kept_holds(sites, f, k);
    }
    if 0 <= k < links.len() {
        let i = lemma_kept_from(sites, f, k);
        assert(sites[i].content is Some);
    }
}

} // verus!
