//! Backlink aggregation: which notes of a vault reference a given note.
//!
//! Every visible `.md` file of the snapshot is parsed; a file contributes a
//! group when at least one of its references targets the queried note
//! (matching the target's last path segment case-insensitively). A note
//! never backlinks itself: a file whose own name matches the query is
//! skipped.

use vstd::prelude::*;

verus! {

use crate::fsmodel::{
    FsEntry, is_hidden_name, is_hidden, is_md_name, is_md, md_stem, stem_of, lower_of, lowercase,
    spec_join, join_path, strip_folder, find_after_last_slash, entry_name, joins_chain,
    all_not_hidden,
};
use crate::links::{WikiLink, LinkModel, links_of, links_views, parse_wiki_links};
use crate::unicode::chars_vec;
use crate::vault::FsResult;
use vstd::string::{StrSliceExecFns, StringExecFns};

/// One source note and its references to the queried note.
#[derive(Debug, Clone, PartialEq, Eq)]
pub struct BacklinkInfo {
    /// Path of the source note.
    pub source_path: String,
    /// Name of the source note (no extension).
    pub source_name: String,
    /// The source note's references whose target matches the queried note.
    pub links: Vec<WikiLink>,
}

/// Mathematical view of one backlink group.
pub struct BacklinkModel {
    pub source_path: Seq<char>,
    pub source_name: Seq<char>,
    pub links: Seq<LinkModel>,
}

impl View for BacklinkInfo {
    type V = BacklinkModel;

    open spec fn view(&self) -> BacklinkModel {
        BacklinkModel {
            source_path: self.source_path@,
            source_name: self.source_name@,
            links: links_views(self.links@),
        }
    }
}

pub open spec fn groups_views(v: Seq<BacklinkInfo>) -> Seq<BacklinkModel> {
    v.map_values(|g: BacklinkInfo| g@)
}

/// The references among `ls[k..]` whose target, folder prefix stripped,
/// matches the query `q` case-insensitively.
pub open spec fn matching_from(ls: Seq<LinkModel>, k: int, q: Seq<char>) -> Seq<LinkModel>
    decreases ls.len() - k,
{
    if k < 0 || k >= ls.len() {
        Seq::empty()
    } else {
        let rest = matching_from(ls, k + 1, q);
        if lower_of(strip_folder(ls[k].target)) == lower_of(q) {
            seq![ls[k]] + rest
        } else {
            rest
        }
    }
}

/// The backlink groups that walking `entries[k..]` of the directory `dir`
/// contributes, in traversal order: directories are expanded in place, and a
/// visible `.md` file other than the queried note itself contributes a group
/// when it has at least one matching reference.
pub open spec fn backlinks_from(
    entries: Seq<FsEntry>,
    k: int,
    dir: Seq<char>,
    q: Seq<char>,
) -> Seq<BacklinkModel>
    decreases entries, entries.len() - k,
{
    if k < 0 || k >= entries.len() {
        Seq::empty()
    } else {
        let e = entries[k];
        let rest = backlinks_from(entries, k + 1, dir, q);
        let here = if is_hidden_name(e.name_chars()) {
            Seq::empty()
        } else {
            match e {
                FsEntry::Dir { name, entries: sub, .. } => backlinks_from(
                    sub@,
                    0,
                    spec_join(dir, name@),
                    q,
                ),
                FsEntry::File { name, content, .. } => {
                    if is_md_name(name@) && lower_of(md_stem(name@)) != q {
                        let ml = matching_from(links_of(content@), 0, q);
                        if ml.len() > 0 {
                            seq![
                                BacklinkModel {
                                    source_path: spec_join(dir, name@),
                                    source_name: md_stem(name@),
                                    links: ml,
                                },
                            ]
                        } else {
                            Seq::empty()
                        }
                    } else {
                        Seq::empty()
                    }
                },
            }
        };
        here + rest
    }
}

fn clone_link(l: &WikiLink) -> (r: WikiLink)
    ensures
        r@ == l@,
{
    WikiLink {
        target: l.target.clone(),
        heading: match &l.heading {
            Some(h) => Some(h.clone()),
            None => None,
        },
        display_text: match &l.display_text {
            Some(d) => Some(d.clone()),
            None => None,
        },
        start: l.start,
        end: l.end,
        raw: l.raw.clone(),
    }
}

/// Keeps the references whose target (last path segment) matches the
/// lowercased query `lq` case-insensitively.
fn matching_links(links: &Vec<WikiLink>, lq: &String) -> (r: Vec<WikiLink>)
    ensures
        links_views(r@) == matching_from(links_views(links@), 0, lq@),
{
    let ghost lm = links_views(links@);
    let n = links.len();
    let mut r: Vec<WikiLink> = Vec::new();
    let mut k: usize = 0;
    proof {
        assert(links_views(r@) + matching_from(lm, 0, lq@) =~= matching_from(lm, 0, lq@));
    }
    while k < n
        invariant
            k <= n,
            n == links@.len(),
            lm == links_views(links@),
            links_views(r@) + matching_from(lm, k as int, lq@) == matching_from(lm, 0, lq@),
        decreases n - k,
    {
        let l = &links[k];
        proof {
            assert(lm[k as int] == l@);
        }
        let tchars = chars_vec(l.target.as_str());
        let p = find_after_last_slash(&tchars);
        proof {
            crate::fsmodel::lemma_after_last_slash(l.target@);
        }
        let tlen = tchars.len();
        let stripped = l.target.as_str().substring_char(p, tlen).to_owned();
        let low = lowercase(stripped.as_str());
        let lowq = lowercase(lq.as_str());
        if low.eq(&lowq) {
            let ghost old_r = r@;
            r.push(clone_link(l));
            proof {
                assert(links_views(r@) =~= links_views(old_r).push(l@));
                assert(matching_from(lm, k as int, lq@) =~= seq![lm[k as int]] + matching_from(
                    lm,
                    k + 1,
                    lq@,
                ));
                assert(links_views(r@) + matching_from(lm, k + 1, lq@) =~= links_views(old_r)
                    + matching_from(lm, k as int, lq@));
            }
        } else {
            proof {
                assert(matching_from(lm, k as int, lq@) =~= matching_from(lm, k + 1, lq@));
            }
        }
        k = k + 1;
    }
    proof {
        assert(matching_from(lm, k as int, lq@) =~= Seq::<LinkModel>::empty());
        assert(links_views(r@) =~= links_views(r@) + matching_from(lm, k as int, lq@));
    }
    r
}

fn collect_backlinks(entries: &Vec<FsEntry>, dir: &String, lq: &String, out: &mut Vec<
    BacklinkInfo,
>)
    ensures
        groups_views(final (out)@) == groups_views(old(out)@) + backlinks_from(
            entries@,
            0,
            dir@,
            lq@,
        ),
    decreases entries@,
{
    let n = entries.len();
    let mut k: usize = 0;
    proof {
        assert(groups_views(out@) + backlinks_from(entries@, 0, dir@, lq@) =~= groups_views(
            old(out)@,
        ) + backlinks_from(entries@, 0, dir@, lq@));
    }
    while k < n
        invariant
            k <= n,
            n == entries@.len(),
            groups_views(out@) + backlinks_from(entries@, k as int, dir@, lq@) == groups_views(
                old(out)@,
            ) + backlinks_from(entries@, 0, dir@, lq@),
        decreases n - k,
    {
        let ghost pre = out@;
        let e = &entries[k];
        proof {
            assert(entries@[k as int] == *e);
        }
        if !is_hidden(entry_name(e)) {
            match e {
                FsEntry::Dir { name: dname, entries: sub, .. } => {
                    let d2 = join_path(dir.as_str(), dname.as_str());
                    proof {
                        assert(decreases_to!(entries@ => entries@[k as int]));
                        assert(decreases_to!(*e => e->Dir_entries));
                        assert(decreases_to!(e->Dir_entries => sub@));
                    }
                    collect_backlinks(sub, &d2, lq, out);
                    proof {
                        assert(backlinks_from(entries@, k as int, dir@, lq@) =~= backlinks_from(
                            sub@,
                            0,
                            d2@,
                            lq@,
                        ) + backlinks_from(entries@, k + 1, dir@, lq@));
                        assert(groups_views(out@) + backlinks_from(entries@, k + 1, dir@, lq@)
                            =~= groups_views(pre) + backlinks_from(entries@, k as int, dir@, lq@));
                    }
                },
                FsEntry::File { name: fname, content, .. } => {
                    let mut contributed = false;
                    if is_md(fname) {
                        let st = stem_of(fname);
                        let lst = lowercase(st.as_str());
                        if !lst.eq(lq) {
                            let parsed = parse_wiki_links(content.as_str());
                            let ml = matching_links(&parsed, lq);
                            if ml.len() > 0 {
                                let g = BacklinkInfo {
                                    source_path: join_path(dir.as_str(), fname.as_str()),
                                    source_name: st,
                                    links: ml,
                                };
                                proof {
                                    assert(links_views(g.links@) == matching_from(
                                        links_of(content@),
                                        0,
                                        lq@,
                                    ));
                                }
                                out.push(g);
                                contributed = true;
                                proof {
                                    assert(groups_views(out@) =~= groups_views(pre).push(g@));
                                    assert(backlinks_from(entries@, k as int, dir@, lq@)
                                        =~= seq![g@] + backlinks_from(entries@, k + 1, dir@, lq@));
                                    assert(groups_views(out@) + backlinks_from(
                                        entries@,
                                        k + 1,
                                        dir@,
                                        lq@,
                                    ) =~= groups_views(pre) + backlinks_from(
                                        entries@,
                                        k as int,
                                        dir@,
                                        lq@,
                                    ));
                                }
                            }
                        }
                    }
                    proof {
                        if !contributed {
                            assert(backlinks_from(entries@, k as int, dir@, lq@)
                                =~= backlinks_from(entries@, k + 1, dir@, lq@));
                        }
                    }
                },
            }
        } else {
            proof {
                assert(backlinks_from(entries@, k as int, dir@, lq@) =~= backlinks_from(
                    entries@,
                    k + 1,
                    dir@,
                    lq@,
                ));
            }
        }
        k = k + 1;
    }
    proof {
        assert(backlinks_from(entries@, k as int, dir@, lq@) =~= Seq::<BacklinkModel>::empty());
        assert(groups_views(out@) =~= groups_views(out@) + backlinks_from(
            entries@,
            k as int,
            dir@,
            lq@,
        ));
    }
}

/// All backlink groups of the note named `note_name` across the vault
/// snapshot, in traversal order.
pub fn get_backlinks(vault_path: &String, entries: &Vec<FsEntry>, note_name: &String) -> (r:
    FsResult<Vec<BacklinkInfo>>)
    ensures
        r.success,
        r.error is None,
        r.data matches Some(v) && groups_views(v@) == backlinks_from(
            entries@,
            0,
            vault_path@,
            lower_of(note_name@),
        ),
{
    let q = lowercase(note_name.as_str());
    let mut out: Vec<BacklinkInfo> = Vec::new();
    proof {
        assert(groups_views(out@) =~= Seq::<BacklinkModel>::empty());
    }
    collect_backlinks(entries, vault_path, &q, &mut out);
    proof {
        assert(Seq::<BacklinkModel>::empty() + backlinks_from(
            entries@,
            0,
            vault_path@,
            lower_of(note_name@),
        ) =~= backlinks_from(entries@, 0, vault_path@, lower_of(note_name@)));
    }
    FsResult::ok(out)
}


// ---------------------------------------------------------------------------
// Laws
// ---------------------------------------------------------------------------

proof fn lemma_matching_all(ls: Seq<LinkModel>, k: int, q: Seq<char>)
    requires
        0 <= k,
    ensures
        forall|i: int|
            0 <= i < matching_from(ls, k, q).len() ==> lower_of(
                strip_folder((#[trigger] matching_from(ls, k, q)[i]).target),
            ) == lower_of(q),
    decreases ls.len() - k,
{
    if k < ls.len() {
        lemma_matching_all(ls, k + 1, q);
        if lower_of(strip_folder(ls[k].target)) == lower_of(q) {
            assert forall|i: int| 0 <= i < matching_from(ls, k, q).len() implies lower_of(
                strip_folder((#[trigger] matching_from(ls, k, q)[i]).target),
            ) == lower_of(q) by {
                if i > 0 {
                    assert(matching_from(ls, k, q)[i] == matching_from(ls, k + 1, q)[i - 1]);
                }
            }
        }
    }
}

/// What every backlink group satisfies: it carries at least one reference;
/// each of its references targets the queried note (case-insensitively, the
/// target's folder prefix stripped); its source note is reached from `dir`
/// through non-hidden names only — a hidden file or directory never
/// contributes; and its source never matches the query itself — a note
/// never backlinks itself.
pub proof fn lemma_backlink_groups(entries: Seq<FsEntry>, k: int, dir: Seq<char>, q: Seq<char>)
    requires
        0 <= k,
    ensures
        forall|g: int|
            0 <= g < backlinks_from(entries, k, dir, q).len() ==> {
                let grp = #[trigger] backlinks_from(entries, k, dir, q)[g];
                &&& grp.links.len() > 0
                &&& (forall|i: int|
                    0 <= i < grp.links.len() ==> lower_of(
                        strip_folder((#[trigger] grp.links[i]).target),
                    ) == lower_of(q))
                &&& !is_hidden_name(grp.source_name)
                &&& lower_of(grp.source_name) != q
                &&& (exists|names: Seq<Seq<char>>|
                    {
                        &&& #[trigger] all_not_hidden(names)
                        &&& names.len() > 0
                        &&& grp.source_path == joins_chain(dir, names)
                        &&& is_md_name(names.last())
                        &&& md_stem(names.last()) == grp.source_name
                    })
            },
    decreases entries, entries.len() - k,
{
    if 0 <= k < entries.len() {
        lemma_backlink_groups(entries, k + 1, dir, q);
        let e = entries[k];
        let rest = backlinks_from(entries, k + 1, dir, q);
        if !is_hidden_name(e.name_chars()) {
            match e {
                FsEntry::Dir { name, entries: sub, .. } => {
                    lemma_backlink_groups(sub@, 0, spec_join(dir, name@), q);
                },
                FsEntry::File { name, content, .. } => {
                    if is_md_name(name@) && lower_of(md_stem(name@)) != q {
                        lemma_matching_all(links_of(content@), 0, q);
                        assert(md_stem(name@)[0] == name@[0]);
                    }
                },
            }
        }
        let whole = backlinks_from(entries, k, dir, q);
        assert forall|g: int| 0 <= g < whole.len() implies {
            let grp = #[trigger] whole[g];
            &&& grp.links.len() > 0
            &&& (forall|i: int|
                0 <= i < grp.links.len() ==> lower_of(
                    strip_folder((#[trigger] grp.links[i]).target),
                ) == lower_of(q))
            &&& !is_hidden_name(grp.source_name)
            &&& lower_of(grp.source_name) != q
            &&& (exists|names: Seq<Seq<char>>|
                {
                    &&& #[trigger] all_not_hidden(names)
                    &&& names.len() > 0
                    &&& grp.source_path == joins_chain(dir, names)
                    &&& is_md_name(names.last())
                    &&& md_stem(names.last()) == grp.source_name
                })
        } by {
            let here_len = whole.len() - rest.len();
            if g >= here_len {
                assert(whole[g] == rest[g - here_len]);
            } else {
                // the group comes from this entry
                if !is_hidden_name(e.name_chars()) {
                    match e {
                        FsEntry::Dir { name, entries: sub, .. } => {
                            let d2 = spec_join(dir, name@);
                            let inner_groups = backlinks_from(sub@, 0, d2, q);
                            assert(whole[g] == inner_groups[g]);
                            let grp = inner_groups[g];
                            let inner = choose|names: Seq<Seq<char>>|
                                {
                                    &&& #[trigger] all_not_hidden(names)
                                    &&& names.len() > 0
                                    &&& grp.source_path == joins_chain(d2, names)
                                    &&& is_md_name(names.last())
                                    &&& md_stem(names.last()) == grp.source_name
                                };
                            let ext = seq![name@] + inner;
                            assert(ext.drop_first() =~= inner);
                            assert(ext[0] == name@);
                            assert(joins_chain(dir, ext) == joins_chain(d2, inner));
                            assert(ext.last() == inner.last());
                            assert forall|i: int|
                                0 <= i < ext.len() implies !is_hidden_name(
                                #[trigger] ext[i]) by {
                                if i > 0 {
                                    assert(ext[i] == inner[i - 1]);
                                }
                            }
                            assert(all_not_hidden(ext));
                        },
                        FsEntry::File { name, content, .. } => {
                            let grp = whole[g];
                            let one = seq![name@];
                            assert(one[0] == name@);
                            assert(one.drop_first() =~= Seq::<Seq<char>>::empty());
                            assert(joins_chain(spec_join(dir, name@), Seq::<Seq<char>>::empty())
                                == spec_join(dir, name@));
                            assert(joins_chain(dir, one) == spec_join(dir, name@));
                            assert(one.last() == name@);
                            assert(all_not_hidden(one));
                        },
                    }
                }
            }
        }
    }
}

/// A reference whose folder-stripped target matches the query
/// case-insensitively is always among the kept references.
pub proof fn lemma_matching_complete(ls: Seq<LinkModel>, k: int, q: Seq<char>, i: int)
    requires
        0 <= k <= i < ls.len(),
        lower_of(strip_folder(ls[i].target)) == lower_of(q),
    ensures
        matching_from(ls, k, q).contains(ls[i]),
    decreases i - k,
{
    if k < i {
        lemma_matching_complete(ls, k + 1, q, i);
        let rest = matching_from(ls, k + 1, q);
        let whole = matching_from(ls, k, q);
        let p = choose|p: int| 0 <= p < rest.len() && rest[p] == ls[i];
        if lower_of(strip_folder(ls[k].target)) == lower_of(q) {
            assert(whole[p + 1] == rest[p]);
        }
    } else {
        assert(matching_from(ls, k, q)[0] == ls[i]);
    }
}

/// A visible markdown file, other than the queried note itself, with at
/// least one matching reference always contributes its group.
pub proof fn lemma_backlinks_complete(
    entries: Seq<FsEntry>,
    k: int,
    i: int,
    dir: Seq<char>,
    q: Seq<char>,
)
    requires
        0 <= k <= i < entries.len(),
        entries[i] matches FsEntry::File { name, content, .. } && !is_hidden_name(name@)
            && is_md_name(name@) && lower_of(md_stem(name@)) != q && matching_from(
            links_of(content@),
            0,
            q,
        ).len() > 0,
    ensures
        exists|g: int|
            {
                &&& 0 <= g < backlinks_from(entries, k, dir, q).len()
                &&& (#[trigger] backlinks_from(entries, k, dir, q)[g]).source_path == spec_join(
                    dir,
                    entries[i]->File_name@,
                )
                &&& backlinks_from(entries, k, dir, q)[g].source_name == md_stem(
                    entries[i]->File_name@,
                )
                &&& backlinks_from(entries, k, dir, q)[g].links == matching_from(
                    links_of(entries[i]->File_content@),
                    0,
                    q,
                )
            },
    decreases i - k,
{
    let whole = backlinks_from(entries, k, dir, q);
    let rest = backlinks_from(entries, k + 1, dir, q);
    if k < i {
        lemma_backlinks_complete(entries, k + 1, i, dir, q);
        let g0 = choose|g: int|
            {
                &&& 0 <= g < rest.len()
                &&& (#[trigger] rest[g]).source_path == spec_join(dir, entries[i]->File_name@)
                &&& rest[g].source_name == md_stem(entries[i]->File_name@)
                &&& rest[g].links == matching_from(links_of(entries[i]->File_content@), 0, q)
            };
        let here_len = whole.len() - rest.len();
        assert(whole[here_len + g0] == rest[g0]);
    } else {
        assert(whole.len() == 1 + rest.len());
        assert(whole[0].source_path == spec_join(dir, entries[i]->File_name@));
    }
}

} // verus!
