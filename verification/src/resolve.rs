//! Resolution of a reference target to a note path within a vault snapshot.
//!
//! In order, first success wins: a folder-qualified exact location, an exact
//! location at the vault root, then a depth-first search of the whole vault
//! for a note whose name matches case-insensitively (hidden entries skipped).

use vstd::prelude::*;

verus! {

use crate::fsmodel::{
    FsEntry, is_hidden_name, is_hidden, is_md_name, is_md, md_stem, stem_of, lower_of, lowercase,
    spec_join, join_path, after_last_slash, find_after_last_slash, components_of, strings_views,
    split_components, find_named, lookup_named, path_in_entries, path_exists, entry_name,
    joins_chain, all_not_hidden,
};
use crate::links::{trim_chars, trim_span};
use crate::unicode::chars_vec;
use crate::vault::FsResult;
use vstd::string::{StrSliceExecFns, StringExecFns};

pub open spec fn opt_chars(o: Option<String>) -> Option<Seq<char>> {
    match o {
        Some(s) => Some(s@),
        None => None,
    }
}

/// Depth-first search, in snapshot order, for a visible note whose stem
/// lowercases to `lname`; the first hit's path wins. Hidden entries are
/// skipped at every level.
pub open spec fn search_from(
    entries: Seq<FsEntry>,
    k: int,
    dir: Seq<char>,
    lname: Seq<char>,
) -> Option<Seq<char>>
    decreases entries, entries.len() - k,
{
    if k < 0 || k >= entries.len() {
        None
    } else {
        let e = entries[k];
        let found = if is_hidden_name(e.name_chars()) {
            None
        } else {
            match e {
                FsEntry::Dir { name, entries: sub, .. } => search_from(
                    sub@,
                    0,
                    spec_join(dir, name@),
                    lname,
                ),
                FsEntry::File { name, .. } => if is_md_name(name@) && lower_of(md_stem(name@))
                    == lname {
                    Some(spec_join(dir, name@))
                } else {
                    None
                },
            }
        };
        if found is Some {
            found
        } else {
            search_from(entries, k + 1, dir, lname)
        }
    }
}

/// The `.md` file name of a note name.
pub open spec fn md_name_of(note: Seq<char>) -> Seq<char> {
    note + seq!['.', 'm', 'd']
}

/// What resolution returns: nothing for a target whose note name is blank
/// (an empty trimmed target is never found); otherwise the folder-qualified
/// location if the target has a folder prefix and that location exists, else
/// the vault-root location if it exists, else the first hit of the
/// case-insensitive search.
pub open spec fn spec_resolve(
    entries: Seq<FsEntry>,
    vault: Seq<char>,
    target: Seq<char>,
) -> Option<Seq<char>> {
    let als = after_last_slash(target);
    let note = target.skip(als);
    let nmd = md_name_of(note);
    let folder = target.take(als - 1);
    if trim_chars(note).len() == 0 {
        None
    } else if als > 0 && path_in_entries(entries, components_of(folder).push(nmd)) {
        Some(spec_join(spec_join(vault, folder), nmd))
    } else if find_named(entries, nmd) is Some {
        Some(spec_join(vault, nmd))
    } else {
        search_from(entries, 0, vault, lower_of(note))
    }
}

fn search_entries(entries: &Vec<FsEntry>, dir: &String, lname: &String) -> (r: Option<String>)
    ensures
        opt_chars(r) == search_from(entries@, 0, dir@, lname@),
    decreases entries@,
{
    let n = entries.len();
    let mut k: usize = 0;
    while k < n
        invariant
            k <= n,
            n == entries@.len(),
            search_from(entries@, 0, dir@, lname@) == search_from(
                entries@,
                k as int,
                dir@,
                lname@,
            ),
        decreases n - k,
    {
        let e = &entries[k];
        if !is_hidden(entry_name(e)) {
            match e {
                FsEntry::Dir { name: dname, entries: sub, .. } => {
                    let d2 = join_path(dir.as_str(), dname.as_str());
                    proof {
                        assert(entries@[k as int] == *e);
                        assert(decreases_to!(entries@ => entries@[k as int]));
                        assert(decreases_to!(*e => e->Dir_entries));
                        assert(decreases_to!(e->Dir_entries => sub@));
                    }
                    let found = search_entries(sub, &d2, lname);
                    if found.is_some() {
                        return found;
                    }
                },
                FsEntry::File { name: fname, .. } => {
                    if is_md(fname) {
                        let st = stem_of(fname);
                        let low = lowercase(st.as_str());
                        if low.eq(lname) {
                            let p = join_path(dir.as_str(), fname.as_str());
                            return Some(p);
                        }
                    }
                },
            }
        }
        k = k + 1;
    }
    None
}

/// Resolves the reference target `target` to the path of an existing note
/// under `vault_path`, if one is found.
pub fn resolve_wiki_link(vault_path: &String, entries: &Vec<FsEntry>, target: &String) -> (r:
    FsResult<Option<String>>)
    ensures
        r.success,
        r.error is None,
        r.data matches Some(d) && opt_chars(d) == spec_resolve(entries@, vault_path@, target@),
{
    let tchars = chars_vec(target.as_str());
    let als = find_after_last_slash(&tchars);
    let tlen = tchars.len();
    proof {
        crate::fsmodel::lemma_after_last_slash(target@);
    }
    let note = target.as_str().substring_char(als, tlen).to_owned();
    let nmd = note.clone().concat(".md");
    proof {
        reveal_strlit(".md");
        assert(".md"@ =~= seq!['.', 'm', 'd']);
        assert(nmd@ == md_name_of(target@.skip(after_last_slash(target@))));
    }
    // a blank note name is never found
    let (ta, tb) = trim_span(&tchars, als, tlen);
    proof {
        assert(target@.subrange(als as int, tlen as int) =~= target@.skip(als as int));
    }
    if ta == tb {
        return FsResult::ok(None);
    }
    if als > 0 {
        let folder = target.as_str().substring_char(0, als - 1).to_owned();
        let fchars = chars_vec(folder.as_str());
        let mut comps = split_components(folder.as_str(), &fchars);
        let ghost folder_comps = components_of(folder@);
        comps.push(nmd.clone());
        proof {
            assert(strings_views(comps@) =~= folder_comps.push(nmd@));
        }
        if path_exists(entries, &comps, 0) {
            proof {
                assert(strings_views(comps@).skip(0) =~= strings_views(comps@));
            }
            let p = join_path(join_path(vault_path.as_str(), folder.as_str()).as_str(),
                nmd.as_str());
            return FsResult::ok(Some(p));
        }
        proof {
            assert(strings_views(comps@).skip(0) =~= strings_views(comps@));
        }
    }
    match lookup_named(entries, &nmd) {
        Some(_) => {
            let p = join_path(vault_path.as_str(), nmd.as_str());
            FsResult::ok(Some(p))
        },
        None => {
            let lname = lowercase(note.as_str());
            let found = search_entries(entries, vault_path, &lname);
            FsResult::ok(found)
        },
    }
}


// ---------------------------------------------------------------------------
// Laws
// ---------------------------------------------------------------------------

/// What a fallback-search hit is: `dir` extended level by level through
/// non-hidden names only, ending at a markdown note whose name matches the
/// query case-insensitively — a hidden file or directory never appears in
/// the result.
pub proof fn lemma_search_hit(entries: Seq<FsEntry>, k: int, dir: Seq<char>, lname: Seq<char>)
    requires
        0 <= k,
    ensures
        match search_from(entries, k, dir, lname) {
            Some(p) => exists|names: Seq<Seq<char>>|
                {
                    &&& #[trigger] all_not_hidden(names)
                    &&& names.len() > 0
                    &&& p == joins_chain(dir, names)
                    &&& is_md_name(names.last())
                    &&& lower_of(md_stem(names.last())) == lname
                },
            None => true,
        },
    decreases entries, entries.len() - k,
{
    if 0 <= k < entries.len() {
        let e = entries[k];
        if !is_hidden_name(e.name_chars()) {
            match e {
                FsEntry::Dir { name, entries: sub, .. } => {
                    let d2 = spec_join(dir, name@);
                    lemma_search_hit(sub@, 0, d2, lname);
                    if search_from(sub@, 0, d2, lname) is Some {
                        let inner = choose|names: Seq<Seq<char>>|
                            {
                                &&& #[trigger] all_not_hidden(names)
                                &&& names.len() > 0
                                &&& search_from(sub@, 0, d2, lname)->Some_0 == joins_chain(
                                    d2,
                                    names,
                                )
                                &&& is_md_name(names.last())
                                &&& lower_of(md_stem(names.last())) == lname
                            };
                        let ext = seq![name@] + inner;
                        assert(ext.drop_first() =~= inner);
                        assert(ext[0] == name@);
                        assert(joins_chain(dir, ext) == joins_chain(d2, inner));
                        assert(ext.last() == inner.last());
                        assert forall|i: int|
                            0 <= i < ext.len() implies !is_hidden_name(#[trigger] ext[i]) by {
                            if i > 0 {
                                assert(ext[i] == inner[i - 1]);
                            }
                        }
                        assert(all_not_hidden(ext));
                    }
                },
                FsEntry::File { name, .. } => {
                    if is_md_name(name@) && lower_of(md_stem(name@)) == lname {
                        let one = seq![name@];
                        assert(one[0] == name@);
                        assert(one.drop_first() =~= Seq::<Seq<char>>::empty());
                        assert(joins_chain(spec_join(dir, name@), Seq::<Seq<char>>::empty())
                            == spec_join(dir, name@));
                        assert(joins_chain(dir, one) == spec_join(dir, name@));
                        assert(one.last() == name@);
                        assert(all_not_hidden(one));
                    }
                },
            }
        }
        lemma_search_hit(entries, k + 1, dir, lname);
    }
}

} // verus!
