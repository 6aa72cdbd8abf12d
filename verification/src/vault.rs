//! Vault-level plain data: notes, note metadata, vault descriptions, and the
//! uniform result wrapper handed back to callers of the vault operations.

use vstd::prelude::*;

verus! {

use crate::fsmodel::{FsEntry, is_md_name, after_last_slash, lemma_after_last_slash_unique};
use crate::tree::{cap_usize, saturating_add_usize};
use crate::unicode::chars_vec;
use vstd::string::{StrSliceExecFns, StringExecFns};

/// A note file with its content.
#[derive(Debug, Clone, PartialEq, Eq)]
pub struct Note {
    pub name: String,
    pub path: String,
    pub content: String,
    pub modified: u64,
}

/// A note's metadata, without its content.
#[derive(Debug, Clone, PartialEq, Eq)]
pub struct NoteMeta {
    pub name: String,
    pub path: String,
    pub modified: u64,
}

/// A vault: a directory of notes.
#[derive(Debug, Clone, PartialEq, Eq)]
pub struct Vault {
    pub name: String,
    pub path: String,
    pub note_count: usize,
    pub last_opened: u64,
}

/// Result wrapper for vault operations: either a value or an error message.
#[derive(Debug, PartialEq, Eq)]
pub struct FsResult<T> {
    pub success: bool,
    pub data: Option<T>,
    pub error: Option<String>,
}

impl<T> FsResult<T> {
    /// A successful result carrying `data`.
    pub fn ok(data: T) -> (r: Self)
        ensures
            r.success,
            r.data == Some(data),
            r.error is None,
    {
        FsResult { success: true, data: Some(data), error: None }
    }

    /// A failed result carrying the message `msg`.
    pub fn err(msg: &str) -> (r: Self)
        ensures
            !r.success,
            r.data is None,
            r.error matches Some(e) && e@ == msg@,
    {
        FsResult { success: false, data: None, error: Some(msg.to_owned()) }
    }
}

// ---------------------------------------------------------------------------
// Vault naming
// ---------------------------------------------------------------------------

pub open spec fn slashes_trimmed(s: Seq<char>) -> Seq<char>
    decreases s.len(),
{
    if s.len() > 0 && s[s.len() - 1] == '/' {
        slashes_trimmed(s.drop_last())
    } else {
        s
    }
}

proof fn lemma_slashes_trimmed_unique(s: Seq<char>, m: int)
    requires
        0 <= m <= s.len(),
        forall|k: int| m <= k < s.len() ==> s[k] == '/',
        m > 0 ==> s[m - 1] != '/',
    ensures
        slashes_trimmed(s) == s.take(m),
    decreases s.len(),
{
    if m < s.len() {
        let dl = s.drop_last();
        assert forall|k: int| m <= k < dl.len() implies dl[k] == '/' by {
            assert(dl[k] == s[k]);
        }
        if m > 0 {
            assert(dl[m - 1] == s[m - 1]);
        }
        lemma_slashes_trimmed_unique(dl, m);
        assert(dl.take(m) =~= s.take(m));
    } else {
        assert(s.take(m) =~= s);
    }
}

/// The vault's display name for a path: the last path segment, ignoring
/// trailing separators and skipping lone `.` segments, as path
/// normalization does; a path with no usable last segment (none at all, or
/// a `..`) names the vault `Vault`.
pub open spec fn vault_name_of(p: Seq<char>) -> Seq<char>
    decreases p.len(),
{
    let t = slashes_trimmed(p);
    let als = after_last_slash(t);
    let nm = t.skip(als);
    if p.len() > 0 && nm == seq!['.'] {
        // `t` is a prefix of `p` and `als` lies before its end, so the
        // bound check always passes; it only serves the termination measure.
        let next = if 0 <= als < p.len() {
            als
        } else {
            0
        };
        vault_name_of(p.take(next))
    } else if nm.len() == 0 || nm == seq!['.', '.'] {
        "Vault"@
    } else {
        nm
    }
}

/// The vault name shown for a vault path.
pub fn get_vault_name(path: &str) -> (r: String)
    ensures
        r@ == vault_name_of(path@),
{
    let chars = chars_vec(path);
    let n = chars.len();
    let mut cur = n;
    let mut lo: usize = 0;
    let mut hi: usize = 0;
    proof {
        assert(path@.take(n as int) =~= path@);
    }
    loop
        invariant_except_break
            cur <= n,
            n == chars@.len(),
            chars@ == path@,
            vault_name_of(path@) == vault_name_of(path@.take(cur as int)),
        ensures
            lo <= hi <= n,
            n == chars@.len(),
            chars@ == path@,
            vault_name_of(path@) == ({
                let nm = path@.subrange(lo as int, hi as int);
                if nm.len() == 0 || nm == seq!['.', '.'] {
                    "Vault"@
                } else {
                    nm
                }
            }),
        decreases cur,
    {
        let ghost p = path@.take(cur as int);
        // trim trailing separators within the current prefix
        let mut m = cur;
        loop
            invariant_except_break
                m <= cur <= n,
                n == chars@.len(),
                chars@ == path@,
                forall|k: int| m <= k < cur ==> chars@[k] == '/',
            ensures
                m <= cur,
                forall|k: int| m <= k < cur ==> chars@[k] == '/',
                m > 0 ==> chars@[m - 1] != '/',
            decreases m,
        {
            if m == 0 {
                break ;
            }
            if chars[m - 1] != '/' {
                break ;
            }
            m = m - 1;
        }
        proof {
            assert forall|k: int| m <= k < p.len() implies p[k] == '/' by {
                assert(p[k] == path@[k]);
            }
            if m > 0 {
                assert(p[m - 1] == path@[m - 1]);
            }
            lemma_slashes_trimmed_unique(p, m as int);
            assert(p.take(m as int) =~= path@.take(m as int));
        }
        let ghost t = path@.take(m as int);
        // position after the last separator of the trimmed prefix
        let mut j = m;
        loop
            invariant_except_break
                j <= m,
                m <= n,
                n == chars@.len(),
                chars@ == path@,
                forall|k: int| j <= k < m ==> chars@[k] != '/',
            ensures
                j <= m,
                forall|k: int| j <= k < m ==> chars@[k] != '/',
                j > 0 ==> chars@[j - 1] == '/',
            decreases j,
        {
            if j == 0 {
                break ;
            }
            if chars[j - 1] == '/' {
                break ;
            }
            j = j - 1;
        }
        proof {
            assert forall|k: int| j <= k < t.len() implies t[k] != '/' by {
                assert(t[k] == path@[k]);
            }
            if j > 0 {
                assert(t[j - 1] == path@[j - 1]);
            }
            lemma_after_last_slash_unique(t, j as int);
            assert(t.skip(j as int) =~= path@.subrange(j as int, m as int));
        }
        let isdot = m - j == 1 && chars[j] == '.';
        if isdot {
            // skip the lone `.` segment and continue with what precedes it
            proof {
                assert(path@.subrange(j as int, m as int) =~= seq!['.']);
                assert(slashes_trimmed(p) == t);
                assert(after_last_slash(slashes_trimmed(p)) == j as int);
                assert(slashes_trimmed(p).skip(j as int) =~= seq!['.']);
                assert(cur > 0 && p.len() == cur as int);
                assert(p.take(j as int) =~= path@.take(j as int));
                assert(vault_name_of(p) == vault_name_of(path@.take(j as int)));
            }
            cur = j;
        } else {
            lo = j;
            hi = m;
            proof {
                let nm = path@.subrange(j as int, m as int);
                if nm == seq!['.'] {
                    assert(nm.len() == 1);
                    assert(nm[0] == path@[j as int]);
                }
                assert(slashes_trimmed(p) == t);
                assert(after_last_slash(slashes_trimmed(p)) == j as int);
                assert(slashes_trimmed(p).skip(j as int) =~= nm);
                assert(vault_name_of(p) == (if nm.len() == 0 || nm == seq!['.', '.'] {
                    "Vault"@
                } else {
                    nm
                }));
            }
            break ;
        }
    }
    let isdots = hi - lo == 2 && chars[lo] == '.' && chars[lo + 1] == '.';
    proof {
        let nm = path@.subrange(lo as int, hi as int);
        if isdots {
            assert(nm =~= seq!['.', '.']);
        } else if nm == seq!['.', '.'] {
            assert(nm.len() == 2);
            assert(nm[0] == path@[lo as int]);
            assert(nm[1] == path@[lo + 1]);
        }
    }
    if lo == hi || isdots {
        "Vault".to_owned()
    } else {
        path.substring_char(lo, hi).to_owned()
    }
}

// ---------------------------------------------------------------------------
// Note counting
// ---------------------------------------------------------------------------

/// Number of entries of one directory listing whose name is a markdown note
/// name (`count_notes` applies no hidden-entry filter, as the immediate
/// listing of a vault root is what it counts).
pub open spec fn md_count_from(entries: Seq<FsEntry>, k: int) -> nat
    decreases entries.len() - k,
{
    if k < 0 || k >= entries.len() {
        0
    } else {
        (if is_md_name(entries[k].name_chars()) {
            1 as nat
        } else {
            0 as nat
        }) + md_count_from(entries, k + 1)
    }
}

/// Counts the `.md` entries among a vault root's immediate children.
pub fn count_notes(entries: &Vec<FsEntry>) -> (r: usize)
    ensures
        r == md_count_from(entries@, 0),
{
    let n = entries.len();
    let mut acc: usize = 0;
    let mut k: usize = 0;
    while k < n
        invariant
            k <= n,
            n == entries@.len(),
            acc <= k,
            acc + md_count_from(entries@, k as int) == md_count_from(entries@, 0),
        decreases n - k,
    {
        if crate::fsmodel::is_md(crate::fsmodel::entry_name(&entries[k])) {
            acc = acc + 1;
        }
        k = k + 1;
    }
    acc
}

/// Number of `.md` files anywhere under the listing, subdirectories
/// included.
pub open spec fn rec_md_count(entries: Seq<FsEntry>, k: int) -> nat
    decreases entries, entries.len() - k,
{
    if k < 0 || k >= entries.len() {
        0
    } else {
        (match entries[k] {
            FsEntry::Dir { entries: sub, .. } => rec_md_count(sub@, 0),
            FsEntry::File { name, .. } => if is_md_name(name@) {
                1 as nat
            } else {
                0 as nat
            },
        }) + rec_md_count(entries, k + 1)
    }
}

/// Counts the `.md` files under the listing, recursively (saturating at
/// `usize::MAX`, which a real vault cannot reach).
pub fn count_notes_recursive(entries: &Vec<FsEntry>) -> (r: usize)
    ensures
        r as nat == cap_usize(rec_md_count(entries@, 0)),
    decreases entries@,
{
    let n = entries.len();
    let mut acc: usize = 0;
    let ghost mut prefix: nat = 0nat;
    let mut k: usize = 0;
    while k < n
        invariant
            k <= n,
            n == entries@.len(),
            acc as nat == cap_usize(prefix),
            prefix + rec_md_count(entries@, k as int) == rec_md_count(entries@, 0),
        decreases n - k,
    {
        let c: usize = match &entries[k] {
            FsEntry::Dir { entries: sub, .. } => {
                proof {
                    assert(decreases_to!(entries@ => entries@[k as int]));
                }
                count_notes_recursive(sub)
            },
            FsEntry::File { name, .. } => {
                if crate::fsmodel::is_md(name) {
                    1
                } else {
                    0
                }
            },
        };
        let ghost here: nat = match entries@[k as int] {
            FsEntry::Dir { entries: sub, .. } => rec_md_count(sub@, 0),
            FsEntry::File { name, .. } => if is_md_name(name@) {
                1 as nat
            } else {
                0 as nat
            },
        };
        acc = saturating_add_usize(acc, c);
        proof {
            prefix = prefix + here;
        }
        k = k + 1;
    }
    acc
}


// ---------------------------------------------------------------------------
// Note listing order
// ---------------------------------------------------------------------------

/// Sorts note metadata newest first (stable; equal times keep their order).
pub fn sort_notes_by_modified(v: &mut Vec<NoteMeta>)
    ensures
        final (v)@.to_multiset() == old(v)@.to_multiset(),
        forall|i: int, j: int|
            0 <= i < j < final (v)@.len() ==> #[trigger] final (v)@[i].modified
                >= #[trigger] final (v)@[j].modified,
{
    let mut i: usize = 1;
    while i < v.len()
        invariant
            1 <= i <= v@.len() || v@.len() == 0,
            v@.to_multiset() == old(v)@.to_multiset(),
            forall|p: int, q: int|
                0 <= p < q < i ==> #[trigger] v@[p].modified >= #[trigger] v@[q].modified,
        decreases v@.len() - i,
    {
        let ghost before = v@;
        let key = v[i].modified;
        let x = v.remove(i);
        proof {
            crate::tree::lemma_ms_remove(before, i as int);
        }
        let mut p: usize = 0;
        while p < i && v[p].modified >= key
            invariant
                p <= i,
                i < before.len(),
                v@ == before.remove(i as int),
                key == x.modified,
                forall|q: int| 0 <= q < p ==> #[trigger] v@[q].modified >= key,
            decreases i - p,
        {
            p = p + 1;
        }
        let ghost mid = v@;
        v.insert(p, x);
        proof {
            crate::tree::lemma_ms_insert(mid, p as int, x);
            before.remove_ensures(i as int);
            mid.insert_ensures(p as int, x);
            assert forall|a: int, b: int| 0 <= a < b < i + 1 implies #[trigger] v@[a].modified
                >= #[trigger] v@[b].modified by {
                if b < p {
                    assert(v@[a] == before[a] && v@[b] == before[b]);
                } else if a < p && b == p {
                    assert(v@[a] == before[a]);
                    assert(v@[b] == x);
                } else if a < p && b > p {
                    assert(v@[a] == before[a] && v@[b] == before[b - 1]);
                } else if a == p && b > p {
                    assert(v@[a] == x);
                    assert(v@[b] == before[b - 1]);
                    if (p as int) < i {
                        assert(mid[p as int] == before[p as int]);
                        assert(x.modified > before[p as int].modified);
                    }
                } else if a > p && b > p {
                    assert(v@[a] == before[a - 1] && v@[b] == before[b - 1]);
                }
            }
        }
        i = i + 1;
    }
}

} // verus!
