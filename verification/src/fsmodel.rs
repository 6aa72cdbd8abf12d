//! In-memory snapshot of a vault's directory contents, and the name and path
//! arithmetic shared by resolution, backlink scanning, and the file tree.
//!
//! A snapshot is read from disk by the caller; every vault operation here is a
//! pure function over it. Names are file names with their extension;
//! `modified` is a last-modified time in seconds.

use vstd::prelude::*;

verus! {

use vstd::string::{StrSliceExecFns, StringExecFns};
use vstd::utf8::char_u32_cast;

/// One entry of a vault snapshot.
#[derive(Debug)]
pub enum FsEntry {
    Dir { name: String, modified: u64, entries: Vec<FsEntry> },
    File { name: String, modified: u64, content: String },
}

impl FsEntry {
    pub open spec fn name_chars(&self) -> Seq<char> {
        match self {
            FsEntry::Dir { name, .. } => name@,
            FsEntry::File { name, .. } => name@,
        }
    }
}

/// The entry's name.
pub fn entry_name(e: &FsEntry) -> (r: &String)
    ensures
        r@ == e.name_chars(),
{
    match e {
        FsEntry::Dir { name, .. } => name,
        FsEntry::File { name, .. } => name,
    }
}

// ---------------------------------------------------------------------------
// Names
// ---------------------------------------------------------------------------

/// A name hidden by convention: it starts with a dot.
pub open spec fn is_hidden_name(n: Seq<char>) -> bool {
    n.len() > 0 && n[0] == '.'
}

/// Whether a file or folder name is hidden (starts with `.`).
pub fn is_hidden(name: &String) -> (r: bool)
    ensures
        r == is_hidden_name(name@),
{
    let s = name.as_str();
    if s.unicode_len() == 0 {
        false
    } else {
        s.get_char(0) == '.'
    }
}

/// A markdown note name: `.md` extension with a nonempty stem.
pub open spec fn is_md_name(n: Seq<char>) -> bool {
    n.len() >= 4 && n[n.len() - 3] == '.' && n[n.len() - 2] == 'm' && n[n.len() - 1] == 'd'
}

/// The note name without its `.md` extension.
pub open spec fn md_stem(n: Seq<char>) -> Seq<char> {
    n.take(n.len() - 3)
}

/// Whether a name is a markdown note name.
pub fn is_md(name: &String) -> (r: bool)
    ensures
        r == is_md_name(name@),
{
    let s = name.as_str();
    let n = s.unicode_len();
    if n < 4 {
        false
    } else {
        s.get_char(n - 3) == '.' && s.get_char(n - 2) == 'm' && s.get_char(n - 1) == 'd'
    }
}

/// The stem of a markdown note name.
pub fn stem_of(name: &String) -> (r: String)
    requires
        is_md_name(name@),
    ensures
        r@ == md_stem(name@),
{
    let s = name.as_str();
    let n = s.unicode_len();
    s.substring_char(0, n - 3).to_owned()
}

// ---------------------------------------------------------------------------
// Case-insensitive identity
// ---------------------------------------------------------------------------

/// What `str::to_lowercase` returns for the characters `s`: the Unicode
/// lowercase mapping, a function of the characters alone.
pub uninterp spec fn lower_of(s: Seq<char>) -> Seq<char>;

/// Relies on `str::to_lowercase`: the lowercased text depends on the
/// characters alone.
#[verifier::external_body]
pub(crate) fn lowercase(s: &str) -> (r: String)
    ensures
        r@ == lower_of(s@),
{
    s.to_lowercase()
}

// ---------------------------------------------------------------------------
// Name order (for sorted sibling lists)
// ---------------------------------------------------------------------------

/// Strict lexicographic order on character sequences by code point. For
/// UTF-8 encoded names this coincides with byte order.
pub open spec fn chars_lt(a: Seq<char>, b: Seq<char>) -> bool
    decreases a.len(),
{
    if b.len() == 0 {
        false
    } else if a.len() == 0 {
        true
    } else if (a[0] as u32) < (b[0] as u32) {
        true
    } else if (b[0] as u32) < (a[0] as u32) {
        false
    } else {
        chars_lt(a.drop_first(), b.drop_first())
    }
}

pub open spec fn chars_le(a: Seq<char>, b: Seq<char>) -> bool {
    !chars_lt(b, a)
}

pub proof fn lemma_chars_lt_connected(a: Seq<char>, b: Seq<char>)
    ensures
        chars_lt(a, b) || chars_lt(b, a) || a == b,
        !(chars_lt(a, b) && chars_lt(b, a)),
    decreases a.len(),
{
    if a.len() > 0 && b.len() > 0 && (a[0] as u32) == (b[0] as u32) {
        char_u32_cast(a[0], a[0] as u32);
        char_u32_cast(b[0], b[0] as u32);
        assert(a[0] == b[0]);
        lemma_chars_lt_connected(a.drop_first(), b.drop_first());
        if a.drop_first() == b.drop_first() {
            assert forall|i: int| 0 <= i < a.len() implies a[i] == b[i] by {
                if i > 0 {
                    assert(a.drop_first()[i - 1] == b.drop_first()[i - 1]);
                }
            }
            assert(a =~= b);
        }
    }
}

pub proof fn lemma_chars_lt_trans(a: Seq<char>, b: Seq<char>, c: Seq<char>)
    requires
        chars_lt(a, b),
        chars_lt(b, c),
    ensures
        chars_lt(a, c),
    decreases a.len(),
{
    if a.len() > 0 && b.len() > 0 && c.len() > 0 && (a[0] as u32) == (b[0] as u32) && (b[0] as u32)
        == (c[0] as u32) {
        lemma_chars_lt_trans(a.drop_first(), b.drop_first(), c.drop_first());
    }
}

/// Strict order on strings: `a` before `b`.
pub fn str_lt(a: &str, b: &str) -> (r: bool)
    ensures
        r == chars_lt(a@, b@),
{
    proof {
        assert(a@.skip(0) =~= a@);
        assert(b@.skip(0) =~= b@);
    }
    str_lt_from(a, b, 0)
}

fn str_lt_from(a: &str, b: &str, i: usize) -> (r: bool)
    requires
        i <= a@.len(),
        i <= b@.len(),
    ensures
        r == chars_lt(a@.skip(i as int), b@.skip(i as int)),
    decreases a@.len() - i,
{
    let na = a.unicode_len();
    let nb = b.unicode_len();
    if i == nb {
        proof {
            assert(b@.skip(i as int).len() == 0);
        }
        false
    } else if i == na {
        proof {
            assert(a@.skip(i as int).len() == 0);
            assert(b@.skip(i as int).len() > 0);
        }
        true
    } else {
        let ca = a.get_char(i);
        let cb = b.get_char(i);
        proof {
            assert(a@.skip(i as int)[0] == a@[i as int]);
            assert(b@.skip(i as int)[0] == b@[i as int]);
            assert(a@.skip(i as int).drop_first() =~= a@.skip(i + 1));
            assert(b@.skip(i as int).drop_first() =~= b@.skip(i + 1));
        }
        let ua = ca as u32;
        let ub = cb as u32;
        if ua < ub {
            true
        } else if ub < ua {
            false
        } else {
            str_lt_from(a, b, i + 1)
        }
    }
}

// ---------------------------------------------------------------------------
// Path arithmetic
// ---------------------------------------------------------------------------

/// `a` then `b` with exactly one separator between them, as path joining
/// produces: an empty `a` yields `b`, and a trailing separator is not
/// doubled.
pub open spec fn spec_join(a: Seq<char>, b: Seq<char>) -> Seq<char> {
    if a.len() == 0 {
        b
    } else if a[a.len() - 1] == '/' {
        a + b
    } else {
        a + seq!['/'] + b
    }
}

/// Joins a path and a child name.
pub fn join_path(a: &str, b: &str) -> (r: String)
    ensures
        r@ == spec_join(a@, b@),
{
    let n = a.unicode_len();
    proof {
        reveal_strlit("/");
        assert("/"@ =~= seq!['/']);
    }
    if n == 0 {
        b.to_owned()
    } else if a.get_char(n - 1) == '/' {
        let r = a.to_owned().concat(b);
        proof {
            assert(r@ =~= spec_join(a@, b@));
        }
        r
    } else {
        let r = a.to_owned().concat("/").concat(b);
        proof {
            assert(r@ =~= spec_join(a@, b@));
        }
        r
    }
}

/// The position just after the last `/` of `s` (0 when there is none).
pub open spec fn after_last_slash(s: Seq<char>) -> int
    decreases s.len(),
{
    if s.len() == 0 {
        0
    } else if s[s.len() - 1] == '/' {
        s.len() as int
    } else {
        after_last_slash(s.drop_last())
    }
}

/// The last path segment of a reference target: everything after the last
/// `/` (the whole target when it has none).
pub open spec fn strip_folder(s: Seq<char>) -> Seq<char> {
    s.skip(after_last_slash(s))
}

pub proof fn lemma_after_last_slash(s: Seq<char>)
    ensures
        0 <= after_last_slash(s) <= s.len(),
        forall|k: int| after_last_slash(s) <= k < s.len() ==> s[k] != '/',
        after_last_slash(s) > 0 ==> s[after_last_slash(s) - 1] == '/',
    decreases s.len(),
{
    if s.len() > 0 && s[s.len() - 1] != '/' {
        lemma_after_last_slash(s.drop_last());
        assert forall|k: int| after_last_slash(s) <= k < s.len() implies s[k] != '/' by {
            if k < s.len() - 1 {
                assert(s.drop_last()[k] == s[k]);
            }
        }
    }
}

pub proof fn lemma_after_last_slash_unique(s: Seq<char>, p: int)
    requires
        0 <= p <= s.len(),
        forall|k: int| p <= k < s.len() ==> s[k] != '/',
        p > 0 ==> s[p - 1] == '/',
    ensures
        p == after_last_slash(s),
    decreases s.len(),
{
    if s.len() > 0 && s[s.len() - 1] != '/' {
        assert(p < s.len());
        lemma_after_last_slash_unique(s.drop_last(), p);
    }
}

/// Position after the last `/` of the characters `chars` (0 when there is
/// none).
pub fn find_after_last_slash(chars: &Vec<char>) -> (p: usize)
    ensures
        p as int == after_last_slash(chars@),
{
    let n = chars.len();
    let mut j = n;
    loop
        invariant_except_break
            j <= n,
            n == chars@.len(),
            forall|k: int| j <= k < n ==> chars@[k] != '/',
        ensures
            j <= n,
            n == chars@.len(),
            forall|k: int| j <= k < n ==> chars@[k] != '/',
            j > 0 ==> chars@[j - 1] == '/',
        decreases j,
    {
        if j == 0 {
            break ;
        }
        if chars[j - 1] == '/' {
            break ;
        }
        j = j - 1;
    }
    proof {
        lemma_after_last_slash_unique(chars@, j as int);
    }
    j
}

// ---------------------------------------------------------------------------
// Path components
// ---------------------------------------------------------------------------

/// First `/` at or after `k` (or the end of `s`).
pub open spec fn first_slash_from(s: Seq<char>, k: int) -> int
    decreases s.len() - k,
{
    if k < 0 || k >= s.len() {
        s.len() as int
    } else if s[k] == '/' {
        k
    } else {
        first_slash_from(s, k + 1)
    }
}

pub proof fn lemma_first_slash_from_unique(s: Seq<char>, k: int, f: int)
    requires
        0 <= k <= f <= s.len(),
        forall|p: int| k <= p < f ==> s[p] != '/',
        f < s.len() ==> s[f] == '/',
    ensures
        f == first_slash_from(s, k),
    decreases f - k,
{
    if k < f {
        lemma_first_slash_from_unique(s, k + 1, f);
    }
}

/// The `/`-separated components of `s` from position `k` on; empty and `.`
/// components are dropped, as path normalization drops them.
pub open spec fn components_from(s: Seq<char>, k: int) -> Seq<Seq<char>>
    decreases s.len() + 1 - k,
{
    if k < 0 || k >= s.len() {
        Seq::empty()
    } else {
        let f = first_slash_from(s, k);
        let fc = if k <= f <= s.len() {
            f
        } else {
            s.len() as int
        };
        let head = s.subrange(k, fc);
        let rest = components_from(s, fc + 1);
        if head.len() == 0 || head == seq!['.'] {
            rest
        } else {
            seq![head] + rest
        }
    }
}

pub open spec fn components_of(s: Seq<char>) -> Seq<Seq<char>> {
    components_from(s, 0)
}

pub open spec fn strings_views(v: Seq<String>) -> Seq<Seq<char>> {
    v.map_values(|s: String| s@)
}

/// Splits a path string on `/`, dropping empty and `.` components.
pub fn split_components(text: &str, chars: &Vec<char>) -> (r: Vec<String>)
    requires
        chars@ == text@,
    ensures
        strings_views(r@) == components_of(text@),
{
    let mut r: Vec<String> = Vec::new();
    let n = chars.len();
    let mut k: usize = 0;
    proof {
        assert(strings_views(r@) + components_from(text@, 0) =~= components_of(text@));
    }
    while k < n
        invariant
            k <= n,
            n == text@.len(),
            chars@ == text@,
            strings_views(r@) + components_from(text@, k as int) == components_of(text@),
        decreases n - k,
    {
        // find the next slash
        let mut f = k;
        loop
            invariant_except_break
                k <= f <= n,
                n == chars@.len(),
                chars@ == text@,
                forall|p: int| k <= p < f ==> chars@[p] != '/',
            ensures
                k <= f <= n,
                forall|p: int| k <= p < f ==> chars@[p] != '/',
                f < n ==> chars@[f as int] == '/',
            decreases n - f,
        {
            if f == n {
                break ;
            }
            if chars[f] == '/' {
                break ;
            }
            f = f + 1;
        }
        proof {
            lemma_first_slash_from_unique(text@, k as int, f as int);
        }
        let is_dot = f == k + 1 && chars[k] == '.';
        proof {
            if is_dot {
                assert(text@.subrange(k as int, f as int) =~= seq!['.']);
            }
            if f == k {
                assert(text@.subrange(k as int, f as int).len() == 0);
            }
            if !(f == k || is_dot) {
                let head = text@.subrange(k as int, f as int);
                if head == seq!['.'] {
                    assert(head.len() == 1);
                    assert(head[0] == '.');
                    assert(head[0] == text@[k as int]);
                }
            }
        }
        if !(f == k || is_dot) {
            let piece = text.substring_char(k, f).to_owned();
            let ghost old_r = r@;
            r.push(piece);
            proof {
                assert(strings_views(r@) =~= strings_views(old_r).push(
                    text@.subrange(k as int, f as int),
                ));
                assert(strings_views(old_r) + components_from(text@, k as int) =~= strings_views(
                    r@,
                ) + components_from(text@, f + 1));
            }
        } else {
            proof {
                assert(components_from(text@, k as int) =~= components_from(text@, f + 1));
            }
        }
        proof {
            if f == n {
                assert(components_from(text@, f + 1) =~= components_from(text@, n as int));
            }
        }
        k = if f == n {
            n
        } else {
            f + 1
        };
    }
    proof {
        assert(components_from(text@, k as int) =~= Seq::<Seq<char>>::empty());
        assert(strings_views(r@) =~= strings_views(r@) + components_from(text@, k as int));
    }
    r
}

// ---------------------------------------------------------------------------
// Lookup in a snapshot
// ---------------------------------------------------------------------------

/// Index of the first entry named `name`, searching from `k`.
pub open spec fn find_named_from(entries: Seq<FsEntry>, name: Seq<char>, k: int) -> Option<int>
    decreases entries.len() - k,
{
    if k < 0 || k >= entries.len() {
        None
    } else if entries[k].name_chars() == name {
        Some(k)
    } else {
        find_named_from(entries, name, k + 1)
    }
}

pub open spec fn find_named(entries: Seq<FsEntry>, name: Seq<char>) -> Option<int> {
    find_named_from(entries, name, 0)
}

/// Finds the first entry with the given name.
pub fn lookup_named(entries: &Vec<FsEntry>, name: &String) -> (r: Option<usize>)
    ensures
        match r {
            Some(i) => i < entries@.len() && find_named(entries@, name@) == Some(i as int),
            None => find_named(entries@, name@) is None,
        },
{
    let n = entries.len();
    let mut k: usize = 0;
    while k < n
        invariant
            k <= n,
            n == entries@.len(),
            find_named(entries@, name@) == find_named_from(entries@, name@, k as int),
        decreases n - k,
    {
        if entry_name(&entries[k]).eq(name) {
            return Some(k);
        }
        k = k + 1;
    }
    None
}

/// Whether the path given by `comps` leads to an entry: every component but
/// the last names a directory along the way; the last names any entry.
pub open spec fn path_in_entries(entries: Seq<FsEntry>, comps: Seq<Seq<char>>) -> bool
    decreases comps.len(),
{
    if comps.len() == 0 {
        false
    } else {
        match find_named(entries, comps[0]) {
            Some(i) => {
                if comps.len() == 1 {
                    true
                } else {
                    match entries[i] {
                        FsEntry::Dir { entries: sub, .. } => path_in_entries(
                            sub@,
                            comps.drop_first(),
                        ),
                        FsEntry::File { .. } => false,
                    }
                }
            },
            None => false,
        }
    }
}

/// Whether the path `comps[j..]` leads to an entry of the snapshot.
pub fn path_exists(entries: &Vec<FsEntry>, comps: &Vec<String>, j: usize) -> (r: bool)
    requires
        j <= comps@.len(),
    ensures
        r == path_in_entries(entries@, strings_views(comps@).skip(j as int)),
    decreases comps@.len() - j,
{
    let ghost cs = strings_views(comps@).skip(j as int);
    if j == comps.len() {
        proof {
            assert(cs.len() == 0);
        }
        return false;
    }
    proof {
        assert(cs[0] == comps@[j as int]@);
    }
    match lookup_named(entries, &comps[j]) {
        Some(i) => {
            if j + 1 == comps.len() {
                proof {
                    assert(cs.len() == 1);
                }
                true
            } else {
                proof {
                    assert(cs.drop_first() =~= strings_views(comps@).skip(j + 1));
                }
                match &entries[i] {
                    FsEntry::Dir { entries: sub, .. } => path_exists(sub, comps, j + 1),
                    FsEntry::File { .. } => false,
                }
            }
        },
        None => false,
    }
}


pub proof fn lemma_find_named_range(entries: Seq<FsEntry>, name: Seq<char>, k: int)
    requires
        0 <= k,
    ensures
        match find_named_from(entries, name, k) {
            Some(i) => k <= i < entries.len() && entries[i].name_chars() == name,
            None => true,
        },
    decreases entries.len() - k,
{
    if k < entries.len() && entries[k].name_chars() != name {
        lemma_find_named_range(entries, name, k + 1);
    }
}


/// `dir` extended by `names`, one path level at a time.
pub open spec fn joins_chain(dir: Seq<char>, names: Seq<Seq<char>>) -> Seq<char>
    decreases names.len(),
{
    if names.len() == 0 {
        dir
    } else {
        joins_chain(spec_join(dir, names[0]), names.drop_first())
    }
}

/// None of the names is hidden.
pub open spec fn all_not_hidden(names: Seq<Seq<char>>) -> bool {
    forall|i: int| 0 <= i < names.len() ==> !is_hidden_name(#[trigger] names[i])
}

} // verus!
