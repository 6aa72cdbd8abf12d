//! Parsing of bracketed references embedded in note text.
//!
//! The grammar is `[[TARGET]]`, `[[TARGET#HEADING]]`, `[[TARGET|DISPLAY]]`,
//! `[[TARGET#HEADING|DISPLAY]]`, where `TARGET` excludes `]`, `|`, `#`;
//! `HEADING` excludes `]`, `|`; and `DISPLAY` excludes `]`. Matching is
//! non-overlapping and left-to-right. Captured pieces are trimmed of
//! surrounding whitespace; a match whose trimmed target is empty yields no
//! reference. Spans are byte offsets into the UTF-8 encoding of the text.

use vstd::prelude::*;

verus! {

use crate::unicode::{
    utf8_len, chars_vec, byte_offsets, lemma_utf8_len_take_mono, lemma_encode_utf8_subrange,
};
use vstd::string::{StrSliceExecFns, StringExecFns};
use vstd::utf8::encode_utf8;

// ---------------------------------------------------------------------------
// Character classes of the grammar
// ---------------------------------------------------------------------------

/// The classes of characters that may extend each captured piece, plus the
/// whitespace class used for trimming.
#[derive(Clone, Copy, Debug, PartialEq, Eq)]
pub enum CharClass {
    Target,
    Heading,
    Display,
    Ws,
}

/// Unicode `White_Space` characters: what trimming strips.
pub open spec fn is_ws(c: char) -> bool {
    let u = c as u32;
    (0x09 <= u && u <= 0x0D) || u == 0x20 || u == 0x85 || u == 0xA0 || u == 0x1680 || (0x2000
        <= u && u <= 0x200A) || u == 0x2028 || u == 0x2029 || u == 0x202F || u == 0x205F || u
        == 0x3000
}

pub open spec fn in_class(c: char, k: CharClass) -> bool {
    match k {
        CharClass::Target => c != ']' && c != '|' && c != '#',
        CharClass::Heading => c != ']' && c != '|',
        CharClass::Display => c != ']',
        CharClass::Ws => is_ws(c),
    }
}

/// First position at or after `j` whose character leaves the class `k` (or the
/// end of `s`).
pub open spec fn run_end(s: Seq<char>, j: int, k: CharClass) -> int
    decreases s.len() - j,
{
    if j < 0 || j >= s.len() {
        j
    } else if in_class(s[j], k) {
        run_end(s, j + 1, k)
    } else {
        j
    }
}

pub proof fn lemma_run_end(s: Seq<char>, j: int, k: CharClass)
    requires
        0 <= j <= s.len(),
    ensures
        ({
            let e = run_end(s, j, k);
            &&& j <= e <= s.len()
            &&& forall|p: int| j <= p < e ==> in_class(#[trigger] s[p], k)
            &&& e < s.len() ==> !in_class(s[e], k)
        }),
    decreases s.len() - j,
{
    if j < s.len() && in_class(s[j], k) {
        lemma_run_end(s, j + 1, k);
    }
}

/// `run_end` is the unique position with all of the class before it and a
/// stop at it.
pub proof fn lemma_run_end_unique(s: Seq<char>, j: int, e: int, k: CharClass)
    requires
        0 <= j <= e <= s.len(),
        forall|p: int| j <= p < e ==> in_class(#[trigger] s[p], k),
        e < s.len() ==> !in_class(s[e], k),
    ensures
        e == run_end(s, j, k),
    decreases e - j,
{
    if j < e {
        lemma_run_end_unique(s, j + 1, e, k);
    }
}

// ---------------------------------------------------------------------------
// Whitespace trimming
// ---------------------------------------------------------------------------

/// Start of the maximal whitespace suffix of `s.take(j)`.
pub open spec fn ws_suffix_start(s: Seq<char>, j: int) -> int
    decreases j,
{
    if 0 < j && j <= s.len() && is_ws(s[j - 1]) {
        ws_suffix_start(s, j - 1)
    } else {
        j
    }
}

pub proof fn lemma_ws_suffix(s: Seq<char>, j: int)
    requires
        0 <= j <= s.len(),
    ensures
        ({
            let b = ws_suffix_start(s, j);
            &&& 0 <= b <= j
            &&& forall|p: int| b <= p < j ==> is_ws(#[trigger] s[p])
            &&& b > 0 ==> !is_ws(s[b - 1])
        }),
    decreases j,
{
    if 0 < j && is_ws(s[j - 1]) {
        lemma_ws_suffix(s, j - 1);
    }
}

pub proof fn lemma_ws_suffix_unique(s: Seq<char>, j: int, b: int)
    requires
        0 <= b <= j <= s.len(),
        forall|p: int| b <= p < j ==> is_ws(#[trigger] s[p]),
        b > 0 ==> !is_ws(s[b - 1]),
    ensures
        b == ws_suffix_start(s, j),
    decreases j - b,
{
    if b < j {
        lemma_ws_suffix_unique(s, j - 1, b);
    }
}

/// `s` with leading and trailing whitespace characters removed.
pub open spec fn trim_chars(s: Seq<char>) -> Seq<char> {
    let a = run_end(s, 0, CharClass::Ws);
    if a == s.len() {
        Seq::empty()
    } else {
        s.subrange(a, ws_suffix_start(s, s.len() as int))
    }
}

/// Trimming leaves no surrounding whitespace, so trimming twice changes
/// nothing.
pub proof fn lemma_trim_chars_idempotent(s: Seq<char>)
    ensures
        trim_chars(trim_chars(s)) == trim_chars(s),
        trim_chars(s).len() <= s.len(),
{
    lemma_run_end(s, 0, CharClass::Ws);
    lemma_ws_suffix(s, s.len() as int);
    let a = run_end(s, 0, CharClass::Ws);
    let b = ws_suffix_start(s, s.len() as int);
    if a == s.len() {
        let t = trim_chars(s);
        assert(t.len() == 0);
        assert(run_end(t, 0, CharClass::Ws) == 0);
        assert(trim_chars(t) =~= t);
    } else {
        // a points at a non-whitespace character, so the suffix scan stops
        // after it: b > a.
        assert(!is_ws(s[a]));
        if b <= a {
            assert(is_ws(s[a]));
        }
        let t = s.subrange(a, b);
        assert(t.len() > 0);
        assert(!is_ws(t[0]));
        assert(!is_ws(t[t.len() - 1]));
        lemma_run_end_unique(t, 0, 0, CharClass::Ws);
        lemma_ws_suffix_unique(t, t.len() as int, t.len() as int);
        assert(trim_chars(t) =~= t);
    }
}

// ---------------------------------------------------------------------------
// The grammar, as character spans
// ---------------------------------------------------------------------------

/// A half-open character span (ghost).
pub struct SpanPair {
    pub lo: int,
    pub hi: int,
}

/// The character spans of one grammar match (ghost).
pub struct MatchSpans {
    pub start: int,
    pub end: int,
    pub target: SpanPair,
    pub heading: Option<SpanPair>,
    pub display: Option<SpanPair>,
}

/// The one match of the reference grammar anchored at position `i`, if any.
/// Capture runs are maximal; an optional piece whose run would be empty is
/// not taken (and the match then fails at the closing brackets, as it does
/// for a left-to-right regular-expression engine).
pub open spec fn match_at(s: Seq<char>, i: int) -> Option<MatchSpans> {
    if 0 <= i && i + 2 <= s.len() && s[i] == '[' && s[i + 1] == '[' {
        let t_hi = run_end(s, i + 2, CharClass::Target);
        if t_hi == i + 2 {
            None
        } else {
            let take_h = t_hi < s.len() && s[t_hi] == '#' && run_end(s, t_hi + 1, CharClass::Heading)
                > t_hi + 1;
            let p1 = if take_h {
                run_end(s, t_hi + 1, CharClass::Heading)
            } else {
                t_hi
            };
            let take_d = p1 < s.len() && s[p1] == '|' && run_end(s, p1 + 1, CharClass::Display) > p1
                + 1;
            let p2 = if take_d {
                run_end(s, p1 + 1, CharClass::Display)
            } else {
                p1
            };
            if p2 + 2 <= s.len() && s[p2] == ']' && s[p2 + 1] == ']' {
                Some(
                    MatchSpans {
                        start: i,
                        end: p2 + 2,
                        target: SpanPair { lo: i + 2, hi: t_hi },
                        heading: if take_h {
                            Some(SpanPair { lo: t_hi + 1, hi: p1 })
                        } else {
                            None
                        },
                        display: if take_d {
                            Some(SpanPair { lo: p1 + 1, hi: p2 })
                        } else {
                            None
                        },
                    },
                )
            } else {
                None
            }
        }
    } else {
        None
    }
}

pub proof fn lemma_match_at_bounds(s: Seq<char>, i: int)
    requires
        match_at(s, i) is Some,
    ensures
        ({
            let m = match_at(s, i)->Some_0;
            &&& m.start == i
            &&& 0 <= i
            &&& m.target.lo == i + 2
            &&& m.target.lo < m.target.hi
            &&& m.target.hi + 2 <= m.end <= s.len()
            &&& (m.heading matches Some(h) ==> m.target.hi < h.lo <= h.hi && h.hi + 2 <= m.end)
            &&& (m.display matches Some(d) ==> m.target.hi < d.lo <= d.hi && d.hi + 2 <= m.end)
        }),
{
    lemma_run_end(s, i + 2, CharClass::Target);
    let t_hi = run_end(s, i + 2, CharClass::Target);
    if t_hi < s.len() && s[t_hi] == '#' {
        lemma_run_end(s, t_hi + 1, CharClass::Heading);
    }
    let take_h = t_hi < s.len() && s[t_hi] == '#' && run_end(s, t_hi + 1, CharClass::Heading) > t_hi
        + 1;
    let p1 = if take_h {
        run_end(s, t_hi + 1, CharClass::Heading)
    } else {
        t_hi
    };
    if p1 < s.len() && s[p1] == '|' {
        lemma_run_end(s, p1 + 1, CharClass::Display);
    }
}

/// All matches of the grammar in `s` from position `i` on: the leftmost match
/// (if its trimmed target is nonempty), then the matches after its end.
pub open spec fn scan(s: Seq<char>, i: int) -> Seq<MatchSpans>
    decreases s.len() - i,
{
    if i < 0 || i >= s.len() {
        Seq::empty()
    } else {
        match match_at(s, i) {
            Some(m) => {
                // A match always ends after `i` and within `s`
                // (`lemma_match_at_bounds`); the clamp only serves the
                // termination measure.
                let next = if i < m.end <= s.len() {
                    m.end
                } else {
                    i + 1
                };
                let rest = scan(s, next);
                if trim_chars(s.subrange(m.target.lo, m.target.hi)).len() > 0 {
                    seq![m] + rest
                } else {
                    rest
                }
            },
            None => scan(s, i + 1),
        }
    }
}

// ---------------------------------------------------------------------------
// Reference values and their mathematical view
// ---------------------------------------------------------------------------

/// Mathematical view of one parsed reference.
pub struct LinkModel {
    pub target: Seq<char>,
    pub heading: Option<Seq<char>>,
    pub display_text: Option<Seq<char>>,
    /// Byte offset of the start of the match in the UTF-8 encoding of the text.
    pub start: int,
    /// Byte offset one past the end of the match.
    pub end: int,
    pub raw: Seq<char>,
}

/// The reference a match denotes: trimmed captures and byte offsets.
pub open spec fn model_of(s: Seq<char>, m: MatchSpans) -> LinkModel {
    LinkModel {
        target: trim_chars(s.subrange(m.target.lo, m.target.hi)),
        heading: match m.heading {
            Some(h) => Some(trim_chars(s.subrange(h.lo, h.hi))),
            None => None,
        },
        display_text: match m.display {
            Some(d) => Some(trim_chars(s.subrange(d.lo, d.hi))),
            None => None,
        },
        start: utf8_len(s.take(m.start)) as int,
        end: utf8_len(s.take(m.end)) as int,
        raw: s.subrange(m.start, m.end),
    }
}

pub open spec fn scan_models(s: Seq<char>, i: int) -> Seq<LinkModel> {
    scan(s, i).map_values(|m: MatchSpans| model_of(s, m))
}

/// The references that parsing the text `s` yields, leftmost first.
pub open spec fn links_of(s: Seq<char>) -> Seq<LinkModel> {
    scan_models(s, 0)
}

/// A parsed reference.
#[derive(Debug, Clone, PartialEq, Eq)]
pub struct WikiLink {
    /// The referenced note (no `.md` extension; may carry a folder prefix).
    pub target: String,
    /// Optional in-note anchor.
    pub heading: Option<String>,
    /// Optional rendering override.
    pub display_text: Option<String>,
    /// Byte offset of the start of the match in the source text.
    pub start: usize,
    /// Byte offset one past the end of the match.
    pub end: usize,
    /// The verbatim matched text, brackets included.
    pub raw: String,
}

impl View for WikiLink {
    type V = LinkModel;

    open spec fn view(&self) -> LinkModel {
        LinkModel {
            target: self.target@,
            heading: match self.heading {
                Some(h) => Some(h@),
                None => None,
            },
            display_text: match self.display_text {
                Some(d) => Some(d@),
                None => None,
            },
            start: self.start as int,
            end: self.end as int,
            raw: self.raw@,
        }
    }
}

pub open spec fn links_views(v: Seq<WikiLink>) -> Seq<LinkModel> {
    v.map_values(|l: WikiLink| l@)
}

// ---------------------------------------------------------------------------
// Executable parsing
// ---------------------------------------------------------------------------

fn is_ws_char(c: char) -> (r: bool)
    ensures
        r == is_ws(c),
{
    let u = c as u32;
    (0x09 <= u && u <= 0x0D) || u == 0x20 || u == 0x85 || u == 0xA0 || u == 0x1680 || (0x2000
        <= u && u <= 0x200A) || u == 0x2028 || u == 0x2029 || u == 0x202F || u == 0x205F || u
        == 0x3000
}

fn in_class_exec(c: char, k: CharClass) -> (r: bool)
    ensures
        r == in_class(c, k),
{
    match k {
        CharClass::Target => c != ']' && c != '|' && c != '#',
        CharClass::Heading => c != ']' && c != '|',
        CharClass::Display => c != ']',
        CharClass::Ws => is_ws_char(c),
    }
}

fn run_scan(chars: &Vec<char>, from: usize, k: CharClass) -> (e: usize)
    requires
        from <= chars@.len(),
    ensures
        from <= e <= chars@.len(),
        e as int == run_end(chars@, from as int, k),
{
    let n = chars.len();
    let mut j = from;
    loop
        invariant_except_break
            from <= j <= n,
            n == chars@.len(),
            forall|p: int| from <= p < j ==> in_class(#[trigger] chars@[p], k),
        ensures
            from <= j <= n,
            n == chars@.len(),
            forall|p: int| from <= p < j ==> in_class(#[trigger] chars@[p], k),
            j < n ==> !in_class(chars@[j as int], k),
        decreases n - j,
    {
        if j == n {
            break ;
        }
        if !in_class_exec(chars[j], k) {
            break ;
        }
        j = j + 1;
    }
    proof {
        lemma_run_end_unique(chars@, from as int, j as int, k);
    }
    j
}

/// One grammar match, in executable form.
struct RawMatch {
    end: usize,
    t_lo: usize,
    t_hi: usize,
    heading: Option<(usize, usize)>,
    display: Option<(usize, usize)>,
}

spec fn rm_spans(rm: RawMatch, i: int) -> MatchSpans {
    MatchSpans {
        start: i,
        end: rm.end as int,
        target: SpanPair { lo: rm.t_lo as int, hi: rm.t_hi as int },
        heading: match rm.heading {
            Some((lo, hi)) => Some(SpanPair { lo: lo as int, hi: hi as int }),
            None => None,
        },
        display: match rm.display {
            Some((lo, hi)) => Some(SpanPair { lo: lo as int, hi: hi as int }),
            None => None,
        },
    }
}

fn try_match(chars: &Vec<char>, i: usize) -> (r: Option<RawMatch>)
    requires
        i < chars@.len(),
    ensures
        match r {
            Some(rm) => {
                &&& match_at(chars@, i as int) == Some(rm_spans(rm, i as int))
                &&& i < rm.end <= chars@.len()
                &&& i + 2 <= rm.t_lo <= rm.t_hi <= chars@.len()
                &&& (rm.heading matches Some((lo, hi)) ==> lo <= hi <= chars@.len())
                &&& (rm.display matches Some((lo, hi)) ==> lo <= hi <= chars@.len())
            },
            None => match_at(chars@, i as int) is None,
        },
{
    let n = chars.len();
    if chars[i] != '[' || i + 1 >= n || chars[i + 1] != '[' {
        return None;
    }
    let t_hi = run_scan(chars, i + 2, CharClass::Target);
    if t_hi == i + 2 {
        return None;
    }
    let mut p = t_hi;
    let mut heading: Option<(usize, usize)> = None;
    if t_hi < n && chars[t_hi] == '#' {
        let h_hi = run_scan(chars, t_hi + 1, CharClass::Heading);
        if h_hi > t_hi + 1 {
            heading = Some((t_hi + 1, h_hi));
            p = h_hi;
        }
    }
    let mut display: Option<(usize, usize)> = None;
    if p < n && chars[p] == '|' {
        let d_hi = run_scan(chars, p + 1, CharClass::Display);
        if d_hi > p + 1 {
            display = Some((p + 1, d_hi));
            p = d_hi;
        }
    }
    if p < n && chars[p] == ']' && p + 1 < n && chars[p + 1] == ']' {
        Some(RawMatch { end: p + 2, t_lo: i + 2, t_hi, heading, display })
    } else {
        None
    }
}

/// Trims the whitespace from both ends of the span `[lo, hi)` of `chars`.
pub(crate) fn trim_span(chars: &Vec<char>, lo: usize, hi: usize) -> (r: (usize, usize))
    requires
        lo <= hi <= chars@.len(),
    ensures
        lo <= r.0 <= r.1 <= hi,
        chars@.subrange(r.0 as int, r.1 as int) == trim_chars(
            chars@.subrange(lo as int, hi as int),
        ),
{
    let mut a = lo;
    loop
        invariant_except_break
            lo <= a <= hi,
            hi <= chars@.len(),
            forall|p: int| lo <= p < a ==> is_ws(#[trigger] chars@[p]),
        ensures
            lo <= a <= hi,
            hi <= chars@.len(),
            forall|p: int| lo <= p < a ==> is_ws(#[trigger] chars@[p]),
            a < hi ==> !is_ws(chars@[a as int]),
        decreases hi - a,
    {
        if a == hi {
            break ;
        }
        if !is_ws_char(chars[a]) {
            break ;
        }
        a = a + 1;
    }
    let mut b = hi;
    loop
        invariant_except_break
            a <= b <= hi,
            hi <= chars@.len(),
            forall|p: int| b <= p < hi ==> is_ws(#[trigger] chars@[p]),
        ensures
            a <= b <= hi,
            hi <= chars@.len(),
            forall|p: int| b <= p < hi ==> is_ws(#[trigger] chars@[p]),
            b > a ==> !is_ws(chars@[b - 1]),
        decreases b,
    {
        if b == a {
            break ;
        }
        if !is_ws_char(chars[b - 1]) {
            break ;
        }
        b = b - 1;
    }
    proof {
        let sub = chars@.subrange(lo as int, hi as int);
        assert(forall|p: int| 0 <= p < sub.len() ==> sub[p] == chars@[lo + p]);
        if a == hi {
            // The whole span is whitespace.
            lemma_run_end_unique(sub, 0, sub.len() as int, CharClass::Ws);
            assert(b == a) by {
                if b > a {
                    assert(!is_ws(chars@[b - 1]));
                    assert(is_ws(chars@[b - 1]));
                }
            }
            assert(chars@.subrange(a as int, b as int) =~= trim_chars(sub));
        } else {
            lemma_run_end_unique(sub, 0, a - lo, CharClass::Ws);
            assert(b > a) by {
                if b == a {
                    assert(is_ws(chars@[a as int]));
                }
            }
            assert(!is_ws(sub[b - lo - 1]));
            lemma_ws_suffix_unique(sub, sub.len() as int, b - lo);
            assert(chars@.subrange(a as int, b as int) =~= trim_chars(sub));
        }
    }
    (a, b)
}

/// The substring of `text` covering the character span `[lo, hi)`.
fn substr(text: &str, lo: usize, hi: usize) -> (r: String)
    requires
        lo <= hi <= text@.len(),
    ensures
        r@ == text@.subrange(lo as int, hi as int),
{
    text.substring_char(lo, hi).to_owned()
}

/// Extracts every reference from `text`, leftmost first, non-overlapping.
pub fn parse_wiki_links(text: &str) -> (links: Vec<WikiLink>)
    ensures
        links_views(links@) == links_of(text@),
{
    let chars = chars_vec(text);
    let bp = byte_offsets(text, &chars);
    let n = chars.len();
    let mut links: Vec<WikiLink> = Vec::new();
    let mut i: usize = 0;
    proof {
        assert(links_views(links@) + scan_models(text@, 0) =~= links_of(text@));
    }
    while i < n
        invariant
            i <= n,
            n == text@.len(),
            chars@ == text@,
            bp@.len() == n + 1,
            forall|j: int| 0 <= j <= n ==> #[trigger] bp@[j] == utf8_len(text@.take(j)),
            links_views(links@) + scan_models(text@, i as int) == links_of(text@),
        decreases n - i,
    {
        let ghost s = text@;
        match try_match(&chars, i) {
            Some(rm) => {
                let ghost m = rm_spans(rm, i as int);
                proof {
                    lemma_match_at_bounds(s, i as int);
                }
                let (a, b) = trim_span(&chars, rm.t_lo, rm.t_hi);
                if a < b {
                    let target = substr(text, a, b);
                    let heading: Option<String> = match rm.heading {
                        Some((h0, h1)) => {
                            let (x, y) = trim_span(&chars, h0, h1);
                            Some(substr(text, x, y))
                        },
                        None => None,
                    };
                    let display_text: Option<String> = match rm.display {
                        Some((d0, d1)) => {
                            let (x, y) = trim_span(&chars, d0, d1);
                            Some(substr(text, x, y))
                        },
                        None => None,
                    };
                    let raw = substr(text, i, rm.end);
                    let start = bp[i];
                    let end = bp[rm.end];
                    let link = WikiLink { target, heading, display_text, start, end, raw };
                    proof {
                        assert(link@ == model_of(s, m));
                    }
                    links.push(link);
                    proof {
                        assert(scan(s, i as int) =~= seq![m] + scan(s, rm.end as int));
                        assert(links_views(links@) =~= links_views(links@.drop_last()).push(
                            model_of(s, m),
                        ));
                        assert(scan_models(s, i as int) =~= seq![model_of(s, m)] + scan_models(
                            s,
                            rm.end as int,
                        ));
                        assert(links_views(links@) + scan_models(s, rm.end as int)
                            =~= links_views(links@.drop_last()) + scan_models(s, i as int));
                    }
                } else {
                    proof {
                        assert(trim_chars(s.subrange(m.target.lo, m.target.hi)).len() == 0);
                        assert(scan(s, i as int) =~= scan(s, rm.end as int));
                        assert(scan_models(s, i as int) =~= scan_models(s, rm.end as int));
                    }
                }
                i = rm.end;
            },
            None => {
                proof {
                    assert(scan(s, i as int) =~= scan(s, i + 1));
                    assert(scan_models(s, i as int) =~= scan_models(s, i + 1));
                }
                i = i + 1;
            },
        }
    }
    proof {
        assert(scan(text@, i as int) =~= Seq::<MatchSpans>::empty());
        assert(scan_models(text@, i as int) =~= Seq::<LinkModel>::empty());
        assert(links_views(links@) =~= links_views(links@) + scan_models(text@, i as int));
    }
    links
}

// ---------------------------------------------------------------------------
// Span laws
// ---------------------------------------------------------------------------

proof fn lemma_scan_spans(s: Seq<char>, i: int)
    requires
        0 <= i,
    ensures
        forall|k: int|
            0 <= k < scan(s, i).len() ==> {
                let m = #[trigger] scan(s, i)[k];
                &&& i <= m.start
                &&& match_at(s, m.start) == Some(m)
                &&& trim_chars(s.subrange(m.target.lo, m.target.hi)).len() > 0
            },
    decreases s.len() - i,
{
    if 0 <= i < s.len() {
        match match_at(s, i) {
            Some(m) => {
                lemma_match_at_bounds(s, i);
                let next = if i < m.end <= s.len() {
                    m.end
                } else {
                    i + 1
                };
                lemma_scan_spans(s, next);
            },
            None => {
                lemma_scan_spans(s, i + 1);
            },
        }
    }
}

/// Every reference's `raw` text is exactly the byte span `[start, end)` of
/// the source: spans are nonempty, in bounds, and slice the UTF-8 encoding of
/// the text to the encoding of `raw`. Targets are nonempty and carry no
/// surrounding whitespace.
pub proof fn lemma_parse_spans(s: Seq<char>)
    ensures
        forall|k: int|
            0 <= k < links_of(s).len() ==> {
                let l = #[trigger] links_of(s)[k];
                &&& 0 <= l.start < l.end <= utf8_len(s)
                &&& encode_utf8(l.raw) == encode_utf8(s).subrange(l.start, l.end)
                &&& l.target.len() > 0
                &&& trim_chars(l.target) == l.target
            },
{
    lemma_scan_spans(s, 0);
    assert forall|k: int| 0 <= k < links_of(s).len() implies {
        let l = #[trigger] links_of(s)[k];
        &&& 0 <= l.start < l.end <= utf8_len(s)
        &&& encode_utf8(l.raw) == encode_utf8(s).subrange(l.start, l.end)
        &&& l.target.len() > 0
        &&& trim_chars(l.target) == l.target
    } by {
        let m = scan(s, 0)[k];
        lemma_match_at_bounds(s, m.start);
        lemma_utf8_len_take_mono(s, m.start, m.end);
        lemma_utf8_len_take_mono(s, m.end, s.len() as int);
        assert(s.take(s.len() as int) =~= s);
        lemma_encode_utf8_subrange(s, m.start, m.end);
        lemma_trim_chars_idempotent(s.subrange(m.target.lo, m.target.hi));
    }
}

// ---------------------------------------------------------------------------
// Parse results with distinct referenced targets
// ---------------------------------------------------------------------------

/// Result of parsing a note's content.
#[derive(Debug, PartialEq, Eq)]
pub struct ParsedLinks {
    /// All references found, leftmost first.
    pub links: Vec<WikiLink>,
    /// The distinct `target` values, first appearance first.
    pub referenced_notes: Vec<String>,
}

pub open spec fn strings_views(v: Seq<String>) -> Seq<Seq<char>> {
    v.map_values(|s: String| s@)
}

pub open spec fn target_views(ls: Seq<LinkModel>) -> Seq<Seq<char>> {
    ls.map_values(|l: LinkModel| l.target)
}

fn contains_string(v: &Vec<String>, t: &String) -> (r: bool)
    ensures
        r == strings_views(v@).contains(t@),
{
    let n = v.len();
    let mut j: usize = 0;
    while j < n
        invariant
            j <= n,
            n == v@.len(),
            forall|p: int| 0 <= p < j ==> #[trigger] v@[p]@ != t@,
        decreases n - j,
    {
        if v[j].eq(t) {
            proof {
                assert(strings_views(v@)[j as int] == v@[j as int]@);
            }
            return true;
        }
        j = j + 1;
    }
    proof {
        assert forall|p: int| 0 <= p < strings_views(v@).len() implies strings_views(v@)[p]
            != t@ by {
            assert(strings_views(v@)[p] == v@[p]@);
        }
    }
    false
}

/// Parses `content`: all references, plus the deduplicated set of referenced
/// targets (uniqueness, not order, is the contract).
pub fn parse_links(content: String) -> (r: ParsedLinks)
    ensures
        links_views(r.links@) == links_of(content@),
        strings_views(r.referenced_notes@).no_duplicates(),
        forall|t: Seq<char>|
            strings_views(r.referenced_notes@).contains(t) <==> target_views(
                links_of(content@),
            ).contains(t),
{
    let links = parse_wiki_links(content.as_str());
    let n = links.len();
    let mut rn: Vec<String> = Vec::new();
    let mut k: usize = 0;
    while k < n
        invariant
            k <= n,
            n == links@.len(),
            links_views(links@) == links_of(content@),
            strings_views(rn@).no_duplicates(),
            forall|t: Seq<char>|
                strings_views(rn@).contains(t) <==> (exists|j: int|
                    0 <= j < k && #[trigger] links@[j]@.target == t),
        decreases n - k,
    {
        let t = &links[k].target;
        if !contains_string(&rn, t) {
            let ghost old_rn = rn@;
            rn.push(t.clone());
            proof {
                assert(strings_views(rn@) =~= strings_views(old_rn).push(t@));
                assert(strings_views(rn@).no_duplicates());
                assert forall|u: Seq<char>| strings_views(rn@).contains(u) implies (exists|j: int|
                    0 <= j < k + 1 && #[trigger] links@[j]@.target == u) by {
                    if u == t@ {
                        assert(links@[k as int]@.target == u);
                    } else {
                        assert(strings_views(old_rn).contains(u));
                    }
                }
                assert forall|u: Seq<char>|
                    (exists|j: int|
                        0 <= j < k + 1 && #[trigger] links@[j]@.target
                            == u) implies strings_views(rn@).contains(u) by {
                    let j = choose|j: int| 0 <= j < k + 1 && #[trigger] links@[j]@.target == u;
                    if j < k {
                        assert(strings_views(old_rn).contains(u));
                        let p = choose|p: int|
                            0 <= p < strings_views(old_rn).len() && strings_views(old_rn)[p] == u;
                        assert(strings_views(rn@)[p] == u);
                    } else {
                        assert(strings_views(rn@).last() == t@);
                    }
                }
            }
        } else {
            proof {
                assert(links@[k as int]@.target == t@);
                assert forall|u: Seq<char>|
                    (exists|j: int|
                        0 <= j < k + 1 && #[trigger] links@[j]@.target
                            == u) implies strings_views(rn@).contains(u) by {
                    let j = choose|j: int| 0 <= j < k + 1 && #[trigger] links@[j]@.target == u;
                    if j == k {
                        assert(strings_views(rn@).contains(t@));
                    }
                }
            }
        }
        k = k + 1;
    }
    proof {
        assert forall|t: Seq<char>|
            strings_views(rn@).contains(t) <==> target_views(links_of(content@)).contains(t) by {
            if strings_views(rn@).contains(t) {
                let j = choose|j: int| 0 <= j < n && #[trigger] links@[j]@.target == t;
                assert(links_views(links@)[j] == links@[j]@);
                assert(target_views(links_of(content@))[j] == t);
            }
            if target_views(links_of(content@)).contains(t) {
                let j = choose|j: int|
                    0 <= j < target_views(links_of(content@)).len() && target_views(
                        links_of(content@),
                    )[j] == t;
                assert(links_views(links@)[j] == links@[j]@);
                assert(links@[j]@.target == t);
            }
        }
    }
    ParsedLinks { links, referenced_notes: rn }
}

} // verus!
