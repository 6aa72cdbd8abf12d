//! Theme data: named color palettes that callers persist as files.
//!
//! The color groups are plain values; the logic here is what theme handling
//! decides on its own: whether a theme is usable, the file name a theme is
//! stored under, and lookup by name.

use vstd::prelude::*;

verus! {

use vstd::string::{StrSliceExecFns, StringExecFns};

#[derive(Debug, Clone, PartialEq, Eq)]
pub struct ThemeBackgroundColors {
    pub primary: String,
    pub secondary: String,
    pub tertiary: String,
}

#[derive(Debug, Clone, PartialEq, Eq)]
pub struct ThemeTextColors {
    pub primary: String,
    pub secondary: String,
    pub muted: String,
}

#[derive(Debug, Clone, PartialEq, Eq)]
pub struct ThemeBorderColors {
    pub default: String,
    pub focus: String,
}

#[derive(Debug, Clone, PartialEq, Eq)]
pub struct ThemeAccentColors {
    pub primary: String,
    pub primary_hover: String,
    pub danger: String,
    pub danger_hover: String,
    pub success: String,
    pub warning: String,
}

#[derive(Debug, Clone, PartialEq, Eq)]
pub struct ThemeEditorColors {
    pub background: String,
    pub gutter: String,
    pub cursor: String,
    pub selection: String,
    pub placeholder: String,
}

#[derive(Debug, Clone, PartialEq, Eq)]
pub struct ThemeSyntaxColors {
    pub heading1: String,
    pub heading2: String,
    pub heading3: String,
    pub heading4: String,
    pub link: String,
    pub code: String,
    pub code_bg: String,
    pub quote: String,
    pub quote_bg: String,
    pub hr: String,
}

#[derive(Debug, Clone, PartialEq, Eq)]
pub struct ThemeColors {
    pub background: ThemeBackgroundColors,
    pub text: ThemeTextColors,
    pub border: ThemeBorderColors,
    pub accent: ThemeAccentColors,
    pub editor: ThemeEditorColors,
    pub syntax_highlighting: ThemeSyntaxColors,
    pub unsaved_dot: String,
}

/// A named color theme.
#[derive(Debug, Clone, PartialEq, Eq)]
pub struct Theme {
    pub name: String,
    pub version: String,
    pub author: String,
    pub colors: ThemeColors,
}

/// The hover color used for the primary accent when a theme names none.
pub fn default_primary_hover() -> (r: String)
    ensures
        r@ == "#2563eb"@,
{
    "#2563eb".to_owned()
}

/// The hover color used for the danger accent when a theme names none.
pub fn default_danger_hover() -> (r: String)
    ensures
        r@ == "#dc2626"@,
{
    "#dc2626".to_owned()
}

/// A theme is usable when it has a name.
pub fn theme_name_valid(t: &Theme) -> (r: bool)
    ensures
        r == (t.name@.len() > 0),
{
    !t.name.as_str().is_empty()
}

/// What `char::is_alphanumeric` returns: whether the character is Unicode
/// alphabetic or numeric, a function of the character alone.
pub uninterp spec fn is_alnum_char(c: char) -> bool;

/// Relies on `char::is_alphanumeric`: the answer depends on the character
/// alone.
#[verifier::external_body]
fn char_is_alnum(c: char) -> (r: bool)
    ensures
        r == is_alnum_char(c),
{
    c.is_alphanumeric()
}

/// Relies on `String::push`: appends exactly the one character.
#[verifier::external_body]
fn push_char(s: &mut String, c: char)
    ensures
        final (s)@ == old(s)@.push(c),
{
    s.push(c)
}

/// The file-safe form of a theme name: alphanumeric characters, `-` and `_`
/// are kept, anything else becomes `-`.
pub open spec fn theme_file_chars(s: Seq<char>) -> Seq<char> {
    s.map_values(
        |c: char|
            if is_alnum_char(c) || c == '-' || c == '_' {
                c
            } else {
                '-'
            },
    )
}

/// The file name stem a theme of this name is stored under.
pub fn theme_file_stem(name: &str) -> (r: String)
    ensures
        r@ == theme_file_chars(name@),
{
    let n = name.unicode_len();
    let mut r = String::new();
    let mut i: usize = 0;
    while i < n
        invariant
            i <= n,
            n == name@.len(),
            r@ == theme_file_chars(name@.take(i as int)),
        decreases n - i,
    {
        let c = name.get_char(i);
        let keep = char_is_alnum(c) || c == '-' || c == '_';
        push_char(&mut r, if keep {
            c
        } else {
            '-'
        });
        proof {
            assert(name@.take(i + 1 as int) =~= name@.take(i as int).push(name@[i as int]));
            assert(theme_file_chars(name@.take(i + 1 as int)) =~= theme_file_chars(
                name@.take(i as int),
            ).push(r@.last()));
        }
        i = i + 1;
    }
    proof {
        assert(name@.take(n as int) =~= name@);
    }
    r
}

/// Index of the first theme named `name`, searching from `k`.
pub open spec fn find_theme_from(themes: Seq<Theme>, name: Seq<char>, k: int) -> Option<int>
    decreases themes.len() - k,
{
    if k < 0 || k >= themes.len() {
        None
    } else if themes[k].name@ == name {
        Some(k)
    } else {
        find_theme_from(themes, name, k + 1)
    }
}

/// Finds the first theme with the given name.
pub fn find_theme_by_name(themes: &Vec<Theme>, name: &String) -> (r: Option<usize>)
    ensures
        match r {
            Some(i) => i < themes@.len() && find_theme_from(themes@, name@, 0) == Some(i as int),
            None => find_theme_from(themes@, name@, 0) is None,
        },
{
    let n = themes.len();
    let mut k: usize = 0;
    while k < n
        invariant
            k <= n,
            n == themes@.len(),
            find_theme_from(themes@, name@, 0) == find_theme_from(themes@, name@, k as int),
        decreases n - k,
    {
        if themes[k].name.eq(name) {
            return Some(k);
        }
        k = k + 1;
    }
    None
}

} // verus!
