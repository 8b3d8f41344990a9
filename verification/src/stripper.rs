//! Which files get their metadata stripped when they are opened.

use vstd::prelude::*;

use crate::pathname::{extension, spec_extension};
use crate::text::{ascii_lower, ascii_lowercase, chars_of, same_chars, to_ascii_lower};

verus! {

/// The formats whose metadata is stripped, by lower-case extension:
/// images, documents, audio, video and archives.
pub open spec fn supported_formats() -> Seq<Seq<char>> {
    seq![
        seq!['j', 'p', 'g'],
        seq!['j', 'p', 'e', 'g'],
        seq!['p', 'n', 'g'],
        seq!['g', 'i', 'f'],
        seq!['t', 'i', 'f', 'f'],
        seq!['t', 'i', 'f'],
        seq!['b', 'm', 'p'],
        seq!['w', 'e', 'b', 'p'],
        seq!['p', 'd', 'f'],
        seq!['d', 'o', 'c', 'x'],
        seq!['x', 'l', 's', 'x'],
        seq!['p', 'p', 't', 'x'],
        seq!['o', 'd', 't'],
        seq!['o', 'd', 'p'],
        seq!['o', 'd', 's'],
        seq!['o', 'd', 'g'],
        seq!['m', 'p', '3'],
        seq!['f', 'l', 'a', 'c'],
        seq!['o', 'g', 'g'],
        seq!['m', '4', 'a'],
        seq!['m', 'p', '4'],
        seq!['m', 'k', 'v'],
        seq!['e', 'p', 'u', 'b'],
        seq!['z', 'i', 'p'],
    ]
}

/// Whether a file with extension `ext` has its metadata stripped; the
/// extension's case does not matter.
pub open spec fn spec_supported_extension(ext: Seq<char>) -> bool {
    supported_formats().contains(ascii_lowercase(ext))
}

/// Whether the file at `path` has its metadata stripped: it has an
/// extension, and that extension names a supported format.
pub open spec fn spec_is_supported(path: Seq<char>) -> bool {
    match spec_extension(path) {
        Some(ext) => spec_supported_extension(ext),
        None => false,
    }
}

/// The supported formats, as characters.
fn format_table() -> (t: Vec<Vec<char>>)
    ensures
        t@.len() == supported_formats().len(),
        forall|i: int| 0 <= i < t@.len() ==> #[trigger] t@[i]@ == supported_formats()[i],
{
    let t = vec![
        vec!['j', 'p', 'g'],
        vec!['j', 'p', 'e', 'g'],
        vec!['p', 'n', 'g'],
        vec!['g', 'i', 'f'],
        vec!['t', 'i', 'f', 'f'],
        vec!['t', 'i', 'f'],
        vec!['b', 'm', 'p'],
        vec!['w', 'e', 'b', 'p'],
        vec!['p', 'd', 'f'],
        vec!['d', 'o', 'c', 'x'],
        vec!['x', 'l', 's', 'x'],
        vec!['p', 'p', 't', 'x'],
        vec!['o', 'd', 't'],
        vec!['o', 'd', 'p'],
        vec!['o', 'd', 's'],
        vec!['o', 'd', 'g'],
        vec!['m', 'p', '3'],
        vec!['f', 'l', 'a', 'c'],
        vec!['o', 'g', 'g'],
        vec!['m', '4', 'a'],
        vec!['m', 'p', '4'],
        vec!['m', 'k', 'v'],
        vec!['e', 'p', 'u', 'b'],
        vec!['z', 'i', 'p'],
    ];
    proof {
        assert forall|i: int| 0 <= i < t@.len() implies #[trigger] t@[i]@ == supported_formats()[i] by {
            assert(t@[i]@ =~= supported_formats()[i]);
        }
    }
    t
}

/// Whether a file with extension `ext` has its metadata stripped.
pub fn is_supported_extension(ext: &str) -> (r: bool)
    ensures
        r == spec_supported_extension(ext@),
{
    let chars = chars_of(ext);
    let mut lower: Vec<char> = Vec::new();
    let mut i: usize = 0;
    while i < chars.len()
        invariant
            chars@ == ext@,
            i <= chars@.len(),
            lower@ == ascii_lowercase(ext@).take(i as int),
        decreases chars@.len() - i,
    {
        lower.push(to_ascii_lower(chars[i]));
        i = i + 1;
        proof {
            assert(lower@ =~= ascii_lowercase(ext@).take(i as int));
        }
    }
    assert(lower@ =~= ascii_lowercase(ext@));
    let table = format_table();
    let mut k: usize = 0;
    while k < table.len()
        invariant
            table@.len() == supported_formats().len(),
            forall|j: int| 0 <= j < table@.len() ==> #[trigger] table@[j]@ == supported_formats()[j],
            lower@ == ascii_lowercase(ext@),
            k <= table@.len(),
            forall|j: int| 0 <= j < k ==> supported_formats()[j] != ascii_lowercase(ext@),
        decreases table@.len() - k,
    {
        if same_chars(&table[k], &lower) {
            assert(supported_formats()[k as int] == ascii_lowercase(ext@));
            return true;
        }
        k = k + 1;
    }
    false
}

/// Whether the file at `path` has its metadata stripped, judged by its
/// extension.
pub fn is_supported(path: &str) -> (r: bool)
    ensures
        r == spec_is_supported(path@),
{
    match extension(path) {
        Some(ext) => is_supported_extension(ext.as_str()),
        None => false,
    }
}

/// The suffix of the copy that is stripped, so that the stripper knows the
/// file's format: a dot and the file's extension, or `.tmp` if it has none.
pub open spec fn spec_temp_suffix(path: Seq<char>) -> Seq<char> {
    seq!['.'] + match spec_extension(path) {
        Some(ext) => ext,
        None => seq!['t', 'm', 'p'],
    }
}

/// The suffix of the copy of `path` that is stripped.
pub fn temp_suffix(path: &str) -> (r: String)
    ensures
        r@ == spec_temp_suffix(path@),
{
    let dot = ".";
    let tmp = "tmp";
    proof {
        reveal_strlit(".");
        reveal_strlit("tmp");
    }
    let mut out = dot.to_owned();
    match extension(path) {
        Some(ext) => out.append(ext.as_str()),
        None => out.append(tmp),
    }
    out
}

/// Where the bytes that a stripped file is served from come from.
#[derive(Clone, Copy, Debug, PartialEq, Eq, Structural)]
pub enum StripSource {
    /// The copy, which the stripper has cleaned.
    StrippedCopy,
    /// The file as it is: the stripper is missing or gave up on it.
    Unchanged,
}

/// Where the bytes come from once the stripper has run on the copy: the
/// copy if it finished successfully, else the file unchanged.
pub fn strip_source(stripper_succeeded: bool) -> (r: StripSource)
    ensures
        r == (if stripper_succeeded {
            StripSource::StrippedCopy
        } else {
            StripSource::Unchanged
        }),
{
    if stripper_succeeded {
        StripSource::StrippedCopy
    } else {
        StripSource::Unchanged
    }
}

/// Law: whether an extension is supported does not depend on its case.
pub proof fn law_extension_case_is_ignored(ext: Seq<char>)
    ensures
        spec_supported_extension(ascii_lowercase(ext)) == spec_supported_extension(ext),
{
    assert forall|i: int| 0 <= i < ext.len() implies ascii_lower(#[trigger] ascii_lower(ext[i])) == ascii_lower(ext[i]) by {
        let c = ext[i];
        if 'A' <= c && c <= 'Z' {
            assert((((c as u32) + 32) as char) as u32 == (c as u32) + 32);
        }
    }
    assert(ascii_lowercase(ascii_lowercase(ext)) =~= ascii_lowercase(ext));
}

/// A character that is `l` or, for a lower-case letter `l`, its capital
/// is `l` in lower case.
proof fn lemma_lower_case_letter(c: char, l: char)
    requires
        !('A' <= l && l <= 'Z'),
        c == l || ('a' <= l && l <= 'z' && c as u32 + 32 == l as u32),
    ensures
        ascii_lower(c) == l,
{
    if c != l {
        assert('a' as int == 97 && 'z' as int == 122 && 'A' as int == 65 && 'Z' as int == 90);
        assert(c as int == c as u32 && l as int == l as u32);
        assert('A' <= c && c <= 'Z');
        assert((((c as u32) + 32) as char) as u32 == l as u32);
    }
}

/// Law: the case an extension is written in does not matter. An extension
/// that spells `low` (which has no capitals) with some of its letters
/// written as capitals is supported exactly when `low` is one of the
/// supported formats.
pub proof fn law_capitals_read_as_lower_case(ext: Seq<char>, low: Seq<char>)
    requires
        ext.len() == low.len(),
        forall|i: int| 0 <= i < low.len() ==> !('A' <= #[trigger] low[i] && low[i] <= 'Z'),
        forall|i: int|
            0 <= i < ext.len() ==> #[trigger] ext[i] == low[i] || ('a' <= low[i] && low[i] <= 'z' && ext[i] as u32
                + 32 == low[i] as u32),
    ensures
        spec_supported_extension(ext) == supported_formats().contains(low),
{
    assert forall|i: int| 0 <= i < ext.len() implies ascii_lower(#[trigger] ext[i]) == low[i] by {
        lemma_lower_case_letter(ext[i], low[i]);
    }
    assert(ascii_lowercase(ext) =~= low);
}

} // verus!
