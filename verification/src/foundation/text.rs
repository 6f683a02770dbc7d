//! Text normalization: the one comparison key, and the case mappings it is made of.
//!
//! Folding is NFC and, where asked for, case. NFC cannot be skipped: one name spelt in
//! composed and in decomposed form would otherwise be two names.
use vstd::prelude::*;
use vstd::utf8::is_ascii_chars;
use unicode_normalization::UnicodeNormalization;
use crate::strings::{ascii_alpha, ascii_digit, ascii_lower, ascii_upper, chars_of, text_of};

verus! {

/// What `str::to_uppercase` makes of a text.
pub uninterp spec fn uppercase(s: Seq<char>) -> Seq<char>;

/// What `str::to_lowercase` makes of a text.
pub uninterp spec fn lowercase(s: Seq<char>) -> Seq<char>;

/// What the NFC iterator of `unicode_normalization` yields for a text.
pub uninterp spec fn nfc(s: Seq<char>) -> Seq<char>;

/// What `{:?}` prints of a string, quotes and escapes included.
pub uninterp spec fn debug_text(s: Seq<char>) -> Seq<char>;

/// What `{:?}` prints of a character.
pub uninterp spec fn debug_char(c: char) -> Seq<char>;

/// `str::to_uppercase`: the result depends on the text alone, and on ASCII text it maps the
/// letters a to z and nothing else.
#[verifier::external_body]
pub(crate) fn to_uppercase(s: &str) -> (r: String)
    ensures
        r@ == uppercase(s@),
        is_ascii_chars(s@) ==> r@ == ascii_uppered(s@),
{
    s.to_uppercase()
}

/// `str::to_lowercase`: the result depends on the text alone, and on ASCII text it maps the letters A
/// to Z and nothing else.
#[verifier::external_body]
pub(crate) fn to_lowercase(s: &str) -> (r: String)
    ensures
        r@ == lowercase(s@),
        is_ascii_chars(s@) ==> r@ == ascii_lowered(s@),
{
    s.to_lowercase()
}

/// `UnicodeNormalization::nfc`, collected: the composed spelling of the text, which depends
/// on the text alone. ASCII text is composed already.
#[verifier::external_body]
pub(crate) fn to_nfc(s: &str) -> (r: String)
    ensures
        r@ == nfc(s@),
        is_ascii_chars(s@) ==> r@ == s@,
{
    s.nfc().collect()
}

/// `{:?}` of a string.
#[verifier::external_body]
pub(crate) fn debug_of(s: &str) -> (r: String)
    ensures
        r@ == debug_text(s@),
{
    format!("{:?}", s)
}

/// `{:?}` of a character.
#[verifier::external_body]
pub(crate) fn debug_of_char(c: char) -> (r: String)
    ensures
        r@ == debug_char(c),
{
    format!("{:?}", c)
}

/// The comparison key of `p`: its composed spelling, upper-cased where case is ignored.
pub open spec fn key_of(p: Seq<char>, case_insensitive: bool) -> Seq<char> {
    if case_insensitive {
        uppercase(nfc(p))
    } else {
        nfc(p)
    }
}

/// The comparison key of ASCII text.
pub open spec fn ascii_key(p: Seq<char>, case_insensitive: bool) -> Seq<char> {
    if case_insensitive {
        ascii_uppered(p)
    } else {
        p
    }
}

/// Comparison key. For matching only: what is written to disk is always the text itself.
pub fn norm_key(p: &str, case_insensitive: bool) -> (r: String)
    ensures
        r@ == key_of(p@, case_insensitive),
        is_ascii_chars(p@) ==> r@ == ascii_key(p@, case_insensitive),
{
    let composed = to_nfc(p);
    keyed(composed, case_insensitive)
}

/// The rest of [`norm_key`] once the composed spelling is known.
pub fn keyed(composed: String, case_insensitive: bool) -> (r: String)
    ensures
        r@ == if case_insensitive {
            uppercase(composed@)
        } else {
            composed@
        },
        is_ascii_chars(composed@) ==> r@ == ascii_key(composed@, case_insensitive),
{
    if case_insensitive {
        to_uppercase(composed.as_str())
    } else {
        composed
    }
}

/// Folding where case is ignored.
pub fn fold(p: &str) -> (r: String)
    ensures
        r@ == key_of(p@, true),
        is_ascii_chars(p@) ==> r@ == ascii_uppered(p@),
{
    norm_key(p, true)
}

/// Two spellings that compose to the same text have the same key, with or without case.
pub proof fn equal_compositions_have_equal_keys(a: Seq<char>, b: Seq<char>, case_insensitive: bool)
    requires
        nfc(a) == nfc(b),
    ensures
        key_of(a, case_insensitive) == key_of(b, case_insensitive),
{
}

/// A character that may stand in a host part of a file name.
pub open spec fn host_char(c: char) -> bool {
    ascii_alpha(c) || ascii_digit(c) || c == '-'
}

/// `host` with everything but letters, digits and `-` replaced by `-`.
pub open spec fn host_slug(host: Seq<char>) -> Seq<char> {
    Seq::new(
        host.len(),
        |i: int|
            if host_char(host[i]) {
                host[i]
            } else {
                '-'
            },
    )
}

/// A host name in a form that is safe inside a file name.
pub fn safe_host(host: &str) -> (r: String)
    ensures
        r@ == host_slug(host@),
        forall|i: int| 0 <= i < r@.len() ==> host_char(#[trigger] r@[i]),
{
    let v = chars_of(host);
    let mut out: Vec<char> = Vec::new();
    let mut i: usize = 0;
    while i < v.len()
        invariant
            i <= v@.len(),
            out@.len() == i,
            forall|j: int| 0 <= j < i ==> out@[j] == host_slug(v@)[j],
        decreases v@.len() - i,
    {
        let c = v[i];
        if ('A' <= c && c <= 'Z') || ('a' <= c && c <= 'z') || ('0' <= c && c <= '9') || c == '-' {
            out.push(c);
        } else {
            out.push('-');
        }
        i = i + 1;
    }
    assert(out@ =~= host_slug(host@));
    text_of(out.as_slice())
}

/// A safe host part is left alone by a second pass.
pub proof fn host_slug_is_idempotent(host: Seq<char>)
    ensures
        host_slug(host_slug(host)) == host_slug(host),
{
    assert(host_slug(host_slug(host)) =~= host_slug(host));
}

/// One ASCII letter in lower case.
pub open spec fn lower_char(c: char) -> char {
    if ascii_upper(c) {
        (c as u8 + 32) as char
    } else {
        c
    }
}

/// One ASCII letter in upper case.
pub open spec fn upper_char(c: char) -> char {
    if ascii_lower(c) {
        (c as u8 - 32) as char
    } else {
        c
    }
}

pub open spec fn ascii_lowered(s: Seq<char>) -> Seq<char> {
    Seq::new(s.len(), |i: int| lower_char(s[i]))
}

pub open spec fn ascii_uppered(s: Seq<char>) -> Seq<char> {
    Seq::new(s.len(), |i: int| upper_char(s[i]))
}

/// ASCII letters in lower case, everything else as it is.
pub fn to_ascii_lower(s: &[char]) -> (r: Vec<char>)
    ensures
        r@ == ascii_lowered(s@),
{
    let mut out: Vec<char> = Vec::new();
    let mut i: usize = 0;
    while i < s.len()
        invariant
            i <= s@.len(),
            out@.len() == i,
            forall|j: int| 0 <= j < i ==> out@[j] == lower_char(s@[j]),
        decreases s@.len() - i,
    {
        let c = s[i];
        if 'A' <= c && c <= 'Z' {
            out.push((c as u8 + 32) as char);
        } else {
            out.push(c);
        }
        i = i + 1;
    }
    assert(out@ =~= ascii_lowered(s@));
    out
}

/// ASCII letters in upper case, everything else as it is.
pub fn to_ascii_upper(s: &[char]) -> (r: Vec<char>)
    ensures
        r@ == ascii_uppered(s@),
{
    let mut out: Vec<char> = Vec::new();
    let mut i: usize = 0;
    while i < s.len()
        invariant
            i <= s@.len(),
            out@.len() == i,
            forall|j: int| 0 <= j < i ==> out@[j] == upper_char(s@[j]),
        decreases s@.len() - i,
    {
        let c = s[i];
        if 'a' <= c && c <= 'z' {
            out.push((c as u8 - 32) as char);
        } else {
            out.push(c);
        }
        i = i + 1;
    }
    assert(out@ =~= ascii_uppered(s@));
    out
}

/// Letters lose nothing but their case: raising and lowering undo each other, and all that is no ASCII
/// letter stays.
pub proof fn only_the_case_changes(s: Seq<char>)
    ensures
        ascii_uppered(ascii_lowered(s)) == ascii_uppered(s),
        ascii_lowered(ascii_uppered(s)) == ascii_lowered(s),
        forall|i: int|
            0 <= i < s.len() && !ascii_alpha(#[trigger] s[i]) ==> ascii_lowered(s)[i] == s[i]
                && ascii_uppered(s)[i] == s[i],
        forall|i: int| 0 <= i < s.len() ==> !ascii_upper(#[trigger] ascii_lowered(s)[i]),
        forall|i: int| 0 <= i < s.len() ==> !ascii_lower(#[trigger] ascii_uppered(s)[i]),
{
    assert(ascii_uppered(ascii_lowered(s)) =~= ascii_uppered(s));
    assert(ascii_lowered(ascii_uppered(s)) =~= ascii_lowered(s));
}

/// A host in a file name is as long as the host, keeps its letters, digits and dashes, and holds nothing
/// else.
pub proof fn a_host_keeps_what_is_safe(host: Seq<char>, i: int)
    requires
        0 <= i < host.len(),
    ensures
        host_slug(host).len() == host.len(),
        'a' <= host[i] <= 'z' || 'A' <= host[i] <= 'Z' || '0' <= host[i] <= '9' ==> host_slug(host)[i]
            == host[i],
        !('a' <= host[i] <= 'z' || 'A' <= host[i] <= 'Z' || '0' <= host[i] <= '9') ==> host_slug(host)[i]
            == '-',
{
}

} // verus!
