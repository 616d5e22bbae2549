//! Genius URL formatting. A path component is the lowercased text with
//! tagged parentheticals (feat/ft/with/explicit) removed, version suffixes
//! (" - live" and the like) cut off, " & " spelled "-and-", every other run
//! of non-alphanumeric bytes collapsed to one hyphen, and outer hyphens
//! trimmed. A song URL joins the formatted artist names with "-and-" and
//! appends the formatted title and "-lyrics".
use vstd::prelude::*;
use crate::bytes::{clone_bytes, head_to, push_bytes, spec_prefix_at, tail_from};
use crate::keys::{lemma_join_bytes_push, spec_join_bytes};

verus! {

/// ASCII whitespace. The formatter works byte-wise: only ASCII whitespace
/// counts, so Unicode-only whitespace is treated like any other
/// non-alphanumeric byte and becomes a hyphen instead of vanishing with a
/// removed parenthetical.
pub open spec fn is_ws(b: u8) -> bool {
    b == 32 || b == 9 || b == 10 || b == 11 || b == 12 || b == 13
}

/// Lowercase ASCII letter or digit: the bytes a component keeps.
pub open spec fn is_alnum(b: u8) -> bool {
    (97 <= b && b <= 122) || (48 <= b && b <= 57)
}

/// A byte that continues a word, for the boundary after a suffix word:
/// ASCII alphanumerics and underscore, and every non-ASCII byte, so that a
/// suffix word running into a multi-byte character is not cut.
pub open spec fn is_word_byte(b: u8) -> bool {
    is_alnum(b) || (65 <= b && b <= 90) || b == 95 || b >= 128
}

/// The lowercasing of a character sequence, as `str::to_lowercase` computes
/// it. The result depends on the characters alone.
pub uninterp spec fn lower_of(s: Seq<char>) -> Seq<char>;

/// Relies on str::to_lowercase: the result is a pure function of the
/// characters.
#[verifier::external_body]
fn to_lowercase(s: &str) -> (r: String)
    ensures
        r@ == lower_of(s@),
{
    s.to_lowercase()
}

/// The tags whose parenthetical is removed: feat, ft, with, explicit.
pub open spec fn tag_feat() -> Seq<u8> {
    seq![102u8, 101u8, 97u8, 116u8]
}

pub open spec fn tag_ft() -> Seq<u8> {
    seq![102u8, 116u8]
}

pub open spec fn tag_with() -> Seq<u8> {
    seq![119u8, 105u8, 116u8, 104u8]
}

pub open spec fn tag_explicit() -> Seq<u8> {
    seq![101u8, 120u8, 112u8, 108u8, 105u8, 99u8, 105u8, 116u8]
}

/// One of the four tags occurs at position `i`.
pub open spec fn tag_at(s: Seq<u8>, i: int) -> bool {
    ||| spec_prefix_at(s, i, tag_feat())
    ||| spec_prefix_at(s, i, tag_ft())
    ||| spec_prefix_at(s, i, tag_with())
    ||| spec_prefix_at(s, i, tag_explicit())
}

/// The first closing parenthesis at or after `i`.
pub open spec fn find_close(s: Seq<u8>, i: int) -> Option<int>
    decreases s.len() - i,
    when 0 <= i <= s.len()
{
    if i >= s.len() {
        None
    } else if s[i] == 41 {
        Some(i)
    } else {
        find_close(s, i + 1)
    }
}

/// An opening parenthesis at `c` that a tag follows and a closing parenthesis
/// ends.
pub open spec fn open_at(s: Seq<u8>, c: int) -> bool {
    0 <= c < s.len() && s[c] == 40 && tag_at(s, c + 1) && (c + 1 <= s.len() && find_close(
        s,
        c + 1,
    ) is Some)
}

/// The first tagged opening parenthesis at or after `i`.
pub open spec fn find_open(s: Seq<u8>, i: int) -> Option<int>
    decreases s.len() - i,
    when 0 <= i <= s.len()
{
    if i >= s.len() {
        None
    } else if open_at(s, i) {
        Some(i)
    } else {
        find_open(s, i + 1)
    }
}

/// The start of the whitespace run that ends just before `i`.
pub open spec fn ws_back(s: Seq<u8>, i: int) -> int
    decreases i,
    when 0 <= i <= s.len()
{
    if i > 0 && is_ws(s[i - 1]) {
        ws_back(s, i - 1)
    } else {
        i
    }
}

/// The end of the whitespace run that starts at `i`.
pub open spec fn ws_fwd(s: Seq<u8>, i: int) -> int
    decreases s.len() - i,
    when 0 <= i <= s.len()
{
    if i < s.len() && is_ws(s[i]) {
        ws_fwd(s, i + 1)
    } else {
        i
    }
}

/// The text with every tagged parenthetical removed, left to right, together
/// with the whitespace around it.
pub open spec fn strip_tagged_parens(s: Seq<u8>) -> Seq<u8>
    decreases s.len(),
{
    match find_open(s, 0) {
        None => s,
        Some(c) => match find_close(s, c + 1) {
            None => s,
            Some(d) => {
                let q = ws_back(s, c);
                let e = ws_fwd(s, d + 1);
                if 0 <= q && q < e && e <= s.len() {
                    s.take(q) + strip_tagged_parens(s.skip(e))
                } else {
                    s
                }
            },
        },
    }
}

/// The version-suffix words: "radio edit", "live", "acoustic", "version",
/// "edit", "mix".
pub open spec fn word_radio_edit() -> Seq<u8> {
    seq![114u8, 97u8, 100u8, 105u8, 111u8, 32u8, 101u8, 100u8, 105u8, 116u8]
}

pub open spec fn word_live() -> Seq<u8> {
    seq![108u8, 105u8, 118u8, 101u8]
}

pub open spec fn word_acoustic() -> Seq<u8> {
    seq![97u8, 99u8, 111u8, 117u8, 115u8, 116u8, 105u8, 99u8]
}

pub open spec fn word_version() -> Seq<u8> {
    seq![118u8, 101u8, 114u8, 115u8, 105u8, 111u8, 110u8]
}

pub open spec fn word_edit() -> Seq<u8> {
    seq![101u8, 100u8, 105u8, 116u8]
}

pub open spec fn word_mix() -> Seq<u8> {
    seq![109u8, 105u8, 120u8]
}

/// One suffix word occurs at `i` with a word boundary after it.
pub open spec fn word_bound_at(s: Seq<u8>, i: int, w: Seq<u8>) -> bool {
    spec_prefix_at(s, i, w) && (i + w.len() == s.len() || !is_word_byte(s[i + w.len()]))
}

/// Some suffix word occurs at `i` with a word boundary after it.
pub open spec fn suffix_word_at(s: Seq<u8>, i: int) -> bool {
    ||| word_bound_at(s, i, word_radio_edit())
    ||| word_bound_at(s, i, word_live())
    ||| word_bound_at(s, i, word_acoustic())
    ||| word_bound_at(s, i, word_version())
    ||| word_bound_at(s, i, word_edit())
    ||| word_bound_at(s, i, word_mix())
}

/// A version suffix starts at `p`: whitespace, a hyphen, whitespace, then a
/// suffix word with a boundary after it.
pub open spec fn suffix_at(s: Seq<u8>, p: int) -> bool {
    0 <= p < s.len() && is_ws(s[p]) && {
        let h = ws_fwd(s, p);
        h < s.len() && s[h] == 45 && {
            let w = ws_fwd(s, h + 1);
            w > h + 1 && suffix_word_at(s, w)
        }
    }
}

/// The first position where a version suffix starts, at or after `i`.
pub open spec fn find_suffix(s: Seq<u8>, i: int) -> Option<int>
    decreases s.len() - i,
    when 0 <= i <= s.len()
{
    if i >= s.len() {
        None
    } else if suffix_at(s, i) {
        Some(i)
    } else {
        find_suffix(s, i + 1)
    }
}

/// The text cut off at the first version suffix.
pub open spec fn strip_version_suffix(s: Seq<u8>) -> Seq<u8> {
    match find_suffix(s, 0) {
        None => s,
        Some(p) => if 0 <= p <= s.len() {
            s.take(p)
        } else {
            s
        },
    }
}

/// The bytes of `" & "`.
pub open spec fn amp_pat() -> Seq<u8> {
    seq![32u8, 38u8, 32u8]
}

/// The bytes of `"-and-"`.
pub open spec fn and_rep() -> Seq<u8> {
    seq![45u8, 97u8, 110u8, 100u8, 45u8]
}

/// The first occurrence of `" & "` at or after `i`.
pub open spec fn find_amp(s: Seq<u8>, i: int) -> Option<int>
    decreases s.len() - i,
    when 0 <= i <= s.len()
{
    if i >= s.len() {
        None
    } else if spec_prefix_at(s, i, amp_pat()) {
        Some(i)
    } else {
        find_amp(s, i + 1)
    }
}

/// The text with every `" & "` replaced by `"-and-"`, left to right.
pub open spec fn replace_amp(s: Seq<u8>) -> Seq<u8>
    decreases s.len(),
{
    match find_amp(s, 0) {
        None => s,
        Some(p) => if 0 <= p && p + 3 <= s.len() {
            s.take(p) + and_rep() + replace_amp(s.skip(p + 3))
        } else {
            s
        },
    }
}

/// The first alphanumeric byte at or after `i`, or the length.
pub open spec fn find_alnum(s: Seq<u8>, i: int) -> int
    decreases s.len() - i,
    when 0 <= i <= s.len()
{
    if i >= s.len() {
        i
    } else if is_alnum(s[i]) {
        i
    } else {
        find_alnum(s, i + 1)
    }
}

/// The text with every maximal run of non-alphanumeric bytes replaced by one
/// hyphen.
pub open spec fn hyphenate(s: Seq<u8>) -> Seq<u8>
    decreases s.len(),
{
    if s.len() == 0 {
        Seq::empty()
    } else if is_alnum(s[0]) {
        seq![s[0]] + hyphenate(s.drop_first())
    } else {
        let j = find_alnum(s, 1);
        if 0 < j <= s.len() {
            seq![45u8] + hyphenate(s.skip(j))
        } else {
            s
        }
    }
}

/// The text without leading hyphens.
pub open spec fn trim_front(s: Seq<u8>) -> Seq<u8>
    decreases s.len(),
{
    if s.len() > 0 && s[0] == 45 {
        trim_front(s.drop_first())
    } else {
        s
    }
}

/// The text without trailing hyphens.
pub open spec fn trim_back(s: Seq<u8>) -> Seq<u8>
    decreases s.len(),
{
    if s.len() > 0 && s.last() == 45 {
        trim_back(s.drop_last())
    } else {
        s
    }
}

/// The Genius path component for a text: lowercase it, strip tagged
/// parentheticals and version suffixes, spell `" & "` as `"-and-"`, collapse
/// everything else non-alphanumeric to hyphens, and trim outer hyphens.
pub open spec fn spec_format_component(s: Seq<char>) -> Seq<u8> {
    trim_back(
        trim_front(
            hyphenate(
                replace_amp(
                    strip_version_suffix(
                        strip_tagged_parens(vstd::utf8::encode_utf8(lower_of(s))),
                    ),
                ),
            ),
        ),
    )
}

/// The bytes of `"https://genius.com/"`.
pub open spec fn url_prefix() -> Seq<u8> {
    seq![
        104u8, 116u8, 116u8, 112u8, 115u8, 58u8, 47u8, 47u8, 103u8, 101u8, 110u8, 105u8, 117u8,
        115u8, 46u8, 99u8, 111u8, 109u8, 47u8,
    ]
}

/// The bytes of `"-lyrics"`.
pub open spec fn url_suffix() -> Seq<u8> {
    seq![45u8, 108u8, 121u8, 114u8, 105u8, 99u8, 115u8]
}

/// The Genius lyrics URL for the artists and title: the formatted artist
/// names joined with `"-and-"`, a hyphen, the formatted title, `"-lyrics"`.
pub open spec fn spec_genius_url(artists: Seq<Seq<char>>, title: Seq<char>) -> Seq<u8> {
    url_prefix() + spec_join_bytes(
        artists.map_values(|a: Seq<char>| spec_format_component(a)),
        and_rep(),
    ) + seq![45u8] + spec_format_component(title) + url_suffix()
}

/// Reports whether `w` occurs in `s` at position `i`.
fn has_prefix_at(s: &Vec<u8>, i: usize, w: &Vec<u8>) -> (r: bool)
    requires
        i <= s@.len(),
    ensures
        r == spec_prefix_at(s@, i as int, w@),
{
    let n = s.len();
    if n - i < w.len() {
        return false;
    }
    let mut j: usize = 0;
    while j < w.len()
        invariant
            n == s@.len(),
            i + w@.len() <= n,
            j <= w@.len(),
            forall|k: int| 0 <= k < j ==> s@[i + k] == w@[k],
        decreases w@.len() - j,
    {
        if s[i + j] != w[j] {
            return false;
        }
        j = j + 1;
    }
    proof {
        assert(s@.subrange(i as int, i + w@.len()) =~= w@);
    }
    true
}

fn tag_feat_vec() -> (r: Vec<u8>)
    ensures
        r@ == tag_feat(),
{
    let mut r: Vec<u8> = Vec::new();
    r.push(102);
    r.push(101);
    r.push(97);
    r.push(116);
    proof {
        assert(r@ =~= tag_feat());
    }
    r
}

fn tag_ft_vec() -> (r: Vec<u8>)
    ensures
        r@ == tag_ft(),
{
    let mut r: Vec<u8> = Vec::new();
    r.push(102);
    r.push(116);
    proof {
        assert(r@ =~= tag_ft());
    }
    r
}

fn tag_with_vec() -> (r: Vec<u8>)
    ensures
        r@ == tag_with(),
{
    let mut r: Vec<u8> = Vec::new();
    r.push(119);
    r.push(105);
    r.push(116);
    r.push(104);
    proof {
        assert(r@ =~= tag_with());
    }
    r
}

fn tag_explicit_vec() -> (r: Vec<u8>)
    ensures
        r@ == tag_explicit(),
{
    let mut r: Vec<u8> = Vec::new();
    r.push(101);
    r.push(120);
    r.push(112);
    r.push(108);
    r.push(105);
    r.push(99);
    r.push(105);
    r.push(116);
    proof {
        assert(r@ =~= tag_explicit());
    }
    r
}

fn is_ws_exec(b: u8) -> (r: bool)
    ensures
        r == is_ws(b),
{
    b == 32 || b == 9 || b == 10 || b == 11 || b == 12 || b == 13
}

fn is_alnum_exec(b: u8) -> (r: bool)
    ensures
        r == is_alnum(b),
{
    (97 <= b && b <= 122) || (48 <= b && b <= 57)
}

fn is_word_byte_exec(b: u8) -> (r: bool)
    ensures
        r == is_word_byte(b),
{
    is_alnum_exec(b) || (65 <= b && b <= 90) || b == 95 || b >= 128
}

fn find_close_exec(s: &Vec<u8>, i: usize) -> (r: Option<usize>)
    requires
        i <= s@.len(),
    ensures
        match r {
            Some(d) => find_close(s@, i as int) == Some(d as int) && i <= d < s@.len(),
            None => find_close(s@, i as int) is None,
        },
    decreases s@.len() - i,
{
    if i >= s.len() {
        None
    } else if s[i] == 41 {
        Some(i)
    } else {
        find_close_exec(s, i + 1)
    }
}

fn tag_at_exec(s: &Vec<u8>, i: usize) -> (r: bool)
    requires
        i <= s@.len(),
    ensures
        r == tag_at(s@, i as int),
{
    let feat = tag_feat_vec();
    let ft = tag_ft_vec();
    let with_tag = tag_with_vec();
    let explicit = tag_explicit_vec();
    has_prefix_at(s, i, &feat) || has_prefix_at(s, i, &ft) || has_prefix_at(s, i, &with_tag)
        || has_prefix_at(s, i, &explicit)
}

fn open_at_exec(s: &Vec<u8>, c: usize) -> (r: bool)
    requires
        c < s@.len(),
    ensures
        r == open_at(s@, c as int),
{
    let n = s.len();
    if s[c] != 40 {
        return false;
    }
    if !tag_at_exec(s, c + 1) {
        return false;
    }
    find_close_exec(s, c + 1).is_some()
}

fn find_open_exec(s: &Vec<u8>, i: usize) -> (r: Option<usize>)
    requires
        i <= s@.len(),
    ensures
        match r {
            Some(c) => find_open(s@, i as int) == Some(c as int) && i <= c < s@.len() && open_at(
                s@,
                c as int,
            ),
            None => find_open(s@, i as int) is None,
        },
    decreases s@.len() - i,
{
    if i >= s.len() {
        None
    } else if open_at_exec(s, i) {
        Some(i)
    } else {
        find_open_exec(s, i + 1)
    }
}

fn ws_back_exec(s: &Vec<u8>, i: usize) -> (r: usize)
    requires
        i <= s@.len(),
    ensures
        r as int == ws_back(s@, i as int),
        r <= i,
    decreases i,
{
    if i > 0 && is_ws_exec(s[i - 1]) {
        ws_back_exec(s, i - 1)
    } else {
        i
    }
}

fn ws_fwd_exec(s: &Vec<u8>, i: usize) -> (r: usize)
    requires
        i <= s@.len(),
    ensures
        r as int == ws_fwd(s@, i as int),
        i <= r <= s@.len(),
    decreases s@.len() - i,
{
    if i < s.len() && is_ws_exec(s[i]) {
        ws_fwd_exec(s, i + 1)
    } else {
        i
    }
}

fn strip_tagged_parens_exec(s: &Vec<u8>) -> (r: Vec<u8>)
    ensures
        r@ == strip_tagged_parens(s@),
    decreases s@.len(),
{
    let n = s.len();
    match find_open_exec(s, 0) {
        None => clone_bytes(s),
        Some(c) => {
            match find_close_exec(s, c + 1) {
                None => {
                    // Unreachable: an open parenthesis is only reported with a
                    // close after it.
                    proof {
                        assert(false);
                    }
                    clone_bytes(s)
                },
                Some(d) => {
                    let q = ws_back_exec(s, c);
                    proof {
                        assert(d < n);
                    }
                    let e = ws_fwd_exec(s, d + 1);
                    let mut out = head_to(s, q);
                    let rest = tail_from(s, e);
                    let stripped = strip_tagged_parens_exec(&rest);
                    push_bytes(&mut out, stripped.as_slice());
                    proof {
                        assert(out@ =~= strip_tagged_parens(s@));
                    }
                    out
                },
            }
        },
    }
}

fn suffix_word_at_exec(s: &Vec<u8>, i: usize) -> (r: bool)
    requires
        i <= s@.len(),
    ensures
        r == suffix_word_at(s@, i as int),
{
    let mut w: Vec<u8> = Vec::new();
    w.push(114);
    w.push(97);
    w.push(100);
    w.push(105);
    w.push(111);
    w.push(32);
    w.push(101);
    w.push(100);
    w.push(105);
    w.push(116);
    proof {
        assert(w@ =~= word_radio_edit());
    }
    if word_bound_at_exec(s, i, &w) {
        return true;
    }
    let mut w2: Vec<u8> = Vec::new();
    w2.push(108);
    w2.push(105);
    w2.push(118);
    w2.push(101);
    proof {
        assert(w2@ =~= word_live());
    }
    if word_bound_at_exec(s, i, &w2) {
        return true;
    }
    let mut w3: Vec<u8> = Vec::new();
    w3.push(97);
    w3.push(99);
    w3.push(111);
    w3.push(117);
    w3.push(115);
    w3.push(116);
    w3.push(105);
    w3.push(99);
    proof {
        assert(w3@ =~= word_acoustic());
    }
    if word_bound_at_exec(s, i, &w3) {
        return true;
    }
    let mut w4: Vec<u8> = Vec::new();
    w4.push(118);
    w4.push(101);
    w4.push(114);
    w4.push(115);
    w4.push(105);
    w4.push(111);
    w4.push(110);
    proof {
        assert(w4@ =~= word_version());
    }
    if word_bound_at_exec(s, i, &w4) {
        return true;
    }
    let mut w5: Vec<u8> = Vec::new();
    w5.push(101);
    w5.push(100);
    w5.push(105);
    w5.push(116);
    proof {
        assert(w5@ =~= word_edit());
    }
    if word_bound_at_exec(s, i, &w5) {
        return true;
    }
    let mut w6: Vec<u8> = Vec::new();
    w6.push(109);
    w6.push(105);
    w6.push(120);
    proof {
        assert(w6@ =~= word_mix());
    }
    word_bound_at_exec(s, i, &w6)
}

fn word_bound_at_exec(s: &Vec<u8>, i: usize, w: &Vec<u8>) -> (r: bool)
    requires
        i <= s@.len(),
    ensures
        r == word_bound_at(s@, i as int, w@),
{
    let n = s.len();
    if !has_prefix_at(s, i, w) {
        return false;
    }
    proof {
        assert(i + w@.len() <= n);
    }
    let after = i + w.len();
    after == n || !is_word_byte_exec(s[after])
}

fn suffix_at_exec(s: &Vec<u8>, p: usize) -> (r: bool)
    requires
        p < s@.len(),
    ensures
        r == suffix_at(s@, p as int),
{
    if !is_ws_exec(s[p]) {
        return false;
    }
    let h = ws_fwd_exec(s, p);
    if !(h < s.len() && s[h] == 45) {
        return false;
    }
    let w = ws_fwd_exec(s, h + 1);
    if !(w > h + 1) {
        return false;
    }
    suffix_word_at_exec(s, w)
}

fn find_suffix_exec(s: &Vec<u8>, i: usize) -> (r: Option<usize>)
    requires
        i <= s@.len(),
    ensures
        match r {
            Some(p) => find_suffix(s@, i as int) == Some(p as int) && i <= p < s@.len(),
            None => find_suffix(s@, i as int) is None,
        },
    decreases s@.len() - i,
{
    if i >= s.len() {
        None
    } else if suffix_at_exec(s, i) {
        Some(i)
    } else {
        find_suffix_exec(s, i + 1)
    }
}

fn strip_version_suffix_exec(s: &Vec<u8>) -> (r: Vec<u8>)
    ensures
        r@ == strip_version_suffix(s@),
{
    match find_suffix_exec(s, 0) {
        None => clone_bytes(s),
        Some(p) => head_to(s, p),
    }
}

fn find_amp_exec(s: &Vec<u8>, i: usize) -> (r: Option<usize>)
    requires
        i <= s@.len(),
    ensures
        match r {
            Some(p) => find_amp(s@, i as int) == Some(p as int) && i <= p && p + 3 <= s@.len(),
            None => find_amp(s@, i as int) is None,
        },
    decreases s@.len() - i,
{
    if i >= s.len() {
        return None;
    }
    let mut pat: Vec<u8> = Vec::new();
    pat.push(32);
    pat.push(38);
    pat.push(32);
    proof {
        assert(pat@ =~= amp_pat());
    }
    if has_prefix_at(s, i, &pat) {
        Some(i)
    } else {
        find_amp_exec(s, i + 1)
    }
}

fn replace_amp_exec(s: &Vec<u8>) -> (r: Vec<u8>)
    ensures
        r@ == replace_amp(s@),
    decreases s@.len(),
{
    match find_amp_exec(s, 0) {
        None => clone_bytes(s),
        Some(p) => {
            let n = s.len();
            proof {
                assert(p + 3 <= n);
            }
            let mut out = head_to(s, p);
            out.push(45);
            out.push(97);
            out.push(110);
            out.push(100);
            out.push(45);
            let rest = tail_from(s, p + 3);
            let replaced = replace_amp_exec(&rest);
            push_bytes(&mut out, replaced.as_slice());
            proof {
                assert(out@ =~= replace_amp(s@));
            }
            out
        },
    }
}

fn find_alnum_exec(s: &Vec<u8>, i: usize) -> (r: usize)
    requires
        i <= s@.len(),
    ensures
        r as int == find_alnum(s@, i as int),
        i <= r <= s@.len(),
    decreases s@.len() - i,
{
    if i >= s.len() {
        i
    } else if is_alnum_exec(s[i]) {
        i
    } else {
        find_alnum_exec(s, i + 1)
    }
}

fn hyphenate_exec(s: &Vec<u8>) -> (r: Vec<u8>)
    ensures
        r@ == hyphenate(s@),
    decreases s@.len(),
{
    if s.len() == 0 {
        let r: Vec<u8> = Vec::new();
        proof {
            assert(r@ =~= hyphenate(s@));
        }
        r
    } else if is_alnum_exec(s[0]) {
        let rest = tail_from(s, 1);
        let mut out: Vec<u8> = Vec::new();
        out.push(s[0]);
        let tail = hyphenate_exec(&rest);
        push_bytes(&mut out, tail.as_slice());
        proof {
            assert(rest@ =~= s@.drop_first());
            assert(out@ =~= hyphenate(s@));
        }
        out
    } else {
        let j = find_alnum_exec(s, 1);
        let rest = tail_from(s, j);
        let mut out: Vec<u8> = Vec::new();
        out.push(45);
        let tail = hyphenate_exec(&rest);
        push_bytes(&mut out, tail.as_slice());
        proof {
            assert(out@ =~= hyphenate(s@));
        }
        out
    }
}

fn trim_front_exec(s: &Vec<u8>) -> (r: Vec<u8>)
    ensures
        r@ == trim_front(s@),
    decreases s@.len(),
{
    if s.len() > 0 && s[0] == 45 {
        let rest = tail_from(s, 1);
        let r = trim_front_exec(&rest);
        proof {
            assert(rest@ =~= s@.drop_first());
        }
        r
    } else {
        clone_bytes(s)
    }
}

fn trim_back_exec(s: &Vec<u8>) -> (r: Vec<u8>)
    ensures
        r@ == trim_back(s@),
    decreases s@.len(),
{
    if s.len() > 0 && s[s.len() - 1] == 45 {
        let rest = head_to(s, s.len() - 1);
        let r = trim_back_exec(&rest);
        proof {
            assert(rest@ =~= s@.drop_last());
        }
        r
    } else {
        clone_bytes(s)
    }
}

/// Formats one artist name or title as a Genius URL path component.
pub fn format_genius_path_component(input: &str) -> (r: Vec<u8>)
    ensures
        r@ == spec_format_component(input@),
{
    let lower = to_lowercase(input);
    let mut bytes: Vec<u8> = Vec::new();
    push_bytes(&mut bytes, lower.as_str().as_bytes());
    proof {
        assert(bytes@ =~= vstd::utf8::encode_utf8(lower_of(input@)));
    }
    let a = strip_tagged_parens_exec(&bytes);
    let b = strip_version_suffix_exec(&a);
    let c = replace_amp_exec(&b);
    let d = hyphenate_exec(&c);
    let e = trim_front_exec(&d);
    trim_back_exec(&e)
}

/// Builds the Genius lyrics URL for the given artists and title.
pub fn build_genius_url(artists: &Vec<String>, title: &str) -> (r: Vec<u8>)
    ensures
        r@ == spec_genius_url(artists.deep_view(), title@),
{
    let ghost parts: Seq<Seq<u8>> = artists.deep_view().map_values(
        |a: Seq<char>| spec_format_component(a),
    );
    let mut out: Vec<u8> = Vec::new();
    out.push(104);
    out.push(116);
    out.push(116);
    out.push(112);
    out.push(115);
    out.push(58);
    out.push(47);
    out.push(47);
    out.push(103);
    out.push(101);
    out.push(110);
    out.push(105);
    out.push(117);
    out.push(115);
    out.push(46);
    out.push(99);
    out.push(111);
    out.push(109);
    out.push(47);
    proof {
        assert(out@ =~= url_prefix());
    }
    let mut i: usize = 0;
    while i < artists.len()
        invariant
            i <= artists.len(),
            parts == artists.deep_view().map_values(|a: Seq<char>| spec_format_component(a)),
            parts.len() == artists.len(),
            out@ == url_prefix() + spec_join_bytes(parts.take(i as int), and_rep()),
        decreases artists.len() - i,
    {
        let ghost before = out@;
        if i > 0 {
            out.push(45);
            out.push(97);
            out.push(110);
            out.push(100);
            out.push(45);
        }
        let part = format_genius_path_component(artists[i].as_str());
        push_bytes(&mut out, part.as_slice());
        proof {
            assert(parts[i as int] == spec_format_component(artists.deep_view()[i as int]));
            assert(artists.deep_view()[i as int] == artists[i as int]@);
            lemma_join_bytes_push(parts.take(i as int), and_rep(), parts[i as int]);
            assert(parts.take(i as int).push(parts[i as int]) =~= parts.take(i + 1));
            if i > 0 {
                assert(out@ =~= before + and_rep() + parts[i as int]);
            } else {
                assert(out@ =~= before + parts[i as int]);
            }
            assert(out@ =~= url_prefix() + spec_join_bytes(parts.take(i + 1), and_rep()));
        }
        i = i + 1;
    }
    proof {
        assert(parts.take(i as int) =~= parts);
    }
    out.push(45);
    let title_part = format_genius_path_component(title);
    push_bytes(&mut out, title_part.as_slice());
    out.push(45);
    out.push(108);
    out.push(121);
    out.push(114);
    out.push(105);
    out.push(99);
    out.push(115);
    proof {
        assert(out@ =~= spec_genius_url(artists.deep_view(), title@));
    }
    out
}

} // verus!
