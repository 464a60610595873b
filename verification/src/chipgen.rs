//! Text rules of the chip data generator: which `embassy-stm32` features are
//! chips, how a chip is named for `probe-rs`, which packagings refine it,
//! the version of `embassy-stm32` a manifest declares, the Liquid
//! conditionals a template manifest must lose before `cargo` reads it, and
//! the replacement of a generated block between its markers.

use vstd::prelude::*;
use vstd::string::StringSliceAdditionalSpecFns;
use crate::bytes::{push_all, copy_range, find, find_from, matches_at, starts_with, ends_with,
    starts_with_exec, ends_with_exec, eq_bytes, trim_start_at, trim_range};

verus! {

pub open spec fn if_open() -> Seq<u8> {
    "{% if".spec_bytes()
}

pub open spec fn endif_tag() -> Seq<u8> {
    "{% endif %}".spec_bytes()
}

/// `t[i..]` with every `{% if .. %}..{% endif %}` dropped, each `{% if` closed
/// by the nearest `{% endif %}`. An `{% if` that nothing closes is left as
/// it is, with the rest of the text, so that `cargo` refuses the manifest
/// with a clear error.
pub open spec fn strip_liquid_from(t: Seq<u8>, i: int) -> Seq<u8>
    decreases t.len() - i,
{
    if i < 0 || i > t.len() {
        Seq::empty()
    } else {
        match find_from(t, i, if_open()) {
            None => t.subrange(i, t.len() as int),
            Some(start) => if start < i || start > t.len() {
                Seq::empty()
            } else {
                match find_from(t, start, endif_tag()) {
                    None => t.subrange(i, t.len() as int),
                    Some(end) => if end < start || end + endif_tag().len() > t.len() {
                        Seq::empty()
                    } else {
                        proof {
                            reveal_strlit("{% endif %}");
                        }
                        t.subrange(i, start) + strip_liquid_from(t, end + endif_tag().len())
                    },
                }
            },
        }
    }
}

/// Stripping never makes the text longer.
proof fn lemma_strip_liquid_shrinks(t: Seq<u8>, i: int)
    requires
        0 <= i <= t.len(),
    ensures
        strip_liquid_from(t, i).len() <= t.len() - i,
    decreases t.len() - i,
{
    reveal_strlit("{% endif %}");
    if let Some(start) = find_from(t, i, if_open()) {
        if i <= start <= t.len() {
            if let Some(end) = find_from(t, start, endif_tag()) {
                if start <= end && end + endif_tag().len() <= t.len() {
                    lemma_strip_liquid_shrinks(t, end + endif_tag().len());
                }
            }
        }
    }
}

/// The manifest text `t` without its Liquid conditionals.
pub open spec fn strip_liquid_spec(t: Seq<u8>) -> Seq<u8> {
    strip_liquid_from(t, 0)
}

/// Drops every `{% if .. %}..{% endif %}` of a manifest, keeping the branch
/// that is false: the block goes whole. An `{% if` that nothing closes, and
/// all after it, stays as it is; the text never grows.
pub fn strip_liquid(text: &[u8]) -> (r: Vec<u8>)
    ensures
        r@ == strip_liquid_spec(text@),
        find_from(text@, 0, if_open()) is None ==> r@ == text@,
        r@.len() <= text@.len(),
{
    proof {
        lemma_strip_liquid_shrinks(text@, 0);
    }
    assert(text@.subrange(0, text@.len() as int) == text@);
    let text_len: usize = text.len();
    let open = "{% if".as_bytes();
    let close = "{% endif %}".as_bytes();
    proof {
        reveal_strlit("{% endif %}");
    }
    assert(close@.len() > 0);
    let mut out: Vec<u8> = Vec::new();
    let mut i: usize = 0;
    loop
        invariant
            i <= text@.len(),
            text_len == text@.len(),
            open@ == if_open(),
            close@ == endif_tag(),
            close@.len() > 0,
            strip_liquid_spec(text@) == out@ + strip_liquid_from(text@, i as int),
            strip_liquid_spec(text@).len() <= text@.len(),
        decreases text@.len() - i,
    {
        let start = match find(text, i, open) {
            None => {
                let rest = copy_range(text, i, text_len);
                push_all(&mut out, rest.as_slice());
                return out;
            },
            Some(s) => s,
        };
        let end = match find(text, start, close) {
            None => {
                let rest = copy_range(text, i, text_len);
                push_all(&mut out, rest.as_slice());
                assert(out@ =~= strip_liquid_spec(text@));
                return out;
            },
            Some(e) => e,
        };
        let head = copy_range(text, i, start);
        push_all(&mut out, head.as_slice());
        i = end + close.len();
    }
}

pub open spec fn is_feature_part(s: Seq<u8>) -> bool {
    s.len() > 0 && forall|i: int|
        0 <= i < s.len() ==> (0x61 <= #[trigger] s[i] <= 0x7A || 0x30 <= s[i] <= 0x39)
}

/// Whether `key` names a chip: `stm32`, then one or two non-empty parts of
/// lower-case letters and digits joined by a hyphen.
pub open spec fn chip_feature(key: Seq<u8>) -> bool {
    if !starts_with(key, "stm32".spec_bytes()) {
        false
    } else {
        let suffix = key.subrange("stm32".spec_bytes().len() as int, key.len() as int);
        if suffix.len() == 0 {
            false
        } else {
            match find_from(suffix, 0, "-".spec_bytes()) {
                None => is_feature_part(suffix),
                Some(d) => {
                    let extra = suffix.subrange(d + "-".spec_bytes().len(), suffix.len() as int);
                    find_from(extra, 0, "-".spec_bytes()) is None && is_feature_part(
                        suffix.subrange(0, d),
                    ) && is_feature_part(extra)
                },
            }
        }
    }
}

fn is_feature_part_exec(s: &[u8]) -> (r: bool)
    ensures
        r == is_feature_part(s@),
{
    if s.len() == 0 {
        return false;
    }
    let mut i: usize = 0;
    while i < s.len()
        invariant
            0 <= i <= s@.len(),
            forall|k: int| 0 <= k < i ==> (0x61 <= #[trigger] s@[k] <= 0x7A || 0x30 <= s@[k] <= 0x39),
        decreases s.len() - i,
    {
        if !((0x61 <= s[i] && s[i] <= 0x7A) || (0x30 <= s[i] && s[i] <= 0x39)) {
            return false;
        }
        i = i + 1;
    }
    true
}

/// Whether an `embassy-stm32` feature names a chip.
pub fn is_chip_feature(key: &[u8]) -> (r: bool)
    ensures
        r == chip_feature(key@),
{
    let prefix = "stm32".as_bytes();
    if !starts_with_exec(key, prefix) {
        return false;
    }
    let suffix = &key[prefix.len()..key.len()];
    if suffix.len() == 0 {
        return false;
    }
    let dash = "-".as_bytes();
    match find(suffix, 0, dash) {
        None => is_feature_part_exec(suffix),
        Some(d) => {
            let base = &suffix[0..d];
            let extra = &suffix[d + dash.len()..suffix.len()];
            find(extra, 0, dash).is_none() && is_feature_part_exec(base) && is_feature_part_exec(
                extra,
            )
        },
    }
}

/// `s` with its ASCII letters in upper case.
pub open spec fn ascii_upper(s: Seq<u8>) -> Seq<u8> {
    Seq::new(s.len(), |i: int| if 0x61 <= s[i] <= 0x7A { (s[i] - 0x20) as u8 } else { s[i] })
}

fn ascii_upper_exec(s: &[u8]) -> (r: Vec<u8>)
    ensures
        r@ == ascii_upper(s@),
{
    let mut out: Vec<u8> = Vec::new();
    let mut i: usize = 0;
    while i < s.len()
        invariant
            0 <= i <= s@.len(),
            out@ == ascii_upper(s@.subrange(0, i as int)),
        decreases s.len() - i,
    {
        let c = s[i];
        out.push(if 0x61 <= c && c <= 0x7A { c - 0x20 } else { c });
        i = i + 1;
        assert(out@ =~= ascii_upper(s@.subrange(0, i as int)));
    }
    assert(s@.subrange(0, s@.len() as int) == s@);
    out
}

/// The part of a chip suffix before its first hyphen.
pub open spec fn suffix_base(suffix: Seq<u8>) -> Seq<u8> {
    match find_from(suffix, 0, "-".spec_bytes()) {
        None => suffix,
        Some(d) => suffix.subrange(0, d),
    }
}

/// The name of the chip's `probe-rs` target without the `STM32` prefix: the
/// suffix up to its first hyphen, in upper case.
pub open spec fn probe_rs_candidate_spec(suffix: Seq<u8>) -> Seq<u8> {
    ascii_upper(suffix_base(suffix))
}

/// The part of a chip suffix that `probe-rs` knows a target by, in upper
/// case (letters outside ASCII are left as they are).
pub fn probe_rs_candidate(suffix: &[u8]) -> (r: Vec<u8>)
    ensures
        r@ == probe_rs_candidate_spec(suffix@),
{
    let base = match find(suffix, 0, "-".as_bytes()) {
        None => suffix,
        Some(d) => &suffix[0..d],
    };
    ascii_upper_exec(base)
}

/// Whether `m` marks a core of a dual-core chip rather than a packaging.
pub open spec fn is_core_marker(m: Seq<u8>) -> bool {
    ||| m == "cm0".spec_bytes()
    ||| m == "cm0p".spec_bytes()
    ||| m == "cm3".spec_bytes()
    ||| m == "cm4".spec_bytes()
    ||| m == "cm7".spec_bytes()
    ||| m == "cm23".spec_bytes()
    ||| m == "cm33".spec_bytes()
}

/// Whether `chip` refines the bare target `bare` with the packaging `marker`.
pub open spec fn refines(chip: Seq<u8>, bare: Seq<u8>, marker: Seq<u8>) -> bool {
    chip.len() > bare.len() && starts_with(chip, bare) && ends_with(chip, marker)
}

/// The targets among `chips`, in their order, that are more exact for a
/// chip with a packaging suffix than its bare target: longer than it, starting
/// with it and ending with the packaging letter.
pub open spec fn package_candidates_spec(suffix: Seq<u8>, chips: Seq<Seq<u8>>) -> Seq<Seq<u8>> {
    match find_from(suffix, 0, "-".spec_bytes()) {
        None => Seq::empty(),
        Some(d) => {
            let marker = suffix.subrange(d + "-".spec_bytes().len(), suffix.len() as int);
            if is_core_marker(marker) {
                Seq::empty()
            } else {
                let bare = "STM32".spec_bytes() + probe_rs_candidate_spec(suffix);
                chips.filter(|c: Seq<u8>| refines(c, bare, ascii_upper(marker)))
            }
        },
    }
}

fn is_core_marker_exec(m: &[u8]) -> (r: bool)
    ensures
        r == is_core_marker(m@),
{
    eq_bytes(m, "cm0".as_bytes()) || eq_bytes(m, "cm0p".as_bytes()) || eq_bytes(m, "cm3".as_bytes())
        || eq_bytes(m, "cm4".as_bytes()) || eq_bytes(m, "cm7".as_bytes()) || eq_bytes(
        m,
        "cm23".as_bytes(),
    ) || eq_bytes(m, "cm33".as_bytes())
}

/// The `probe-rs` targets among `chips` (in the order given) that are more
/// exact for a chip with a packaging suffix such as `l151c6-a` than its bare
/// target; empty for a suffix without a hyphen or with a core marker.
pub fn package_candidates(suffix: &[u8], chips: &[Vec<u8>]) -> (r: Vec<Vec<u8>>)
    ensures
        r.deep_view() == package_candidates_spec(suffix@, chips.deep_view()),
{
    let suffix_len: usize = suffix.len();
    let dash = "-".as_bytes();
    let d = match find(suffix, 0, dash) {
        None => {
            let out: Vec<Vec<u8>> = Vec::new();
            assert(out.deep_view() =~= Seq::<Seq<u8>>::empty());
            return out;
        },
        Some(d) => d,
    };
    let marker = &suffix[d + dash.len()..suffix.len()];
    if is_core_marker_exec(marker) {
        let out: Vec<Vec<u8>> = Vec::new();
        assert(out.deep_view() =~= Seq::<Seq<u8>>::empty());
        return out;
    }
    let mut bare: Vec<u8> = Vec::new();
    push_all(&mut bare, "STM32".as_bytes());
    let cand = probe_rs_candidate(suffix);
    push_all(&mut bare, cand.as_slice());
    let upper = ascii_upper_exec(marker);
    let ghost cv = chips.deep_view();
    let ghost pick = |c: Seq<u8>| refines(c, bare@, upper@);
    let mut out: Vec<Vec<u8>> = Vec::new();
    let mut i: usize = 0;
    while i < chips.len()
        invariant
            0 <= i <= chips@.len(),
            cv == chips.deep_view(),
            pick == (|c: Seq<u8>| refines(c, bare@, upper@)),
            out.deep_view() == cv.subrange(0, i as int).filter(pick),
        decreases chips.len() - i,
    {
        let chip = chips[i].as_slice();
        assert(cv[i as int] == chip@);
        let ok = chip.len() > bare.len() && starts_with_exec(chip, bare.as_slice())
            && ends_with_exec(chip, upper.as_slice());
        let ghost before = out.deep_view();
        proof {
            assert(cv.subrange(0, i + 1).drop_last() =~= cv.subrange(0, i as int));
            cv.subrange(0, i as int).lemma_filter_push(cv[i as int], pick);
            assert(cv.subrange(0, i as int).push(cv[i as int]) =~= cv.subrange(0, i + 1));
        }
        if ok {
            out.push(copy_range(chip, 0, chip.len()));
            assert(chip@.subrange(0, chip@.len() as int) == chip@);
            assert(out.deep_view() =~= before.push(chip@));
        }
        i = i + 1;
    }
    assert(cv.subrange(0, cv.len() as int) == cv);
    out
}


/// End of the line of `t` that starts at `i`: its line feed, or the end.
pub open spec fn line_end(t: Seq<u8>, i: int) -> int
    decreases t.len() - i,
{
    if i < 0 || i >= t.len() || t[i] == 0x0A {
        i
    } else {
        line_end(t, i + 1)
    }
}

/// End of the content of the line `t[i..e]`: before the carriage return of
/// a `\r\n` that ends it (a bare one at the end of the text stays).
pub open spec fn content_end(t: Seq<u8>, i: int, e: int) -> int {
    if e > i && e < t.len() && t[e - 1] == 0x0D { e - 1 } else { e }
}

/// Whether the line `t[i..e]` declares `embassy-stm32`: it starts with the
/// name once leading whitespace is dropped.
pub open spec fn declares_embassy(t: Seq<u8>, i: int, e: int) -> bool {
    let a = trim_start_at(t, i, e);
    starts_with(t.subrange(a, e), "embassy-stm32".spec_bytes())
}

/// The first line of `t` from `i` on, as `str::lines` cuts them, that
/// declares `embassy-stm32`.
pub open spec fn declaring_line(t: Seq<u8>, i: int) -> Option<(int, int)>
    decreases t.len() - i,
{
    if i < 0 || i >= t.len() {
        None
    } else {
        let e = line_end(t, i);
        let c = content_end(t, i, e);
        if e < i || e > t.len() {
            None
        } else if declares_embassy(t, i, c) {
            Some((i, c))
        } else if e >= t.len() {
            None
        } else {
            declaring_line(t, e + 1)
        }
    }
}

/// The version in a declaring line: after `version`, whitespace, `=`,
/// whitespace and `"`, up to the next `"`.
pub open spec fn version_in_line(l: Seq<u8>) -> Option<Seq<u8>> {
    match find_from(l, 0, "version".spec_bytes()) {
        None => None,
        Some(k) => {
            let p = trim_start_at(l, k + "version".spec_bytes().len(), l.len() as int);
            if p < l.len() && l[p] == 0x3D {
                let q = trim_start_at(l, p + 1, l.len() as int);
                if q < l.len() && l[q] == 0x22 {
                    match find_from(l, q + 1, "\"".spec_bytes()) {
                        None => None,
                        Some(e) => Some(l.subrange(q + 1, e)),
                    }
                } else {
                    None
                }
            } else {
                None
            }
        },
    }
}

/// The version of `embassy-stm32` that the manifest `t` declares.
pub open spec fn declared_version(t: Seq<u8>) -> Option<Seq<u8>> {
    match declaring_line(t, 0) {
        None => None,
        Some((a, b)) => version_in_line(t.subrange(a, b)),
    }
}

fn version_in_line_exec(l: &[u8]) -> (r: Option<Vec<u8>>)
    ensures
        match (r, version_in_line(l@)) {
            (Some(x), Some(y)) => x@ == y,
            (None, None) => true,
            _ => false,
        },
{
    let l_len: usize = l.len();
    let key = "version".as_bytes();
    let k = match find(l, 0, key) {
        None => {
            return None;
        },
        Some(k) => k,
    };
    let (p, _) = trim_range(l, k + key.len(), l_len);
    if !(p < l_len && l[p] == 0x3D) {
        return None;
    }
    let (q, _) = trim_range(l, p + 1, l_len);
    if !(q < l_len && l[q] == 0x22) {
        return None;
    }
    match find(l, q + 1, "\"".as_bytes()) {
        None => None,
        Some(e) => Some(copy_range(l, q + 1, e)),
    }
}

/// The version of `embassy-stm32` as a manifest declares it: from the first
/// line that starts with `embassy-stm32`, the quoted value after `version =`.
pub fn parse_declared_embassy_version(manifest: &[u8]) -> (r: Option<Vec<u8>>)
    ensures
        match (r, declared_version(manifest@)) {
            (Some(x), Some(y)) => x@ == y,
            (None, None) => true,
            _ => false,
        },
{
    let t_len: usize = manifest.len();
    let name = "embassy-stm32".as_bytes();
    let mut i: usize = 0;
    while i < t_len
        invariant
            i <= manifest@.len(),
            t_len == manifest@.len(),
            name@ == "embassy-stm32".spec_bytes(),
            declaring_line(manifest@, 0) == declaring_line(manifest@, i as int),
        decreases t_len - i,
    {
        let mut e: usize = i;
        while e < t_len && manifest[e] != 0x0A
            invariant
                i <= e <= t_len,
                t_len == manifest@.len(),
                line_end(manifest@, i as int) == line_end(manifest@, e as int),
            decreases t_len - e,
        {
            e = e + 1;
        }
        let c: usize = if e > i && e < manifest.len() && manifest[e - 1] == 0x0D { e - 1 } else { e };
        let (a, _) = trim_range(manifest, i, c);
        let head = &manifest[a..c];
        if starts_with_exec(head, name) {
            let line = &manifest[i..c];
            return version_in_line_exec(line);
        }
        if e >= t_len {
            return None;
        }
        i = e + 1;
    }
    None
}

/// The chip suffixes of `features` (each `stm32` and a suffix) whose
/// `probe-rs` target is among `probe_chips`, in the order of `features`.
pub open spec fn supported_suffixes_spec(features: Seq<Seq<u8>>, probe_chips: Seq<Seq<u8>>) -> Seq<
    Seq<u8>,
>
    decreases features.len(),
{
    if features.len() == 0 {
        Seq::empty()
    } else {
        let rest = supported_suffixes_spec(features.drop_last(), probe_chips);
        let f = features.last();
        let suffix = f.subrange(5, f.len() as int);
        if probe_chips.contains("STM32".spec_bytes() + probe_rs_candidate_spec(suffix)) {
            rest.push(suffix)
        } else {
            rest
        }
    }
}

/// Whether `f` can lose its first five bytes as a `str` can: it has them
/// and a character starts right after.
pub open spec fn cuttable_at_five(f: Seq<u8>) -> bool {
    f.len() >= 5 && (f.len() == 5 || !(0x80 <= f[5] < 0xC0))
}

fn contains_bytes(list: &[Vec<u8>], item: &[u8]) -> (r: bool)
    ensures
        r == list.deep_view().contains(item@),
{
    let ghost lv = list.deep_view();
    let mut i: usize = 0;
    while i < list.len()
        invariant
            0 <= i <= list@.len(),
            lv == list.deep_view(),
            forall|k: int| 0 <= k < i ==> lv[k] != item@,
        decreases list.len() - i,
    {
        assert(lv[i as int] == list@[i as int]@);
        if eq_bytes(list[i].as_slice(), item) {
            assert(lv[i as int] == item@);
            return true;
        }
        i = i + 1;
    }
    false
}

/// The suffixes of the chip features (`stm32` and a suffix) whose bare
/// target `probe-rs` knows, in the order of `features`.
pub fn supported_suffixes(features: &[Vec<u8>], probe_chips: &[Vec<u8>]) -> (r: Vec<Vec<u8>>)
    requires
        forall|i: int| 0 <= i < features@.len() ==> cuttable_at_five(#[trigger] features@[i]@),
    ensures
        r.deep_view() == supported_suffixes_spec(features.deep_view(), probe_chips.deep_view()),
{
    let ghost fv = features.deep_view();
    let mut out: Vec<Vec<u8>> = Vec::new();
    let mut i: usize = 0;
    assert(out.deep_view() =~= supported_suffixes_spec(fv.subrange(0, 0), probe_chips.deep_view()));
    while i < features.len()
        invariant
            0 <= i <= features@.len(),
            fv == features.deep_view(),
            forall|k: int| 0 <= k < features@.len() ==> cuttable_at_five(#[trigger] features@[k]@),
            out.deep_view() == supported_suffixes_spec(fv.subrange(0, i as int), probe_chips.deep_view()),
        decreases features.len() - i,
    {
        let f = features[i].as_slice();
        assert(fv[i as int] == f@);
        assert(cuttable_at_five(features@[i as int]@));
        let suffix = copy_range(f, 5, f.len());
        let mut target: Vec<u8> = Vec::new();
        push_all(&mut target, "STM32".as_bytes());
        let cand = probe_rs_candidate(suffix.as_slice());
        push_all(&mut target, cand.as_slice());
        let ghost before = out.deep_view();
        assert(fv.subrange(0, i + 1).drop_last() =~= fv.subrange(0, i as int));
        if contains_bytes(probe_chips, target.as_slice()) {
            out.push(suffix);
            assert(out.deep_view() =~~= before.push(suffix@));
        }
        i = i + 1;
    }
    assert(fv.subrange(0, fv.len() as int) == fv);
    out
}

/// Why a generated block could not be put in place.
#[derive(Clone, Copy, Debug, PartialEq, Eq, Structural)]
pub enum BlockError {
    BeginNotFound,
    EndNotFound,
    /// The end marker comes before the begin marker.
    EndBeforeBegin,
}

/// `current` with the block from the begin marker to the end of the end
/// marker (both markers belong to the block) replaced by `generated`.
pub open spec fn replace_block_spec(
    current: Seq<u8>,
    begin: Seq<u8>,
    end: Seq<u8>,
    generated: Seq<u8>,
) -> Result<Seq<u8>, BlockError> {
    match find_from(current, 0, begin) {
        None => Err(BlockError::BeginNotFound),
        Some(b) => match find_from(current, 0, end) {
            None => Err(BlockError::EndNotFound),
            Some(e) => if e < b {
                Err(BlockError::EndBeforeBegin)
            } else {
                Ok(current.subrange(0, b) + generated + current.subrange(e + end.len(), current.len() as int))
            },
        },
    }
}

/// Puts `generated` in place of the block that starts at the first
/// `begin_marker` and ends with the first `end_marker`: both markers belong
/// to the replaced block, so a generated text that keeps them carries them.
pub fn replace_generated_block(
    current: &[u8],
    begin_marker: &[u8],
    end_marker: &[u8],
    generated: &[u8],
) -> (r: Result<Vec<u8>, BlockError>)
    ensures
        match (r, replace_block_spec(current@, begin_marker@, end_marker@, generated@)) {
            (Ok(x), Ok(y)) => x@ == y,
            (Err(e), Err(f)) => e == f,
            _ => false,
        },
{
    let begin = match find(current, 0, begin_marker) {
        None => {
            return Err(BlockError::BeginNotFound);
        },
        Some(b) => b,
    };
    let found = find(current, 0, end_marker);
    let end = match found {
        None => {
            return Err(BlockError::EndNotFound);
        },
        Some(e) => e,
    };
    let total: usize = current.len();
    assert(end + end_marker@.len() <= total);
    let tail_from: usize = end + end_marker.len();
    if end < begin {
        return Err(BlockError::EndBeforeBegin);
    }
    let mut out: Vec<u8> = Vec::new();
    push_all(&mut out, &current[0..begin]);
    push_all(&mut out, generated);
    push_all(&mut out, &current[tail_from..current.len()]);
    Ok(out)
}


/// Rewrites the generated block between `begin_marker` and `end_marker`:
/// the old block, both markers included, gives way to `generated` followed
/// by the end marker, so that the next run finds the block again.
pub fn regenerate_block(
    current: &[u8],
    begin_marker: &[u8],
    end_marker: &[u8],
    generated: &[u8],
) -> (r: Result<Vec<u8>, BlockError>)
    ensures
        match (r, replace_block_spec(current@, begin_marker@, end_marker@, generated@ + end_marker@)) {
            (Ok(x), Ok(y)) => x@ == y,
            (Err(e), Err(f)) => e == f,
            _ => false,
        },
{
    let mut block = copy_range(generated, 0, generated.len());
    assert(generated@.subrange(0, generated@.len() as int) == generated@);
    push_all(&mut block, end_marker);
    replace_generated_block(current, begin_marker, end_marker, block.as_slice())
}

// ---------------------------------------------------------------------
// What `cargo metadata` and `probe-rs` answer
// ---------------------------------------------------------------------

/// What `cargo metadata` says of one package, as far as the generator
/// reads it: its name, the names of its declared features and the path of
/// its manifest, the last two where the answer has them.
pub struct PackageFacts {
    pub name: Vec<u8>,
    pub features: Option<Vec<Vec<u8>>>,
    pub manifest_path: Option<Vec<u8>>,
}

/// What the generator takes from the dependency graph in one call: the
/// chip features that `embassy-stm32` declares, sorted, each once, and the
/// manifest of the `stm32-metapac` that was resolved for it.
pub struct CargoMetadata {
    pub embassy_chip_features: Vec<Vec<u8>>,
    pub stm32_metapac_manifest: Vec<u8>,
}

/// Why the dependency graph does not give what the generator needs.
#[derive(Debug, PartialEq, Eq)]
pub enum CargoMetadataError {
    NoEmbassy,
    NoFeatures,
    NoChipFeatures,
    NoMetapac,
    NoManifestPath,
}

/// Index of the first package of `ps` from `i` on named `name`.
pub open spec fn package_from(ps: Seq<PackageFacts>, name: Seq<u8>, i: int) -> Option<int>
    decreases ps.len() - i,
{
    if i < 0 || i >= ps.len() {
        None
    } else if ps[i].name@ == name {
        Some(i)
    } else {
        package_from(ps, name, i + 1)
    }
}

/// The chip features among `fs`, in order.
pub open spec fn chip_features_of(fs: Seq<Seq<u8>>) -> Seq<Seq<u8>>
    decreases fs.len(),
{
    if fs.len() == 0 {
        Seq::empty()
    } else {
        chip_features_of(fs.drop_last()) + if chip_feature(fs.last()) {
            seq![fs.last()]
        } else {
            Seq::empty()
        }
    }
}

/// Whether `r` is what the generator takes from the packages `ps`.
pub open spec fn metadata_resolved(ps: Seq<PackageFacts>, r: Result<CargoMetadata, CargoMetadataError>) -> bool {
    match package_from(ps, "embassy-stm32".spec_bytes(), 0) {
        None => r == Err::<CargoMetadata, CargoMetadataError>(CargoMetadataError::NoEmbassy),
        Some(e) => match ps[e].features {
            None => r == Err::<CargoMetadata, CargoMetadataError>(CargoMetadataError::NoFeatures),
            Some(fs) => {
                let chips = chip_features_of(fs.deep_view());
                if chips.len() == 0 {
                    r == Err::<CargoMetadata, CargoMetadataError>(CargoMetadataError::NoChipFeatures)
                } else {
                    match package_from(ps, "stm32-metapac".spec_bytes(), 0) {
                        None => r == Err::<CargoMetadata, CargoMetadataError>(CargoMetadataError::NoMetapac),
                        Some(m) => match ps[m].manifest_path {
                            None => r == Err::<CargoMetadata, CargoMetadataError>(
                                CargoMetadataError::NoManifestPath,
                            ),
                            Some(path) => r matches Ok(md) && md.stm32_metapac_manifest@ == path@
                                && crate::templatecheck::strictly_sorted(md.embassy_chip_features.deep_view())
                                && md.embassy_chip_features.deep_view().to_set() == chips.to_set(),
                        },
                    }
                }
            },
        },
    }
}

fn find_package(ps: &[PackageFacts], name: &[u8]) -> (r: Option<usize>)
    ensures
        r matches Some(i) ==> i < ps@.len(),
        (match r {
            Some(i) => Some(i as int),
            None => None,
        }) == package_from(ps@, name@, 0),
{
    let mut i: usize = 0;
    while i < ps.len()
        invariant
            i <= ps@.len(),
            package_from(ps@, name@, 0) == package_from(ps@, name@, i as int),
        decreases ps.len() - i,
    {
        if eq_bytes(ps[i].name.as_slice(), name) {
            return Some(i);
        }
        i = i + 1;
    }
    None
}

/// Takes from the packages of the dependency graph of the firmware what the
/// generator needs: the chip features that `embassy-stm32` declares (not
/// only those enabled for this build) and the manifest of `stm32-metapac`,
/// whose sources hold the memory of every chip.
pub fn resolve_cargo_metadata(packages: &[PackageFacts]) -> (r: Result<CargoMetadata, CargoMetadataError>)
    ensures
        metadata_resolved(packages@, r),
{
    let e = match find_package(packages, "embassy-stm32".as_bytes()) {
        Some(e) => e,
        None => return Err(CargoMetadataError::NoEmbassy),
    };
    let fs = match &packages[e].features {
        Some(fs) => fs,
        None => return Err(CargoMetadataError::NoFeatures),
    };
    let ghost fv = fs.deep_view();
    let mut chips: Vec<Vec<u8>> = Vec::new();
    let mut any = false;
    let mut k: usize = 0;
    while k < fs.len()
        invariant
            k <= fs@.len(),
            fv == fs.deep_view(),
            crate::templatecheck::strictly_sorted(chips.deep_view()),
            chips.deep_view().to_set() == chip_features_of(fv.subrange(0, k as int)).to_set(),
            any == (chip_features_of(fv.subrange(0, k as int)).len() > 0),
        decreases fs.len() - k,
    {
        assert(fv.subrange(0, k + 1).drop_last() =~= fv.subrange(0, k as int));
        assert(fv.subrange(0, k + 1).last() == fs@[k as int]@);
        let ghost before = chip_features_of(fv.subrange(0, k as int));
        if is_chip_feature(fs[k].as_slice()) {
            let key = copy_range(fs[k].as_slice(), 0, fs[k].len());
            assert(fs@[k as int]@.subrange(0, fs@[k as int]@.len() as int) =~= fs@[k as int]@);
            let ghost kv = key@;
            crate::templatecheck::insert_sorted_unique(&mut chips, key);
            any = true;
            proof {
                before.lemma_push_to_set_commute(kv);
                assert(chip_features_of(fv.subrange(0, k + 1)) =~= before.push(kv));
            }
        } else {
            assert(chip_features_of(fv.subrange(0, k + 1)) =~= before);
        }
        k = k + 1;
    }
    assert(fv.subrange(0, fs@.len() as int) =~= fv);
    if !any {
        return Err(CargoMetadataError::NoChipFeatures);
    }
    let m = match find_package(packages, "stm32-metapac".as_bytes()) {
        Some(m) => m,
        None => return Err(CargoMetadataError::NoMetapac),
    };
    let path = match &packages[m].manifest_path {
        Some(p) => copy_range(p.as_slice(), 0, p.len()),
        None => return Err(CargoMetadataError::NoManifestPath),
    };
    proof {
        let p = packages@[m as int].manifest_path->Some_0;
        assert(p@.subrange(0, p@.len() as int) =~= p@);
    }
    Ok(CargoMetadata { embassy_chip_features: chips, stm32_metapac_manifest: path })
}

/// Why the dependency graph does not give what the generator needs.
pub open spec fn metadata_error_text(e: CargoMetadataError) -> Seq<u8> {
    match e {
        CargoMetadataError::NoEmbassy => "embassy-stm32 не найден среди зависимостей cross/Cargo.toml".spec_bytes(),
        CargoMetadataError::NoFeatures => "embassy-stm32: нет поля features".spec_bytes(),
        CargoMetadataError::NoChipFeatures => "embassy-stm32: не найдено ни одной чип-фичи вида \"stm32xxxxxx\" — формат Cargo.toml изменился?".spec_bytes(),
        CargoMetadataError::NoMetapac => "stm32-metapac не найден среди зависимостей cross/Cargo.toml".spec_bytes(),
        CargoMetadataError::NoManifestPath => "stm32-metapac: нет поля manifest_path".spec_bytes(),
    }
}

/// Why the dependency graph does not give what the generator needs.
pub fn metadata_error_message(e: &CargoMetadataError) -> (r: Vec<u8>)
    ensures
        r@ == metadata_error_text(*e),
{
    match e {
        CargoMetadataError::NoEmbassy => "embassy-stm32 не найден среди зависимостей cross/Cargo.toml".as_bytes_vec(),
        CargoMetadataError::NoFeatures => "embassy-stm32: нет поля features".as_bytes_vec(),
        CargoMetadataError::NoChipFeatures => "embassy-stm32: не найдено ни одной чип-фичи вида \"stm32xxxxxx\" — формат Cargo.toml изменился?".as_bytes_vec(),
        CargoMetadataError::NoMetapac => "stm32-metapac не найден среди зависимостей cross/Cargo.toml".as_bytes_vec(),
        CargoMetadataError::NoManifestPath => "stm32-metapac: нет поля manifest_path".as_bytes_vec(),
    }
}

/// The chip of a line of `probe-rs chip list` from `i` on, each in order:
/// the chips stand indented under their family, and only STM32 ones count.
pub open spec fn chip_lines_from(t: Seq<u8>, i: int) -> Seq<Seq<u8>>
    decreases t.len() - i,
{
    if i < 0 || i >= t.len() {
        Seq::empty()
    } else {
        let e = line_end(t, i);
        let line = t.subrange(i, content_end(t, i, e));
        let chip = crate::bytes::trim_seq(line);
        let here = if crate::bytes::ws_len_at(line, 0) > 0 && starts_with(chip, "STM32".spec_bytes()) {
            seq![chip]
        } else {
            Seq::empty()
        };
        if e < i || e >= t.len() {
            here
        } else {
            here + chip_lines_from(t, e + 1)
        }
    }
}

/// The STM32 chips that `probe-rs chip list` prints, sorted and each once;
/// `None` where it prints none, which means its output has changed.
pub fn probe_rs_chip_names(stdout: &[u8]) -> (r: Option<Vec<Vec<u8>>>)
    ensures
        chip_lines_from(stdout@, 0).len() == 0 <==> r is None,
        r matches Some(v) ==> crate::templatecheck::strictly_sorted(v.deep_view())
            && v.deep_view().to_set() == chip_lines_from(stdout@, 0).to_set(),
{
    let t_len: usize = stdout.len();
    let mut out: Vec<Vec<u8>> = Vec::new();
    let ghost mut done: Seq<Seq<u8>> = Seq::empty();
    let mut i: usize = 0;
    while i < t_len
        invariant_except_break
            chip_lines_from(stdout@, 0) == done + chip_lines_from(stdout@, i as int),
        invariant
            i <= t_len,
            t_len == stdout@.len(),
            crate::templatecheck::strictly_sorted(out.deep_view()),
            out.deep_view().to_set() == done.to_set(),
            (out@.len() == 0) == (done.len() == 0),
        ensures
            chip_lines_from(stdout@, 0) == done,
        decreases t_len - i,
    {
        let mut e: usize = i;
        while e < t_len && stdout[e] != 0x0A
            invariant
                i <= e <= t_len,
                t_len == stdout@.len(),
                line_end(stdout@, i as int) == line_end(stdout@, e as int),
            decreases t_len - e,
        {
            e = e + 1;
        }
        let c: usize = if e > i && e < t_len && stdout[e - 1] == 0x0D { e - 1 } else { e };
        let line = copy_range(stdout, i, c);
        let chip = crate::bytes::trim(line.as_slice());
        let ghost old_done = done;
        let indented = crate::bytes::ws_len_at_exec(line.as_slice(), 0) > 0;
        if indented && starts_with_exec(chip.as_slice(), "STM32".as_bytes()) {
            let ghost cv = chip@;
            crate::templatecheck::insert_sorted_unique(&mut out, chip);
            proof {
                old_done.lemma_push_to_set_commute(cv);
                done = done.push(cv);
                assert(done.to_set() =~= old_done.to_set().insert(cv));
                assert(out.deep_view().to_set().contains(cv));
                assert(out.deep_view().contains(cv));
                assert(out.deep_view().len() == out@.len());
            }
        }
        if e >= t_len {
            assert(chip_lines_from(stdout@, 0) =~= done);
            break;
        }
        assert(chip_lines_from(stdout@, 0) =~= done + chip_lines_from(stdout@, e + 1));
        i = e + 1;
    }
    if out.len() == 0 {
        None
    } else {
        Some(out)
    }
}


/// The first line of `t`, as `str::lines` gives it; empty for an empty `t`.
pub open spec fn first_line(t: Seq<u8>) -> Seq<u8> {
    t.subrange(0, content_end(t, 0, line_end(t, 0)))
}

/// Where the first whitespace character of `s` from `j` on starts, or the
/// end of `s`.
pub open spec fn whitespace_from(s: Seq<u8>, j: int) -> int
    decreases s.len() - j,
{
    if j < 0 || j >= s.len() || crate::bytes::ws_len_at(s, j) > 0 {
        j
    } else {
        whitespace_from(s, j + 1)
    }
}

/// The version that `probe-rs --version` prints: its first line trimmed,
/// `probe-rs 0.31.0 (git commit: ...)` read as `0.31.0`, any other line as
/// it is.
pub open spec fn probe_rs_version_of(stdout: Seq<u8>) -> Seq<u8> {
    let first = crate::bytes::trim_seq(first_line(stdout));
    if starts_with(first, "probe-rs ".spec_bytes()) {
        let rest = first.subrange("probe-rs ".spec_bytes().len() as int, first.len() as int);
        let a = trim_start_at(rest, 0, rest.len() as int);
        if a >= rest.len() {
            first
        } else {
            rest.subrange(a, whitespace_from(rest, a))
        }
    } else {
        first
    }
}

/// The version of `probe-rs`, read from what `probe-rs --version` prints.
pub fn probe_rs_version(stdout: &[u8]) -> (r: Vec<u8>)
    ensures
        r@ == probe_rs_version_of(stdout@),
{
    let n = stdout.len();
    let mut e: usize = 0;
    while e < n && stdout[e] != 0x0A
        invariant
            e <= n,
            n == stdout@.len(),
            line_end(stdout@, 0) == line_end(stdout@, e as int),
        decreases n - e,
    {
        e = e + 1;
    }
    let c: usize = if e > 0 && e < n && stdout[e - 1] == 0x0D { e - 1 } else { e };
    let line = copy_range(stdout, 0, c);
    let first = crate::bytes::trim(line.as_slice());
    let prefix = "probe-rs ".as_bytes();
    if !starts_with_exec(first.as_slice(), prefix) {
        return first;
    }
    let rest = copy_range(first.as_slice(), prefix.len(), first.len());
    let (a, _) = trim_range(rest.as_slice(), 0, rest.len());
    if a >= rest.len() {
        return first;
    }
    let mut j: usize = a;
    while j < rest.len() && crate::bytes::ws_len_at_exec(rest.as_slice(), j) == 0
        invariant
            a <= j <= rest@.len(),
            whitespace_from(rest@, a as int) == whitespace_from(rest@, j as int),
        decreases rest.len() - j,
    {
        j = j + 1;
    }
    copy_range(rest.as_slice(), a, j)
}


/// The package choices of the generator: for each suffix, in order, the
/// more precise `probe-rs` targets, where there are any.
pub open spec fn package_choices_of(suffixes: Seq<Seq<u8>>, chips: Seq<Seq<u8>>) -> Seq<(Seq<u8>, Seq<Seq<u8>>)>
    decreases suffixes.len(),
{
    if suffixes.len() == 0 {
        Seq::empty()
    } else {
        let last = suffixes.last();
        let found = package_candidates_spec(last, chips);
        package_choices_of(suffixes.drop_last(), chips) + if found.len() > 0 {
            seq![(last, found)]
        } else {
            Seq::empty()
        }
    }
}

/// For each suffix, in order, the more precise `probe-rs` targets, where
/// there are any.
pub fn package_choices(suffixes: &[Vec<u8>], chips: &[Vec<u8>]) -> (r: Vec<(Vec<u8>, Vec<Vec<u8>>)>)
    ensures
        r.deep_view() == package_choices_of(suffixes.deep_view(), chips.deep_view()),
{
    let ghost sv = suffixes.deep_view();
    let mut out: Vec<(Vec<u8>, Vec<Vec<u8>>)> = Vec::new();
    let mut i: usize = 0;
    while i < suffixes.len()
        invariant
            i <= suffixes@.len(),
            sv == suffixes.deep_view(),
            out.deep_view() == package_choices_of(sv.subrange(0, i as int), chips.deep_view()),
        decreases suffixes.len() - i,
    {
        assert(sv.subrange(0, i + 1).drop_last() =~= sv.subrange(0, i as int));
        assert(sv.subrange(0, i + 1).last() == suffixes@[i as int]@);
        let found = package_candidates(suffixes[i].as_slice(), chips);
        if found.len() > 0 {
            let ghost before = out.deep_view();
            let ghost entry = (suffixes@[i as int]@, found.deep_view());
            let suffix = copy_range(suffixes[i].as_slice(), 0, suffixes[i].len());
            assert(suffixes@[i as int]@.subrange(0, suffixes@[i as int]@.len() as int)
                =~= suffixes@[i as int]@);
            out.push((suffix, found));
            assert(out.deep_view() =~~= before.push(entry));
        }
        i = i + 1;
    }
    assert(sv.subrange(0, suffixes@.len() as int) =~= sv);
    out
}

} // verus!
