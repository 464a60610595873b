//! What the memory layout block gives back when the chip selection script
//! looks a field up in a chip's map: a Rhai map literal read key by key.

use vstd::prelude::*;
use vstd::string::StringSliceAdditionalSpecFns;
use crate::bytes::matches_at;
use crate::rhai::{field_line, quote_free, ota_part, layout_fields, layout_item, memory_layouts,
    concat, count_with_ota, optional_region_fields, extra_part, MEMORY_BEGIN,
    lemma_refusal_text_quote_free};
use crate::memtext::refusal_text;
use crate::linker::{size_value, lemma_size_text_reads_back, lemma_addr_text_reads_back};
use crate::memlayout::LayoutView;
use crate::memtext::{addr_text, size_text};
use crate::numtext::{decimal, hex, pad_left, lemma_decimal_reads_back, lemma_hex_reads_back};
use crate::partitions::{OtaPartitions, OtaRefusal};

verus! {

/// `"key": "`, what opens the field `key` of a map literal.
pub open spec fn key_pattern(key: Seq<u8>) -> Seq<u8> {
    seq![0x22u8] + key + seq![0x22u8, 0x3Au8, 0x20u8, 0x22u8]
}

/// The last place at or before `hi` where `pat` stands in `t`.
pub open spec fn find_last(t: Seq<u8>, pat: Seq<u8>, hi: int) -> Option<int>
    decreases hi + 1,
{
    if hi < 0 {
        None
    } else if matches_at(t, hi, pat) {
        Some(hi)
    } else {
        find_last(t, pat, hi - 1)
    }
}

/// Where the first quote from `i` on stands, or the end of `t`.
pub open spec fn quote_from(t: Seq<u8>, i: int) -> int
    decreases t.len() - i,
{
    if i < 0 || i >= t.len() {
        t.len() as int
    } else if t[i] == 0x22u8 {
        i
    } else {
        quote_from(t, i + 1)
    }
}

/// What a map literal `t` gives for `key`: the text between the quotes after
/// the last `"key": "` in it, a later field of a key overriding an earlier
/// one as in a Rhai map.
pub open spec fn map_field(t: Seq<u8>, key: Seq<u8>) -> Option<Seq<u8>> {
    let pat = key_pattern(key);
    match find_last(t, pat, t.len() - pat.len()) {
        None => None,
        Some(q) => Some(t.subrange(q + pat.len(), quote_from(t, q + pat.len()))),
    }
}

/// A field line byte by byte: eight spaces, `"key": "`, the value, `",` and
/// a line feed.
spec fn line_bytes(key: Seq<u8>, value: Seq<u8>) -> Seq<u8> {
    Seq::new(8, |i: int| 0x20u8) + key_pattern(key) + value + seq![0x22u8, 0x2Cu8, 0x0Au8]
}

proof fn lemma_field_line_bytes(key: Seq<u8>, value: Seq<u8>)
    ensures
        field_line(key, value) == line_bytes(key, value),
{
    reveal(field_line);
    reveal_strlit("        ");
    reveal_strlit("\"");
    reveal_strlit(": ");
    reveal_strlit(",\n");
    vstd::string::is_ascii_spec_bytes("        ");
    vstd::string::is_ascii_spec_bytes("\"");
    vstd::string::is_ascii_spec_bytes(": ");
    vstd::string::is_ascii_spec_bytes(",\n");
    assert("        ".spec_bytes() =~= Seq::new(8, |i: int| 0x20u8));
    assert("\"".spec_bytes() =~= seq![0x22u8]);
    assert(": ".spec_bytes() =~= seq![0x3Au8, 0x20u8]);
    assert(",\n".spec_bytes() =~= seq![0x2Cu8, 0x0Au8]);
    assert(field_line(key, value) =~= line_bytes(key, value));
}

/// Where no place from `lo` to `hi` holds `pat`, the last place at or
/// before `hi` is the last one before `lo`.
proof fn lemma_find_last_skips(t: Seq<u8>, pat: Seq<u8>, lo: int, hi: int)
    requires
        lo <= hi + 1,
        forall|q: int| lo <= q <= hi ==> !matches_at(t, q, pat),
    ensures
        find_last(t, pat, hi) == find_last(t, pat, lo - 1),
    decreases hi - lo + 1,
{
    if lo <= hi {
        assert(!matches_at(t, hi, pat));
        lemma_find_last_skips(t, pat, lo, hi - 1);
    }
}

/// Across a stretch without a quote, the next quote is the one at its end.
proof fn lemma_quote_after_stretch(t: Seq<u8>, s: int, e: int)
    requires
        0 <= s <= e < t.len(),
        forall|i: int| s <= i < e ==> t[i] != 0x22u8,
        t[e] == 0x22u8,
    ensures
        quote_from(t, s) == e,
    decreases e - s,
{
    if s < e {
        lemma_quote_after_stretch(t, s + 1, e);
    }
}

/// The bytes of a field line, place by place.
proof fn lemma_line_layout(k: Seq<u8>, v: Seq<u8>)
    ensures
        line_bytes(k, v).len() == 16 + k.len() as int + v.len(),
        forall|x: int| 0 <= x < 8 ==> #[trigger] line_bytes(k, v)[x] == 0x20u8,
        line_bytes(k, v)[8] == 0x22u8,
        forall|i: int| 0 <= i < k.len() ==> #[trigger] line_bytes(k, v)[9 + i] == k[i],
        line_bytes(k, v)[9 + k.len() as int] == 0x22u8,
        line_bytes(k, v)[10 + k.len() as int] == 0x3Au8,
        line_bytes(k, v)[11 + k.len() as int] == 0x20u8,
        line_bytes(k, v)[12 + k.len() as int] == 0x22u8,
        forall|i: int| 0 <= i < v.len() ==> #[trigger] line_bytes(k, v)[13 + k.len() as int + i] == v[i],
        line_bytes(k, v)[13 + k.len() as int + v.len()] == 0x22u8,
        line_bytes(k, v)[14 + k.len() as int + v.len()] == 0x2Cu8,
        line_bytes(k, v)[15 + k.len() as int + v.len()] == 0x0Au8,
{
    let sp = Seq::new(8, |i: int| 0x20u8);
    let p = key_pattern(k);
    let l = line_bytes(k, v);
    assert(p.len() == k.len() + 5);
    assert forall|i: int| 0 <= i < k.len() implies #[trigger] l[9 + i] == k[i] by {
        assert(l[9 + i] == p[1 + i]);
    }
    assert forall|i: int| 0 <= i < v.len() implies #[trigger] l[13 + k.len() as int + i] == v[i] by {
        assert(l[13 + k.len() as int + i] == (sp + p + v)[13 + k.len() as int + i]);
    }
    assert(l[9 + k.len() as int] == p[1 + k.len() as int]);
    assert(l[10 + k.len() as int] == p[2 + k.len() as int]);
    assert(l[11 + k.len() as int] == p[3 + k.len() as int]);
    assert(l[12 + k.len() as int] == p[4 + k.len() as int]);
}

/// Inside a field line the pattern of `key` stands only where the line's own
/// key opens, and there only when that key is `key`.
proof fn lemma_line_matches(t: Seq<u8>, a: int, k2: Seq<u8>, v2: Seq<u8>, key: Seq<u8>, q: int)
    requires
        0 <= a,
        a + line_bytes(k2, v2).len() <= t.len(),
        t.subrange(a, a + line_bytes(k2, v2).len()) == line_bytes(k2, v2),
        key.len() > 0,
        quote_free(key),
        quote_free(k2),
        quote_free(v2),
        key[0] != 0x3Au8,
        key[0] != 0x2Cu8,
        a <= q < a + line_bytes(k2, v2).len(),
        matches_at(t, q, key_pattern(key)),
    ensures
        q == a + 8,
        k2 == key,
{
    let line = line_bytes(k2, v2);
    let pat = key_pattern(key);
    let len = line.len() as int;
    lemma_line_layout(k2, v2);
    assert forall|x: int| 0 <= x < len implies #[trigger] t[a + x] == line[x] by {
        assert(t.subrange(a, a + len)[x] == t[a + x]);
    }
    assert forall|y: int| 0 <= y < pat.len() implies #[trigger] t[q + y] == pat[y] by {
        assert(t.subrange(q, q + pat.len())[y] == t[q + y]);
    }
    assert(pat.len() == key.len() + 5);
    assert(pat[0] == 0x22u8);
    assert(pat[1] == key[0]);
    assert(key[0] != 0x22u8) by {
        if key[0] == 0x22u8 {
            assert(key.contains(0x22u8));
        }
    }
    let o = q - a;
    let lk = k2.len() as int;
    let lv = v2.len() as int;
    assert(t[q + 0] == pat[0]);
    assert(t[a + o] == line[o]);
    assert(line[o] == 0x22u8);
    assert(t[q + 1] == pat[1]);
    if o < 8 {
        assert(line[o] == 0x20u8);
    } else if o == 8 {
        if key.len() < lk {
            assert(line[9 + key.len() as int] == k2[key.len() as int]);
            assert(t[a + (9 + key.len() as int)] == line[9 + key.len() as int]);
            assert(t[q + (1 + key.len() as int)] == pat[1 + key.len() as int]);
            assert(pat[1 + key.len() as int] == 0x22u8);
            assert(k2.contains(0x22u8));
        } else if key.len() > lk {
            assert(t[a + (9 + lk)] == line[9 + lk]);
            assert(t[q + (1 + lk)] == pat[1 + lk]);
            assert(pat[1 + lk] == key[lk]);
            assert(key.contains(0x22u8));
        } else {
            assert forall|i: int| 0 <= i < lk implies k2[i] == key[i] by {
                assert(line[9 + i] == k2[i]);
                assert(t[a + (9 + i)] == line[9 + i]);
                assert(t[q + (1 + i)] == pat[1 + i]);
                assert(pat[1 + i] == key[i]);
            }
            assert(k2 =~= key);
        }
    } else if o < 9 + lk {
        assert(line[9 + (o - 9)] == k2[o - 9]);
        assert(k2.contains(0x22u8));
    } else if o == 9 + lk {
        assert(t[a + (10 + lk)] == line[10 + lk]);
    } else if o == 10 + lk || o == 11 + lk {
    } else if o == 12 + lk {
        let kl = key.len() as int;
        if kl < lv {
            assert(line[13 + lk + kl] == v2[kl]);
            assert(t[a + (13 + lk + kl)] == line[13 + lk + kl]);
            assert(t[q + (1 + kl)] == pat[1 + kl]);
            assert(pat[1 + kl] == 0x22u8);
            assert(v2.contains(0x22u8));
        } else if kl > lv {
            assert(t[a + (13 + lk + lv)] == line[13 + lk + lv]);
            assert(t[q + (1 + lv)] == pat[1 + lv]);
            assert(pat[1 + lv] == key[lv]);
            assert(key.contains(0x22u8));
        } else {
            assert(t[a + (14 + lk + lv)] == line[14 + lk + lv]);
            assert(t[q + (2 + kl)] == pat[2 + kl]);
            assert(pat[2 + kl] == 0x3Au8);
        }
    } else if o < 13 + lk + lv {
        assert(line[13 + lk + (o - 13 - lk)] == v2[o - 13 - lk]);
        assert(v2.contains(0x22u8));
    } else if o == 13 + lk + lv {
        assert(t[a + (14 + lk + lv)] == line[14 + lk + lv]);
    } else {
    }
}

/// Field lines one after the other.
spec fn fields_text(fs: Seq<(Seq<u8>, Seq<u8>)>) -> Seq<u8>
    decreases fs.len(),
{
    if fs.len() == 0 {
        Seq::empty()
    } else {
        fields_text(fs.drop_last()) + field_line(fs.last().0, fs.last().1)
    }
}

/// Fields that a map literal keeps apart: keys that differ, are not empty
/// and hold no quote, and values without a quote.
spec fn fields_apart(fs: Seq<(Seq<u8>, Seq<u8>)>) -> bool {
    &&& forall|i: int|
        0 <= i < fs.len() ==> {
            &&& (#[trigger] fs[i]).0.len() > 0
            &&& quote_free(fs[i].0)
            &&& quote_free(fs[i].1)
            &&& fs[i].0[0] != 0x3Au8
            &&& fs[i].0[0] != 0x2Cu8
        }
    &&& forall|i: int, j: int| 0 <= i < j < fs.len() ==> (#[trigger] fs[i]).0 != (#[trigger] fs[j]).0
}

/// Field lines standing at `a` of `t`, with nothing after them that opens
/// the field `fs[j]`, give that field its value.
proof fn lemma_fields_read(t: Seq<u8>, a: int, fs: Seq<(Seq<u8>, Seq<u8>)>, j: int)
    requires
        fields_apart(fs),
        0 <= j < fs.len(),
        0 <= a,
        a + fields_text(fs).len() <= t.len(),
        t.subrange(a, a + fields_text(fs).len()) == fields_text(fs),
        forall|q: int| a + fields_text(fs).len() <= q ==> !matches_at(t, q, key_pattern(fs[j].0)),
    ensures
        map_field(t, fs[j].0) == Some(fs[j].1),
    decreases fs.len(),
{
    let init = fs.drop_last();
    let (k2, v2) = fs.last();
    let key = fs[j].0;
    let pat = key_pattern(key);
    let f = fields_text(fs);
    let b = a + fields_text(init).len();
    let line = line_bytes(k2, v2);
    lemma_field_line_bytes(k2, v2);
    lemma_line_layout(k2, v2);
    assert(f == fields_text(init) + line);
    assert(t.subrange(b, b + line.len()) =~= f.subrange(b - a, b - a + line.len()));
    assert(f.subrange(b - a, b - a + line.len()) =~= line);
    assert(fs[fs.len() - 1] == (k2, v2));
    assert(fs[j].0.len() > 0);
    if j == fs.len() - 1 {
        let top = t.len() - pat.len();
        assert forall|q: int| b + 8 < q <= top implies !matches_at(t, q, pat) by {
            if q < b + line.len() && matches_at(t, q, pat) {
                lemma_line_matches(t, b, k2, v2, key, q);
            }
        }
        lemma_find_last_skips(t, pat, b + 9, top);
        assert forall|y: int| 0 <= y < pat.len() implies t.subrange(b + 8, b + 8 + pat.len())[y]
            == pat[y] by {
            assert(t.subrange(b, b + line.len())[8 + y] == line[8 + y]);
            if y == 0 {
            } else if y <= key.len() {
                assert(line[9 + (y - 1)] == key[y - 1]);
            } else {
            }
        }
        assert(t.subrange(b + 8, b + 8 + pat.len()) =~= pat);
        assert(matches_at(t, b + 8, pat));
        let vs = b + 13 + key.len();
        let ve = vs + v2.len();
        assert forall|i: int| vs <= i < ve implies t[i] != 0x22u8 by {
            assert(t.subrange(b, b + line.len())[13 + key.len() + (i - vs)] == line[13 + key.len()
                + (i - vs)]);
            if t[i] == 0x22u8 {
                assert(v2[i - vs] == 0x22u8);
                assert(v2.contains(0x22u8));
            }
        }
        assert(t.subrange(b, b + line.len())[13 + key.len() + v2.len() as int] == 0x22u8);
        lemma_quote_after_stretch(t, vs, ve);
        assert(t.subrange(vs, ve) =~= v2) by {
            assert forall|i: int| 0 <= i < v2.len() implies t.subrange(vs, ve)[i] == v2[i] by {
                assert(t.subrange(b, b + line.len())[13 + key.len() + i] == line[13 + key.len()
                    + i]);
            }
        }
    } else {
        assert(fs[j].0 != fs[fs.len() - 1].0);
        assert forall|q: int| b <= q && a + fields_text(init).len() <= q implies !matches_at(
            t,
            q,
            pat,
        ) by {
            if q < b + line.len() && matches_at(t, q, pat) {
                lemma_line_matches(t, b, k2, v2, key, q);
            }
        }
        assert(init[j] == fs[j]);
        assert forall|i: int| 0 <= i < init.len() implies {
            &&& (#[trigger] init[i]).0.len() > 0
            &&& quote_free(init[i].0)
            &&& quote_free(init[i].1)
            &&& init[i].0[0] != 0x3Au8
            &&& init[i].0[0] != 0x2Cu8
        } by {
            assert(init[i] == fs[i]);
        }
        assert forall|i: int, i2: int| 0 <= i < i2 < init.len() implies (#[trigger] init[i]).0
            != (#[trigger] init[i2]).0 by {
            assert(init[i] == fs[i]);
            assert(init[i2] == fs[i2]);
        }
        assert(t.subrange(a, b) =~= f.subrange(0, b - a));
        assert(f.subrange(0, b - a) =~= fields_text(init));
        lemma_fields_read(t, a, init, j);
    }
}

/// The fields of the partitions in a chip's map, in the order they are
/// written.
spec fn ota_fields(p: OtaPartitions) -> Seq<(Seq<u8>, Seq<u8>)> {
    Seq::empty()
        .push(("ota".spec_bytes(), "true".spec_bytes()))
        .push(("bootloader_length".spec_bytes(), size_text(p.bootloader_length)))
        .push(("bootloader_state_origin".spec_bytes(), addr_text(p.bootloader_state_origin)))
        .push(("bootloader_state_length".spec_bytes(), size_text(p.bootloader_state_length)))
        .push(("active_origin".spec_bytes(), addr_text(p.active_origin)))
        .push(("active_length".spec_bytes(), size_text(p.active_length)))
        .push(("dfu_origin".spec_bytes(), addr_text(p.dfu_origin)))
        .push(("dfu_length".spec_bytes(), size_text(p.dfu_length)))
}

/// The bytes of the partition keys and of `true`.
proof fn lemma_key_bytes()
    ensures
        "ota".spec_bytes() == seq![0x6Fu8, 0x74u8, 0x61u8],
        "bootloader_length".spec_bytes() == seq![0x62u8, 0x6Fu8, 0x6Fu8, 0x74u8, 0x6Cu8, 0x6Fu8, 0x61u8, 0x64u8, 0x65u8, 0x72u8, 0x5Fu8, 0x6Cu8, 0x65u8, 0x6Eu8, 0x67u8, 0x74u8, 0x68u8],
        "bootloader_state_origin".spec_bytes() == seq![0x62u8, 0x6Fu8, 0x6Fu8, 0x74u8, 0x6Cu8, 0x6Fu8, 0x61u8, 0x64u8, 0x65u8, 0x72u8, 0x5Fu8, 0x73u8, 0x74u8, 0x61u8, 0x74u8, 0x65u8, 0x5Fu8, 0x6Fu8, 0x72u8, 0x69u8, 0x67u8, 0x69u8, 0x6Eu8],
        "bootloader_state_length".spec_bytes() == seq![0x62u8, 0x6Fu8, 0x6Fu8, 0x74u8, 0x6Cu8, 0x6Fu8, 0x61u8, 0x64u8, 0x65u8, 0x72u8, 0x5Fu8, 0x73u8, 0x74u8, 0x61u8, 0x74u8, 0x65u8, 0x5Fu8, 0x6Cu8, 0x65u8, 0x6Eu8, 0x67u8, 0x74u8, 0x68u8],
        "active_origin".spec_bytes() == seq![0x61u8, 0x63u8, 0x74u8, 0x69u8, 0x76u8, 0x65u8, 0x5Fu8, 0x6Fu8, 0x72u8, 0x69u8, 0x67u8, 0x69u8, 0x6Eu8],
        "active_length".spec_bytes() == seq![0x61u8, 0x63u8, 0x74u8, 0x69u8, 0x76u8, 0x65u8, 0x5Fu8, 0x6Cu8, 0x65u8, 0x6Eu8, 0x67u8, 0x74u8, 0x68u8],
        "dfu_origin".spec_bytes() == seq![0x64u8, 0x66u8, 0x75u8, 0x5Fu8, 0x6Fu8, 0x72u8, 0x69u8, 0x67u8, 0x69u8, 0x6Eu8],
        "dfu_length".spec_bytes() == seq![0x64u8, 0x66u8, 0x75u8, 0x5Fu8, 0x6Cu8, 0x65u8, 0x6Eu8, 0x67u8, 0x74u8, 0x68u8],
        "true".spec_bytes() == seq![0x74u8, 0x72u8, 0x75u8, 0x65u8],
{
    reveal_strlit("ota");
    vstd::string::is_ascii_spec_bytes("ota");
    assert("ota".spec_bytes() =~= seq![0x6Fu8, 0x74u8, 0x61u8]);
    reveal_strlit("bootloader_length");
    vstd::string::is_ascii_spec_bytes("bootloader_length");
    assert("bootloader_length".spec_bytes() =~= seq![0x62u8, 0x6Fu8, 0x6Fu8, 0x74u8, 0x6Cu8, 0x6Fu8, 0x61u8, 0x64u8, 0x65u8, 0x72u8, 0x5Fu8, 0x6Cu8, 0x65u8, 0x6Eu8, 0x67u8, 0x74u8, 0x68u8]);
    reveal_strlit("bootloader_state_origin");
    vstd::string::is_ascii_spec_bytes("bootloader_state_origin");
    assert("bootloader_state_origin".spec_bytes() =~= seq![0x62u8, 0x6Fu8, 0x6Fu8, 0x74u8, 0x6Cu8, 0x6Fu8, 0x61u8, 0x64u8, 0x65u8, 0x72u8, 0x5Fu8, 0x73u8, 0x74u8, 0x61u8, 0x74u8, 0x65u8, 0x5Fu8, 0x6Fu8, 0x72u8, 0x69u8, 0x67u8, 0x69u8, 0x6Eu8]);
    reveal_strlit("bootloader_state_length");
    vstd::string::is_ascii_spec_bytes("bootloader_state_length");
    assert("bootloader_state_length".spec_bytes() =~= seq![0x62u8, 0x6Fu8, 0x6Fu8, 0x74u8, 0x6Cu8, 0x6Fu8, 0x61u8, 0x64u8, 0x65u8, 0x72u8, 0x5Fu8, 0x73u8, 0x74u8, 0x61u8, 0x74u8, 0x65u8, 0x5Fu8, 0x6Cu8, 0x65u8, 0x6Eu8, 0x67u8, 0x74u8, 0x68u8]);
    reveal_strlit("active_origin");
    vstd::string::is_ascii_spec_bytes("active_origin");
    assert("active_origin".spec_bytes() =~= seq![0x61u8, 0x63u8, 0x74u8, 0x69u8, 0x76u8, 0x65u8, 0x5Fu8, 0x6Fu8, 0x72u8, 0x69u8, 0x67u8, 0x69u8, 0x6Eu8]);
    reveal_strlit("active_length");
    vstd::string::is_ascii_spec_bytes("active_length");
    assert("active_length".spec_bytes() =~= seq![0x61u8, 0x63u8, 0x74u8, 0x69u8, 0x76u8, 0x65u8, 0x5Fu8, 0x6Cu8, 0x65u8, 0x6Eu8, 0x67u8, 0x74u8, 0x68u8]);
    reveal_strlit("dfu_origin");
    vstd::string::is_ascii_spec_bytes("dfu_origin");
    assert("dfu_origin".spec_bytes() =~= seq![0x64u8, 0x66u8, 0x75u8, 0x5Fu8, 0x6Fu8, 0x72u8, 0x69u8, 0x67u8, 0x69u8, 0x6Eu8]);
    reveal_strlit("dfu_length");
    vstd::string::is_ascii_spec_bytes("dfu_length");
    assert("dfu_length".spec_bytes() =~= seq![0x64u8, 0x66u8, 0x75u8, 0x5Fu8, 0x6Cu8, 0x65u8, 0x6Eu8, 0x67u8, 0x74u8, 0x68u8]);
    reveal_strlit("true");
    vstd::string::is_ascii_spec_bytes("true");
    assert("true".spec_bytes() =~= seq![0x74u8, 0x72u8, 0x75u8, 0x65u8]);
}

/// A size as the block writes it holds no quote.
proof fn lemma_size_text_plain(v: u64)
    ensures
        quote_free(size_text(v)),
{
    let n: nat = if v % 1024 == 0 { (v / 1024) as nat } else { v as nat };
    lemma_decimal_reads_back(n);
    reveal_strlit("K");
    vstd::string::is_ascii_spec_bytes("K");
    assert("K".spec_bytes() =~= seq![0x4Bu8]);
    let t = size_text(v);
    if t.contains(0x22u8) {
        let i = choose|i: int| 0 <= i < t.len() && t[i] == 0x22u8;
        if i < decimal(n).len() {
            assert(t[i] == decimal(n)[i]);
        }
    }
}

/// An address as the block writes it holds no quote.
proof fn lemma_addr_text_plain(v: u64)
    ensures
        quote_free(addr_text(v)),
{
    lemma_hex_reads_back(v as nat);
    reveal_strlit("0x");
    vstd::string::is_ascii_spec_bytes("0x");
    assert("0x".spec_bytes() =~= seq![0x30u8, 0x78u8]);
    let h = hex(v as nat);
    let padded = pad_left(h, 8, 0x30u8);
    let t = addr_text(v);
    assert(t == seq![0x30u8, 0x78u8] + padded);
    if t.contains(0x22u8) {
        let i = choose|i: int| 0 <= i < t.len() && t[i] == 0x22u8;
        assert(i >= 2);
        if h.len() >= 8 {
            assert(padded[i - 2] == h[i - 2]);
        } else if i - 2 < 8 - h.len() {
            assert(padded[i - 2] == 0x30u8);
        } else {
            assert(padded[i - 2] == h[i - 2 - (8 - h.len())]);
        }
    }
}

/// The partition fields are kept apart in a map literal.
proof fn lemma_ota_fields_apart(p: OtaPartitions)
    ensures
        fields_apart(ota_fields(p)),
        ota_fields(p).len() == 8,
{
    lemma_key_bytes();
    let fs = ota_fields(p);
    lemma_size_text_plain(p.bootloader_length);
    lemma_size_text_plain(p.bootloader_state_length);
    lemma_size_text_plain(p.active_length);
    lemma_size_text_plain(p.dfu_length);
    lemma_addr_text_plain(p.bootloader_state_origin);
    lemma_addr_text_plain(p.active_origin);
    lemma_addr_text_plain(p.dfu_origin);
    assert(fs.len() == 8);
    assert forall|i: int| 0 <= i < 8 implies {
        &&& (#[trigger] fs[i]).0.len() > 0
        &&& quote_free(fs[i].0)
        &&& quote_free(fs[i].1)
        &&& fs[i].0[0] != 0x3Au8
        &&& fs[i].0[0] != 0x2Cu8
    } by {
        assert(fs[i].0.len() > 0);
        if fs[i].0.contains(0x22u8) {
            let x = choose|x: int| 0 <= x < fs[i].0.len() && fs[i].0[x] == 0x22u8;
        }
        if i == 0 && fs[i].1.contains(0x22u8) {
            let x = choose|x: int| 0 <= x < fs[i].1.len() && fs[i].1[x] == 0x22u8;
        }
    }
    assert forall|i: int, j: int| 0 <= i < j < fs.len() implies (#[trigger] fs[i]).0 != (#[trigger] fs[j]).0 by {
        if i == 0 && j == 1 { }
        if i == 0 && j == 2 { }
        if i == 0 && j == 3 { }
        if i == 0 && j == 4 { }
        if i == 0 && j == 5 { }
        if i == 0 && j == 6 { }
        if i == 0 && j == 7 { }
        if i == 1 && j == 2 { }
        if i == 1 && j == 3 { }
        if i == 1 && j == 4 { }
        if i == 1 && j == 5 { }
        if i == 1 && j == 6 { }
        if i == 1 && j == 7 { }
        if i == 2 && j == 3 { assert(fs[2].0[17] != fs[3].0[17]); }
        if i == 2 && j == 4 { }
        if i == 2 && j == 5 { }
        if i == 2 && j == 6 { }
        if i == 2 && j == 7 { }
        if i == 3 && j == 4 { }
        if i == 3 && j == 5 { }
        if i == 3 && j == 6 { }
        if i == 3 && j == 7 { }
        if i == 4 && j == 5 { assert(fs[4].0[7] != fs[5].0[7]); }
        if i == 4 && j == 6 { }
        if i == 4 && j == 7 { }
        if i == 5 && j == 6 { }
        if i == 5 && j == 7 { }
        if i == 6 && j == 7 { assert(fs[6].0[4] != fs[7].0[4]); }
    }
}

/// The partitions part of a chip's map is the partition fields, in order.
proof fn lemma_ota_part_fields(p: OtaPartitions)
    ensures
        ota_part(Ok(p)) == fields_text(ota_fields(p)),
{
    reveal(ota_part);
    let fs = ota_fields(p);
    assert(fs.len() == 8);
    assert forall|k: int| 1 <= k <= 8 implies fields_text(#[trigger] fs.take(k)) == fields_text(
        fs.take(k - 1),
    ) + field_line(fs[k - 1].0, fs[k - 1].1) by {
        assert(fs.take(k).drop_last() =~= fs.take(k - 1));
        assert(fs.take(k).last() == fs[k - 1]);
    }
    assert(fields_text(fs.take(0)) == Seq::<u8>::empty());
    assert(fs.take(8) =~= fs);
    let f1 = fields_text(fs.take(1));
    let f2 = fields_text(fs.take(2));
    let f3 = fields_text(fs.take(3));
    let f4 = fields_text(fs.take(4));
    let f5 = fields_text(fs.take(5));
    let f6 = fields_text(fs.take(6));
    let f7 = fields_text(fs.take(7));
    let f8 = fields_text(fs.take(8));
    assert(f1 =~= field_line(fs[0].0, fs[0].1));
    assert(f8 == f7 + field_line(fs[7].0, fs[7].1));
    assert(ota_part(Ok(p)) =~= f8);
}

/// Concatenation splits where its parts do.
proof fn lemma_concat_append(a: Seq<Seq<u8>>, b: Seq<Seq<u8>>)
    ensures
        concat(a + b) == concat(a) + concat(b),
    decreases b.len(),
{
    if b.len() == 0 {
        assert(a + b =~= a);
        assert(concat(a) + concat(b) =~= concat(a));
    } else {
        lemma_concat_append(a, b.drop_last());
        assert((a + b).drop_last() =~= a + b.drop_last());
        assert((a + b).last() == b.last());
        assert(concat(a + b) =~= concat(a) + concat(b));
    }
}

/// The fields of a chip's map before its partitions part.
spec fn fields_before_ota(m: LayoutView) -> Seq<u8> {
    field_line("flash_origin".spec_bytes(), addr_text(m.flash_origin)) + field_line(
        "flash_length".spec_bytes(),
        size_text(m.flash_length),
    ) + field_line("ram_origin".spec_bytes(), addr_text(m.ram_origin)) + field_line(
        "ram_length".spec_bytes(),
        size_text(m.ram_length),
    ) + optional_region_fields(m.persist, "persist_origin".spec_bytes(), "persist_length".spec_bytes())
        + optional_region_fields(m.panic, "panic_origin".spec_bytes(), "panic_length".spec_bytes())
        + extra_part(m.extra_regions) + field_line(
        "write_size".spec_bytes(),
        decimal(m.write_size as nat),
    )
}

proof fn lemma_fields_end_with_ota(m: LayoutView)
    ensures
        layout_fields(m) == fields_before_ota(m) + ota_part(m.ota),
{
    reveal(layout_fields);
}

/// The map of every chip stands in the memory layout block.
proof fn lemma_item_in_block(ls: Seq<(Seq<u8>, LayoutView)>, i: int)
    requires
        0 <= i < ls.len(),
    ensures
        exists|x: int|
            0 <= x && x + layout_item(ls[i]).len() <= memory_layouts(ls).len()
                && #[trigger] memory_layouts(ls).subrange(x, x + layout_item(ls[i]).len())
                == layout_item(ls[i]),
{
    let items = ls.map_values(|e: (Seq<u8>, LayoutView)| layout_item(e));
    let head = MEMORY_BEGIN.spec_bytes() + " (".spec_bytes() + decimal(ls.len()) + " шт., из них ".spec_bytes()
        + decimal(count_with_ota(ls)) + " с OTA, cargo run --manifest-path chip-data-gen/Cargo.toml)\n".spec_bytes()
        + "const MEMORY_LAYOUT = #{\n".spec_bytes();
    let before = items.take(i);
    let after = items.skip(i + 1);
    assert(items =~= before + seq![items[i]] + after);
    lemma_concat_append(before + seq![items[i]], after);
    lemma_concat_append(before, seq![items[i]]);
    assert(seq![items[i]].drop_last() =~= Seq::<Seq<u8>>::empty());
    assert(concat(Seq::<Seq<u8>>::empty()) == Seq::<u8>::empty());
    assert(seq![items[i]].last() == items[i]);
    assert(concat(seq![items[i]]) =~= items[i]);
    let block = memory_layouts(ls);
    let x: int = (head.len() + concat(before).len()) as int;
    assert(block =~= head + concat(before) + items[i] + concat(after) + "};\n".spec_bytes());
    assert(block.subrange(x, x + items[i].len()) =~= items[i]);
    assert(items[i] == layout_item(ls[i]));
}

/// In the map of a chip with partitions, each partition field gives the
/// value written for it.
proof fn lemma_item_gives_fields(e: (Seq<u8>, LayoutView), fs: Seq<(Seq<u8>, Seq<u8>)>)
    requires
        ota_part(e.1.ota) == fields_text(fs),
        fields_apart(fs),
    ensures
        forall|j: int|
            0 <= j < fs.len() ==> map_field(layout_item(e), (#[trigger] fs[j]).0) == Some(fs[j].1),
{
    let m = e.1;
    let t = layout_item(e);
    let f = fields_text(fs);
    let close = "    },\n".spec_bytes();
    reveal_strlit("    },\n");
    vstd::string::is_ascii_spec_bytes("    },\n");
    assert(close =~= seq![0x20u8, 0x20u8, 0x20u8, 0x20u8, 0x7Du8, 0x2Cu8, 0x0Au8]);
    lemma_fields_end_with_ota(m);
    let lead = "    ".spec_bytes() + "\"".spec_bytes() + e.0 + "\"".spec_bytes() + ": #{\n".spec_bytes();
    let body = fields_before_ota(m);
    let a: int = (lead.len() + body.len()) as int;
    assert(t =~= (lead + body) + f + close);
    assert(t.subrange(a, a + f.len()) =~= f);
    assert forall|j: int| 0 <= j < fs.len() implies map_field(t, (#[trigger] fs[j]).0) == Some(fs[j].1) by {
        assert forall|q: int| a + f.len() <= q implies !matches_at(t, q, key_pattern(fs[j].0)) by {
            if matches_at(t, q, key_pattern(fs[j].0)) {
                assert(t.subrange(q, q + key_pattern(fs[j].0).len())[0] == t[q]);
                assert(t[q] == close[q - a - f.len()]);
            }
        }
        lemma_fields_read(t, a, fs, j);
    }
}

/// The fields of a chip's map that says why it has no partitions.
spec fn refusal_fields(r: OtaRefusal) -> Seq<(Seq<u8>, Seq<u8>)> {
    Seq::empty().push(("ota".spec_bytes(), "false".spec_bytes())).push(("note".spec_bytes(), refusal_text(r)))
}

proof fn lemma_refusal_fields(r: OtaRefusal)
    ensures
        ota_part(Err(r)) == fields_text(refusal_fields(r)),
        fields_apart(refusal_fields(r)),
{
    reveal(ota_part);
    let fs = refusal_fields(r);
    let one = fs.drop_last();
    assert(one.len() == 1);
    assert(one.drop_last() =~= Seq::<(Seq<u8>, Seq<u8>)>::empty());
    assert(fields_text(one.drop_last()) == Seq::<u8>::empty());
    assert(one.last() == fs[0]);
    assert(fields_text(one) == fields_text(one.drop_last()) + field_line(one.last().0, one.last().1));
    assert(fields_text(one) =~= field_line(fs[0].0, fs[0].1));
    assert(ota_part(Err(r)) =~= fields_text(fs));
    lemma_key_bytes();
    reveal_strlit("note");
    vstd::string::is_ascii_spec_bytes("note");
    assert("note".spec_bytes() =~= seq![0x6Eu8, 0x6Fu8, 0x74u8, 0x65u8]);
    reveal_strlit("false");
    vstd::string::is_ascii_spec_bytes("false");
    assert("false".spec_bytes() =~= seq![0x66u8, 0x61u8, 0x6Cu8, 0x73u8, 0x65u8]);
    lemma_refusal_text_quote_free(r);
    assert forall|i: int| 0 <= i < fs.len() implies {
        &&& (#[trigger] fs[i]).0.len() > 0
        &&& quote_free(fs[i].0)
        &&& quote_free(fs[i].1)
        &&& fs[i].0[0] != 0x3Au8
        &&& fs[i].0[0] != 0x2Cu8
    } by {
        if fs[i].0.contains(0x22u8) {
            let x = choose|x: int| 0 <= x < fs[i].0.len() && fs[i].0[x] == 0x22u8;
        }
        if i == 0 && fs[i].1.contains(0x22u8) {
            let x = choose|x: int| 0 <= x < fs[i].1.len() && fs[i].1[x] == 0x22u8;
        }
    }
    assert(fs[0].0 != fs[1].0);
}

/// A chip's map in the memory layout block reads back, field by field, to
/// its bootloader partitions. The map of every chip stands in the block;
/// where the chip has partitions, looking each partition key up in its map,
/// as the chip selection script does, gives text that reads as the number
/// the partitions hold (sizes in bytes or `K`, addresses in hex), and the
/// key `ota` gives `true`; where it has none, `ota` gives `false` and `note`
/// the reason.
#[verifier::spinoff_prover]
pub proof fn lemma_partitions_read_back(ls: Seq<(Seq<u8>, LayoutView)>, i: int)
    requires
        0 <= i < ls.len(),
    ensures
        exists|x: int|
            0 <= x && x + layout_item(ls[i]).len() <= memory_layouts(ls).len()
                && #[trigger] memory_layouts(ls).subrange(x, x + layout_item(ls[i]).len())
                == layout_item(ls[i]),
        ls[i].1.ota matches Ok(p) ==> {
            let t = layout_item(ls[i]);
            &&& map_field(t, "ota".spec_bytes()) == Some("true".spec_bytes())
            &&& map_field(t, "bootloader_length".spec_bytes()) matches Some(v) && size_value(v)
                == Some(p.bootloader_length as int)
            &&& map_field(t, "bootloader_state_origin".spec_bytes()) matches Some(v) && size_value(v)
                == Some(p.bootloader_state_origin as int)
            &&& map_field(t, "bootloader_state_length".spec_bytes()) matches Some(v) && size_value(v)
                == Some(p.bootloader_state_length as int)
            &&& map_field(t, "active_origin".spec_bytes()) matches Some(v) && size_value(v)
                == Some(p.active_origin as int)
            &&& map_field(t, "active_length".spec_bytes()) matches Some(v) && size_value(v)
                == Some(p.active_length as int)
            &&& map_field(t, "dfu_origin".spec_bytes()) matches Some(v) && size_value(v)
                == Some(p.dfu_origin as int)
            &&& map_field(t, "dfu_length".spec_bytes()) matches Some(v) && size_value(v)
                == Some(p.dfu_length as int)
        },
        ls[i].1.ota matches Err(r) ==> {
            let t = layout_item(ls[i]);
            &&& map_field(t, "ota".spec_bytes()) == Some("false".spec_bytes())
            &&& map_field(t, "note".spec_bytes()) == Some(refusal_text(r))
        },
{
    lemma_item_in_block(ls, i);
    if let Ok(p) = ls[i].1.ota {
        let t = layout_item(ls[i]);
        let fs = ota_fields(p);
        lemma_ota_part_fields(p);
        lemma_ota_fields_apart(p);
        lemma_item_gives_fields(ls[i], fs);
        assert(map_field(t, fs[0].0) == Some(fs[0].1));
        assert(map_field(t, fs[1].0) == Some(fs[1].1));
        assert(map_field(t, fs[2].0) == Some(fs[2].1));
        assert(map_field(t, fs[3].0) == Some(fs[3].1));
        assert(map_field(t, fs[4].0) == Some(fs[4].1));
        assert(map_field(t, fs[5].0) == Some(fs[5].1));
        assert(map_field(t, fs[6].0) == Some(fs[6].1));
        assert(map_field(t, fs[7].0) == Some(fs[7].1));
        lemma_size_text_reads_back(p.bootloader_length);
        lemma_addr_text_reads_back(p.bootloader_state_origin);
        lemma_size_text_reads_back(p.bootloader_state_length);
        lemma_addr_text_reads_back(p.active_origin);
        lemma_size_text_reads_back(p.active_length);
        lemma_addr_text_reads_back(p.dfu_origin);
        lemma_size_text_reads_back(p.dfu_length);
    }
    if let Err(r) = ls[i].1.ota {
        let t = layout_item(ls[i]);
        let fs = refusal_fields(r);
        lemma_refusal_fields(r);
        lemma_item_gives_fields(ls[i], fs);
        assert(map_field(t, fs[0].0) == Some(fs[0].1));
        assert(map_field(t, fs[1].0) == Some(fs[1].1));
    }
}

} // verus!
