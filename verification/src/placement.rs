//! Where the flag fields an edit targets lie, as the record signatures show:
//! no targeted field starts one byte after another, and no Central
//! Directory flag field is targeted twice.
use vstd::prelude::*;
use crate::archive::{
    bit11_of, cd_extra_len, cd_flags, cd_fname_len, edit_result, edits, entry_step,
    flags_with_bit11, target_bit, walk, Mode, Scan,
};
use crate::bytes::{le16, le32, put16};
use crate::edit_laws::{
    bit11_at, law_walk_frame, lemma_step_effect, lemma_u16_bytes, no_adjacent_targets,
    step_targets, walk_targets,
};
use crate::local_header::{lemma_lfh_offset_nonneg, lfh_offset_result};
use crate::selection::selects;
use crate::signatures::{CENTRAL_DIR_SIG, LOCAL_FILE_HEADER_SIG};

verus! {

/// `v` without bit 3, the one bit of a byte that an edit changes.
pub open spec fn rest_bits(v: u8) -> u8 {
    v & 0xF7u8
}

/// Whether the four bytes eight before `x` hold a Central Directory
/// signature, bit 3 of each aside.
pub open spec fn cd_mark(d: Seq<u8>, x: int) -> bool {
    &&& rest_bits(d[x - 8]) == 0x50u8
    &&& rest_bits(d[x - 7]) == 0x43u8
    &&& rest_bits(d[x - 6]) == 0x01u8
    &&& rest_bits(d[x - 5]) == 0x02u8
}

/// Whether the four bytes six before `y` hold a Local File Header
/// signature, bit 3 of each aside.
pub open spec fn lfh_mark(d: Seq<u8>, y: int) -> bool {
    &&& rest_bits(d[y - 6]) == 0x50u8
    &&& rest_bits(d[y - 5]) == 0x43u8
    &&& rest_bits(d[y - 4]) == 0x03u8
    &&& rest_bits(d[y - 3]) == 0x04u8
}

/// Whether each Central Directory flag field of `ts` (at an even place)
/// starts where no other field of `ts` starts.
pub open spec fn cd_targets_apart(ts: Seq<(int, bool)>) -> bool {
    forall|a: int, b: int|
        0 <= a < ts.len() && 0 <= b < ts.len() && a % 2 == 0 && a != b ==> ts[a].0 != ts[b].0
}

proof fn lemma_rest_bits_consts()
    by (bit_vector)
    ensures
        0x50u8 & 0xF7u8 == 0x50u8,
        0x4bu8 & 0xF7u8 == 0x43u8,
        0x01u8 & 0xF7u8 == 0x01u8,
        0x02u8 & 0xF7u8 == 0x02u8,
        0x03u8 & 0xF7u8 == 0x03u8,
        0x04u8 & 0xF7u8 == 0x04u8,
{
}

proof fn lemma_rest_bits_with_bit3(v: u8, b: bool)
    by (bit_vector)
    ensures
        (if b {
            v | 8u8
        } else {
            v & 0xF7u8
        }) & 0xF7u8 == v & 0xF7u8,
{
}

/// A signature read at `x` marks the flag field that follows it.
proof fn lemma_sig_marks(d: Seq<u8>, x: int)
    requires
        0 <= x,
        x + 4 <= d.len(),
    ensures
        le32(d, x) == CENTRAL_DIR_SIG ==> cd_mark(d, x + 8),
        le32(d, x) == LOCAL_FILE_HEADER_SIG ==> lfh_mark(d, x + 6),
{
    lemma_rest_bits_consts();
    if le32(d, x) == CENTRAL_DIR_SIG {
        assert(d[x] == 0x50u8 && d[x + 1] == 0x4bu8 && d[x + 2] == 1u8 && d[x + 3] == 2u8);
    }
    if le32(d, x) == LOCAL_FILE_HEADER_SIG {
        assert(d[x] == 0x50u8 && d[x + 1] == 0x4bu8 && d[x + 2] == 3u8 && d[x + 3] == 4u8);
    }
}

/// Writing at `y` the flags read there from `d`, with bit 11 set to `b`,
/// keeps every byte equal to `d` bit 3 aside.
proof fn lemma_put16_keeps_rest(dd: Seq<u8>, d: Seq<u8>, y: int, b: bool)
    requires
        dd.len() == d.len(),
        0 <= y,
        y + 2 <= d.len(),
        forall|j: int| 0 <= j < d.len() ==> rest_bits(#[trigger] dd[j]) == rest_bits(d[j]),
    ensures
        forall|j: int|
            0 <= j < d.len() ==> rest_bits(
                #[trigger] put16(dd, y, flags_with_bit11(le16(d, y) as u16, b))[j],
            ) == rest_bits(d[j]),
{
    lemma_u16_bytes(d[y], d[y + 1], b);
    assert(le16(d, y) as u16 == ((d[y] as u16) + (d[y + 1] as u16) * 256) as u16);
    let v = flags_with_bit11(le16(d, y) as u16, b);
    assert((v % 256) as u8 == d[y]);
    lemma_rest_bits_with_bit3(d[y + 1], b);
    assert(rest_bits((v / 256) as u8) == rest_bits(d[y + 1]));
}

/// One step: the next entry starts at least a header's length further on,
/// bit 3 aside no byte changes, and its two fields, if any, follow a Central
/// Directory and a Local File Header signature and get the same bit.
pub proof fn lemma_step_marks(s: Scan, i: nat, mode: Mode, sel: Option<Set<usize>>)
    requires
        entry_step(s, i, mode, sel) is Ok,
        s.pos >= 0,
    ensures
        entry_step(s, i, mode, sel)->Ok_0.pos >= s.pos + 46,
        forall|j: int|
            0 <= j < s.data.len() ==> rest_bits(
                #[trigger] entry_step(s, i, mode, sel)->Ok_0.data[j],
            ) == rest_bits(s.data[j]),
        ({
            let f = step_targets(s, i, mode, sel);
            f.len() == 2 ==> {
                &&& f[0].0 == s.pos + 8
                &&& cd_mark(s.data, f[0].0)
                &&& f[1].0 >= 6
                &&& lfh_mark(s.data, f[1].0)
                &&& f[0].1 == f[1].1
                &&& f[0].1 == target_bit(mode, bit11_of(cd_flags(s.data, s.pos)))
            }
        }),
{
    reveal(entry_step);
    lemma_step_effect(s, i, mode, sel);
    let d = s.data;
    let pos = s.pos;
    let u = entry_step(s, i, mode, sel)->Ok_0;
    lemma_sig_marks(d, pos);
    if edits(mode) && selects(sel, (i + 1) as int) {
        let fl = cd_fname_len(d, pos);
        let el = cd_extra_len(d, pos);
        lemma_lfh_offset_nonneg(d, pos, fl, el, i + 1);
        let l = lfh_offset_result(d, pos, fl, el, i + 1)->Ok_0;
        assert(edit_result(d, pos, i + 1, mode) is Ok);
        lemma_sig_marks(d, l);
        let b = target_bit(mode, bit11_of(cd_flags(d, pos)));
        let nf = flags_with_bit11(cd_flags(d, pos), b);
        let nl = flags_with_bit11(le16(d, l + 6) as u16, b);
        if u.data != d {
            let d1 = put16(d, pos + 8, nf);
            assert(u.data == put16(d1, l + 6, nl));
            lemma_put16_keeps_rest(d, d, pos + 8, b);
            lemma_put16_keeps_rest(d1, d, l + 6, b);
        }
    }
}

/// Where a walk's targets lie: they come in pairs with one bit each; each
/// Central Directory flag field follows that entry's signature, lies past
/// the walk's start and before those of later entries; each Local File
/// Header flag field follows that header's signature; and `set` and
/// `clear` target every field with their own bit.
pub proof fn lemma_targets_marked(s: Scan, i: nat, n: nat, mode: Mode, sel: Option<Set<usize>>)
    requires
        walk(s, i, n, mode, sel) is Ok,
        s.pos >= 0,
    ensures
        ({
            let ts = walk_targets(s, i, n, mode, sel);
            &&& ts.len() % 2 == 0
            &&& forall|a: int|
                0 <= a < ts.len() && a % 2 == 0 ==> (#[trigger] ts[a]).0 >= s.pos + 8 && cd_mark(
                    s.data,
                    ts[a].0,
                ) && ts[a + 1].1 == ts[a].1
            &&& forall|a: int|
                0 <= a < ts.len() && a % 2 == 1 ==> (#[trigger] ts[a]).0 >= 6 && lfh_mark(
                    s.data,
                    ts[a].0,
                )
            &&& forall|a: int, b: int|
                0 <= a < b < ts.len() && a % 2 == 0 && b % 2 == 0 ==> (#[trigger] ts[a]).0 < (
                #[trigger] ts[b]).0
            &&& (mode == Mode::SetBit || mode == Mode::Clear) ==> forall|a: int|
                0 <= a < ts.len() ==> (#[trigger] ts[a]).1 == (mode == Mode::SetBit)
        }),
    decreases n - i,
{
    if i < n {
        let d = s.data;
        let u = entry_step(s, i, mode, sel)->Ok_0;
        let f = step_targets(s, i, mode, sel);
        let rest = walk_targets(u, i + 1, n, mode, sel);
        let ts = walk_targets(s, i, n, mode, sel);
        assert(ts == f + rest);
        lemma_step_effect(s, i, mode, sel);
        lemma_step_marks(s, i, mode, sel);
        law_walk_frame(u, i + 1, n, mode, sel);
        lemma_targets_marked(u, i + 1, n, mode, sel);
        assert forall|a: int| 0 <= a < ts.len() && a % 2 == 0 implies (#[trigger] ts[a]).0
            >= s.pos + 8 && cd_mark(d, ts[a].0) && ts[a + 1].1 == ts[a].1 by {
            if a >= f.len() {
                let x = rest[a - f.len()].0;
                assert(ts[a] == rest[a - f.len()]);
                assert(ts[a + 1] == rest[a + 1 - f.len()]);
                assert((a - f.len()) % 2 == 0);
                assert(rest_bits(u.data[x - 8]) == rest_bits(d[x - 8]));
                assert(rest_bits(u.data[x - 7]) == rest_bits(d[x - 7]));
                assert(rest_bits(u.data[x - 6]) == rest_bits(d[x - 6]));
                assert(rest_bits(u.data[x - 5]) == rest_bits(d[x - 5]));
            } else {
                assert(ts[a] == f[a]);
                assert(ts[a + 1] == f[a + 1]);
            }
        }
        assert forall|a: int| 0 <= a < ts.len() && a % 2 == 1 implies (#[trigger] ts[a]).0
            >= 6 && lfh_mark(d, ts[a].0) by {
            if a >= f.len() {
                let y = rest[a - f.len()].0;
                assert(ts[a] == rest[a - f.len()]);
                assert((a - f.len()) % 2 == 1);
                assert(rest_bits(u.data[y - 6]) == rest_bits(d[y - 6]));
                assert(rest_bits(u.data[y - 5]) == rest_bits(d[y - 5]));
                assert(rest_bits(u.data[y - 4]) == rest_bits(d[y - 4]));
                assert(rest_bits(u.data[y - 3]) == rest_bits(d[y - 3]));
            } else {
                assert(ts[a] == f[a]);
            }
        }
        assert forall|a: int, b: int|
            0 <= a < b < ts.len() && a % 2 == 0 && b % 2 == 0 implies (#[trigger] ts[a]).0 < (
            #[trigger] ts[b]).0 by {
            assert(ts[b] == rest[b - f.len()]);
            assert((b - f.len()) % 2 == 0);
            if a >= f.len() {
                assert(ts[a] == rest[a - f.len()]);
                assert((a - f.len()) % 2 == 0);
            } else {
                assert(ts[a] == f[a]);
            }
        }
        if mode == Mode::SetBit || mode == Mode::Clear {
            assert forall|a: int| 0 <= a < ts.len() implies (#[trigger] ts[a]).1 == (mode
                == Mode::SetBit) by {
                if a >= f.len() {
                    assert(ts[a] == rest[a - f.len()]);
                } else {
                    assert(ts[a] == f[a]);
                }
            }
        }
    }
}

/// No targeted field starts one byte after another, and no Central
/// Directory flag field starts where another targeted field does: the
/// signatures before them would disagree.
pub proof fn lemma_targets_apart(s: Scan, i: nat, n: nat, mode: Mode, sel: Option<Set<usize>>)
    requires
        walk(s, i, n, mode, sel) is Ok,
        s.pos >= 0,
    ensures
        ({
            let ts = walk_targets(s, i, n, mode, sel);
            &&& forall|a: int, b: int|
                0 <= a < ts.len() && 0 <= b < ts.len() ==> ts[a].0 + 1 != ts[b].0
            &&& cd_targets_apart(ts)
        }),
{
    lemma_targets_marked(s, i, n, mode, sel);
    let ts = walk_targets(s, i, n, mode, sel);
    let d = s.data;
    assert forall|a: int, b: int| 0 <= a < ts.len() && 0 <= b < ts.len() implies ts[a].0 + 1
        != ts[b].0 by {
        if ts[a].0 + 1 == ts[b].0 {
            let x = ts[a].0;
            if a % 2 == 0 && b % 2 == 0 {
                assert(cd_mark(d, x) && cd_mark(d, x + 1));
            } else if a % 2 == 0 {
                assert(cd_mark(d, x) && lfh_mark(d, x + 1));
            } else if b % 2 == 0 {
                assert(lfh_mark(d, x) && cd_mark(d, x + 1));
            } else {
                assert(lfh_mark(d, x) && lfh_mark(d, x + 1));
            }
        }
    }
    assert forall|a: int, b: int|
        0 <= a < ts.len() && 0 <= b < ts.len() && a % 2 == 0 && a != b implies ts[a].0
        != ts[b].0 by {
        if b % 2 == 0 {
            if a < b {
                assert(ts[a].0 < ts[b].0);
            } else {
                assert(ts[b].0 < ts[a].0);
            }
        } else {
            assert(cd_mark(d, ts[a].0));
            assert(lfh_mark(d, ts[b].0));
        }
    }
}

/// `set` and `clear` never target two fields that overlap in the byte
/// holding bit 11, nor one place with two bits.
pub proof fn lemma_set_clear_no_adjacent(
    s: Scan,
    i: nat,
    n: nat,
    mode: Mode,
    sel: Option<Set<usize>>,
)
    requires
        walk(s, i, n, mode, sel) is Ok,
        s.pos >= 0,
        mode == Mode::SetBit || mode == Mode::Clear,
    ensures
        no_adjacent_targets(walk_targets(s, i, n, mode, sel)),
        forall|a: int|
            0 <= a < walk_targets(s, i, n, mode, sel).len() ==> (#[trigger] walk_targets(
                s,
                i,
                n,
                mode,
                sel,
            )[a]).1 == (mode == Mode::SetBit),
{
    lemma_targets_marked(s, i, n, mode, sel);
    lemma_targets_apart(s, i, n, mode, sel);
    let ts = walk_targets(s, i, n, mode, sel);
    assert forall|a: int, b: int| 0 <= a < ts.len() && 0 <= b < ts.len() implies ts[a].0 + 1
        != ts[b].0 && (ts[a].0 == ts[b].0 ==> ts[a].1 == ts[b].1) by {
        assert(ts[a].1 == (mode == Mode::SetBit));
        assert(ts[b].1 == (mode == Mode::SetBit));
    }
}

/// A `toggle` whose every targeted field holds the opposite of its target
/// never targets overlapping fields, nor one place with two bits.
pub proof fn lemma_toggle_no_adjacent(s: Scan, i: nat, n: nat, sel: Option<Set<usize>>)
    requires
        walk(s, i, n, Mode::Toggle, sel) is Ok,
        s.pos >= 0,
        forall|k: int|
            0 <= k < walk_targets(s, i, n, Mode::Toggle, sel).len() ==> bit11_at(
                s.data,
                #[trigger] walk_targets(s, i, n, Mode::Toggle, sel)[k].0,
            ) != walk_targets(s, i, n, Mode::Toggle, sel)[k].1,
    ensures
        no_adjacent_targets(walk_targets(s, i, n, Mode::Toggle, sel)),
{
    lemma_targets_apart(s, i, n, Mode::Toggle, sel);
    let ts = walk_targets(s, i, n, Mode::Toggle, sel);
    assert forall|a: int, b: int| 0 <= a < ts.len() && 0 <= b < ts.len() implies ts[a].0 + 1
        != ts[b].0 && (ts[a].0 == ts[b].0 ==> ts[a].1 == ts[b].1) by {
        if ts[a].0 == ts[b].0 && a != b {
            assert(a % 2 == 1 && b % 2 == 1);
            assert(bit11_at(s.data, ts[a].0) != ts[a].1);
            assert(bit11_at(s.data, ts[b].0) != ts[b].1);
        }
    }
}

} // verus!
