//! What an edit does to the bytes: every flag field it targets ends with the
//! requested bit 11, and no other byte changes.
use vstd::prelude::*;
use crate::archive::{
    locate_result, process_result, report_lines, selected_count, selection_for, start_scan,
    bit11_of, cd_entry_len, cd_extra_len, cd_flags, cd_fname_len, edit_result, edits, entry_step,
    flags_with_bit11, lemma_with_bit11, target_bit, walk, Mode, Scan,
};
use crate::bytes::{le16, le32, put16};
use crate::local_header::{
    lemma_extra_frame_in, lemma_lfh_offset_congruent, lemma_lfh_offset_nonneg, lfh_frame,
    lfh_offset_result,
};
use crate::selection::selects;
use crate::text::decimal;
use crate::placement::{
    cd_targets_apart, lemma_set_clear_no_adjacent, lemma_step_marks, lemma_targets_apart,
    lemma_targets_marked, lemma_toggle_no_adjacent,
};
use crate::eocd::{cd_info_frame, eocd_result, lemma_cd_info_congruent, lemma_cd_info_nonneg};

verus! {

/// Bit 11 of the 16-bit little-endian field at `x` of `d`: bit 3 of its
/// second byte.
pub open spec fn bit11_at(d: Seq<u8>, x: int) -> bool {
    d[x + 1] & 8u8 != 0
}

proof fn lemma_u16_bit11(b0: u8, b1: u8)
    by (bit_vector)
    ensures
        (((b0 as u16) + (b1 as u16) * 256) as u16 & 0x0800u16 != 0) == (b1 & 8u8 != 0),
{
}

proof fn lemma_u16_high_byte(v: u16)
    by (bit_vector)
    ensures
        ((v / 256) as u8 & 8u8 != 0) == (v & 0x0800u16 != 0),
{
}

/// The flags read at `x` have bit 11 exactly when `bit11_at` says so.
pub proof fn lemma_bit11_at(d: Seq<u8>, x: int)
    requires
        0 <= x,
        x + 2 <= d.len(),
    ensures
        bit11_of(le16(d, x) as u16) == bit11_at(d, x),
{
    lemma_u16_bit11(d[x], d[x + 1]);
    assert(le16(d, x) as u16 == ((d[x] as u16) + (d[x + 1] as u16) * 256) as u16);
}

/// Writing `v` at `x` gives the field at `x` bit 11 of `v`.
pub proof fn lemma_put16_bit11(d: Seq<u8>, x: int, v: u16)
    requires
        0 <= x,
        x + 2 <= d.len(),
    ensures
        bit11_at(put16(d, x, v), x) == bit11_of(v),
{
    lemma_u16_high_byte(v);
}

/// The flag fields the step for entry `i + 1` targets, each with the bit 11
/// it is to get: for a selected entry of an edit, its Central Directory flags
/// and its Local File Header flags.
pub open spec fn step_targets(s: Scan, i: nat, mode: Mode, sel: Option<Set<usize>>) -> Seq<
    (int, bool),
> {
    if edits(mode) && selects(sel, (i + 1) as int) {
        match lfh_offset_result(
            s.data,
            s.pos,
            cd_fname_len(s.data, s.pos),
            cd_extra_len(s.data, s.pos),
            i + 1,
        ) {
            Ok(l) => {
                let b = target_bit(mode, bit11_of(cd_flags(s.data, s.pos)));
                seq![(s.pos + 8, b), (l + 6, b)]
            },
            Err(_) => seq![],
        }
    } else {
        seq![]
    }
}

/// The flag fields targeted over the walk of entries `i + 1` to `n`.
pub open spec fn walk_targets(s: Scan, i: nat, n: nat, mode: Mode, sel: Option<Set<usize>>) -> Seq<
    (int, bool),
>
    decreases n - i,
{
    if i >= n {
        seq![]
    } else {
        match entry_step(s, i, mode, sel) {
            Err(_) => seq![],
            Ok(u) => step_targets(s, i, mode, sel) + walk_targets(u, i + 1, n, mode, sel),
        }
    }
}

/// Whether byte `j` belongs to one of the fields `ts`.
pub open spec fn touches(ts: Seq<(int, bool)>, j: int) -> bool {
    exists|k: int| 0 <= k < ts.len() && (j == ts[k].0 || j == ts[k].0 + 1)
}

/// Whether no targeted field starts one byte after another (which would
/// overwrite the byte holding the other's bit 11), and fields at the same
/// place are to get the same bit.
pub open spec fn no_adjacent_targets(ts: Seq<(int, bool)>) -> bool {
    forall|a: int, b: int|
        0 <= a < ts.len() && 0 <= b < ts.len() ==> ts[a].0 + 1 != ts[b].0 && (ts[a].0 == ts[b].0
            ==> ts[a].1 == ts[b].1)
}

/// Whether every field of `ts` lies inside a buffer of `len` bytes.
pub open spec fn targets_in(ts: Seq<(int, bool)>, len: int) -> bool {
    forall|k: int| 0 <= k < ts.len() ==> 0 <= ts[k].0 && ts[k].0 + 2 <= len
}

proof fn lemma_bit11_put16_other(d: Seq<u8>, x: int, y: int, v: u16)
    requires
        0 <= x,
        x + 2 <= d.len(),
        0 <= y,
        y + 2 <= d.len(),
        y != x,
        y != x + 1,
    ensures
        bit11_at(put16(d, y, v), x) == bit11_at(d, x),
{
}

/// One step: its bytes change only in the fields it targets, each targeted
/// field gets its bit (the Central Directory one unless the Local File Header
/// field starts one byte after it), and the length stays.
pub proof fn lemma_step_effect(s: Scan, i: nat, mode: Mode, sel: Option<Set<usize>>)
    requires
        entry_step(s, i, mode, sel) is Ok,
        s.pos >= 0,
    ensures
        ({
            let u = entry_step(s, i, mode, sel)->Ok_0;
            let f = step_targets(s, i, mode, sel);
            &&& u.data.len() == s.data.len()
            &&& targets_in(f, s.data.len() as int)
            &&& forall|j: int| 0 <= j < s.data.len() && !touches(f, j) ==> u.data[j] == s.data[j]
            &&& f.len() == 2 ==> bit11_at(u.data, f[1].0) == f[1].1
            &&& f.len() == 2 && f[1].0 != f[0].0 + 1 ==> bit11_at(u.data, f[0].0) == f[0].1
            &&& (f.len() == 0 || f.len() == 2)
            &&& !edits(mode) ==> u.data == s.data
            &&& u.pos >= 0
        }),
{
    reveal(entry_step);
    let d = s.data;
    let pos = s.pos;
    let u = entry_step(s, i, mode, sel)->Ok_0;
    let f = step_targets(s, i, mode, sel);
    if edits(mode) && selects(sel, (i + 1) as int) {
        let flags = cd_flags(d, pos);
        let b = target_bit(mode, bit11_of(flags));
        let nf = flags_with_bit11(flags, b);
        lemma_with_bit11(flags, b);
        let l = lfh_offset_result(d, pos, cd_fname_len(d, pos), cd_extra_len(d, pos), i + 1)->Ok_0;
        let lf = le16(d, l + 6) as u16;
        let nl = flags_with_bit11(lf, b);
        lemma_with_bit11(lf, b);
        assert(f == seq![(pos + 8, b), (l + 6, b)]);
        lemma_lfh_offset_nonneg(d, pos, cd_fname_len(d, pos), cd_extra_len(d, pos), i + 1);
        assert(0 <= l);
        lemma_bit11_at(d, pos + 8);
        lemma_bit11_at(d, l + 6);
        if nf != flags || nl != lf {
            let d1 = put16(d, pos + 8, nf);
            let d2 = put16(d1, l + 6, nl);
            assert(u.data == d2);
            lemma_put16_bit11(d1, l + 6, nl);
            lemma_put16_bit11(d, pos + 8, nf);
            if l + 6 != pos + 8 && l + 6 != pos + 9 {
                lemma_bit11_put16_other(d1, pos + 8, l + 6, nl);
            }
            assert forall|j: int| 0 <= j < d.len() && !touches(f, j) implies u.data[j] == d[j] by {
                assert(!(j == f[0].0 || j == f[0].0 + 1));
                assert(!(j == f[1].0 || j == f[1].0 + 1));
            }
        } else {
            assert(u.data == d);
        }
    } else {
        assert(f.len() == 0);
        assert(u.data == d);
    }
}

proof fn lemma_touches_concat(a: Seq<(int, bool)>, b: Seq<(int, bool)>, j: int)
    ensures
        touches(a + b, j) == (touches(a, j) || touches(b, j)),
{
    if touches(a, j) {
        let k = choose|k: int| 0 <= k < a.len() && (j == a[k].0 || j == a[k].0 + 1);
        assert((a + b)[k] == a[k]);
    }
    if touches(b, j) {
        let k = choose|k: int| 0 <= k < b.len() && (j == b[k].0 || j == b[k].0 + 1);
        assert((a + b)[a.len() + k] == b[k]);
    }
    if touches(a + b, j) {
        let k = choose|k: int| 0 <= k < (a + b).len() && (j == (a + b)[k].0 || j == (a + b)[k].0 + 1);
        if k < a.len() {
            assert((a + b)[k] == a[k]);
        } else {
            assert((a + b)[k] == b[k - a.len()]);
        }
    }
}

/// A walk keeps the length of the bytes, changes only bytes of the fields it
/// targets, and leaves the bytes alone in a mode that does not edit.
pub proof fn law_walk_frame(s: Scan, i: nat, n: nat, mode: Mode, sel: Option<Set<usize>>)
    requires
        walk(s, i, n, mode, sel) is Ok,
        s.pos >= 0,
    ensures
        ({
            let t = walk(s, i, n, mode, sel)->Ok_0;
            let ts = walk_targets(s, i, n, mode, sel);
            &&& t.data.len() == s.data.len()
            &&& targets_in(ts, s.data.len() as int)
            &&& forall|j: int| 0 <= j < s.data.len() && !touches(ts, j) ==> t.data[j] == s.data[j]
            &&& !edits(mode) ==> t.data == s.data
        }),
    decreases n - i,
{
    if i < n {
        let u = entry_step(s, i, mode, sel)->Ok_0;
        lemma_step_effect(s, i, mode, sel);
        law_walk_frame(u, i + 1, n, mode, sel);
        let f = step_targets(s, i, mode, sel);
        let rest = walk_targets(u, i + 1, n, mode, sel);
        let t = walk(s, i, n, mode, sel)->Ok_0;
        assert(walk_targets(s, i, n, mode, sel) == f + rest);
        assert forall|j: int| 0 <= j < s.data.len() && !touches(f + rest, j) implies t.data[j]
            == s.data[j] by {
            lemma_touches_concat(f, rest, j);
        }
        assert forall|k: int| 0 <= k < (f + rest).len() implies 0 <= (f + rest)[k].0 && (f
            + rest)[k].0 + 2 <= s.data.len() by {
            if k < f.len() {
                assert((f + rest)[k] == f[k]);
            } else {
                assert((f + rest)[k] == rest[k - f.len()]);
            }
        }
    }
}

/// Every field a walk targets ends with its bit 11, provided no targeted
/// field starts one byte after another and fields at one place agree on
/// their bit.
pub proof fn law_walk_targets(s: Scan, i: nat, n: nat, mode: Mode, sel: Option<Set<usize>>)
    requires
        walk(s, i, n, mode, sel) is Ok,
        s.pos >= 0,
        no_adjacent_targets(walk_targets(s, i, n, mode, sel)),
    ensures
        ({
            let t = walk(s, i, n, mode, sel)->Ok_0;
            let ts = walk_targets(s, i, n, mode, sel);
            forall|k: int| 0 <= k < ts.len() ==> bit11_at(t.data, #[trigger] ts[k].0) == ts[k].1
        }),
    decreases n - i,
{
    if i < n {
        let u = entry_step(s, i, mode, sel)->Ok_0;
        lemma_step_effect(s, i, mode, sel);
        let f = step_targets(s, i, mode, sel);
        let rest = walk_targets(u, i + 1, n, mode, sel);
        let ts = walk_targets(s, i, n, mode, sel);
        let t = walk(s, i, n, mode, sel)->Ok_0;
        assert(ts == f + rest);
        assert forall|a: int, b: int|
            0 <= a < rest.len() && 0 <= b < rest.len() implies rest[a].0 + 1 != rest[b].0 && (
            rest[a].0 == rest[b].0 ==> rest[a].1 == rest[b].1) by {
            assert(ts[f.len() + a] == rest[a]);
            assert(ts[f.len() + b] == rest[b]);
        }
        law_walk_targets(u, i + 1, n, mode, sel);
        law_walk_frame(u, i + 1, n, mode, sel);
        assert forall|k: int| 0 <= k < ts.len() implies bit11_at(t.data, #[trigger] ts[k].0)
            == ts[k].1 by {
            if k >= f.len() {
                assert(ts[k] == rest[k - f.len()]);
            } else {
                assert(ts[k] == f[k]);
                let x = f[k].0;
                // The step gave the field its bit.
                if k == 0 {
                    assert(ts[0].0 + 1 != ts[1].0);
                }
                assert(bit11_at(u.data, x) == f[k].1);
                // Later steps leave the byte holding it alone, or set the same bit.
                if touches(rest, x + 1) {
                    let m = choose|m: int|
                        0 <= m < rest.len() && (x + 1 == rest[m].0 || x + 1 == rest[m].0 + 1);
                    assert(ts[f.len() + m] == rest[m]);
                    if x + 1 == rest[m].0 {
                        assert(ts[k].0 + 1 != ts[f.len() + m].0);
                    } else {
                        assert(ts[k].0 == ts[f.len() + m].0);
                        assert(bit11_at(t.data, rest[m].0) == rest[m].1);
                    }
                } else {
                    assert(t.data[x + 1] == u.data[x + 1]);
                }
            }
        }
    }
}

/// A walk that reports no change leaves the bytes as they were; one in a
/// mode that does not edit reports no change of its own.
pub proof fn law_walk_unmodified(s: Scan, i: nat, n: nat, mode: Mode, sel: Option<Set<usize>>)
    requires
        walk(s, i, n, mode, sel) is Ok,
    ensures
        ({
            let t = walk(s, i, n, mode, sel)->Ok_0;
            &&& !t.modified ==> t.data == s.data && !s.modified
            &&& !edits(mode) ==> t.modified == s.modified
        }),
    decreases n - i,
{
    if i < n {
        reveal(entry_step);
        let u = entry_step(s, i, mode, sel)->Ok_0;
        law_walk_unmodified(u, i + 1, n, mode, sel);
        if edits(mode) && selects(sel, (i + 1) as int) {
            let r = edit_result(s.data, s.pos, i + 1, mode);
            assert(r is Ok);
            if !r->Ok_0.1 {
                assert(r->Ok_0.0 == s.data);
            }
        }
    }
}

proof fn lemma_with_bit11_unchanged(f: u16, b: bool)
    ensures
        (flags_with_bit11(f, b) == f) == (bit11_of(f) == b),
{
    lemma_with_bit11(f, b);
    assert(f & 0x0800u16 != 0 ==> f | 0x0800u16 == f) by (bit_vector);
    assert(f & 0x0800u16 == 0 ==> f & !0x0800u16 == f) by (bit_vector);
}

/// Whether some field of `ts` lacks its bit 11 in `d`.
pub open spec fn some_target_differs(ts: Seq<(int, bool)>, d: Seq<u8>) -> bool {
    exists|k: int| 0 <= k < ts.len() && bit11_at(d, #[trigger] ts[k].0) != ts[k].1
}

/// A walk reports a change exactly when one was reported before it or some
/// field it targets lacked its bit 11 in the bytes it started from.
pub proof fn law_walk_change_needed(
    s: Scan,
    i: nat,
    n: nat,
    mode: Mode,
    sel: Option<Set<usize>>,
)
    requires
        walk(s, i, n, mode, sel) is Ok,
        s.pos >= 0,
    ensures
        walk(s, i, n, mode, sel)->Ok_0.modified == (s.modified || some_target_differs(
            walk_targets(s, i, n, mode, sel),
            s.data,
        )),
    decreases n - i,
{
    if i < n {
        reveal(entry_step);
        let u = entry_step(s, i, mode, sel)->Ok_0;
        lemma_step_effect(s, i, mode, sel);
        law_walk_change_needed(u, i + 1, n, mode, sel);
        law_walk_unmodified(u, i + 1, n, mode, sel);
        let f = step_targets(s, i, mode, sel);
        let rest = walk_targets(u, i + 1, n, mode, sel);
        let ts = walk_targets(s, i, n, mode, sel);
        let t = walk(s, i, n, mode, sel)->Ok_0;
        assert(ts == f + rest);
        let d = s.data;
        let pos = s.pos;
        // Whether this step changed the bytes, and whether its fields lacked their bit.
        let step_differs = some_target_differs(f, d);
        if edits(mode) && selects(sel, (i + 1) as int) {
            let flags = cd_flags(d, pos);
            let b = target_bit(mode, bit11_of(flags));
            let l = lfh_offset_result(d, pos, cd_fname_len(d, pos), cd_extra_len(d, pos), i + 1)->Ok_0;
            let lf = le16(d, l + 6) as u16;
            lemma_lfh_offset_nonneg(d, pos, cd_fname_len(d, pos), cd_extra_len(d, pos), i + 1);
            lemma_with_bit11_unchanged(flags, b);
            lemma_with_bit11_unchanged(lf, b);
            lemma_bit11_at(d, pos + 8);
            lemma_bit11_at(d, l + 6);
            assert(f == seq![(pos + 8, b), (l + 6, b)]);
            let changed = edit_result(d, pos, i + 1, mode)->Ok_0.1;
            if step_differs {
                let k = choose|k: int| 0 <= k < f.len() && bit11_at(d, #[trigger] f[k].0) != f[k].1;
                assert(k == 0 || k == 1);
                assert(changed);
            } else {
                assert(bit11_at(d, f[0].0) == f[0].1);
                assert(bit11_at(d, f[1].0) == f[1].1);
                assert(!changed);
            }
        } else {
            assert(f.len() == 0);
            assert(!step_differs);
        }
        // The targets of the whole walk differ iff this step's or later ones do.
        if some_target_differs(ts, d) {
            let k = choose|k: int| 0 <= k < ts.len() && bit11_at(d, #[trigger] ts[k].0) != ts[k].1;
            if k < f.len() {
                assert(ts[k] == f[k]);
            } else {
                assert(ts[k] == rest[k - f.len()]);
            }
        }
        if step_differs {
            let k = choose|k: int| 0 <= k < f.len() && bit11_at(d, #[trigger] f[k].0) != f[k].1;
            assert(ts[k] == f[k]);
        }
        if !step_differs {
            assert(u.data == d);
            if some_target_differs(rest, d) {
                let k = choose|k: int| 0 <= k < rest.len() && bit11_at(d, #[trigger] rest[k].0)
                    != rest[k].1;
                assert(ts[f.len() + k] == rest[k]);
            }
        }
    }
}

/// `v` with bit 3 (bit 11 of the field whose high byte it is) set to `b`.
pub open spec fn with_bit3(v: u8, b: bool) -> u8 {
    if b {
        v | 8u8
    } else {
        v & 0xF7u8
    }
}

/// `d` with bit 11 of each field of `ts`, in order, set to its bit: only the
/// high byte of each field changes, and only in bit 3.
pub open spec fn apply_bits(d: Seq<u8>, ts: Seq<(int, bool)>) -> Seq<u8>
    decreases ts.len(),
{
    if ts.len() == 0 {
        d
    } else {
        apply_bits(
            d.update(ts[0].0 + 1, with_bit3(d[ts[0].0 + 1], ts[0].1)),
            ts.drop_first(),
        )
    }
}

proof fn lemma_apply_bits_concat(d: Seq<u8>, a: Seq<(int, bool)>, b: Seq<(int, bool)>)
    ensures
        apply_bits(d, a + b) == apply_bits(apply_bits(d, a), b),
    decreases a.len(),
{
    if a.len() == 0 {
        assert(a + b =~= b);
    } else {
        assert((a + b).drop_first() =~= a.drop_first() + b);
        assert((a + b)[0] == a[0]);
        lemma_apply_bits_concat(
            d.update(a[0].0 + 1, with_bit3(d[a[0].0 + 1], a[0].1)),
            a.drop_first(),
            b,
        );
    }
}

pub(crate) proof fn lemma_u16_bytes(b0: u8, b1: u8, b: bool)
    by (bit_vector)
    ensures
        ((b0 as u16 + b1 as u16 * 256) as u16) % 256 == b0 as u16,
        ((b0 as u16 + b1 as u16 * 256) as u16) / 256 == b1 as u16,
        (if b {
            ((b0 as u16 + b1 as u16 * 256) as u16) | 0x0800u16
        } else {
            ((b0 as u16 + b1 as u16 * 256) as u16) & !0x0800u16
        }) % 256 == b0 as u16,
        (if b {
            ((b0 as u16 + b1 as u16 * 256) as u16) | 0x0800u16
        } else {
            ((b0 as u16 + b1 as u16 * 256) as u16) & !0x0800u16
        }) / 256 == (if b {
            b1 | 8u8
        } else {
            b1 & 0xF7u8
        }) as u16,
{
}

/// Writing back the field at `y` with bit 11 set to `b` changes only bit 3
/// of its high byte.
proof fn lemma_put16_with_bit11(d: Seq<u8>, y: int, b: bool)
    requires
        0 <= y,
        y + 2 <= d.len(),
    ensures
        put16(d, y, flags_with_bit11(le16(d, y) as u16, b)) == d.update(
            y + 1,
            with_bit3(d[y + 1], b),
        ),
{
    lemma_u16_bytes(d[y], d[y + 1], b);
    assert(le16(d, y) as u16 == ((d[y] as u16) + (d[y + 1] as u16) * 256) as u16);
    let v = flags_with_bit11(le16(d, y) as u16, b);
    assert((v % 256) as u8 == d[y]);
    assert((v / 256) as u8 == with_bit3(d[y + 1], b));
    assert(put16(d, y, v) =~= d.update(y + 1, with_bit3(d[y + 1], b)));
}

proof fn lemma_with_bit3_same(v: u8, b: bool)
    by (bit_vector)
    ensures
        (v & 8u8 != 0) == b ==> (if b {
            v | 8u8
        } else {
            v & 0xF7u8
        }) == v,
{
}

/// A step changes exactly bit 3 of the high byte of each field it targets,
/// to its bit, provided its two fields do not start one byte apart.
pub proof fn lemma_step_exact(s: Scan, i: nat, mode: Mode, sel: Option<Set<usize>>)
    requires
        entry_step(s, i, mode, sel) is Ok,
        s.pos >= 0,
        no_adjacent_targets(step_targets(s, i, mode, sel)),
    ensures
        entry_step(s, i, mode, sel)->Ok_0.data == apply_bits(
            s.data,
            step_targets(s, i, mode, sel),
        ),
{
    reveal(entry_step);
    lemma_step_effect(s, i, mode, sel);
    let d = s.data;
    let pos = s.pos;
    let u = entry_step(s, i, mode, sel)->Ok_0;
    let f = step_targets(s, i, mode, sel);
    if edits(mode) && selects(sel, (i + 1) as int) {
        let flags = cd_flags(d, pos);
        let b = target_bit(mode, bit11_of(flags));
        lemma_lfh_offset_nonneg(d, pos, cd_fname_len(d, pos), cd_extra_len(d, pos), i + 1);
        let l = lfh_offset_result(d, pos, cd_fname_len(d, pos), cd_extra_len(d, pos), i + 1)->Ok_0;
        assert(f == seq![(pos + 8, b), (l + 6, b)]);
        assert(pos + 9 != l + 6 && l + 7 != pos + 8) by {
            assert(f[0].0 + 1 != f[1].0);
            assert(f[1].0 + 1 != f[0].0);
        }
        let d1 = d.update(pos + 9, with_bit3(d[pos + 9], b));
        let lf = le16(d, l + 6) as u16;
        let a1 = apply_bits(d, f);
        let f1 = f.drop_first();
        assert(f1.drop_first() =~= Seq::<(int, bool)>::empty());
        assert(f1[0] == (l + 6, b));
        assert(a1 == apply_bits(d1, f1));
        assert(apply_bits(d1, f1) == apply_bits(
            d1.update(l + 7, with_bit3(d1[l + 7], b)),
            f1.drop_first(),
        ));
        assert(a1 == d1.update(l + 7, with_bit3(d1[l + 7], b)));
        if flags_with_bit11(flags, b) != flags || flags_with_bit11(lf, b) != lf {
            lemma_put16_with_bit11(d, pos + 8, b);
            assert(put16(d, pos + 8, flags_with_bit11(flags, b)) == d1);
            if l + 6 == pos + 8 {
                lemma_with_bit11(flags, b);
                lemma_put16_with_bit11(d1, l + 6, b);
                lemma_bit11_at(d, pos + 8);
                lemma_bit11_at(d1, pos + 8);
                lemma_u16_bytes(d[pos + 8], d[pos + 9], b);
                lemma_u16_bytes(d1[pos + 8], d1[pos + 9], b);
                lemma_with_bit3_twice(d[pos + 9], b);
                assert(le16(d1, l + 6) as u16 == ((d1[pos + 8] as u16) + (d1[pos + 9] as u16) * 256) as u16);
                assert(lf == ((d[pos + 8] as u16) + (d[pos + 9] as u16) * 256) as u16);
                assert(put16(d1, l + 6, flags_with_bit11(lf, b)) =~= d1.update(
                    l + 7,
                    with_bit3(d1[l + 7], b),
                ));
            } else {
                assert(le16(d1, l + 6) == le16(d, l + 6));
                lemma_put16_with_bit11(d1, l + 6, b);
            }
        } else {
            lemma_with_bit11_unchanged(flags, b);
            lemma_with_bit11_unchanged(lf, b);
            lemma_bit11_at(d, pos + 8);
            lemma_bit11_at(d, l + 6);
            lemma_with_bit3_same(d[pos + 9], b);
            assert(d1 =~= d);
            lemma_with_bit3_same(d[l + 7], b);
            assert(a1 =~= d);
        }
    } else {
        assert(f.len() == 0);
    }
}

proof fn lemma_with_bit3_twice(v: u8, b: bool)
    by (bit_vector)
    ensures
        (if b {
            (if b { v | 8u8 } else { v & 0xF7u8 }) | 8u8
        } else {
            (if b { v | 8u8 } else { v & 0xF7u8 }) & 0xF7u8
        }) == (if b { v | 8u8 } else { v & 0xF7u8 }),
{
}

/// The bytes after a walk are exactly the bytes before it with bit 11 of
/// each targeted field set to its bit, provided no targeted field starts one
/// byte after another.
pub proof fn law_walk_exact(s: Scan, i: nat, n: nat, mode: Mode, sel: Option<Set<usize>>)
    requires
        walk(s, i, n, mode, sel) is Ok,
        s.pos >= 0,
        no_adjacent_targets(walk_targets(s, i, n, mode, sel)),
    ensures
        walk(s, i, n, mode, sel)->Ok_0.data == apply_bits(s.data, walk_targets(s, i, n, mode, sel)),
    decreases n - i,
{
    if i < n {
        let u = entry_step(s, i, mode, sel)->Ok_0;
        let f = step_targets(s, i, mode, sel);
        let rest = walk_targets(u, i + 1, n, mode, sel);
        let ts = walk_targets(s, i, n, mode, sel);
        assert(ts == f + rest);
        lemma_step_effect(s, i, mode, sel);
        assert forall|a: int, b: int|
            0 <= a < f.len() && 0 <= b < f.len() implies f[a].0 + 1 != f[b].0 && (f[a].0
            == f[b].0 ==> f[a].1 == f[b].1) by {
            assert(ts[a] == f[a]);
            assert(ts[b] == f[b]);
        }
        lemma_step_exact(s, i, mode, sel);
        assert forall|a: int, b: int|
            0 <= a < rest.len() && 0 <= b < rest.len() implies rest[a].0 + 1 != rest[b].0 && (
            rest[a].0 == rest[b].0 ==> rest[a].1 == rest[b].1) by {
            assert(ts[f.len() + a] == rest[a]);
            assert(ts[f.len() + b] == rest[b]);
        }
        law_walk_exact(u, i + 1, n, mode, sel);
        lemma_apply_bits_concat(s.data, f, rest);
    }
}

/// Whether byte `j` is one the step for entry `i + 1` reads to find its way:
/// the signature and the three length fields of its Central Directory entry,
/// and, for a selected entry of an edit, what reading its Local File Header
/// offset reads and that header's signature.
pub open spec fn step_frame(s: Scan, i: nat, mode: Mode, sel: Option<Set<usize>>, j: int) -> bool {
    let d = s.data;
    let pos = s.pos;
    ||| pos <= j < pos + 4
    ||| pos + 28 <= j < pos + 34
    ||| edits(mode) && selects(sel, (i + 1) as int) && (lfh_frame(
        d,
        pos,
        cd_fname_len(d, pos),
        cd_extra_len(d, pos),
        j,
    ) || match lfh_offset_result(d, pos, cd_fname_len(d, pos), cd_extra_len(d, pos), i + 1) {
        Ok(l) => l <= j < l + 4,
        Err(_) => false,
    })
}

/// Whether byte `j` is read to find the way by some step of the walk over
/// entries `i + 1` to `n`.
pub open spec fn walk_frame(
    s: Scan,
    i: nat,
    n: nat,
    mode: Mode,
    sel: Option<Set<usize>>,
    j: int,
) -> bool
    decreases n - i,
{
    if i >= n {
        false
    } else {
        match entry_step(s, i, mode, sel) {
            Err(_) => false,
            Ok(u) => step_frame(s, i, mode, sel, j) || walk_frame(u, i + 1, n, mode, sel, j),
        }
    }
}

/// A step whose targeted fields already hold their bits changes nothing.
proof fn lemma_step_no_change(s: Scan, i: nat, mode: Mode, sel: Option<Set<usize>>)
    requires
        entry_step(s, i, mode, sel) is Ok,
        s.pos >= 0,
        forall|k: int|
            0 <= k < step_targets(s, i, mode, sel).len() ==> bit11_at(
                s.data,
                #[trigger] step_targets(s, i, mode, sel)[k].0,
            ) == step_targets(s, i, mode, sel)[k].1,
    ensures
        entry_step(s, i, mode, sel)->Ok_0.data == s.data,
        entry_step(s, i, mode, sel)->Ok_0.modified == s.modified,
{
    reveal(entry_step);
    lemma_step_effect(s, i, mode, sel);
    let d = s.data;
    let pos = s.pos;
    let f = step_targets(s, i, mode, sel);
    if edits(mode) && selects(sel, (i + 1) as int) {
        let flags = cd_flags(d, pos);
        let b = target_bit(mode, bit11_of(flags));
        lemma_lfh_offset_nonneg(d, pos, cd_fname_len(d, pos), cd_extra_len(d, pos), i + 1);
        let l = lfh_offset_result(d, pos, cd_fname_len(d, pos), cd_extra_len(d, pos), i + 1)->Ok_0;
        assert(f == seq![(pos + 8, b), (l + 6, b)]);
        assert(bit11_at(d, f[0].0) == f[0].1);
        assert(bit11_at(d, f[1].0) == f[1].1);
        lemma_bit11_at(d, pos + 8);
        lemma_bit11_at(d, l + 6);
        lemma_with_bit11_unchanged(flags, b);
        lemma_with_bit11_unchanged(le16(d, l + 6) as u16, b);
    }
}

/// A step replayed on bytes that agree on its frame goes the same way: it
/// succeeds, ends at the same place and targets the same fields, with the
/// bit its mode gives for the replayed bytes' Central Directory flags.
proof fn lemma_step_congruent(s: Scan, s2: Scan, i: nat, mode: Mode, sel: Option<Set<usize>>)
    requires
        entry_step(s, i, mode, sel) is Ok,
        s.pos >= 0,
        s2.pos == s.pos,
        s2.data.len() == s.data.len(),
        forall|j: int| 0 <= j < s.data.len() && step_frame(s, i, mode, sel, j) ==> s2.data[j] == s.data[j],
    ensures
        entry_step(s2, i, mode, sel) is Ok,
        entry_step(s2, i, mode, sel)->Ok_0.pos == entry_step(s, i, mode, sel)->Ok_0.pos,
        step_targets(s2, i, mode, sel) == Seq::new(
            step_targets(s, i, mode, sel).len(),
            |k: int|
                (
                    step_targets(s, i, mode, sel)[k].0,
                    target_bit(mode, bit11_of(cd_flags(s2.data, s.pos))),
                ),
        ),
{
    reveal(entry_step);
    lemma_step_effect(s, i, mode, sel);
    let d = s.data;
    let d2 = s2.data;
    let pos = s.pos;
    let f = step_targets(s, i, mode, sel);
    assert(le32(d, pos) == le32(d2, pos)) by {
        assert(step_frame(s, i, mode, sel, pos));
        assert(step_frame(s, i, mode, sel, pos + 1));
        assert(step_frame(s, i, mode, sel, pos + 2));
        assert(step_frame(s, i, mode, sel, pos + 3));
    }
    if pos + 46 <= d.len() {
        assert forall|j: int| pos + 28 <= j < pos + 34 implies d2[j] == d[j] by {
            assert(step_frame(s, i, mode, sel, j));
        }
        assert(cd_entry_len(d, pos) == cd_entry_len(d2, pos));
        assert(cd_fname_len(d, pos) == cd_fname_len(d2, pos));
        assert(cd_extra_len(d, pos) == cd_extra_len(d2, pos));
    }
    if edits(mode) && selects(sel, (i + 1) as int) {
        let f_len = cd_fname_len(d, pos);
        let e_len = cd_extra_len(d, pos);
        assert forall|j: int| lfh_frame(d, pos, f_len, e_len, j) implies d[j] == d2[j] by {
            lemma_extra_frame_in(
                d,
                pos + 46 + f_len,
                pos + 46 + f_len + e_len,
                le32(d, pos + 20),
                le32(d, pos + 24),
                j,
            );
            assert(step_frame(s, i, mode, sel, j));
        }
        lemma_lfh_offset_congruent(d, d2, pos, f_len, e_len, i + 1);
        lemma_lfh_offset_nonneg(d, pos, f_len, e_len, i + 1);
        let l = lfh_offset_result(d, pos, f_len, e_len, i + 1)->Ok_0;
        assert(le32(d, l) == le32(d2, l)) by {
            assert(step_frame(s, i, mode, sel, l));
            assert(step_frame(s, i, mode, sel, l + 1));
            assert(step_frame(s, i, mode, sel, l + 2));
            assert(step_frame(s, i, mode, sel, l + 3));
        }
        let b2 = target_bit(mode, bit11_of(cd_flags(d2, pos)));
        assert(step_targets(s2, i, mode, sel) =~= Seq::new(
            f.len(),
            |k: int| (f[k].0, b2),
        ));
    } else {
        assert(step_targets(s2, i, mode, sel) =~= Seq::new(
            f.len(),
            |k: int| (f[k].0, target_bit(mode, bit11_of(cd_flags(d2, pos)))),
        ));
    }
}

/// A step of `set` or `clear` replayed on bytes that agree on its frame and
/// already hold the bits it targets goes the same way and changes nothing.
proof fn lemma_step_replay(s: Scan, s2: Scan, i: nat, mode: Mode, sel: Option<Set<usize>>)
    requires
        entry_step(s, i, mode, sel) is Ok,
        mode == Mode::SetBit || mode == Mode::Clear,
        s.pos >= 0,
        s2.pos == s.pos,
        s2.data.len() == s.data.len(),
        forall|j: int| 0 <= j < s.data.len() && step_frame(s, i, mode, sel, j) ==> s2.data[j] == s.data[j],
        forall|k: int|
            0 <= k < step_targets(s, i, mode, sel).len() ==> bit11_at(
                s2.data,
                #[trigger] step_targets(s, i, mode, sel)[k].0,
            ) == step_targets(s, i, mode, sel)[k].1,
    ensures
        entry_step(s2, i, mode, sel) is Ok,
        entry_step(s2, i, mode, sel)->Ok_0.pos == entry_step(s, i, mode, sel)->Ok_0.pos,
        entry_step(s2, i, mode, sel)->Ok_0.data == s2.data,
        entry_step(s2, i, mode, sel)->Ok_0.modified == s2.modified,
{
    lemma_step_congruent(s, s2, i, mode, sel);
    lemma_step_effect(s2, i, mode, sel);
    let f = step_targets(s, i, mode, sel);
    let f2 = step_targets(s2, i, mode, sel);
    if f.len() == 2 {
        assert(f2[0] == f[0]);
        assert(f2[1] == f[1]);
    }
    lemma_step_no_change(s2, i, mode, sel);
}

/// Running `set` or `clear` again over what a walk produced goes the same
/// way and changes nothing, provided the bytes it produced agree with the
/// bytes it started from on every byte it reads to find its way.
pub proof fn law_walk_idempotent(
    s: Scan,
    s2: Scan,
    i: nat,
    n: nat,
    mode: Mode,
    sel: Option<Set<usize>>,
)
    requires
        walk(s, i, n, mode, sel) is Ok,
        mode == Mode::SetBit || mode == Mode::Clear,
        s.pos >= 0,
        s2.pos == s.pos,
        s2.data == walk(s, i, n, mode, sel)->Ok_0.data,
        forall|j: int|
            0 <= j < s.data.len() && walk_frame(s, i, n, mode, sel, j) ==> s2.data[j]
                == s.data[j],
    ensures
        walk(s2, i, n, mode, sel) is Ok,
        walk(s2, i, n, mode, sel)->Ok_0.data == s2.data,
        walk(s2, i, n, mode, sel)->Ok_0.modified == s2.modified,
    decreases n - i,
{
    if i < n {
        let u = entry_step(s, i, mode, sel)->Ok_0;
        let f = step_targets(s, i, mode, sel);
        let rest = walk_targets(u, i + 1, n, mode, sel);
        let ts = walk_targets(s, i, n, mode, sel);
        assert(ts == f + rest);
        lemma_step_effect(s, i, mode, sel);
        law_walk_frame(s, i, n, mode, sel);
        law_walk_frame(u, i + 1, n, mode, sel);
        lemma_set_clear_no_adjacent(s, i, n, mode, sel);
        lemma_set_clear_no_adjacent(u, i + 1, n, mode, sel);
        law_walk_targets(s, i, n, mode, sel);
        // The final bytes agree with these on the step's frame, and hold the
        // bits the step targets.
        assert forall|j: int| 0 <= j < s.data.len() && step_frame(s, i, mode, sel, j) implies s2.data[j]
            == s.data[j] by {
            assert(walk_frame(s, i, n, mode, sel, j));
        }
        assert forall|k: int| 0 <= k < f.len() implies bit11_at(s2.data, #[trigger] f[k].0)
            == f[k].1 by {
            assert(ts[k] == f[k]);
        }
        lemma_step_replay(s, s2, i, mode, sel);
        let u2 = entry_step(s2, i, mode, sel)->Ok_0;
        // The final bytes agree with the next state on the rest's frame: a
        // byte this step changed keeps its new value to the end.
        assert forall|a: int, b: int|
            0 <= a < f.len() && 0 <= b < f.len() implies f[a].0 + 1 != f[b].0 && (f[a].0
            == f[b].0 ==> f[a].1 == f[b].1) by {
            assert(ts[a] == f[a]);
            assert(ts[b] == f[b]);
        }
        lemma_step_exact(s, i, mode, sel);
        lemma_apply_bits_at(s.data, f);
        law_walk_exact(u, i + 1, n, mode, sel);
        lemma_apply_bits_at(u.data, rest);
        assert forall|j: int|
            0 <= j < u.data.len() && walk_frame(u, i + 1, n, mode, sel, j) implies u2.data[j]
                == u.data[j] by {
            assert(walk_frame(s, i, n, mode, sel, j));
            if exists|k: int| 0 <= k < f.len() && f[k].0 + 1 == j {
                let k = choose|k: int| 0 <= k < f.len() && f[k].0 + 1 == j;
                assert(ts[k] == f[k]);
                let b = f[k].1;
                assert(u.data[j] == with_bit3(s.data[j], b));
                if exists|m: int| 0 <= m < rest.len() && rest[m].0 + 1 == j {
                    let m = choose|m: int| 0 <= m < rest.len() && rest[m].0 + 1 == j;
                    assert(ts[f.len() + m] == rest[m]);
                    assert(rest[m].1 == b);
                    lemma_with_bit3_twice(s.data[j], b);
                } else {
                    assert forall|m: int| 0 <= m < rest.len() implies #[trigger] rest[m].0 + 1
                        != j by {}
                }
            } else {
                assert forall|k: int| 0 <= k < f.len() implies #[trigger] f[k].0 + 1 != j by {}
                assert(u.data[j] == s.data[j]);
            }
        }
        law_walk_idempotent(u, u2, i + 1, n, mode, sel);
    }
}
/// `ts` with every bit flipped.
pub open spec fn negated(ts: Seq<(int, bool)>) -> Seq<(int, bool)> {
    Seq::new(ts.len(), |k: int| (ts[k].0, !ts[k].1))
}

proof fn lemma_negated_no_adjacent(ts: Seq<(int, bool)>)
    requires
        no_adjacent_targets(ts),
    ensures
        no_adjacent_targets(negated(ts)),
{
    let nts = negated(ts);
    assert forall|a: int, b: int|
        0 <= a < nts.len() && 0 <= b < nts.len() implies nts[a].0 + 1 != nts[b].0 && (nts[a].0
        == nts[b].0 ==> nts[a].1 == nts[b].1) by {
        assert(ts[a].0 + 1 != ts[b].0);
        assert(ts[a].0 == ts[b].0 ==> ts[a].1 == ts[b].1);
    }
}

proof fn lemma_with_bit3_undo(v: u8, b: bool)
    by (bit_vector)
    ensures
        (v & 8u8 != 0) != b ==> (if !b {
            (if b { v | 8u8 } else { v & 0xF7u8 }) | 8u8
        } else {
            (if b { v | 8u8 } else { v & 0xF7u8 }) & 0xF7u8
        }) == v,
{
}

/// The high byte of each targeted field gets its bit and every other byte
/// stays, provided no field starts one byte after another and fields at one
/// place agree on their bit.
proof fn lemma_apply_bits_at(d: Seq<u8>, ts: Seq<(int, bool)>)
    requires
        no_adjacent_targets(ts),
        targets_in(ts, d.len() as int),
    ensures
        apply_bits(d, ts).len() == d.len(),
        forall|k: int|
            0 <= k < ts.len() ==> apply_bits(d, ts)[#[trigger] ts[k].0 + 1] == with_bit3(
                d[ts[k].0 + 1],
                ts[k].1,
            ),
        forall|j: int|
            0 <= j < d.len() && (forall|k: int| 0 <= k < ts.len() ==> #[trigger] ts[k].0 + 1 != j)
                ==> apply_bits(d, ts)[j] == d[j],
    decreases ts.len(),
{
    if ts.len() > 0 {
        let x = ts[0].0 + 1;
        let d1 = d.update(x, with_bit3(d[x], ts[0].1));
        let rest = ts.drop_first();
        assert forall|a: int, b: int|
            0 <= a < rest.len() && 0 <= b < rest.len() implies rest[a].0 + 1 != rest[b].0 && (
            rest[a].0 == rest[b].0 ==> rest[a].1 == rest[b].1) by {
            assert(rest[a] == ts[a + 1]);
            assert(rest[b] == ts[b + 1]);
        }
        assert forall|k: int| 0 <= k < rest.len() implies 0 <= rest[k].0 && rest[k].0 + 2
            <= d1.len() by {
            assert(rest[k] == ts[k + 1]);
        }
        lemma_apply_bits_at(d1, rest);
        assert(apply_bits(d, ts) == apply_bits(d1, rest));
        assert forall|k: int| 0 <= k < ts.len() implies apply_bits(d, ts)[#[trigger] ts[k].0 + 1]
            == with_bit3(d[ts[k].0 + 1], ts[k].1) by {
            if k == 0 {
                if exists|m: int| 0 <= m < rest.len() && rest[m].0 == ts[0].0 {
                    let m = choose|m: int| 0 <= m < rest.len() && rest[m].0 == ts[0].0;
                    assert(rest[m] == ts[m + 1]);
                    assert(ts[0].0 == ts[m + 1].0 ==> ts[0].1 == ts[m + 1].1);
                    assert(apply_bits(d1, rest)[rest[m].0 + 1] == with_bit3(
                        d1[rest[m].0 + 1],
                        rest[m].1,
                    ));
                    lemma_with_bit3_twice(d[x], ts[0].1);
                } else {
                    assert forall|m: int| 0 <= m < rest.len() implies #[trigger] rest[m].0 + 1
                        != x by {
                        assert(rest[m] == ts[m + 1]);
                    }
                    assert(apply_bits(d1, rest)[x] == d1[x]);
                }
            } else {
                assert(rest[k - 1] == ts[k]);
                assert(apply_bits(d1, rest)[rest[k - 1].0 + 1] == with_bit3(
                    d1[rest[k - 1].0 + 1],
                    rest[k - 1].1,
                ));
                assert(ts[0].0 + 1 != ts[k].0);
                assert(ts[k].0 + 1 != ts[0].0);
                if ts[k].0 == ts[0].0 {
                    assert(ts[k].1 == ts[0].1);
                    lemma_with_bit3_twice(d[x], ts[0].1);
                } else {
                    assert(d1[ts[k].0 + 1] == d[ts[k].0 + 1]);
                }
            }
        }
        assert forall|j: int|
            0 <= j < d.len() && (forall|k: int| 0 <= k < ts.len() ==> #[trigger] ts[k].0 + 1 != j)
                implies apply_bits(d, ts)[j] == d[j] by {
            assert(ts[0].0 + 1 != j);
            assert forall|m: int| 0 <= m < rest.len() implies #[trigger] rest[m].0 + 1 != j by {
                assert(rest[m] == ts[m + 1]);
            }
            assert(apply_bits(d1, rest)[j] == d1[j]);
        }
    }
}

/// Setting the bit of each field, each to the opposite of what it held, and
/// then flipping them all back gives the bytes one started from, provided no
/// field starts one byte after another and fields at one place agree on
/// their bit.
proof fn lemma_apply_bits_undo(d: Seq<u8>, ts: Seq<(int, bool)>)
    requires
        no_adjacent_targets(ts),
        targets_in(ts, d.len() as int),
        forall|k: int| 0 <= k < ts.len() ==> bit11_at(d, #[trigger] ts[k].0) != ts[k].1,
    ensures
        apply_bits(apply_bits(d, ts), negated(ts)) == d,
{
    let nts = negated(ts);
    let d2 = apply_bits(d, ts);
    lemma_apply_bits_at(d, ts);
    lemma_negated_no_adjacent(ts);
    lemma_apply_bits_at(d2, nts);
    let d3 = apply_bits(d2, nts);
    assert forall|j: int| 0 <= j < d.len() implies d3[j] == d[j] by {
        if exists|k: int| 0 <= k < ts.len() && ts[k].0 + 1 == j {
            let k = choose|k: int| 0 <= k < ts.len() && ts[k].0 + 1 == j;
            assert(nts[k].0 + 1 == j);
            assert(bit11_at(d, ts[k].0) != ts[k].1);
            lemma_with_bit3_undo(d[j], ts[k].1);
        } else {
            assert forall|k: int| 0 <= k < nts.len() implies #[trigger] nts[k].0 + 1 != j by {
                assert(ts[k].0 + 1 != j);
            }
        }
    }
    assert(d3 =~= d);
}

/// Whether byte `j` holds bit 11 of one of the fields `ts`: the high byte
/// of one of them.
pub open spec fn hits(ts: Seq<(int, bool)>, j: int) -> bool {
    exists|k: int| 0 <= k < ts.len() && j == ts[k].0 + 1
}

proof fn lemma_hits_concat(a: Seq<(int, bool)>, b: Seq<(int, bool)>, j: int)
    ensures
        hits(a + b, j) == (hits(a, j) || hits(b, j)),
{
    if hits(a, j) {
        let k = choose|k: int| 0 <= k < a.len() && j == a[k].0 + 1;
        assert((a + b)[k] == a[k]);
    }
    if hits(b, j) {
        let k = choose|k: int| 0 <= k < b.len() && j == b[k].0 + 1;
        assert((a + b)[a.len() + k] == b[k]);
    }
    if hits(a + b, j) {
        let k = choose|k: int| 0 <= k < (a + b).len() && j == (a + b)[k].0 + 1;
        if k < a.len() {
            assert((a + b)[k] == a[k]);
        } else {
            assert((a + b)[k] == b[k - a.len()]);
        }
    }
}

proof fn lemma_with_bit3_flips(v: u8, b: bool)
    by (bit_vector)
    ensures
        (v & 8u8 != 0) != b ==> (if b {
            v | 8u8
        } else {
            v & 0xF7u8
        }) != v,
{
}

/// A `toggle` replayed over the bytes a first `toggle` produced goes the same
/// way and targets the same fields with every bit flipped.
#[verifier::spinoff_prover]
#[verifier::rlimit(40)]
proof fn lemma_toggle_replay(
    s: Scan,
    s2: Scan,
    i: nat,
    n: nat,
    sel: Option<Set<usize>>,
    e: Seq<(int, bool)>,
    dd: Seq<u8>,
)
    requires
        walk(s, i, n, Mode::Toggle, sel) is Ok,
        s.pos >= 0,
        s2.pos == s.pos,
        s2.data.len() == s.data.len(),
        dd.len() == s.data.len(),
        no_adjacent_targets(walk_targets(s, i, n, Mode::Toggle, sel)),
        forall|j: int|
            #[trigger] hits(walk_targets(s, i, n, Mode::Toggle, sel), j) ==> !walk_frame(
                s,
                i,
                n,
                Mode::Toggle,
                sel,
                j,
            ),
        forall|j: int|
            0 <= j < s.data.len() && walk_frame(s, i, n, Mode::Toggle, sel, j) ==> s2.data[j]
                == s.data[j],
        e.len() % 2 == 0,
        cd_targets_apart(e + walk_targets(s, i, n, Mode::Toggle, sel)),
        forall|j: int| 0 <= j < s.data.len() && !hits(e, j) ==> s2.data[j] == dd[j],
        forall|k: int|
            0 <= k < walk_targets(s, i, n, Mode::Toggle, sel).len() ==> bit11_at(
                dd,
                #[trigger] walk_targets(s, i, n, Mode::Toggle, sel)[k].0,
            ) == walk_targets(s, i, n, Mode::Toggle, sel)[k].1,
    ensures
        walk(s2, i, n, Mode::Toggle, sel) is Ok,
        walk_targets(s2, i, n, Mode::Toggle, sel) == negated(
            walk_targets(s, i, n, Mode::Toggle, sel),
        ),
    decreases n - i,
{
    let mode = Mode::Toggle;
    let ts = walk_targets(s, i, n, mode, sel);
    if i >= n {
        assert(negated(ts) =~= Seq::<(int, bool)>::empty());
    } else {
        let u = entry_step(s, i, mode, sel)->Ok_0;
        let f = step_targets(s, i, mode, sel);
        let rest = walk_targets(u, i + 1, n, mode, sel);
        assert(ts == f + rest);
        lemma_step_effect(s, i, mode, sel);
        lemma_step_marks(s, i, mode, sel);
        assert forall|j: int| 0 <= j < s.data.len() && step_frame(s, i, mode, sel, j) implies s2.data[j]
            == s.data[j] by {
            assert(walk_frame(s, i, n, mode, sel, j));
        }
        lemma_step_congruent(s, s2, i, mode, sel);
        let u2 = entry_step(s2, i, mode, sel)->Ok_0;
        let f2 = step_targets(s2, i, mode, sel);
        lemma_step_effect(s2, i, mode, sel);
        let et = e + ts;
        // The replayed step flips the bits of the same fields: no earlier
        // field holds its bit 11 in the byte holding this entry's Central
        // Directory bit.
        if f.len() == 2 {
            let pos = s.pos;
            let c = e.len() as int;
            assert(f[0].0 == pos + 8);
            assert(et[c] == f[0]);
            assert forall|m: int| 0 <= m < e.len() implies pos + 9 != e[m].0 + 1 by {
                assert(et[m] == e[m]);
                assert(et[c].0 != et[m].0);
            }
            assert(!hits(e, pos + 9));
            assert(bit11_at(dd, f[0].0) == f[0].1) by {
                assert(ts[0] == f[0]);
            }
            lemma_bit11_at(s2.data, pos + 8);
            assert(f2 =~= negated(f));
        } else {
            assert(f2 =~= negated(f));
        }
        // Both steps change only the bytes holding the bits of their fields.
        assert forall|a: int, b: int|
            0 <= a < f.len() && 0 <= b < f.len() implies f[a].0 + 1 != f[b].0 && (f[a].0
            == f[b].0 ==> f[a].1 == f[b].1) by {
            assert(ts[a] == f[a]);
            assert(ts[b] == f[b]);
        }
        lemma_step_exact(s, i, mode, sel);
        lemma_apply_bits_at(s.data, f);
        lemma_negated_no_adjacent(f);
        lemma_step_exact(s2, i, mode, sel);
        lemma_apply_bits_at(s2.data, f2);
        // What remains meets the same conditions.
        let e2 = e + f2;
        assert forall|k: int| 0 <= k < (e2 + rest).len() implies (e2 + rest)[k].0 == et[k].0 by {
            if k < e.len() {
                assert((e2 + rest)[k] == e[k]);
                assert(et[k] == e[k]);
            } else if k < e.len() + f.len() {
                assert((e2 + rest)[k] == f2[k - e.len()]);
                assert(et[k] == ts[k - e.len()]);
                assert(ts[k - e.len()] == f[k - e.len()]);
            } else {
                assert((e2 + rest)[k] == rest[k - e.len() - f.len()]);
                assert(et[k] == ts[k - e.len()]);
                assert(ts[k - e.len()] == rest[k - e.len() - f.len()]);
            }
        }
        assert((e2 + rest).len() == et.len());
        assert(e2.len() % 2 == 0);
        assert(cd_targets_apart(e2 + rest)) by {
            assert forall|a: int, b: int|
                0 <= a < (e2 + rest).len() && 0 <= b < (e2 + rest).len() && a % 2 == 0 && a
                    != b implies (e2 + rest)[a].0 != (e2 + rest)[b].0 by {
                assert((e2 + rest)[a].0 == et[a].0);
                assert((e2 + rest)[b].0 == et[b].0);
            }
        }
        assert forall|a: int, b: int|
            0 <= a < rest.len() && 0 <= b < rest.len() implies rest[a].0 + 1 != rest[b].0 && (
            rest[a].0 == rest[b].0 ==> rest[a].1 == rest[b].1) by {
            assert(ts[f.len() + a] == rest[a]);
            assert(ts[f.len() + b] == rest[b]);
        }
        assert forall|j: int| #[trigger] hits(rest, j) implies !walk_frame(u, i + 1, n, mode, sel, j) by {
            lemma_hits_concat(f, rest, j);
            assert(hits(ts, j));
            assert(!walk_frame(s, i, n, mode, sel, j));
        }
        assert forall|j: int|
            0 <= j < u.data.len() && walk_frame(u, i + 1, n, mode, sel, j) implies u2.data[j]
                == u.data[j] by {
            assert(walk_frame(s, i, n, mode, sel, j));
            lemma_hits_concat(f, rest, j);
            if hits(f, j) {
                assert(hits(ts, j));
            }
            assert forall|k: int| 0 <= k < f.len() implies #[trigger] f[k].0 + 1 != j by {
                if f[k].0 + 1 == j {
                    assert(hits(f, j));
                }
            }
            assert forall|k: int| 0 <= k < f2.len() implies #[trigger] f2[k].0 + 1 != j by {
                assert(f2[k].0 == f[k].0);
            }
        }
        assert forall|j: int| 0 <= j < u.data.len() && !hits(e2, j) implies u2.data[j] == dd[j] by {
            lemma_hits_concat(e, f2, j);
            assert forall|k: int| 0 <= k < f2.len() implies #[trigger] f2[k].0 + 1 != j by {
                if f2[k].0 + 1 == j {
                    assert(hits(f2, j));
                }
            }
        }
        assert forall|k: int| 0 <= k < rest.len() implies bit11_at(dd, #[trigger] rest[k].0)
            == rest[k].1 by {
            assert(ts[f.len() + k] == rest[k]);
        }
        lemma_toggle_replay(u, u2, i + 1, n, sel, e2, dd);
        assert(walk_targets(s2, i, n, mode, sel) == f2 + walk_targets(u2, i + 1, n, mode, sel));
        assert(negated(ts) =~= negated(f) + negated(rest));
    }
}

/// A second `toggle` over what a first one produced gives back the bytes the
/// first started from, under the conditions of `law_toggle_twice`.
proof fn lemma_walk_toggle_twice(s0: Scan, s2: Scan, n: nat, sel: Option<Set<usize>>)
    requires
        walk(s0, 0, n, Mode::Toggle, sel) is Ok,
        s0.pos >= 0,
        forall|k: int|
            0 <= k < walk_targets(s0, 0, n, Mode::Toggle, sel).len() ==> bit11_at(
                s0.data,
                #[trigger] walk_targets(s0, 0, n, Mode::Toggle, sel)[k].0,
            ) != walk_targets(s0, 0, n, Mode::Toggle, sel)[k].1,
        s2.pos == s0.pos,
        s2.data == walk(s0, 0, n, Mode::Toggle, sel)->Ok_0.data,
        forall|j: int|
            0 <= j < s0.data.len() && s2.data[j] != s0.data[j] ==> !walk_frame(
                s0,
                0,
                n,
                Mode::Toggle,
                sel,
                j,
            ),
    ensures
        walk(s2, 0, n, Mode::Toggle, sel) is Ok,
        walk(s2, 0, n, Mode::Toggle, sel)->Ok_0.data == s0.data,
{
    let mode = Mode::Toggle;
    let ts = walk_targets(s0, 0, n, mode, sel);
    let d = s0.data;
    let d2 = s2.data;
    lemma_toggle_no_adjacent(s0, 0, n, sel);
    lemma_targets_apart(s0, 0, n, mode, sel);
    lemma_targets_marked(s0, 0, n, mode, sel);
    law_walk_frame(s0, 0, n, mode, sel);
    law_walk_targets(s0, 0, n, mode, sel);
    law_walk_exact(s0, 0, n, mode, sel);
    lemma_apply_bits_at(d, ts);
    // Every byte holding a targeted bit changes, so none is one the walk reads.
    assert forall|j: int| #[trigger] hits(ts, j) implies !walk_frame(s0, 0, n, mode, sel, j) by {
        let k = choose|k: int| 0 <= k < ts.len() && j == ts[k].0 + 1;
        lemma_bit11_at(d, ts[k].0);
        lemma_with_bit3_flips(d[j], ts[k].1);
        assert(d2[j] != d[j]);
    }
    let e = Seq::<(int, bool)>::empty();
    assert(e + ts =~= ts);
    lemma_toggle_replay(s0, s2, 0, n, sel, e, d2);
    lemma_negated_no_adjacent(ts);
    law_walk_exact(s2, 0, n, mode, sel);
    lemma_apply_bits_undo(d, ts);
}

/// Whether byte `j` is one that locating the Central Directory of `d` reads.
pub open spec fn locate_frame(d: Seq<u8>, j: int) -> bool {
    match eocd_result(d) {
        Ok(e) => cd_info_frame(d, e, j),
        Err(_) => false,
    }
}

/// Locating the Central Directory depends only on the bytes it reads.
pub proof fn lemma_locate_congruent(d: Seq<u8>, d2: Seq<u8>)
    requires
        locate_result(d) is Ok,
        d2.len() == d.len(),
        forall|j: int| 0 <= j < d.len() && locate_frame(d, j) ==> d2[j] == d[j],
    ensures
        locate_result(d2) == locate_result(d),
{
    reveal(locate_result);
    lemma_cd_info_congruent(d, d2);
}

/// Whether byte `j` is one that running `mode` with the selector `raw` on
/// `d` reads to find its way: to locate the Central Directory, or to walk it.
pub open spec fn run_reads(d: Seq<u8>, mode: Mode, raw: Option<Seq<char>>, j: int) -> bool {
    ||| locate_frame(d, j)
    ||| match locate_result(d) {
        Ok((total, cd_offset)) => match selection_for(mode, raw, total as nat) {
            Ok(sel) => walk_frame(start_scan(d, cd_offset), 0, total as nat, mode, sel, j),
            Err(_) => false,
        },
        Err(_) => false,
    }
}

/// Running `toggle` a second time, with the same selector, on the bytes a
/// first run produced gives back the bytes one started from — provided each
/// targeted Local File Header had the same bit 11 as its Central Directory
/// entry (so every targeted field held the opposite of its target), and no
/// byte the first run changed is one it read to find its way.
#[verifier::spinoff_prover]
pub proof fn law_toggle_twice(path: Seq<char>, d: Seq<u8>, raw: Option<Seq<char>>)
    requires
        process_result(path, d, Mode::Toggle, raw) is Ok,
        ({
            let total = locate_result(d)->Ok_0.0;
            let cd_offset = locate_result(d)->Ok_0.1;
            let sel = selection_for(Mode::Toggle, raw, total as nat)->Ok_0;
            let ts = walk_targets(start_scan(d, cd_offset), 0, total as nat, Mode::Toggle, sel);
            forall|k: int| 0 <= k < ts.len() ==> bit11_at(d, #[trigger] ts[k].0) != ts[k].1
        }),
        forall|j: int|
            0 <= j < d.len() && process_result(path, d, Mode::Toggle, raw)->Ok_0.0[j] != d[j]
                ==> !run_reads(d, Mode::Toggle, raw, j),
    ensures
        ({
            let d2 = process_result(path, d, Mode::Toggle, raw)->Ok_0.0;
            &&& process_result(path, d2, Mode::Toggle, raw) is Ok
            &&& process_result(path, d2, Mode::Toggle, raw)->Ok_0.0 == d
        }),
{
    reveal(locate_result);
    let total = locate_result(d)->Ok_0.0;
    let cd_offset = locate_result(d)->Ok_0.1;
    let sel = selection_for(Mode::Toggle, raw, total as nat)->Ok_0;
    let s0 = start_scan(d, cd_offset);
    let d2 = process_result(path, d, Mode::Toggle, raw)->Ok_0.0;
    lemma_cd_info_nonneg(d, eocd_result(d)->Ok_0);
    law_walk_frame(s0, 0, total as nat, Mode::Toggle, sel);
    assert forall|j: int| 0 <= j < d.len() && locate_frame(d, j) implies d2[j] == d[j] by {
        if d2[j] != d[j] {
            assert(!run_reads(d, Mode::Toggle, raw, j));
        }
    }
    lemma_locate_congruent(d, d2);
    assert forall|j: int| 0 <= j < d.len() && d2[j] != d[j] implies !walk_frame(
        s0,
        0,
        total as nat,
        Mode::Toggle,
        sel,
        j,
    ) by {
        assert(!run_reads(d, Mode::Toggle, raw, j));
    }
    lemma_walk_toggle_twice(s0, start_scan(d2, cd_offset), total as nat, sel);
}

/// What a successful run does to the bytes: their length stays; only bytes
/// of the flag fields it targets change (the Central Directory and Local File
/// Header flags of each selected entry, for an edit); for `set` and `clear`
/// no targeted field starts one byte after another, and, provided no
/// targeted field starts one byte after another and fields at one place
/// agree on their bit, each targeted field ends with its bit 11 (set for `set`, clear
/// for `clear`, flipped from the Central Directory bit for `toggle`) and the
/// bytes are exactly the given ones with those bits set; `status` and
/// `detail` change nothing; a run that reports no change leaves the bytes as
/// they were; and a run reports a change exactly when some targeted field
/// lacked its bit 11 in the bytes it was given.
pub proof fn law_process(path: Seq<char>, d: Seq<u8>, mode: Mode, raw: Option<Seq<char>>)
    requires
        process_result(path, d, mode, raw) is Ok,
    ensures
        ({
            let total = locate_result(d)->Ok_0.0;
            let cd_offset = locate_result(d)->Ok_0.1;
            let sel = selection_for(mode, raw, total as nat)->Ok_0;
            let ts = walk_targets(start_scan(d, cd_offset), 0, total as nat, mode, sel);
            let d2 = process_result(path, d, mode, raw)->Ok_0.0;
            let modified = process_result(path, d, mode, raw)->Ok_0.2;
            &&& d2.len() == d.len()
            &&& forall|j: int| 0 <= j < d.len() && !touches(ts, j) ==> d2[j] == d[j]
            &&& (mode == Mode::SetBit || mode == Mode::Clear) ==> no_adjacent_targets(ts)
            &&& no_adjacent_targets(ts) ==> forall|k: int|
                0 <= k < ts.len() ==> bit11_at(d2, #[trigger] ts[k].0) == ts[k].1
            &&& no_adjacent_targets(ts) ==> d2 == apply_bits(d, ts)
            &&& !edits(mode) ==> d2 == d && !modified
            &&& !modified ==> d2 == d
            &&& modified == some_target_differs(ts, d)
        }),
{
    reveal(locate_result);
    let total = locate_result(d)->Ok_0.0;
    let cd_offset = locate_result(d)->Ok_0.1;
    let sel = selection_for(mode, raw, total as nat)->Ok_0;
    let s0 = start_scan(d, cd_offset);
    lemma_cd_info_nonneg(d, eocd_result(d)->Ok_0);
    law_walk_frame(s0, 0, total as nat, mode, sel);
    law_walk_unmodified(s0, 0, total as nat, mode, sel);
    law_walk_change_needed(s0, 0, total as nat, mode, sel);
    if mode == Mode::SetBit || mode == Mode::Clear {
        lemma_set_clear_no_adjacent(s0, 0, total as nat, mode, sel);
    }
    if no_adjacent_targets(walk_targets(s0, 0, total as nat, mode, sel)) {
        law_walk_targets(s0, 0, total as nat, mode, sel);
        law_walk_exact(s0, 0, total as nat, mode, sel);
    }
}

/// A successful run's result, spelled out: the walk from the Central
/// Directory's start, its bytes, its report and whether it changed them.
proof fn lemma_process_unfold(path: Seq<char>, d: Seq<u8>, mode: Mode, raw: Option<Seq<char>>)
    requires
        process_result(path, d, mode, raw) is Ok,
    ensures
        ({
            let total = locate_result(d)->Ok_0.0;
            let cd_offset = locate_result(d)->Ok_0.1;
            let sel = selection_for(mode, raw, total as nat)->Ok_0;
            let t = walk(start_scan(d, cd_offset), 0, total as nat, mode, sel)->Ok_0;
            &&& locate_result(d) is Ok
            &&& selection_for(mode, raw, total as nat) is Ok
            &&& walk(start_scan(d, cd_offset), 0, total as nat, mode, sel) is Ok
            &&& process_result(path, d, mode, raw)->Ok_0 == (
                t.data,
                report_lines(
                    path,
                    mode,
                    sel is None,
                    total as nat,
                    selected_count(sel, total as nat),
                    t.set,
                    t.selected_set,
                    t.modified,
                    t.rows,
                ),
                t.modified,
            )
        }),
{
}

/// What an edit that changed nothing reports.
proof fn lemma_no_change_report(
    path: Seq<char>,
    mode: Mode,
    all: bool,
    total: nat,
    selected: nat,
)
    requires
        mode == Mode::SetBit || mode == Mode::Clear,
    ensures
        forall|set: nat, selected_set: nat, rows: Seq<Seq<char>>|
            #[trigger] report_lines(path, mode, all, total, selected, set, selected_set, false, rows)
                == if all {
                seq!["no change needed: '"@ + path + "' (already in the desired state)"@]
            } else {
                seq![
                    "no change needed: '"@ + path + "' ("@ + decimal(selected)
                        + " selected entries already in the desired state)"@,
                ]
            },
{
    assert forall|set: nat, selected_set: nat, rows: Seq<Seq<char>>|
        #[trigger] report_lines(path, mode, all, total, selected, set, selected_set, false, rows)
            == if all {
            seq!["no change needed: '"@ + path + "' (already in the desired state)"@]
        } else {
            seq![
                "no change needed: '"@ + path + "' ("@ + decimal(selected)
                    + " selected entries already in the desired state)"@,
            ]
        } by {
        reveal(report_lines);
    }
}

/// Running `set` or `clear` a second time, with the same selector, on the
/// bytes a first run produced succeeds, changes nothing and reports that no
/// change was needed — provided no byte the first run changed is one it read to find
/// its way.
#[verifier::spinoff_prover]
pub proof fn law_set_clear_idempotent(
    path: Seq<char>,
    d: Seq<u8>,
    mode: Mode,
    raw: Option<Seq<char>>,
)
    requires
        mode == Mode::SetBit || mode == Mode::Clear,
        process_result(path, d, mode, raw) is Ok,
        forall|j: int|
            0 <= j < d.len() && process_result(path, d, mode, raw)->Ok_0.0[j] != d[j]
                ==> !run_reads(d, mode, raw, j),
    ensures
        ({
            let d2 = process_result(path, d, mode, raw)->Ok_0.0;
            let total = locate_result(d)->Ok_0.0;
            let sel = selection_for(mode, raw, total as nat)->Ok_0;
            &&& process_result(path, d2, mode, raw) is Ok
            &&& process_result(path, d2, mode, raw)->Ok_0.0 == d2
            &&& !process_result(path, d2, mode, raw)->Ok_0.2
            &&& process_result(path, d2, mode, raw)->Ok_0.1 == if sel is None {
                seq!["no change needed: '"@ + path + "' (already in the desired state)"@]
            } else {
                seq![
                    "no change needed: '"@ + path + "' ("@ + decimal(
                        selected_count(sel, total as nat),
                    ) + " selected entries already in the desired state)"@,
                ]
            }
        }),
{
    reveal(locate_result);
    let total = locate_result(d)->Ok_0.0;
    let cd_offset = locate_result(d)->Ok_0.1;
    let sel = selection_for(mode, raw, total as nat)->Ok_0;
    let s0 = start_scan(d, cd_offset);
    let d2 = process_result(path, d, mode, raw)->Ok_0.0;
    lemma_cd_info_nonneg(d, eocd_result(d)->Ok_0);
    law_walk_frame(s0, 0, total as nat, mode, sel);
    assert forall|j: int| 0 <= j < d.len() && locate_frame(d, j) implies d2[j] == d[j] by {
        if d2[j] != d[j] {
            assert(!run_reads(d, mode, raw, j));
        }
    }
    lemma_locate_congruent(d, d2);
    assert forall|j: int|
        0 <= j < d.len() && walk_frame(s0, 0, total as nat, mode, sel, j) implies d2[j] == d[j] by {
        if d2[j] != d[j] {
            assert(!run_reads(d, mode, raw, j));
        }
    }
    let s2 = start_scan(d2, cd_offset);
    law_walk_idempotent(s0, s2, 0, total as nat, mode, sel);
    lemma_process_unfold(path, d2, mode, raw);
    lemma_no_change_report(path, mode, sel is None, total as nat, selected_count(sel, total as nat));
}

} // verus!
