//! How the encoders cut what has changed into runs.

use vstd::prelude::*;
use crate::anim::column::{
    column_changed, column_dirty, lemma_next_run, next_run, plane_dirty, repeats, same_end,
    skip_end, skip_ops, uniq_end, RunKind, RunRules,
};
use crate::anim::flat::{plane_bytes, plane_rows};
use crate::anim::lists::{lemma_table, list_pointer, lists_flat, packed, slot_of};
use crate::anim::op23::{
    change_end, lemma_change_end, op23_encoded, op23_list, op23_plane_list, word,
};
use crate::anim::op4::{op4_encoded, op4_lists, op4_rules};
use crate::anim::op5::{op5_encoded, op5_list, op5_rules};
use crate::anim::op7::{item_size, op7_encoded, op7_lists, op7_rules};
use crate::bitmap::{lemma_row_bounds, row_index, shaped};
use crate::bytes::{be16_bytes, be32};
use crate::ilbm::Bmhd;

verus! {

proof fn lemma_skip_whole(ch: Seq<bool>, j: int)
    requires
        0 <= j <= ch.len(),
    ensures
        ({
            let end = skip_end(ch, j);
            end == ch.len() || ch[end]
        }),
    decreases ch.len() - j,
{
    if j < ch.len() && !ch[j] {
        lemma_skip_whole(ch, j + 1);
    }
}

proof fn lemma_same_whole(ch: Seq<bool>, items: Seq<Seq<u8>>, i: int, j: int, most: int)
    requires
        0 <= i < j <= ch.len(),
        j - i <= most,
    ensures
        ({
            let end = same_end(ch, items, i, j, most);
            end == ch.len() || !ch[end] || end - i >= most || items[end] != items[i]
        }),
    decreases ch.len() - j,
{
    if j < ch.len() && ch[j] && j - i < most && items[j] == items[i] {
        lemma_same_whole(ch, items, i, j + 1, most);
    }
}

proof fn lemma_uniq_whole(
    ch: Seq<bool>,
    items: Seq<Seq<u8>>,
    i: int,
    j: int,
    same_min: int,
    most: int,
)
    requires
        0 <= i < j <= ch.len(),
        j - i <= most,
    ensures
        ({
            let end = uniq_end(ch, items, i, j, same_min, most);
            &&& end == ch.len() || !ch[end] || end - i >= most || repeats(ch, items, end, same_min)
            &&& forall|k: int| j <= k < end ==> !#[trigger] repeats(ch, items, k, same_min)
        }),
    decreases ch.len() - j,
{
    if j < ch.len() && ch[j] && j - i < most && !repeats(ch, items, j, same_min) {
        lemma_uniq_whole(ch, items, i, j + 1, same_min, most);
    }
}

/// Whether the items of the rows `from..to` have all changed and are all the same.
pub open spec fn all_same(ch: Seq<bool>, items: Seq<Seq<u8>>, from: int, to: int) -> bool {
    &&& to <= ch.len()
    &&& forall|k: int| from <= k < to ==> ch[k]
    &&& forall|k: int| from <= k < to ==> #[trigger] items[k] == items[from]
}

/// Whether a run of the given kind from row `i` to row `end` is the one to write: rows are
/// skipped as long as nothing changes; a repetition takes `least` equal changed items or more,
/// as many as there are up to `most`; other changed items are written as they are, up to `copy`
/// of them, up to where a repetition starts.
pub open spec fn cut_well(
    ch: Seq<bool>,
    items: Seq<Seq<u8>>,
    kind: RunKind,
    i: int,
    end: int,
    least: int,
    most: int,
    copy: int,
) -> bool {
    &&& i < end <= ch.len()
    &&& match kind {
        RunKind::Skip => {
            &&& forall|k: int| i <= k < end ==> !ch[k]
            &&& end == ch.len() || ch[end]
        },
        RunKind::Same => {
            &&& all_same(ch, items, i, end)
            &&& least <= end - i <= most
            &&& end == ch.len() || !ch[end] || end - i == most || items[end] != items[i]
        },
        RunKind::Uniq => {
            &&& forall|k: int| i <= k < end ==> ch[k]
            &&& end - i <= copy
            &&& forall|k: int| i <= k < end ==> !#[trigger] all_same(ch, items, k, k + least)
            &&& end == ch.len() || !ch[end] || end - i == copy || all_same(
                ch,
                items,
                end,
                end + least,
            )
        },
    }
}

proof fn lemma_cut_well(ch: Seq<bool>, items: Seq<Seq<u8>>, rules: RunRules, i: int)
    requires
        rules.valid(),
        2 <= rules.same_min <= rules.same_max,
        1 <= rules.uniq_max,
        0 <= i < ch.len(),
    ensures
        cut_well(
            ch,
            items,
            next_run(ch, items, rules, i).0,
            i,
            next_run(ch, items, rules, i).1,
            rules.same_min as int,
            rules.same_max as int,
            rules.uniq_max as int,
        ),
{
    lemma_next_run(ch, items, rules, i);
    let (kind, end) = next_run(ch, items, rules, i);
    let least = rules.same_min as int;
    if !ch[i] {
        lemma_skip_whole(ch, i);
    } else {
        lemma_same_whole(ch, items, i, i + 1, rules.same_max as int);
        lemma_uniq_whole(ch, items, i, i + 1, least, rules.uniq_max as int);
        assert forall|k: int| 0 <= k < ch.len() implies #[trigger] all_same(
            ch,
            items,
            k,
            k + least,
        ) == repeats(ch, items, k, least) by {}
        if kind == RunKind::Uniq {
            assert forall|k: int| i <= k < end implies !#[trigger] all_same(
                ch,
                items,
                k,
                k + least,
            ) by {
                if k == i && all_same(ch, items, i, i + least) {
                    let same = same_end(ch, items, i, i + 1, rules.same_max as int);
                    lemma_same_far(ch, items, i, i + 1, i + least, rules.same_max as int);
                    assert(same >= i + least);
                } else if k > i {
                    assert(!repeats(ch, items, k, least));
                }
            }
        }
    }
}

proof fn lemma_same_far(
    ch: Seq<bool>,
    items: Seq<Seq<u8>>,
    i: int,
    j: int,
    to: int,
    most: int,
)
    requires
        0 <= i < j <= to <= ch.len(),
        to - i <= most,
        all_same(ch, items, i, to),
    ensures
        same_end(ch, items, i, j, most) >= to,
    decreases to - j,
{
    if j < to {
        assert(items[j] == items[i]);
        lemma_same_far(ch, items, i, j + 1, to, most);
    } else {
        lemma_same_grows(ch, items, i, j, most);
    }
}

proof fn lemma_same_grows(ch: Seq<bool>, items: Seq<Seq<u8>>, i: int, j: int, most: int)
    ensures
        same_end(ch, items, i, j, most) >= j,
    decreases ch.len() - j,
{
    if j < ch.len() && ch[j] && j - i < most && items[j] == items[i] {
        lemma_same_grows(ch, items, i, j + 1, most);
    }
}

/// Operation 5 repeats a byte from three equal ones on, up to 255 at once, and copies up to 127.
pub proof fn law_op5_cut(ch: Seq<bool>, items: Seq<Seq<u8>>, i: int)
    requires
        0 <= i < ch.len(),
    ensures
        cut_well(
            ch,
            items,
            next_run(ch, items, op5_rules(), i).0,
            i,
            next_run(ch, items, op5_rules(), i).1,
            3,
            255,
            127,
        ),
{
    lemma_cut_well(ch, items, op5_rules(), i);
}

/// Operation 7 repeats an item from two equal ones on, up to 255 at once, and copies up to 127.
pub proof fn law_op7_cut(ch: Seq<bool>, items: Seq<Seq<u8>>, i: int)
    requires
        0 <= i < ch.len(),
    ensures
        cut_well(
            ch,
            items,
            next_run(ch, items, op7_rules(), i).0,
            i,
            next_run(ch, items, op7_rules(), i).1,
            2,
            255,
            127,
        ),
{
    lemma_cut_well(ch, items, op7_rules(), i);
}

/// Operation 4 repeats a word from two equal ones on, as many as a column can hold, and copies
/// up to 32767.
pub proof fn law_op4_cut(ch: Seq<bool>, items: Seq<Seq<u8>>, i: int)
    requires
        0 <= i < ch.len(),
        ch.len() <= 0xFFFF,
    ensures
        cut_well(
            ch,
            items,
            next_run(ch, items, op4_rules(), i).0,
            i,
            next_run(ch, items, op4_rules(), i).1,
            2,
            0x1_0000,
            0x7FFF,
        ),
{
    lemma_cut_well(ch, items, op4_rules(), i);
}

/// Rows are skipped 127 at a time, and what is left at the end.
pub proof fn law_skip_ops(n: int)
    requires
        n > 0,
    ensures
        ({
            let ops = skip_ops(n);
            let last = ops.len() - 1;
            &&& last >= 0
            &&& forall|k: int| 0 <= k < last ==> #[trigger] ops[k] == 127
            &&& 1 <= ops[last] <= 127
            &&& ops[last] == n - 127 * last
        }),
    decreases n,
{
    if n > 0x7F {
        law_skip_ops(n - 0x7F);
        let rest = skip_ops(n - 0x7F);
        let ops = skip_ops(n);
        assert(ops =~= seq![0x7Fu8] + rest);
        assert forall|k: int| 0 <= k < ops.len() - 1 implies #[trigger] ops[k] == 127 by {
            if k > 0 {
                assert(ops[k] == rest[k - 1]);
            }
        }
    }
}

/// Whether the words `from..to` of a plane have all changed.
pub open spec fn all_changed(
    prev: Seq<u8>,
    cur: Seq<u8>,
    size: int,
    from: int,
    to: int,
) -> bool {
    forall|k: int|
        from <= k < to ==> prev.subrange(k * size, k * size + size) != #[trigger] cur.subrange(
            k * size,
            k * size + size,
        )
}

proof fn lemma_changed_up_to(
    prev: Seq<u8>,
    cur: Seq<u8>,
    size: int,
    words: int,
    j: int,
    end: int,
)
    requires
        j <= end <= words,
        all_changed(prev, cur, size, j, end),
        end < words ==> prev.subrange(end * size, end * size + size) == cur.subrange(
            end * size,
            end * size + size,
        ),
    ensures
        change_end(prev, cur, size, words, j) == end,
    decreases end - j,
{
    if j < end {
        assert(cur.subrange(j * size, j * size + size) == word(cur, size, j));
        lemma_changed_up_to(prev, cur, size, words, j + 1, end);
    } else if j < words {
        assert(word(prev, size, j) == word(cur, size, j));
    }
}

/// The next change of a plane is written by how far it lies behind the cursor. Two changed words
/// or more in a row are written together, up to 65535 of them, behind the difference of their
/// distance and two to 65536, and one alone behind its distance. A change more than 32767 words
/// away is reached over the unchanged word that far on, which is written again.
pub proof fn law_op23_cut(
    prev: Seq<u8>,
    cur: Seq<u8>,
    size: int,
    words: int,
    i: int,
    w: int,
    end: int,
)
    requires
        size == 2 || size == 4,
        prev.len() == cur.len() == words * size,
        0 <= w <= i < end <= words,
        all_changed(prev, cur, size, i, end),
        end < words ==> prev.subrange(end * size, end * size + size) == cur.subrange(
            end * size,
            end * size + size,
        ),
    ensures
        ({
            let list = op23_list(prev, cur, size, words, i, w);
            let run = end - i;
            let count = if run > 65535 {
                65535
            } else {
                run
            };
            &&& i - w > 32767 ==> list == be16_bytes(32767) + cur.subrange(
                (w + 32767) * size,
                (w + 32767) * size + size,
            ) + op23_list(prev, cur, size, words, i, w + 32767)
            &&& run >= 2 && i - w <= 32766 ==> list == be16_bytes((65534 - (i - w)) as u16)
                + be16_bytes(count as u16) + cur.subrange(i * size, (i + count) * size)
                + op23_list(prev, cur, size, words, i + count, i + count - 1)
            &&& i - w <= 32767 && !(run >= 2 && i - w <= 32766) ==> list == be16_bytes(
                (i - w) as u16,
            ) + cur.subrange(i * size, i * size + size) + op23_list(
                prev,
                cur,
                size,
                words,
                i + 1,
                i,
            )
        }),
{
    lemma_changed_up_to(prev, cur, size, words, i, end);
    assert(cur.subrange(i * size, i * size + size) == word(cur, size, i));
    assert(word(prev, size, i) != word(cur, size, i));
    lemma_change_end(prev, cur, size, words, i);
}

/// Unchanged words take no group, and the list ends with the largest offset.
pub proof fn law_op23_unchanged(
    prev: Seq<u8>,
    cur: Seq<u8>,
    size: int,
    words: int,
    i: int,
    w: int,
)
    requires
        0 <= i,
    ensures
        i < words && prev.subrange(i * size, i * size + size) == cur.subrange(
            i * size,
            i * size + size,
        ) ==> op23_list(prev, cur, size, words, i, w) == op23_list(
            prev,
            cur,
            size,
            words,
            i + 1,
            w,
        ),
        i >= words ==> op23_list(prev, cur, size, words, i, w) == seq![0xFFu8, 0xFFu8],
{
    assert(be16_bytes(0xFFFF) =~= seq![0xFFu8, 0xFFu8]);
    if i < words && prev.subrange(i * size, i * size + size) == cur.subrange(
        i * size,
        i * size + size,
    ) {
        assert(word(prev, size, i) == word(cur, size, i));
    }
}

/// Whether a plane is the same in both bitmaps.
pub open spec fn plane_same(prev: Seq<Seq<u8>>, cur: Seq<Seq<u8>>, b: Bmhd, p: int) -> bool {
    forall|y: int|
        0 <= y < b.height ==> prev[y * b.rows_per_line() + p] == #[trigger] cur[y
            * b.rows_per_line() + p]
}

proof fn lemma_same_clean(prev: Seq<Seq<u8>>, cur: Seq<Seq<u8>>, b: Bmhd, p: int, size: int)
    requires
        shaped(prev, b),
        shaped(cur, b),
        0 <= p < b.n_planes,
        0 < size,
        plane_same(prev, cur, b, p),
    ensures
        !plane_dirty(prev, cur, b, p, size),
        plane_bytes(prev, b, p) == plane_bytes(cur, b, p),
{
    assert forall|y: int| 0 <= y < b.height implies prev[row_index(b, y, p)] == cur[row_index(
        b,
        y,
        p,
    )] && prev[row_index(b, y, p)].len() == b.row_len() by {
        lemma_row_bounds(b, y, p);
        assert(cur[y * b.rows_per_line() + p] == prev[y * b.rows_per_line() + p]);
    }
    if plane_dirty(prev, cur, b, p, size) {
        let at = choose|at: int|
            0 <= at && at + size <= b.row_len() && at % size == 0 && column_dirty(
                #[trigger] column_changed(prev, cur, b, p, at, size),
            );
        let ch = column_changed(prev, cur, b, p, at, size);
        let y = choose|y: int| 0 <= y < ch.len() && ch[y];
        assert(prev[row_index(b, y, p)] == cur[row_index(b, y, p)]);
    }
    assert(plane_rows(prev, b, p) =~= plane_rows(cur, b, p));
}

/// A plane that is the same in both bitmaps has no pointer.
pub proof fn law_unchanged_plane(
    prev: Seq<Seq<u8>>,
    cur: Seq<Seq<u8>>,
    b: Bmhd,
    long_data: bool,
    p: int,
)
    requires
        shaped(prev, b),
        shaped(cur, b),
        0 <= p < b.n_planes <= 8,
        plane_same(prev, cur, b, p),
    ensures
        op5_encoded(prev, cur, b) matches Ok(d) ==> be32(d, 4 * p) == 0,
        op23_encoded(prev, cur, b, long_data) matches Ok(d) ==> be32(d, 4 * p) == 0,
        op4_encoded(prev, cur, b, long_data) matches Ok(d) ==> be32(d, 4 * p) == 0 && be32(
            d,
            32 + 4 * p,
        ) == 0,
        op7_encoded(prev, cur, b, long_data) matches Ok(d) ==> be32(d, 4 * p) == 0 && be32(
            d,
            32 + 4 * p,
        ) == 0,
{
    let size = item_size(long_data) as int;
    lemma_same_clean(prev, cur, b, p, 1);
    lemma_same_clean(prev, cur, b, p, size);
    lemma_empty_list(Seq::new(8, |s: int| op5_list(prev, cur, b, s)), 1, false, p);
    lemma_empty_list(Seq::new(8, |s: int| op23_plane_list(prev, cur, b, size, s)), 1, false, p);
    lemma_empty_list(op4_lists(prev, cur, b, size), 2, true, p);
    lemma_empty_list(op4_lists(prev, cur, b, size), 2, true, 8 + p);
    lemma_empty_list(op7_lists(prev, cur, b, size), 1, false, p);
    lemma_empty_list(op7_lists(prev, cur, b, size), 1, false, 8 + p);
}

proof fn lemma_empty_list(lists: Seq<Seq<u8>>, unit: int, swap: bool, j: int)
    requires
        0 <= j < lists.len(),
        lists.len() % 2 == 0,
        lists[j].len() == 0,
    ensures
        be32(packed(lists, unit, swap), 4 * slot_of(lists.len() as int, swap, j)) == 0,
{
    let n = lists.len() as int;
    let ptrs = Seq::new(lists.len(), |s: int| list_pointer(lists, unit, slot_of(n, swap, s)));
    lemma_table(ptrs, lists_flat(lists, n), slot_of(n, swap, j));
    assert(slot_of(n, swap, slot_of(n, swap, j)) == j);
}

} // verus!
