//! Payloads that open with a table of pointers to lists.

use vstd::prelude::*;
use crate::bytes::{be32, be32_bytes, push_all};

verus! {

/// The pointers of a table, big-endian, one after another.
pub open spec fn table(ptrs: Seq<u32>) -> Seq<u8> {
    Seq::new(4 * ptrs.len(), |i: int| be32_bytes(ptrs[i / 4])[i % 4])
}

/// Bytes taken by the first `n` lists.
pub open spec fn lists_len(lists: Seq<Seq<u8>>, n: int) -> int
    decreases n,
{
    if n <= 0 {
        0
    } else {
        lists_len(lists, n - 1) + lists[n - 1].len()
    }
}

/// The first `n` lists one after another.
pub open spec fn lists_flat(lists: Seq<Seq<u8>>, n: int) -> Seq<u8>
    decreases n,
{
    if n <= 0 {
        Seq::empty()
    } else {
        lists_flat(lists, n - 1) + lists[n - 1]
    }
}

/// Offset of list `j` behind a table with one slot per list.
pub open spec fn list_offset(lists: Seq<Seq<u8>>, j: int) -> int {
    4 * lists.len() + lists_len(lists, j)
}

/// The pointer to list `j`, in units of `unit` bytes; zero where the list is empty.
pub open spec fn list_pointer(lists: Seq<Seq<u8>>, unit: int, j: int) -> u32 {
    if lists[j].len() == 0 {
        0
    } else {
        (list_offset(lists, j) / unit) as u32
    }
}

/// The table slot of list `j`, and the list of slot `j`: lists and slots are
/// either in the same order or have their halves exchanged.
pub open spec fn slot_of(n: int, swap: bool, j: int) -> int {
    if !swap {
        j
    } else if j < n / 2 {
        j + n / 2
    } else {
        j - n / 2
    }
}

/// A payload: the pointer table, then the lists.
pub open spec fn packed(lists: Seq<Seq<u8>>, unit: int, swap: bool) -> Seq<u8> {
    table(
        Seq::new(
            lists.len(),
            |s: int| list_pointer(lists, unit, slot_of(lists.len() as int, swap, s)),
        ),
    ) + lists_flat(lists, lists.len() as int)
}

/// A pointer is read back from its slot.
pub proof fn lemma_table(ptrs: Seq<u32>, rest: Seq<u8>, s: int)
    requires
        0 <= s < ptrs.len(),
    ensures
        be32(table(ptrs) + rest, 4 * s) == ptrs[s],
        table(ptrs).len() == 4 * ptrs.len(),
{
    let d = table(ptrs) + rest;
    let b = be32_bytes(ptrs[s]);
    assert(d[4 * s] == b[0] && d[4 * s + 1] == b[1] && d[4 * s + 2] == b[2] && d[4 * s + 3] == b[3]);
}

/// Where a list lies among the lists before it.
pub proof fn lemma_flat(lists: Seq<Seq<u8>>, n: int, j: int)
    requires
        0 <= j < n <= lists.len(),
    ensures
        0 <= lists_len(lists, j),
        lists_len(lists, j) + lists[j].len() <= lists_len(lists, n),
        lists_flat(lists, n).len() == lists_len(lists, n),
        lists_flat(lists, n).subrange(
            lists_len(lists, j),
            lists_len(lists, j) + lists[j].len(),
        ) == lists[j],
    decreases n,
{
    lemma_flat_total(lists, n - 1);
    lemma_flat_total(lists, j);
    let lo = lists_len(lists, j);
    let hi = lo + lists[j].len();
    if j < n - 1 {
        lemma_flat(lists, n - 1, j);
        assert(lists_flat(lists, n).subrange(lo, hi) =~= lists_flat(lists, n - 1).subrange(lo, hi));
    } else {
        assert(lists_flat(lists, n).subrange(lo, hi) =~= lists[j]);
    }
}

/// The lists take the sum of their lengths.
pub proof fn lemma_flat_total(lists: Seq<Seq<u8>>, n: int)
    requires
        0 <= n <= lists.len(),
    ensures
        lists_flat(lists, n).len() == lists_len(lists, n),
        0 <= lists_len(lists, n),
    decreases n,
{
    if n > 0 {
        lemma_flat_total(lists, n - 1);
    }
}

/// Whether the offset of every list that is pointed to fits its pointer.
pub open spec fn pointers_fit(lists: Seq<Seq<u8>>, unit: int) -> bool {
    forall|j: int|
        0 <= j < lists.len() && (#[trigger] lists[j]).len() > 0 ==> list_offset(lists, j) / unit
            <= u32::MAX
}

/// In a payload that is short enough all pointers fit.
pub proof fn lemma_pointers_fit(lists: Seq<Seq<u8>>, unit: int, swap: bool)
    requires
        unit == 1 || unit == 2,
        packed(lists, unit, swap).len() <= unit * u32::MAX,
    ensures
        pointers_fit(lists, unit),
{
    let n = lists.len() as int;
    lemma_flat_total(lists, n);
    assert forall|j: int| 0 <= j < n && (#[trigger] lists[j]).len() > 0 implies list_offset(
        lists,
        j,
    ) / unit <= u32::MAX by {
        lemma_flat(lists, n, j);
    }
}

/// Following a pointer of a payload leads to the list it was made for.
pub proof fn lemma_packed(lists: Seq<Seq<u8>>, unit: int, swap: bool, j: int)
    requires
        0 <= j < lists.len(),
        lists.len() % 2 == 0,
        unit == 1 || unit == 2,
        pointers_fit(lists, unit),
    ensures
        packed(lists, unit, swap).len() == 4 * lists.len() + lists_len(
            lists,
            lists.len() as int,
        ),
        be32(packed(lists, unit, swap), 4 * slot_of(lists.len() as int, swap, j))
            == if lists[j].len() == 0 {
            0
        } else {
            list_offset(lists, j) / unit
        },
        4 * lists.len() <= list_offset(lists, j),
        list_offset(lists, j) + lists[j].len() <= packed(lists, unit, swap).len(),
        packed(lists, unit, swap).subrange(
            list_offset(lists, j),
            list_offset(lists, j) + lists[j].len(),
        ) == lists[j],
{
    let n = lists.len() as int;
    let ptrs = Seq::new(lists.len(), |s: int| list_pointer(lists, unit, slot_of(n, swap, s)));
    let flat = lists_flat(lists, n);
    let s = slot_of(n, swap, j);
    lemma_table(ptrs, flat, s);
    lemma_flat(lists, n, j);
    assert(slot_of(n, swap, s) == j);
    let lo = list_offset(lists, j);
    assert(packed(lists, unit, swap).subrange(lo, lo + lists[j].len()) =~= flat.subrange(
        lists_len(lists, j),
        lists_len(lists, j) + lists[j].len(),
    ));
}

/// Writes a pointer into its slot.
fn put_pointer(out: &mut Vec<u8>, s: usize, x: u32)
    requires
        4 * s + 4 <= old(out)@.len(),
    ensures
        final(out)@.len() == old(out)@.len(),
        forall|i: int|
            0 <= i < old(out)@.len() ==> final(out)@[i] == if 4 * s <= i < 4 * s + 4 {
                be32_bytes(x)[i - 4 * s]
            } else {
                old(out)@[i]
            },
{
    let total: usize = out.len();
    out.set(4 * s, (x / 0x100_0000) as u8);
    out.set(4 * s + 1, ((x / 0x1_0000) % 0x100) as u8);
    out.set(4 * s + 2, ((x / 0x100) % 0x100) as u8);
    out.set(4 * s + 3, (x % 0x100) as u8);
}

/// The bytes of every list.
pub open spec fn list_views(v: Seq<Vec<u8>>) -> Seq<Seq<u8>> {
    Seq::new(v.len(), |i: int| v[i]@)
}

/// Lays out lists behind their pointer table.
pub fn pack_lists(lists: &Vec<Vec<u8>>, unit: usize, swap: bool) -> (out: Vec<u8>)
    requires
        lists@.len() == 8 || lists@.len() == 16,
        unit == 1 || unit == 2,
    ensures
        out@ == packed(list_views(lists@), unit as int, swap),
{
    let n: usize = lists.len();
    let ghost views = list_views(lists@);
    let ghost full = Seq::new(
        views.len(),
        |s: int| list_pointer(views, unit as int, slot_of(n as int, swap, s)),
    );
    let mut out: Vec<u8> = Vec::new();
    let mut z: usize = 0;
    while z < 4 * n
        invariant
            n <= 16,
            z <= 4 * n,
            out@.len() == z,
            forall|i: int| 0 <= i < z ==> out@[i] == 0,
        decreases 4 * n - z,
    {
        out.push(0);
        z += 1;
    }
    let ghost mut ptrs = Seq::new(n as nat, |s: int| 0u32);
    assert(out@ =~= table(ptrs) + lists_flat(views, 0));
    let mut j: usize = 0;
    while j < n
        invariant
            n == lists@.len(),
            n == 8 || n == 16,
            unit == 1 || unit == 2,
            views == list_views(lists@),
            full == Seq::new(
                views.len(),
                |s: int| list_pointer(views, unit as int, slot_of(n as int, swap, s)),
            ),
            j <= n,
            ptrs.len() == n,
            forall|s: int|
                0 <= s < n ==> #[trigger] ptrs[s] == if slot_of(n as int, swap, s) < j {
                    full[s]
                } else {
                    0
                },
            out@ == table(ptrs) + lists_flat(views, j as int),
        decreases n - j,
    {
        let list = &lists[j];
        proof {
            lemma_flat_total(views, j as int);
        }
        let ghost before = out@;
        let ghost old_ptrs = ptrs;
        if list.len() != 0 {
            let s: usize = if !swap {
                j
            } else if j < n / 2 {
                j + n / 2
            } else {
                j - n / 2
            };
            assert(s == slot_of(n as int, swap, j as int));
            let x: u32 = (out.len() / unit) as u32;
            put_pointer(&mut out, s, x);
            proof {
                ptrs = ptrs.update(s as int, x);
                assert(x == full[s as int]);
                assert(out@ =~= table(ptrs) + lists_flat(views, j as int)) by {
                    assert forall|i: int| 0 <= i < out@.len() implies out@[i] == (table(ptrs)
                        + lists_flat(views, j as int))[i] by {
                        if i < 4 * n && i / 4 != s {
                            assert(ptrs[i / 4] == old_ptrs[i / 4]);
                        }
                        assert(before[i] == (table(old_ptrs) + lists_flat(views, j as int))[i]);
                    }
                }
            }
            push_all(&mut out, list.as_slice());
        }
        proof {
            assert forall|s: int| 0 <= s < n implies #[trigger] ptrs[s] == if slot_of(
                n as int,
                swap,
                s,
            ) < j + 1 {
                full[s]
            } else {
                0
            } by {
                assert(old_ptrs[s] == if slot_of(n as int, swap, s) < j {
                    full[s]
                } else {
                    0
                });
                if slot_of(n as int, swap, s) == j {
                    assert(s == slot_of(n as int, swap, j as int));
                }
            }
            assert(out@ =~= table(ptrs) + lists_flat(views, j + 1));
        }
        j += 1;
    }
    assert(ptrs =~= full);
    out
}

} // verus!
