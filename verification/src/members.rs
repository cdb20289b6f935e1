//! Which members a group has, read off its chunks.

use vstd::prelude::*;
use crate::bytes::{be32, id_at};
use crate::chunk::{
    after_chunk, child_at, children_read, classified, framed, group_children, has_group, has_prop,
    legal, lemma_framed, size_at, top_group, Child, GroupKind, ReservedId, FILLER_ID, GROUP_CAT,
    GROUP_FORM, GROUP_LIST, PROP_ID,
};
use crate::error::IffError;

verus! {

/// Whether chunks follow each other from `at` on, each with its header and its body, up to the
/// end of the data. A chunk of odd size is followed by a byte that does not count, which may be
/// missing at the end.
pub open spec fn chunks_whole(d: Seq<u8>, at: int) -> bool
    decreases d.len() + 1 - at,
{
    at < d.len() ==> {
        let size = be32(d, at + 4) as int;
        &&& at + 8 + size <= d.len()
        &&& chunks_whole(d, at + 8 + size + size % 2)
    }
}

/// Whether the chunk at `at` can be a member: shared properties or a group, with a type.
pub open spec fn can_be_member(d: Seq<u8>, at: int) -> bool {
    let id = id_at(d, at);
    &&& id == PROP_ID || id == GROUP_FORM || id == GROUP_LIST || id == GROUP_CAT
    &&& be32(d, at + 4) >= 4
}

/// The member that the chunk at `at` is: its type, and the bytes behind it.
pub open spec fn member_at(d: Seq<u8>, at: int) -> Child {
    let id = id_at(d, at);
    let inner_type = id_at(d, at + 8);
    let body = d.subrange(at + 12, at + 8 + be32(d, at + 4));
    if id == PROP_ID {
        Child::Prop { form_type: inner_type, body }
    } else if id == GROUP_FORM {
        Child::Group { kind: GroupKind::Form, inner_type, body }
    } else if id == GROUP_LIST {
        Child::Group { kind: GroupKind::List, inner_type, body }
    } else {
        Child::Group { kind: GroupKind::Cat, inner_type, body }
    }
}

/// Where the chunks from `at` on start that are no fillers.
pub open spec fn member_starts(d: Seq<u8>, at: int) -> Seq<int>
    decreases d.len() + 1 - at,
{
    let size = be32(d, at + 4) as int;
    if at + 8 + size > d.len() {
        Seq::empty()
    } else {
        (if id_at(d, at) == FILLER_ID {
            Seq::empty()
        } else {
            seq![at]
        }) + member_starts(d, at + 8 + size + size % 2)
    }
}

/// The members that the chunks from `at` on are.
pub open spec fn members_from(d: Seq<u8>, at: int) -> Seq<Child> {
    member_starts(d, at).map_values(|s: int| member_at(d, s))
}

/// Whether all chunks from `at` on but fillers can be members.
pub open spec fn all_members(d: Seq<u8>, at: int) -> bool {
    forall|k: int|
        0 <= k < member_starts(d, at).len() ==> can_be_member(d, #[trigger] member_starts(d, at)[k])
}

proof fn lemma_ids_differ()
    ensures
        PROP_ID != FILLER_ID,
        GROUP_FORM != FILLER_ID,
        GROUP_LIST != FILLER_ID,
        GROUP_CAT != FILLER_ID,
        GROUP_FORM != PROP_ID,
        GROUP_LIST != PROP_ID,
        GROUP_CAT != PROP_ID,
{
    assert(PROP_ID[0] != FILLER_ID[0]);
    assert(GROUP_FORM[0] != FILLER_ID[0]);
    assert(GROUP_LIST[0] != FILLER_ID[0]);
    assert(GROUP_CAT[0] != FILLER_ID[0]);
    assert(GROUP_FORM[0] != PROP_ID[0]);
    assert(GROUP_LIST[0] != PROP_ID[0]);
    assert(GROUP_CAT[0] != PROP_ID[0]);
}

/// A list is no longer legal once it has begun in a way that is not.
proof fn lemma_legal_prefix(kind: GroupKind, kids: Seq<Child>, more: Seq<Child>)
    requires
        legal(kind, kids + more),
    ensures
        legal(kind, kids),
{
    let all = kids + more;
    assert forall|i: int, j: int|
        0 <= i < j < kids.len() && #[trigger] kids[i] is Group implies #[trigger] kids[j] is Group by {
        assert(all[i] == kids[i] && all[j] == kids[j]);
    }
    assert forall|i: int, j: int|
        0 <= i < j < kids.len() && #[trigger] kids[i] is Prop && #[trigger] kids[j] is Prop implies
        kids[i].subtype() != kids[j].subtype() by {
        assert(all[i] == kids[i] && all[j] == kids[j]);
    }
    assert forall|i: int| 0 <= i < kids.len() && #[trigger] kids[i] is Prop implies kind
        == GroupKind::List by {
        assert(all[i] == kids[i]);
    }
}

/// One more member keeps the list legal exactly where it is accepted.
proof fn lemma_member_accepted(kind: GroupKind, d: Seq<u8>, at: int, kids: Seq<Child>)
    requires
        legal(kind, kids),
        id_at(d, at) != FILLER_ID,
    ensures
        child_at(kind, d, at, kids) is Ok <==> can_be_member(d, at) && legal(
            kind,
            kids.push(member_at(d, at)),
        ),
        child_at(kind, d, at, kids) is Ok ==> child_at(kind, d, at, kids) == Ok::<
            Option<Child>,
            IffError,
        >(Some(member_at(d, at))),
{
    lemma_ids_differ();
    let kid = member_at(d, at);
    let all = kids.push(kid);
    let n = kids.len() as int;
    assert(all[n] == kid);
    assert(forall|i: int| 0 <= i < n ==> all[i] == #[trigger] kids[i]);
    if can_be_member(d, at) {
        if child_at(kind, d, at, kids) is Ok {
            assert forall|i: int, j: int|
                0 <= i < j < all.len() && #[trigger] all[i] is Group implies #[trigger] all[j] is Group by {
                if j < n {
                    assert(kids[i] is Group && kids[j] == all[j]);
                } else if kid is Prop {
                    assert(kids[i] is Group);
                    assert(has_group(kids));
                }
            }
            assert forall|i: int, j: int|
                0 <= i < j < all.len() && #[trigger] all[i] is Prop && #[trigger] all[j] is Prop implies
                all[i].subtype() != all[j].subtype() by {
                if j < n {
                    assert(kids[i] == all[i] && kids[j] == all[j]);
                } else {
                    assert(kids[i] == all[i]);
                    if kids[i].subtype() == kid.subtype() {
                        assert(has_prop(kids, kid.subtype()));
                    }
                }
            }
            assert(legal(kind, all));
        } else {
            assert(kid is Prop);
            if legal(kind, all) {
                if has_group(kids) {
                    let i = choose|i: int| 0 <= i < n && #[trigger] kids[i] is Group;
                    assert(all[i] is Group && all[n] is Prop);
                } else if has_prop(kids, kid.subtype()) {
                    let i = choose|i: int|
                        0 <= i < n && #[trigger] kids[i] is Prop && kids[i].subtype()
                            == kid.subtype();
                    assert(all[i] is Prop && all[n] is Prop);
                }
                assert(all[n] is Prop);
            }
        }
    }
}

proof fn lemma_members_read(kind: GroupKind, d: Seq<u8>, at: int, kids: Seq<Child>)
    requires
        0 <= at,
        legal(kind, kids),
    ensures
        children_read(kind, d, at, kids) is Ok <==> chunks_whole(d, at) && all_members(d, at)
            && legal(kind, kids + members_from(d, at)),
        children_read(kind, d, at, kids) is Ok ==> children_read(kind, d, at, kids) == Ok::<
            Seq<Child>,
            IffError,
        >(kids + members_from(d, at)),
    decreases d.len() + 1 - at,
{
    lemma_ids_differ();
    let starts = member_starts(d, at);
    if at >= d.len() {
        assert(members_from(d, at) =~= Seq::empty());
        assert(kids + members_from(d, at) =~= kids);
    } else if d.len() - at < 8 || at + 8 + size_at(d, at) > d.len() {
    } else {
        let next = after_chunk(d, at);
        let later = member_starts(d, next);
        if id_at(d, at) == FILLER_ID {
            assert(starts =~= later);
            lemma_members_read(kind, d, next, kids);
        } else {
            let kid = member_at(d, at);
            assert(starts[0] == at);
            assert(forall|k: int| 0 <= k < later.len() ==> starts[k + 1] == #[trigger] later[k]);
            lemma_member_accepted(kind, d, at, kids);
            assert(kids + members_from(d, at) =~= kids.push(kid) + members_from(d, next));
            if child_at(kind, d, at, kids) is Ok {
                lemma_members_read(kind, d, next, kids.push(kid));
                if all_members(d, at) {
                    assert forall|k: int| 0 <= k < later.len() implies can_be_member(
                        d,
                        #[trigger] later[k],
                    ) by {
                        assert(starts[k + 1] == later[k]);
                    }
                }
                if all_members(d, next) {
                    assert forall|k: int| 0 <= k < starts.len() implies can_be_member(
                        d,
                        #[trigger] starts[k],
                    ) by {
                        if k > 0 {
                            assert(starts[k] == later[k - 1]);
                        }
                    }
                }
            } else if all_members(d, at) && legal(kind, kids + members_from(d, at)) {
                assert(can_be_member(d, starts[0]));
                lemma_legal_prefix(kind, kids.push(kid), members_from(d, next));
            }
        }
    }
}

/// The members of a `LIST` or `CAT ` are its chunks in order, without the fillers: the type of
/// each, and the bytes behind it. They can be read exactly where all chunks are whole, all but the
/// fillers are shared properties or groups, and they obey the grammar: no properties in a
/// `CAT `, none behind a group, and none twice for a type.
pub proof fn law_members(kind: GroupKind, d: Seq<u8>)
    ensures
        kind == GroupKind::Form ==> group_children(kind, d) is Err,
        kind != GroupKind::Form ==> (group_children(kind, d) is Ok <==> chunks_whole(d, 0)
            && all_members(d, 0) && legal(kind, members_from(d, 0))),
        group_children(kind, d) is Ok ==> group_children(kind, d) == Ok::<Seq<Child>, IffError>(
            members_from(d, 0),
        ),
{
    if kind != GroupKind::Form {
        let none = Seq::<Child>::empty();
        lemma_members_read(kind, d, 0, none);
        assert(none + members_from(d, 0) =~= members_from(d, 0));
    }
}

/// Data of twelve bytes or more start with a group where their first four bytes are `FORM`, `LIST`
/// or `CAT `; the next four are its size, and four more its type. Of less data nothing is said.
pub proof fn law_top_group(d: Seq<u8>)
    ensures
        d.len() < 12 <==> top_group(d) matches Ok(None),
        top_group(d) matches Ok(Some(g)) ==> {
            &&& g.kind == GroupKind::Form <==> d.take(4) == seq![0x46u8, 0x4Fu8, 0x52u8, 0x4Du8]
            &&& g.kind == GroupKind::List <==> d.take(4) == seq![0x4Cu8, 0x49u8, 0x53u8, 0x54u8]
            &&& g.kind == GroupKind::Cat <==> d.take(4) == seq![0x43u8, 0x41u8, 0x54u8, 0x20u8]
            &&& g.size == d[4] * 0x100_0000 + d[5] * 0x1_0000 + d[6] * 0x100 + d[7]
            &&& g.inner_type@ == d.subrange(8, 12)
        },
        d.len() >= 12 && (d.take(4) == seq![0x46u8, 0x4Fu8, 0x52u8, 0x4Du8] || d.take(4) == seq![
            0x4Cu8,
            0x49u8,
            0x53u8,
            0x54u8,
        ] || d.take(4) == seq![0x43u8, 0x41u8, 0x54u8, 0x20u8]) ==> top_group(d) is Ok,
{
    if d.len() >= 12 {
        let a = id_at(d, 0);
        let b = id_at(d, 8);
        let t = d.take(4);
        assert(b@ =~= d.subrange(8, 12));
        assert(a[0] == t[0] && a[1] == t[1] && a[2] == t[2] && a[3] == t[3]);
        let form = seq![0x46u8, 0x4Fu8, 0x52u8, 0x4Du8];
        let list = seq![0x4Cu8, 0x49u8, 0x53u8, 0x54u8];
        let cat = seq![0x43u8, 0x41u8, 0x54u8, 0x20u8];
        if a == GROUP_FORM {
            assert(t =~= form);
            assert(form[0] != list[0] && form[0] != cat[0]);
        } else if a == GROUP_LIST {
            assert(t =~= list);
            assert(list[0] != form[0] && list[0] != cat[0]);
        } else if a == GROUP_CAT {
            assert(t =~= cat);
            assert(cat[0] != form[0] && cat[0] != list[0]);
        } else {
            if t == form {
                assert(a =~= GROUP_FORM);
            }
            if t == list {
                assert(a =~= GROUP_LIST);
            }
            if t == cat {
                assert(a =~= GROUP_CAT);
            }
        }
    }
}

/// The reserved ids are four spaces, `PROP`, the three groups, and the groups with a digit from 1 to
/// 9 in the place of their last letter; all others are free.
pub proof fn law_reserved_ids(id: [u8; 4])
    ensures
        classified(id) == Some(ReservedId::Filler) <==> id[0] == 0x20 && id[1] == 0x20 && id[2]
            == 0x20 && id[3] == 0x20,
        classified(id) == Some(ReservedId::Prop) <==> id[0] == 0x50 && id[1] == 0x52 && id[2]
            == 0x4F && id[3] == 0x50,
        classified(id) == Some(ReservedId::Group(GroupKind::Form)) <==> id[0] == 0x46 && id[1]
            == 0x4F && id[2] == 0x52 && id[3] == 0x4D,
        classified(id) == Some(ReservedId::Group(GroupKind::List)) <==> id[0] == 0x4C && id[1]
            == 0x49 && id[2] == 0x53 && id[3] == 0x54,
        classified(id) == Some(ReservedId::Group(GroupKind::Cat)) <==> id[0] == 0x43 && id[1]
            == 0x41 && id[2] == 0x54 && id[3] == 0x20,
        classified(id) matches Some(ReservedId::ReservedFuture { parent, digit }) ==> {
            &&& digit == id[3]
            &&& 0x31 <= digit <= 0x39
            &&& parent == GroupKind::Form ==> id[0] == 0x46 && id[1] == 0x4F && id[2] == 0x52
            &&& parent == GroupKind::List ==> id[0] == 0x4C && id[1] == 0x49 && id[2] == 0x53
            &&& parent == GroupKind::Cat ==> id[0] == 0x43 && id[1] == 0x41 && id[2] == 0x54
        },
        0x31 <= id[3] <= 0x39 && (id[0] == 0x46 && id[1] == 0x4F && id[2] == 0x52 || id[0] == 0x4C
            && id[1] == 0x49 && id[2] == 0x53 || id[0] == 0x43 && id[1] == 0x41 && id[2] == 0x54)
            ==> classified(id) matches Some(ReservedId::ReservedFuture { .. }),
{
    assert(id[0] == 0x20 && id[1] == 0x20 && id[2] == 0x20 && id[3] == 0x20 ==> id =~= FILLER_ID);
    assert(id[0] == 0x50 && id[1] == 0x52 && id[2] == 0x4F && id[3] == 0x50 ==> id =~= PROP_ID);
    assert(id[0] == 0x46 && id[1] == 0x4F && id[2] == 0x52 && id[3] == 0x4D ==> id =~= GROUP_FORM);
    assert(id[0] == 0x4C && id[1] == 0x49 && id[2] == 0x53 && id[3] == 0x54 ==> id =~= GROUP_LIST);
    assert(id[0] == 0x43 && id[1] == 0x41 && id[2] == 0x54 && id[3] == 0x20 ==> id =~= GROUP_CAT);
    lemma_ids_differ();
}

/// A chunk is written as its id, its size, its body and, where the size is odd, a zero.
pub proof fn law_framed_bytes(id: [u8; 4], body: Seq<u8>)
    requires
        body.len() <= u32::MAX,
    ensures
        ({
            let d = framed(id, body);
            &&& d.len() == 8 + body.len() + body.len() % 2
            &&& d.take(4) == id@
            &&& d[4] * 0x100_0000 + d[5] * 0x1_0000 + d[6] * 0x100 + d[7] == body.len()
            &&& d.subrange(8, 8int + body.len()) == body
            &&& body.len() % 2 == 1 ==> d.last() == 0
        }),
{
    let d = framed(id, body);
    assert(d.take(4) =~= id@);
    assert(d.subrange(8, 8int + body.len()) =~= body);
    assert(d.subrange(0, d.len() as int) =~= d);
    lemma_framed(d, 0, id, body);
}

} // verus!
