//! The chunk grammar that all IFF containers share.
//!
//! A chunk is a four-byte id, a big-endian size, that many bytes, and a pad byte
//! where the size is odd. Group chunks (`FORM`, `LIST`, `CAT `) start with another
//! four-byte id and hold chunks.

use vstd::prelude::*;
use crate::bytes::{
    be32, be32_bytes, copy_range, id_at, law_be32_round_trip, lemma_lies_byte, lemma_lies_split,
    lies_at, push_all, push_be32, read_be32, read_id, same_id,
};
use crate::error::{IffError, Reason};
use crate::text::{id_str, id_text};
use vstd::arithmetic::div_mod::lemma_add_mod_noop;

verus! {

/// Id of a `FORM`, a self-contained data object.
pub const GROUP_FORM: [u8; 4] = [0x46, 0x4F, 0x52, 0x4D];

/// Id of a `LIST`, a group whose members can share properties.
pub const GROUP_LIST: [u8; 4] = [0x4C, 0x49, 0x53, 0x54];

/// Id of a `CAT `, a plain group.
pub const GROUP_CAT: [u8; 4] = [0x43, 0x41, 0x54, 0x20];

/// Id of a filler chunk, four spaces.
pub const FILLER_ID: [u8; 4] = [0x20, 0x20, 0x20, 0x20];

/// Id of a `PROP`, the shared properties of a `LIST`.
pub const PROP_ID: [u8; 4] = [0x50, 0x52, 0x4F, 0x50];

/// The pad byte behind a chunk body, where there is one.
pub open spec fn pad_of(n: int) -> Seq<u8> {
    if n % 2 == 1 {
        seq![0u8]
    } else {
        Seq::empty()
    }
}

/// A size as its field holds it.
pub open spec fn size_field(n: int) -> u32 {
    (n % 0x1_0000_0000) as u32
}

/// A whole chunk.
pub open spec fn framed(id: [u8; 4], body: Seq<u8>) -> Seq<u8> {
    id@ + be32_bytes(size_field(body.len() as int)) + body + pad_of(body.len() as int)
}

/// Size of the body of the chunk at `at`.
pub open spec fn size_at(d: Seq<u8>, at: int) -> int {
    be32(d, at + 4) as int
}

/// The body of the chunk at `at`.
pub open spec fn body_at(d: Seq<u8>, at: int) -> Seq<u8> {
    d.subrange(at + 8, at + 8 + size_at(d, at))
}

/// Where the chunk behind that at `at` starts.
pub open spec fn after_chunk(d: Seq<u8>, at: int) -> int {
    at + 8 + size_at(d, at) + size_at(d, at) % 2
}

/// A chunk is found where it was put.
pub proof fn lemma_framed(d: Seq<u8>, at: int, id: [u8; 4], body: Seq<u8>)
    requires
        lies_at(d, at, framed(id, body)),
        body.len() <= u32::MAX,
    ensures
        id_at(d, at) == id,
        size_at(d, at) == body.len(),
        at + 8 + body.len() <= d.len(),
        body_at(d, at) == body,
        after_chunk(d, at) == at + framed(id, body).len(),
        framed(id, body).len() == 8 + body.len() + body.len() % 2,
{
    let n = size_field(body.len() as int);
    let head = id@ + be32_bytes(n);
    let pad = pad_of(body.len() as int);
    assert(framed(id, body) =~= head + body + pad);
    lemma_lies_split(d, at, head + body, pad);
    lemma_lies_split(d, at, head, body);
    lemma_header(d, at, id, n);
}

/// A chunk header is found where it was put.
pub proof fn lemma_header(d: Seq<u8>, at: int, id: [u8; 4], n: u32)
    requires
        lies_at(d, at, id@ + be32_bytes(n)),
    ensures
        id_at(d, at) == id,
        size_at(d, at) == n,
{
    let head = id@ + be32_bytes(n);
    lemma_lies_byte(d, at, head, 0);
    lemma_lies_byte(d, at, head, 1);
    lemma_lies_byte(d, at, head, 2);
    lemma_lies_byte(d, at, head, 3);
    lemma_lies_byte(d, at, head, 4);
    lemma_lies_byte(d, at, head, 5);
    lemma_lies_byte(d, at, head, 6);
    lemma_lies_byte(d, at, head, 7);
    assert(id_at(d, at) =~= id);
    law_be32_round_trip(n);
}

/// A size as its field holds it.
pub fn to_size_field(n: usize) -> (r: u32)
    ensures
        r == size_field(n as int),
{
    (n as u64 % 0x1_0000_0000) as u32
}

/// Appends a chunk header.
pub fn push_header(out: &mut Vec<u8>, id: [u8; 4], n: u32)
    ensures
        final(out)@ == old(out)@ + (id@ + be32_bytes(n)),
{
    let ghost out0 = out@;
    push_all(out, &id);
    push_be32(out, n);
    assert(out@ =~= out0 + (id@ + be32_bytes(n)));
}

/// Appends a whole chunk.
pub fn push_chunk(out: &mut Vec<u8>, id: [u8; 4], body: &[u8])
    ensures
        final(out)@ == old(out)@ + framed(id, body@),
{
    let ghost out0 = out@;
    let n: usize = body.len();
    push_header(out, id, to_size_field(n));
    push_all(out, body);
    if n % 2 == 1 {
        out.push(0);
    }
    assert(out@ =~= out0 + framed(id, body@));
}

/// Where a group's chunks end: with the group, or with the data where that is cut short.
pub open spec fn group_end(d: Seq<u8>) -> int {
    if 8 + size_at(d, 0) <= d.len() {
        8 + size_at(d, 0)
    } else {
        d.len() as int
    }
}

/// Where a group's chunks end.
pub fn find_group_end(d: &[u8]) -> (end: usize)
    requires
        d@.len() >= 8,
    ensures
        end == group_end(d@),
        8 <= end <= d@.len(),
{
    let total: usize = read_be32(d, 4) as usize;
    let len: usize = d.len();
    if total <= len - 8 {
        8 + total
    } else {
        len
    }
}

/// A whole group: its id, its size, the id of its contents, and its chunks.
pub open spec fn group_bytes(id: [u8; 4], kind: [u8; 4], chunks: Seq<u8>) -> Seq<u8> {
    id@ + be32_bytes(size_field(4int + chunks.len())) + kind@ + chunks
}

/// The header and the chunks of a group are found again.
pub proof fn lemma_group(id: [u8; 4], kind: [u8; 4], chunks: Seq<u8>)
    requires
        4 + chunks.len() <= u32::MAX,
    ensures
        ({
            let d = group_bytes(id, kind, chunks);
            &&& d.len() == 12 + chunks.len()
            &&& id_at(d, 0) == id
            &&& size_at(d, 0) == 4 + chunks.len()
            &&& id_at(d, 8) == kind
            &&& group_end(d) == d.len()
            &&& lies_at(d, 12, chunks)
        }),
{
    let d = group_bytes(id, kind, chunks);
    let n = size_field(4int + chunks.len());
    assert(d.subrange(0, 8) =~= id@ + be32_bytes(n));
    lemma_header(d, 0, id, n);
    assert(d[8] == kind[0] && d[9] == kind[1] && d[10] == kind[2] && d[11] == kind[3]);
    assert(id_at(d, 8) =~= kind);
    assert(d.subrange(12, 12int + chunks.len()) =~= chunks);
}

/// Assembles a whole group.
pub fn make_group(id: [u8; 4], kind: [u8; 4], chunks: &[u8]) -> (out: Vec<u8>)
    ensures
        out@ == group_bytes(id, kind, chunks@),
{
    let len: usize = chunks.len();
    let n: u32 = ((len as u64 % 0x1_0000_0000 + 4) % 0x1_0000_0000) as u32;
    assert(n == size_field(4int + chunks@.len())) by {
        lemma_add_mod_noop(len as int, 4, 0x1_0000_0000);
    }
    let mut out: Vec<u8> = Vec::new();
    push_header(&mut out, id, n);
    push_all(&mut out, &kind);
    push_all(&mut out, chunks);
    assert(out@ =~= group_bytes(id, kind, chunks@));
    out
}

/// Which of the three kinds of group.
#[derive(Clone, Copy, Debug, PartialEq, Eq, Structural)]
pub enum GroupKind {
    /// `FORM`, a self-contained data object.
    Form,
    /// `LIST`, a group whose members can share properties.
    List,
    /// `CAT `, a plain group.
    Cat,
}

/// The kind of group that an id stands for.
pub open spec fn group_kind(id: [u8; 4]) -> Option<GroupKind> {
    if id == GROUP_FORM {
        Some(GroupKind::Form)
    } else if id == GROUP_LIST {
        Some(GroupKind::List)
    } else if id == GROUP_CAT {
        Some(GroupKind::Cat)
    } else {
        None
    }
}

impl GroupKind {
    /// The id of the kind.
    #[verifier::allow_in_spec]
    pub fn id(self) -> [u8; 4]
        returns
            (match self {
                GroupKind::Form => GROUP_FORM,
                GroupKind::List => GROUP_LIST,
                GroupKind::Cat => GROUP_CAT,
            }),
    {
        match self {
            GroupKind::Form => GROUP_FORM,
            GroupKind::List => GROUP_LIST,
            GroupKind::Cat => GROUP_CAT,
        }
    }

    /// The kind of group that an id stands for.
    pub fn from_id(id: [u8; 4]) -> (r: Option<Self>)
        ensures
            r == group_kind(id),
    {
        if same_id(id, GROUP_FORM) {
            Some(GroupKind::Form)
        } else if same_id(id, GROUP_LIST) {
            Some(GroupKind::List)
        } else if same_id(id, GROUP_CAT) {
            Some(GroupKind::Cat)
        } else {
            None
        }
    }
}

/// What an id means wherever it occurs.
#[derive(Clone, Copy, Debug, PartialEq, Eq, Structural)]
pub enum ReservedId {
    /// `FORM`, `LIST` or `CAT `.
    Group(GroupKind),
    /// `PROP`, the shared properties of a `LIST`.
    Prop,
    /// Four spaces: a chunk that fills space.
    Filler,
    /// A later version of a group: the first three letters of its id and a digit from one
    /// to nine.
    ReservedFuture {
        /// The kind of group.
        parent: GroupKind,
        /// The digit, as a character.
        digit: u8,
    },
}

/// The kind of group whose later versions start with three letters.
pub open spec fn version_parent(a: u8, b: u8, c: u8) -> Option<GroupKind> {
    if a == 0x4C && b == 0x49 && c == 0x53 {
        Some(GroupKind::List)
    } else if a == 0x46 && b == 0x4F && c == 0x52 {
        Some(GroupKind::Form)
    } else if a == 0x43 && b == 0x41 && c == 0x54 {
        Some(GroupKind::Cat)
    } else {
        None
    }
}

/// What an id means wherever it occurs.
pub open spec fn classified(id: [u8; 4]) -> Option<ReservedId> {
    if id == FILLER_ID {
        Some(ReservedId::Filler)
    } else if id == PROP_ID {
        Some(ReservedId::Prop)
    } else if group_kind(id) is Some {
        Some(ReservedId::Group(group_kind(id)->Some_0))
    } else if 0x31 <= id[3] <= 0x39 && version_parent(id[0], id[1], id[2]) is Some {
        Some(
            ReservedId::ReservedFuture {
                parent: version_parent(id[0], id[1], id[2])->Some_0,
                digit: id[3],
            },
        )
    } else {
        None
    }
}

/// The reserved ids: the five plain ones, then the versions of each group.
pub open spec fn reserved_id(i: int) -> [u8; 4] {
    if i == 0 {
        GROUP_FORM
    } else if i == 1 {
        GROUP_LIST
    } else if i == 2 {
        PROP_ID
    } else if i == 3 {
        GROUP_CAT
    } else if i == 4 {
        FILLER_ID
    } else if i < 14 {
        [0x4Cu8, 0x49u8, 0x53u8, (0x31 + i - 5) as u8]
    } else if i < 23 {
        [0x46u8, 0x4Fu8, 0x52u8, (0x31 + i - 14) as u8]
    } else {
        [0x43u8, 0x41u8, 0x54u8, (0x31 + i - 23) as u8]
    }
}

impl ReservedId {
    /// What an id means wherever it occurs; nothing for an id that is not reserved.
    pub fn classify(id: [u8; 4]) -> (r: Option<Self>)
        ensures
            r == classified(id),
    {
        if same_id(id, FILLER_ID) {
            return Some(ReservedId::Filler);
        }
        if same_id(id, PROP_ID) {
            return Some(ReservedId::Prop);
        }
        if let Some(kind) = GroupKind::from_id(id) {
            return Some(ReservedId::Group(kind));
        }
        let (a, b, c, d) = (id[0], id[1], id[2], id[3]);
        if 0x31 <= d && d <= 0x39 {
            if a == 0x4C && b == 0x49 && c == 0x53 {
                return Some(ReservedId::ReservedFuture { parent: GroupKind::List, digit: d });
            }
            if a == 0x46 && b == 0x4F && c == 0x52 {
                return Some(ReservedId::ReservedFuture { parent: GroupKind::Form, digit: d });
            }
            if a == 0x43 && b == 0x41 && c == 0x54 {
                return Some(ReservedId::ReservedFuture { parent: GroupKind::Cat, digit: d });
            }
        }
        None
    }

    /// Whether this is a group id.
    pub fn is_group(self) -> (r: bool)
        ensures
            r == (self is Group),
    {
        match self {
            ReservedId::Group(_) => true,
            _ => false,
        }
    }

    /// Whether this is the filler id.
    pub fn is_filler(self) -> (r: bool)
        ensures
            r == (self is Filler),
    {
        match self {
            ReservedId::Filler => true,
            _ => false,
        }
    }

    /// Whether this is a later version of a group id.
    pub fn is_reserved_future(self) -> (r: bool)
        ensures
            r == (self is ReservedFuture),
    {
        match self {
            ReservedId::ReservedFuture { .. } => true,
            _ => false,
        }
    }

    /// All reserved ids.
    pub fn all_reserved_ids() -> (ids: [[u8; 4]; 32])
        ensures
            forall|i: int| 0 <= i < 32 ==> #[trigger] ids[i] == reserved_id(i),
    {
        let ids: [[u8; 4]; 32] = [
            GROUP_FORM,
            GROUP_LIST,
            PROP_ID,
            GROUP_CAT,
            FILLER_ID,
            [0x4C, 0x49, 0x53, 0x31],
            [0x4C, 0x49, 0x53, 0x32],
            [0x4C, 0x49, 0x53, 0x33],
            [0x4C, 0x49, 0x53, 0x34],
            [0x4C, 0x49, 0x53, 0x35],
            [0x4C, 0x49, 0x53, 0x36],
            [0x4C, 0x49, 0x53, 0x37],
            [0x4C, 0x49, 0x53, 0x38],
            [0x4C, 0x49, 0x53, 0x39],
            [0x46, 0x4F, 0x52, 0x31],
            [0x46, 0x4F, 0x52, 0x32],
            [0x46, 0x4F, 0x52, 0x33],
            [0x46, 0x4F, 0x52, 0x34],
            [0x46, 0x4F, 0x52, 0x35],
            [0x46, 0x4F, 0x52, 0x36],
            [0x46, 0x4F, 0x52, 0x37],
            [0x46, 0x4F, 0x52, 0x38],
            [0x46, 0x4F, 0x52, 0x39],
            [0x43, 0x41, 0x54, 0x31],
            [0x43, 0x41, 0x54, 0x32],
            [0x43, 0x41, 0x54, 0x33],
            [0x43, 0x41, 0x54, 0x34],
            [0x43, 0x41, 0x54, 0x35],
            [0x43, 0x41, 0x54, 0x36],
            [0x43, 0x41, 0x54, 0x37],
            [0x43, 0x41, 0x54, 0x38],
            [0x43, 0x41, 0x54, 0x39],
        ];
        assert forall|i: int| 0 <= i < 32 implies #[trigger] ids[i] == reserved_id(i) by {
            assert(ids[i] =~= reserved_id(i));
        }
        ids
    }
}

/// A group id and its kind name each other.
pub proof fn law_group_kind_round_trip(kind: GroupKind, id: [u8; 4])
    ensures
        group_kind(kind.id()) == Some(kind),
        group_kind(id) matches Some(k) ==> k.id() == id,
{
    assert(GROUP_LIST[0] != GROUP_FORM[0]);
    assert(GROUP_CAT[0] != GROUP_FORM[0]);
    assert(GROUP_CAT[0] != GROUP_LIST[0]);
}

/// The reserved ids are all different.
pub proof fn law_reserved_ids_distinct(i: int, j: int)
    requires
        0 <= i < j < 32,
    ensures
        reserved_id(i) != reserved_id(j),
{
    let a = reserved_id(i);
    let b = reserved_id(j);
    assert(a[0] != b[0] || a[1] != b[1] || a[2] != b[2] || a[3] != b[3]);
}

/// An id means something wherever it occurs exactly where it is one of the reserved ids.
pub proof fn law_classify_covers_reserved_ids(id: [u8; 4])
    ensures
        classified(id) is Some <==> exists|i: int| 0 <= i < 32 && id == #[trigger] reserved_id(i),
{
    if exists|i: int| 0 <= i < 32 && id == #[trigger] reserved_id(i) {
        let i = choose|i: int| 0 <= i < 32 && id == #[trigger] reserved_id(i);
        assert(version_parent(0x4C, 0x49, 0x53) is Some);
        assert(version_parent(0x46, 0x4F, 0x52) is Some);
        assert(version_parent(0x43, 0x41, 0x54) is Some);
    }
    if classified(id) is Some {
        match classified(id)->Some_0 {
            ReservedId::Filler => {
                assert(id == reserved_id(4));
            },
            ReservedId::Prop => {
                assert(id == reserved_id(2));
            },
            ReservedId::Group(kind) => {
                assert(id == reserved_id(0) || id == reserved_id(1) || id == reserved_id(3));
            },
            ReservedId::ReservedFuture { parent, digit } => {
                let k = digit - 0x31;
                if parent == GroupKind::List {
                    assert(id =~= reserved_id(5 + k));
                } else if parent == GroupKind::Form {
                    assert(id =~= reserved_id(14 + k));
                } else {
                    assert(id =~= reserved_id(23 + k));
                }
            },
        }
    }
}

/// The header of the one group that a file holds.
#[derive(Clone, Copy, Debug, PartialEq, Eq)]
pub struct TopLevelGroup {
    /// The kind of group.
    pub kind: GroupKind,
    /// Bytes of the group behind its header, the inner type among them.
    pub size: u32,
    /// The form type, or the type of the contents.
    pub inner_type: [u8; 4],
}

impl TopLevelGroup {
    /// The id of the group.
    pub fn kind_id(&self) -> (id: [u8; 4])
        ensures
            id == self.kind.id(),
    {
        self.kind.id()
    }

    /// The inner type as text.
    pub fn inner_type_str(&self) -> (s: &str)
        ensures
            s@ == id_text(self.inner_type@),
    {
        id_str(&self.inner_type)
    }

    /// Bytes of the whole group: header, contents and pad byte.
    pub fn declared_total_len(&self) -> (n: u64)
        ensures
            n == 8 + self.size + self.size % 2,
    {
        self.size as u64 + 8 + (self.size % 2) as u64
    }
}

/// The group that data starts with; nothing where there are not enough bytes to tell.
pub open spec fn top_group(d: Seq<u8>) -> Result<Option<TopLevelGroup>, IffError> {
    if d.len() < 12 {
        Ok(None)
    } else {
        match group_kind(id_at(d, 0)) {
            None => Err(IffError::Invalid(Reason::NotGroup { id: id_at(d, 0) })),
            Some(kind) => Ok(
                Some(TopLevelGroup { kind: kind, size: be32(d, 4), inner_type: id_at(d, 8) }),
            ),
        }
    }
}

/// The group that data starts with; nothing where there are not enough bytes to tell.
pub fn probe_top_level_group(buf: &[u8]) -> (r: Result<Option<TopLevelGroup>, IffError>)
    ensures
        r == top_group(buf@),
{
    if buf.len() < 12 {
        return Ok(None);
    }
    let id: [u8; 4] = read_id(buf, 0);
    match GroupKind::from_id(id) {
        None => Err(IffError::Invalid(Reason::NotGroup { id: id })),
        Some(kind) => Ok(
            Some(
                TopLevelGroup {
                    kind: kind,
                    size: read_be32(buf, 4),
                    inner_type: read_id(buf, 8),
                },
            ),
        ),
    }
}

/// A member of a `LIST` or `CAT `.
#[derive(Clone, Copy, Debug, PartialEq, Eq)]
pub enum GroupChild<'a> {
    /// Shared properties.
    Prop {
        /// The form type that they are for.
        form_type: [u8; 4],
        /// The property chunks.
        body: &'a [u8],
    },
    /// A nested group.
    Group {
        /// The kind of group.
        kind: GroupKind,
        /// Its form type, or the type of its contents.
        inner_type: [u8; 4],
        /// Its chunks.
        body: &'a [u8],
    },
}

/// A member of a `LIST` or `CAT `, with its bytes.
#[verifier::ext_equal]
pub enum Child {
    /// Shared properties.
    Prop {
        /// The form type that they are for.
        form_type: [u8; 4],
        /// The property chunks.
        body: Seq<u8>,
    },
    /// A nested group.
    Group {
        /// The kind of group.
        kind: GroupKind,
        /// Its form type, or the type of its contents.
        inner_type: [u8; 4],
        /// Its chunks.
        body: Seq<u8>,
    },
}

impl<'a> View for GroupChild<'a> {
    type V = Child;

    open spec fn view(&self) -> Child {
        match *self {
            GroupChild::Prop { form_type, body } => Child::Prop {
                form_type: form_type,
                body: body@,
            },
            GroupChild::Group { kind, inner_type, body } => Child::Group {
                kind: kind,
                inner_type: inner_type,
                body: body@,
            },
        }
    }
}

/// The members that a list holds.
pub open spec fn members<'a>(v: Seq<GroupChild<'a>>) -> Seq<Child> {
    Seq::new(v.len(), |i: int| v[i]@)
}

impl Child {
    /// The type that the member starts with.
    pub open spec fn subtype(self) -> [u8; 4] {
        match self {
            Child::Prop { form_type, .. } => form_type,
            Child::Group { inner_type, .. } => inner_type,
        }
    }

    /// The id of the member's chunk.
    pub open spec fn id(self) -> [u8; 4] {
        match self {
            Child::Prop { .. } => PROP_ID,
            Child::Group { kind, .. } => kind.id(),
        }
    }

    /// The bytes behind the member's type.
    pub open spec fn body(self) -> Seq<u8> {
        match self {
            Child::Prop { body, .. } => body,
            Child::Group { body, .. } => body,
        }
    }
}

impl<'a> GroupChild<'a> {
    /// The type that the member starts with.
    pub fn inner_type(&self) -> (id: [u8; 4])
        ensures
            id == self@.subtype(),
    {
        match self {
            GroupChild::Prop { form_type, .. } => *form_type,
            GroupChild::Group { inner_type, .. } => *inner_type,
        }
    }

    /// Whether the member holds shared properties.
    pub fn is_prop(&self) -> (r: bool)
        ensures
            r == (self@ is Prop),
    {
        match self {
            GroupChild::Prop { .. } => true,
            GroupChild::Group { .. } => false,
        }
    }
}

/// A nested group is among the members.
pub open spec fn has_group(kids: Seq<Child>) -> bool {
    exists|i: int| 0 <= i < kids.len() && #[trigger] kids[i] is Group
}

/// Shared properties for a form type are among the members.
pub open spec fn has_prop(kids: Seq<Child>, form_type: [u8; 4]) -> bool {
    exists|i: int|
        0 <= i < kids.len() && #[trigger] kids[i] is Prop && kids[i].subtype() == form_type
}

/// The member that the chunk at `at` makes, after `kids`; nothing for a filler.
pub open spec fn child_at(kind: GroupKind, d: Seq<u8>, at: int, kids: Seq<Child>) -> Result<
    Option<Child>,
    IffError,
> {
    let id = id_at(d, at);
    let subtype = id_at(d, at + 8);
    let body = d.subrange(at + 12, at + 8 + size_at(d, at));
    match classified(id) {
        Some(ReservedId::Filler) => Ok(None),
        Some(ReservedId::Prop) => if kind == GroupKind::Cat {
            Err(
                IffError::invalid(
                    "IFF: PROP chunks may appear in LISTs, not in CATs",
                ),
            )
        } else if has_group(kids) {
            Err(
                IffError::invalid(
                    "IFF: PROPs must appear before any FORM/LIST/CAT in a LIST",
                ),
            )
        } else if size_at(d, at) < 4 {
            Err(IffError::invalid("IFF: PROP chunk too short for a FormType"))
        } else if has_prop(kids, subtype) {
            Err(IffError::Invalid(Reason::DuplicateProp { form_type: subtype }))
        } else {
            Ok(Some(Child::Prop { form_type: subtype, body: body }))
        },
        Some(ReservedId::Group(k)) => if size_at(d, at) < 4 {
            Err(IffError::invalid("IFF: group child too short for a subtype ID"))
        } else {
            Ok(Some(Child::Group { kind: k, inner_type: subtype, body: body }))
        },
        _ => Err(IffError::Invalid(Reason::IllegalChild { id: id })),
    }
}

/// The members from `at` on, after `kids`. The pad byte of the last one may be missing.
pub open spec fn children_read(kind: GroupKind, d: Seq<u8>, at: int, kids: Seq<Child>) -> Result<
    Seq<Child>,
    IffError,
>
    decreases d.len() + 1 - at,
{
    if at >= d.len() {
        Ok(kids)
    } else if d.len() - at < 8 {
        Err(IffError::invalid("IFF: truncated group-child chunk header"))
    } else if at + 8 + size_at(d, at) > d.len() {
        Err(IffError::Invalid(Reason::GroupChildOverrun { id: id_at(d, at) }))
    } else {
        match child_at(kind, d, at, kids) {
            Err(e) => Err(e),
            Ok(None) => children_read(kind, d, after_chunk(d, at), kids),
            Ok(Some(kid)) => children_read(kind, d, after_chunk(d, at), kids.push(kid)),
        }
    }
}

/// The members of a `LIST` or `CAT `; the chunks of a `FORM` depend on its type.
pub open spec fn group_children(kind: GroupKind, d: Seq<u8>) -> Result<Seq<Child>, IffError> {
    if kind == GroupKind::Form {
        Err(
            IffError::invalid(
                "IFF: FORM bodies mix LocalChunks with nested groups; use the per-form walker instead of parse_group_children",
            ),
        )
    } else {
        children_read(kind, d, 0, Seq::empty())
    }
}

fn find_group<'a>(kids: &Vec<GroupChild<'a>>) -> (r: bool)
    ensures
        r == has_group(members(kids@)),
{
    let n: usize = kids.len();
    let mut i: usize = 0;
    while i < n
        invariant
            n == kids@.len(),
            i <= n,
            forall|k: int| 0 <= k < i ==> !(#[trigger] members(kids@)[k] is Group),
        decreases n - i,
    {
        if !kids[i].is_prop() {
            assert(members(kids@)[i as int] is Group);
            return true;
        }
        i += 1;
    }
    false
}

fn find_prop<'a>(kids: &Vec<GroupChild<'a>>, form_type: [u8; 4]) -> (r: bool)
    ensures
        r == has_prop(members(kids@), form_type),
{
    let n: usize = kids.len();
    let mut i: usize = 0;
    while i < n
        invariant
            n == kids@.len(),
            i <= n,
            forall|k: int|
                0 <= k < i ==> !(#[trigger] members(kids@)[k] is Prop && members(
                    kids@,
                )[k].subtype() == form_type),
        decreases n - i,
    {
        if kids[i].is_prop() && same_id(kids[i].inner_type(), form_type) {
            assert(members(kids@)[i as int] is Prop);
            return true;
        }
        i += 1;
    }
    false
}

/// Walks the members of a `LIST` or `CAT `; `children` is what follows the group's type.
#[verifier::loop_isolation(false)]
pub fn parse_group_children<'a>(kind: GroupKind, children: &'a [u8]) -> (r: Result<
    Vec<GroupChild<'a>>,
    IffError,
>)
    ensures
        match group_children(kind, children@) {
            Ok(kids) => r matches Ok(v) && members(v@) == kids,
            Err(e) => r matches Err(f) && f == e,
        },
{
    if kind == GroupKind::Form {
        return Err(
            IffError::invalid(
                "IFF: FORM bodies mix LocalChunks with nested groups; use the per-form walker instead of parse_group_children",
            ),
        );
    }
    let total: usize = children.len();
    let mut out: Vec<GroupChild<'a>> = Vec::new();
    let mut at: usize = 0;
    let ghost target = children_read(kind, children@, 0, Seq::empty());
    assert(members(out@) =~= Seq::<Child>::empty());
    while at < total
        invariant
            at <= total,
            children_read(kind, children@, at as int, members(out@)) == target,
        decreases total - at,
    {
        if total - at < 8 {
            return Err(IffError::invalid("IFF: truncated group-child chunk header"));
        }
        let id: [u8; 4] = read_id(children, at);
        let size: usize = read_be32(children, at + 4) as usize;
        if size > total - at - 8 {
            return Err(IffError::Invalid(Reason::GroupChildOverrun { id: id }));
        }
        let end: usize = at + 8 + size;
        let ghost before = members(out@);
        match ReservedId::classify(id) {
            Some(ReservedId::Filler) => {},
            Some(ReservedId::Prop) => {
                if kind == GroupKind::Cat {
                    return Err(
                        IffError::invalid(
                            "IFF: PROP chunks may appear in LISTs, not in CATs",
                        ),
                    );
                }
                if find_group(&out) {
                    return Err(
                        IffError::invalid(
                            "IFF: PROPs must appear before any FORM/LIST/CAT in a LIST",
                        ),
                    );
                }
                if size < 4 {
                    return Err(IffError::invalid("IFF: PROP chunk too short for a FormType"));
                }
                let form_type: [u8; 4] = read_id(children, at + 8);
                if find_prop(&out, form_type) {
                    return Err(IffError::Invalid(Reason::DuplicateProp { form_type: form_type }));
                }
                let kid = GroupChild::Prop {
                    form_type: form_type,
                    body: vstd::slice::slice_subrange(children, at + 12, end),
                };
                out.push(kid);
                assert(members(out@) =~= before.push(kid@));
            },
            Some(ReservedId::Group(child_kind)) => {
                if size < 4 {
                    return Err(IffError::invalid("IFF: group child too short for a subtype ID"));
                }
                let kid = GroupChild::Group {
                    kind: child_kind,
                    inner_type: read_id(children, at + 8),
                    body: vstd::slice::slice_subrange(children, at + 12, end),
                };
                out.push(kid);
                assert(members(out@) =~= before.push(kid@));
            },
            _ => {
                return Err(IffError::Invalid(Reason::IllegalChild { id: id }));
            },
        }
        let ghost next = after_chunk(children@, at as int);
        assert(children_read(kind, children@, next, members(out@)) == target);
        at = end;
        if size % 2 == 1 && at < total {
            at += 1;
        }
        assert(children_read(kind, children@, next, members(out@)) == children_read(
            kind,
            children@,
            at as int,
            members(out@),
        ));
    }
    Ok(out)
}

/// The first shared properties for a form type.
pub open spec fn first_prop(kids: Seq<Child>, form_type: [u8; 4], i: int) -> Option<Seq<u8>>
    decreases kids.len() - i,
{
    if !(0 <= i < kids.len()) {
        None
    } else if kids[i] is Prop && kids[i].subtype() == form_type {
        Some(kids[i].body())
    } else {
        first_prop(kids, form_type, i + 1)
    }
}

/// The shared properties for a form type among the members of a `LIST`.
pub fn prop_for_form_type<'a>(children: &[GroupChild<'a>], form_type: [u8; 4]) -> (r: Option<
    &'a [u8],
>)
    ensures
        match first_prop(members(children@), form_type, 0) {
            Some(body) => r matches Some(s) && s@ == body,
            None => r is None,
        },
        forall|i: int|
            0 <= i < children@.len() && (#[trigger] children@[i] matches GroupChild::Prop {
                form_type: t,
                body,
            } && t == form_type && forall|j: int|
                0 <= j < i ==> !(#[trigger] children@[j] matches GroupChild::Prop {
                    form_type: u,
                    ..
                } && u == form_type)) ==> r == Some(children@[i]->Prop_body),
{
    let n: usize = children.len();
    let mut i: usize = 0;
    while i < n
        invariant
            n == children@.len(),
            i <= n,
            forall|j: int|
                0 <= j < i ==> !(#[trigger] children@[j] matches GroupChild::Prop {
                    form_type: u,
                    ..
                } && u == form_type),
            first_prop(members(children@), form_type, i as int) == first_prop(
                members(children@),
                form_type,
                0,
            ),
        decreases n - i,
    {
        assert(members(children@)[i as int] == children@[i as int]@);
        if let GroupChild::Prop { form_type: ft, body } = children[i] {
            if same_id(ft, form_type) {
                return Some(body);
            }
        }
        i += 1;
    }
    None
}

proof fn lemma_prop_found(kids: Seq<Child>, form_type: [u8; 4], i: int, at: int)
    requires
        0 <= at <= i < kids.len(),
        kids[i] matches Child::Prop { form_type: t, .. } && t == form_type,
        forall|j: int|
            0 <= j < i ==> !(#[trigger] kids[j] matches Child::Prop { form_type: u, .. } && u
                == form_type),
    ensures
        first_prop(kids, form_type, at) == Some(kids[i]->Prop_body),
    decreases i - at,
{
    if at < i {
        assert(!(kids[at] matches Child::Prop { form_type: u, .. } && u == form_type));
        lemma_prop_found(kids, form_type, i, at + 1);
    }
}

/// The shared properties for a form type are the bytes of the first member that has properties
/// for just that type, whatever other members there are.
pub proof fn law_prop_found(kids: Seq<Child>, form_type: [u8; 4], i: int)
    requires
        0 <= i < kids.len(),
        kids[i] matches Child::Prop { form_type: t, .. } && t == form_type,
        forall|j: int|
            0 <= j < i ==> !(#[trigger] kids[j] matches Child::Prop { form_type: u, .. } && u
                == form_type),
    ensures
        first_prop(kids, form_type, 0) == Some(kids[i]->Prop_body),
{
    lemma_prop_found(kids, form_type, i, 0);
}

proof fn lemma_prop_absent(kids: Seq<Child>, form_type: [u8; 4], at: int)
    requires
        0 <= at,
        forall|j: int|
            0 <= j < kids.len() ==> !(#[trigger] kids[j] matches Child::Prop {
                form_type: u,
                ..
            } && u == form_type),
    ensures
        first_prop(kids, form_type, at) is None,
    decreases kids.len() - at,
{
    if at < kids.len() {
        assert(!(kids[at] matches Child::Prop { form_type: u, .. } && u == form_type));
        lemma_prop_absent(kids, form_type, at + 1);
    }
}

/// Where no member has properties for a form type, there are none.
pub proof fn law_prop_absent(kids: Seq<Child>, form_type: [u8; 4])
    requires
        forall|j: int|
            0 <= j < kids.len() ==> !(#[trigger] kids[j] matches Child::Prop {
                form_type: u,
                ..
            } && u == form_type),
    ensures
        first_prop(kids, form_type, 0) is None,
{
    lemma_prop_absent(kids, form_type, 0);
}

/// The members obey the grammar of their group: shared properties come first, at most
/// once per form type, and only in a `LIST`.
pub open spec fn legal(kind: GroupKind, kids: Seq<Child>) -> bool {
    &&& kind != GroupKind::Form
    &&& forall|i: int, j: int|
        0 <= i < j < kids.len() && #[trigger] kids[i] is Group ==> #[trigger] kids[j] is Group
    &&& forall|i: int, j: int|
        0 <= i < j < kids.len() && #[trigger] kids[i] is Prop && #[trigger] kids[j] is Prop
            ==> kids[i].subtype() != kids[j].subtype()
    &&& kind == GroupKind::Cat ==> forall|i: int|
        0 <= i < kids.len() ==> #[trigger] kids[i] is Group
}

/// The bytes of the members from `i` on.
pub open spec fn children_bytes(kids: Seq<Child>, i: int) -> Seq<u8>
    decreases kids.len() - i,
{
    if 0 <= i < kids.len() {
        framed(kids[i].id(), kids[i].subtype()@ + kids[i].body()) + children_bytes(kids, i + 1)
    } else {
        Seq::empty()
    }
}

proof fn lemma_children_legal(kind: GroupKind, d: Seq<u8>, at: int, kids: Seq<Child>)
    requires
        legal(kind, kids),
        0 <= at,
    ensures
        children_read(kind, d, at, kids) matches Ok(all) ==> legal(kind, all),
    decreases d.len() + 1 - at,
{
    if at < d.len() && d.len() - at >= 8 && at + 8 + size_at(d, at) <= d.len() {
        match child_at(kind, d, at, kids) {
            Err(e) => {},
            Ok(None) => {
                lemma_children_legal(kind, d, after_chunk(d, at), kids);
            },
            Ok(Some(kid)) => {
                let next = kids.push(kid);
                assert(legal(kind, next)) by {
                    assert forall|i: int, j: int|
                        0 <= i < j < next.len() && #[trigger] next[i] is Group implies #[trigger] next[j] is Group by {
                        if j == kids.len() && kid is Prop {
                            assert(kids[i] is Group);
                            assert(has_group(kids));
                        }
                    }
                    assert forall|i: int, j: int|
                        0 <= i < j < next.len() && #[trigger] next[i] is Prop && #[trigger] next[j] is Prop implies next[i].subtype()
                        != next[j].subtype() by {
                        if j == kids.len() && next[i].subtype() == kid.subtype() {
                            assert(kids[i] is Prop);
                            assert(has_prop(kids, kid.subtype()));
                        }
                    }
                }
                lemma_children_legal(kind, d, after_chunk(d, at), next);
            },
        }
    }
}

/// Members that are read obey the grammar of their group.
pub proof fn law_children_legal(kind: GroupKind, d: Seq<u8>)
    ensures
        group_children(kind, d) matches Ok(kids) ==> legal(kind, kids),
{
    if kind != GroupKind::Form {
        lemma_children_legal(kind, d, 0, Seq::empty());
    }
}

/// Whether every member's size fits its field.
pub open spec fn sizes_fit(kids: Seq<Child>) -> bool {
    forall|i: int| 0 <= i < kids.len() ==> 4 + (#[trigger] kids[i]).body().len() <= u32::MAX
}

proof fn lemma_children_back(kind: GroupKind, kids: Seq<Child>, d: Seq<u8>, at: int, i: int)
    requires
        legal(kind, kids),
        0 <= i <= kids.len(),
        lies_at(d, at, children_bytes(kids, i)),
        at + children_bytes(kids, i).len() == d.len(),
        sizes_fit(kids),
    ensures
        children_read(kind, d, at, kids.take(i)) == Ok::<Seq<Child>, IffError>(kids),
    decreases kids.len() - i,
{
    let done = kids.take(i);
    if i < kids.len() {
        let kid = kids[i];
        let inner = kid.subtype()@ + kid.body();
        let rest = children_bytes(kids, i + 1);
        lemma_lies_split(d, at, framed(kid.id(), inner), rest);
        assert(framed(kid.id(), inner).len() >= inner.len());
        lemma_framed(d, at, kid.id(), inner);
        lemma_lies_split(d, at + 8, kid.subtype()@, kid.body());
        lemma_lies_byte(d, at + 8, kid.subtype()@, 0);
        lemma_lies_byte(d, at + 8, kid.subtype()@, 1);
        lemma_lies_byte(d, at + 8, kid.subtype()@, 2);
        lemma_lies_byte(d, at + 8, kid.subtype()@, 3);
        assert(id_at(d, at + 8) =~= kid.subtype());
        lemma_child_class(kid);
        assert(kid is Prop ==> !has_group(done)) by {
            if has_group(done) {
                let k = choose|k: int| 0 <= k < done.len() && #[trigger] done[k] is Group;
                assert(kids[k] is Group);
            }
        }
        assert(kid is Prop ==> !has_prop(done, kid.subtype())) by {
            if kid is Prop && has_prop(done, kid.subtype()) {
                let k = choose|k: int|
                    0 <= k < done.len() && #[trigger] done[k] is Prop && done[k].subtype()
                        == kid.subtype();
                assert(kids[k] is Prop && kids[i] is Prop);
            }
        }
        assert(child_at(kind, d, at, done) == Ok::<Option<Child>, IffError>(Some(kid)));
        assert(done.push(kid) =~= kids.take(i + 1));
        lemma_children_back(kind, kids, d, at + framed(kid.id(), inner).len(), i + 1);
    } else {
        assert(done =~= kids);
    }
}

proof fn lemma_child_class(kid: Child)
    ensures
        classified(kid.id()) == match kid {
            Child::Prop { .. } => Some(ReservedId::Prop),
            Child::Group { kind, .. } => Some(ReservedId::Group(kind)),
        },
{
    assert(PROP_ID[0] != FILLER_ID[0]);
    assert(GROUP_FORM[0] != FILLER_ID[0]);
    assert(GROUP_LIST[0] != FILLER_ID[0]);
    assert(GROUP_CAT[0] != FILLER_ID[0]);
    assert(GROUP_FORM[0] != PROP_ID[0]);
    assert(GROUP_LIST[0] != PROP_ID[0]);
    assert(GROUP_CAT[0] != PROP_ID[0]);
    assert(GROUP_LIST[0] != GROUP_FORM[0]);
    assert(GROUP_CAT[0] != GROUP_FORM[0]);
    assert(GROUP_CAT[0] != GROUP_LIST[0]);
}

/// Members that obey the grammar of their group are read back.
pub proof fn law_children_round_trip(kind: GroupKind, kids: Seq<Child>)
    requires
        legal(kind, kids),
        sizes_fit(kids),
    ensures
        group_children(kind, children_bytes(kids, 0)) == Ok::<Seq<Child>, IffError>(kids),
{
    let d = children_bytes(kids, 0);
    assert(d.subrange(0, d.len() as int) =~= d);
    assert(kids.take(0) =~= Seq::empty());
    lemma_children_back(kind, kids, d, 0, 0);
}

/// The header of a chunk.
#[derive(Clone, Copy, Debug, PartialEq, Eq)]
pub struct ChunkHeader {
    /// The id.
    pub id: [u8; 4],
    /// Bytes of the body.
    pub size: u32,
}

impl ChunkHeader {
    /// Reads a header.
    pub fn from_bytes(d: &[u8; 8]) -> (h: Self)
        ensures
            h.id == id_at(d@, 0),
            h.size == be32(d@, 4),
    {
        ChunkHeader { id: read_id(d, 0), size: read_be32(d, 4) }
    }

    /// The id as text.
    pub fn id_str(&self) -> (s: &str)
        ensures
            s@ == id_text(self.id@),
    {
        id_str(&self.id)
    }

    /// Bytes of the body and its pad byte.
    pub fn padded_size(&self) -> (n: u64)
        ensures
            n == self.size + self.size % 2,
    {
        self.size as u64 + (self.size % 2) as u64
    }

    /// Whether the chunk is a group.
    pub fn is_group(&self) -> (r: bool)
        ensures
            r == (group_kind(self.id) is Some),
    {
        GroupKind::from_id(self.id).is_some()
    }

    /// What the id means wherever it occurs.
    pub fn reserved(&self) -> (r: Option<ReservedId>)
        ensures
            r == classified(self.id),
    {
        ReservedId::classify(self.id)
    }

    /// Whether the chunk fills space.
    pub fn is_filler(&self) -> (r: bool)
        ensures
            r == (self.id == FILLER_ID),
    {
        same_id(self.id, FILLER_ID)
    }
}

/// Bytes that are read from front to back.
#[derive(Clone, Copy, Debug)]
pub struct ByteReader<'a> {
    /// The bytes.
    pub data: &'a [u8],
    /// Where the next byte is read; it may lie past the last one.
    pub pos: u64,
}

impl<'a> ByteReader<'a> {
    /// Starts with the first byte.
    pub fn new(data: &'a [u8]) -> (r: Self)
        ensures
            r.data == data,
            r.pos == 0,
    {
        ByteReader { data: data, pos: 0 }
    }

    /// The bytes that have not been read.
    pub open spec fn rest(self) -> Seq<u8> {
        if self.pos >= self.data@.len() {
            Seq::empty()
        } else {
            self.data@.skip(self.pos as int)
        }
    }

    fn left(&self) -> (n: usize)
        ensures
            n == self.rest().len(),
            self.pos + n <= u64::MAX,
            n > 0 ==> self.pos + n == self.data@.len(),
            self.data@.len() <= usize::MAX,
    {
        let total: usize = self.data.len();
        if self.pos >= total as u64 {
            0
        } else {
            total - self.pos as usize
        }
    }
}

/// Reads a chunk header; nothing at the end of the bytes.
pub fn read_chunk_header(r: &mut ByteReader) -> (h: Result<Option<ChunkHeader>, IffError>)
    ensures
        final(r).data == old(r).data,
        ({
            let d = old(r).rest();
            if d.len() == 0 {
                h == Ok::<Option<ChunkHeader>, IffError>(None) && final(r).pos == old(r).pos
            } else if d.len() < 8 {
                h == Err::<Option<ChunkHeader>, IffError>(
                    IffError::invalid("IFF: truncated chunk header"),
                ) && final(r).pos == old(r).data@.len()
            } else {
                h == Ok::<Option<ChunkHeader>, IffError>(
                    Some(ChunkHeader { id: id_at(d, 0), size: be32(d, 4) }),
                ) && final(r).pos == old(r).pos + 8
            }
        }),
{
    let n: usize = r.left();
    if n == 0 {
        return Ok(None);
    }
    if n < 8 {
        r.pos = r.data.len() as u64;
        return Err(IffError::invalid("IFF: truncated chunk header"));
    }
    let at: usize = r.pos as usize;
    r.pos = r.pos + 8;
    Ok(Some(ChunkHeader { id: read_id(r.data, at), size: read_be32(r.data, at + 4) }))
}

/// Reads the type at the start of a group's body.
pub fn read_form_type(r: &mut ByteReader) -> (t: Result<[u8; 4], IffError>)
    ensures
        final(r).data == old(r).data,
        if old(r).rest().len() < 4 {
            t == Err::<[u8; 4], IffError>(IffError::UnexpectedEnd) && final(r).rest().len() == 0
        } else {
            t == Ok::<[u8; 4], IffError>(id_at(old(r).rest(), 0)) && final(r).pos == old(r).pos + 4
        },
{
    let n: usize = r.left();
    if n < 4 {
        r.pos = r.pos + n as u64;
        return Err(IffError::UnexpectedEnd);
    }
    let at: usize = r.pos as usize;
    r.pos = r.pos + 4;
    Ok(read_id(r.data, at))
}

/// Reads the body of a chunk, without its pad byte.
pub fn read_body(r: &mut ByteReader, header: &ChunkHeader) -> (b: Result<Vec<u8>, IffError>)
    ensures
        final(r).data == old(r).data,
        if old(r).rest().len() < header.size {
            b == Err::<Vec<u8>, IffError>(IffError::UnexpectedEnd) && final(r).rest().len() == 0
        } else {
            b matches Ok(v) && v@ == old(r).rest().take(header.size as int) && final(r).pos
                == old(r).pos + header.size
        },
{
    let n: usize = r.left();
    let size: usize = header.size as usize;
    if n < size {
        r.pos = r.pos + n as u64;
        return Err(IffError::UnexpectedEnd);
    }
    if size == 0 {
        let none: Vec<u8> = Vec::new();
        assert(none@ =~= r.rest().take(0));
        return Ok(none);
    }
    let at: usize = r.pos as usize;
    let out: Vec<u8> = copy_range(r.data, at, at + size);
    assert(out@ =~= r.rest().take(size as int));
    r.pos = r.pos + size as u64;
    Ok(out)
}

/// Skips the body of a chunk and its pad byte.
pub fn skip_chunk_body(r: &mut ByteReader, header: &ChunkHeader) -> (x: Result<(), IffError>)
    requires
        old(r).pos + header.size + 1 <= u64::MAX,
    ensures
        x == Ok::<(), IffError>(()),
        final(r).data == old(r).data,
        final(r).pos == old(r).pos + header.size + header.size % 2,
{
    r.pos = r.pos + header.padded_size();
    Ok(())
}

/// Skips the pad byte behind a body that has been read.
pub fn skip_pad(r: &mut ByteReader, header: &ChunkHeader) -> (x: Result<(), IffError>)
    requires
        old(r).pos < u64::MAX,
    ensures
        x == Ok::<(), IffError>(()),
        final(r).data == old(r).data,
        final(r).pos == old(r).pos + header.size % 2,
{
    if header.size % 2 == 1 {
        r.pos = r.pos + 1;
    }
    Ok(())
}

/// The group that a stream starts with; nothing where the stream is empty.
pub open spec fn top_group_streamed(d: Seq<u8>) -> Result<Option<TopLevelGroup>, IffError> {
    if d.len() == 0 {
        Ok(None)
    } else if d.len() < 8 {
        Err(IffError::invalid("IFF: truncated chunk header"))
    } else {
        match group_kind(id_at(d, 0)) {
            None => Err(IffError::Invalid(Reason::NotGroup { id: id_at(d, 0) })),
            Some(kind) => if d.len() < 12 {
                Err(IffError::UnexpectedEnd)
            } else {
                Ok(Some(TopLevelGroup { kind: kind, size: be32(d, 4), inner_type: id_at(d, 8) }))
            },
        }
    }
}

/// Reads the header of the group that the bytes start with; nothing where there are none.
pub fn read_top_level_group(r: &mut ByteReader) -> (g: Result<Option<TopLevelGroup>, IffError>)
    ensures
        final(r).data == old(r).data,
        g == top_group_streamed(old(r).rest()),
        g matches Ok(Some(_)) ==> final(r).pos == old(r).pos + 12,
        g matches Ok(None) ==> final(r).pos == old(r).pos,
        g is Err && old(r).rest().len() >= 8 && group_kind(id_at(old(r).rest(), 0)) is None
            ==> final(r).pos == old(r).pos + 8,
        g is Err && (old(r).rest().len() < 8 || group_kind(id_at(old(r).rest(), 0)) is Some)
            ==> final(r).rest().len() == 0,
{
    let header: ChunkHeader = match read_chunk_header(r) {
        Ok(Some(h)) => h,
        Ok(None) => {
            return Ok(None);
        },
        Err(e) => {
            return Err(e);
        },
    };
    let kind: GroupKind = match GroupKind::from_id(header.id) {
        Some(kind) => kind,
        None => {
            return Err(IffError::Invalid(Reason::NotGroup { id: header.id }));
        },
    };
    match read_form_type(r) {
        Ok(inner_type) => Ok(
            Some(TopLevelGroup { kind: kind, size: header.size, inner_type: inner_type }),
        ),
        Err(e) => Err(e),
    }
}

/// With enough bytes to tell, a stream is taken for the same group as the bytes themselves.
pub proof fn law_stream_agrees_with_probe(d: Seq<u8>)
    ensures
        d.len() >= 12 ==> top_group_streamed(d) == top_group(d),
{
}

} // verus!
