//! The packed wire form of adjacency lists: one count byte per list, zero
//! bytes up to a multiple of four, then the members of each list in ascending
//! order as little-endian 32-bit numbers.

use vstd::multiset::Multiset;
use vstd::prelude::*;
use vstd::relations::{sorted_by, total_ordering};
use vstd::seq_lib::{lemma_multiset_commutative, lemma_sorted_unique};

verus! {

/// The largest number of members that one count byte can announce.
pub const MAX_LIST_LEN: usize = 255;

/// An adjacency list was too long for its count byte.
#[derive(Debug, PartialEq, Eq)]
pub struct EncodingContractViolation {
    /// The position of the first list that is too long.
    pub list: usize,
    /// The length of that list.
    pub len: usize,
}

/// The order in which members are written.
pub open spec fn id_leq() -> spec_fn(u32, u32) -> bool {
    |a: u32, b: u32| a <= b
}

/// The members of a list in ascending order.
pub open spec fn ascending(ids: Seq<u32>) -> Seq<u32> {
    ids.sort_by(id_leq())
}

/// The four bytes of a member, least significant first.
pub open spec fn le_bytes(id: u32) -> Seq<u8> {
    seq![
        (id % 256) as u8,
        (id / 256 % 256) as u8,
        (id / 65536 % 256) as u8,
        (id / 16777216) as u8,
    ]
}

/// The member that four little-endian bytes stand for.
pub open spec fn id_from_le(bytes: Seq<u8>) -> u32 {
    (bytes[0] + 256 * bytes[1] + 65536 * bytes[2] + 16777216 * bytes[3]) as u32
}

/// The bytes of a run of members, in the order given.
pub open spec fn ids_bytes(ids: Seq<u32>) -> Seq<u8>
    decreases ids.len(),
{
    if ids.len() == 0 {
        Seq::empty()
    } else {
        ids_bytes(ids.drop_last()) + le_bytes(ids.last())
    }
}

/// One byte per list: its length.
pub open spec fn count_bytes(lists: Seq<Seq<u32>>) -> Seq<u8> {
    Seq::new(lists.len(), |i: int| lists[i].len() as u8)
}

/// The number of zero bytes after `k` count bytes.
pub open spec fn padding_len(k: int) -> int {
    (4 - k % 4) % 4
}

/// The zero bytes after `k` count bytes.
pub open spec fn padding(k: int) -> Seq<u8> {
    Seq::new(padding_len(k) as nat, |i: int| 0u8)
}

/// The members of all lists, each list in ascending order.
pub open spec fn members_bytes(lists: Seq<Seq<u32>>) -> Seq<u8>
    decreases lists.len(),
{
    if lists.len() == 0 {
        Seq::empty()
    } else {
        members_bytes(lists.drop_last()) + ids_bytes(ascending(lists.last()))
    }
}

/// The packed form of `lists`.
pub open spec fn packed(lists: Seq<Seq<u32>>) -> Seq<u8> {
    count_bytes(lists) + padding(lists.len() as int) + members_bytes(lists)
}

/// The number of members in all lists together.
pub open spec fn member_count(lists: Seq<Seq<u32>>) -> nat
    decreases lists.len(),
{
    if lists.len() == 0 {
        0
    } else {
        member_count(lists.drop_last()) + lists.last().len()
    }
}

/// Whether every list is short enough for its count byte.
pub open spec fn all_fit(lists: Seq<Seq<u32>>) -> bool {
    forall|i: int| 0 <= i < lists.len() ==> (#[trigger] lists[i]).len() <= MAX_LIST_LEN
}

/// The lists of a vector of vectors.
pub open spec fn list_views(lists: Seq<Vec<u32>>) -> Seq<Seq<u32>> {
    Seq::new(lists.len(), |i: int| lists[i]@)
}

proof fn lemma_id_leq_total()
    ensures
        total_ordering(id_leq()),
{
}

/// Sorting keeps the members of a list and puts them in ascending order.
pub proof fn lemma_ascending(ids: Seq<u32>)
    ensures
        ascending(ids).len() == ids.len(),
        ascending(ids).to_multiset() == ids.to_multiset(),
        forall|i: int, j: int|
            0 <= i < j < ascending(ids).len() ==> ascending(ids)[i] <= ascending(ids)[j],
{
    broadcast use vstd::seq_lib::group_to_multiset_ensures;

    lemma_id_leq_total();
    ids.lemma_sort_by_ensures(id_leq());
    assert(ascending(ids).to_multiset().len() == ids.to_multiset().len());
    assert forall|i: int, j: int| 0 <= i < j < ascending(ids).len() implies ascending(ids)[i]
        <= ascending(ids)[j] by {
        assert(id_leq()(ascending(ids)[i], ascending(ids)[j]));
    }
}

proof fn lemma_insert_multiset(s: Seq<u32>, p: int, x: u32)
    requires
        0 <= p <= s.len(),
    ensures
        s.insert(p, x).to_multiset() == s.to_multiset().insert(x),
{
    broadcast use vstd::seq_lib::group_to_multiset_ensures;

    let front = s.take(p);
    let back = s.skip(p);
    assert(s.insert(p, x) =~= front.push(x) + back);
    assert(s =~= front + back);
    lemma_multiset_commutative(front.push(x), back);
    lemma_multiset_commutative(front, back);
    assert(front.push(x).to_multiset() =~= front.to_multiset().insert(x));
    assert(s.insert(p, x).to_multiset() =~= s.to_multiset().insert(x));
}

/// A copy of `ids` in ascending order.
pub fn sorted_ascending(ids: &Vec<u32>) -> (sorted: Vec<u32>)
    ensures
        sorted@ == ascending(ids@),
{
    let mut sorted: Vec<u32> = Vec::new();
    let mut k: usize = 0;
    assert(ids@.take(0) =~= Seq::<u32>::empty());
    while k < ids.len()
        invariant
            k <= ids.len(),
            sorted@.len() == k,
            sorted@.to_multiset() == ids@.take(k as int).to_multiset(),
            forall|i: int, j: int| 0 <= i < j < sorted@.len() ==> sorted@[i] <= sorted@[j],
        decreases ids.len() - k,
    {
        let x = ids[k];
        let mut p: usize = 0;
        while p < sorted.len() && sorted[p] <= x
            invariant
                p <= sorted@.len(),
                forall|i: int| 0 <= i < p ==> sorted@[i] <= x,
            decreases sorted@.len() - p,
        {
            p += 1;
        }
        let ghost before = sorted@;
        sorted.insert(p, x);
        proof {
            broadcast use vstd::seq_lib::group_to_multiset_ensures;

            lemma_insert_multiset(before, p as int, x);
            assert(ids@.take(k + 1) =~= ids@.take(k as int).push(x));
            assert forall|i: int, j: int| 0 <= i < j < sorted@.len() implies sorted@[i]
                <= sorted@[j] by {
                if j < p {
                    assert(sorted@[i] == before[i] && sorted@[j] == before[j]);
                } else if j == p {
                    assert(sorted@[i] == before[i]);
                } else if i < p {
                    assert(sorted@[i] == before[i] && sorted@[j] == before[j - 1]);
                } else if i == p {
                    assert(sorted@[j] == before[j - 1]);
                    assert(before[p as int] > x);
                    assert(before[p as int] <= before[j - 1]);
                } else {
                    assert(sorted@[i] == before[i - 1] && sorted@[j] == before[j - 1]);
                }
            }
        }
        k += 1;
    }
    proof {
        assert(ids@.take(k as int) =~= ids@);
        lemma_id_leq_total();
        lemma_ascending(ids@);
        assert(sorted_by(sorted@, id_leq()));
        assert(sorted_by(ascending(ids@), id_leq()));
        lemma_sorted_unique(sorted@, ascending(ids@), id_leq());
    }
    sorted
}

/// Appends the four little-endian bytes of `id`.
fn push_le_bytes(out: &mut Vec<u8>, id: u32)
    ensures
        final(out)@ == old(out)@ + le_bytes(id),
{
    out.push((id % 256) as u8);
    out.push((id / 256 % 256) as u8);
    out.push((id / 65536 % 256) as u8);
    out.push((id / 16777216) as u8);
    assert(out@ =~= old(out)@ + le_bytes(id));
}

/// Packs adjacency lists into their wire form.
///
/// Fails on the first list that has more than 255 members; nothing is
/// truncated.
pub fn pack_artist_relationships(artist_relationships: Vec<Vec<u32>>) -> (result: Result<
    Vec<u8>,
    EncodingContractViolation,
>)
    ensures
        match result {
            Ok(bytes) => all_fit(list_views(artist_relationships@)) && bytes@ == packed(
                list_views(artist_relationships@),
            ),
            Err(e) => {
                &&& e.list < artist_relationships@.len()
                &&& e.len == artist_relationships@[e.list as int]@.len()
                &&& e.len > MAX_LIST_LEN
                &&& forall|i: int|
                    0 <= i < e.list ==> (#[trigger] artist_relationships@[i])@.len()
                        <= MAX_LIST_LEN
            },
        },
{
    let ghost lists = list_views(artist_relationships@);
    let mut out: Vec<u8> = Vec::new();
    let mut i: usize = 0;
    while i < artist_relationships.len()
        invariant
            i <= artist_relationships@.len(),
            lists == list_views(artist_relationships@),
            out@ == count_bytes(lists.take(i as int)),
            forall|j: int| 0 <= j < i ==> (#[trigger] artist_relationships@[j])@.len() <= MAX_LIST_LEN,
        decreases artist_relationships@.len() - i,
    {
        let len = artist_relationships[i].len();
        if len > MAX_LIST_LEN {
            return Err(EncodingContractViolation { list: i, len });
        }
        out.push(len as u8);
        assert(out@ =~= count_bytes(lists.take(i + 1)));
        i += 1;
    }
    assert(lists.take(i as int) =~= lists);
    assert(all_fit(lists)) by {
        assert forall|j: int| 0 <= j < lists.len() implies (#[trigger] lists[j]).len()
            <= MAX_LIST_LEN by {
            assert(artist_relationships@[j]@.len() <= MAX_LIST_LEN);
        }
    }
    let ghost counts = out@;
    while out.len() % 4 != 0
        invariant
            counts == count_bytes(lists),
            lists.len() <= out@.len() <= lists.len() + 3,
            out@.len() - lists.len() <= padding_len(lists.len() as int),
            out@ == counts + Seq::new((out@.len() - lists.len()) as nat, |j: int| 0u8),
        decreases padding_len(lists.len() as int) - (out@.len() - lists.len()),
    {
        let ghost before = out@;
        out.push(0);
        assert(out@ =~= counts + Seq::new((out@.len() - lists.len()) as nat, |j: int| 0u8));
    }
    assert(out@ =~= counts + padding(lists.len() as int));
    let ghost head = out@;
    let mut i: usize = 0;
    assert(lists.take(0) =~= Seq::<Seq<u32>>::empty());
    while i < artist_relationships.len()
        invariant
            i <= artist_relationships@.len(),
            lists == list_views(artist_relationships@),
            out@ == head + members_bytes(lists.take(i as int)),
        decreases artist_relationships@.len() - i,
    {
        let sorted = sorted_ascending(&artist_relationships[i]);
        let ghost start = out@;
        let mut j: usize = 0;
        assert(sorted@.take(0) =~= Seq::<u32>::empty());
        while j < sorted.len()
            invariant
                j <= sorted@.len(),
                out@ == start + ids_bytes(sorted@.take(j as int)),
            decreases sorted@.len() - j,
        {
            push_le_bytes(&mut out, sorted[j]);
            proof {
                assert(sorted@.take(j + 1).drop_last() =~= sorted@.take(j as int));
                assert(out@ =~= start + ids_bytes(sorted@.take(j + 1)));
            }
            j += 1;
        }
        proof {
            assert(sorted@.take(j as int) =~= sorted@);
            assert(lists.take(i + 1).drop_last() =~= lists.take(i as int));
            assert(lists.take(i + 1).last() == artist_relationships@[i as int]@);
            assert(out@ =~= head + members_bytes(lists.take(i + 1)));
        }
        i += 1;
    }
    assert(lists.take(i as int) =~= lists);
    assert(out@ =~= packed(lists));
    Ok(out)
}

// ---------------------------------------------------------------------
// Reading a packed form back
// ---------------------------------------------------------------------

/// The number of members that the first `i` count bytes announce.
pub open spec fn members_before(bytes: Seq<u8>, i: int) -> nat
    decreases i,
{
    if i <= 0 {
        0
    } else {
        members_before(bytes, i - 1) + bytes[i - 1] as nat
    }
}

/// List `i` as read back from the packed form of `k` lists.
pub open spec fn unpacked_list(bytes: Seq<u8>, k: int, i: int) -> Seq<u32> {
    let base = k + padding_len(k) + 4 * members_before(bytes, i);
    Seq::new(
        bytes[i] as nat,
        |j: int| id_from_le(bytes.subrange(base + 4 * j, base + 4 * j + 4)),
    )
}

/// The `k` lists read back from a packed form.
pub open spec fn unpacked(bytes: Seq<u8>, k: nat) -> Seq<Seq<u32>> {
    Seq::new(k, |i: int| unpacked_list(bytes, k as int, i))
}

/// Four little-endian bytes give their member back.
pub proof fn lemma_le_round_trip(id: u32)
    ensures
        le_bytes(id).len() == 4,
        id_from_le(le_bytes(id)) == id,
{
}

proof fn lemma_ids_bytes(ids: Seq<u32>)
    ensures
        ids_bytes(ids).len() == 4 * ids.len(),
        forall|j: int|
            0 <= j < ids.len() ==> #[trigger] ids_bytes(ids).subrange(4 * j, 4 * j + 4)
                == le_bytes(ids[j]),
    decreases ids.len(),
{
    if ids.len() > 0 {
        let front = ids.drop_last();
        lemma_ids_bytes(front);
        assert forall|j: int| 0 <= j < ids.len() implies #[trigger] ids_bytes(ids).subrange(
            4 * j,
            4 * j + 4,
        ) == le_bytes(ids[j]) by {
            if j < front.len() {
                assert(ids_bytes(ids).subrange(4 * j, 4 * j + 4) =~= ids_bytes(front).subrange(
                    4 * j,
                    4 * j + 4,
                ));
                assert(front[j] == ids[j]);
            } else {
                assert(ids_bytes(ids).subrange(4 * j, 4 * j + 4) =~= le_bytes(ids.last()));
            }
        }
    }
}

proof fn lemma_member_count_take(lists: Seq<Seq<u32>>, i: int)
    requires
        0 <= i < lists.len(),
    ensures
        member_count(lists.take(i + 1)) == member_count(lists.take(i)) + lists[i].len(),
        member_count(lists.take(i)) + lists[i].len() <= member_count(lists),
    decreases lists.len() - i,
{
    assert(lists.take(i + 1).drop_last() =~= lists.take(i));
    if i + 1 < lists.len() {
        lemma_member_count_take(lists, i + 1);
    } else {
        assert(lists.take(i + 1) =~= lists);
    }
}

proof fn lemma_members_bytes(lists: Seq<Seq<u32>>)
    ensures
        members_bytes(lists).len() == 4 * member_count(lists),
        forall|i: int|
            0 <= i < lists.len() ==> #[trigger] members_bytes(lists).subrange(
                4 * member_count(lists.take(i)) as int,
                4 * member_count(lists.take(i)) as int + 4 * lists[i].len() as int,
            ) == ids_bytes(ascending(lists[i])),
    decreases lists.len(),
{
    if lists.len() > 0 {
        let front = lists.drop_last();
        let n = front.len() as int;
        lemma_members_bytes(front);
        lemma_ascending(lists.last());
        lemma_ids_bytes(ascending(lists.last()));
        assert forall|i: int| 0 <= i < lists.len() implies #[trigger] members_bytes(
            lists,
        ).subrange(
            4 * member_count(lists.take(i)) as int,
            4 * member_count(lists.take(i)) as int + 4 * lists[i].len() as int,
        ) == ids_bytes(ascending(lists[i])) by {
            let lo = 4 * member_count(lists.take(i)) as int;
            let hi = lo + 4 * lists[i].len() as int;
            if i < n {
                assert(lists.take(i) =~= front.take(i));
                assert(front[i] == lists[i]);
                lemma_member_count_take(front, i);
                assert(members_bytes(lists).subrange(lo as int, hi as int) =~= members_bytes(
                    front,
                ).subrange(lo as int, hi as int));
            } else {
                assert(lists.take(i) =~= front);
                assert(members_bytes(lists).subrange(lo as int, hi as int) =~= ids_bytes(
                    ascending(lists.last()),
                ));
            }
        }
    }
}

proof fn lemma_members_before(lists: Seq<Seq<u32>>, bytes: Seq<u8>, i: int)
    requires
        all_fit(lists),
        0 <= i <= lists.len(),
        bytes.len() >= lists.len(),
        forall|j: int| 0 <= j < lists.len() ==> bytes[j] == lists[j].len(),
    ensures
        members_before(bytes, i) == member_count(lists.take(i)),
    decreases i,
{
    if i > 0 {
        lemma_members_before(lists, bytes, i - 1);
        lemma_member_count_take(lists, i - 1);
    } else {
        assert(lists.take(0) =~= Seq::<Seq<u32>>::empty());
    }
}

/// The packed form of `k` lists with `m` members in all has
/// `k + (4 - k mod 4) mod 4 + 4 m` bytes.
pub proof fn lemma_packed_len(lists: Seq<Seq<u32>>)
    ensures
        packed(lists).len() == lists.len() + padding_len(lists.len() as int) + 4 * member_count(
            lists,
        ),
        0 <= padding_len(lists.len() as int) <= 3,
        (lists.len() + padding_len(lists.len() as int)) % 4 == 0,
{
    lemma_members_bytes(lists);
}

/// Reading a packed form back gives every list in ascending order.
pub proof fn lemma_unpack_packed(lists: Seq<Seq<u32>>)
    requires
        all_fit(lists),
    ensures
        unpacked(packed(lists), lists.len()) == Seq::new(
            lists.len(),
            |i: int| ascending(lists[i]),
        ),
{
    let k = lists.len() as int;
    let bytes = packed(lists);
    let head = k + padding_len(k);
    lemma_members_bytes(lists);
    assert forall|i: int| 0 <= i < k implies unpacked_list(bytes, k, i) == ascending(
        lists[i],
    ) by {
        let sorted = ascending(lists[i]);
        lemma_ascending(lists[i]);
        lemma_ids_bytes(sorted);
        assert(lists[i].len() <= MAX_LIST_LEN);
        assert(bytes[i] == count_bytes(lists)[i]);
        assert forall|j: int| 0 <= j < lists.len() implies bytes[j] == lists[j].len() by {
            assert(lists[j].len() <= MAX_LIST_LEN);
            assert(bytes[j] == count_bytes(lists)[j]);
        }
        lemma_members_before(lists, bytes, i);
        lemma_member_count_take(lists, i);
        let offset = 4 * member_count(lists.take(i)) as int;
        let base = head + offset;
        let segment = members_bytes(lists).subrange(offset, offset + 4 * lists[i].len() as int);
        assert(segment == ids_bytes(sorted));
        assert forall|j: int| 0 <= j < sorted.len() implies id_from_le(
            bytes.subrange(base + 4 * j, base + 4 * j + 4),
        ) == sorted[j] by {
            assert(bytes.subrange(base + 4 * j, base + 4 * j + 4) =~= segment.subrange(
                4 * j,
                4 * j + 4,
            ));
            assert(ids_bytes(sorted).subrange(4 * j, 4 * j + 4) == le_bytes(sorted[j]));
            lemma_le_round_trip(sorted[j]);
        }
        assert(unpacked_list(bytes, k, i) =~= sorted);
    }
    assert(unpacked(packed(lists), lists.len()) =~= Seq::new(
        lists.len(),
        |i: int| ascending(lists[i]),
    ));
}

} // verus!
