//! Mate resolution: links the fragments of each template within one slice.
//!
//! A record whose CRAM flags say that its mate is downstream points at the record
//! `distance_to_next_fragment + 1` places after it. Following these links from a
//! record that no other record points at (the head of a chain) visits the fragments
//! of one template; the last one is linked back to the head, closing the ring.
use vstd::prelude::*;

use crate::error::DecodeError;
use crate::record::{has_mate_downstream_bits, Record, RecordView};

verus! {

/// The views of a list of records.
pub open spec fn views(rs: Seq<Record>) -> Seq<RecordView> {
    rs.map_values(|r: Record| r@)
}

/// The index of the mate of record `i`, when its flags say that the mate is downstream.
pub open spec fn mate_target(rs: Seq<RecordView>, i: int) -> Option<int> {
    if has_mate_downstream_bits(rs[i].cram_bit_flags) {
        Some(i + rs[i].distance_to_next_fragment + 1)
    } else {
        None
    }
}

/// Every downstream mate lies after its record and inside the slice.
pub open spec fn mates_in_range(rs: Seq<RecordView>) -> bool {
    forall|i: int|
        0 <= i < rs.len() ==> match #[trigger] mate_target(rs, i) {
            Some(j) => i < j < rs.len(),
            None => true,
        }
}

/// The downstream-mate table of the records, as a sequence of indices.
pub open spec fn mate_table(rs: Seq<RecordView>) -> Seq<Option<int>> {
    Seq::new(rs.len(), |i: int| mate_target(rs, i))
}

/// Record `i` has a mate and no record has it as its mate: a chain starts there.
pub open spec fn is_head(m: Seq<Option<int>>, i: int) -> bool {
    m[i].is_some() && !exists|p: int| 0 <= p < m.len() && #[trigger] m[p] == Some(i)
}

/// The decimal digits of `n`.
pub open spec fn decimal(n: nat) -> Seq<u8>
    decreases n,
{
    if n < 10 {
        seq![(48 + n) as u8]
    } else {
        decimal(n / 10).push((48 + n % 10) as u8)
    }
}

/// The name given to an unnamed record at the head of a chain: its id in decimal.
pub open spec fn id_name(id: i64) -> Seq<u8> {
    if id < 0 {
        seq![45u8] + decimal((-id) as nat)
    } else {
        decimal(id as nat)
    }
}

/// The BAM flags of a record after taking its mate's strand and mapping state: the
/// mate-reverse bit (0x20) when the mate is reverse complemented (0x10), and the
/// mate-unmapped bit (0x8) when the mate is unmapped (0x4).
pub open spec fn with_mate_flags(flags: i32, mate_flags: i32) -> i32 {
    let f = if mate_flags & 0x10 != 0 {
        flags | 0x20
    } else {
        flags
    };
    if mate_flags & 0x04 != 0 {
        f | 0x08
    } else {
        f
    }
}

/// Record `a` takes `b` as its mate: it takes `b`'s flags, reference id and position,
/// and `b` takes `a`'s name when it has none.
pub open spec fn set_mate(rs: Seq<RecordView>, a: int, b: int) -> Seq<RecordView> {
    let rec = rs[a];
    let mate = rs[b];
    let mate1 = if mate.read_name.len() == 0 {
        RecordView { read_name: rec.read_name, ..mate }
    } else {
        mate
    };
    let rec1 = RecordView {
        bam_bit_flags: with_mate_flags(rec.bam_bit_flags, mate.bam_bit_flags),
        next_fragment_reference_sequence_id: mate.reference_id,
        next_mate_alignment_start: mate.alignment_start,
        ..rec
    };
    rs.update(b, mate1).update(a, rec1)
}

/// Gives record `i` the name made from its id when it has none.
pub open spec fn seed_name(rs: Seq<RecordView>, i: int) -> Seq<RecordView> {
    if rs[i].read_name.len() == 0 {
        rs.update(i, RecordView { read_name: id_name(rs[i].id), ..rs[i] })
    } else {
        rs
    }
}

/// Follows the chain from `j` to its end, linking each record to the next, then links
/// the last one back to `start`.
pub open spec fn walk(m: Seq<Option<int>>, rs: Seq<RecordView>, start: int, j: int) -> Seq<
    RecordView,
>
    decreases m.len() - j,
{
    if 0 <= j < m.len() && m[j].is_some() && j < m[j].unwrap() < m.len() {
        walk(m, set_mate(rs, j, m[j].unwrap()), start, m[j].unwrap())
    } else {
        set_mate(rs, j, start)
    }
}

/// Resolves the chains whose heads are at `i` and after.
pub open spec fn resolve_from(m: Seq<Option<int>>, rs: Seq<RecordView>, i: int) -> Seq<
    RecordView,
>
    decreases m.len() - i,
{
    if i < 0 || i >= m.len() {
        rs
    } else if is_head(m, i) {
        resolve_from(m, walk(m, seed_name(rs, i), i, i), i + 1)
    } else {
        resolve_from(m, rs, i + 1)
    }
}

/// The records after mate resolution.
pub open spec fn resolved(rs: Seq<RecordView>) -> Seq<RecordView> {
    resolve_from(mate_table(rs), rs, 0)
}

/// Appends the decimal digits of `n`.
fn push_decimal(n: u64, out: &mut Vec<u8>)
    ensures
        final(out)@ == old(out)@ + decimal(n as nat),
    decreases n,
{
    if n >= 10 {
        push_decimal(n / 10, out);
    }
    out.push((48 + n % 10) as u8);
    proof {
        assert(final(out)@ =~= old(out)@ + decimal(n as nat));
    }
}

/// The record name made from a record id.
fn name_from_id(id: i64) -> (r: Vec<u8>)
    ensures
        r@ == id_name(id),
{
    let mut out: Vec<u8> = Vec::new();
    if id < 0 {
        out.push(45u8);
        let magnitude: u64 = (-(id as i128)) as u64;
        push_decimal(magnitude, &mut out);
        proof {
            assert(out@ =~= id_name(id));
        }
    } else {
        push_decimal(id as u64, &mut out);
        proof {
            assert(out@ =~= id_name(id));
        }
    }
    out
}

/// A copy of a byte buffer.
fn copy_bytes(src: &Vec<u8>) -> (r: Vec<u8>)
    ensures
        r@ == src@,
{
    let mut out: Vec<u8> = Vec::new();
    let mut i: usize = 0;
    while i < src.len()
        invariant
            i <= src.len(),
            out@ == src@.subrange(0, i as int),
        decreases src.len() - i,
    {
        out.push(src[i]);
        i = i + 1;
        proof {
            assert(out@ =~= src@.subrange(0, i as int));
        }
    }
    proof {
        assert(out@ =~= src@);
    }
    out
}

fn with_mate_flags_exec(flags: i32, mate_flags: i32) -> (r: i32)
    ensures
        r == with_mate_flags(flags, mate_flags),
{
    let f = if mate_flags & 0x10 != 0 {
        flags | 0x20
    } else {
        flags
    };
    if mate_flags & 0x04 != 0 {
        f | 0x08
    } else {
        f
    }
}

/// Record `a` takes record `b` as its mate.
fn set_mate_exec(records: &mut Vec<Record>, a: usize, b: usize)
    requires
        a < old(records).len(),
        b < old(records).len(),
        a != b,
    ensures
        final(records)@.len() == old(records)@.len(),
        views(final(records)@) == set_mate(views(old(records)@), a as int, b as int),
{
    let ghost before = views(records@);
    let mate_flags = records[b].bam_bit_flags;
    let mate_reference_id = records[b].reference_id;
    let mate_alignment_start = records[b].alignment_start;
    if records[b].read_name.len() == 0 {
        let name = copy_bytes(&records[a].read_name);
        records[b].read_name = name;
    }
    let flags = with_mate_flags_exec(records[a].bam_bit_flags, mate_flags);
    records[a].bam_bit_flags = flags;
    records[a].next_fragment_reference_sequence_id = mate_reference_id;
    records[a].next_mate_alignment_start = mate_alignment_start;
    proof {
        assert(views(records@) =~= set_mate(before, a as int, b as int));
    }
}

/// The index held by an entry of the mate table, as a mathematical integer.
pub open spec fn index_of(o: Option<usize>) -> Option<int> {
    match o {
        Some(j) => Some(j as int),
        None => None,
    }
}

/// Builds the mate table, or fails when a mate lies outside the slice.
fn mate_indices(records: &Vec<Record>) -> (r: Result<Vec<Option<usize>>, DecodeError>)
    ensures
        mates_in_range(views(records@)) <==> r is Ok,
        r is Ok ==> r->Ok_0@.len() == records@.len() && forall|k: int|
            0 <= k < records@.len() ==> index_of(#[trigger] r->Ok_0@[k]) == mate_table(
                views(records@),
            )[k],
        r is Err ==> r == Err::<Vec<Option<usize>>, DecodeError>(DecodeError::MateIndexOutOfRange),
{
    let ghost v = views(records@);
    let n = records.len();
    let mut mates: Vec<Option<usize>> = Vec::new();
    let mut i: usize = 0;
    while i < n
        invariant
            n == records@.len(),
            v == views(records@),
            i <= n,
            mates@.len() == i,
            forall|k: int| 0 <= k < i ==> index_of(#[trigger] mates@[k]) == mate_target(v, k),
            forall|k: int|
                0 <= k < i ==> match #[trigger] mate_target(v, k) {
                    Some(j) => k < j < n,
                    None => true,
                },
        decreases n - i,
    {
        let record = &records[i];
        if record.cram_bit_flags & 0x04 != 0 {
            let d = record.distance_to_next_fragment;
            if d < 0 || d as usize >= n - 1 - i {
                proof {
                    assert(mate_target(v, i as int) == Some(i + d + 1));
                    assert(!mates_in_range(v));
                }
                return Err(DecodeError::MateIndexOutOfRange);
            }
            mates.push(Some(i + d as usize + 1));
        } else {
            mates.push(None);
        }
        i = i + 1;
    }
    proof {
        assert(mates_in_range(v));
    }
    Ok(mates)
}

/// Marks the records that another record has as its mate.
fn mate_targets(mates: &Vec<Option<usize>>) -> (r: Vec<bool>)
    requires
        forall|k: int|
            0 <= k < mates@.len() ==> match #[trigger] mates@[k] {
                Some(j) => j < mates@.len(),
                None => true,
            },
    ensures
        r@.len() == mates@.len(),
        forall|x: int|
            0 <= x < mates@.len() ==> (#[trigger] r@[x] <==> exists|p: int|
                0 <= p < mates@.len() && #[trigger] index_of(mates@[p]) == Some(x)),
{
    let n = mates.len();
    let mut targeted: Vec<bool> = Vec::new();
    let mut i: usize = 0;
    while i < n
        invariant
            n == mates@.len(),
            i <= n,
            targeted@.len() == i,
            forall|x: int| 0 <= x < i ==> !#[trigger] targeted@[x],
        decreases n - i,
    {
        targeted.push(false);
        i = i + 1;
    }
    let mut k: usize = 0;
    while k < n
        invariant
            n == mates@.len(),
            k <= n,
            targeted@.len() == n,
            forall|q: int|
                0 <= q < n ==> match #[trigger] mates@[q] {
                    Some(j) => j < n,
                    None => true,
                },
            forall|x: int|
                0 <= x < n ==> (#[trigger] targeted@[x] <==> exists|p: int|
                    0 <= p < k && #[trigger] index_of(mates@[p]) == Some(x)),
        decreases n - k,
    {
        match mates[k] {
            Some(j) => {
                targeted.set(j, true);
                proof {
                    assert(index_of(mates@[k as int]) == Some(j as int));
                }
            },
            None => {},
        }
        k = k + 1;
    }
    targeted
}

/// Resolves the mates of a slice's records (see the module documentation). Fails,
/// changing nothing, when a downstream mate lies outside the slice.
pub fn resolve_mates(records: Vec<Record>) -> (r: Result<Vec<Record>, DecodeError>)
    ensures
        mates_in_range(views(records@)) ==> r is Ok && views(r->Ok_0@) == resolved(
            views(records@),
        ),
        !mates_in_range(views(records@)) ==> r == Err::<Vec<Record>, DecodeError>(
            DecodeError::MateIndexOutOfRange,
        ),
{
    let ghost orig = views(records@);
    let ghost m = mate_table(orig);
    let mates = match mate_indices(&records) {
        Ok(mates) => mates,
        Err(e) => {
            return Err(e);
        },
    };
    let targeted = mate_targets(&mates);
    let mut records = records;
    let n = records.len();
    let mut i: usize = 0;
    while i < n
        invariant
            n == records@.len(),
            n == mates@.len(),
            n == targeted@.len(),
            m.len() == n,
            mates_in_range(orig),
            m == mate_table(orig),
            forall|k: int| 0 <= k < n ==> index_of(#[trigger] mates@[k]) == m[k],
            forall|x: int|
                0 <= x < n ==> (#[trigger] targeted@[x] <==> exists|p: int|
                    0 <= p < n && #[trigger] index_of(mates@[p]) == Some(x)),
            i <= n,
            resolve_from(m, views(records@), i as int) == resolved(orig),
        decreases n - i,
    {
        proof {
            assert(mate_target(orig, i as int) == m[i as int]);
        }
        if mates[i].is_some() && !targeted[i] {
            proof {
                assert(is_head(m, i as int)) by {
                    if exists|p: int| 0 <= p < m.len() && #[trigger] m[p] == Some(i as int) {
                        let p = choose|p: int| 0 <= p < m.len() && #[trigger] m[p] == Some(i as int);
                        assert(index_of(mates@[p]) == Some(i as int));
                    }
                }
            }
            let ghost before = views(records@);
            if records[i].read_name.len() == 0 {
                let name = name_from_id(records[i].id);
                records[i].read_name = name;
            }
            let ghost seeded = views(records@);
            proof {
                assert(seeded =~= seed_name(before, i as int));
            }
            let mut j: usize = i;
            while mates[j].is_some()
                invariant
                    n == records@.len(),
                    n == mates@.len(),
                    m.len() == n,
                    mates_in_range(orig),
                    m == mate_table(orig),
                    forall|k: int| 0 <= k < n ==> index_of(#[trigger] mates@[k]) == m[k],
                    i <= j < n,
                    j == i ==> mates@[j as int].is_some(),
                    walk(m, views(records@), i as int, j as int) == walk(m, seeded, i as int, i as int),
                decreases n - j,
            {
                let k = mates[j].unwrap();
                proof {
                    assert(mate_target(orig, j as int) == m[j as int]);
                }
                set_mate_exec(&mut records, j, k);
                j = k;
            }
            set_mate_exec(&mut records, j, i);
        } else {
            proof {
                if targeted@[i as int] {
                    let p = choose|p: int|
                        0 <= p < n && #[trigger] index_of(mates@[p]) == Some(i as int);
                    assert(m[p] == Some(i as int));
                }
            }
        }
        i = i + 1;
    }
    Ok(records)
}

/// Every mate in the table lies after its record and inside the slice.
pub open spec fn table_forward(m: Seq<Option<int>>) -> bool {
    forall|x: int|
        0 <= x < m.len() ==> match #[trigger] m[x] {
            Some(y) => x < y < m.len(),
            None => true,
        }
}

/// No record has record `k` as its mate.
pub open spec fn is_target(m: Seq<Option<int>>, k: int) -> bool {
    exists|p: int| 0 <= p < m.len() && #[trigger] m[p] == Some(k)
}

proof fn lemma_walk_frame(m: Seq<Option<int>>, rs: Seq<RecordView>, start: int, j: int, k: int)
    requires
        rs.len() == m.len(),
        0 <= start < m.len(),
        0 <= j < m.len(),
        0 <= k < m.len(),
        k != start,
        k != j,
        !is_target(m, k),
    ensures
        walk(m, rs, start, j).len() == rs.len(),
        walk(m, rs, start, j)[k] == rs[k],
    decreases m.len() - j,
{
    if m[j].is_some() && j < m[j].unwrap() < m.len() {
        let y = m[j].unwrap();
        assert(k != y) by {
            assert(m[j] == Some(y));
        }
        lemma_walk_frame(m, set_mate(rs, j, y), start, y, k);
    }
}

proof fn lemma_resolve_frame(m: Seq<Option<int>>, rs: Seq<RecordView>, i: int, k: int)
    requires
        rs.len() == m.len(),
        0 <= i,
        0 <= k < m.len(),
        m[k] is None,
        !is_target(m, k),
    ensures
        resolve_from(m, rs, i).len() == rs.len(),
        resolve_from(m, rs, i)[k] == rs[k],
    decreases m.len() - i,
{
    if i < m.len() {
        if is_head(m, i) {
            let seeded = seed_name(rs, i);
            lemma_walk_frame(m, seeded, i, i, k);
            lemma_resolve_frame(m, walk(m, seeded, i, i), i + 1, k);
        } else {
            lemma_resolve_frame(m, rs, i + 1, k);
        }
    }
}

/// A record that has no mate downstream and that no record has as its mate is left
/// as it was by mate resolution.
pub proof fn lemma_unlinked_record_unchanged(rs: Seq<RecordView>, k: int)
    requires
        0 <= k < rs.len(),
        mate_target(rs, k) is None,
        forall|p: int| 0 <= p < rs.len() ==> mate_target(rs, p) != Some(k),
    ensures
        resolved(rs)[k] == rs[k],
{
    let m = mate_table(rs);
    assert(!is_target(m, k)) by {
        if is_target(m, k) {
            let p = choose|p: int| 0 <= p < m.len() && #[trigger] m[p] == Some(k);
            assert(mate_target(rs, p) == Some(k));
        }
    }
    lemma_resolve_frame(m, rs, 0, k);
}

/// The name that the head of a chain ends with: its own, or the one made from its id.
pub open spec fn head_name(r: RecordView) -> Seq<u8> {
    if r.read_name.len() == 0 {
        id_name(r.id)
    } else {
        r.read_name
    }
}

/// In a mate pair (record 0 with its mate directly after it, record 1 with no mate
/// downstream), each record takes the other's reference id as its next fragment's,
/// and both end with the same non-empty name, as long as record 1 has no other name
/// of its own.
pub proof fn lemma_mate_pair_linked(rs: Seq<RecordView>)
    requires
        rs.len() == 2,
        has_mate_downstream_bits(rs[0].cram_bit_flags),
        rs[0].distance_to_next_fragment == 0,
        !has_mate_downstream_bits(rs[1].cram_bit_flags),
        rs[1].read_name.len() == 0 || rs[1].read_name == head_name(rs[0]),
    ensures
        resolved(rs)[0].next_fragment_reference_sequence_id == rs[1].reference_id,
        resolved(rs)[1].next_fragment_reference_sequence_id == rs[0].reference_id,
        resolved(rs)[0].read_name == resolved(rs)[1].read_name,
        resolved(rs)[0].read_name.len() > 0,
{
    let m = mate_table(rs);
    assert(m[0] == Some(1int));
    assert(m[1] is None);
    assert(is_head(m, 0));
    let s0 = seed_name(rs, 0);
    let s1 = set_mate(s0, 0, 1);
    let s2 = set_mate(s1, 1, 0);
    assert(walk(m, s1, 0, 1) == s2);
    assert(walk(m, s0, 0, 0) == s2);
    assert(resolve_from(m, s2, 2) == s2);
    assert(resolve_from(m, s2, 1) == s2);
    assert(resolved(rs) == s2);
    assert(id_name(rs[0].id).len() > 0);
}

/// Three unnamed records that form one ring (0 to 1 to 2, and back to 0) all end with
/// the name made from record 0's id, and each takes the reference id and position of
/// the next record of the ring as its next fragment's.
pub proof fn lemma_three_record_ring(rs: Seq<RecordView>)
    requires
        rs.len() == 3,
        has_mate_downstream_bits(rs[0].cram_bit_flags),
        rs[0].distance_to_next_fragment == 0,
        has_mate_downstream_bits(rs[1].cram_bit_flags),
        rs[1].distance_to_next_fragment == 0,
        !has_mate_downstream_bits(rs[2].cram_bit_flags),
        rs[0].read_name.len() == 0,
        rs[1].read_name.len() == 0,
        rs[2].read_name.len() == 0,
    ensures
        forall|k: int| 0 <= k < 3 ==> #[trigger] resolved(rs)[k].read_name == id_name(rs[0].id),
        forall|k: int|
            0 <= k < 3 ==> #[trigger] resolved(rs)[k].next_fragment_reference_sequence_id == rs[(k
                + 1) % 3].reference_id,
        forall|k: int|
            0 <= k < 3 ==> #[trigger] resolved(rs)[k].next_mate_alignment_start == rs[(k + 1)
                % 3].alignment_start,
{
    let m = mate_table(rs);
    assert(m[0] == Some(1int));
    assert(m[1] == Some(2int));
    assert(m[2] is None);
    assert(is_head(m, 0));
    assert(!is_head(m, 1)) by {
        assert(m[0] == Some(1int));
    }
    let s0 = seed_name(rs, 0);
    let s1 = set_mate(s0, 0, 1);
    let s2 = set_mate(s1, 1, 2);
    let s3 = set_mate(s2, 2, 0);
    assert(walk(m, s2, 0, 2) == s3);
    assert(walk(m, s1, 0, 1) == s3);
    assert(walk(m, s0, 0, 0) == s3);
    assert(resolve_from(m, s3, 3) == s3);
    assert(resolve_from(m, s3, 2) == s3);
    assert(resolve_from(m, s3, 1) == s3);
    assert(resolved(rs) == s3);
    assert(id_name(rs[0].id).len() > 0);
}

/// Record `x` lies on the chain that starts at record `j`.
pub open spec fn on_chain(m: Seq<Option<int>>, j: int, x: int) -> bool
    decreases m.len() - j,
{
    if !(0 <= j < m.len()) {
        false
    } else if x == j {
        true
    } else if m[j].is_some() && j < m[j].unwrap() < m.len() {
        on_chain(m, m[j].unwrap(), x)
    } else {
        false
    }
}

/// No two records have the same mate.
pub open spec fn mates_distinct(m: Seq<Option<int>>) -> bool {
    forall|p: int, q: int|
        0 <= p < m.len() && 0 <= q < m.len() && #[trigger] m[p] == #[trigger] m[q] && m[p].is_some()
            ==> p == q
}

/// The record that record `x` of the chain headed by `h` is linked to.
pub open spec fn succ(m: Seq<Option<int>>, h: int, x: int) -> int {
    match m[x] {
        Some(y) => y,
        None => h,
    }
}

/// `b` keeps what mate resolution never changes in `a`, and a name that `a` has.
pub open spec fn grows_to(a: RecordView, b: RecordView) -> bool {
    &&& b.id == a.id
    &&& b.cram_bit_flags == a.cram_bit_flags
    &&& b.distance_to_next_fragment == a.distance_to_next_fragment
    &&& b.reference_id == a.reference_id
    &&& b.alignment_start == a.alignment_start
    &&& b.bam_bit_flags & 0x14 == a.bam_bit_flags & 0x14
    &&& (a.read_name.len() > 0 ==> b.read_name.len() > 0)
}

/// Linking record `a` to record `b` would change neither.
pub open spec fn fixes(rs: Seq<RecordView>, a: int, b: int) -> bool {
    &&& rs[a].bam_bit_flags == with_mate_flags(rs[a].bam_bit_flags, rs[b].bam_bit_flags)
    &&& rs[a].next_fragment_reference_sequence_id == rs[b].reference_id
    &&& rs[a].next_mate_alignment_start == rs[b].alignment_start
    &&& rs[b].read_name.len() > 0
}

proof fn lemma_mate_flags(f: i32, g: i32, g2: i32)
    ensures
        with_mate_flags(f, g) & 0x14 == f & 0x14,
        with_mate_flags(with_mate_flags(f, g), g) == with_mate_flags(f, g),
        g & 0x14 == g2 & 0x14 ==> with_mate_flags(f, g) == with_mate_flags(f, g2),
{
    assert((f | 0x20) & 0x14 == f & 0x14) by (bit_vector);
    assert(((f | 0x20) | 0x08) & 0x14 == f & 0x14) by (bit_vector);
    assert((f | 0x08) & 0x14 == f & 0x14) by (bit_vector);
    assert((f | 0x20) | 0x20 == f | 0x20) by (bit_vector);
    assert((f | 0x08) | 0x08 == f | 0x08) by (bit_vector);
    assert((((f | 0x20) | 0x08) | 0x20) | 0x08 == (f | 0x20) | 0x08) by (bit_vector);
    assert(((f | 0x20) | 0x08) | 0x08 == (f | 0x20) | 0x08) by (bit_vector);
    assert(((f | 0x20) | 0x08) | 0x20 == (f | 0x20) | 0x08) by (bit_vector);
    assert(((f | 0x08) | 0x20) | 0x08 == (f | 0x20) | 0x08) by (bit_vector);
    assert(g & 0x14 == g2 & 0x14 ==> (g & 0x10 == 0 <==> g2 & 0x10 == 0)) by (bit_vector);
    assert(g & 0x14 == g2 & 0x14 ==> (g & 0x04 == 0 <==> g2 & 0x04 == 0)) by (bit_vector);
}

proof fn lemma_set_mate_effect(rs: Seq<RecordView>, a: int, b: int)
    requires
        0 <= a < rs.len(),
        0 <= b < rs.len(),
        a != b,
    ensures
        set_mate(rs, a, b).len() == rs.len(),
        forall|x: int| 0 <= x < rs.len() ==> grows_to(rs[x], #[trigger] set_mate(rs, a, b)[x]),
        forall|x: int| 0 <= x < rs.len() && x != a && x != b ==> #[trigger] set_mate(rs, a, b)[x] == rs[x],
        rs[b].read_name.len() > 0 ==> set_mate(rs, a, b)[b] == rs[b],
        rs[a].read_name.len() > 0 ==> fixes(set_mate(rs, a, b), a, b),
        fixes(rs, a, b) ==> set_mate(rs, a, b) == rs,
{
    lemma_mate_flags(rs[a].bam_bit_flags, rs[b].bam_bit_flags, rs[b].bam_bit_flags);
    if fixes(rs, a, b) {
        assert(set_mate(rs, a, b) =~= rs);
    }
}

proof fn lemma_seed_effect(rs: Seq<RecordView>, i: int)
    requires
        0 <= i < rs.len(),
    ensures
        seed_name(rs, i).len() == rs.len(),
        forall|x: int| 0 <= x < rs.len() ==> grows_to(rs[x], #[trigger] seed_name(rs, i)[x]),
        forall|x: int| 0 <= x < rs.len() && x != i ==> #[trigger] seed_name(rs, i)[x] == rs[x],
        seed_name(rs, i)[i].read_name.len() > 0,
        rs[i].read_name.len() > 0 ==> seed_name(rs, i) == rs,
{
    assert(id_name(rs[i].id).len() > 0);
}

/// A fixed link stays fixed while its records only grow and its source stays as it was.
proof fn lemma_fixes_kept(s: Seq<RecordView>, w: Seq<RecordView>, a: int, b: int)
    requires
        fixes(s, a, b),
        w[a] == s[a],
        grows_to(s[b], w[b]),
    ensures
        fixes(w, a, b),
{
    lemma_mate_flags(s[a].bam_bit_flags, s[b].bam_bit_flags, w[b].bam_bit_flags);
}

proof fn lemma_on_chain_facts(m: Seq<Option<int>>, j: int, x: int)
    requires
        table_forward(m),
        on_chain(m, j, x),
    ensures
        j <= x < m.len(),
        0 <= j,
        m[x] is Some ==> on_chain(m, j, m[x].unwrap()),
    decreases m.len() - j,
{
    if x != j {
        lemma_on_chain_facts(m, m[j].unwrap(), x);
    } else if m[x] is Some {
        let y = m[x].unwrap();
        assert(on_chain(m, y, y));
    }
}

/// A record on a chain other than its first is the mate of a record of that chain.
proof fn lemma_on_chain_pred(m: Seq<Option<int>>, j: int, x: int)
    requires
        table_forward(m),
        on_chain(m, j, x),
        x != j,
    ensures
        exists|p: int| on_chain(m, j, p) && #[trigger] m[p] == Some(x),
    decreases m.len() - j,
{
    let y = m[j].unwrap();
    if x == y {
        assert(on_chain(m, j, j) && m[j] == Some(x));
    } else {
        lemma_on_chain_pred(m, y, x);
        let p = choose|p: int| on_chain(m, y, p) && #[trigger] m[p] == Some(x);
        lemma_chain_step(m, j, p);
    }
}

/// Whatever lies on the chain from the mate of `j` lies on the chain from `j`.
proof fn lemma_chain_step(m: Seq<Option<int>>, j: int, x: int)
    requires
        table_forward(m),
        0 <= j < m.len(),
        m[j] is Some,
        on_chain(m, m[j].unwrap(), x),
    ensures
        on_chain(m, j, x),
{
    lemma_on_chain_facts(m, m[j].unwrap(), x);
}

/// Two chains that share a record: one starts on the other.
proof fn lemma_chains_meet(m: Seq<Option<int>>, a: int, b: int, x: int)
    requires
        table_forward(m),
        mates_distinct(m),
        on_chain(m, a, x),
        on_chain(m, b, x),
    ensures
        on_chain(m, a, b) || on_chain(m, b, a),
    decreases 2 * m.len() - a - b,
{
    lemma_on_chain_facts(m, a, x);
    lemma_on_chain_facts(m, b, x);
    if a == x {
        return;
    }
    if b == x {
        return;
    }
    let y = m[a].unwrap();
    let z = m[b].unwrap();
    lemma_chains_meet(m, y, z, x);
    if on_chain(m, y, z) {
        if y == z {
            assert(m[a] == m[b]);
        } else {
            lemma_on_chain_pred(m, y, z);
            let p = choose|p: int| on_chain(m, y, p) && #[trigger] m[p] == Some(z);
            lemma_on_chain_facts(m, y, p);
            assert(m[p] == m[b]);
            lemma_chain_step(m, a, b);
        }
    } else {
        lemma_on_chain_pred(m, z, y);
        let p = choose|p: int| on_chain(m, z, p) && #[trigger] m[p] == Some(y);
        lemma_on_chain_facts(m, z, p);
        assert(m[p] == m[a]);
        lemma_chain_step(m, b, a);
    }
}

/// The chains of two different heads share no record.
proof fn lemma_heads_disjoint(m: Seq<Option<int>>, h: int, g: int, x: int)
    requires
        table_forward(m),
        mates_distinct(m),
        0 <= h < m.len(),
        0 <= g < m.len(),
        is_head(m, h),
        is_head(m, g),
        h != g,
        on_chain(m, h, x),
    ensures
        !on_chain(m, g, x),
{
    if on_chain(m, g, x) {
        lemma_chains_meet(m, h, g, x);
        if on_chain(m, h, g) {
            lemma_on_chain_pred(m, h, g);
            let p = choose|p: int| on_chain(m, h, p) && #[trigger] m[p] == Some(g);
            lemma_on_chain_facts(m, h, p);
        } else {
            lemma_on_chain_pred(m, g, h);
            let p = choose|p: int| on_chain(m, g, p) && #[trigger] m[p] == Some(h);
            lemma_on_chain_facts(m, g, p);
        }
    }
}

/// Walking the chain from `j` fixes every link of that chain (the last one back to
/// `h`) and leaves every record off the chain as it was.
proof fn lemma_walk_resolves(m: Seq<Option<int>>, rs: Seq<RecordView>, h: int, j: int)
    requires
        table_forward(m),
        rs.len() == m.len(),
        0 <= h <= j < m.len(),
        j == h ==> m[h] is Some,
        rs[j].read_name.len() > 0,
        rs[h].read_name.len() > 0,
    ensures
        walk(m, rs, h, j).len() == rs.len(),
        forall|x: int| 0 <= x < rs.len() ==> grows_to(rs[x], #[trigger] walk(m, rs, h, j)[x]),
        forall|x: int|
            0 <= x < rs.len() && !on_chain(m, j, x) ==> #[trigger] walk(m, rs, h, j)[x] == rs[x],
        forall|x: int| on_chain(m, j, x) ==> fixes(walk(m, rs, h, j), x, #[trigger] succ(m, h, x)),
    decreases m.len() - j,
{
    let w = walk(m, rs, h, j);
    if m[j] is Some {
        let y = m[j].unwrap();
        let s1 = set_mate(rs, j, y);
        lemma_set_mate_effect(rs, j, y);
        lemma_walk_resolves(m, s1, h, y);
        assert(w == walk(m, s1, h, y));
        assert forall|x: int| 0 <= x < rs.len() && !on_chain(m, j, x) implies #[trigger] w[x]
            == rs[x] by {
            if on_chain(m, y, x) {
                lemma_chain_step(m, j, x);
            }
        }
        assert forall|x: int| on_chain(m, j, x) implies fixes(w, x, #[trigger] succ(m, h, x)) by {
            if x == j {
                if on_chain(m, y, j) {
                    lemma_on_chain_facts(m, y, j);
                }
                lemma_fixes_kept(s1, w, j, y);
            } else {
                assert(on_chain(m, y, x));
            }
        }
    } else {
        lemma_set_mate_effect(rs, j, h);
        assert forall|x: int| on_chain(m, j, x) implies fixes(w, x, #[trigger] succ(m, h, x)) by {
            assert(x == j);
        }
    }
}

/// Resolving the chains whose heads are at `i` and after fixes every link of every
/// chain, once the links of the chains before `i` are fixed.
proof fn lemma_resolve_resolves(m: Seq<Option<int>>, rs: Seq<RecordView>, i: int)
    requires
        table_forward(m),
        mates_distinct(m),
        rs.len() == m.len(),
        0 <= i <= m.len(),
        forall|h: int, x: int|
            0 <= h < i && is_head(m, h) && on_chain(m, h, x) ==> fixes(rs, x, #[trigger] succ(m, h, x)),
        forall|h: int| 0 <= h < i && is_head(m, h) ==> #[trigger] rs[h].read_name.len() > 0,
    ensures
        resolve_from(m, rs, i).len() == rs.len(),
        forall|x: int| 0 <= x < rs.len() ==> grows_to(rs[x], #[trigger] resolve_from(m, rs, i)[x]),
        forall|h: int, x: int|
            0 <= h < m.len() && is_head(m, h) && on_chain(m, h, x) ==> fixes(
                resolve_from(m, rs, i),
                x,
                #[trigger] succ(m, h, x),
            ),
        forall|h: int|
            0 <= h < m.len() && is_head(m, h) ==> #[trigger] resolve_from(m, rs, i)[h].read_name.len()
                > 0,
    decreases m.len() - i,
{
    if i < m.len() {
        if is_head(m, i) {
            let s0 = seed_name(rs, i);
            lemma_seed_effect(rs, i);
            lemma_walk_resolves(m, s0, i, i);
            let w = walk(m, s0, i, i);
            assert forall|h: int, x: int|
                0 <= h < i + 1 && is_head(m, h) && on_chain(m, h, x) implies fixes(
                w,
                x,
                #[trigger] succ(m, h, x),
            ) by {
                if h < i {
                    lemma_on_chain_facts(m, h, x);
                    let y = succ(m, h, x);
                    assert(on_chain(m, h, y)) by {
                        if m[x] is None {
                            assert(on_chain(m, h, h));
                        }
                    }
                    lemma_heads_disjoint(m, h, i, x);
                    lemma_heads_disjoint(m, h, i, y);
                    assert(on_chain(m, i, i));
                    lemma_heads_disjoint(m, i, h, i);
                    lemma_fixes_kept(rs, w, x, y);
                }
            }
            assert forall|h: int| 0 <= h < i + 1 && is_head(m, h) implies #[trigger] w[h].read_name.len()
                > 0 by {
                if h < i {
                    assert(on_chain(m, h, h));
                    lemma_heads_disjoint(m, h, i, h);
                }
            }
            lemma_resolve_resolves(m, w, i + 1);
        } else {
            lemma_resolve_resolves(m, rs, i + 1);
        }
    }
}

/// Walking a chain whose links are all fixed changes nothing.
proof fn lemma_walk_fixed(m: Seq<Option<int>>, rs: Seq<RecordView>, h: int, j: int)
    requires
        table_forward(m),
        rs.len() == m.len(),
        0 <= h <= j < m.len(),
        j == h ==> m[h] is Some,
        forall|x: int| on_chain(m, j, x) ==> fixes(rs, x, #[trigger] succ(m, h, x)),
    ensures
        walk(m, rs, h, j) == rs,
    decreases m.len() - j,
{
    assert(on_chain(m, j, j));
    assert(fixes(rs, j, succ(m, h, j)));
    if m[j] is Some {
        let y = m[j].unwrap();
        lemma_set_mate_effect(rs, j, y);
        assert(set_mate(rs, j, y) == rs);
        assert forall|x: int| on_chain(m, y, x) implies fixes(rs, x, #[trigger] succ(m, h, x)) by {
            lemma_chain_step(m, j, x);
        }
        lemma_walk_fixed(m, rs, h, y);
    } else {
        lemma_set_mate_effect(rs, j, h);
    }
}

/// Resolving records whose chains are all fixed and whose heads are all named changes
/// nothing.
proof fn lemma_resolve_fixed(m: Seq<Option<int>>, rs: Seq<RecordView>, i: int)
    requires
        table_forward(m),
        rs.len() == m.len(),
        0 <= i,
        forall|h: int, x: int|
            0 <= h < m.len() && is_head(m, h) && on_chain(m, h, x) ==> fixes(rs, x, #[trigger] succ(m, h, x)),
        forall|h: int| 0 <= h < m.len() && is_head(m, h) ==> #[trigger] rs[h].read_name.len() > 0,
    ensures
        resolve_from(m, rs, i) == rs,
    decreases m.len() - i,
{
    if i < m.len() {
        if is_head(m, i) {
            lemma_seed_effect(rs, i);
            lemma_walk_fixed(m, rs, i, i);
        }
        lemma_resolve_fixed(m, rs, i + 1);
    }
}

/// Mate resolution is idempotent on slices whose records form rings (no two records
/// have the same mate): resolving the resolved records changes nothing.
pub proof fn lemma_resolve_idempotent(rs: Seq<RecordView>)
    requires
        mates_in_range(rs),
        mates_distinct(mate_table(rs)),
    ensures
        resolved(resolved(rs)) == resolved(rs),
{
    let m = mate_table(rs);
    assert(table_forward(m)) by {
        assert forall|x: int| 0 <= x < m.len() implies match #[trigger] m[x] {
            Some(y) => x < y < m.len(),
            None => true,
        } by {
            assert(m[x] == mate_target(rs, x));
        }
    }
    lemma_resolve_resolves(m, rs, 0);
    let t = resolve_from(m, rs, 0);
    assert(mate_table(t) =~= m) by {
        assert forall|x: int| 0 <= x < m.len() implies mate_table(t)[x] == m[x] by {
            assert(grows_to(rs[x], t[x]));
        }
    }
    lemma_resolve_fixed(m, t, 0);
}

} // verus!
