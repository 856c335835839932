//! Recorded frames: which animals were where in each tick of a run.
use vstd::prelude::*;
use vstd::string::{StrSliceExecFns, StringExecFns};

verus! {

/// Kind of an animal, so that animals can be tracked across frames.
#[derive(Debug, Clone, Copy, PartialEq, Eq, Structural)]
pub enum AnimalType {
    Predator,
    Prey,
}

/// One animal in a recorded frame. Position and heading are `binary32`
/// bit patterns.
#[derive(Debug, Clone, Copy, PartialEq, Eq, Structural)]
pub struct AnimalState {
    pub id: usize,
    pub x: u32,
    pub y: u32,
    pub angle: u32,
    pub animal_type: AnimalType,
}

/// Identity, position and heading of a live animal: `(id, x, y, angle)`.
pub type Pose = (usize, u32, u32, u32);

/// The recorded state of the whole simulation at one tick.
#[derive(Debug, Clone)]
pub struct Frame {
    pub tick: usize,
    pub animals: Vec<AnimalState>,
}

/// The state recorded for an animal of kind `t` in pose `p`.
pub open spec fn state_of(p: Pose, t: AnimalType) -> AnimalState {
    AnimalState { id: p.0, x: p.1, y: p.2, angle: p.3, animal_type: t }
}

/// Number of animals of kind `t`.
pub open spec fn count_of(animals: Seq<AnimalState>, t: AnimalType) -> nat
    decreases animals.len(),
{
    if animals.len() == 0 {
        0
    } else {
        count_of(animals.drop_last(), t) + if animals.last().animal_type == t {
            1nat
        } else {
            0nat
        }
    }
}

/// Every animal is a predator or a prey: the two counts add up to all.
pub proof fn lemma_counts_cover_all(animals: Seq<AnimalState>)
    ensures
        count_of(animals, AnimalType::Predator) + count_of(animals, AnimalType::Prey) == animals.len(),
    decreases animals.len(),
{
    if animals.len() > 0 {
        lemma_counts_cover_all(animals.drop_last());
    }
}

/// Counting distributes over concatenation.
proof fn lemma_count_of_concat(a: Seq<AnimalState>, b: Seq<AnimalState>, t: AnimalType)
    ensures
        count_of(a + b, t) == count_of(a, t) + count_of(b, t),
    decreases b.len(),
{
    if b.len() > 0 {
        lemma_count_of_concat(a, b.drop_last(), t);
        assert((a + b).drop_last() =~= a + b.drop_last());
    } else {
        assert(a + b =~= a);
    }
}

/// Animals recorded with one kind count fully for that kind and not at all
/// for the other.
proof fn lemma_count_of_one_kind(poses: Seq<Pose>, kind: AnimalType, t: AnimalType)
    ensures
        count_of(poses.map_values(|p: Pose| state_of(p, kind)), t) == if kind == t {
            poses.len()
        } else {
            0
        },
    decreases poses.len(),
{
    if poses.len() > 0 {
        lemma_count_of_one_kind(poses.drop_last(), kind, t);
        assert(poses.map_values(|p: Pose| state_of(p, kind)).drop_last() =~= poses.drop_last().map_values(
            |p: Pose| state_of(p, kind),
        ));
    } else {
        assert(poses.map_values(|p: Pose| state_of(p, kind)) =~= Seq::<AnimalState>::empty());
    }
}

/// The counts of a frame are the numbers of predators and preys it was
/// recorded from.
pub proof fn lemma_frame_counts(predators: Seq<Pose>, preys: Seq<Pose>)
    ensures
        count_of(
            predators.map_values(|p: Pose| state_of(p, AnimalType::Predator)) + preys.map_values(
                |p: Pose| state_of(p, AnimalType::Prey),
            ),
            AnimalType::Predator,
        ) == predators.len(),
        count_of(
            predators.map_values(|p: Pose| state_of(p, AnimalType::Predator)) + preys.map_values(
                |p: Pose| state_of(p, AnimalType::Prey),
            ),
            AnimalType::Prey,
        ) == preys.len(),
{
    let a = predators.map_values(|p: Pose| state_of(p, AnimalType::Predator));
    let b = preys.map_values(|p: Pose| state_of(p, AnimalType::Prey));
    lemma_count_of_concat(a, b, AnimalType::Predator);
    lemma_count_of_concat(a, b, AnimalType::Prey);
    lemma_count_of_one_kind(predators, AnimalType::Predator, AnimalType::Predator);
    lemma_count_of_one_kind(predators, AnimalType::Predator, AnimalType::Prey);
    lemma_count_of_one_kind(preys, AnimalType::Prey, AnimalType::Predator);
    lemma_count_of_one_kind(preys, AnimalType::Prey, AnimalType::Prey);
}

/// A frame recorded from predators and preys lists the predators first and
/// then the preys, each with its own identity, position and heading, and
/// the kind it belongs to.
pub proof fn lemma_frame_records_poses(predators: Seq<Pose>, preys: Seq<Pose>, i: int)
    ensures
        ({
            let a = predators.map_values(|p: Pose| state_of(p, AnimalType::Predator)) + preys.map_values(
                |p: Pose| state_of(p, AnimalType::Prey),
            );
            &&& a.len() == predators.len() + preys.len()
            &&& 0 <= i < predators.len() ==> a[i].id == predators[i].0 && a[i].x == predators[i].1
                && a[i].y == predators[i].2 && a[i].angle == predators[i].3 && a[i].animal_type
                == AnimalType::Predator
            &&& predators.len() <= i < a.len() ==> a[i].id == preys[i - predators.len()].0 && a[i].x
                == preys[i - predators.len()].1 && a[i].y == preys[i - predators.len()].2 && a[i].angle
                == preys[i - predators.len()].3 && a[i].animal_type == AnimalType::Prey
        }),
{
}

fn push_states(out: &mut Vec<AnimalState>, poses: &Vec<Pose>, t: AnimalType)
    ensures
        final(out)@ == old(out)@ + poses@.map_values(|p: Pose| state_of(p, t)),
{
    let mut i: usize = 0;
    while i < poses.len()
        invariant
            i <= poses@.len(),
            out@ == old(out)@ + poses@.subrange(0, i as int).map_values(|p: Pose| state_of(p, t)),
        decreases poses@.len() - i,
    {
        let p = poses[i];
        out.push(AnimalState { id: p.0, x: p.1, y: p.2, angle: p.3, animal_type: t });
        i = i + 1;
        assert(out@ =~= old(out)@ + poses@.subrange(0, i as int).map_values(|p: Pose| state_of(p, t)));
    }
    assert(poses@.subrange(0, i as int) =~= poses@);
}

impl Frame {
    /// Records the predators, then the preys.
    pub fn new(predators: &Vec<Pose>, preys: &Vec<Pose>, tick: usize) -> (frame: Frame)
        ensures
            frame.tick == tick,
            frame.animals@ == predators@.map_values(|p: Pose| state_of(p, AnimalType::Predator))
                + preys@.map_values(|p: Pose| state_of(p, AnimalType::Prey)),
    {
        let mut animals: Vec<AnimalState> = Vec::new();
        push_states(&mut animals, predators, AnimalType::Predator);
        push_states(&mut animals, preys, AnimalType::Prey);
        assert(animals@ =~= predators@.map_values(|p: Pose| state_of(p, AnimalType::Predator))
            + preys@.map_values(|p: Pose| state_of(p, AnimalType::Prey)));
        Frame { tick, animals }
    }

    /// Returns the count of predators and preys in this frame.
    pub fn counts(&self) -> (c: (usize, usize))
        ensures
            c.0 == count_of(self.animals@, AnimalType::Predator),
            c.1 == count_of(self.animals@, AnimalType::Prey),
    {
        let mut pred_count: usize = 0;
        let mut prey_count: usize = 0;
        let mut i: usize = 0;
        while i < self.animals.len()
            invariant
                i <= self.animals@.len(),
                pred_count == count_of(self.animals@.subrange(0, i as int), AnimalType::Predator),
                prey_count == count_of(self.animals@.subrange(0, i as int), AnimalType::Prey),
            decreases self.animals@.len() - i,
        {
            proof {
                lemma_counts_cover_all(self.animals@.subrange(0, i as int));
            }
            assert(self.animals@.subrange(0, i + 1).drop_last() =~= self.animals@.subrange(0, i as int));
            match self.animals[i].animal_type {
                AnimalType::Predator => {
                    pred_count = pred_count + 1;
                },
                AnimalType::Prey => {
                    prey_count = prey_count + 1;
                },
            }
            i = i + 1;
        }
        assert(self.animals@.subrange(0, i as int) =~= self.animals@);
        (pred_count, prey_count)
    }
}

/// Bytes of a recorded frame before its animals: the tick and the number of
/// animals, each a little-endian `u64`.
pub const FRAME_HEADER_BYTES: usize = 16;

/// Bytes of one recorded animal: id (`u64`), x, y and angle (`binary32`
/// each) and the kind tag (`u32`), all little-endian.
pub const ANIMAL_RECORD_BYTES: usize = 24;

/// Offset of the kind tag within a recorded animal.
pub const KIND_TAG_OFFSET: usize = 20;

/// The little-endian `u32` at `p`.
pub open spec fn le_u32(bytes: Seq<u8>, p: int) -> nat {
    (bytes[p] + 0x100 * bytes[p + 1] + 0x1_0000 * bytes[p + 2] + 0x100_0000 * bytes[p + 3]) as nat
}

/// The little-endian `u64` at `p`.
pub open spec fn le_u64(bytes: Seq<u8>, p: int) -> nat {
    (le_u32(bytes, p) + 0x1_0000_0000 * le_u32(bytes, p + 4)) as nat
}

/// Number of animals recorded in the frame that starts at `o`.
pub open spec fn animal_count_at(bytes: Seq<u8>, o: int) -> nat {
    le_u64(bytes, o + 8)
}

/// Where the frame that starts at `o` ends.
pub open spec fn frame_end(bytes: Seq<u8>, o: int) -> int {
    o + FRAME_HEADER_BYTES + ANIMAL_RECORD_BYTES * animal_count_at(bytes, o)
}

/// Position of the kind tag of animal `k` of the frame at `o`.
pub open spec fn kind_tag_pos(o: int, k: int) -> int {
    o + FRAME_HEADER_BYTES + ANIMAL_RECORD_BYTES * k + KIND_TAG_OFFSET
}

/// A whole frame starts at `o`: its header and all its animals are within
/// `bytes`, and each animal's kind tag names predator (0) or prey (1).
pub open spec fn frame_ok(bytes: Seq<u8>, o: int) -> bool {
    &&& 0 <= o
    &&& o + FRAME_HEADER_BYTES <= bytes.len()
    &&& frame_end(bytes, o) <= bytes.len()
    &&& forall|k: int|
        0 <= k < animal_count_at(bytes, o) ==> #[trigger] le_u32(bytes, kind_tag_pos(o, k)) < 2
}

/// In a whole frame, animal `k`'s record is the 24 bytes from
/// `o + 16 + 24 k`, its kind tag the four bytes from `o + 36 + 24 k`: a 0
/// (predator) or a 1 (prey) in the first of them and zeros in the others.
pub proof fn lemma_whole_frame_kind_tags(bytes: Seq<u8>, o: int, k: int)
    requires
        frame_ok(bytes, o),
        0 <= k < animal_count_at(bytes, o),
    ensures
        kind_tag_pos(o, k) == o + 36 + 24 * k,
        o + 16 + 24 * (k + 1) <= bytes.len(),
        bytes[o + 36 + 24 * k] < 2,
        bytes[o + 37 + 24 * k] == 0,
        bytes[o + 38 + 24 * k] == 0,
        bytes[o + 39 + 24 * k] == 0,
{
    assert(le_u32(bytes, kind_tag_pos(o, k)) < 2);
    assert(24 * (k + 1) <= 24 * animal_count_at(bytes, o)) by (nonlinear_arith)
        requires
            k + 1 <= animal_count_at(bytes, o),
    ;
}

/// Offsets of the frames read one after another from `o`, up to the first
/// position where no whole frame starts.
pub open spec fn offsets_from(bytes: Seq<u8>, o: int) -> Seq<int>
    decreases bytes.len() - o,
{
    if frame_ok(bytes, o) {
        seq![o] + offsets_from(bytes, frame_end(bytes, o))
    } else {
        Seq::empty()
    }
}

/// The frames of a recording follow one another: the first starts where
/// reading starts, each next one where the one before ends, every one is
/// whole, and the list stops at the first position where no whole frame
/// starts.
pub proof fn lemma_offsets_chain(bytes: Seq<u8>, o: int)
    requires
        0 <= o,
    ensures
        offsets_from(bytes, o).len() == 0 <==> !frame_ok(bytes, o),
        offsets_from(bytes, o).len() > 0 ==> offsets_from(bytes, o)[0] == o,
        forall|i: int|
            0 <= i < offsets_from(bytes, o).len() ==> frame_ok(bytes, #[trigger] offsets_from(bytes, o)[i]),
        forall|i: int|
            0 <= i < offsets_from(bytes, o).len() - 1 ==> #[trigger] offsets_from(bytes, o)[i + 1]
                == frame_end(bytes, offsets_from(bytes, o)[i]),
        offsets_from(bytes, o).len() > 0 ==> !frame_ok(
            bytes,
            frame_end(bytes, offsets_from(bytes, o).last()),
        ),
    decreases bytes.len() - o,
{
    if frame_ok(bytes, o) {
        let e = frame_end(bytes, o);
        let rest = offsets_from(bytes, e);
        let all = offsets_from(bytes, o);
        assert(all == seq![o] + rest);
        lemma_offsets_chain(bytes, e);
        assert forall|i: int| 0 <= i < all.len() implies frame_ok(bytes, #[trigger] all[i]) by {
            if i > 0 {
                assert(all[i] == rest[i - 1]);
            }
        }
        assert forall|i: int| 0 <= i < all.len() - 1 implies #[trigger] all[i + 1] == frame_end(bytes, all[i]) by {
            assert(all[i + 1] == rest[i]);
            if i > 0 {
                assert(all[i] == rest[i - 1]);
                let k = i - 1;
                assert(0 <= k < rest.len() - 1);
                assert(rest[k + 1] == frame_end(bytes, rest[k]));
            }
        }
        if rest.len() > 0 {
            assert(all.last() == rest.last());
        }
    }
}

/// Reads the little-endian `u32` at `p`.
fn read_u32_le(bytes: &Vec<u8>, p: usize) -> (v: u32)
    requires
        p + 4 <= bytes@.len(),
    ensures
        v == le_u32(bytes@, p as int),
{
    assert(p + 4 <= bytes.len());
    bytes[p] as u32 + 0x100 * (bytes[p + 1] as u32) + 0x1_0000 * (bytes[p + 2] as u32) + 0x100_0000
        * (bytes[p + 3] as u32)
}

/// Reads the little-endian `u64` at `p`.
fn read_u64_le(bytes: &Vec<u8>, p: usize) -> (v: u64)
    requires
        p + 8 <= bytes@.len(),
    ensures
        v == le_u64(bytes@, p as int),
{
    assert(p + 8 <= bytes.len());
    let lo = read_u32_le(bytes, p);
    let hi = read_u32_le(bytes, p + 4);
    lo as u64 + 0x1_0000_0000 * (hi as u64)
}

/// Where the frame at `o` ends, if a whole frame starts there.
fn check_frame(bytes: &Vec<u8>, o: usize) -> (end: Option<usize>)
    requires
        o <= bytes@.len(),
    ensures
        end is Some <==> frame_ok(bytes@, o as int),
        end matches Some(e) ==> e == frame_end(bytes@, o as int),
{
    let n = bytes.len();
    if n - o < FRAME_HEADER_BYTES {
        return None;
    }
    let count = read_u64_le(bytes, o + 8);
    let avail: usize = n - o - FRAME_HEADER_BYTES;
    let room = avail / ANIMAL_RECORD_BYTES;
    if count > room as u64 {
        assert(ANIMAL_RECORD_BYTES * count > avail) by (nonlinear_arith)
            requires
                count > room,
                room == avail / ANIMAL_RECORD_BYTES,
                ANIMAL_RECORD_BYTES == 24,
        ;
        return None;
    }
    let count = count as usize;
    assert(ANIMAL_RECORD_BYTES * count <= avail) by (nonlinear_arith)
        requires
            count <= room,
            room == avail / ANIMAL_RECORD_BYTES,
            ANIMAL_RECORD_BYTES == 24,
    ;
    let end = o + FRAME_HEADER_BYTES + ANIMAL_RECORD_BYTES * count;
    let mut k: usize = 0;
    while k < count
        invariant
            k <= count,
            count == animal_count_at(bytes@, o as int),
            end == frame_end(bytes@, o as int),
            end <= bytes@.len(),
            forall|j: int| 0 <= j < k ==> #[trigger] le_u32(bytes@, kind_tag_pos(o as int, j)) < 2,
        decreases count - k,
    {
        let p = o + FRAME_HEADER_BYTES + ANIMAL_RECORD_BYTES * k + KIND_TAG_OFFSET;
        if read_u32_le(bytes, p) >= 2 {
            assert(le_u32(bytes@, kind_tag_pos(o as int, k as int)) >= 2);
            return None;
        }
        k = k + 1;
    }
    Some(end)
}

/// Length of the frame whose header (tick and animal count) starts `header`,
/// where that length fits in `usize`; the frame itself may still be cut
/// short or hold a bad kind tag.
pub fn frame_len_from_header(header: &Vec<u8>) -> (n: Option<usize>)
    requires
        header@.len() >= FRAME_HEADER_BYTES,
    ensures
        n is Some <==> frame_end(header@, 0) <= usize::MAX,
        n matches Some(v) ==> v == frame_end(header@, 0),
        n matches Some(v) ==> v == 16 + 24 * (header@[8] + 0x100 * header@[9] + 0x1_0000 * header@[10]
            + 0x100_0000 * header@[11] + 0x1_0000_0000 * header@[12] + 0x100_0000_0000 * header@[13]
            + 0x1_0000_0000_0000 * header@[14] + 0x100_0000_0000_0000 * header@[15]),
{
    proof {
        lemma_frame_length_from_bytes(header@, 0);
    }
    let count = read_u64_le(header, 8);
    let room: usize = usize::MAX - FRAME_HEADER_BYTES;
    let max_count = room / ANIMAL_RECORD_BYTES;
    if count > max_count as u64 {
        assert(ANIMAL_RECORD_BYTES * count > room) by (nonlinear_arith)
            requires
                count > max_count,
                max_count == room / ANIMAL_RECORD_BYTES,
                ANIMAL_RECORD_BYTES == 24,
        ;
        return None;
    }
    let count = count as usize;
    assert(ANIMAL_RECORD_BYTES * count <= room) by (nonlinear_arith)
        requires
            count <= max_count,
            max_count == room / ANIMAL_RECORD_BYTES,
            ANIMAL_RECORD_BYTES == 24,
    ;
    Some(FRAME_HEADER_BYTES + ANIMAL_RECORD_BYTES * count)
}

/// The animal count in the header of the frame at `o` is the whole
/// little-endian `u64` of the header's bytes 8 to 15, byte 8 the lowest; the
/// frame is 16 header bytes plus 24 bytes per animal. Likewise a recorded
/// `u32` (such as a kind tag) is its four bytes, lowest first.
pub proof fn lemma_frame_length_from_bytes(bytes: Seq<u8>, o: int)
    requires
        0 <= o,
        o + 16 <= bytes.len(),
    ensures
        animal_count_at(bytes, o) == bytes[o + 8] + 0x100 * bytes[o + 9] + 0x1_0000 * bytes[o + 10]
            + 0x100_0000 * bytes[o + 11] + 0x1_0000_0000 * bytes[o + 12] + 0x100_0000_0000 * bytes[o
            + 13] + 0x1_0000_0000_0000 * bytes[o + 14] + 0x100_0000_0000_0000 * bytes[o + 15],
        frame_end(bytes, o) == o + 16 + 24 * (bytes[o + 8] + 0x100 * bytes[o + 9] + 0x1_0000 * bytes[o
            + 10] + 0x100_0000 * bytes[o + 11] + 0x1_0000_0000 * bytes[o + 12] + 0x100_0000_0000
            * bytes[o + 13] + 0x1_0000_0000_0000 * bytes[o + 14] + 0x100_0000_0000_0000 * bytes[o
            + 15]),
        forall|p: int|
            0 <= p && p + 4 <= bytes.len() ==> #[trigger] le_u32(bytes, p) == bytes[p] + 0x100 * bytes[p
                + 1] + 0x1_0000 * bytes[p + 2] + 0x100_0000 * bytes[p + 3],
{
}

/// Length of the frame at the start of `bytes`, if a whole frame starts
/// there.
pub fn frame_len_at_start(bytes: &Vec<u8>) -> (n: Option<usize>)
    ensures
        n is Some <==> frame_ok(bytes@, 0),
        n matches Some(e) ==> e == frame_end(bytes@, 0),
{
    check_frame(bytes, 0)
}

/// A frame can be checked on its own bytes: the bytes from `o` to `e` hold
/// one whole frame exactly when a whole frame starts at `o` in `bytes` and
/// ends at `e`. So reading a recording frame by frame finds the same
/// frames as `offsets_from` on the whole recording.
pub proof fn lemma_frame_in_window(bytes: Seq<u8>, o: int, e: int)
    requires
        0 <= o <= e <= bytes.len(),
    ensures
        (frame_ok(bytes.subrange(o, e), 0) && frame_end(bytes.subrange(o, e), 0) == e - o) <==> (
        frame_ok(bytes, o) && frame_end(bytes, o) == e),
{
    let w = bytes.subrange(o, e);
    if o + FRAME_HEADER_BYTES <= e {
        assert(le_u64(w, 8) == le_u64(bytes, o + 8));
        assert(animal_count_at(w, 0) == animal_count_at(bytes, o));
        if frame_end(bytes, o) == e {
            assert forall|k: int| 0 <= k < animal_count_at(bytes, o) implies #[trigger] le_u32(
                w,
                kind_tag_pos(0, k),
            ) == le_u32(bytes, kind_tag_pos(o, k)) by {
                assert(kind_tag_pos(0, k) + 4 <= e - o) by (nonlinear_arith)
                    requires
                        0 <= k < animal_count_at(bytes, o),
                        e - o == FRAME_HEADER_BYTES + ANIMAL_RECORD_BYTES * animal_count_at(bytes, o),
                        kind_tag_pos(0, k) == FRAME_HEADER_BYTES + ANIMAL_RECORD_BYTES * k + KIND_TAG_OFFSET,
                        ANIMAL_RECORD_BYTES == 24,
                        KIND_TAG_OFFSET == 20,
                ;
            }
            if frame_ok(bytes, o) {
                assert forall|k: int| 0 <= k < animal_count_at(w, 0) implies #[trigger] le_u32(
                    w,
                    kind_tag_pos(0, k),
                ) < 2 by {
                    assert(le_u32(bytes, kind_tag_pos(o, k)) < 2);
                }
            }
            if frame_ok(w, 0) {
                assert forall|k: int| 0 <= k < animal_count_at(bytes, o) implies #[trigger] le_u32(
                    bytes,
                    kind_tag_pos(o, k),
                ) < 2 by {
                    assert(le_u32(w, kind_tag_pos(0, k)) < 2);
                }
            }
        }
    }
}

/// Offsets of the frames in a recording: frames are read one after another
/// from the start until the bytes end or do not hold a whole frame.
pub fn frame_offsets(bytes: &Vec<u8>) -> (offsets: Vec<u64>)
    ensures
        offsets@.map_values(|x: u64| x as int) == offsets_from(bytes@, 0),
{
    let mut offsets: Vec<u64> = Vec::new();
    let mut o: usize = 0;
    while o <= bytes.len()
        invariant
            o <= bytes@.len(),
            offsets@.map_values(|x: u64| x as int) + offsets_from(bytes@, o as int) == offsets_from(
                bytes@,
                0,
            ),
        decreases bytes@.len() - o,
    {
        match check_frame(bytes, o) {
            Some(end) => {
                let ghost before = offsets@;
                offsets.push(o as u64);
                assert(offsets@.map_values(|x: u64| x as int) =~= before.map_values(|x: u64| x as int)
                    + seq![o as int]);
                assert(offsets_from(bytes@, o as int) == seq![o as int] + offsets_from(bytes@, end as int));
                assert(offsets@.map_values(|x: u64| x as int) + offsets_from(bytes@, end as int)
                    =~= before.map_values(|x: u64| x as int) + offsets_from(bytes@, o as int));
                o = end;
            },
            None => {
                assert(offsets@.map_values(|x: u64| x as int) =~= offsets@.map_values(|x: u64| x as int)
                    + offsets_from(bytes@, o as int));
                return offsets;
            },
        }
    }
    offsets
}

/// Random access to the frames of a recording: the offset of each frame,
/// and the frame that was read last.
pub struct IndexedFrameReader {
    frame_offsets: Vec<u64>,
    current_index: usize,
}

impl IndexedFrameReader {
    /// Offsets of the frames, in order.
    pub closed spec fn offsets(&self) -> Seq<u64> {
        self.frame_offsets@
    }

    /// Index of the frame that was read last (0 before any read).
    pub closed spec fn current(&self) -> usize {
        self.current_index
    }

    /// An empty index, to be filled frame by frame while a recording is read.
    pub fn new_empty() -> (r: Self)
        ensures
            r.offsets() == Seq::<u64>::empty(),
            r.current() == 0,
    {
        IndexedFrameReader { frame_offsets: Vec::new(), current_index: 0 }
    }

    /// Records that a frame starts at `offset`.
    pub fn push_frame(&mut self, offset: u64)
        ensures
            final(self).offsets() == old(self).offsets().push(offset),
            final(self).current() == old(self).current(),
    {
        self.frame_offsets.push(offset);
    }

    /// Builds the index of the frames in the bytes of a recording.
    pub fn new(bytes: &Vec<u8>) -> (r: Self)
        ensures
            r.offsets().map_values(|x: u64| x as int) == offsets_from(bytes@, 0),
            r.current() == 0,
    {
        IndexedFrameReader { frame_offsets: frame_offsets(bytes), current_index: 0 }
    }

    /// Returns the total number of frames in the recording.
    pub fn len(&self) -> (n: usize)
        ensures
            n == self.offsets().len(),
    {
        self.frame_offsets.len()
    }

    /// Returns true if there are no frames.
    pub fn is_empty(&self) -> (b: bool)
        ensures
            b == (self.offsets().len() == 0),
    {
        self.frame_offsets.len() == 0
    }

    /// The offset of frame `index`, or `None` where the index is out of
    /// bounds. The reader then seeks there and, once the seek succeeded,
    /// marks the frame current with [`IndexedFrameReader::set_current`].
    pub fn get_frame(&self, index: usize) -> (offset: Option<u64>)
        ensures
            index < self.offsets().len() ==> offset == Some(self.offsets()[index as int]),
            index >= self.offsets().len() ==> offset is None,
    {
        if index >= self.frame_offsets.len() {
            return None;
        }
        Some(self.frame_offsets[index])
    }

    /// Marks frame `index` as the one read last.
    pub fn set_current(&mut self, index: usize)
        requires
            index < old(self).offsets().len(),
        ensures
            final(self).offsets() == old(self).offsets(),
            final(self).current() == index,
    {
        self.current_index = index;
    }

    /// Returns the current frame index.
    pub fn current_index(&self) -> (i: usize)
        ensures
            i == self.current(),
    {
        self.current_index
    }
}

/// Index of the frame that playback shows after frame `current`: the next
/// one, and the first again after the last.
pub open spec fn following_frame(current: int, total: int) -> int {
    if current < total - 1 {
        current + 1
    } else {
        0
    }
}

/// Advances playback by one frame of a recording of `total` frames.
pub fn advance_frame(current: usize, total: usize) -> (next: usize)
    requires
        total > 0,
    ensures
        next == following_frame(current as int, total as int),
{
    if current < total - 1 {
        current + 1
    } else {
        0
    }
}

/// Frame position and play/drag state of the playback of a recording; the
/// playback speed, a real number, is kept beside it.
#[derive(Debug, Clone, Copy, PartialEq, Eq, Structural)]
pub struct PlaybackCursor {
    pub current_frame: usize,
    pub is_playing: bool,
    pub is_dragging: bool,
}

impl PlaybackCursor {
    /// Playback starts at the first frame, playing.
    pub fn new() -> (c: Self)
        ensures
            c == (PlaybackCursor { current_frame: 0, is_playing: true, is_dragging: false }),
    {
        PlaybackCursor { current_frame: 0, is_playing: true, is_dragging: false }
    }

    /// Space: play or pause.
    pub fn toggle_play(&mut self)
        ensures
            *final(self) == (PlaybackCursor { is_playing: !old(self).is_playing, ..*old(self) }),
    {
        self.is_playing = !self.is_playing;
    }

    /// Left arrow: one frame back (not before the first) and pause; ignored
    /// while the slider is dragged.
    pub fn step_backward(&mut self)
        ensures
            old(self).is_dragging ==> *final(self) == *old(self),
            !old(self).is_dragging ==> *final(self) == (PlaybackCursor {
                current_frame: if old(self).current_frame > 0 {
                    (old(self).current_frame - 1) as usize
                } else {
                    0
                },
                is_playing: false,
                is_dragging: false,
            }),
    {
        if !self.is_dragging {
            if self.current_frame > 0 {
                self.current_frame = self.current_frame - 1;
            }
            self.is_playing = false;
        }
    }

    /// Right arrow: one frame forward (not past the last of `total`) and
    /// pause; ignored while the slider is dragged.
    pub fn step_forward(&mut self, total: usize)
        requires
            total > 0,
        ensures
            old(self).is_dragging ==> *final(self) == *old(self),
            !old(self).is_dragging ==> *final(self) == (PlaybackCursor {
                current_frame: if old(self).current_frame < total - 1 {
                    (old(self).current_frame + 1) as usize
                } else {
                    old(self).current_frame
                },
                is_playing: false,
                is_dragging: false,
            }),
    {
        if !self.is_dragging {
            if self.current_frame < total - 1 {
                self.current_frame = self.current_frame + 1;
            }
            self.is_playing = false;
        }
    }

    /// Home: to the first frame, paused.
    pub fn jump_to_start(&mut self)
        ensures
            *final(self) == (PlaybackCursor { current_frame: 0, is_playing: false, ..*old(self) }),
    {
        self.current_frame = 0;
        self.is_playing = false;
    }

    /// End: to the last of `total` frames, paused.
    pub fn jump_to_end(&mut self, total: usize)
        requires
            total > 0,
        ensures
            *final(self) == (PlaybackCursor {
                current_frame: (total - 1) as usize,
                is_playing: false,
                ..*old(self)
            }),
    {
        self.current_frame = total - 1;
        self.is_playing = false;
    }

    /// Slider press (`true`) or release (`false`).
    pub fn set_dragging(&mut self, dragging: bool)
        ensures
            *final(self) == (PlaybackCursor { is_dragging: dragging, ..*old(self) }),
    {
        self.is_dragging = dragging;
    }

    /// Slider drag: show frame `frame`, clamped to the last of `total`.
    pub fn seek(&mut self, frame: usize, total: usize)
        requires
            total > 0,
        ensures
            *final(self) == (PlaybackCursor {
                current_frame: if frame < total {
                    frame
                } else {
                    (total - 1) as usize
                },
                ..*old(self)
            }),
    {
        self.current_frame = if frame < total {
            frame
        } else {
            total - 1
        };
    }

    /// One elapsed frame interval: while playing and not dragging, the next
    /// frame, the first again after the last.
    pub fn tick(&mut self, total: usize)
        requires
            total > 0,
        ensures
            old(self).is_playing && !old(self).is_dragging ==> *final(self) == (PlaybackCursor {
                current_frame: following_frame(old(self).current_frame as int, total as int) as usize,
                ..*old(self)
            }),
            !(old(self).is_playing && !old(self).is_dragging) ==> *final(self) == *old(self),
    {
        if self.is_playing && !self.is_dragging {
            self.current_frame = advance_frame(self.current_frame, total);
        }
    }
}

/// An input to the playback controls.
#[derive(Debug, Clone, Copy, PartialEq, Eq, Structural)]
pub enum PlaybackEvent {
    TogglePlay,
    StepBackward,
    StepForward,
    JumpToStart,
    JumpToEnd,
    SetDragging(bool),
    Seek(usize),
    Tick,
}

/// The cursor after `event` on a recording of `total` frames.
pub open spec fn after_event(c: PlaybackCursor, event: PlaybackEvent, total: usize) -> PlaybackCursor {
    if total == 0 {
        c
    } else {
        after_event_in(c, event, total)
    }
}

/// The cursor after `event` on a recording of `total > 0` frames.
pub open spec fn after_event_in(c: PlaybackCursor, event: PlaybackEvent, total: usize) -> PlaybackCursor {
    match event {
        PlaybackEvent::TogglePlay => PlaybackCursor { is_playing: !c.is_playing, ..c },
        PlaybackEvent::StepBackward => if c.is_dragging {
            c
        } else {
            PlaybackCursor {
                current_frame: if c.current_frame > 0 {
                    (c.current_frame - 1) as usize
                } else {
                    0
                },
                is_playing: false,
                ..c
            }
        },
        PlaybackEvent::StepForward => if c.is_dragging {
            c
        } else {
            PlaybackCursor {
                current_frame: if c.current_frame < total - 1 {
                    (c.current_frame + 1) as usize
                } else {
                    c.current_frame
                },
                is_playing: false,
                ..c
            }
        },
        PlaybackEvent::JumpToStart => PlaybackCursor { current_frame: 0, is_playing: false, ..c },
        PlaybackEvent::JumpToEnd => PlaybackCursor {
            current_frame: (total - 1) as usize,
            is_playing: false,
            ..c
        },
        PlaybackEvent::SetDragging(d) => PlaybackCursor { is_dragging: d, ..c },
        PlaybackEvent::Seek(f) => PlaybackCursor {
            current_frame: if f < total {
                f
            } else {
                (total - 1) as usize
            },
            ..c
        },
        PlaybackEvent::Tick => if c.is_playing && !c.is_dragging {
            PlaybackCursor {
                current_frame: following_frame(c.current_frame as int, total as int) as usize,
                ..c
            }
        } else {
            c
        },
    }
}

/// The cursor after a sequence of events.
pub open spec fn after_events(c: PlaybackCursor, events: Seq<PlaybackEvent>, total: usize) -> PlaybackCursor
    decreases events.len(),
{
    if events.len() == 0 {
        c
    } else {
        after_event(after_events(c, events.drop_last(), total), events.last(), total)
    }
}

impl PlaybackCursor {
    /// Applies one input to the controls; the controls of an empty
    /// recording do nothing.
    pub fn handle(&mut self, event: PlaybackEvent, total: usize)
        ensures
            *final(self) == after_event(*old(self), event, total),
    {
        if total == 0 {
            return;
        }
        match event {
            PlaybackEvent::TogglePlay => self.toggle_play(),
            PlaybackEvent::StepBackward => self.step_backward(),
            PlaybackEvent::StepForward => self.step_forward(total),
            PlaybackEvent::JumpToStart => self.jump_to_start(),
            PlaybackEvent::JumpToEnd => self.jump_to_end(total),
            PlaybackEvent::SetDragging(d) => self.set_dragging(d),
            PlaybackEvent::Seek(f) => self.seek(f, total),
            PlaybackEvent::Tick => self.tick(total),
        }
    }
}

/// Whatever the inputs, the controls of an empty recording leave the cursor
/// unchanged.
pub proof fn lemma_empty_recording_keeps_cursor(c: PlaybackCursor, events: Seq<PlaybackEvent>)
    ensures
        after_events(c, events, 0) == c,
    decreases events.len(),
{
    if events.len() > 0 {
        lemma_empty_recording_keeps_cursor(c, events.drop_last());
    }
}

/// Whatever the inputs, the cursor of a non-empty recording never leaves
/// it: a frame within the recording stays within it.
pub proof fn lemma_events_keep_frame_in_range(
    c: PlaybackCursor,
    events: Seq<PlaybackEvent>,
    total: usize,
)
    requires
        total > 0,
        c.current_frame < total,
    ensures
        after_events(c, events, total).current_frame < total,
    decreases events.len(),
{
    if events.len() > 0 {
        lemma_events_keep_frame_in_range(c, events.drop_last(), total);
    }
}

/// The left arrow, when the slider is not dragged, goes exactly one frame
/// back (the first frame stays the first) and pauses; the right arrow then
/// returns to the frame it left.
pub proof fn lemma_step_backward_goes_one_back(c: PlaybackCursor, total: usize)
    requires
        total > 0,
        c.current_frame < total,
        !c.is_dragging,
    ensures
        c.current_frame > 0 ==> after_event(c, PlaybackEvent::StepBackward, total).current_frame + 1
            == c.current_frame,
        c.current_frame == 0 ==> after_event(c, PlaybackEvent::StepBackward, total).current_frame == 0,
        !after_event(c, PlaybackEvent::StepBackward, total).is_playing,
        !after_event(c, PlaybackEvent::StepBackward, total).is_dragging,
        c.current_frame > 0 ==> after_event(
            after_event(c, PlaybackEvent::StepBackward, total),
            PlaybackEvent::StepForward,
            total,
        ).current_frame == c.current_frame,
{
}

/// The right arrow, when the slider is not dragged, goes exactly one frame
/// forward (the last frame stays the last) and pauses; the left arrow then
/// returns to the frame it left.
pub proof fn lemma_step_forward_goes_one_forward(c: PlaybackCursor, total: usize)
    requires
        total > 0,
        c.current_frame < total,
        !c.is_dragging,
    ensures
        c.current_frame + 1 < total ==> after_event(c, PlaybackEvent::StepForward, total).current_frame
            == c.current_frame + 1,
        c.current_frame + 1 == total ==> after_event(c, PlaybackEvent::StepForward, total).current_frame
            == c.current_frame,
        !after_event(c, PlaybackEvent::StepForward, total).is_playing,
        !after_event(c, PlaybackEvent::StepForward, total).is_dragging,
        c.current_frame + 1 < total ==> after_event(
            after_event(c, PlaybackEvent::StepForward, total),
            PlaybackEvent::StepBackward,
            total,
        ).current_frame == c.current_frame,
{
}

/// While the slider is dragged the arrow keys change nothing; pressing or
/// releasing the slider changes only whether it is dragged.
pub proof fn lemma_arrows_ignored_while_dragging(c: PlaybackCursor, total: usize, d: bool)
    requires
        total > 0,
    ensures
        c.is_dragging ==> after_event(c, PlaybackEvent::StepBackward, total) == c,
        c.is_dragging ==> after_event(c, PlaybackEvent::StepForward, total) == c,
        after_event(c, PlaybackEvent::SetDragging(d), total).is_dragging == d,
        after_event(c, PlaybackEvent::SetDragging(d), total).current_frame == c.current_frame,
        after_event(c, PlaybackEvent::SetDragging(d), total).is_playing == c.is_playing,
{
}

/// Space flips play/pause and nothing else, so pressing it twice restores
/// the cursor; Home and End show the first and the last frame, paused.
pub proof fn lemma_toggle_and_jumps(c: PlaybackCursor, total: usize)
    requires
        total > 0,
    ensures
        after_event(c, PlaybackEvent::TogglePlay, total).is_playing == !c.is_playing,
        after_event(c, PlaybackEvent::TogglePlay, total).current_frame == c.current_frame,
        after_event(c, PlaybackEvent::TogglePlay, total).is_dragging == c.is_dragging,
        after_event(after_event(c, PlaybackEvent::TogglePlay, total), PlaybackEvent::TogglePlay, total)
            == c,
        after_event(c, PlaybackEvent::JumpToStart, total).current_frame == 0,
        !after_event(c, PlaybackEvent::JumpToStart, total).is_playing,
        after_event(c, PlaybackEvent::JumpToEnd, total).current_frame + 1 == total,
        !after_event(c, PlaybackEvent::JumpToEnd, total).is_playing,
{
}

/// Dragging the slider to frame `f` shows frame `f` when the recording has
/// it and the last frame otherwise, and leaves play and drag state alone.
pub proof fn lemma_seek_shows_frame(c: PlaybackCursor, f: usize, total: usize)
    requires
        total > 0,
    ensures
        f < total ==> after_event(c, PlaybackEvent::Seek(f), total).current_frame == f,
        f >= total ==> after_event(c, PlaybackEvent::Seek(f), total).current_frame + 1 == total,
        after_event(c, PlaybackEvent::Seek(f), total).is_playing == c.is_playing,
        after_event(c, PlaybackEvent::Seek(f), total).is_dragging == c.is_dragging,
{
}

/// A frame interval while playing (and not dragging) shows the next frame,
/// the first again after the last; otherwise it changes nothing.
pub proof fn lemma_tick_advances_while_playing(c: PlaybackCursor, total: usize)
    requires
        total > 0,
        c.current_frame < total,
    ensures
        c.is_playing && !c.is_dragging ==> after_event(c, PlaybackEvent::Tick, total).current_frame
            == (c.current_frame + 1) % (total as int),
        c.is_playing && !c.is_dragging ==> after_event(c, PlaybackEvent::Tick, total).is_playing,
        !(c.is_playing && !c.is_dragging) ==> after_event(c, PlaybackEvent::Tick, total) == c,
{
    if c.current_frame + 1 < total {
        assert((c.current_frame + 1) % (total as int) == c.current_frame + 1) by {
            vstd::arithmetic::div_mod::lemma_small_mod((c.current_frame + 1) as nat, total as nat);
        }
    } else {
        assert((c.current_frame + 1) % (total as int) == 0) by {
            vstd::arithmetic::div_mod::lemma_mod_self_0(total as int);
        }
    }
}

/// Playback stays within the recording and visits every frame: from frame
/// `current`, `k` steps lead to frame `(current + k) % total`.
pub proof fn lemma_playback_cycles(current: int, total: int, k: nat)
    requires
        0 <= current < total,
    ensures
        steps_from(current, total, k) == (current + k) % total,
    decreases k,
{
    if k > 0 {
        lemma_playback_cycles(current, total, (k - 1) as nat);
        let prev = steps_from(current, total, (k - 1) as nat);
        assert(prev == (current + k - 1) % total);
        assert(0 <= prev < total);
        if prev < total - 1 {
            assert((current + k) % total == prev + 1) by {
                vstd::arithmetic::div_mod::lemma_add_mod_noop(current + k - 1, 1, total);
                vstd::arithmetic::div_mod::lemma_small_mod(1, total as nat);
                vstd::arithmetic::div_mod::lemma_small_mod((prev + 1) as nat, total as nat);
            }
        } else {
            assert((current + k) % total == 0) by {
                vstd::arithmetic::div_mod::lemma_add_mod_noop(current + k - 1, 1, total);
                if total > 1 {
                    vstd::arithmetic::div_mod::lemma_small_mod(1, total as nat);
                }
                vstd::arithmetic::div_mod::lemma_mod_self_0(total);
            }
        }
    } else {
        vstd::arithmetic::div_mod::lemma_small_mod(current as nat, total as nat);
    }
}

/// The frame reached after `k` playback steps from `current`.
pub open spec fn steps_from(current: int, total: int, k: nat) -> int
    decreases k,
{
    if k == 0 {
        current
    } else {
        following_frame(steps_from(current, total, (k - 1) as nat), total)
    }
}

/// Position of the first animal with identity `id` in a list of
/// identities, if any.
pub fn position_of_id(ids: &Vec<usize>, id: usize) -> (pos: Option<usize>)
    ensures
        pos is None <==> !ids@.contains(id),
        pos matches Some(i) ==> i < ids@.len() && ids@[i as int] == id && forall|j: int|
            0 <= j < i ==> ids@[j] != id,
{
    let mut i: usize = 0;
    while i < ids.len()
        invariant
            i <= ids@.len(),
            forall|j: int| 0 <= j < i ==> ids@[j] != id,
        decreases ids@.len() - i,
    {
        if ids[i] == id {
            return Some(i);
        }
        i = i + 1;
    }
    None
}

/// `s` ends with `.bin`.
pub open spec fn ends_with_bin(s: Seq<char>) -> bool {
    s.len() >= 4 && s[s.len() - 4] == '.' && s[s.len() - 3] == 'b' && s[s.len() - 2] == 'i' && s[s.len()
        - 1] == 'n'
}

/// `s` with every trailing `.bin` removed (as `str::trim_end_matches`).
pub open spec fn trim_bin(s: Seq<char>) -> Seq<char>
    decreases s.len(),
{
    if ends_with_bin(s) {
        trim_bin(s.subrange(0, s.len() - 4))
    } else {
        s
    }
}

/// Removing `.bin` endings: a name that does not end in `.bin` is kept
/// whole, one more `.bin` at the end changes nothing, and what is left is a
/// prefix of the name that no longer ends in `.bin`.
pub proof fn lemma_trim_bin_removes_endings(s: Seq<char>)
    ensures
        (s.len() < 4 || s[s.len() - 4] != '.' || s[s.len() - 3] != 'b' || s[s.len() - 2] != 'i'
            || s[s.len() - 1] != 'n') ==> trim_bin(s) == s,
        trim_bin(s + seq!['.', 'b', 'i', 'n']) == trim_bin(s),
        trim_bin(s).len() <= s.len(),
        trim_bin(s) == s.subrange(0, trim_bin(s).len() as int),
        !ends_with_bin(trim_bin(s)),
    decreases s.len(),
{
    let t = s + seq!['.', 'b', 'i', 'n'];
    assert(ends_with_bin(t));
    assert(t.subrange(0, t.len() - 4) =~= s);
    if ends_with_bin(s) {
        let p = s.subrange(0, s.len() - 4);
        lemma_trim_bin_removes_endings(p);
        assert(p.subrange(0, trim_bin(p).len() as int) =~= s.subrange(0, trim_bin(p).len() as int));
    } else {
        assert(s.subrange(0, s.len() as int) =~= s);
    }
}

/// Returns the settings filename for a given data filename: every trailing
/// `.bin` is removed and `.settings.json` appended.
pub fn settings_filename(data_filename: &str) -> (name: String)
    ensures
        name@ == trim_bin(data_filename@) + ".settings.json"@,
{
    let mut k: usize = data_filename.unicode_len();
    assert(data_filename@.subrange(0, k as int) =~= data_filename@);
    while k >= 4 && data_filename.get_char(k - 4) == '.' && data_filename.get_char(k - 3) == 'b'
        && data_filename.get_char(k - 2) == 'i' && data_filename.get_char(k - 1) == 'n'
        invariant
            k <= data_filename@.len(),
            trim_bin(data_filename@) == trim_bin(data_filename@.subrange(0, k as int)),
        decreases k,
    {
        assert(data_filename@.subrange(0, k as int).subrange(0, k - 4) =~= data_filename@.subrange(
            0,
            k - 4,
        ));
        k = k - 4;
    }
    let stem = data_filename.substring_char(0, k);
    let ghost s = data_filename@.subrange(0, k as int);
    assert(!ends_with_bin(s));
    let mut name = String::from_str(stem);
    name.append(".settings.json");
    name
}

} // verus!
