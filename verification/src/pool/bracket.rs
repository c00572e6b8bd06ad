use vstd::prelude::*;

verus! {

/// How many teams the next group takes off the front of the unmatched list:
/// the configured maximum, or everything that remains if fewer.
pub open spec fn chunk_of(len: nat, max: nat) -> int {
    if max <= len {
        max as int
    } else {
        len as int
    }
}

/// The front-to-back partition of the unmatched list into match groups:
/// consecutive slices of `min(max, remaining)` teams, taken for as long as
/// at least `min` teams remain.
pub open spec fn groups_of<T>(ids: Seq<T>, min: nat, max: nat) -> Seq<Seq<T>>
    decreases ids.len() when 1 <= min && min <= max
{
    if ids.len() < min {
        Seq::empty()
    } else {
        let c = chunk_of(ids.len(), max);
        seq![ids.take(c)] + groups_of(ids.skip(c), min, max)
    }
}

/// The trailing teams too few to form a group; each of them is granted a
/// bye.
pub open spec fn leftover_of<T>(ids: Seq<T>, min: nat, max: nat) -> Seq<T>
    decreases ids.len() when 1 <= min && min <= max
{
    if ids.len() < min {
        ids
    } else {
        leftover_of(ids.skip(chunk_of(ids.len(), max)), min, max)
    }
}

/// Shape of the partition: the leftover is always shorter than `min`, every
/// group's size lies in `[min, max]`, every partitioned element comes from
/// the input, and a non-empty input yields at least one group or leftover
/// element.
pub proof fn lemma_bracket_parts<T>(ids: Seq<T>, min: nat, max: nat)
    requires
        1 <= min <= max,
    ensures
        leftover_of(ids, min, max).len() < min,
        forall|k: int|
            0 <= k < groups_of(ids, min, max).len() ==> min <= (#[trigger] groups_of(
                ids,
                min,
                max,
            )[k]).len() <= max,
        forall|k: int, j: int|
            0 <= k < groups_of(ids, min, max).len() && 0 <= j < groups_of(ids, min, max)[k].len()
                ==> ids.contains(#[trigger] groups_of(ids, min, max)[k][j]),
        forall|j: int|
            0 <= j < leftover_of(ids, min, max).len() ==> ids.contains(
                #[trigger] leftover_of(ids, min, max)[j],
            ),
        ids.len() >= 1 ==> groups_of(ids, min, max).len() + leftover_of(ids, min, max).len() >= 1,
    decreases ids.len(),
{
    let gs = groups_of(ids, min, max);
    let lo = leftover_of(ids, min, max);
    if ids.len() < min {
        assert forall|j: int| 0 <= j < lo.len() implies ids.contains(#[trigger] lo[j]) by {
            assert(ids[j] == lo[j]);
        }
    } else {
        let c = chunk_of(ids.len(), max);
        let rest = ids.skip(c);
        lemma_bracket_parts(rest, min, max);
        let grest = groups_of(rest, min, max);
        assert(gs == seq![ids.take(c)] + grest);
        assert(lo == leftover_of(rest, min, max));
        assert forall|k: int| 0 <= k < gs.len() implies min <= (#[trigger] gs[k]).len() <= max by {
            if k == 0 {
                assert(gs[0] == ids.take(c));
            } else {
                assert(gs[k] == grest[k - 1]);
            }
        }
        assert forall|k: int, j: int|
            0 <= k < gs.len() && 0 <= j < gs[k].len() implies ids.contains(
            #[trigger] gs[k][j],
        ) by {
            if k == 0 {
                assert(gs[0][j] == ids[j]);
                assert(ids.contains(ids[j]));
            } else {
                assert(gs[k] == grest[k - 1]);
                let x = choose|x: int| 0 <= x < rest.len() && rest[x] == gs[k][j];
                assert(ids[x + c] == gs[k][j]);
                assert(ids.contains(ids[x + c]));
            }
        }
        assert forall|j: int| 0 <= j < lo.len() implies ids.contains(#[trigger] lo[j]) by {
            let x = choose|x: int| 0 <= x < rest.len() && rest[x] == lo[j];
            assert(ids[x + c] == lo[j]);
            assert(ids.contains(ids[x + c]));
        }
    }
}

} // verus!
