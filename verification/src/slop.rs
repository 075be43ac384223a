//! Position-list intersection with slop, as used when matching term
//! patterns against postings: keep each position of `right` that has a
//! position of `left` at most `slop` below it.

use vstd::prelude::*;

verus! {

/// Non-decreasing order.
pub open spec fn sorted_u32(s: Seq<u32>) -> bool {
    forall|i: int, j: int| 0 <= i < j < s.len() ==> s[i] <= s[j]
}

/// Some position of `left` lies in the window `[r - slop, r]`.
pub open spec fn win_match(left: Seq<u32>, r: u32, slop: u32) -> bool {
    exists|i: int|
        0 <= i < left.len() && (#[trigger] left[i]) <= r && r <= left[i] + slop
}

/// The positions of `right` that match `left` within `slop`, in order.
pub open spec fn matched_seq(left: Seq<u32>, right: Seq<u32>, slop: u32) -> Seq<u32> {
    right.filter(|r: u32| win_match(left, r, slop))
}

/// Intersect two sorted position lists: write into a prefix of `out` every
/// position of `right` with a position of `left` at most `slop` below it,
/// and return how many were written. The rest of `out` is untouched.
#[verifier::loop_isolation(false)]
#[verifier::rlimit(60)]
pub fn intersection_with_slop(left: &Vec<u32>, right: &Vec<u32>, out: &mut Vec<u32>, slop: u32)
    -> (count: usize)
    requires
        sorted_u32(left@),
        sorted_u32(right@),
        old(out)@.len() >= right@.len(),
    ensures
        count <= right@.len(),
        final(out)@.len() == old(out)@.len(),
        final(out)@.subrange(0, count as int) == matched_seq(left@, right@, slop),
        final(out)@.subrange(count as int, final(out)@.len() as int) == old(out)@.subrange(
            count as int,
            old(out)@.len() as int,
        ),
    {
    let left_len = left.len();
    let right_len = right.len();
    let mut left_index: usize = 0;
    let mut right_index: usize = 0;
    let mut count: usize = 0;
    proof {
        assert(left@.skip(0) =~= left@);
        assert(right@.take(0) =~= Seq::<u32>::empty());
        assert(matched_seq(left@, right@.take(0), slop) =~= Seq::<u32>::empty());
    }
    while left_index < left_len && right_index < right_len
        invariant
            0 <= left_index <= left_len,
            0 <= right_index <= right_len,
            count <= right_index,
            out@.len() == old(out)@.len(),
            out@.subrange(0, count as int) == matched_seq(left@, right@.take(right_index as int), slop),
            forall|q: int|
                count <= q < out@.len() ==> out@[q] == old(out)@[q],
            forall|ri: int|
                right_index <= ri < right_len ==> (win_match(left@, right@[ri], slop)
                    <==> win_match(left@.skip(left_index as int), right@[ri], slop)),
        decreases (left_len - left_index) + (right_len - right_index),
    {
        let left_val = left[left_index];
        let right_val = right[right_index];
        let right_slop: u32 = if right_val >= slop {
            right_val - slop
        } else {
            0
        };
        if left_val < right_slop {
            proof {
                assert forall|ri: int|
                    right_index + 0 <= ri < right_len implies (win_match(left@, right@[ri], slop)
                        <==> win_match(left@.skip(left_index as int + 1), right@[ri], slop)) by {
                    assert(right@[right_index as int] <= right@[ri]);
                    if win_match(left@.skip(left_index as int), right@[ri], slop) {
                        let w = choose|w: int|
                            0 <= w < left@.skip(left_index as int).len() && (#[trigger] left@.skip(
                                left_index as int,
                            )[w]) <= right@[ri] && right@[ri] <= left@.skip(left_index as int)[w]
                                + slop;
                        if w == 0 {
                            assert(left@[left_index as int] + slop < right@[ri]);
                            assert(false);
                        } else {
                            assert(left@.skip(left_index as int + 1)[w - 1] == left@.skip(
                                left_index as int,
                            )[w]);
                            assert(win_match(left@.skip(left_index as int + 1), right@[ri], slop));
                        }
                    }
                    if win_match(left@.skip(left_index as int + 1), right@[ri], slop) {
                        let w = choose|w: int|
                            0 <= w < left@.skip(left_index as int + 1).len() && (
                            #[trigger] left@.skip(left_index as int + 1)[w]) <= right@[ri]
                                && right@[ri] <= left@.skip(left_index as int + 1)[w] + slop;
                        assert(left@.skip(left_index as int)[w + 1] == left@.skip(
                            left_index as int + 1,
                        )[w]);
                        assert(win_match(left@.skip(left_index as int), right@[ri], slop));
                    }
                }
            }
            left_index += 1;
        } else if left_val <= right_val {
            while left_index + 1 < left_len && left[left_index + 1] <= right_val
                invariant
                    0 <= left_index < left_len,
                    left@[left_index as int] <= right_val,
                    right_val == right@[right_index as int],
                    right_index < right_len,
                    forall|ri: int|
                        right_index <= ri < right_len ==> (win_match(left@, right@[ri], slop)
                            <==> win_match(left@.skip(left_index as int), right@[ri], slop)),
                decreases left_len - left_index,
            {
                proof {
                    let li = left_index as int;
                    assert forall|ri: int|
                        right_index + 0 <= ri < right_len implies (win_match(
                        left@,
                        right@[ri],
                        slop,
                    ) <==> win_match(left@.skip(li + 1), right@[ri], slop)) by {
                        assert(right@[right_index as int] <= right@[ri]);
                        if win_match(left@.skip(li), right@[ri], slop) {
                            let w = choose|w: int|
                                0 <= w < left@.skip(li).len() && (#[trigger] left@.skip(li)[w])
                                    <= right@[ri] && right@[ri] <= left@.skip(li)[w] + slop;
                            if w == 0 {
                                assert(left@[li + 1] <= right_val);
                                assert(left@.skip(li + 1)[0] == left@[li + 1]);
                                assert(left@[li] <= left@[li + 1]);
                                assert(win_match(left@.skip(li + 1), right@[ri], slop));
                            } else {
                                assert(left@.skip(li + 1)[w - 1] == left@.skip(li)[w]);
                                assert(win_match(left@.skip(li + 1), right@[ri], slop));
                            }
                        }
                        if win_match(left@.skip(li + 1), right@[ri], slop) {
                            let w = choose|w: int|
                                0 <= w < left@.skip(li + 1).len() && (#[trigger] left@.skip(
                                    li + 1,
                                )[w]) <= right@[ri] && right@[ri] <= left@.skip(li + 1)[w] + slop;
                            assert(left@.skip(li)[w + 1] == left@.skip(li + 1)[w]);
                            assert(win_match(left@.skip(li), right@[ri], slop));
                        }
                    }
                }
                left_index += 1;
            }
            proof {
                let li = left_index as int;
                let ri0 = right_index as int;
                assert(left@.skip(li)[0] == left@[li]);
                assert(win_match(left@.skip(li), right@[ri0], slop));
                assert(win_match(left@, right@[ri0], slop));
                reveal(Seq::filter);
                assert(right@.take(ri0 + 1).len() == ri0 + 1);
                assert(right@.take(ri0 + 1).last() == right@[ri0]);
                assert(right@.take(ri0 + 1).drop_last() =~= right@.take(ri0));
                assert(matched_seq(left@, right@.take(ri0 + 1), slop) =~= matched_seq(
                    left@,
                    right@.take(ri0),
                    slop,
                ).push(right@[ri0]));
            }
            out[count] = right_val;
            count += 1;
            right_index += 1;
            proof {
                assert(out@.subrange(0, count as int) =~= matched_seq(
                    left@,
                    right@.take(right_index as int),
                    slop,
                ));
            }
        } else {
            proof {
                let li = left_index as int;
                let ri0 = right_index as int;
                assert forall|w: int| 0 <= w < left@.skip(li).len() implies !((
                #[trigger] left@.skip(li)[w]) <= right@[ri0] && right@[ri0] <= left@.skip(li)[w]
                    + slop) by {
                    assert(left@.skip(li)[w] == left@[li + w]);
                    assert(left@[li] <= left@[li + w]);
                }
                assert(!win_match(left@.skip(li), right@[ri0], slop));
                assert(!win_match(left@, right@[ri0], slop));
                reveal(Seq::filter);
                assert(right@.take(ri0 + 1).len() == ri0 + 1);
                assert(right@.take(ri0 + 1).last() == right@[ri0]);
                assert(right@.take(ri0 + 1).drop_last() =~= right@.take(ri0));
                assert(matched_seq(left@, right@.take(ri0 + 1), slop) =~= matched_seq(
                    left@,
                    right@.take(ri0),
                    slop,
                ));
            }
            right_index += 1;
        }
    }
    proof {
        if right_index < right_len {
            assert forall|ri: int|
                right_index + 0 <= ri < right_len implies !win_match(left@, right@[ri], slop) by {
                assert(left@.skip(left_index as int).len() == 0);
            }
        }
        assert(right@.take(right_len as int) =~= right@);
        lemma_no_match_suffix(left@, right@, slop, right_index as int);
        assert(out@.subrange(0, count as int) =~= matched_seq(left@, right@, slop));
    }
    count
}

/// If no position from an index on matches, the matched positions of the
/// whole list are those of the prefix.
proof fn lemma_no_match_suffix(left: Seq<u32>, right: Seq<u32>, slop: u32, i: int)
    requires
        0 <= i <= right.len(),
        forall|ri: int| i <= ri < right.len() ==> !win_match(left, right[ri], slop),
    ensures
        matched_seq(left, right, slop) == matched_seq(left, right.take(i), slop),
    decreases right.len() - i,
{
    if i < right.len() {
        lemma_no_match_suffix(left, right, slop, i + 1);
        reveal(Seq::filter);
        assert(right.take(i + 1).len() == i + 1);
        assert(right.take(i + 1).last() == right[i]);
        assert(right.take(i + 1).drop_last() =~= right.take(i));
        assert(matched_seq(left, right.take(i + 1), slop) =~= matched_seq(
            left,
            right.take(i),
            slop,
        ));
    } else {
        assert(right.take(i) =~= right);
    }
}

} // verus!
