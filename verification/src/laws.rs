//! General properties of the ring buffer, proved once and for all.
//!
//! Each lemma speaks about one read against an arbitrary buffer state and an
//! arbitrary cursor that belongs to it, through the same spec functions that
//! the contracts of [`RingBufferStorage::read`] and the write operations use.
//! The lemmas about a reader that fell behind assume the write counter has
//! not yet been rebased (`log().len() <= reset_threshold()`); across a rebase
//! the recovered distance is the documented counter formula, which can run
//! one short of the true distance.

use vstd::arithmetic::div_mod::{
    lemma_fundamental_div_mod, lemma_fundamental_div_mod_converse_mod,
    lemma_mod_division_less_than_divisor, lemma_small_mod,
};
use vstd::prelude::*;

use crate::storage::{bulk_written, circ_seq, ReaderId, RingBufferStorage};

verus! {

/// The data-model invariants hold in every reachable state: the backing
/// store never holds more elements than the capacity (a zero-capacity buffer
/// stays empty and drops every write on arrival), the write slot lies within
/// the capacity and wraps to zero, and the write counter never exceeds the
/// rebase threshold.
pub proof fn lemma_store_bounded<T: 'static>(s: RingBufferStorage<T>)
    requires
        s.wf(),
    ensures
        s.stored().len() <= s.cap(),
        s.cap() == 0 ==> s.write_pos() == 0,
        s.cap() > 0 ==> s.write_pos() < s.cap(),
        s.counter() <= s.reset_threshold(),
{
    if s.cap() > 0 {
        lemma_mod_division_less_than_divisor(s.log().len() as int, s.cap() as int);
    }
    lemma_mod_division_less_than_divisor(s.log().len() as int, s.period() as int);
}

/// A caught-up reader reads nothing: whenever a cursor's consumed position
/// equals the length of the write history — as it does right after any read,
/// normal or overflow — a read through it recovers a distance of zero and
/// delivers the explicitly empty normal outcome.  Reading twice in a row
/// without an intervening write therefore yields an empty normal outcome both
/// times, never a spurious overflow.
pub proof fn lemma_read_caught_up<T: 'static>(s: RingBufferStorage<T>, r: ReaderId)
    requires
        s.wf(),
        s.valid_reader(r),
        r.log_pos() == s.log().len(),
    ensures
        s.num_written_since(r) == 0,
        !s.lapped(r),
        s.normal_contents(r) == Seq::<T>::empty(),
{
    assert(r.counter_snapshot() == s.counter());
    assert(r.read_pos() == s.write_pos());
    assert(s.normal_contents(r) =~= Seq::<T>::empty());
}

/// What the counter formula recovers for any valid cursor, rebase or not:
/// never more than the true distance, and at most one short of it — exactly
/// the true distance whenever the counter did not wrap past the rebase
/// threshold since the snapshot.  The one-short case is the documented
/// behavior of the recovery formula across a rebase.
pub proof fn lemma_recovered_distance_bounds<T: 'static>(s: RingBufferStorage<T>, r: ReaderId)
    requires
        s.wf(),
        s.valid_reader(r),
    ensures
        s.log().len() - r.log_pos() - 1 <= s.num_written_since(r) <= s.log().len() - r.log_pos(),
        s.counter() >= r.counter_snapshot() ==> s.num_written_since(r) == s.log().len()
            - r.log_pos(),
{
    s.lemma_recovered_distance(r);
}

/// A reader at most a full buffer behind reads back exactly what it missed:
/// if `n <= cap()` elements were written since the cursor's snapshot (and the
/// counter was not rebased), a read recovers the exact distance `n`, does not
/// report a lap, and the normal outcome holds precisely those `n` elements of
/// the write history, in write order.
pub proof fn lemma_read_in_window<T: 'static>(s: RingBufferStorage<T>, r: ReaderId)
    requires
        s.wf(),
        s.valid_reader(r),
        s.log().len() <= s.reset_threshold(),
        s.log().len() - r.log_pos() <= s.cap(),
    ensures
        s.num_written_since(r) == s.log().len() - r.log_pos(),
        !s.lapped(r),
        s.normal_contents(r) == s.log().subrange(r.log_pos() as int, s.log().len() as int),
{
    let len = s.log().len() as int;
    let pos = r.log_pos() as int;
    let k = len - pos;
    lemma_small_mod(s.log().len(), s.period());
    lemma_small_mod(r.log_pos(), s.period());
    assert(s.num_written_since(r) == k);
    let target = s.log().subrange(pos, len);
    if k == 0 {
        assert(s.normal_contents(r) =~= target);
    } else {
        let c = s.cap() as int;
        let cur = s.slot_of(r.log_pos()) as int;
        let stop = s.slot_of(s.log().len()) as int;
        let got = s.normal_contents(r);
        lemma_fundamental_div_mod(pos, c);
        lemma_fundamental_div_mod(len, c);
        lemma_mod_division_less_than_divisor(pos, c);
        lemma_mod_division_less_than_divisor(len, c);
        let q = pos / c;
        let qq = len / c;
        assert(k == (qq - q) * c + (stop - cur)) by (nonlinear_arith)
            requires
                pos == c * q + cur,
                len == c * qq + stop,
                k == len - pos,
        ;
        assert(stop - cur == k || stop - cur == k - c) by (nonlinear_arith)
            requires
                k == (qq - q) * c + (stop - cur),
                0 < k <= c,
                0 <= cur < c,
                0 <= stop < c,
        ;
        if stop - cur == k {
            // no wrap: the range lies within the used slots in one piece
            assert(got.len() == k);
            assert forall|j: int| 0 <= j < k implies got[j] == #[trigger] target[j] by {
                assert(target[j] == s.log()[pos + j]);
                assert(pos + j == q * c + (cur + j)) by (nonlinear_arith)
                    requires
                        pos == c * q + cur,
                ;
                lemma_fundamental_div_mod_converse_mod(pos + j, c, q, cur + j);
                assert(s.stored()[s.slot_of((pos + j) as nat) as int] == s.log()[pos + j]);
                assert(got[j] == s.stored()[cur + j]);
            }
            assert(got =~= target);
        } else {
            // the range wraps past the physical end of a saturated store
            assert(len >= c) by {
                if len < c {
                    lemma_small_mod(r.log_pos(), s.cap());
                    lemma_small_mod(s.log().len(), s.cap());
                }
            }
            assert(s.stored().len() == c);
            assert(got.len() == k);
            assert forall|j: int| 0 <= j < k implies got[j] == #[trigger] target[j] by {
                assert(target[j] == s.log()[pos + j]);
                if cur + j < c {
                    assert(pos + j == q * c + (cur + j)) by (nonlinear_arith)
                        requires
                            pos == c * q + cur,
                    ;
                    lemma_fundamental_div_mod_converse_mod(pos + j, c, q, cur + j);
                    assert(s.stored()[s.slot_of((pos + j) as nat) as int] == s.log()[pos + j]);
                    assert(got[j] == s.stored()[cur + j]);
                } else {
                    assert(pos + j == (q + 1) * c + (cur + j - c)) by (nonlinear_arith)
                        requires
                            pos == c * q + cur,
                    ;
                    lemma_fundamental_div_mod_converse_mod(pos + j, c, q + 1, cur + j - c);
                    assert(s.stored()[s.slot_of((pos + j) as nat) as int] == s.log()[pos + j]);
                    assert(got[j] == s.stored()[cur + j - c]);
                }
            }
            assert(got =~= target);
        }
    }
}

/// A lapped reader is told so exactly: if more than `cap()` elements were
/// written since the cursor's snapshot (and the counter was not rebased), a
/// read recovers the exact distance, reports the lap with a lost count of
/// distance minus capacity, and the full circular lap handed back as the
/// recovered view holds exactly the last `cap()` elements of the write
/// history, oldest surviving first.
pub proof fn lemma_read_lapped<T: 'static>(s: RingBufferStorage<T>, r: ReaderId)
    requires
        s.wf(),
        s.valid_reader(r),
        s.log().len() <= s.reset_threshold(),
        s.log().len() - r.log_pos() > s.cap(),
    ensures
        s.num_written_since(r) == s.log().len() - r.log_pos(),
        s.lapped(r),
        circ_seq(s.stored(), s.write_pos() as int, s.write_pos() as int, false) == s.log().subrange(
            s.log().len() - s.cap(),
            s.log().len() as int,
        ),
{
    lemma_small_mod(s.log().len(), s.period());
    lemma_small_mod(r.log_pos(), s.period());
    assert(s.cap() > 0);
    s.lemma_full_lap();
}

/// An oversized bulk write is capped but readable: when a bulk write larger
/// than the capacity was applied to the buffer, exactly the first `cap()`
/// input elements entered the write history, and a reader that was in sync
/// just before the write reads back exactly those elements, in order, with no
/// lap reported.
pub proof fn lemma_bulk_write_read_back<T: 'static>(
    s: RingBufferStorage<T>,
    r: ReaderId,
    prefix: Seq<T>,
    input: Seq<T>,
)
    requires
        s.wf(),
        s.valid_reader(r),
        s.log() == prefix + bulk_written(input, s.cap()),
        r.log_pos() == prefix.len(),
        input.len() > s.cap(),
        s.log().len() <= s.reset_threshold(),
    ensures
        s.num_written_since(r) == s.cap(),
        !s.lapped(r),
        s.normal_contents(r) == input.take(s.cap() as int),
{
    assert(s.log().len() == prefix.len() + s.cap());
    lemma_read_in_window(s, r);
    assert(s.log().subrange(r.log_pos() as int, s.log().len() as int) =~= input.take(
        s.cap() as int,
    ));
}

} // verus!
