//! When a connection has been idle too long, and the pool of receive buffers.
use bytes::BytesMut;
use lendpool::LendPool;
use vstd::prelude::*;

verus! {

/// Seconds of the pool's clock between `last_active` and `now`, counted on a
/// clock of 32 bits: a `last_active` later than `now` wraps around.
pub open spec fn idle_time(now: u32, last_active: u32) -> int {
    if last_active <= now {
        now - last_active
    } else {
        now - last_active + 0x1_0000_0000
    }
}

/// A sweep at `now` keeps a connection last active at `last_active` when it
/// has been idle no longer than `timeout`.
pub open spec fn kept_by_sweep(now: u32, last_active: u32, timeout: u32) -> bool {
    idle_time(now, last_active) <= timeout
}

/// Whether a connection last active at `last_active` (in seconds of the
/// pool's clock) is still kept by a sweep at time `now`: it is idle no longer
/// than its timeout. A `last_active` later than `now` wraps around.
pub fn connection_alive(now: u32, last_active: u32, timeout: u32) -> (r: bool)
    ensures
        r == kept_by_sweep(now, last_active, timeout),
{
    if last_active <= now {
        now - last_active <= timeout
    } else {
        now + (u32::MAX - last_active) + 1 <= timeout
    }
}

/// Whether a connection that was in its sub-pool before the sweeps at
/// `times`, and that was last active at `last_active` throughout, is still
/// there after the first `k` of them: each sweep keeps it or removes it for
/// good.
pub open spec fn present_after(times: Seq<u32>, last_active: u32, timeout: u32, k: nat) -> bool
    decreases k,
{
    if k == 0 {
        true
    } else {
        present_after(times, last_active, timeout, (k - 1) as nat) && kept_by_sweep(
            times[k - 1],
            last_active,
            timeout,
        )
    }
}

/// Sweep times that never go back, none of them before `last_active`.
pub open spec fn sweeps_after(times: Seq<u32>, last_active: u32) -> bool {
    &&& forall|i: int, j: int| 0 <= i <= j < times.len() ==> times[i] <= times[j]
    &&& forall|i: int| 0 <= i < times.len() ==> last_active <= #[trigger] times[i]
}

proof fn lemma_present_after(times: Seq<u32>, last_active: u32, timeout: u32, k: nat)
    requires
        sweeps_after(times, last_active),
        k < times.len(),
    ensures
        present_after(times, last_active, timeout, k + 1) <==> times[k as int] - last_active
            <= timeout,
    decreases k,
{
    assert(last_active <= times[k as int]);
    assert(present_after(times, last_active, timeout, k + 1) == (present_after(
        times,
        last_active,
        timeout,
        k,
    ) && kept_by_sweep(times[k as int], last_active, timeout)));
    if k > 0 {
        lemma_present_after(times, last_active, timeout, (k - 1) as nat);
        assert(times[k - 1] <= times[k as int]);
        assert(last_active <= times[k - 1]);
    }
}

/// A connection that is not heard from again after `last_active` stays in
/// its sub-pool through every sweep at a time `t` with `t - last_active` at
/// most its timeout, and the first sweep with `t - last_active` over the
/// timeout removes it: with sweep times that never go back and never precede
/// `last_active`, it is there after sweep `k` exactly when that sweep came no
/// later than `last_active + timeout`, and sweep `k` is the one that removes
/// it exactly when sweep `k` is the first to come later.
pub proof fn law_idle_connection_evicted(times: Seq<u32>, last_active: u32, timeout: u32, k: nat)
    requires
        sweeps_after(times, last_active),
        k < times.len(),
    ensures
        present_after(times, last_active, timeout, k + 1) <==> times[k as int] - last_active
            <= timeout,
        (present_after(times, last_active, timeout, k) && !present_after(
            times,
            last_active,
            timeout,
            k + 1,
        )) <==> (times[k as int] - last_active > timeout && (k == 0 || times[k - 1] - last_active
            <= timeout)),
{
    lemma_present_after(times, last_active, timeout, k);
    if k > 0 {
        lemma_present_after(times, last_active, timeout, (k - 1) as nat);
    }
}

#[verifier::external_type_specification]
#[verifier::external_body]
#[verifier::reject_recursive_types(T)]
pub struct ExLendPool<T>(lendpool::LendPool<T>);

#[verifier::external_type_specification]
#[verifier::external_body]
pub struct ExBytesMut(bytes::BytesMut);

/// How many buffers a pool holds ready to be loaned out: the counter that
/// `LendPool::available` reads.
pub uninterp spec fn pool_available(pool: LendPool<BytesMut>) -> nat;

/// The buffers in a pool's queue, each by the bytes it holds and the room
/// it was made with (`buffer_entry`).
pub uninterp spec fn pool_buffers(pool: LendPool<BytesMut>) -> vstd::multiset::Multiset<
    (Seq<u8>, nat),
>;

/// The bytes a buffer holds (`&buffer[..]`).
pub uninterp spec fn buffer_bytes(buffer: BytesMut) -> Seq<u8>;

/// The room, in bytes, that a buffer was asked to have when it was made: it
/// can hold at least that many bytes without growing.
pub uninterp spec fn buffer_limit(buffer: BytesMut) -> nat;

/// A buffer as a pool's queue records it: the bytes it holds and the room
/// it was made with.
pub open spec fn buffer_entry(buffer: BytesMut) -> (Seq<u8>, nat) {
    (buffer_bytes(buffer), buffer_limit(buffer))
}

/// An empty buffer made with room for `size` bytes, as a pool records it.
pub open spec fn empty_buffer_of(size: nat) -> (Seq<u8>, nat) {
    (no_bytes(), size)
}

/// No buffers at all.
pub open spec fn no_buffers() -> vstd::multiset::Multiset<(Seq<u8>, nat)> {
    vstd::multiset::Multiset::empty()
}

/// No bytes at all.
pub open spec fn no_bytes() -> Seq<u8> {
    Seq::empty()
}

/// `LendPool::new`: a pool with an empty queue whose counter of available
/// items starts at zero.
#[verifier::external_body]
fn lend_pool_new() -> (pool: LendPool<BytesMut>)
    ensures
        pool_available(pool) == 0,
        pool_buffers(pool) == no_buffers(),
{
    LendPool::new()
}

/// `LendPool::add`: the buffer is pushed onto the pool's queue and the
/// counter of available items goes up by one. The counter is an atomic
/// `fetch_add`, which wraps at `usize::MAX`; that input is left out.
#[verifier::external_body]
fn lend_pool_add(pool: &mut LendPool<BytesMut>, buffer: BytesMut)
    requires
        pool_available(*old(pool)) < usize::MAX,
    ensures
        pool_available(*final(pool)) == pool_available(*old(pool)) + 1,
        pool_buffers(*final(pool)) == pool_buffers(*old(pool)).insert(buffer_entry(buffer)),
{
    pool.add(buffer)
}

/// `BytesMut::with_capacity`: a buffer holding no bytes, made with room for
/// at least `capacity` of them. The exact room it got is not stated: it is
/// what the allocator handed out. A capacity over `isize::MAX` panics in the
/// allocation and is left out.
#[verifier::external_body]
fn new_buffer(capacity: usize) -> (buffer: BytesMut)
    requires
        capacity <= isize::MAX,
    ensures
        buffer_bytes(buffer) == no_bytes(),
        buffer_limit(buffer) == capacity,
{
    BytesMut::with_capacity(capacity)
}

/// A pool of `count` receive buffers, each empty and made with room for
/// `buffer_size` bytes, all of them ready to be loaned out.
pub fn fill_buffer_pool(count: usize, buffer_size: usize) -> (pool: LendPool<BytesMut>)
    requires
        count == 0 || buffer_size <= isize::MAX,
    ensures
        pool_available(pool) == count,
        pool_buffers(pool).len() == count,
        pool_buffers(pool).count(empty_buffer_of(buffer_size as nat)) == count,
{
    let mut pool = lend_pool_new();
    let mut added: usize = 0;
    while added < count
        invariant
            added <= count,
            pool_available(pool) == added,
            pool_buffers(pool).len() == added,
            pool_buffers(pool).count(empty_buffer_of(buffer_size as nat)) == added,
            count == 0 || buffer_size <= isize::MAX,
        decreases count - added,
    {
        lend_pool_add(&mut pool, new_buffer(buffer_size));
        added = added + 1;
    }
    pool
}

} // verus!
