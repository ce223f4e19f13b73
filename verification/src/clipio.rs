//! Transfers through a pipe: of a bounded size, in a bounded time.

use vstd::prelude::*;

verus! {

/// The most bytes of one transfer.
pub const MAX_CLIP_BYTES: usize = 16_777_216;

/// Does a transfer that has `done` of `total` bytes go on?
pub fn goes_on(done: usize, total: usize, elapsed_ms: u128, budget_ms: u128) -> (r: bool)
    ensures
        r == (done < total && elapsed_ms < budget_ms),
{
    done < total && elapsed_ms < budget_ms
}

/// What a read or a write came to: so many bytes, not now, or a failure.
#[derive(Clone, Copy, PartialEq, Eq, Structural, Debug)]
pub enum Moved {
    Bytes(usize),
    NotNow,
    Failed,
}

/// Does the transfer try again after `m`? Not at its end, nor after a failure.
pub open spec fn tries_again(m: Moved) -> bool {
    match m {
        Moved::Bytes(n) => n > 0,
        Moved::NotNow => true,
        Moved::Failed => false,
    }
}

/// What was read so far, after `m` bytes of `buf` came: no more than fit.
pub open spec fn taken(before: Seq<u8>, buf: Seq<u8>, m: Moved) -> Seq<u8> {
    match m {
        Moved::Bytes(n) => {
            let room = MAX_CLIP_BYTES - before.len();
            before + buf.take(if n < room { n as int } else { room })
        },
        _ => before,
    }
}

/// One step of a read: takes what came, and says whether to go on.
pub fn read_step(out: &mut Vec<u8>, buf: &[u8], m: Moved) -> (r: bool)
    requires
        old(out)@.len() <= MAX_CLIP_BYTES,
        m matches Moved::Bytes(n) ==> n <= buf@.len(),
    ensures
        r == tries_again(m),
        final(out)@ == taken(old(out)@, buf@, m),
        final(out)@.len() <= MAX_CLIP_BYTES,
{
    match m {
        Moved::Bytes(n) => {
            let ghost before = out@;
            let room: usize = MAX_CLIP_BYTES - out.len();
            let k: usize = if n < room {
                n
            } else {
                room
            };
            let mut i: usize = 0;
            assert(before + buf@.take(0) =~= before);
            while i < k
                invariant
                    i <= k <= buf@.len(),
                    out@ == before + buf@.take(i as int),
                decreases k - i,
            {
                out.push(buf[i]);
                i = i + 1;
                assert(out@ =~= before + buf@.take(i as int));
            }
            n > 0
        },
        Moved::NotNow => true,
        Moved::Failed => false,
    }
}

/// How many bytes of a selection are served.
pub fn served(len: usize) -> (r: usize)
    ensures
        r == if len < MAX_CLIP_BYTES { len } else { MAX_CLIP_BYTES },
{
    if len < MAX_CLIP_BYTES {
        len
    } else {
        MAX_CLIP_BYTES
    }
}

/// One step of a write: how many bytes are written by then, and whether to go on.
pub fn write_step(done: usize, total: usize, m: Moved) -> (r: (usize, bool))
    requires
        done <= total,
        m matches Moved::Bytes(n) ==> n <= total - done,
    ensures
        r.0 == (match m {
            Moved::Bytes(n) => done + n,
            _ => done as int,
        }),
        r.0 <= total,
        r.1 == tries_again(m),
{
    match m {
        Moved::Bytes(n) => (done + n, n > 0),
        Moved::NotNow => (done, true),
        Moved::Failed => (done, false),
    }
}

/// Nothing of a transfer is lost or added: what came is put behind what was there, byte for
/// byte, up to the most that a transfer may have; and a transfer ends only at its end or
/// with a failure.
pub proof fn law_a_transfer_keeps_its_bytes(before: Seq<u8>, buf: Seq<u8>, n: usize)
    requires
        before.len() <= MAX_CLIP_BYTES,
        n <= buf.len(),
    ensures
        before.len() + n <= 16_777_216 ==> taken(before, buf, Moved::Bytes(n)) == before + buf.take(
            n as int,
        ),
        before.len() + n > 16_777_216 ==> taken(before, buf, Moved::Bytes(n)).len() == 16_777_216,
        before.is_prefix_of(taken(before, buf, Moved::Bytes(n))),
        taken(before, buf, Moved::Bytes(n)).is_prefix_of(before + buf),
        taken(before, buf, Moved::NotNow) == before,
        taken(before, buf, Moved::Failed) == before,
        tries_again(Moved::Bytes(n)) <==> n > 0,
        tries_again(Moved::NotNow),
        !tries_again(Moved::Failed),
{
    let r = taken(before, buf, Moved::Bytes(n));
    assert(r.take(before.len() as int) =~= before);
    assert((before + buf).take(r.len() as int) =~= r);
}

} // verus!
