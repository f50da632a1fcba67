//! The geometry of a legacy VirtIO split virtqueue, sized by the number of
//! slots the device reports (not by how many buffers are posted).
use vstd::prelude::*;
use vstd::arithmetic::power2::{pow2, lemma2_to64, lemma_pow2_strictly_increases};

verus! {

/// The largest queue size a device may report.
pub const MAX_SLOTS: u16 = 1024;

/// The bytes reserved for one queue's descriptor table and rings.
pub const REGION_SIZE: usize = 32768;

/// `n` is `2^k` for some `k`.
pub open spec fn is_power_of_two(n: nat) -> bool {
    exists|k: nat| pow2(k) == n
}

/// A device-reported queue size the drivers accept.
pub open spec fn valid_queue_size_spec(slots: u16) -> bool {
    slots != 0 && slots <= MAX_SLOTS && is_power_of_two(slots as nat)
}

/// `x` rounded up to a multiple of the 4096-byte page.
pub open spec fn page_round_up(x: nat) -> nat {
    ((x + 4095) / 4096) * 4096
}

/// The offset of the available ring: after 16-byte descriptors for every slot.
pub open spec fn avail_offset_spec(slots: u16) -> nat {
    slots as nat * 16
}

/// The offset of the used ring: after the available ring (flags, index, one
/// 2-byte entry per slot, used-event), page aligned.
pub open spec fn used_offset_spec(slots: u16) -> nat {
    page_round_up(avail_offset_spec(slots) + 6 + slots as nat * 2)
}

proof fn lemma_power_of_two_small(slots: u16)
    requires
        slots != 0,
        slots <= 1024,
    ensures
        is_power_of_two(slots as nat) <==> (slots & ((slots - 1) as u16)) == 0,
{
    lemma2_to64();
    let x = slots;
    assert((x & ((x - 1) as u16)) == 0 <==> (x == 1 || x == 2 || x == 4 || x == 8 || x == 16 || x == 32
        || x == 64 || x == 128 || x == 256 || x == 512 || x == 1024)) by (bit_vector)
        requires
            x != 0,
            x <= 1024,
    ;
    if is_power_of_two(slots as nat) {
        let k = choose|k: nat| pow2(k) == slots as nat;
        if k > 10 {
            lemma_pow2_strictly_increases(10, k);
        }
        assert(k <= 10);
        assert(k == 0 || k == 1 || k == 2 || k == 3 || k == 4 || k == 5 || k == 6 || k == 7 || k
            == 8 || k == 9 || k == 10);
    }
    if (x & ((x - 1) as u16)) == 0 {
        if x == 1 {
            assert(pow2(0) == 1);
        } else if x == 2 {
            assert(pow2(1) == 2);
        } else if x == 4 {
            assert(pow2(2) == 4);
        } else if x == 8 {
            assert(pow2(3) == 8);
        } else if x == 16 {
            assert(pow2(4) == 16);
        } else if x == 32 {
            assert(pow2(5) == 32);
        } else if x == 64 {
            assert(pow2(6) == 64);
        } else if x == 128 {
            assert(pow2(7) == 128);
        } else if x == 256 {
            assert(pow2(8) == 256);
        } else if x == 512 {
            assert(pow2(9) == 512);
        } else {
            assert(pow2(10) == 1024);
        }
    }
}

/// Whether a device-reported queue size is usable: a power of two from 1 to
/// `MAX_SLOTS`.
pub fn valid_queue_size(slots: u16) -> (r: bool)
    ensures
        r == valid_queue_size_spec(slots),
{
    if slots == 0 || slots > MAX_SLOTS {
        return false;
    }
    proof {
        lemma_power_of_two_small(slots);
    }
    (slots & (slots - 1)) == 0
}

/// The byte offset of the available ring.
pub fn avail_offset(slots: u16) -> (r: usize)
    ensures
        r == avail_offset_spec(slots),
{
    slots as usize * 16
}

/// The byte offset of the used ring.
pub fn used_offset(slots: u16) -> (r: usize)
    ensures
        r == used_offset_spec(slots),
{
    let x: usize = avail_offset(slots) + 6 + slots as usize * 2 + 4095;
    assert(x & !4095usize == (x / 4096) * 4096) by (bit_vector);
    x & !4095usize
}

/// For every queue size a device may report and the drivers accept, the used
/// ring starts on a page boundary after the whole available ring, and the used
/// ring (flags, index, an 8-byte entry per slot, avail-event) ends inside the
/// queue's region.
pub proof fn lemma_supported_rings_fit(slots: u16)
    requires
        valid_queue_size_spec(slots),
    ensures
        used_offset_spec(slots) >= avail_offset_spec(slots) + 6 + 2 * slots as nat,
        used_offset_spec(slots) % 4096 == 0,
        used_offset_spec(slots) + 6 + 8 * slots as nat <= REGION_SIZE,
{
    let x: nat = avail_offset_spec(slots) + 6 + slots as nat * 2;
    assert(((x + 4095) / 4096) * 4096 >= x && ((x + 4095) / 4096) * 4096 <= x + 4095 && (((x
        + 4095) / 4096) * 4096) % 4096 == 0) by (nonlinear_arith);
}

} // verus!
