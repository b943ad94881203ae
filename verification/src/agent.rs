use vstd::prelude::*;

verus! {

/// The number a little-endian byte sequence stands for.
pub open spec fn le_value(bytes: Seq<u8>) -> nat
    decreases bytes.len(),
{
    if bytes.len() == 0 {
        0
    } else {
        (bytes[0] + 256 * le_value(bytes.drop_first())) as nat
    }
}

/// Largest payload a client may announce, in bytes.
pub const MAX_PAYLOAD: u64 = 1024;

/// The payload length announced by an 8-byte little-endian frame header.
pub fn payload_length(header: &Vec<u8>) -> (len: u64)
    requires
        header@.len() == 8,
    ensures
        len == le_value(header@),
{
    let ghost h = header@;
    proof {
        assert(h.subrange(8, 8) =~= Seq::<u8>::empty());
        assert forall|j: int| 0 <= j < 8 implies #[trigger] h.subrange(j, 8).drop_first()
            =~= h.subrange(j + 1, 8) by {}
        assert(h.subrange(0, 8) =~= h);
        assert(le_value(h.subrange(7, 8)) == h[7] + 256 * le_value(h.subrange(8, 8)));
        assert(le_value(h.subrange(6, 8)) == h[6] + 256 * le_value(h.subrange(7, 8)));
        assert(le_value(h.subrange(5, 8)) == h[5] + 256 * le_value(h.subrange(6, 8)));
        assert(le_value(h.subrange(4, 8)) == h[4] + 256 * le_value(h.subrange(5, 8)));
        assert(le_value(h.subrange(3, 8)) == h[3] + 256 * le_value(h.subrange(4, 8)));
        assert(le_value(h.subrange(2, 8)) == h[2] + 256 * le_value(h.subrange(3, 8)));
        assert(le_value(h.subrange(1, 8)) == h[1] + 256 * le_value(h.subrange(2, 8)));
        assert(le_value(h.subrange(0, 8)) == h[0] + 256 * le_value(h.subrange(1, 8)));
    }
    let b0 = header[0] as u64;
    let b1 = header[1] as u64;
    let b2 = header[2] as u64;
    let b3 = header[3] as u64;
    let b4 = header[4] as u64;
    let b5 = header[5] as u64;
    let b6 = header[6] as u64;
    let b7 = header[7] as u64;
    b0 + 256 * (b1 + 256 * (b2 + 256 * (b3 + 256 * (b4 + 256 * (b5 + 256 * (b6 + 256 * b7))))))
}

/// Whether an announced payload length is accepted: not empty and at most
/// [`MAX_PAYLOAD`] bytes.
pub fn payload_length_valid(len: u64) -> (ok: bool)
    ensures
        ok == (0 < len <= MAX_PAYLOAD),
{
    len != 0 && len <= MAX_PAYLOAD
}

} // verus!
