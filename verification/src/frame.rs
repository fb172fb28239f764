//! Building the CAN frames that clients ask the gateway to transmit. Frames go
//! out with a 29-bit (extended) identifier, as NMEA 2000 uses.
use vstd::prelude::*;
use socketcan::{CanFrame, ExtendedId};

verus! {

#[verifier::external_type_specification]
#[verifier::external_body]
pub struct ExCanFrame(socketcan::CanFrame);

/// The largest 29-bit (extended) CAN identifier.
pub const EXTENDED_ID_MAX: u32 = 0x1FFF_FFFF;

/// The most data bytes that a classic CAN data frame carries.
pub const CAN_MAX_DATA_LEN: usize = 8;

/// The classic CAN data frame that socketcan builds with the 29-bit
/// (extended) identifier `id` and the payload `data`.
pub uninterp spec fn extended_data_frame(id: u32, data: Seq<u8>) -> CanFrame;

/// Wraps `ExtendedId::new` of embedded-can (re-exported by socketcan), which
/// makes an identifier of every `id` up to `0x1FFF_FFFF`, and
/// `<CanFrame as embedded_can::Frame>::new` of socketcan, which builds a data
/// frame exactly when the payload has at most `CAN_MAX_DLEN` (8) bytes. That
/// frame depends on the identifier and the payload alone, and is named
/// `extended_data_frame`.
#[verifier::external_body]
fn new_data_frame(id: u32, data: &[u8]) -> (frame: Option<CanFrame>)
    requires
        id <= 0x1FFF_FFFF,
    ensures
        frame is Some <==> data@.len() <= 8,
        frame matches Some(f) ==> f == extended_data_frame(id, data@),
{
    <CanFrame as socketcan::EmbeddedFrame>::new(ExtendedId::new(id).unwrap(), data)
}

/// The identifier that a frame requested with `can_id` goes out with: `can_id`
/// itself when it fits in 29 bits, else its low 29 bits.
pub open spec fn transmit_id(can_id: u32) -> u32 {
    if can_id <= EXTENDED_ID_MAX {
        can_id
    } else {
        can_id & EXTENDED_ID_MAX
    }
}

/// Computes `transmit_id`: an identifier up to `0x1FFF_FFFF` is what
/// `ExtendedId::new` accepts, a wider one is cut to its low 29 bits.
pub fn frame_id(can_id: u32) -> (id: u32)
    ensures
        id == transmit_id(can_id),
        id <= EXTENDED_ID_MAX,
{
    if can_id <= EXTENDED_ID_MAX {
        can_id
    } else {
        let low: u32 = can_id & EXTENDED_ID_MAX;
        assert(low <= 0x1FFF_FFFF) by (bit_vector)
            requires
                low == can_id & 0x1FFF_FFFF,
        ;
        low
    }
}

/// A frame ready for the CAN bus, with what was decided on the way.
pub struct TransmitFrame {
    /// The 29-bit identifier the frame goes out with.
    pub can_id: u32,
    /// Whether the requested identifier had to be cut to 29 bits.
    pub masked: bool,
    /// The frame, or `None` when the payload is too long for a CAN frame.
    pub frame: Option<CanFrame>,
}

/// Builds the extended-identifier data frame for a transmit request. An
/// identifier above 29 bits is cut to its low 29 bits (and `masked` says so);
/// a payload above eight bytes gives no frame.
pub fn build_transmit_frame(can_id: u32, data: &[u8]) -> (t: TransmitFrame)
    ensures
        t.can_id == transmit_id(can_id),
        t.can_id <= EXTENDED_ID_MAX,
        t.masked <==> can_id > EXTENDED_ID_MAX,
        t.frame is Some <==> data@.len() <= CAN_MAX_DATA_LEN,
        t.frame matches Some(f) ==> f == extended_data_frame(transmit_id(can_id), data@),
{
    let id = frame_id(can_id);
    let frame = new_data_frame(id, data);
    TransmitFrame { can_id: id, masked: can_id > EXTENDED_ID_MAX, frame }
}

/// A transmit identifier always fits in 29 bits, and one that already fits is
/// left as it is.
pub proof fn lemma_transmit_id(can_id: u32)
    ensures
        transmit_id(can_id) <= EXTENDED_ID_MAX,
        can_id <= EXTENDED_ID_MAX ==> transmit_id(can_id) == can_id,
{
    assert(can_id & 0x1FFF_FFFF <= 0x1FFF_FFFF) by (bit_vector);
}

} // verus!
