//! The frame builder: an IEEE 802.15.4 data frame with short addresses, its
//! checksum, and the physical frame around it.
use vstd::prelude::*;
use vstd::slice::slice_subrange;
use byte::BytesExt;
use ieee802154::mac::{
    Address, FooterMode as WireFooterMode, Frame as WireFrame, FrameContent, FrameSerDesContext,
    FrameType, FrameVersion, Header, PanId as WirePanId, ShortAddress as WireShortAddress,
};
use crate::bounded::BoundedBytes;
use crate::checksum::{crc16, frame_check_sequence, le_bytes};

verus! {

/// `byte::Error`, the error of a failed write. It is carried through as it
/// came; nothing is said of what it holds.
#[verifier::external_type_specification]
#[verifier::external_body]
pub struct ExByteError(byte::Error);

/// Why a physical frame could not be built or turned into bytes.
#[derive(Debug)]
pub enum FrameConstructionError {
    /// The MAC frame does not fit the buffer it is written to.
    FrameWrite(byte::Error),
    /// The physical frame does not fit the declared maximum frame size.
    VecLen,
    /// The MAC frame is longer than the one-byte length field can say.
    MacFrameLength,
}

/// Physical packet preamble.
pub const PHY_PREAMBLE: [u8; 4] = [0x00, 0x00, 0x00, 0x00];

/// Start of frame delimiter.
pub const PHY_SFD: u8 = 0xA7;

/// Bytes before the MAC frame: preamble, delimiter, length.
pub const PHY_HEADER_SIZE: usize = 6;

/// Bytes of the MAC header: frame control, sequence number, and a PAN
/// identifier and a short address for each end.
pub const MAC_HEADER_SIZE: usize = 11;

/// Bytes of the MAC footer, the frame check sequence.
pub const MAC_FOOTER_SIZE: usize = 2;

/// The longest MAC frame that the length field can announce.
pub const MAX_MAC_FRAME_SIZE: usize = 255;

/// What to add to a maximum payload size for a maximum frame size that
/// holds any frame with such a payload: frame control, sequence number,
/// the longest addressing fields, the longest security header and the frame
/// check sequence, behind preamble, delimiter and length.
pub const MAX_FRAME_OVERHEAD: usize = 2 + 1 + 10 + 14 + 2 + 4 + 1 + 1;

/// The frame control field: data frame, no security, no frame pending, no
/// acknowledgement request, no PAN compression, short destination address,
/// version 2006, short source address.
pub const FRAME_CONTROL: u16 = 0x9801;

/// A 16-bit identifier of a personal area network.
#[derive(Clone, Copy, Debug, PartialEq, Eq, Structural)]
pub struct PanId(pub u16);

/// A 16-bit address of a device in its network.
#[derive(Clone, Copy, Debug, PartialEq, Eq, Structural)]
pub struct ShortAddress(pub u16);

/// Whether the footer is written with the frame.
#[derive(Clone, Copy, Debug, PartialEq, Eq, Structural)]
pub enum FooterMode {
    /// The frame ends with its payload.
    Omitted,
    /// The frame's `footer` field follows the payload.
    Explicit,
}

/// A MAC data frame with short addressing at both ends.
#[derive(Clone, Copy, Debug)]
pub struct MacFrame<'p> {
    pub sequence_num: u8,
    pub destination_id: PanId,
    pub destination: ShortAddress,
    pub source_id: PanId,
    pub source: ShortAddress,
    pub payload: &'p [u8],
    pub footer: [u8; 2],
}

impl<'p> MacFrame<'p> {
    /// The header on the wire: frame control, sequence number, destination
    /// PAN and address, source PAN and address, each integer low byte first.
    pub open spec fn header_bytes(self) -> Seq<u8> {
        le_bytes(FRAME_CONTROL) + seq![self.sequence_num] + le_bytes(self.destination_id.0)
            + le_bytes(self.destination.0) + le_bytes(self.source_id.0) + le_bytes(self.source.0)
    }

    /// What the checksum covers: header and payload.
    pub open spec fn unsigned_bytes(self) -> Seq<u8> {
        self.header_bytes() + self.payload@
    }

    /// The frame on the wire, with or without its footer.
    pub open spec fn serialized(self, footer_mode: FooterMode) -> Seq<u8> {
        match footer_mode {
            FooterMode::Omitted => self.unsigned_bytes(),
            FooterMode::Explicit => self.unsigned_bytes() + self.footer@,
        }
    }

    /// The footer is the frame check sequence of header and payload.
    pub open spec fn checksummed(self) -> bool {
        self.footer@ == le_bytes(crc16(self.unsigned_bytes()))
    }

    /// The physical frame: preamble, delimiter, the length of the MAC frame,
    /// and the MAC frame with its footer.
    pub open spec fn physical_bytes(self) -> Seq<u8> {
        PHY_PREAMBLE@ + seq![PHY_SFD, self.serialized(FooterMode::Explicit).len() as u8]
            + self.serialized(FooterMode::Explicit)
    }
}

/// Writes `frame` to the front of `buffer` and returns how many bytes that
/// took.
///
/// Trusted: `byte::BytesExt::write_with` on a slice, with
/// `ieee802154::mac::Frame::try_write` and a context without security. The
/// frame's header is written as the frame control field, the sequence number,
/// then PAN identifier and short address of the destination and of the
/// source, each 16-bit value low byte first; the payload follows, and the
/// footer in mode `Explicit`. Each of these writes fails when what is left of
/// the buffer is too short for it and nothing else fails, so the call
/// succeeds exactly when the buffer holds the whole frame. The buffer keeps
/// its length; what it holds behind the frame, or after a failure, is not
/// stated.
#[verifier::external_body]
fn write_mac_frame(buffer: &mut Vec<u8>, frame: &MacFrame, footer_mode: FooterMode) -> (written:
    Result<usize, byte::Error>)
    ensures
        final(buffer)@.len() == old(buffer)@.len(),
        written is Ok <==> frame.serialized(footer_mode).len() <= old(buffer)@.len(),
        written matches Ok(len) ==> len == frame.serialized(footer_mode).len(),
        written matches Ok(len) ==> final(buffer)@.subrange(0, len as int) == frame.serialized(
            footer_mode,
        ),
{
    let header = Header {
        frame_type: FrameType::Data, frame_pending: false, ack_request: false,
        pan_id_compress: false, seq_no_suppress: false, ie_present: false,
        version: FrameVersion::Ieee802154_2006, seq: frame.sequence_num,
        destination: Some(Address::Short(WirePanId(frame.destination_id.0), WireShortAddress(frame.destination.0))),
        source: Some(Address::Short(WirePanId(frame.source_id.0), WireShortAddress(frame.source.0))),
        auxiliary_security_header: None,
    };
    let wire = WireFrame { header, content: FrameContent::Data, payload: frame.payload, footer: frame.footer };
    let mode = match footer_mode { FooterMode::Omitted => WireFooterMode::None, FooterMode::Explicit => WireFooterMode::Explicit };
    let mut len = 0usize;
    buffer.write_with(&mut len, wire, &mut FrameSerDesContext::no_security(mode))?;
    Ok(len)
}

/// The bytes of a MAC frame, in a vector of capacity `MAX_FRAME_SIZE`. The
/// frame is written to a buffer of that size: it is refused with `FrameWrite`
/// exactly when it is longer.
pub fn mac_frame_to_vec<const MAX_FRAME_SIZE: usize>(frame: MacFrame, footer_mode: FooterMode) -> (bytes:
    Result<BoundedBytes<MAX_FRAME_SIZE>, FrameConstructionError>)
    ensures
        match bytes {
            Ok(v) => {
                &&& frame.serialized(footer_mode).len() <= MAX_FRAME_SIZE
                &&& v@ == frame.serialized(footer_mode)
                &&& v.wf()
            },
            Err(error) => frame.serialized(footer_mode).len() > MAX_FRAME_SIZE
                && error is FrameWrite,
        },
{
    let mut buffer: Vec<u8> = vec![0u8; MAX_FRAME_SIZE];
    match write_mac_frame(&mut buffer, &frame, footer_mode) {
        Ok(len) => {
            match BoundedBytes::<MAX_FRAME_SIZE>::from_slice(
                slice_subrange(buffer.as_slice(), 0, len),
            ) {
                Ok(v) => Ok(v),
                Err(_) => Err(FrameConstructionError::VecLen),
            }
        },
        Err(error) => Err(FrameConstructionError::FrameWrite(error)),
    }
}

/// A physical frame to send over O-QPSK 802.15.4.
///
/// It holds only the MAC frame; preamble, delimiter and length are made when
/// the frame is turned into bytes, in a vector of capacity `MAX_FRAME_SIZE`.
#[derive(Debug)]
pub struct PhysicalFrame<'p, const MAX_FRAME_SIZE: usize> {
    mac_frame: MacFrame<'p>,
}

impl<'p, const MAX_FRAME_SIZE: usize> PhysicalFrame<'p, MAX_FRAME_SIZE> {
    /// The MAC frame inside.
    pub closed spec fn mac_frame(&self) -> MacFrame<'p> {
        self.mac_frame
    }

    /// Builds the frame for a payload and computes its checksum. Header and
    /// payload are serialized into `MAX_FRAME_SIZE` bytes for that: where
    /// they do not fit the frame is refused with `FrameWrite`.
    pub fn new(
        sequence_num: u8,
        source_id: PanId,
        source: ShortAddress,
        destination_id: PanId,
        destination: ShortAddress,
        payload: &'p [u8],
    ) -> (made: Result<Self, FrameConstructionError>)
        ensures
            match made {
                Ok(frame) => {
                    &&& MAC_HEADER_SIZE + payload@.len() <= MAX_FRAME_SIZE
                    &&& frame.mac_frame().sequence_num == sequence_num
                    &&& frame.mac_frame().source_id == source_id
                    &&& frame.mac_frame().source == source
                    &&& frame.mac_frame().destination_id == destination_id
                    &&& frame.mac_frame().destination == destination
                    &&& frame.mac_frame().payload@ == payload@
                    &&& frame.mac_frame().checksummed()
                },
                Err(error) => MAC_HEADER_SIZE + payload@.len() > MAX_FRAME_SIZE
                    && error is FrameWrite,
            },
    {
        let no_crc_frame = MacFrame {
            sequence_num,
            destination_id,
            destination,
            source_id,
            source,
            payload,
            footer: [0x00, 0x00],
        };
        match mac_frame_to_vec::<MAX_FRAME_SIZE>(no_crc_frame, FooterMode::Omitted) {
            Ok(v) => {
                let footer = frame_check_sequence(v.as_slice());
                let frame = MacFrame {
                    sequence_num,
                    destination_id,
                    destination,
                    source_id,
                    source,
                    payload,
                    footer,
                };
                assert(frame.unsigned_bytes() == no_crc_frame.unsigned_bytes());
                Ok(PhysicalFrame { mac_frame: frame })
            },
            Err(error) => Err(error),
        }
    }

    /// The frame on the wire:
    ///
    /// ```text
    /// [PREAMBLE][SFD][LEN][----------------MAC PACKET--------------]
    ///                     [FCF][SN][ADDRESS][PAYLOAD][FCS]
    /// ```
    ///
    /// The MAC frame is refused with `FrameWrite` when it is longer than
    /// `MAX_FRAME_SIZE`, else with `MacFrameLength` when it is longer than 255
    /// bytes, else with `VecLen` when the physical frame is longer than
    /// `MAX_FRAME_SIZE`, which it also is where not even the preamble fits.
    pub fn to_bytes(&self) -> (bytes: Result<BoundedBytes<MAX_FRAME_SIZE>, FrameConstructionError>)
        ensures
            match bytes {
                Ok(v) => {
                    &&& self.mac_frame().physical_bytes().len() <= MAX_FRAME_SIZE
                    &&& self.mac_frame().serialized(FooterMode::Explicit).len()
                        <= MAX_MAC_FRAME_SIZE
                    &&& v@ == self.mac_frame().physical_bytes()
                    &&& v.wf()
                },
                Err(FrameConstructionError::FrameWrite(_)) => {
                    &&& PHY_PREAMBLE@.len() <= MAX_FRAME_SIZE
                    &&& self.mac_frame().serialized(FooterMode::Explicit).len() > MAX_FRAME_SIZE
                },
                Err(FrameConstructionError::MacFrameLength) => {
                    &&& self.mac_frame().serialized(FooterMode::Explicit).len() <= MAX_FRAME_SIZE
                    &&& self.mac_frame().serialized(FooterMode::Explicit).len()
                        > MAX_MAC_FRAME_SIZE
                },
                Err(FrameConstructionError::VecLen) => {
                    ||| PHY_PREAMBLE@.len() > MAX_FRAME_SIZE
                    ||| {
                        &&& self.mac_frame().serialized(FooterMode::Explicit).len()
                            <= MAX_FRAME_SIZE
                        &&& self.mac_frame().serialized(FooterMode::Explicit).len()
                            <= MAX_MAC_FRAME_SIZE
                        &&& self.mac_frame().physical_bytes().len() > MAX_FRAME_SIZE
                    }
                },
            },
    {
        let mut v: BoundedBytes<MAX_FRAME_SIZE> = BoundedBytes::new();
        if v.extend_from_slice(PHY_PREAMBLE.as_slice()).is_err() {
            return Err(FrameConstructionError::VecLen);
        }
        let mac_vec = match mac_frame_to_vec::<MAX_FRAME_SIZE>(self.mac_frame, FooterMode::Explicit) {
            Ok(mac_vec) => mac_vec,
            Err(error) => {
                return Err(error);
            },
        };
        if v.push(PHY_SFD).is_err() {
            return Err(FrameConstructionError::VecLen);
        }
        if mac_vec.len() > MAX_MAC_FRAME_SIZE {
            return Err(FrameConstructionError::MacFrameLength);
        }
        let len: u8 = mac_vec.len() as u8;
        if v.push(len).is_err() {
            return Err(FrameConstructionError::VecLen);
        }
        if v.extend_from_slice(mac_vec.as_slice()).is_err() {
            return Err(FrameConstructionError::VecLen);
        }
        assert(v@ =~= self.mac_frame().physical_bytes());
        Ok(v)
    }
}

} // verus!
