//! Errors, rights, signals and messages.
use crate::bytes::byte_of;
use vstd::array::spec_array_fill_for_copy_type;
use vstd::prelude::*;

pub mod rights;
pub mod signals;

verus! {

/// Identifier of a kernel object; identifiers only ever grow.
#[derive(Debug, Clone, Copy, PartialEq, Eq, PartialOrd, Ord, Structural)]
pub struct ObjectId(pub u64);

/// Why an operation on kernel objects or capabilities failed.
#[derive(Debug, Clone, Copy, PartialEq, Eq, Structural)]
pub enum IpcError {
    InvalidHandle,
    BadHandleGeneration,
    PermissionDenied,
    ObjectTableFull,
    ChannelTableFull,
    ShmTableFull,
    MappingTableFull,
    HandleTableFull,
    ObjectIdExhausted,
    InvalidProcess,
    InvalidEndpoint,
    EndpointClosed,
    PeerClosed,
    WouldBlock,
    ConcurrentOperation,
    BadMessageSize,
    BadAlignment,
    InvalidAddress,
    PmmExhausted,
    VmmError,
    Timeout,
    CapabilityRevoked,
    RightsAmplificationRejected,
    MaxDerivationDepthExceeded,
    NotCapabilityOwner,
    CapabilityNotTransferable,
    CapabilityNotDuplicable,
    CapabilityIdExhausted,
    InvalidCapability,
}

/// A message of fixed size: a tag, up to 48 bytes and up to four handles.
#[derive(Debug, Clone, Copy)]
pub struct IpcMessage {
    pub tag: u64,
    /// Number of payload bytes in use.
    pub payload_len: u16,
    /// Number of handles attached.
    pub handles_count: u16,
    pub _reserved1: u32,
    pub payload: [u8; 48],
    pub handles: [u32; 4],
}

/// The bytes of `data`, filled up with zeros to the size of a payload.
pub open spec fn padded_payload(data: Seq<u8>) -> Seq<u8> {
    Seq::new(48, |i: int| if i < data.len() { data[i] } else { 0u8 })
}

/// The handles given, filled up with zeros.
pub open spec fn padded_handles(handles: Seq<u32>) -> Seq<u32> {
    Seq::new(4, |i: int| if i < handles.len() { handles[i] } else { 0u32 })
}

/// A message without tag, payload or handles.
pub open spec fn blank_message() -> IpcMessage {
    IpcMessage {
        tag: 0,
        payload_len: 0,
        handles_count: 0,
        _reserved1: 0,
        payload: spec_array_fill_for_copy_type::<u8, 48>(0),
        handles: spec_array_fill_for_copy_type::<u32, 4>(0),
    }
}

impl IpcMessage {
    pub fn empty() -> (r: Self)
        ensures
            r == blank_message(),
            r.tag == 0,
            r.payload_len == 0,
            r.handles_count == 0,
            r._reserved1 == 0,
            r.payload@ == padded_payload(Seq::empty()),
            r.handles@ == padded_handles(Seq::empty()),
    {
        let r = IpcMessage {
            tag: 0,
            payload_len: 0,
            handles_count: 0,
            _reserved1: 0,
            payload: [0u8; 48],
            handles: [0u32; 4],
        };
        assert(r.payload@ =~= padded_payload(Seq::empty()));
        assert(r.handles@ =~= padded_handles(Seq::empty()));
        r
    }

    /// A message with a payload and no handles.
    pub fn new(tag: u64, data: &[u8]) -> (r: Result<Self, IpcError>)
        ensures
            data@.len() > 48 <==> r is Err,
            r is Err ==> r->Err_0 == IpcError::BadMessageSize,
            r is Ok ==> {
                &&& r->Ok_0.tag == tag
                &&& r->Ok_0.payload_len == data@.len()
                &&& r->Ok_0.handles_count == 0
                &&& r->Ok_0._reserved1 == 0
                &&& r->Ok_0.payload@ == padded_payload(data@)
                &&& r->Ok_0.handles@ == padded_handles(Seq::empty())
            },
    {
        if data.len() > 48 {
            return Err(IpcError::BadMessageSize);
        }
        let mut msg = Self::empty();
        msg.tag = tag;
        msg.payload_len = data.len() as u16;
        let mut i: usize = 0;
        while i < data.len()
            invariant
                i <= data@.len() <= 48,
                msg.tag == tag,
                msg.payload_len == data@.len(),
                msg.handles_count == 0,
                msg._reserved1 == 0,
                msg.handles@ == padded_handles(Seq::empty()),
                forall|j: int|
                    0 <= j < 48 ==> msg.payload@[j] == (if j < i { data@[j] } else { 0u8 }),
            decreases data@.len() - i,
        {
            msg.payload[i] = data[i];
            i = i + 1;
        }
        assert(msg.payload@ =~= padded_payload(data@));
        Ok(msg)
    }

    /// A message with a payload and handles.
    pub fn with_handles(tag: u64, data: &[u8], handles: &[u32]) -> (r: Result<Self, IpcError>)
        ensures
            data@.len() > 48 || handles@.len() > 4 <==> r is Err,
            r is Err ==> r->Err_0 == IpcError::BadMessageSize,
            r is Ok ==> {
                &&& r->Ok_0.tag == tag
                &&& r->Ok_0.payload_len == data@.len()
                &&& r->Ok_0.handles_count == handles@.len()
                &&& r->Ok_0._reserved1 == 0
                &&& r->Ok_0.payload@ == padded_payload(data@)
                &&& r->Ok_0.handles@ == padded_handles(handles@)
            },
    {
        if data.len() > 48 || handles.len() > 4 {
            return Err(IpcError::BadMessageSize);
        }
        let mut msg = match Self::new(tag, data) {
            Err(e) => {
                return Err(e);
            },
            Ok(m) => m,
        };
        msg.handles_count = handles.len() as u16;
        let mut i: usize = 0;
        while i < handles.len()
            invariant
                i <= handles@.len() <= 4,
                msg.tag == tag,
                msg.payload_len == data@.len(),
                msg.handles_count == handles@.len(),
                msg._reserved1 == 0,
                msg.payload@ == padded_payload(data@),
                forall|j: int|
                    0 <= j < 4 ==> msg.handles@[j] == (if j < i { handles@[j] } else { 0u32 }),
            decreases handles@.len() - i,
        {
            msg.handles[i] = handles[i];
            i = i + 1;
        }
        assert(msg.handles@ =~= padded_handles(handles@));
        Ok(msg)
    }

    /// A message whose payload is six numbers, little-endian.
    pub fn from_words(tag: u64, words: [u64; 6]) -> (r: Self)
        ensures
            r.tag == tag,
            r.payload_len == 48,
            r.handles_count == 0,
            r._reserved1 == 0,
            r.handles@ == padded_handles(Seq::empty()),
            forall|i: int, b: int|
                0 <= i < 6 && 0 <= b < 8 ==> r.payload@[i * 8 + b] == #[trigger] byte_of(
                    words@[i] as int,
                    b,
                ),
    {
        let mut msg = Self::empty();
        msg.tag = tag;
        msg.payload_len = 48;
        let mut k: usize = 0;
        while k < 6
            invariant
                k <= 6,
                msg.tag == tag,
                msg.payload_len == 48,
                msg.handles_count == 0,
                msg._reserved1 == 0,
                msg.handles@ == padded_handles(Seq::empty()),
                forall|i: int, b: int|
                    0 <= i < k && 0 <= b < 8 ==> msg.payload@[i * 8 + b] == #[trigger] byte_of(
                        words@[i] as int,
                        b,
                    ),
            decreases 6 - k,
        {
            let w: u64 = words[k];
            reveal(byte_of);
            msg.payload[k * 8] = (w % 0x100) as u8;
            msg.payload[k * 8 + 1] = (w / 0x100 % 0x100) as u8;
            msg.payload[k * 8 + 2] = (w / 0x1_0000 % 0x100) as u8;
            msg.payload[k * 8 + 3] = (w / 0x100_0000 % 0x100) as u8;
            msg.payload[k * 8 + 4] = (w / 0x1_0000_0000 % 0x100) as u8;
            msg.payload[k * 8 + 5] = (w / 0x100_0000_0000 % 0x100) as u8;
            msg.payload[k * 8 + 6] = (w / 0x1_0000_0000_0000 % 0x100) as u8;
            msg.payload[k * 8 + 7] = (w / 0x100_0000_0000_0000 % 0x100) as u8;
            k = k + 1;
        }
        msg
    }
}

} // verus!
