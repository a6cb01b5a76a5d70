//! What is known of devices.
use vstd::array::spec_array_fill_for_copy_type;
use vstd::prelude::*;

verus! {

pub const MAX_DEVICES: usize = 16;

pub const MAX_DEVICE_RESOURCES: usize = 64;

pub const MAX_INTERRUPT_VECTORS: usize = 256;

pub const MAX_SHARED_IRQ_BINDINGS: usize = 4;

pub const MAX_DMA_BUFFERS: usize = 32;

pub const MAX_FRAMES_PER_BUFFER: usize = 16;

pub const MAX_PINNED_DMA_FRAMES: usize = 128;

/// The identifier of the device that lives in memory.
pub const BOOTSTRAP_MEM_DEVICE_ID: u64 = 0;

/// The identifier of the disk.
pub const BOOTSTRAP_ATA_DEVICE_ID: u64 = 1;

/// The first identifier that is handed out at run time.
pub const FIRST_DYNAMIC_DEVICE_ID: u64 = 2;

/// Identifies a device.
#[derive(Debug, Clone, Copy, PartialEq, Eq, PartialOrd, Ord, Hash, Structural)]
pub struct DeviceId(pub u64);

impl DeviceId {
    pub fn new(id: u64) -> (r: Self)
        ensures
            r == DeviceId(id),
    {
        DeviceId(id)
    }

    /// Hands out the next identifier.
    pub fn next_dynamic(next: &mut u64) -> (r: Self)
        requires
            *old(next) < u64::MAX,
        ensures
            r == DeviceId(*old(next)),
            *final(next) == *old(next) + 1,
    {
        let id: u64 = *next;
        *next = id + 1;
        DeviceId(id)
    }

    pub fn as_u64(self) -> (r: u64)
        ensures
            r == self.0,
    {
        self.0
    }
}

#[derive(Debug, Clone, Copy, PartialEq, Eq, Structural)]
pub enum DeviceClass {
    Unknown,
    Storage,
    Network,
    Display,
    Input,
    BusController,
    Accelerator,
    Timer,
    InterruptController,
    Platform,
}

#[derive(Debug, Clone, Copy, PartialEq, Eq, Structural)]
pub enum DeviceLifecycleState {
    Discovered,
    Probed,
    Attached,
    Ready,
    Active,
    Quiescing,
    Detached,
    Released,
    Faulted,
    Resetting,
}

#[derive(Debug, Clone, Copy, PartialEq, Eq, Structural)]
pub enum ResourceType {
    Unused,
    IoPort,
    Mmio,
    Irq,
    DmaBuffer,
}

#[derive(Debug, Clone, Copy, PartialEq, Eq, Structural)]
pub enum ResourceSharing {
    Exclusive,
    Shared,
}

#[derive(Debug, Clone, Copy, PartialEq, Eq, Structural)]
pub enum DeviceError {
    DeviceNotFound,
    ResourceConflict,
    DeviceFault,
    DeviceBusy,
    PermissionDenied,
    OutOfMemory,
    InvalidParameter,
    CapacityExceeded,
}

/// A slot of the device table.
#[derive(Debug, Clone, Copy, PartialEq, Eq, Structural)]
pub struct DeviceSlot {
    pub occupied: bool,
    pub class: DeviceClass,
    pub state: DeviceLifecycleState,
    pub _pad0: u8,
    /// Changes whenever a device is put into the slot.
    pub generation: u16,
    pub _pad1: u16,
    pub device_id: DeviceId,
    /// The process that drives the device, or 0.
    pub driver_pid: u64,
    pub kernel_object_id: u64,
    /// One bit for each resource slot that the device has.
    pub resource_mask: u64,
    pub bound_event_id: u64,
}

/// A device slot that never held anything.
pub open spec fn empty_device() -> DeviceSlot {
    DeviceSlot {
        occupied: false,
        class: DeviceClass::Unknown,
        state: DeviceLifecycleState::Released,
        _pad0: 0,
        generation: 1,
        _pad1: 0,
        device_id: DeviceId(0),
        driver_pid: 0,
        kernel_object_id: 0,
        resource_mask: 0,
        bound_event_id: 0,
    }
}

impl DeviceSlot {
    pub fn empty() -> (r: Self)
        ensures
            r == empty_device(),
    {
        DeviceSlot {
            occupied: false,
            class: DeviceClass::Unknown,
            state: DeviceLifecycleState::Released,
            _pad0: 0,
            generation: 1,
            _pad1: 0,
            device_id: DeviceId(0),
            driver_pid: 0,
            kernel_object_id: 0,
            resource_mask: 0,
            bound_event_id: 0,
        }
    }
}

/// A slot of the resource table: a range of ports, of physical memory or of interrupt lines.
#[derive(Debug, Clone, Copy, PartialEq, Eq, Structural)]
pub struct DeviceResourceSlot {
    pub occupied: bool,
    pub res_type: ResourceType,
    pub sharing: ResourceSharing,
    pub _pad: u8,
    pub _reserved: u32,
    pub device_id: DeviceId,
    pub base: u64,
    pub size: u64,
}

/// A resource slot that is not in use.
pub open spec fn empty_resource() -> DeviceResourceSlot {
    DeviceResourceSlot {
        occupied: false,
        res_type: ResourceType::Unused,
        sharing: ResourceSharing::Exclusive,
        _pad: 0,
        _reserved: 0,
        device_id: DeviceId(0),
        base: 0,
        size: 0,
    }
}

impl DeviceResourceSlot {
    pub fn empty() -> (r: Self)
        ensures
            r == empty_resource(),
    {
        DeviceResourceSlot {
            occupied: false,
            res_type: ResourceType::Unused,
            sharing: ResourceSharing::Exclusive,
            _pad: 0,
            _reserved: 0,
            device_id: DeviceId(0),
            base: 0,
            size: 0,
        }
    }
}

/// What a query about a device answers.
#[derive(Debug, Clone, Copy, PartialEq, Eq, Structural)]
pub struct DeviceInfo {
    pub device_id: u64,
    pub class: u8,
    pub state: u8,
    pub driver_pid: u64,
    pub resource_count: u32,
    pub _reserved: u32,
}

/// A buffer in pinned frames.
#[derive(Debug, Clone, Copy)]
pub struct DmaBufferDescriptor {
    pub occupied: bool,
    pub buffer_id: u32,
    pub frame_count: u16,
    pub sharing: ResourceSharing,
    pub device_id: DeviceId,
    pub owning_pid: u64,
    pub phys_base: u64,
    pub user_virt_addr: u64,
    /// The pin records of the frames; `0xFFFF` where there is none.
    pub frame_indices: [u16; MAX_FRAMES_PER_BUFFER],
}

/// A buffer descriptor that is not in use.
pub open spec fn empty_buffer() -> DmaBufferDescriptor {
    DmaBufferDescriptor {
        occupied: false,
        buffer_id: 0,
        frame_count: 0,
        sharing: ResourceSharing::Exclusive,
        device_id: DeviceId(0),
        owning_pid: 0,
        phys_base: 0,
        user_virt_addr: 0,
        frame_indices: spec_array_fill_for_copy_type::<u16, 16>(0xFFFF),
    }
}

impl DmaBufferDescriptor {
    pub fn empty() -> (r: Self)
        ensures
            r == empty_buffer(),
    {
        DmaBufferDescriptor {
            occupied: false,
            buffer_id: 0,
            frame_count: 0,
            sharing: ResourceSharing::Exclusive,
            device_id: DeviceId(0),
            owning_pid: 0,
            phys_base: 0,
            user_virt_addr: 0,
            frame_indices: [0xFFFFu16; 16],
        }
    }
}

/// A pinned frame.
#[derive(Debug, Clone, Copy, PartialEq, Eq, Structural)]
pub struct PhysicalFramePinRecord {
    pub occupied: bool,
    pub _pad: u8,
    pub pin_count: u16,
    /// One bit for each buffer that has the frame.
    pub owning_buffer_mask: u32,
    pub phys_addr: u64,
}

/// A pin record that is not in use.
pub open spec fn empty_pin() -> PhysicalFramePinRecord {
    PhysicalFramePinRecord {
        occupied: false,
        _pad: 0,
        pin_count: 0,
        owning_buffer_mask: 0,
        phys_addr: 0,
    }
}

impl PhysicalFramePinRecord {
    pub fn empty() -> (r: Self)
        ensures
            r == empty_pin(),
    {
        PhysicalFramePinRecord {
            occupied: false,
            _pad: 0,
            pin_count: 0,
            owning_buffer_mask: 0,
            phys_addr: 0,
        }
    }
}

/// A driver that wants to hear of an interrupt.
#[derive(Debug, Clone, Copy, PartialEq, Eq, Structural)]
pub struct InterruptBinding {
    pub occupied: bool,
    pub binding_id: u16,
    pub _pad: u32,
    pub device_id: DeviceId,
    pub driver_pid: u64,
    /// The event object to signal, or 0.
    pub event_object_id: u64,
    pub interrupt_count: u64,
    /// The routine to run at once, by a number that whoever installed it knows.
    pub top_half: Option<u64>,
}

/// A binding that is not in use.
pub open spec fn empty_binding() -> InterruptBinding {
    InterruptBinding {
        occupied: false,
        binding_id: 0,
        _pad: 0,
        device_id: DeviceId(0),
        driver_pid: 0,
        event_object_id: 0,
        interrupt_count: 0,
        top_half: None,
    }
}

impl InterruptBinding {
    pub fn empty() -> (r: Self)
        ensures
            r == empty_binding(),
    {
        InterruptBinding {
            occupied: false,
            binding_id: 0,
            _pad: 0,
            device_id: DeviceId(0),
            driver_pid: 0,
            event_object_id: 0,
            interrupt_count: 0,
            top_half: None,
        }
    }
}

/// The state of an interrupt line.
#[derive(Debug, Clone, Copy, PartialEq, Eq, Structural)]
pub struct IrqLineState {
    pub active_bindings: u8,
    pub sharing: ResourceSharing,
    pub masked: bool,
    pub in_storm: bool,
    pub irq_count_current_tick: u32,
    pub cooldown_ticks_remaining: u32,
    pub total_line_interrupts: u64,
}

/// A line that nobody listens to.
pub open spec fn empty_line() -> IrqLineState {
    IrqLineState {
        active_bindings: 0,
        sharing: ResourceSharing::Exclusive,
        masked: false,
        in_storm: false,
        irq_count_current_tick: 0,
        cooldown_ticks_remaining: 0,
        total_line_interrupts: 0,
    }
}

impl IrqLineState {
    pub fn empty() -> (r: Self)
        ensures
            r == empty_line(),
    {
        IrqLineState {
            active_bindings: 0,
            sharing: ResourceSharing::Exclusive,
            masked: false,
            in_storm: false,
            irq_count_current_tick: 0,
            cooldown_ticks_remaining: 0,
            total_line_interrupts: 0,
        }
    }
}

} // verus!
