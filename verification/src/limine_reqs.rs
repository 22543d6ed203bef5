//! The requests of the Limine boot protocol and their responses.
//!
//! The boot loader finds the requests in the kernel image, fills in the
//! responses and starts the kernel.
use vstd::prelude::*;
use vstd::slice::slice_subrange;

verus! {

/// The response to the request for the direct map.
#[derive(Copy, Clone, Debug, PartialEq, Eq, Structural)]
pub struct LimineHhdmResponse {
    pub revision: u64,
    /// the address at which the direct map shows physical address 0
    pub offset: u64,
}

/// The request for the direct map of all physical memory.
#[derive(Copy, Clone, Debug)]
pub struct LimineHhdmRequest {
    pub id: [u64; 4],
    pub revision: u64,
    pub response: Option<LimineHhdmResponse>,
}

/// A memory map entry.
#[derive(Copy, Clone, Debug, PartialEq, Eq, Structural)]
pub struct LimineMemmapEntry {
    pub base: u64,
    pub length: u64,
    pub typ: u64,
}

/// The response to the request for the memory map.
#[derive(Debug)]
pub struct LimineMemmapResponse {
    pub revision: u64,
    pub entry_count: u64,
    pub entries: Vec<LimineMemmapEntry>,
}

/// The request for the memory map.
#[derive(Debug)]
pub struct LimineMemmapRequest {
    pub id: [u64; 4],
    pub revision: u64,
    pub response: Option<LimineMemmapResponse>,
}

/// The response to the request for the place of the kernel image.
#[derive(Copy, Clone, Debug, PartialEq, Eq, Structural)]
pub struct LimineExecutableAddressResponse {
    pub revision: u64,
    pub physical_base: u64,
    pub virtual_base: u64,
}

/// The request for the place of the kernel image.
#[derive(Copy, Clone, Debug)]
pub struct LimineExecutableAddressRequest {
    pub id: [u64; 4],
    pub revision: u64,
    pub response: Option<LimineExecutableAddressResponse>,
}

/// What the boot loader tells of a processor.
#[derive(Copy, Clone, Debug, PartialEq, Eq, Structural)]
pub struct LimineMpInfo {
    /// the id of the processor in the ACPI tables
    pub processor_id: u32,
    /// the id of its local APIC
    pub lapic_id: u32,
    pub reserved: u64,
    /// a write here lets the parked processor jump to the address written
    pub goto_address: u64,
    /// for the kernel's own use
    pub extra_argument: u64,
}

/// The response to the request for the other processors.
#[derive(Debug)]
pub struct LimineMpResponse {
    pub revision: u64,
    pub flags: u32,
    /// the local APIC of the processor that boots
    pub bsp_lapic_id: u32,
    /// the number of processors, with the one that boots
    pub cpu_count: u64,
    pub cpus: Vec<LimineMpInfo>,
}

/// The request for the other processors.
#[derive(Debug)]
pub struct LimineMpRequest {
    pub id: [u64; 4],
    pub revision: u64,
    pub response: Option<LimineMpResponse>,
}

/// The response about the other processors, if there is one.
pub fn mp_response(request: &LimineMpRequest) -> (r: Option<&LimineMpResponse>)
    ensures
        match r {
            Some(response) => request.response == Some(*response),
            None => request.response is None,
        },
{
    match &request.response {
        Some(response) => Some(response),
        None => None,
    }
}

/// The address at which the direct map shows physical address 0.
pub fn hhdm_offset(request: &LimineHhdmRequest) -> (r: u64)
    requires
        request.response is Some,
    ensures
        r == request.response->Some_0.offset,
{
    request.response.unwrap().offset
}

/// The physical address of the kernel image.
pub fn kernel_physical_base(request: &LimineExecutableAddressRequest) -> (r: u64)
    requires
        request.response is Some,
    ensures
        r == request.response->Some_0.physical_base,
{
    request.response.unwrap().physical_base
}

/// The entries of the memory map.
pub fn memmap_entries(request: &LimineMemmapRequest) -> (r: &[LimineMemmapEntry])
    requires
        request.response matches Some(response) && response.entry_count
            <= response.entries@.len(),
    ensures
        r@ == request.response->Some_0.entries@.take(
            request.response->Some_0.entry_count as int,
        ),
{
    match &request.response {
        Some(response) => {
            let entries: &[LimineMemmapEntry] = response.entries.as_slice();
            let len: usize = entries.len();
            assert(response.entry_count as usize == response.entry_count);
            slice_subrange(entries, 0, response.entry_count as usize)
        },
        None => &[],
    }
}

/// The local APIC of the processor that boots, or 0 if the boot loader did not
/// tell.
pub fn bsp_lapic_id(request: &LimineMpRequest) -> (r: u32)
    ensures
        r == match request.response {
            Some(response) => response.bsp_lapic_id,
            None => 0,
        },
{
    match mp_response(request) {
        Some(response) => response.bsp_lapic_id,
        None => 0,
    }
}

} // verus!
