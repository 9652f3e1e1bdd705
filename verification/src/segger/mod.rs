//! The hooks of the emUSB-Device stack: what they decide and compute. The C-callable
//! symbols around them hold the state and touch the hardware.

pub mod config;
pub mod libc;
pub mod log;
pub mod os;
pub mod storage;

use vstd::prelude::*;

use config::IsrSlot;

use crate::image::{IMAGE_BLOCKS_NUM, IMAGE_BLOCK_SIZE};
use crate::scsi::{USB_PID, USB_VID};

verus! {

/// The address of the driver routine that a pending OTG_FS interrupt is dispatched to,
/// if the driver has registered one.
pub fn dispatch_interrupt(slot: &IsrSlot) -> (handler: Option<usize>)
    ensures
        handler == config::dispatched(*slot),
{
    config::dispatch_interrupt(slot)
}

/// How many sectors the transfer buffer of the MSD class holds.
pub const BUFFER_SECTORS: u32 = 16;

/// The constants of the stack's headers that bringing it up takes.
#[derive(Clone, Copy)]
pub struct StackConstants {
    pub fs_bulk_max_packet_size: u16,
    pub dir_in: u32,
    pub dir_out: u32,
    pub transfer_type_bulk: u32,
}

/// How the device presents itself to the host.
#[derive(Clone, Copy)]
pub struct DeviceInfo {
    pub vendor_id: u16,
    pub product_id: u16,
    pub vendor_name: &'static str,
    pub product_name: &'static str,
    pub serial_number: &'static str,
}

/// How the logical unit presents itself to the host.
#[derive(Clone, Copy)]
pub struct LunInfo {
    pub vendor_name: &'static str,
    pub product_name: &'static str,
    pub product_ver: &'static str,
    pub serial_no: &'static str,
}

/// A bulk endpoint.
#[derive(Clone, Copy)]
pub struct EndpointInfo {
    pub max_packet_size: u16,
    pub interval: u16,
    pub flags: u16,
    pub in_dir: u8,
    pub transfer_type: u8,
    pub iso_type: u8,
}

/// Logical unit 0: a read-only, write-protected storage.
#[derive(Clone, Copy)]
pub struct UnitInfo {
    pub num_sectors: u32,
    pub sector_size: u16,
    pub buffer_len: u32,
    pub is_present: u8,
    pub is_write_protected: u8,
}

/// The endpoints and the interface of the MSD class.
#[derive(Clone, Copy)]
pub struct InitData {
    pub ep_in: u8,
    pub ep_out: u8,
    pub interface_num: u8,
}

/// All that the stack is told when it is brought up as a single read-only MSD volume.
#[derive(Clone, Copy)]
pub struct StartPlan {
    pub device: DeviceInfo,
    pub lun: LunInfo,
    pub ep_in: EndpointInfo,
    pub ep_out: EndpointInfo,
    /// Length of the OUT endpoint's buffer: one Full-Speed bulk packet.
    pub out_buffer_len: u32,
    pub unit: UnitInfo,
}

/// The lowest eight bits of `n`.
pub open spec fn low_byte(n: int) -> int {
    n % 0x100
}

/// A bulk endpoint in the direction `dir`.
pub open spec fn bulk_endpoint(constants: StackConstants, dir: u32) -> EndpointInfo {
    EndpointInfo {
        max_packet_size: constants.fs_bulk_max_packet_size,
        interval: 0,
        flags: 0,
        in_dir: low_byte(dir as int) as u8,
        transfer_type: low_byte(constants.transfer_type_bulk as int) as u8,
        iso_type: 0,
    }
}

fn to_u8(n: u32) -> (byte: u8)
    ensures
        byte == low_byte(n as int),
{
    (n % 0x100) as u8
}

/// What to tell the stack when bringing it up as a single read-only MSD volume.
pub fn start(constants: StackConstants) -> (plan: StartPlan)
    ensures
        plan.device.vendor_id == USB_VID,
        plan.device.product_id == USB_PID,
        plan.device.vendor_name@ == "Schuwi"@,
        plan.device.product_name@ == "STM32 Archive"@,
        plan.device.serial_number@ == "000000000001"@,
        plan.device.serial_number@.len() >= 12,
        plan.lun.vendor_name@ == "SCHUWI"@,
        plan.lun.product_name@ == "STM32 Archive"@,
        plan.lun.product_ver@ == "0.1"@,
        plan.lun.serial_no@ == "000000000001"@,
        plan.ep_in == bulk_endpoint(constants, constants.dir_in),
        plan.ep_out == bulk_endpoint(constants, constants.dir_out),
        plan.ep_in.interval == 0 && plan.ep_in.flags == 0 && plan.ep_in.iso_type == 0,
        plan.ep_out.interval == 0 && plan.ep_out.flags == 0 && plan.ep_out.iso_type == 0,
        plan.ep_in.max_packet_size == constants.fs_bulk_max_packet_size,
        plan.ep_out.max_packet_size == constants.fs_bulk_max_packet_size,
        constants.dir_in < 256 ==> plan.ep_in.in_dir == constants.dir_in,
        constants.dir_out < 256 ==> plan.ep_out.in_dir == constants.dir_out,
        constants.transfer_type_bulk < 256 ==> plan.ep_in.transfer_type
            == constants.transfer_type_bulk && plan.ep_out.transfer_type
            == constants.transfer_type_bulk,
        plan.out_buffer_len == constants.fs_bulk_max_packet_size,
        plan.unit == (UnitInfo {
            num_sectors: IMAGE_BLOCKS_NUM,
            sector_size: 512,
            buffer_len: (BUFFER_SECTORS * IMAGE_BLOCK_SIZE) as u32,
            is_present: 1,
            is_write_protected: 1,
        }),
{
    // 12+ chars for Mass Storage Device Bootability compliance.
    proof {
        reveal_strlit("000000000001");
    }
    let device = DeviceInfo {
        vendor_id: USB_VID,
        product_id: USB_PID,
        vendor_name: "Schuwi",
        product_name: "STM32 Archive",
        serial_number: "000000000001",
    };
    let lun = LunInfo {
        vendor_name: "SCHUWI",
        product_name: "STM32 Archive",
        product_ver: "0.1",
        serial_no: "000000000001",
    };
    let ep_in = EndpointInfo {
        max_packet_size: constants.fs_bulk_max_packet_size,
        interval: 0,
        flags: 0,
        in_dir: to_u8(constants.dir_in),
        transfer_type: to_u8(constants.transfer_type_bulk),
        iso_type: 0,
    };
    let ep_out = EndpointInfo { in_dir: to_u8(constants.dir_out), ..ep_in };
    let unit = UnitInfo {
        num_sectors: IMAGE_BLOCKS_NUM,
        sector_size: IMAGE_BLOCK_SIZE as u16,
        buffer_len: BUFFER_SECTORS * IMAGE_BLOCK_SIZE,
        is_present: 1,
        is_write_protected: 1,
    };
    StartPlan {
        device,
        lun,
        ep_in,
        ep_out,
        out_buffer_len: constants.fs_bulk_max_packet_size as u32,
        unit,
    }
}

/// The MSD class on the endpoints that the stack has added, as it numbers them.
pub fn init_data(ep_in: u32, ep_out: u32) -> (data: InitData)
    ensures
        data.ep_in == low_byte(ep_in as int),
        data.ep_out == low_byte(ep_out as int),
        ep_in < 256 ==> data.ep_in == ep_in,
        ep_out < 256 ==> data.ep_out == ep_out,
        data.interface_num == 0,
{
    InitData { ep_in: to_u8(ep_in), ep_out: to_u8(ep_out), interface_num: 0 }
}

} // verus!
