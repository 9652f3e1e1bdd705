use stm32_mass_storage::image::{Image, CHUNK_SIZE};
use stm32_mass_storage::pack::pack;
use stm32_mass_storage::segger::config::{enable_isr, IsrSlot};
use stm32_mass_storage::segger::libc::{strcmp, strncpy, strrchr};
use stm32_mass_storage::segger::log::{forward, SEGGER_vsnprintf, USB_X_Log, USB_X_Warn};
use stm32_mass_storage::segger::os::{
    tick, wait_inner, Event, Os, USB_OS_DecRI, USB_OS_Delay, USB_OS_GetTickCnt, USB_OS_IncDI,
    USB_OS_MutexAlloc, USB_OS_Signal, USB_OS_Wait, USB_OS_WaitTimed, WaitStep,
};
use stm32_mass_storage::segger::storage::{
    install, pf_get_buffer, pf_get_info, pf_init, pf_medium_is_present, pf_read, pf_write,
    DriverData, Storage,
};
use stm32_mass_storage::segger::{dispatch_interrupt, init_data, start, StackConstants};
use stm32_mass_storage::store::ImageStore;

#[test]
fn signals_are_latched_until_waited_for() {
    let mut os = Os::new(4);
    USB_OS_Signal(&mut os, 2, 7);
    assert_eq!(USB_OS_Wait(&mut os, 1, 7, 0), WaitStep::Sleep);
    assert_eq!(USB_OS_Wait(&mut os, 2, 7, 0), WaitStep::Signaled);
    assert_eq!(USB_OS_Wait(&mut os, 2, 7, 0), WaitStep::Sleep);
    assert_eq!(Event::new().cnt, 0);
}

#[test]
fn signals_of_other_transactions_are_discarded() {
    let mut os = Os::new(4);
    USB_OS_Signal(&mut os, 0, 6);
    assert_eq!(wait_inner(&mut os, 0, 7, 0, None), WaitStep::Again);
    assert_eq!(wait_inner(&mut os, 0, 7, 0, None), WaitStep::Sleep);
    // Only the last signal is kept.
    USB_OS_Signal(&mut os, 0, 7);
    USB_OS_Signal(&mut os, 0, 8);
    assert_eq!(wait_inner(&mut os, 0, 7, 0, None), WaitStep::Again);
}

#[test]
fn slots_that_are_not_there_never_block() {
    let mut os = Os::new(4);
    USB_OS_Signal(&mut os, 4, 1);
    assert!(os.events.iter().all(|e| !e.pending));
    assert_eq!(USB_OS_Wait(&mut os, 4, 1, 0), WaitStep::Signaled);
    assert_eq!(USB_OS_WaitTimed(&mut os, u32::MAX, 5, 1, 0), Ok(0));
}

#[test]
fn waits_time_out_across_the_wrap() {
    let mut os = Os::new(1);
    os.ticks = u32::MAX - 1;
    let start = USB_OS_GetTickCnt(&os);
    for _ in 0..4 {
        assert_eq!(USB_OS_WaitTimed(&mut os, 0, 4, 1, start), Err(WaitStep::Sleep));
        assert!(!USB_OS_Delay(&os, start, 4));
        tick(&mut os);
    }
    assert_eq!(os.ticks, 2);
    assert!(USB_OS_Delay(&os, start, 4));
    assert_eq!(USB_OS_WaitTimed(&mut os, 0, 4, 1, start), Ok(1));
    // A signal that has come counts even after the time is over.
    USB_OS_Signal(&mut os, 0, 2);
    assert_eq!(USB_OS_WaitTimed(&mut os, 0, 4, 1, start), Err(WaitStep::Again));
    USB_OS_Signal(&mut os, 0, 1);
    assert_eq!(USB_OS_WaitTimed(&mut os, 0, 4, 1, start), Ok(0));
    assert!(USB_OS_Delay(&os, start, 0) && USB_OS_Delay(&os, start, -5));
}

#[test]
fn critical_regions_nest() {
    let mut os = Os::new(1);
    assert!(USB_OS_IncDI(&mut os, false));
    assert!(USB_OS_IncDI(&mut os, false));
    assert!(!USB_OS_IncDI(&mut os, true));
    assert!(!USB_OS_DecRI(&mut os, true));
    assert_eq!(os.di_depth, 2);
    assert!(!USB_OS_DecRI(&mut os, false));
    assert!(USB_OS_DecRI(&mut os, false));
    assert_eq!(os.di_depth, 0);
    assert_eq!(USB_OS_MutexAlloc(), 0);
}

#[test]
fn interrupts_go_to_the_registered_routine() {
    let mut slot = IsrSlot::new();
    assert_eq!(dispatch_interrupt(&slot), None);
    enable_isr(&mut slot, None);
    assert_eq!(dispatch_interrupt(&slot), None);
    enable_isr(&mut slot, Some(0x0800_1234));
    assert_eq!(dispatch_interrupt(&slot), Some(0x0800_1234));
    enable_isr(&mut slot, None);
    assert_eq!(dispatch_interrupt(&slot), Some(0x0800_1234));
}

#[test]
fn strings_compare_by_their_bytes() {
    assert_eq!(strcmp(b"abc\0", b"abc\0xyz"), 0);
    assert_eq!(strcmp(b"abc\0", b"abd\0"), -1);
    assert_eq!(strcmp(b"abd\0", b"abc\0"), 1);
    assert_eq!(strcmp(b"ab\0", b"abc\0"), -99);
    assert_eq!(strcmp(b"\xff\0", b"\0"), 255);
    assert_eq!(strcmp(b"\0", b"\0"), 0);
}

#[test]
fn comparison_carries_over() {
    let strings: [&[u8]; 5] = [b"\0", b"a\0", b"ab\0", b"b\0", b"\xff\0"];
    for i in 0..strings.len() {
        for j in 0..strings.len() {
            let order = strcmp(strings[i], strings[j]);
            assert_eq!(order < 0, i < j);
            assert_eq!(order, -strcmp(strings[j], strings[i]));
        }
    }
}

#[test]
fn strings_are_copied_and_padded() {
    let mut dst = [0xAA; 8];
    strncpy(&mut dst, b"abc\0zz", 6);
    assert_eq!(dst, *b"abc\0\0\0\xaa\xaa");
    strncpy(&mut dst, b"hello", 5);
    assert_eq!(dst, *b"hello\0\xaa\xaa");
    strncpy(&mut dst, b"x\0", 0);
    assert_eq!(dst, *b"hello\0\xaa\xaa");
}

#[test]
fn the_last_occurrence_is_found() {
    assert_eq!(strrchr(b"a/b/c\0/", b'/' as i32), Some(3));
    assert_eq!(strrchr(b"abc\0", 0), Some(3));
    assert_eq!(strrchr(b"abc\0", b'x' as i32), None);
    assert_eq!(strrchr(b"abc\0", b'b' as i32 - 256), Some(1));
    assert_eq!(strrchr(b"abc\0", b'c' as i32 + 512), Some(2));
}

#[test]
fn messages_are_forwarded_as_text() {
    assert_eq!(USB_X_Log(Some(b"hello")), Some("emUSB: hello".to_string()));
    assert_eq!(USB_X_Warn(Some("größe".as_bytes())), Some("emUSB WARN: größe".to_string()));
    assert_eq!(USB_X_Log(Some(b"\xff\xfe bad")), Some("emUSB: <6 non-utf8 bytes>".to_string()));
    assert_eq!(forward("p", Some(&[0xC0; 123])), Some("p: <123 non-utf8 bytes>".to_string()));
    assert_eq!(USB_X_Warn(None), None);
}

#[test]
fn formatting_is_a_stand_in() {
    let mut buffer = [7u8; 4];
    assert_eq!(SEGGER_vsnprintf(Some(&mut buffer), 4), 0);
    assert_eq!(buffer, [0, 7, 7, 7]);
    let mut buffer = [7u8; 4];
    assert_eq!(SEGGER_vsnprintf(Some(&mut buffer), 0), 0);
    assert_eq!(buffer, [7; 4]);
    assert_eq!(SEGGER_vsnprintf(None, 10), 0);
}

#[test]
fn the_storage_hooks_serve_the_image() {
    let data: Vec<u8> = (0..2000u32).map(|i| (i % 97) as u8).collect();
    let packed = pack(&data, CHUNK_SIZE).unwrap();
    let mut buf = vec![0u8; CHUNK_SIZE];
    let mut storage = Storage::new();
    let mut dst = vec![9u8; 1024];
    assert_eq!(pf_read(&mut storage, 0, Some(&mut dst)), -1);
    assert_eq!(dst, vec![9u8; 1024]);
    assert_eq!(pf_read(&mut storage, 0, None), 0);
    assert_eq!(pf_read(&mut storage, 0, Some(&mut [])), 0);

    let image: Image = packed.image();
    install(&mut storage, ImageStore::new(image, &mut buf, 48_000_000));
    assert_eq!(pf_read(&mut storage, 1, Some(&mut dst)), 0);
    assert_eq!(dst[..], data[512..1536]);
    assert_eq!(pf_read(&mut storage, 3, Some(&mut dst)), 0);
    assert_eq!(dst[..464], data[1536..]);
    assert_eq!(dst[464..], vec![0u8; 560][..]);
    assert_eq!(pf_write(), -1);
    assert_eq!(pf_medium_is_present(), 1);
    let info = pf_get_info();
    assert_eq!((info.num_sectors, info.sector_size), (8192, 512));
}

#[test]
fn transfers_fit_the_buffer() {
    let mut storage = Storage::new();
    assert_eq!(pf_get_buffer(&storage, 4), 0);
    pf_init(&mut storage, None);
    assert_eq!(pf_get_buffer(&storage, 4), 0);
    pf_init(&mut storage, Some(DriverData { has_buffer: true, num_bytes: 8191 }));
    assert_eq!(pf_get_buffer(&storage, 4), 4);
    assert_eq!(pf_get_buffer(&storage, 100), 15);
    pf_init(&mut storage, Some(DriverData { has_buffer: true, num_bytes: 511 }));
    assert_eq!(pf_get_buffer(&storage, 4), 0);
    pf_init(&mut storage, Some(DriverData { has_buffer: false, num_bytes: 8192 }));
    assert_eq!(pf_get_buffer(&storage, 4), 0);
}

#[test]
fn the_stack_is_told_of_one_read_only_volume() {
    let plan = start(StackConstants {
        fs_bulk_max_packet_size: 64,
        dir_in: 1,
        dir_out: 0x100,
        transfer_type_bulk: 2,
    });
    assert_eq!((plan.device.vendor_id, plan.device.product_id), (0x1209, 1));
    assert_eq!(plan.device.vendor_name, "Schuwi");
    assert_eq!(plan.device.serial_number, "000000000001");
    assert_eq!(plan.lun.vendor_name, "SCHUWI");
    assert_eq!(plan.lun.product_name, "STM32 Archive");
    assert_eq!(plan.lun.product_ver, "0.1");
    assert_eq!((plan.ep_in.in_dir, plan.ep_out.in_dir), (1, 0));
    assert_eq!((plan.ep_out.transfer_type, plan.ep_out.max_packet_size), (2, 64));
    assert_eq!(plan.out_buffer_len, 64);
    assert_eq!((plan.unit.num_sectors, plan.unit.sector_size), (8192, 512));
    assert_eq!(plan.unit.buffer_len, 8192);
    assert_eq!((plan.unit.is_present, plan.unit.is_write_protected), (1, 1));
    let data = init_data(0x181, 2);
    assert_eq!((data.ep_in, data.ep_out, data.interface_num), (0x81, 2, 0));
}
