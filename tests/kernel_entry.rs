use angstros::boot::{handoff, memory_map_buffer_size, MemoryMap};
use angstros::config::{camel_case, check_words, CommandFailure, CommandResultExt, Info, KernelConfig, StubConfig, SubCommand};
use angstros::syscall::{
    decode, frame_buffer_mapping, handle_log, FirmwareFrameBuffer, FrameBuffer,
    Pixel, PixelFormat, SyscallCode, SyscallRequest, UserState, UserThread,
};

#[test]
fn syscall_log_then_exit() {
    let user_memory: Vec<u8> = b"..hi..".to_vec();
    let mut t = UserThread::new(0x40_1000, 0x3000);
    let entry = t.resume();
    assert_eq!((entry.rip, entry.rsp, entry.rflags, entry.rax), (0x40_1000, 0x3000, 0x202, 0));
    let mut logged = Vec::new();
    let mut exits = 0;
    // userspace: Log("hi") at offset 2, then Exit(0)
    let calls = [(1u64, 2u64, 2u64), (0, 0, 0)];
    for (code, arg1, arg2) in calls {
        match t.on_syscall(code, arg1, arg2, entry.rip + 2, 0x2ff0) {
            SyscallRequest::Log { ptr, len } => {
                let bytes = &user_memory[ptr as usize..(ptr + len) as usize];
                let out = handle_log(bytes);
                if let Some(m) = out.message {
                    logged.push(m);
                }
                t.set_result(out.rax);
                assert_eq!(out.rax, 0);
                t.resume();
            }
            SyscallRequest::Exit { code } => {
                assert_eq!(code, 0);
                exits += 1;
                break;
            }
            other => panic!("unexpected {:?}", other),
        }
    }
    assert_eq!(logged, vec!["hi".to_string()]);
    assert_eq!(exits, 1);
    assert!(t.finished());
    assert_eq!(t.exit_code, Some(0));
    assert_eq!(t.state, UserState::Exited);
}

#[test]
fn syscall_log_invalid_utf8() {
    let out = handle_log(&[0xff, 0xfe, b'a']);
    assert_eq!(out.rax, 1);
    assert!(out.message.is_none());
    let out = handle_log("Grüße".as_bytes());
    assert_eq!(out.rax, 0);
    assert_eq!(out.message.as_deref(), Some("Grüße"));
    let out = handle_log(&[]);
    assert_eq!((out.rax, out.message.as_deref()), (0, Some("")));
}

#[test]
fn syscall_decode_codes() {
    assert_eq!(decode(0, 7, 9), SyscallRequest::Exit { code: 7 });
    assert_eq!(decode(1, 0x1000, 5), SyscallRequest::Log { ptr: 0x1000, len: 5 });
    assert_eq!(decode(2, 0x2000, 48), SyscallRequest::FrameBuffer { slot: 0x2000, slot_size: 48 });
    assert_eq!(decode(3, 1, 2), SyscallRequest::Unknown { code: 3 });
    assert_eq!(SyscallCode::from_raw(2), Some(SyscallCode::FrameBuffer));
    assert_eq!(SyscallCode::from_raw(9), None);
    assert_eq!(SyscallCode::Log.raw(), 1);
}

#[test]
fn syscall_thread_keeps_registers() {
    let mut t = UserThread::new(0x1000, 0x3000);
    t.resume();
    t.on_syscall(1, 0, 0, 0x1234, 0x2f00);
    assert_eq!(t.state, UserState::Syscalling);
    t.set_result(1);
    let e = t.resume();
    assert_eq!((e.rip, e.rsp, e.rax), (0x1234, 0x2f00, 1));
    assert_eq!(t.on_syscall(7, 0, 0, 0x1240, 0x2f00), SyscallRequest::Unknown { code: 7 });
    assert_eq!(t.rax, 1);
    assert_eq!(t.state, UserState::Syscalling);
}

#[test]
fn frame_buffer_mapping_offsets() {
    let offset = 0x80_0000_0000u64;
    let fb = FirmwareFrameBuffer {
        ptr: offset + 0x8000_0100,
        size: 0x2000,
        width: 640,
        height: 480,
        stride: 640,
        format: Some(PixelFormat::Bgr),
    };
    let m = frame_buffer_mapping(Some(fb)).unwrap();
    assert_eq!(m.frame_start, 0x8000_0000);
    assert_eq!(m.frame_count, 3);
    assert_eq!(m.page_start, 0x700_0000);
    assert_eq!(
        m.descriptor,
        FrameBuffer { ptr: 0x700_0100, size: 0x2000, width: 640, height: 480, stride: 640, format: PixelFormat::Bgr }
    );
    assert_eq!(PixelFormat::Rgb.raw(), 1);
}

#[test]
fn frame_buffer_unavailable() {
    assert!(frame_buffer_mapping(None).is_none());
    let fb = FirmwareFrameBuffer { ptr: 0x80_0000_0000, size: 0x1000, width: 1, height: 1, stride: 1, format: None };
    assert!(frame_buffer_mapping(Some(fb)).is_none());
    let low = FirmwareFrameBuffer { ptr: 0x1000, size: 0x1000, width: 1, height: 1, stride: 1, format: Some(PixelFormat::Rgb) };
    assert!(frame_buffer_mapping(Some(low)).is_none());
}

#[test]
fn pixel_channel_order() {
    assert_eq!(Pixel::new(1, 2, 3, PixelFormat::Rgb), Pixel { a: 1, b: 2, c: 3 });
    assert_eq!(Pixel::new(1, 2, 3, PixelFormat::Bgr), Pixel { a: 3, b: 2, c: 1 });
}

#[test]
fn memory_map_walks_by_stride() {
    let mut m = MemoryMap::new(0x1000, 48, 2);
    assert_eq!(m.size_hint(), (2, Some(2)));
    assert_eq!(m.next(), Some(0x1000));
    assert_eq!(m.next(), Some(0x1030));
    assert_eq!(m.next(), None);
    assert_eq!(m.size_hint(), (0, Some(0)));
}

#[test]
fn handoff_uses_offset_mapping() {
    let h = handoff(0x10_0000, 0x20_0000, 0x20_1234, 0x30_0000, 0x30_0000, 0x30_0030, 40);
    assert_eq!(h.rsp, 0x10_0000 + 16 * 0x1000 + 0x80_0000_0000);
    assert_eq!(h.rdi, 0x80_0020_0000);
    assert_eq!(h.entry, 0x20_1234);
    let mut m = h.memory_map;
    assert_eq!(m.next(), Some(0x80_0030_0000));
    assert_eq!(m.next(), Some(0x80_0030_0030));
    assert_eq!(m.size_hint().0, 38);
    assert_eq!(memory_map_buffer_size(0x1000), 0x1100);
}

#[test]
fn camel_case_words() {
    assert_eq!(camel_case("linked list"), "LinkedList");
    assert_eq!(camel_case("trace"), "Trace");
    assert_eq!(camel_case("Off"), "Off");
    assert!(check_words("linked list"));
    assert!(!check_words(""));
    assert!(!check_words("a  b"));
    assert!(!check_words(" a"));
    assert!(!check_words("a "));
    assert!(!check_words("é"));
}

#[test]
fn config_renders_source() {
    let stub = StubConfig { log_level: "info".to_string() };
    assert_eq!(stub.render(), "pub const LOG_LEVEL: log::LevelFilter = log::LevelFilter::Info;\n");
    let kernel = KernelConfig { log_level: "trace".to_string(), allocator: "linked list".to_string() };
    assert_eq!(
        kernel.render(),
        "pub const LOG_LEVEL: log::LevelFilter = log::LevelFilter::Trace;\npub type Allocator = crate::allocator::LinkedListAllocator;\n"
    );
}

#[test]
fn info_directories() {
    let info = Info { base_dir: "/ws".to_string(), config_dir: None, release: false, cmd: SubCommand::Test };
    assert!(info.test());
    assert_eq!(info.targetspec_dir(), "/ws/data/targetspec");
    assert_eq!(info.out_dir(), "/ws/target/xtask/out");
    assert_eq!(info.esp_dir(), "/ws/target/xtask/esp");
    assert_eq!(info.config_dir(), "/ws/config");
    let info = Info { base_dir: "/ws".to_string(), config_dir: Some("/etc/os".to_string()), release: true, cmd: SubCommand::Run };
    assert!(!info.test());
    assert_eq!(info.config_dir(), "/etc/os");
}

#[test]
fn command_status() {
    assert_eq!(Some(0).check_status(), Ok(()));
    assert_eq!(Some(3).check_status(), Err(CommandFailure::Exited(3)));
    assert_eq!(None::<i32>.check_status(), Err(CommandFailure::Signalled));
}
