//! The system-call ABI and the kernel's decisions in the dispatch loop.
//!
//! The loop itself (the `SYSRET`/`SYSCALL` stack swap) is machine code run by
//! the kernel binary; every decision it takes is made here.

use vstd::prelude::*;
use crate::addr::{align_down, align_down_spec, OFFSET, PAGE_SIZE, USER_FRAME_BUFFER};

verus! {

/// Raw code of `SyscallCode::Exit`.
pub const SYSCALL_EXIT: u64 = 0;

/// Raw code of `SyscallCode::Log`.
pub const SYSCALL_LOG: u64 = 1;

/// Raw code of `SyscallCode::FrameBuffer`.
pub const SYSCALL_FRAME_BUFFER: u64 = 2;

/// `RFLAGS` with which userspace is entered: interrupts enabled.
pub const USER_RFLAGS: u64 = 0x202;

/// System call codes.
#[derive(Copy, Clone, Debug, PartialEq, Eq, Structural)]
pub enum SyscallCode {
    /// Exit with the code in `rsi`.
    Exit,
    /// Log a message: `rsi` points to UTF-8 bytes, `rdx` is their length.
    Log,
    /// Get access to the frame buffer; `rsi` points to the descriptor slot.
    FrameBuffer,
}

impl SyscallCode {
    /// The number userspace passes in `rdi`.
    pub open spec fn raw_spec(self) -> u64 {
        match self {
            SyscallCode::Exit => SYSCALL_EXIT,
            SyscallCode::Log => SYSCALL_LOG,
            SyscallCode::FrameBuffer => SYSCALL_FRAME_BUFFER,
        }
    }

    /// The number userspace passes in `rdi`.
    pub fn raw(self) -> (r: u64)
        ensures
            r == self.raw_spec(),
    {
        match self {
            SyscallCode::Exit => SYSCALL_EXIT,
            SyscallCode::Log => SYSCALL_LOG,
            SyscallCode::FrameBuffer => SYSCALL_FRAME_BUFFER,
        }
    }

    /// The code with the given number, if there is one.
    pub fn from_raw(code: u64) -> (r: Option<SyscallCode>)
        ensures
            r.is_some() <==> code <= 2,
            r matches Some(c) ==> c.raw_spec() == code,
    {
        if code == SYSCALL_EXIT {
            Some(SyscallCode::Exit)
        } else if code == SYSCALL_LOG {
            Some(SyscallCode::Log)
        } else if code == SYSCALL_FRAME_BUFFER {
            Some(SyscallCode::FrameBuffer)
        } else {
            None
        }
    }
}

/// Order of the colour channels of a pixel.
#[derive(Copy, Clone, Debug, PartialEq, Eq, Structural)]
pub enum PixelFormat {
    Bgr,
    Rgb,
}

impl PixelFormat {
    /// The byte that stands for the format in the frame-buffer descriptor.
    pub fn raw(self) -> (r: u8)
        ensures
            r == (if self == PixelFormat::Bgr { 0u8 } else { 1u8 }),
    {
        match self {
            PixelFormat::Bgr => 0,
            PixelFormat::Rgb => 1,
        }
    }
}

/// One pixel of the frame buffer, with its channels in the buffer's order.
#[derive(Copy, Clone, Debug, PartialEq, Eq, Structural)]
pub struct Pixel {
    pub a: u8,
    pub b: u8,
    pub c: u8,
}

impl Pixel {
    /// A pixel of colour `(r, g, b)` laid out for `format`.
    pub fn new(r: u8, g: u8, b: u8, format: PixelFormat) -> (p: Pixel)
        ensures
            format == PixelFormat::Rgb ==> p == (Pixel { a: r, b: g, c: b }),
            format == PixelFormat::Bgr ==> p == (Pixel { a: b, b: g, c: r }),
    {
        match format {
            PixelFormat::Rgb => Pixel { a: r, b: g, c: b },
            PixelFormat::Bgr => Pixel { a: b, b: g, c: r },
        }
    }
}

/// The frame-buffer descriptor that the kernel writes into userspace memory.
#[derive(Copy, Clone, Debug, PartialEq, Eq, Structural)]
pub struct FrameBuffer {
    /// Userspace virtual address of the first byte.
    pub ptr: u64,
    /// Size in bytes.
    pub size: u64,
    /// Width in pixels.
    pub width: u64,
    /// Height in pixels.
    pub height: u64,
    /// Pixels per line in memory.
    pub stride: u64,
    pub format: PixelFormat,
}

/// The frame buffer as the firmware left it, seen through the offset mapping.
#[derive(Copy, Clone, Debug, PartialEq, Eq, Structural)]
pub struct FirmwareFrameBuffer {
    /// Address of the first byte in the offset mapping.
    pub ptr: u64,
    /// Size in bytes.
    pub size: u64,
    pub width: u64,
    pub height: u64,
    pub stride: u64,
    /// The pixel format, or `None` where it is neither RGB nor BGR.
    pub format: Option<PixelFormat>,
}

/// A system call as decoded from `rdi`, `rsi` and `rdx`.
#[derive(Copy, Clone, Debug, PartialEq, Eq, Structural)]
pub enum SyscallRequest {
    Exit { code: u64 },
    Log { ptr: u64, len: u64 },
    FrameBuffer { slot: u64, slot_size: u64 },
    Unknown { code: u64 },
}

/// What `decode` makes of the registers.
pub open spec fn decode_spec(code: u64, arg1: u64, arg2: u64) -> SyscallRequest {
    if code == SYSCALL_EXIT {
        SyscallRequest::Exit { code: arg1 }
    } else if code == SYSCALL_LOG {
        SyscallRequest::Log { ptr: arg1, len: arg2 }
    } else if code == SYSCALL_FRAME_BUFFER {
        SyscallRequest::FrameBuffer { slot: arg1, slot_size: arg2 }
    } else {
        SyscallRequest::Unknown { code }
    }
}

/// Decode the registers userspace left at `SYSCALL`.
pub fn decode(code: u64, arg1: u64, arg2: u64) -> (r: SyscallRequest)
    ensures
        r == decode_spec(code, arg1, arg2),
{
    match SyscallCode::from_raw(code) {
        Some(SyscallCode::Exit) => SyscallRequest::Exit { code: arg1 },
        Some(SyscallCode::Log) => SyscallRequest::Log { ptr: arg1, len: arg2 },
        Some(SyscallCode::FrameBuffer) => SyscallRequest::FrameBuffer { slot: arg1, slot_size: arg2 },
        None => SyscallRequest::Unknown { code },
    }
}

/// The text that a byte sequence decodes to as UTF-8, if it is valid UTF-8.
pub uninterp spec fn utf8_text(bytes: Seq<u8>) -> Option<Seq<char>>;

/// Relies on `std::str::from_utf8`: `Ok` exactly for valid UTF-8, with the
/// decoded text.
#[verifier::external_body]
fn decode_utf8(bytes: &[u8]) -> (r: Option<String>)
    ensures
        r.is_some() <==> utf8_text(bytes@).is_some(),
        r matches Some(s) ==> s@ == utf8_text(bytes@).unwrap(),
{
    match std::str::from_utf8(bytes) {
        Ok(s) => Some(s.to_string()),
        Err(_) => None,
    }
}

/// The result of a `Log` system call.
pub struct LogOutcome {
    /// Value handed back in `rax`.
    pub rax: u64,
    /// The message to log, absent where the bytes are not UTF-8.
    pub message: Option<String>,
}

/// Handle `Log` on the bytes read from userspace: 0 and the message for valid
/// UTF-8; 1 and no message otherwise.
pub fn handle_log(bytes: &[u8]) -> (r: LogOutcome)
    ensures
        utf8_text(bytes@) is Some ==> r.rax == 0 && r.message is Some
            && r.message.unwrap()@ == utf8_text(bytes@).unwrap(),
        utf8_text(bytes@) is None ==> r.rax == 1 && r.message is None,
{
    match decode_utf8(bytes) {
        Some(s) => LogOutcome { rax: 0, message: Some(s) },
        None => LogOutcome { rax: 1, message: None },
    }
}

/// How the frame buffer is handed to userspace: `frame_count` frames from
/// `frame_start` are mapped, one after the other, from page `page_start`, and
/// `descriptor` is written to the slot userspace gave.
#[derive(Copy, Clone, Debug, PartialEq, Eq, Structural)]
pub struct FrameBufferMapping {
    pub page_start: u64,
    pub frame_start: u64,
    pub frame_count: u64,
    pub descriptor: FrameBuffer,
}

/// Whether the firmware frame buffer can be handed out: it lies in the
/// offset mapping, is not empty, and its frames fit below the address limit.
pub open spec fn frame_buffer_mappable(fb: FirmwareFrameBuffer) -> bool {
    &&& fb.format is Some
    &&& fb.ptr >= OFFSET
    &&& fb.size > 0
    &&& fb.ptr - OFFSET + fb.size <= 0x1_0000_0000_0000
}

/// Decide how to hand out the frame buffer. `None` (returned to userspace as
/// 1) where there is none, where its pixel format is neither RGB nor BGR, or
/// where it does not lie in the offset mapping.
pub fn frame_buffer_mapping(fb: Option<FirmwareFrameBuffer>) -> (r: Option<FrameBufferMapping>)
    ensures
        r is Some <==> (fb matches Some(f) && frame_buffer_mappable(f)),
        r matches Some(m) ==> {
            let f = fb.unwrap();
            let phys = f.ptr - OFFSET;
            let first = align_down_spec(phys, PAGE_SIZE as int);
            let last = align_down_spec(phys + f.size - 1, PAGE_SIZE as int);
            &&& m.frame_start == first
            &&& m.frame_count == (last - first) / PAGE_SIZE as int + 1
            &&& m.page_start == USER_FRAME_BUFFER
            &&& m.descriptor == (FrameBuffer {
                ptr: (USER_FRAME_BUFFER + (phys - first)) as u64,
                size: f.size,
                width: f.width,
                height: f.height,
                stride: f.stride,
                format: f.format.unwrap(),
            })
        },
{
    match fb {
        None => None,
        Some(f) => {
            match f.format {
                None => None,
                Some(format) => {
                    if f.ptr < OFFSET || f.size == 0 || f.size > 0x1_0000_0000_0000
                        || f.ptr - OFFSET > 0x1_0000_0000_0000 - f.size {
                        return None;
                    }
                    let phys = f.ptr - OFFSET;
                    let first = align_down(phys, PAGE_SIZE);
                    let last = align_down(phys + f.size - 1, PAGE_SIZE);
                    let descriptor = FrameBuffer {
                        ptr: USER_FRAME_BUFFER + (phys - first),
                        size: f.size,
                        width: f.width,
                height: f.height,
                        stride: f.stride,
                        format,
                    };
                    Some(FrameBufferMapping {
                        page_start: USER_FRAME_BUFFER,
                        frame_start: first,
                        frame_count: (last - first) / PAGE_SIZE + 1,
                        descriptor,
                    })
                },
            }
        },
    }
}

/// Where the single userspace thread stands, as the kernel sees it.
#[derive(Copy, Clone, Debug, PartialEq, Eq, Structural)]
pub enum UserState {
    /// Mapped, never entered.
    Loaded,
    /// Entered through `SYSRET`, not yet back.
    Running,
    /// Back in the kernel through `SYSCALL`, waiting for the result.
    Syscalling,
    /// Left through `Exit`; never entered again.
    Exited,
}

/// The registers that `SYSRET` enters userspace with.
#[derive(Copy, Clone, Debug, PartialEq, Eq, Structural)]
pub struct UserEntry {
    pub rip: u64,
    pub rsp: u64,
    pub rflags: u64,
    pub rax: u64,
}

/// The kernel's record of the userspace thread across the dispatch loop.
#[derive(Copy, Clone, Debug, PartialEq, Eq, Structural)]
pub struct UserThread {
    pub state: UserState,
    pub rip: u64,
    pub rsp: u64,
    pub rax: u64,
    pub exit_code: Option<u64>,
}

impl UserThread {
    /// A thread that starts at `entry_point` on a stack ending at `stack_end`.
    pub open spec fn new_spec(entry_point: u64, stack_end: u64) -> UserThread {
        UserThread { state: UserState::Loaded, rip: entry_point, rsp: stack_end, rax: 0, exit_code: None }
    }

    /// A thread that starts at `entry_point` on a stack ending at `stack_end`.
    pub fn new(entry_point: u64, stack_end: u64) -> (t: UserThread)
        ensures
            t == UserThread::new_spec(entry_point, stack_end),
    {
        UserThread { state: UserState::Loaded, rip: entry_point, rsp: stack_end, rax: 0, exit_code: None }
    }

    /// Whether the thread has exited.
    pub fn finished(&self) -> (r: bool)
        ensures
            r <==> self.state == UserState::Exited,
    {
        self.state == UserState::Exited
    }

    /// Enter userspace (`SYSRET`): the registers to load, with interrupts
    /// enabled in `RFLAGS`.
    pub fn resume(&mut self) -> (r: UserEntry)
        requires
            can_resume(*old(self)),
        ensures
            r == (UserEntry {
                rip: old(self).rip,
                rsp: old(self).rsp,
                rflags: USER_RFLAGS,
                rax: old(self).rax,
            }),
            *final(self) == (UserThread { state: UserState::Running, ..*old(self) }),
    {
        self.state = UserState::Running;
        UserEntry { rip: self.rip, rsp: self.rsp, rflags: USER_RFLAGS, rax: self.rax }
    }

    /// Userspace executed `SYSCALL` with `code`, `arg1`, `arg2`, to return to
    /// `rip` on stack `rsp`. `Exit` ends the thread; any other call waits for
    /// its result, which starts at 0, or at 1 for a code the kernel does not
    /// know.
    pub fn on_syscall(&mut self, code: u64, arg1: u64, arg2: u64, rip: u64, rsp: u64) -> (r:
        SyscallRequest)
        requires
            can_take_syscall(*old(self)),
        ensures
            r == decode_spec(code, arg1, arg2),
            *final(self) == syscall_step(*old(self), code, arg1, rip, rsp),
    {
        self.rip = rip;
        self.rsp = rsp;
        self.rax = 0;
        let req = decode(code, arg1, arg2);
        match req {
            SyscallRequest::Exit { code: exit_code } => {
                self.state = UserState::Exited;
                self.exit_code = Some(exit_code);
            },
            SyscallRequest::Unknown { .. } => {
                self.rax = 1;
                self.state = UserState::Syscalling;
            },
            _ => {
                self.state = UserState::Syscalling;
            },
        }
        req
    }

    /// Record the value handed back in `rax`.
    pub fn set_result(&mut self, rax: u64)
        requires
            old(self).state == UserState::Syscalling,
        ensures
            *final(self) == (UserThread { rax, ..*old(self) }),
    {
        self.rax = rax;
    }
}

/// The thread may be entered: it is loaded or waits for a result.
pub open spec fn can_resume(t: UserThread) -> bool {
    t.state == UserState::Loaded || t.state == UserState::Syscalling
}

/// The thread runs in userspace, so its next `SYSCALL` may be taken.
pub open spec fn can_take_syscall(t: UserThread) -> bool {
    t.state == UserState::Running
}

/// `Exit` ends the dispatch loop exactly once: the call that carries it
/// leaves the thread exited with its code, and an exited thread can be
/// neither entered again nor take another call.
pub proof fn lemma_exit_is_final(t: UserThread, code: u64, arg1: u64, rip: u64, rsp: u64)
    requires
        can_take_syscall(t),
    ensures
        ({
            let u = syscall_step(t, code, arg1, rip, rsp);
            &&& code == SYSCALL_EXIT ==> u.state == UserState::Exited && u.exit_code == Some(arg1)
            &&& code != SYSCALL_EXIT ==> u.state == UserState::Syscalling
            &&& u.state == UserState::Exited ==> !can_resume(u) && !can_take_syscall(u)
        }),
{
}

/// The thread after `on_syscall`.
pub open spec fn syscall_step(t: UserThread, code: u64, arg1: u64, rip: u64, rsp: u64) -> UserThread {
    UserThread {
        state: if code == SYSCALL_EXIT {
            UserState::Exited
        } else {
            UserState::Syscalling
        },
        rip,
        rsp,
        rax: if code > SYSCALL_FRAME_BUFFER {
            1
        } else {
            0
        },
        exit_code: if code == SYSCALL_EXIT {
            Some(arg1)
        } else {
            t.exit_code
        },
    }
}

} // verus!
