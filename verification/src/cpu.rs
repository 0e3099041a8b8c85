//! The instruction engine: registers, memory, stack and program counter,
//! with one `tick` fetching, decoding and executing a single opcode
//! against the display, the timers, the keypad and the audio pattern
//! buffer.

use vstd::prelude::*;
use crate::display::Display;
use crate::keyboard::{Keyboard, VKey};
use crate::timer::Timer;

verus! {

/// Size of the byte-addressable memory: the full 16-bit address space the
/// extended-address opcode can reach.
pub const MEMSIZE: usize = 65536;

/// Where program code is loaded and where execution starts.
pub const PROGRAM_START: u16 = 0x200;

/// What stops the engine.  A decode error is fatal and identifies the
/// offending opcode and program counter; the load-time error rejects a
/// program that does not fit in memory.
#[derive(Clone, Copy, PartialEq, Eq, Structural, Debug)]
pub enum Chip8Error {
    /// No rule matches the fetched 16-bit word.
    UnknownOpcode { opcode: u16, pc: u16 },
    /// A block transfer would run past the end of memory.
    MemoryRange { opcode: u16, pc: u16 },
    /// A call would push past the 16-entry stack.
    StackOverflow { pc: u16 },
    /// A return with an empty call stack.
    StackUnderflow { pc: u16 },
    /// A register range with its end before its start, or one that runs
    /// past the registers a transfer can reach.
    RegisterRange { opcode: u16, pc: u16 },
    /// A key index beyond the 16-key keypad.
    KeyRange { opcode: u16, pc: u16 },
    /// A program longer than the memory above the load address.
    RomTooLarge { size: usize },
}

/// Facts about 16-bit field extraction and byte assembly.
pub proof fn lemma_instr_fields()
    by (bit_vector)
    ensures
        forall|i: u16| #[trigger] ((i >> 12u16) & 0xF) < 16,
        forall|i: u16| #[trigger] ((i >> 8u16) & 0xF) < 16,
        forall|i: u16| #[trigger] ((i >> 4u16) & 0xF) < 16,
        forall|i: u16| #[trigger] (i & 0xF) < 16,
        forall|i: u16| #[trigger] (i & 0xFF) < 256,
        forall|i: u16| #[trigger] (i & 0xFFF) < 4096,
{
}

/// Assembling two bytes big-endian equals the arithmetic combination.
pub proof fn lemma_byte_word()
    by (bit_vector)
    ensures
        forall|a: u8, b: u8| #[trigger] (((a as u16) << 8u16) | (b as u16)) == (a as u16) * 256 + (
        b as u16),
{
}

/// A right shift by one halves the byte.
pub proof fn lemma_shr_one()
    by (bit_vector)
    ensures
        forall|a: u8| #[trigger] (a >> 1u8) == a / 2,
{
}

/// The low bit of a byte is its parity.
pub proof fn lemma_low_bit()
    by (bit_vector)
    ensures
        forall|a: u8| #[trigger] (a & 1) == a % 2,
{
}

/// A left shift by one doubles the byte modulo 256.
pub proof fn lemma_shl_one()
    by (bit_vector)
    ensures
        forall|a: u8| #[trigger] (a << 1u8) == (2 * a) % 256,
{
}

/// The high bit of a byte, moved to the low position.
pub proof fn lemma_high_bit()
    by (bit_vector)
    ensures
        forall|a: u8| #[trigger] ((a >> 7u8) & 1) == a / 128,
{
}

/// The big-endian 16-bit word at `addr`, the second byte wrapping around
/// the top of memory.
pub open spec fn mem_word(mem: Seq<u8>, addr: u16) -> u16 {
    (mem[addr as int] * 256 + mem[(addr as int + 1) % 65536]) as u16
}

/// A program-counter step of two bytes, wrapping as a 16-bit counter.
pub open spec fn wrap2(pc: u16) -> u16 {
    ((pc + 2) % 0x10000) as u16
}

/// The program counter after a taken conditional skip at `pc`: past the
/// next instruction, which is four bytes long when it is the
/// extended-address load `F000` and two bytes otherwise.
pub open spec fn pc_after_skip(mem: Seq<u8>, pc: u16) -> u16 {
    if mem_word(mem, wrap2(pc)) == 0xF000 {
        wrap2(wrap2(wrap2(pc)))
    } else {
        wrap2(wrap2(pc))
    }
}

/// Reads the big-endian 16-bit word at `addr`.
pub fn read_memory(mem: &Vec<u8>, addr: u16) -> (r: u16)
    requires
        mem@.len() == MEMSIZE,
    ensures
        r == mem_word(mem@, addr),
{
    proof {
        lemma_byte_word();
    }
    (mem[addr as usize] as u16) << 8u16 | (mem[(addr as usize + 1) % MEMSIZE] as u16)
}

/// What one tick reports back: the executed opcode word, whether an
/// instruction actually ran (the wait-for-keypress opcode retries without
/// executing), and an audio arm event when the sound timer was set.
#[derive(Debug)]
pub struct TickOutcome {
    pub instr: u16,
    pub executed: bool,
    pub audio: Option<AudioArm>,
}

/// The event handed to the external synthesizer when the sound timer is
/// armed: the 16-byte 1-bit waveform and the playback duration.
#[derive(Debug)]
pub struct AudioArm {
    pub pattern: Vec<u8>,
    pub duration_micros: u64,
}

/// The virtual CPU and its tightly coupled peripherals.
#[derive(Debug)]
pub struct Cpu {
    pub display: Display,
    pub keyboard: Keyboard,
    pub sound_memory: Vec<u8>,
    pub dt: Timer,
    pub st: Timer,
    pub memory: Vec<u8>,
    pub v: Vec<u8>,
    pub pc: u16,
    pub sp: u8,
    pub stack: Vec<u16>,
    pub i: u16,
    pub clock_steps: u64,
    pub repl: Vec<u8>,
}

impl Cpu {
    /// The machine invariant: fixed-size storage, well-formed peripherals,
    /// the display in one of its two geometries, the stack pointer inside
    /// the 16-entry stack.
    pub open spec fn wf(&self) -> bool {
        &&& self.display.wf()
        &&& (self.display.height == 32 || self.display.height == 64)
        &&& (self.display.width == 64 || self.display.width == 128)
        &&& self.keyboard.wf()
        &&& self.dt.wf()
        &&& self.st.wf()
        &&& self.sound_memory@.len() == 16
        &&& self.memory@.len() == MEMSIZE
        &&& self.v@.len() == 16
        &&& self.stack@.len() == 16
        &&& self.repl@.len() == 8
        &&& self.sp < 16
    }

    /// A fresh machine at instant `now_micros` with `code` loaded at the
    /// program start address, fonts below it, and both timers running at
    /// 60 Hz scaled by `multi_milli` thousandths.  Rejects a program that
    /// does not fit above the load address.
    pub fn new(code: &[u8], multi_milli: u32, now_micros: u64) -> (r: Result<Cpu, Chip8Error>)
        requires
            multi_milli > 0,
        ensures
            r is Err <==> code@.len() > MEMSIZE - PROGRAM_START,
            r is Err ==> r->Err_0 == (Chip8Error::RomTooLarge { size: code@.len() as usize }),
            r is Ok ==> {
                let c = r->Ok_0;
                &&& c.wf()
                &&& c.pc == PROGRAM_START
                &&& c.sp == 0
                &&& c.i == 0
                &&& c.clock_steps == 0
                &&& forall|k: int| 0 <= k < 16 ==> c.v@[k] == 0u8
                &&& forall|k: int| 0 <= k < 16 ==> c.stack@[k] == 0u16
                &&& forall|k: int| 0 <= k < 16 ==> c.sound_memory@[k] == 0xAAu8
                &&& forall|k: int| 0 <= k < 80 ==> c.memory@[k] == crate::display::std_font()[k]
                &&& forall|k: int|
                    80 <= k < 180 ==> c.memory@[k] == crate::display::hires_font()[k - 80]
                &&& forall|k: int|
                    0 <= k < code@.len() ==> c.memory@[PROGRAM_START + k] == code@[k]
                &&& forall|k: int|
                    180 <= k < PROGRAM_START ==> c.memory@[k] == 0u8
                &&& forall|k: int|
                    PROGRAM_START + code@.len() <= k < MEMSIZE ==> c.memory@[k] == 0u8
                &&& c.display.width == 64 && c.display.height == 32
                &&& c.display.extended == false
                &&& c.display.active_planes == 1
                &&& c.dt.spec_reg_value() == 0 && c.st.spec_reg_value() == 0
                &&& c.dt.spec_freq_hz() == 60 && c.st.spec_freq_hz() == 60
                &&& c.dt.spec_multi_milli() == multi_milli
                &&& c.st.spec_multi_milli() == multi_milli
                &&& c.dt.spec_last_set_micros() == now_micros
                &&& c.st.spec_last_set_micros() == now_micros
                &&& forall|k: int| 0 <= k < 16 ==> c.keyboard.keys@[k] is Up
            },
    {
        if code.len() > MEMSIZE - PROGRAM_START as usize {
            return Err(Chip8Error::RomTooLarge { size: code.len() });
        }
        let display = Display::new(32, 64);
        let std_s: [u8; 80] = display.std_sprites();
        let hires_s: [u8; 100] = display.hires_sprites();

        let mut memory: Vec<u8> = Vec::new();
        let mut k: usize = 0;
        while k < MEMSIZE
            invariant
                k <= MEMSIZE,
                memory@.len() == k,
                forall|j: int| 0 <= j < k ==> memory@[j] == 0u8,
            decreases MEMSIZE - k,
        {
            memory.push(0u8);
            k += 1;
        }
        let mut k: usize = 0;
        while k < 80
            invariant
                k <= 80,
                memory@.len() == MEMSIZE,
                std_s@ == crate::display::std_font(),
                forall|j: int| 0 <= j < k ==> memory@[j] == std_s@[j],
                forall|j: int| k <= j < MEMSIZE ==> memory@[j] == 0u8,
            decreases 80 - k,
        {
            memory[k] = std_s[k];
            k += 1;
        }
        let mut k: usize = 0;
        while k < 100
            invariant
                k <= 100,
                memory@.len() == MEMSIZE,
                std_s@ == crate::display::std_font(),
                hires_s@ == crate::display::hires_font(),
                forall|j: int| 0 <= j < 80 ==> memory@[j] == std_s@[j],
                forall|j: int| 80 <= j < 80 + k ==> memory@[j] == hires_s@[j - 80],
                forall|j: int| 80 + k <= j < MEMSIZE ==> memory@[j] == 0u8,
            decreases 100 - k,
        {
            memory[80 + k] = hires_s[k];
            k += 1;
        }
        let code_len: usize = code.len();
        let mut k: usize = 0;
        while k < code_len
            invariant
                k <= code_len,
                code_len == code@.len(),
                code_len <= MEMSIZE - PROGRAM_START,
                memory@.len() == MEMSIZE,
                std_s@ == crate::display::std_font(),
                hires_s@ == crate::display::hires_font(),
                forall|j: int| 0 <= j < 80 ==> memory@[j] == std_s@[j],
                forall|j: int| 80 <= j < 180 ==> memory@[j] == hires_s@[j - 80],
                forall|j: int| 180 <= j < PROGRAM_START ==> memory@[j] == 0u8,
                forall|j: int| 0 <= j < k ==> memory@[PROGRAM_START + j] == code@[j],
                forall|j: int|
                    PROGRAM_START + k <= j < MEMSIZE ==> memory@[j] == 0u8,
            decreases code_len - k,
        {
            memory[PROGRAM_START as usize + k] = code[k];
            k += 1;
        }

        let mut v: Vec<u8> = Vec::new();
        let mut stack: Vec<u16> = Vec::new();
        let mut sound_memory: Vec<u8> = Vec::new();
        let mut k: usize = 0;
        while k < 16
            invariant
                k <= 16,
                v@.len() == k,
                stack@.len() == k,
                sound_memory@.len() == k,
                forall|j: int| 0 <= j < k ==> v@[j] == 0u8,
                forall|j: int| 0 <= j < k ==> stack@[j] == 0u16,
                forall|j: int| 0 <= j < k ==> sound_memory@[j] == 0xAAu8,
            decreases 16 - k,
        {
            v.push(0u8);
            stack.push(0u16);
            sound_memory.push(0xAAu8);
            k += 1;
        }
        let mut repl: Vec<u8> = Vec::new();
        let mut k: usize = 0;
        while k < 8
            invariant
                k <= 8,
                repl@.len() == k,
            decreases 8 - k,
        {
            repl.push(0u8);
            k += 1;
        }

        Ok(
            Cpu {
                display,
                keyboard: Keyboard::default(),
                sound_memory,
                dt: Timer::new(now_micros, 60, multi_milli),
                st: Timer::new(now_micros, 60, multi_milli),
                memory,
                v,
                pc: PROGRAM_START,
                sp: 0,
                stack,
                i: 0,
                clock_steps: 0,
                repl,
            },
        )
    }

    /// The opcode word the program counter points at.
    pub fn next_instruction(&self) -> (r: u16)
        requires
            self.wf(),
        ensures
            r == mem_word(self.memory@, self.pc),
    {
        read_memory(&self.memory, self.pc)
    }

    /// Advances the program counter past the next instruction: four bytes
    /// when that instruction is the extended-address load, two otherwise.
    pub fn skip_instruction(&mut self)
        requires
            old(self).wf(),
        ensures
            final(self).wf(),
            final(self).pc == pc_after_skip_once(old(self).memory@, old(self).pc),
            *final(self) == (Cpu { pc: final(self).pc, ..*old(self) }),
    {
        self.pc = ((self.pc as u32 + 2) % 0x10000) as u16;
        if self.next_instruction() == 0xF000 {
            self.pc = ((self.pc as u32 + 2) % 0x10000) as u16;
        }
    }
}

/// The program counter after skipping the instruction at `pc` itself:
/// four bytes for the extended-address load, two otherwise.
pub open spec fn pc_after_skip_once(mem: Seq<u8>, pc: u16) -> u16 {
    if mem_word(mem, wrap2(pc)) == 0xF000 {
        wrap2(wrap2(pc))
    } else {
        wrap2(pc)
    }
}


/// Opcode nibbles, most significant first.
pub open spec fn nib0(i: u16) -> u8 {
    ((i >> 12u16) & 0xF) as u8
}

pub open spec fn nib1(i: u16) -> u8 {
    ((i >> 8u16) & 0xF) as u8
}

pub open spec fn nib2(i: u16) -> u8 {
    ((i >> 4u16) & 0xF) as u8
}

pub open spec fn nib3(i: u16) -> u8 {
    (i & 0xF) as u8
}

/// The low byte and the low 12-bit address field of an opcode.
pub open spec fn op_kk(i: u16) -> u8 {
    (i & 0xFF) as u8
}

pub open spec fn op_nnn(i: u16) -> u16 {
    (i & 0xFFF) as u16
}

/// The fields a step never touches.
pub open spec fn frame_rest(pre: Cpu, post: Cpu) -> bool {
    &&& post.keyboard == pre.keyboard
    &&& post.sound_memory == pre.sound_memory
    &&& post.dt == pre.dt
    &&& post.st == pre.st
    &&& post.repl == pre.repl
}

/// A step that rewrites the registers and the program counter only.
pub open spec fn step_v_pc(pre: Cpu, post: Cpu, v2: Seq<u8>, pc2: u16) -> bool {
    &&& post.v@ == v2
    &&& post.pc == pc2
    &&& post.i == pre.i
    &&& post.sp == pre.sp
    &&& post.stack == pre.stack
    &&& post.memory == pre.memory
    &&& post.display == pre.display
    &&& frame_rest(pre, post)
}

/// A step that rewrites the index register and the program counter only.
pub open spec fn step_i_pc(pre: Cpu, post: Cpu, i2: u16, pc2: u16) -> bool {
    &&& post.v == pre.v
    &&& post.pc == pc2
    &&& post.i == i2
    &&& post.sp == pre.sp
    &&& post.stack == pre.stack
    &&& post.memory == pre.memory
    &&& post.display == pre.display
    &&& frame_rest(pre, post)
}

/// A step that moves the program counter only.
pub open spec fn step_pc(pre: Cpu, post: Cpu, pc2: u16) -> bool {
    step_v_pc(pre, post, pre.v@, pc2)
}

/// A step that rewrites memory and the program counter only; the new
/// memory contents are constrained at the call site.
pub open spec fn step_mem_frame(pre: Cpu, post: Cpu, pc2: u16) -> bool {
    &&& post.v == pre.v
    &&& post.pc == pc2
    &&& post.i == pre.i
    &&& post.sp == pre.sp
    &&& post.stack == pre.stack
    &&& post.memory@.len() == MEMSIZE
    &&& post.display == pre.display
    &&& frame_rest(pre, post)
}

/// A step that changes the display and the program counter only.
pub open spec fn step_display_frame(pre: Cpu, post: Cpu, pc2: u16) -> bool {
    &&& post.v == pre.v
    &&& post.pc == pc2
    &&& post.i == pre.i
    &&& post.sp == pre.sp
    &&& post.stack == pre.stack
    &&& post.memory == pre.memory
    &&& frame_rest(pre, post)
}

/// A display step whose drawing surface changed and was flagged.
pub open spec fn display_step(pre: Cpu, post: Cpu) -> bool {
    &&& post.display.wf()
    &&& post.display.same_config(&pre.display)
    &&& post.display.spec_flagged(&pre.display)
}

/// The usual tick report: the opcode executed, no audio event.
pub open spec fn out_basic(out: TickOutcome, instr: u16) -> bool {
    &&& out.instr == instr
    &&& out.executed == true
    &&& out.audio is None
}

/// The fatal condition one instruction raises, or `None` when it can
/// execute: exactly the inputs on which the engine must stop.
pub open spec fn step_err(pre: Cpu, instr: u16) -> Option<Chip8Error> {
    let n0 = nib0(instr);
    let n1 = nib1(instr);
    let n2 = nib2(instr);
    let n3 = nib3(instr);
    let x = n1 as int;
    let y = n2 as int;
    let i = pre.i as int;
    let mask3 = pre.display.active_planes & 3 == 3;
    if n0 == 0 && n1 == 0 && n2 == 0xC {
        None
    } else if n0 == 0 && n1 == 0 && n2 == 0xD {
        None
    } else if n0 == 0 && n2 == 0xE && n3 == 0 {
        None
    } else if n0 == 0 && n2 == 0xE && n3 == 0xE {
        if pre.sp == 0 {
            Some(Chip8Error::StackUnderflow { pc: pre.pc })
        } else {
            None
        }
    } else if n0 == 0 && n1 == 0 && n2 == 0xF && (n3 == 0xB || n3 == 0xC || n3 == 0xD || n3 == 0xE
        || n3 == 0xF) {
        None
    } else if n0 == 1 {
        None
    } else if n0 == 2 {
        if pre.sp >= 15 {
            Some(Chip8Error::StackOverflow { pc: pre.pc })
        } else {
            None
        }
    } else if n0 == 3 || n0 == 4 {
        None
    } else if n0 == 5 && n3 == 0 {
        None
    } else if n0 == 5 && (n3 == 2 || n3 == 3) {
        if y < x {
            Some(Chip8Error::RegisterRange { opcode: instr, pc: pre.pc })
        } else if i + (y - x) + 1 > MEMSIZE {
            Some(Chip8Error::MemoryRange { opcode: instr, pc: pre.pc })
        } else {
            None
        }
    } else if n0 == 6 || n0 == 7 {
        None
    } else if n0 == 8 && (n3 == 0 || n3 == 1 || n3 == 2 || n3 == 3 || n3 == 4 || n3 == 5 || n3 == 6
        || n3 == 7 || n3 == 0xE) {
        None
    } else if n0 == 9 {
        None
    } else if n0 == 0xA || n0 == 0xB || n0 == 0xC {
        None
    } else if n0 == 0xD {
        let len = if n3 == 0 {
            if mask3 {
                64int
            } else {
                32int
            }
        } else {
            if mask3 {
                2 * n3 as int
            } else {
                n3 as int
            }
        };
        if i + len > MEMSIZE {
            Some(Chip8Error::MemoryRange { opcode: instr, pc: pre.pc })
        } else {
            None
        }
    } else if n0 == 0xE && n2 == 9 && n3 == 0xE {
        if pre.v@[x] >= 16 {
            Some(Chip8Error::KeyRange { opcode: instr, pc: pre.pc })
        } else {
            None
        }
    } else if n0 == 0xE && n2 == 0xA && n3 == 1 {
        if pre.v@[x] >= 16 {
            Some(Chip8Error::KeyRange { opcode: instr, pc: pre.pc })
        } else {
            None
        }
    } else if n0 == 0xF && n1 == 0 && n2 == 0 && n3 == 0 {
        None
    } else if n0 == 0xF && n2 == 0 && n3 == 1 {
        None
    } else if n0 == 0xF && n1 == 0 && n2 == 0 && n3 == 2 {
        if i + 16 > MEMSIZE {
            Some(Chip8Error::MemoryRange { opcode: instr, pc: pre.pc })
        } else {
            None
        }
    } else if n0 == 0xF && n2 == 0 && (n3 == 7 || n3 == 0xA) {
        None
    } else if n0 == 0xF && n2 == 1 && (n3 == 5 || n3 == 8 || n3 == 0xE) {
        None
    } else if n0 == 0xF && n2 == 2 && n3 == 9 {
        None
    } else if n0 == 0xF && n2 == 3 && n3 == 0 {
        None
    } else if n0 == 0xF && n2 == 3 && n3 == 3 {
        if i + 3 > MEMSIZE {
            Some(Chip8Error::MemoryRange { opcode: instr, pc: pre.pc })
        } else {
            None
        }
    } else if n0 == 0xF && n2 == 5 && n3 == 5 {
        if i + x + 1 > MEMSIZE {
            Some(Chip8Error::MemoryRange { opcode: instr, pc: pre.pc })
        } else {
            None
        }
    } else if n0 == 0xF && n2 == 6 && n3 == 5 {
        if i + x + 1 > MEMSIZE {
            Some(Chip8Error::MemoryRange { opcode: instr, pc: pre.pc })
        } else {
            None
        }
    } else if n0 == 0xF && n2 == 7 && n3 == 5 {
        if x > 7 {
            Some(Chip8Error::RegisterRange { opcode: instr, pc: pre.pc })
        } else {
            None
        }
    } else if n0 == 0xF && n2 == 8 && n3 == 5 {
        None
    } else {
        Some(Chip8Error::UnknownOpcode { opcode: instr, pc: pre.pc })
    }
}

/// One executed instruction: how the machine after the step relates to
/// the machine before it, given the opcode word, the random byte the
/// random opcode consumed, and the clock reading.  This is the
/// instruction set's semantics, one case per opcode group.
pub open spec fn step_ok(pre: Cpu, post: Cpu, instr: u16, rnd: u8, now: u64, out: TickOutcome) -> bool {
    let n0 = nib0(instr);
    let n1 = nib1(instr);
    let n2 = nib2(instr);
    let n3 = nib3(instr);
    let x = n1 as int;
    let y = n2 as int;
    let kk = op_kk(instr);
    let nnn = op_nnn(instr);
    let vx = pre.v@[x];
    let vy = pre.v@[y];
    let i = pre.i as int;
    let pc2 = wrap2(pre.pc);
    let mask3 = pre.display.active_planes & 3 == 3;
    if n0 == 0 && n1 == 0 && n2 == 0xC {
        // 00CN: scroll the active planes N rows down
        &&& step_display_frame(pre, post, pc2)
        &&& display_step(pre, post)
        &&& crate::display::display_scrolled_down(&pre.display, &post.display, n3)
        &&& out_basic(out, instr)
    } else if n0 == 0 && n1 == 0 && n2 == 0xD {
        // 00DN: scroll the active planes N rows up
        &&& step_display_frame(pre, post, pc2)
        &&& display_step(pre, post)
        &&& crate::display::display_scrolled_up(&pre.display, &post.display, n3)
        &&& out_basic(out, instr)
    } else if n0 == 0 && n2 == 0xE && n3 == 0 {
        // 00E0: clear the active planes
        &&& step_display_frame(pre, post, pc2)
        &&& display_step(pre, post)
        &&& crate::display::display_cleared(&pre.display, &post.display)
        &&& out_basic(out, instr)
    } else if n0 == 0 && n2 == 0xE && n3 == 0xE {
        // 00EE: return; execution resumes after the call site
        &&& post.v == pre.v
        &&& post.pc == wrap2(pre.stack@[pre.sp as int])
        &&& post.i == pre.i
        &&& post.sp == pre.sp - 1
        &&& post.stack == pre.stack
        &&& post.memory == pre.memory
        &&& post.display == pre.display
        &&& frame_rest(pre, post)
        &&& out_basic(out, instr)
    } else if n0 == 0 && n1 == 0 && n2 == 0xF && n3 == 0xB {
        // 00FB: scroll the active planes 4 pixels right
        &&& step_display_frame(pre, post, pc2)
        &&& display_step(pre, post)
        &&& crate::display::display_scrolled_right(&pre.display, &post.display)
        &&& out_basic(out, instr)
    } else if n0 == 0 && n1 == 0 && n2 == 0xF && n3 == 0xC {
        // 00FC: scroll the active planes 4 pixels left
        &&& step_display_frame(pre, post, pc2)
        &&& display_step(pre, post)
        &&& crate::display::display_scrolled_left(&pre.display, &post.display)
        &&& out_basic(out, instr)
    } else if n0 == 0 && n1 == 0 && n2 == 0xF && n3 == 0xD {
        // 00FD: exit request; treated as a no-op that advances
        &&& step_pc(pre, post, pc2)
        &&& out_basic(out, instr)
    } else if n0 == 0 && n1 == 0 && n2 == 0xF && (n3 == 0xE || n3 == 0xF) {
        // 00FE / 00FF: leave or enter the extended screen mode
        &&& step_display_frame(pre, post, pc2)
        &&& crate::display::display_mode_set(&pre.display, &post.display, n3 == 0xF)
        &&& out_basic(out, instr)
    } else if n0 == 1 {
        // 1NNN: jump
        &&& step_pc(pre, post, nnn)
        &&& out_basic(out, instr)
    } else if n0 == 2 {
        // 2NNN: call; pushes the pre-increment program counter
        &&& post.v == pre.v
        &&& post.pc == nnn
        &&& post.i == pre.i
        &&& post.sp == pre.sp + 1
        &&& post.stack@ == pre.stack@.update(pre.sp as int + 1, pre.pc)
        &&& post.memory == pre.memory
        &&& post.display == pre.display
        &&& frame_rest(pre, post)
        &&& out_basic(out, instr)
    } else if n0 == 3 {
        // 3XKK: skip when VX == KK
        &&& step_pc(
            pre,
            post,
            if vx == kk {
                pc_after_skip(pre.memory@, pre.pc)
            } else {
                pc2
            },
        )
        &&& out_basic(out, instr)
    } else if n0 == 4 {
        // 4XKK: skip when VX != KK
        &&& step_pc(
            pre,
            post,
            if vx != kk {
                pc_after_skip(pre.memory@, pre.pc)
            } else {
                pc2
            },
        )
        &&& out_basic(out, instr)
    } else if n0 == 5 && n3 == 0 {
        // 5XY0: skip when VX == VY
        &&& step_pc(
            pre,
            post,
            if vx == vy {
                pc_after_skip(pre.memory@, pre.pc)
            } else {
                pc2
            },
        )
        &&& out_basic(out, instr)
    } else if n0 == 5 && n3 == 2 {
        // 5XY2: store registers X..=Y to memory at I
        &&& step_mem_frame(pre, post, pc2)
        &&& forall|j: int| i <= j <= i + (y - x) ==> post.memory@[j] == pre.v@[x + (j - i)]
        &&& forall|j: int|
            0 <= j < MEMSIZE && !(i <= j <= i + (y - x)) ==> post.memory@[j] == pre.memory@[j]
        &&& out_basic(out, instr)
    } else if n0 == 5 && n3 == 3 {
        // 5XY3: load registers X..=Y from memory at I
        &&& post.v@.len() == 16
        &&& forall|j: int| x <= j <= y ==> post.v@[j] == pre.memory@[i + (j - x)]
        &&& forall|j: int| 0 <= j < 16 && !(x <= j <= y) ==> post.v@[j] == pre.v@[j]
        &&& post.pc == pc2
        &&& post.i == pre.i
        &&& post.sp == pre.sp
        &&& post.stack == pre.stack
        &&& post.memory == pre.memory
        &&& post.display == pre.display
        &&& frame_rest(pre, post)
        &&& out_basic(out, instr)
    } else if n0 == 6 {
        // 6XKK: load immediate
        &&& step_v_pc(pre, post, pre.v@.update(x, kk), pc2)
        &&& out_basic(out, instr)
    } else if n0 == 7 {
        // 7XKK: add immediate, wrapping, no flag
        &&& step_v_pc(pre, post, pre.v@.update(x, ((vx + kk) % 256) as u8), pc2)
        &&& out_basic(out, instr)
    } else if n0 == 8 && n3 == 0 {
        &&& step_v_pc(pre, post, pre.v@.update(x, vy), pc2)
        &&& out_basic(out, instr)
    } else if n0 == 8 && n3 == 1 {
        &&& step_v_pc(pre, post, pre.v@.update(x, vx | vy), pc2)
        &&& out_basic(out, instr)
    } else if n0 == 8 && n3 == 2 {
        &&& step_v_pc(pre, post, pre.v@.update(x, vx & vy), pc2)
        &&& out_basic(out, instr)
    } else if n0 == 8 && n3 == 3 {
        &&& step_v_pc(pre, post, pre.v@.update(x, vx ^ vy), pc2)
        &&& out_basic(out, instr)
    } else if n0 == 8 && n3 == 4 {
        // 8XY4: add with carry flag; the flag write wins on register F
        &&& step_v_pc(
            pre,
            post,
            pre.v@.update(x, ((vx + vy) % 256) as u8).update(
                15,
                if vx + vy > 255 {
                    1u8
                } else {
                    0u8
                },
            ),
            pc2,
        )
        &&& out_basic(out, instr)
    } else if n0 == 8 && n3 == 5 {
        // 8XY5: subtract; flag 1 means no borrow
        &&& step_v_pc(
            pre,
            post,
            pre.v@.update(x, ((vx - vy) % 256) as u8).update(
                15,
                if vx >= vy {
                    1u8
                } else {
                    0u8
                },
            ),
            pc2,
        )
        &&& out_basic(out, instr)
    } else if n0 == 8 && n3 == 6 {
        // 8XY6: shift right out of VY into VX; flag takes the shifted bit
        &&& step_v_pc(
            pre,
            post,
            pre.v@.update(x, (vy / 2) as u8).update(15, (vy % 2) as u8),
            pc2,
        )
        &&& out_basic(out, instr)
    } else if n0 == 8 && n3 == 7 {
        // 8XY7: reversed subtract; flag 1 means no borrow
        &&& step_v_pc(
            pre,
            post,
            pre.v@.update(x, ((vy - vx) % 256) as u8).update(
                15,
                if vy >= vx {
                    1u8
                } else {
                    0u8
                },
            ),
            pc2,
        )
        &&& out_basic(out, instr)
    } else if n0 == 8 && n3 == 0xE {
        // 8XYE: shift left out of VY into VX; flag takes the shifted bit
        &&& step_v_pc(
            pre,
            post,
            pre.v@.update(15, (vy / 128) as u8).update(x, ((2 * vy) % 256) as u8),
            pc2,
        )
        &&& out_basic(out, instr)
    } else if n0 == 9 {
        // 9XY0: skip when VX != VY
        &&& step_pc(
            pre,
            post,
            if vx != vy {
                pc_after_skip(pre.memory@, pre.pc)
            } else {
                pc2
            },
        )
        &&& out_basic(out, instr)
    } else if n0 == 0xA {
        // ANNN: load the index register
        &&& step_i_pc(pre, post, nnn, pc2)
        &&& out_basic(out, instr)
    } else if n0 == 0xB {
        // BNNN: jump to NNN plus V0, whatever register the opcode names
        &&& step_pc(pre, post, (nnn + pre.v@[0]) as u16)
        &&& out_basic(out, instr)
    } else if n0 == 0xC {
        // CXKK: one random byte masked by KK
        &&& step_v_pc(pre, post, pre.v@.update(x, rnd & kk), pc2)
        &&& out_basic(out, instr)
    } else if n0 == 0xD {
        // DXYN: draw a sprite from memory at I; flag reports collisions
        let len = if n3 == 0 {
            if mask3 {
                64int
            } else {
                32int
            }
        } else {
            if mask3 {
                2 * n3 as int
            } else {
                n3 as int
            }
        };
        let sprite = pre.memory@.subrange(i, i + len);
        let c16 = post.v@[15] == 1;
        let csp = crate::display::display_sprite_collides(&pre.display, sprite, vx, vy);
        &&& post.v@.len() == 16
        &&& post.pc == pc2
        &&& post.i == pre.i
        &&& post.sp == pre.sp
        &&& post.stack == pre.stack
        &&& post.memory == pre.memory
        &&& frame_rest(pre, post)
        &&& display_step(pre, post)
        &&& (if n3 == 0 {
            crate::display::display_sprite16_applied(
                &pre.display,
                &post.display,
                sprite,
                vx,
                vy,
                c16,
            ) && post.v@ == pre.v@.update(
                15,
                if c16 {
                    1u8
                } else {
                    0u8
                },
            )
        } else {
            crate::display::display_sprite_applied(
                &pre.display,
                &post.display,
                sprite,
                vx,
                vy,
                csp,
            ) && post.v@ == pre.v@.update(
                15,
                if csp {
                    1u8
                } else {
                    0u8
                },
            )
        })
        &&& out_basic(out, instr)
    } else if n0 == 0xE && n2 == 9 && n3 == 0xE {
        // EX9E: skip when the key VX names is down
        &&& step_pc(
            pre,
            post,
            if pre.keyboard.keys@[vx as int] is Down {
                pc_after_skip(pre.memory@, pre.pc)
            } else {
                pc2
            },
        )
        &&& out_basic(out, instr)
    } else if n0 == 0xE && n2 == 0xA && n3 == 1 {
        // EXA1: skip when the key VX names is up
        &&& step_pc(
            pre,
            post,
            if pre.keyboard.keys@[vx as int] is Up {
                pc_after_skip(pre.memory@, pre.pc)
            } else {
                pc2
            },
        )
        &&& out_basic(out, instr)
    } else if n0 == 0xF && n1 == 0 && n2 == 0 && n3 == 0 {
        // F000 NNNN: four-byte load of a 16-bit address into I
        &&& step_i_pc(pre, post, mem_word(pre.memory@, wrap2(pre.pc)), wrap2(wrap2(pre.pc)))
        &&& out_basic(out, instr)
    } else if n0 == 0xF && n2 == 0 && n3 == 1 {
        // FN01: select the drawing planes
        &&& post.display == (Display { active_planes: n1, ..pre.display })
        &&& step_display_frame(pre, post, pc2)
        &&& out_basic(out, instr)
    } else if n0 == 0xF && n1 == 0 && n2 == 0 && n3 == 2 {
        // F002: load the audio pattern buffer from memory at I
        &&& post.sound_memory@.len() == 16
        &&& forall|k: int| 0 <= k < 16 ==> post.sound_memory@[k] == pre.memory@[i + k]

        &&& post.v == pre.v
        &&& post.pc == pc2
        &&& post.i == pre.i
        &&& post.sp == pre.sp
        &&& post.stack == pre.stack
        &&& post.memory == pre.memory
        &&& post.display == pre.display
        &&& post.keyboard == pre.keyboard
        &&& post.dt == pre.dt
        &&& post.st == pre.st
        &&& post.repl == pre.repl
        &&& out_basic(out, instr)
    } else if n0 == 0xF && n2 == 0 && n3 == 7 {
        // FX07: read the delay timer
        &&& step_v_pc(pre, post, pre.v@.update(x, pre.dt.value_at(now)), pc2)
        &&& out_basic(out, instr)
    } else if n0 == 0xF && n2 == 0 && n3 == 0xA {
        // FX0A: wait for a fresh key press; retries without executing
        let fd = crate::keyboard::first_down_key(pre.keyboard.keys@);
        let fresh = fd is Some && pre.keyboard.prev_keys@[fd->0] is Up;
        &&& post.keyboard.keys == pre.keyboard.keys
        &&& post.keyboard.prev_keys@ == pre.keyboard.keys@
        &&& (if fresh {
            post.v@ == pre.v@.update(x, fd->0 as u8) && post.pc == pc2
        } else {
            post.v == pre.v && post.pc == pre.pc
        })
        &&& post.i == pre.i
        &&& post.sp == pre.sp
        &&& post.stack == pre.stack
        &&& post.memory == pre.memory
        &&& post.display == pre.display
        &&& post.sound_memory == pre.sound_memory
        &&& post.dt == pre.dt
        &&& post.st == pre.st
        &&& post.repl == pre.repl
        &&& out.instr == instr
        &&& out.executed == fresh
        &&& out.audio is None
    } else if n0 == 0xF && n2 == 1 && n3 == 5 {
        // FX15: arm the delay timer
        &&& post.dt == (Timer { last_set_micros: now, reg_value: vx, ..pre.dt })
        &&& post.v == pre.v
        &&& post.pc == pc2
        &&& post.i == pre.i
        &&& post.sp == pre.sp
        &&& post.stack == pre.stack
        &&& post.memory == pre.memory
        &&& post.display == pre.display
        &&& post.keyboard == pre.keyboard
        &&& post.sound_memory == pre.sound_memory
        &&& post.st == pre.st
        &&& post.repl == pre.repl
        &&& out_basic(out, instr)
    } else if n0 == 0xF && n2 == 1 && n3 == 8 {
        // FX18: arm the sound timer; a nonzero value emits an audio event
        // carrying the pattern buffer and the playback duration
        &&& post.st == (Timer { last_set_micros: now, reg_value: vx, ..pre.st })
        &&& post.v == pre.v
        &&& post.pc == pc2
        &&& post.i == pre.i
        &&& post.sp == pre.sp
        &&& post.stack == pre.stack
        &&& post.memory == pre.memory
        &&& post.display == pre.display
        &&& post.keyboard == pre.keyboard
        &&& post.sound_memory == pre.sound_memory
        &&& post.dt == pre.dt
        &&& post.repl == pre.repl
        &&& out.instr == instr
        &&& out.executed == true
        &&& (if vx == 0 {
            out.audio is None
        } else {
            out.audio is Some && out.audio->0.pattern@ == pre.sound_memory@
                && out.audio->0.duration_micros == vx * 1_000_000 / (pre.st.spec_freq_hz() as int)
        })
    } else if n0 == 0xF && n2 == 1 && n3 == 0xE {
        // FX1E: add VX to I, wrapping as a 16-bit register
        &&& step_i_pc(pre, post, ((pre.i + vx) % 0x10000) as u16, pc2)
        &&& out_basic(out, instr)
    } else if n0 == 0xF && n2 == 2 && n3 == 9 {
        // FX29: point I at the 5-byte glyph for digit VX
        &&& step_i_pc(pre, post, (vx * 5) as u16, pc2)
        &&& out_basic(out, instr)
    } else if n0 == 0xF && n2 == 3 && n3 == 0 {
        // FX30: point I at the 10-byte high-resolution glyph for digit VX
        &&& step_i_pc(pre, post, (vx * 10 + 80) as u16, pc2)
        &&& out_basic(out, instr)
    } else if n0 == 0xF && n2 == 3 && n3 == 3 {
        // FX33: binary-coded decimal of VX at I
        &&& step_mem_frame(pre, post, pc2)
        &&& post.memory@[i] == vx / 100
        &&& post.memory@[i + 1] == (vx / 10) % 10
        &&& post.memory@[i + 2] == vx % 10
        &&& forall|j: int| 0 <= j < MEMSIZE && !(i <= j < i + 3) ==> post.memory@[j] == pre.memory@[j]
        &&& out_basic(out, instr)
    } else if n0 == 0xF && n2 == 5 && n3 == 5 {
        // FX55: store registers 0..=X to memory at I
        &&& step_mem_frame(pre, post, pc2)
        &&& forall|j: int| i <= j <= i + x ==> post.memory@[j] == pre.v@[j - i]
        &&& forall|j: int| 0 <= j < MEMSIZE && !(i <= j <= i + x) ==> post.memory@[j] == pre.memory@[j]
        &&& out_basic(out, instr)
    } else if n0 == 0xF && n2 == 6 && n3 == 5 {
        // FX65: load registers 0..=X from memory at I
        &&& post.v@.len() == 16
        &&& forall|k: int| 0 <= k <= x ==> post.v@[k] == pre.memory@[i + k]
        &&& forall|j: int| x < j < 16 ==> post.v@[j] == pre.v@[j]
        &&& post.pc == pc2
        &&& post.i == pre.i
        &&& post.sp == pre.sp
        &&& post.stack == pre.stack
        &&& post.memory == pre.memory
        &&& post.display == pre.display
        &&& frame_rest(pre, post)
        &&& out_basic(out, instr)
    } else if n0 == 0xF && n2 == 7 && n3 == 5 {
        // FX75: save registers 0..=X to the persistent register file
        &&& post.repl@.len() == 8
        &&& forall|k: int| 0 <= k <= x ==> post.repl@[k] == pre.v@[k]
        &&& forall|j: int| x < j < 8 ==> post.repl@[j] == pre.repl@[j]
        &&& post.v == pre.v
        &&& post.pc == pc2
        &&& post.i == pre.i
        &&& post.sp == pre.sp
        &&& post.stack == pre.stack
        &&& post.memory == pre.memory
        &&& post.display == pre.display
        &&& post.keyboard == pre.keyboard
        &&& post.sound_memory == pre.sound_memory
        &&& post.dt == pre.dt
        &&& post.st == pre.st
        &&& out_basic(out, instr)
    } else if n0 == 0xF && n2 == 8 && n3 == 5 {
        // FX85: restore registers 0..=X; reads the bottom of memory, as
        // the hardware this reproduces did
        &&& post.v@.len() == 16
        &&& forall|k: int| 0 <= k <= x ==> post.v@[k] == pre.memory@[k]
        &&& forall|j: int| x < j < 16 ==> post.v@[j] == pre.v@[j]
        &&& post.pc == pc2
        &&& post.i == pre.i
        &&& post.sp == pre.sp
        &&& post.stack == pre.stack
        &&& post.memory == pre.memory
        &&& post.display == pre.display
        &&& frame_rest(pre, post)
        &&& out_basic(out, instr)
    } else {
        false
    }
}


/// Relies on rand::random: one uniformly distributed random byte.
/// Nothing is promised of the value; callers state what holds of every
/// outcome.
#[verifier::external_body]
fn random_byte() -> u8 {
    rand::random::<u8>()
}

/// A copy of a 16-entry key vector.
fn copy_keys(src: &Vec<VKey>) -> (r: Vec<VKey>)
    requires
        src@.len() == 16,
    ensures
        r@ == src@,
{
    let mut r: Vec<VKey> = Vec::new();
    let mut k: usize = 0;
    while k < 16
        invariant
            src@.len() == 16,
            k <= 16,
            r@.len() == k,
            forall|j: int| 0 <= j < k ==> r@[j] == src@[j],
        decreases 16 - k,
    {
        r.push(src[k]);
        k += 1;
    }
    proof {
        assert(r@ =~= src@);
    }
    r
}

impl Cpu {
    /// Moves the program counter to the next two-byte slot.
    fn advance_pc(&mut self)
        requires
            old(self).wf(),
        ensures
            final(self).wf(),
            *final(self) == (Cpu { pc: wrap2(old(self).pc), ..*old(self) }),
    {
        self.pc = ((self.pc as u32 + 2) % 0x10000) as u16;
    }

    /// Executes one fetched and decoded instruction against the machine,
    /// with `rnd` the byte the random opcode consumes and `now_micros` the
    /// clock reading for the timers.  Fails exactly on the inputs
    /// `step_err` names, leaving the machine untouched.
    /// System opcodes in the 0x0 group: scrolls, clear, return, exit and
    /// the screen-mode switches.
    fn op_sys(&mut self, instr: u16, rnd: u8, now_micros: u64) -> (r: Result<
        TickOutcome,
        Chip8Error,
    >)
        requires
            old(self).wf(),
            now_micros >= old(self).dt.last_set_micros,
            now_micros >= old(self).st.last_set_micros,
            nib0(instr) == 0,
        ensures
            final(self).wf(),
            final(self).clock_steps == old(self).clock_steps,
            final(self).dt.last_set_micros <= now_micros,
            final(self).st.last_set_micros <= now_micros,
            match r {
                Ok(out) => step_err(*old(self), instr) is None && step_ok(
                    *old(self),
                    *final(self),
                    instr,
                    rnd,
                    now_micros,
                    out,
                ),
                Err(e) => step_err(*old(self), instr) == Some(e) && *final(self) == *old(self),
            },
    {
        proof {
            lemma_instr_fields();
        }
        let n1: u8 = ((instr >> 8u16) & 0xF) as u8;
        let n2: u8 = ((instr >> 4u16) & 0xF) as u8;
        let n3: u8 = (instr & 0xF) as u8;
        match (n1, n2, n3) {
            (0x0, 0xC, _) => {
                self.display.scroll_down(n3);
                self.advance_pc();
                Ok(TickOutcome { instr, executed: true, audio: None })
            },
            (0x0, 0xD, _) => {
                self.display.scroll_up(n3);
                self.advance_pc();
                Ok(TickOutcome { instr, executed: true, audio: None })
            },
            (_, 0xE, 0x0) => {
                self.display.clear();
                self.advance_pc();
                Ok(TickOutcome { instr, executed: true, audio: None })
            },
            (_, 0xE, 0xE) => {
                if self.sp == 0 {
                    return Err(Chip8Error::StackUnderflow { pc: self.pc });
                }
                self.pc = self.stack[self.sp as usize];
                self.sp = self.sp - 1;
                self.advance_pc();
                Ok(TickOutcome { instr, executed: true, audio: None })
            },
            (0x0, 0xF, 0xB) => {
                self.display.scroll_right();
                self.advance_pc();
                Ok(TickOutcome { instr, executed: true, audio: None })
            },
            (0x0, 0xF, 0xC) => {
                self.display.scroll_left();
                self.advance_pc();
                Ok(TickOutcome { instr, executed: true, audio: None })
            },
            (0x0, 0xF, 0xD) => {
                // exit request from the program: nothing to do here
                self.advance_pc();
                Ok(TickOutcome { instr, executed: true, audio: None })
            },
            (0x0, 0xF, 0xE) => {
                self.display.set_extended(false);
                self.advance_pc();
                Ok(TickOutcome { instr, executed: true, audio: None })
            },
            (0x0, 0xF, 0xF) => {
                self.display.set_extended(true);
                self.advance_pc();
                Ok(TickOutcome { instr, executed: true, audio: None })
            },
            _ => Err(Chip8Error::UnknownOpcode { opcode: instr, pc: self.pc }),
        }
    }

    /// Jumps and calls: 1NNN, 2NNN and the BNNN jump-with-offset quirk.
    fn op_flow(&mut self, instr: u16, rnd: u8, now_micros: u64) -> (r: Result<
        TickOutcome,
        Chip8Error,
    >)
        requires
            old(self).wf(),
            now_micros >= old(self).dt.last_set_micros,
            now_micros >= old(self).st.last_set_micros,
            nib0(instr) == 1 || nib0(instr) == 2 || nib0(instr) == 0xB,
        ensures
            final(self).wf(),
            final(self).clock_steps == old(self).clock_steps,
            final(self).dt.last_set_micros <= now_micros,
            final(self).st.last_set_micros <= now_micros,
            match r {
                Ok(out) => step_err(*old(self), instr) is None && step_ok(
                    *old(self),
                    *final(self),
                    instr,
                    rnd,
                    now_micros,
                    out,
                ),
                Err(e) => step_err(*old(self), instr) == Some(e) && *final(self) == *old(self),
            },
    {
        proof {
            lemma_instr_fields();
        }
        let n0: u8 = ((instr >> 12u16) & 0xF) as u8;
        let nnn: u16 = instr & 0xFFF;
        if n0 == 0x1 {
            self.pc = nnn;
        } else if n0 == 0x2 {
            if self.sp >= 15 {
                return Err(Chip8Error::StackOverflow { pc: self.pc });
            }
            self.sp = self.sp + 1;
            self.stack[self.sp as usize] = self.pc;
            self.pc = nnn;
        } else {
            // BNNN always adds V0, whatever register the opcode names
            self.pc = nnn + self.v[0] as u16;
        }
        Ok(TickOutcome { instr, executed: true, audio: None })
    }

    /// The immediate and register conditional skips: 3XKK, 4XKK, 5XY0
    /// and 9XY0.
    fn op_skip(&mut self, instr: u16, rnd: u8, now_micros: u64) -> (r: Result<
        TickOutcome,
        Chip8Error,
    >)
        requires
            old(self).wf(),
            now_micros >= old(self).dt.last_set_micros,
            now_micros >= old(self).st.last_set_micros,
            nib0(instr) == 3 || nib0(instr) == 4 || (nib0(instr) == 5 && nib3(instr) == 0) || nib0(instr) == 9,
        ensures
            final(self).wf(),
            final(self).clock_steps == old(self).clock_steps,
            final(self).dt.last_set_micros <= now_micros,
            final(self).st.last_set_micros <= now_micros,
            match r {
                Ok(out) => step_err(*old(self), instr) is None && step_ok(
                    *old(self),
                    *final(self),
                    instr,
                    rnd,
                    now_micros,
                    out,
                ),
                Err(e) => step_err(*old(self), instr) == Some(e) && *final(self) == *old(self),
            },
    {
        proof {
            lemma_instr_fields();
        }
        let n0: u8 = ((instr >> 12u16) & 0xF) as u8;
        let x: usize = (((instr >> 8u16) & 0xF) as u8) as usize;
        let y: usize = (((instr >> 4u16) & 0xF) as u8) as usize;
        let kk: u8 = (instr & 0xFF) as u8;
        let take: bool = if n0 == 0x3 {
            self.v[x] == kk
        } else if n0 == 0x4 {
            self.v[x] != kk
        } else if n0 == 0x5 {
            self.v[x] == self.v[y]
        } else {
            self.v[x] != self.v[y]
        };
        if take {
            self.skip_instruction();
        }
        self.advance_pc();
        Ok(TickOutcome { instr, executed: true, audio: None })
    }

    /// The 5XY2 and 5XY3 block transfers between a register range and
    /// memory at I.
    fn op_five(&mut self, instr: u16, rnd: u8, now_micros: u64) -> (r: Result<
        TickOutcome,
        Chip8Error,
    >)
        requires
            old(self).wf(),
            now_micros >= old(self).dt.last_set_micros,
            now_micros >= old(self).st.last_set_micros,
            nib0(instr) == 5,
            nib3(instr) == 2 || nib3(instr) == 3,
        ensures
            final(self).wf(),
            final(self).clock_steps == old(self).clock_steps,
            final(self).dt.last_set_micros <= now_micros,
            final(self).st.last_set_micros <= now_micros,
            match r {
                Ok(out) => step_err(*old(self), instr) is None && step_ok(
                    *old(self),
                    *final(self),
                    instr,
                    rnd,
                    now_micros,
                    out,
                ),
                Err(e) => step_err(*old(self), instr) == Some(e) && *final(self) == *old(self),
            },
    {
        proof {
            lemma_instr_fields();
        }
        let n3: u8 = (instr & 0xF) as u8;
        let x: usize = (((instr >> 8u16) & 0xF) as u8) as usize;
        let y: usize = (((instr >> 4u16) & 0xF) as u8) as usize;
        if y < x {
            return Err(Chip8Error::RegisterRange { opcode: instr, pc: self.pc });
        }
        let range: usize = y - x;
        if self.i as usize + range + 1 > MEMSIZE {
            return Err(Chip8Error::MemoryRange { opcode: instr, pc: self.pc });
        }
        let base: usize = self.i as usize;
        if n3 == 2 {
            let mut k: usize = 0;
            while k <= range
                invariant
                    self.wf(),
                    *self == (Cpu { memory: self.memory, ..*old(self) }),
                    k <= range + 1,
                    range == y - x,
                    x < 16,
                    y < 16,
                    base == old(self).i as usize,
                    base + range + 1 <= MEMSIZE,
                    forall|j: int|
                        base <= j < base + k ==> self.memory@[j] == old(self).v@[x + (j - base)],
                    forall|j: int|
                        0 <= j < MEMSIZE && !(base <= j < base + k) ==> self.memory@[j] == old(
                            self,
                        ).memory@[j],
                decreases range + 1 - k,
            {
                let val: u8 = self.v[x + k];
                self.memory[base + k] = val;
                k += 1;
            }
        } else {
            let mut k: usize = 0;
            while k <= range
                invariant
                    self.wf(),
                    *self == (Cpu { v: self.v, ..*old(self) }),
                    k <= range + 1,
                    range == y - x,
                    x < 16,
                    y < 16,
                    base == old(self).i as usize,
                    base + range + 1 <= MEMSIZE,
                    forall|j: int| x <= j < x + k ==> self.v@[j] == old(self).memory@[base + (j - x)],
                    forall|j: int| 0 <= j < 16 && !(x <= j < x + k) ==> self.v@[j] == old(self).v@[j],
                decreases range + 1 - k,
            {
                let val: u8 = self.memory[base + k];
                self.v[x + k] = val;
                k += 1;
            }
        }
        self.advance_pc();
        Ok(TickOutcome { instr, executed: true, audio: None })
    }

    /// The immediate loads: 6XKK and the no-flag add 7XKK.
    fn op_imm(&mut self, instr: u16, rnd: u8, now_micros: u64) -> (r: Result<
        TickOutcome,
        Chip8Error,
    >)
        requires
            old(self).wf(),
            now_micros >= old(self).dt.last_set_micros,
            now_micros >= old(self).st.last_set_micros,
            nib0(instr) == 6 || nib0(instr) == 7,
        ensures
            final(self).wf(),
            final(self).clock_steps == old(self).clock_steps,
            final(self).dt.last_set_micros <= now_micros,
            final(self).st.last_set_micros <= now_micros,
            match r {
                Ok(out) => step_err(*old(self), instr) is None && step_ok(
                    *old(self),
                    *final(self),
                    instr,
                    rnd,
                    now_micros,
                    out,
                ),
                Err(e) => step_err(*old(self), instr) == Some(e) && *final(self) == *old(self),
            },
    {
        proof {
            lemma_instr_fields();
        }
        let n0: u8 = ((instr >> 12u16) & 0xF) as u8;
        let x: usize = (((instr >> 8u16) & 0xF) as u8) as usize;
        let kk: u8 = (instr & 0xFF) as u8;
        if n0 == 0x6 {
            self.v[x] = kk;
        } else {
            let tmp: u16 = self.v[x] as u16 + kk as u16;
            self.v[x] = (tmp % 256) as u8;
        }
        self.advance_pc();
        Ok(TickOutcome { instr, executed: true, audio: None })
    }

    /// The register-to-register arithmetic and shift group 8XY0..8XYE.
    fn op_alu(&mut self, instr: u16, rnd: u8, now_micros: u64) -> (r: Result<
        TickOutcome,
        Chip8Error,
    >)
        requires
            old(self).wf(),
            now_micros >= old(self).dt.last_set_micros,
            now_micros >= old(self).st.last_set_micros,
            nib0(instr) == 8,
        ensures
            final(self).wf(),
            final(self).clock_steps == old(self).clock_steps,
            final(self).dt.last_set_micros <= now_micros,
            final(self).st.last_set_micros <= now_micros,
            match r {
                Ok(out) => step_err(*old(self), instr) is None && step_ok(
                    *old(self),
                    *final(self),
                    instr,
                    rnd,
                    now_micros,
                    out,
                ),
                Err(e) => step_err(*old(self), instr) == Some(e) && *final(self) == *old(self),
            },
    {
        proof {
            lemma_instr_fields();
        }
        let n3: u8 = (instr & 0xF) as u8;
        let x: usize = (((instr >> 8u16) & 0xF) as u8) as usize;
        let y: usize = (((instr >> 4u16) & 0xF) as u8) as usize;
        match n3 {
            0x0 => {
                let vy: u8 = self.v[y];
                self.v[x] = vy;
            },
            0x1 => {
                let r: u8 = self.v[x] | self.v[y];
                self.v[x] = r;
            },
            0x2 => {
                let r: u8 = self.v[x] & self.v[y];
                self.v[x] = r;
            },
            0x3 => {
                let r: u8 = self.v[x] ^ self.v[y];
                self.v[x] = r;
            },
            0x4 => {
                let sum: u16 = self.v[x] as u16 + self.v[y] as u16;
                let vf: u8 = if sum > 255 {
                    1
                } else {
                    0
                };
                self.v[x] = (sum % 256) as u8;
                self.v[15] = vf;
            },
            0x5 => {
                let vx: u8 = self.v[x];
                let vy: u8 = self.v[y];
                let vf: u8 = if vx >= vy {
                    1
                } else {
                    0
                };
                let res: u16 = (vx as u16 + 256 - vy as u16) % 256;
                proof {
                    vstd::arithmetic::div_mod::lemma_mod_multiples_vanish(1, vx - vy, 256);
                    if vx >= vy {
                        vstd::arithmetic::div_mod::lemma_small_mod((vx - vy) as nat, 256);
                    } else {
                        vstd::arithmetic::div_mod::lemma_small_mod((vx + 256 - vy) as nat, 256);
                    }
                }
                self.v[x] = res as u8;
                self.v[15] = vf;
            },
            0x6 => {
                let vy: u8 = self.v[y];
                let vf: u8 = vy & 1;
                proof {
                    lemma_shr_one();
                    lemma_low_bit();
                }
                self.v[x] = vy >> 1u8;
                self.v[15] = vf;
            },
            0x7 => {
                let vx: u8 = self.v[x];
                let vy: u8 = self.v[y];
                let vf: u8 = if vy >= vx {
                    1
                } else {
                    0
                };
                let res: u16 = (vy as u16 + 256 - vx as u16) % 256;
                proof {
                    vstd::arithmetic::div_mod::lemma_mod_multiples_vanish(1, vy - vx, 256);
                    if vy >= vx {
                        vstd::arithmetic::div_mod::lemma_small_mod((vy - vx) as nat, 256);
                    } else {
                        vstd::arithmetic::div_mod::lemma_small_mod((vy + 256 - vx) as nat, 256);
                    }
                }
                self.v[x] = res as u8;
                self.v[15] = vf;
            },
            0xE => {
                let vy: u8 = self.v[y];
                proof {
                    lemma_shl_one();
                    lemma_high_bit();
                }
                self.v[15] = (vy >> 7u8) & 1;
                self.v[x] = vy << 1u8;
            },
            _ => {
                return Err(Chip8Error::UnknownOpcode { opcode: instr, pc: self.pc });
            },
        }
        self.advance_pc();
        Ok(TickOutcome { instr, executed: true, audio: None })
    }

    /// The index load ANNN and the masked random byte CXKK.
    fn op_misc(&mut self, instr: u16, rnd: u8, now_micros: u64) -> (r: Result<
        TickOutcome,
        Chip8Error,
    >)
        requires
            old(self).wf(),
            now_micros >= old(self).dt.last_set_micros,
            now_micros >= old(self).st.last_set_micros,
            nib0(instr) == 0xA || nib0(instr) == 0xC,
        ensures
            final(self).wf(),
            final(self).clock_steps == old(self).clock_steps,
            final(self).dt.last_set_micros <= now_micros,
            final(self).st.last_set_micros <= now_micros,
            match r {
                Ok(out) => step_err(*old(self), instr) is None && step_ok(
                    *old(self),
                    *final(self),
                    instr,
                    rnd,
                    now_micros,
                    out,
                ),
                Err(e) => step_err(*old(self), instr) == Some(e) && *final(self) == *old(self),
            },
    {
        proof {
            lemma_instr_fields();
        }
        let n0: u8 = ((instr >> 12u16) & 0xF) as u8;
        let x: usize = (((instr >> 8u16) & 0xF) as u8) as usize;
        let kk: u8 = (instr & 0xFF) as u8;
        let nnn: u16 = instr & 0xFFF;
        if n0 == 0xA {
            self.i = nnn;
        } else {
            self.v[x] = rnd & kk;
        }
        self.advance_pc();
        Ok(TickOutcome { instr, executed: true, audio: None })
    }

    /// The sprite draw DXYN, including the 16 x 16 form when N is zero.
    fn op_draw(&mut self, instr: u16, rnd: u8, now_micros: u64) -> (r: Result<
        TickOutcome,
        Chip8Error,
    >)
        requires
            old(self).wf(),
            now_micros >= old(self).dt.last_set_micros,
            now_micros >= old(self).st.last_set_micros,
            nib0(instr) == 0xD,
        ensures
            final(self).wf(),
            final(self).clock_steps == old(self).clock_steps,
            final(self).dt.last_set_micros <= now_micros,
            final(self).st.last_set_micros <= now_micros,
            match r {
                Ok(out) => step_err(*old(self), instr) is None && step_ok(
                    *old(self),
                    *final(self),
                    instr,
                    rnd,
                    now_micros,
                    out,
                ),
                Err(e) => step_err(*old(self), instr) == Some(e) && *final(self) == *old(self),
            },
    {
        proof {
            lemma_instr_fields();
        }
        let n3: u8 = (instr & 0xF) as u8;
        let x: usize = (((instr >> 8u16) & 0xF) as u8) as usize;
        let y: usize = (((instr >> 4u16) & 0xF) as u8) as usize;
        let start: usize = self.i as usize;
        let mask3: bool = self.display.active_planes & 3 == 3;
        let len: usize = if n3 == 0 {
            if mask3 {
                64
            } else {
                32
            }
        } else {
            if mask3 {
                2 * n3 as usize
            } else {
                n3 as usize
            }
        };
        if start + len > MEMSIZE {
            return Err(Chip8Error::MemoryRange { opcode: instr, pc: self.pc });
        }
        let vx: u8 = self.v[x];
        let vy: u8 = self.v[y];
        let sprite: &[u8] = vstd::slice::slice_subrange(self.memory.as_slice(), start, start + len);
        let collision: bool = if n3 == 0 {
            self.display.write_sprite16(sprite, vx, vy)
        } else {
            self.display.write_sprite(sprite, vx, vy)
        };
        self.v[15] = if collision {
            1
        } else {
            0
        };
        self.advance_pc();
        Ok(TickOutcome { instr, executed: true, audio: None })
    }

    /// The key-state skips EX9E and EXA1.
    fn op_key(&mut self, instr: u16, rnd: u8, now_micros: u64) -> (r: Result<
        TickOutcome,
        Chip8Error,
    >)
        requires
            old(self).wf(),
            now_micros >= old(self).dt.last_set_micros,
            now_micros >= old(self).st.last_set_micros,
            nib0(instr) == 0xE,
        ensures
            final(self).wf(),
            final(self).clock_steps == old(self).clock_steps,
            final(self).dt.last_set_micros <= now_micros,
            final(self).st.last_set_micros <= now_micros,
            match r {
                Ok(out) => step_err(*old(self), instr) is None && step_ok(
                    *old(self),
                    *final(self),
                    instr,
                    rnd,
                    now_micros,
                    out,
                ),
                Err(e) => step_err(*old(self), instr) == Some(e) && *final(self) == *old(self),
            },
    {
        proof {
            lemma_instr_fields();
        }
        let n2: u8 = ((instr >> 4u16) & 0xF) as u8;
        let n3: u8 = (instr & 0xF) as u8;
        let x: usize = (((instr >> 8u16) & 0xF) as u8) as usize;
        if n2 == 0x9 && n3 == 0xE {
            let vx: u8 = self.v[x];
            if vx >= 16 {
                return Err(Chip8Error::KeyRange { opcode: instr, pc: self.pc });
            }
            if matches!(self.keyboard.keys[vx as usize], VKey::Down) {
                self.skip_instruction();
            }
            self.advance_pc();
            Ok(TickOutcome { instr, executed: true, audio: None })
        } else if n2 == 0xA && n3 == 0x1 {
            let vx: u8 = self.v[x];
            if vx >= 16 {
                return Err(Chip8Error::KeyRange { opcode: instr, pc: self.pc });
            }
            if matches!(self.keyboard.keys[vx as usize], VKey::Up) {
                self.skip_instruction();
            }
            self.advance_pc();
            Ok(TickOutcome { instr, executed: true, audio: None })
        } else {
            Err(Chip8Error::UnknownOpcode { opcode: instr, pc: self.pc })
        }
    }

    /// The 0xF opcodes with low nibble group 0: the extended-address
    /// load, plane select, pattern-buffer load, delay-timer read and the
    /// wait for a fresh key press.
    fn op_f0(&mut self, instr: u16, rnd: u8, now_micros: u64) -> (r: Result<
        TickOutcome,
        Chip8Error,
    >)
        requires
            old(self).wf(),
            now_micros >= old(self).dt.last_set_micros,
            now_micros >= old(self).st.last_set_micros,
            nib0(instr) == 0xF,
            nib2(instr) == 0,
        ensures
            final(self).wf(),
            final(self).clock_steps == old(self).clock_steps,
            final(self).dt.last_set_micros <= now_micros,
            final(self).st.last_set_micros <= now_micros,
            match r {
                Ok(out) => step_err(*old(self), instr) is None && step_ok(
                    *old(self),
                    *final(self),
                    instr,
                    rnd,
                    now_micros,
                    out,
                ),
                Err(e) => step_err(*old(self), instr) == Some(e) && *final(self) == *old(self),
            },
    {
        proof {
            lemma_instr_fields();
        }
        let n1: u8 = ((instr >> 8u16) & 0xF) as u8;
        let n3: u8 = (instr & 0xF) as u8;
        let x: usize = n1 as usize;
        if n1 == 0 && n3 == 0x0 {
            self.pc = ((self.pc as u32 + 2) % 0x10000) as u16;
            self.i = self.next_instruction();
            self.advance_pc();
            Ok(TickOutcome { instr, executed: true, audio: None })
        } else if n3 == 0x1 {
            self.display.active_planes = n1;
            self.advance_pc();
            Ok(TickOutcome { instr, executed: true, audio: None })
        } else if n1 == 0 && n3 == 0x2 {
            if self.i as usize + 16 > MEMSIZE {
                return Err(Chip8Error::MemoryRange { opcode: instr, pc: self.pc });
            }
            let base: usize = self.i as usize;
            let mut k: usize = 0;
            while k < 16
                invariant
                    self.wf(),
                    *self == (Cpu { sound_memory: self.sound_memory, ..*old(self) }),
                    k <= 16,
                    base == old(self).i as usize,
                    base + 16 <= MEMSIZE,
                    forall|j: int|
                        0 <= j < k ==> self.sound_memory@[j] == old(self).memory@[base + j],
                    forall|j: int|
                        k <= j < 16 ==> self.sound_memory@[j] == old(self).sound_memory@[j],
                decreases 16 - k,
            {
                let val: u8 = self.memory[base + k];
                self.sound_memory[k] = val;
                k += 1;
            }
            self.advance_pc();
            Ok(TickOutcome { instr, executed: true, audio: None })
        } else if n3 == 0x7 {
            let val: u8 = self.dt.get_reg(now_micros);
            self.v[x] = val;
            self.advance_pc();
            Ok(TickOutcome { instr, executed: true, audio: None })
        } else if n3 == 0xA {
            let pressed: Option<u8> = self.keyboard.first_down();
            let mut key_change: bool = false;
            if let Some(pk) = pressed {
                if matches!(self.keyboard.prev_keys[pk as usize], VKey::Up) {
                    self.v[x] = pk;
                    key_change = true;
                }
            }
            let snapshot: Vec<VKey> = copy_keys(&self.keyboard.keys);
            self.keyboard.prev_keys = snapshot;
            if key_change {
                self.advance_pc();
            }
            Ok(TickOutcome { instr, executed: key_change, audio: None })
        } else {
            Err(Chip8Error::UnknownOpcode { opcode: instr, pc: self.pc })
        }
    }

    /// The 0xF opcodes with low nibble group 1: the timer arms and the
    /// index add.
    fn op_f1(&mut self, instr: u16, rnd: u8, now_micros: u64) -> (r: Result<
        TickOutcome,
        Chip8Error,
    >)
        requires
            old(self).wf(),
            now_micros >= old(self).dt.last_set_micros,
            now_micros >= old(self).st.last_set_micros,
            nib0(instr) == 0xF,
            nib2(instr) == 1,
        ensures
            final(self).wf(),
            final(self).clock_steps == old(self).clock_steps,
            final(self).dt.last_set_micros <= now_micros,
            final(self).st.last_set_micros <= now_micros,
            match r {
                Ok(out) => step_err(*old(self), instr) is None && step_ok(
                    *old(self),
                    *final(self),
                    instr,
                    rnd,
                    now_micros,
                    out,
                ),
                Err(e) => step_err(*old(self), instr) == Some(e) && *final(self) == *old(self),
            },
    {
        proof {
            lemma_instr_fields();
        }
        let n3: u8 = (instr & 0xF) as u8;
        let x: usize = (((instr >> 8u16) & 0xF) as u8) as usize;
        if n3 == 0x5 {
            let vx: u8 = self.v[x];
            self.dt.set_reg(now_micros, vx);
            proof {
                assert(self.dt == (Timer {
                    last_set_micros: now_micros,
                    reg_value: vx,
                    ..old(self).dt
                }));
            }
            self.advance_pc();
            Ok(TickOutcome { instr, executed: true, audio: None })
        } else if n3 == 0x8 {
            let vx: u8 = self.v[x];
            self.st.set_reg(now_micros, vx);
            proof {
                assert(self.st == (Timer {
                    last_set_micros: now_micros,
                    reg_value: vx,
                    ..old(self).st
                }));
            }
            let audio: Option<AudioArm> = match self.st.time_left() {
                Some(d) => {
                    let mut pattern: Vec<u8> = Vec::new();
                    let mut k: usize = 0;
                    while k < 16
                        invariant
                            self.sound_memory@.len() == 16,
                            k <= 16,
                            pattern@.len() == k,
                            forall|j: int| 0 <= j < k ==> pattern@[j] == self.sound_memory@[j],
                        decreases 16 - k,
                    {
                        pattern.push(self.sound_memory[k]);
                        k += 1;
                    }
                    proof {
                        assert(pattern@ =~= self.sound_memory@);
                    }
                    Some(AudioArm { pattern, duration_micros: d })
                },
                None => None,
            };
            self.advance_pc();
            Ok(TickOutcome { instr, executed: true, audio })
        } else if n3 == 0xE {
            self.i = ((self.i as u32 + self.v[x] as u32) % 0x10000) as u16;
            self.advance_pc();
            Ok(TickOutcome { instr, executed: true, audio: None })
        } else {
            Err(Chip8Error::UnknownOpcode { opcode: instr, pc: self.pc })
        }
    }

    /// The 0xF glyph pointers FX29 and FX30 and the decimal store FX33.
    fn op_f_glyph(&mut self, instr: u16, rnd: u8, now_micros: u64) -> (r: Result<
        TickOutcome,
        Chip8Error,
    >)
        requires
            old(self).wf(),
            now_micros >= old(self).dt.last_set_micros,
            now_micros >= old(self).st.last_set_micros,
            nib0(instr) == 0xF,
            nib2(instr) == 2 || nib2(instr) == 3,
        ensures
            final(self).wf(),
            final(self).clock_steps == old(self).clock_steps,
            final(self).dt.last_set_micros <= now_micros,
            final(self).st.last_set_micros <= now_micros,
            match r {
                Ok(out) => step_err(*old(self), instr) is None && step_ok(
                    *old(self),
                    *final(self),
                    instr,
                    rnd,
                    now_micros,
                    out,
                ),
                Err(e) => step_err(*old(self), instr) == Some(e) && *final(self) == *old(self),
            },
    {
        proof {
            lemma_instr_fields();
        }
        let n2: u8 = ((instr >> 4u16) & 0xF) as u8;
        let n3: u8 = (instr & 0xF) as u8;
        let x: usize = (((instr >> 8u16) & 0xF) as u8) as usize;
        if n2 == 0x2 && n3 == 0x9 {
            self.i = self.v[x] as u16 * 5;
            self.advance_pc();
            Ok(TickOutcome { instr, executed: true, audio: None })
        } else if n2 == 0x3 && n3 == 0x0 {
            self.i = self.v[x] as u16 * 10 + 80;
            self.advance_pc();
            Ok(TickOutcome { instr, executed: true, audio: None })
        } else if n2 == 0x3 && n3 == 0x3 {
            if self.i as usize + 3 > MEMSIZE {
                return Err(Chip8Error::MemoryRange { opcode: instr, pc: self.pc });
            }
            let base: usize = self.i as usize;
            let vx: u8 = self.v[x];
            self.memory[base] = vx / 100;
            self.memory[base + 1] = (vx / 10) % 10;
            self.memory[base + 2] = vx % 10;
            self.advance_pc();
            Ok(TickOutcome { instr, executed: true, audio: None })
        } else {
            Err(Chip8Error::UnknownOpcode { opcode: instr, pc: self.pc })
        }
    }

    /// The 0xF register-file transfers: FX55, FX65, FX75 and FX85.
    fn op_f_block(&mut self, instr: u16, rnd: u8, now_micros: u64) -> (r: Result<
        TickOutcome,
        Chip8Error,
    >)
        requires
            old(self).wf(),
            now_micros >= old(self).dt.last_set_micros,
            now_micros >= old(self).st.last_set_micros,
            nib0(instr) == 0xF,
            nib2(instr) == 5 || nib2(instr) == 6 || nib2(instr) == 7 || nib2(instr) == 8,
        ensures
            final(self).wf(),
            final(self).clock_steps == old(self).clock_steps,
            final(self).dt.last_set_micros <= now_micros,
            final(self).st.last_set_micros <= now_micros,
            match r {
                Ok(out) => step_err(*old(self), instr) is None && step_ok(
                    *old(self),
                    *final(self),
                    instr,
                    rnd,
                    now_micros,
                    out,
                ),
                Err(e) => step_err(*old(self), instr) == Some(e) && *final(self) == *old(self),
            },
    {
        proof {
            lemma_instr_fields();
        }
        let n2: u8 = ((instr >> 4u16) & 0xF) as u8;
        let n3: u8 = (instr & 0xF) as u8;
        let x: usize = (((instr >> 8u16) & 0xF) as u8) as usize;
        if n2 == 0x5 && n3 == 0x5 {
            if self.i as usize + x + 1 > MEMSIZE {
                return Err(Chip8Error::MemoryRange { opcode: instr, pc: self.pc });
            }
            let base: usize = self.i as usize;
            let mut k: usize = 0;
            while k <= x
                invariant
                    self.wf(),
                    *self == (Cpu { memory: self.memory, ..*old(self) }),
                    k <= x + 1,
                    x < 16,
                    base == old(self).i as usize,
                    base + x + 1 <= MEMSIZE,
                    forall|j: int| base <= j < base + k ==> self.memory@[j] == old(self).v@[j - base],
                    forall|j: int|
                        0 <= j < MEMSIZE && !(base <= j < base + k) ==> self.memory@[j] == old(
                            self,
                        ).memory@[j],
                decreases x + 1 - k,
            {
                let val: u8 = self.v[k];
                self.memory[base + k] = val;
                k += 1;
            }
            self.advance_pc();
            Ok(TickOutcome { instr, executed: true, audio: None })
        } else if n2 == 0x6 && n3 == 0x5 {
            if self.i as usize + x + 1 > MEMSIZE {
                return Err(Chip8Error::MemoryRange { opcode: instr, pc: self.pc });
            }
            let base: usize = self.i as usize;
            let mut k: usize = 0;
            while k <= x
                invariant
                    self.wf(),
                    *self == (Cpu { v: self.v, ..*old(self) }),
                    k <= x + 1,
                    x < 16,
                    base == old(self).i as usize,
                    base + x + 1 <= MEMSIZE,
                    forall|j: int| 0 <= j < k ==> self.v@[j] == old(self).memory@[base + j],
                    forall|j: int| k <= j < 16 ==> self.v@[j] == old(self).v@[j],
                decreases x + 1 - k,
            {
                let val: u8 = self.memory[base + k];
                self.v[k] = val;
                k += 1;
            }
            self.advance_pc();
            Ok(TickOutcome { instr, executed: true, audio: None })
        } else if n2 == 0x7 && n3 == 0x5 {
            if x > 7 {
                return Err(Chip8Error::RegisterRange { opcode: instr, pc: self.pc });
            }
            let mut k: usize = 0;
            while k <= x
                invariant
                    self.wf(),
                    *self == (Cpu { repl: self.repl, ..*old(self) }),
                    k <= x + 1,
                    x < 8,
                    forall|j: int| 0 <= j < k ==> self.repl@[j] == old(self).v@[j],
                    forall|j: int| k <= j < 8 ==> self.repl@[j] == old(self).repl@[j],
                decreases x + 1 - k,
            {
                let val: u8 = self.v[k];
                self.repl[k] = val;
                k += 1;
            }
            self.advance_pc();
            Ok(TickOutcome { instr, executed: true, audio: None })
        } else if n2 == 0x8 && n3 == 0x5 {
            let mut k: usize = 0;
            while k <= x
                invariant
                    self.wf(),
                    *self == (Cpu { v: self.v, ..*old(self) }),
                    k <= x + 1,
                    x < 16,
                    forall|j: int| 0 <= j < k ==> self.v@[j] == old(self).memory@[j],
                    forall|j: int| k <= j < 16 ==> self.v@[j] == old(self).v@[j],
                decreases x + 1 - k,
            {
                let val: u8 = self.memory[k];
                self.v[k] = val;
                k += 1;
            }
            self.advance_pc();
            Ok(TickOutcome { instr, executed: true, audio: None })
        } else {
            Err(Chip8Error::UnknownOpcode { opcode: instr, pc: self.pc })
        }
    }

    /// Executes one fetched and decoded instruction against the machine,
    /// with `rnd` the byte the random opcode consumes and `now_micros` the
    /// clock reading for the timers.  Fails exactly on the inputs
    /// `step_err` names, leaving the machine untouched.
    fn process_instruction(&mut self, instr: u16, rnd: u8, now_micros: u64) -> (r: Result<
        TickOutcome,
        Chip8Error,
    >)
        requires
            old(self).wf(),
            now_micros >= old(self).dt.last_set_micros,
            now_micros >= old(self).st.last_set_micros,
        ensures
            final(self).wf(),
            final(self).clock_steps == old(self).clock_steps,
            final(self).dt.last_set_micros <= now_micros,
            final(self).st.last_set_micros <= now_micros,
            match r {
                Ok(out) => step_err(*old(self), instr) is None && step_ok(
                    *old(self),
                    *final(self),
                    instr,
                    rnd,
                    now_micros,
                    out,
                ),
                Err(e) => step_err(*old(self), instr) == Some(e) && *final(self) == *old(self),
            },
    {
        proof {
            lemma_instr_fields();
        }
        let n0: u8 = ((instr >> 12u16) & 0xF) as u8;
        let n2: u8 = ((instr >> 4u16) & 0xF) as u8;
        let n3: u8 = (instr & 0xF) as u8;
        if n0 == 0x0 {
            self.op_sys(instr, rnd, now_micros)
        } else if n0 == 0x1 || n0 == 0x2 || n0 == 0xB {
            self.op_flow(instr, rnd, now_micros)
        } else if n0 == 0x3 || n0 == 0x4 || (n0 == 0x5 && n3 == 0x0) || n0 == 0x9 {
            self.op_skip(instr, rnd, now_micros)
        } else if n0 == 0x5 && (n3 == 0x2 || n3 == 0x3) {
            self.op_five(instr, rnd, now_micros)
        } else if n0 == 0x5 {
            Err(Chip8Error::UnknownOpcode { opcode: instr, pc: self.pc })
        } else if n0 == 0x6 || n0 == 0x7 {
            self.op_imm(instr, rnd, now_micros)
        } else if n0 == 0x8 {
            self.op_alu(instr, rnd, now_micros)
        } else if n0 == 0xA || n0 == 0xC {
            self.op_misc(instr, rnd, now_micros)
        } else if n0 == 0xD {
            self.op_draw(instr, rnd, now_micros)
        } else if n0 == 0xE {
            self.op_key(instr, rnd, now_micros)
        } else if n0 == 0xF && n2 == 0x0 {
            self.op_f0(instr, rnd, now_micros)
        } else if n0 == 0xF && n2 == 0x1 {
            self.op_f1(instr, rnd, now_micros)
        } else if n0 == 0xF && (n2 == 0x2 || n2 == 0x3) {
            self.op_f_glyph(instr, rnd, now_micros)
        } else if n0 == 0xF && (n2 == 0x5 || n2 == 0x6 || n2 == 0x7 || n2 == 0x8) {
            self.op_f_block(instr, rnd, now_micros)
        } else {
            Err(Chip8Error::UnknownOpcode { opcode: instr, pc: self.pc })
        }
    }

    /// One engine tick: fetches the word at the program counter, executes
    /// it, and counts the step.  On a fatal decode error the machine is
    /// left untouched and the error identifies the opcode and the
    /// program counter.
    pub fn tick(&mut self, now_micros: u64) -> (r: Result<TickOutcome, Chip8Error>)
        requires
            old(self).wf(),
            now_micros >= old(self).dt.last_set_micros,
            now_micros >= old(self).st.last_set_micros,
        ensures
            final(self).wf(),
            final(self).dt.last_set_micros <= now_micros,
            final(self).st.last_set_micros <= now_micros,
            match r {
                Ok(out) => {
                    &&& out.instr == mem_word(old(self).memory@, old(self).pc)
                    &&& step_err(*old(self), out.instr) is None
                    &&& (exists|rnd: u8|
                        step_ok(*old(self), *final(self), out.instr, rnd, now_micros, out))
                    &&& final(self).clock_steps == old(self).clock_steps.saturating_add(1)
                },
                Err(e) => {
                    &&& step_err(*old(self), mem_word(old(self).memory@, old(self).pc)) == Some(e)
                    &&& *final(self) == *old(self)
                },
            },
    {
        let instr: u16 = self.next_instruction();
        let rnd: u8 = random_byte();
        let res = self.process_instruction(instr, rnd, now_micros);
        match res {
            Ok(out) => {
                self.clock_steps = self.clock_steps.saturating_add(1);
                proof {
                    assert(step_ok(*old(self), *self, instr, rnd, now_micros, out));
                }
                Ok(out)
            },
            Err(e) => Err(e),
        }
    }
}


/// Whether an opcode is one of the conditional skips.
pub open spec fn is_skip_opcode(instr: u16) -> bool {
    ||| nib0(instr) == 3
    ||| nib0(instr) == 4
    ||| (nib0(instr) == 5 && nib3(instr) == 0)
    ||| nib0(instr) == 9
    ||| (nib0(instr) == 0xE && nib2(instr) == 9 && nib3(instr) == 0xE)
    ||| (nib0(instr) == 0xE && nib2(instr) == 0xA && nib3(instr) == 1)
}

/// Every conditional skip advances the program counter by two bytes when
/// not taken and by four when taken, except that a taken skip over the
/// four-byte extended-address load advances it by six; a six-byte advance
/// happens only over that load.
pub proof fn lemma_skip_advance(
    pre: Cpu,
    post: Cpu,
    instr: u16,
    rnd: u8,
    now: u64,
    out: TickOutcome,
)
    requires
        pre.wf(),
        is_skip_opcode(instr),
        step_ok(pre, post, instr, rnd, now, out),
    ensures
        post.pc == wrap2(pre.pc) || post.pc == pc_after_skip(pre.memory@, pre.pc),
        mem_word(pre.memory@, wrap2(pre.pc)) != 0xF000 ==> post.pc == wrap2(pre.pc) || post.pc
            == wrap2(wrap2(pre.pc)),
        mem_word(pre.memory@, wrap2(pre.pc)) == 0xF000 ==> post.pc == wrap2(pre.pc) || post.pc
            == wrap2(wrap2(wrap2(pre.pc))),
{
    lemma_instr_fields();
}

/// The add opcode: the destination register receives the 8-bit wrapped
/// sum and the flag register reports the carry, 1 exactly when the true
/// sum exceeds 255.  When the destination is the flag register itself,
/// the flag write wins.
pub proof fn lemma_add_semantics(
    pre: Cpu,
    post: Cpu,
    instr: u16,
    rnd: u8,
    now: u64,
    out: TickOutcome,
)
    requires
        pre.wf(),
        nib0(instr) == 8,
        nib3(instr) == 4,
        step_ok(pre, post, instr, rnd, now, out),
    ensures
        nib1(instr) != 15 ==> post.v@[nib1(instr) as int] == (pre.v@[nib1(instr) as int]
            + pre.v@[nib2(instr) as int]) % 256,
        post.v@[15] == (if pre.v@[nib1(instr) as int] + pre.v@[nib2(instr) as int] > 255 {
            1u8
        } else {
            0u8
        }),
        forall|j: int|
            0 <= j < 16 && j != nib1(instr) && j != 15 ==> post.v@[j] == pre.v@[j],
{
    lemma_instr_fields();
}

/// The subtract opcode: the flag register is 1 exactly when no borrow
/// occurred (VX at least VY), and the destination receives the difference
/// wrapped modulo 256.  When the destination is the flag register itself,
/// the flag write wins.
pub proof fn lemma_sub_semantics(
    pre: Cpu,
    post: Cpu,
    instr: u16,
    rnd: u8,
    now: u64,
    out: TickOutcome,
)
    requires
        pre.wf(),
        nib0(instr) == 8,
        nib3(instr) == 5,
        step_ok(pre, post, instr, rnd, now, out),
    ensures
        nib1(instr) != 15 ==> post.v@[nib1(instr) as int] == (pre.v@[nib1(instr) as int]
            - pre.v@[nib2(instr) as int]) % 256,
        post.v@[15] == (if pre.v@[nib1(instr) as int] >= pre.v@[nib2(instr) as int] {
            1u8
        } else {
            0u8
        }),
        forall|j: int|
            0 <= j < 16 && j != nib1(instr) && j != 15 ==> post.v@[j] == pre.v@[j],
{
    lemma_instr_fields();
}

} // verus!
