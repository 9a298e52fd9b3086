//! The interpreter core: machine state, the binary opcode encoding, and
//! per-instruction semantics.
//!
//! The machine has 4096 bytes of memory, sixteen 8-bit registers (`VF`
//! doubles as the collision flag), a 12-bit-significant address register
//! `I`, a program counter that starts at 0x200, a call stack of return
//! addresses, and a 64x32 monochrome framebuffer. An external driver loads
//! a program image, then calls `run` once per tick; each call fetches,
//! decodes and executes exactly one instruction. The whole observable
//! effect of a step is pinned down by the transition relation `step_rel`.

use vstd::prelude::*;

use crate::display::{
    all_clear, cells_ok, sprite_erases, sprite_painted, Display,
};

verus! {

/// Why a call failed. All of these end the run: the machine gives no
/// defined way to continue after them.
#[derive(Clone, Copy, Debug, PartialEq, Eq, Structural)]
pub enum Chip8Error {
    /// The fetched opcode matches no implemented instruction; carries the
    /// raw 16-bit word.
    UnsupportedOpcode(u16),
    /// `RET` was executed with an empty call stack.
    StackUnderflow,
    /// A program image longer than the memory from 0x200 up.
    OutOfBoundsLoad,
}

/// The mathematical state of the machine: what the contracts speak about.
pub struct Chip8View {
    /// 4096 bytes, addresses 0x000 to 0xFFF.
    pub memory: Seq<u8>,
    /// The sixteen registers `V0` to `VF`.
    pub registers: Seq<u8>,
    /// The address register `I`.
    pub address_register: u16,
    /// Address of the next instruction to fetch.
    pub program_counter: u16,
    /// Return addresses, most recent last.
    pub call_stack: Seq<u16>,
    /// The framebuffer grid, flattened row by row.
    pub screen: Seq<u8>,
}

/// The machine.
pub struct Chip8 {
    memory: Vec<u8>,
    v: Vec<u8>,
    i: u16,
    pc: u16,
    stack: Vec<u16>,
    display: Display,
    rng: rand::rngs::ThreadRng,
}

impl View for Chip8 {
    type V = Chip8View;

    closed spec fn view(&self) -> Chip8View {
        Chip8View {
            memory: self.memory@,
            registers: self.v@,
            address_register: self.i,
            program_counter: self.pc,
            call_stack: self.stack@,
            screen: self.display@,
        }
    }
}

/// The state invariant: fixed sizes, and a one-bit framebuffer.
pub open spec fn wf(s: Chip8View) -> bool {
    &&& s.memory.len() == 4096
    &&& s.registers.len() == 16
    &&& cells_ok(s.screen)
}

/// The instruction word at the program counter: two consecutive bytes,
/// big-endian.
pub open spec fn fetched(s: Chip8View) -> u16 {
    ((s.memory[s.program_counter as int] as u16) << 8) | (s.memory[s.program_counter as int
        + 1] as u16)
}

/// The dispatch group: the top 4 bits of the opcode.
pub open spec fn op_hi(op: u16) -> u16 {
    op >> 12
}

/// Field `x`: bits 8-11, an index into the registers.
pub open spec fn op_x(op: u16) -> u16 {
    (op >> 8) & 0x0F
}

/// Field `y`: bits 4-7, an index into the registers.
pub open spec fn op_y(op: u16) -> u16 {
    (op >> 4) & 0x0F
}

/// Field `n`: the low 4 bits, a sprite height.
pub open spec fn op_n(op: u16) -> u16 {
    op & 0x0F
}

/// Field `kk`: the low 8 bits, an immediate byte.
pub open spec fn op_kk(op: u16) -> u8 {
    (op & 0xFF) as u8
}

/// Field `nnn`: the low 12 bits, an address.
pub open spec fn op_nnn(op: u16) -> u16 {
    op & 0x0FFF
}

/// When one step may be taken: the two fetched bytes lie in memory, and a
/// sprite draw reads its rows inside memory. The machine defines no error
/// for either condition, so `run` asks its caller to rule them out.
pub open spec fn step_enabled(s: Chip8View) -> bool {
    &&& s.program_counter as int + 1 < 4096
    &&& op_hi(fetched(s)) == 0xD ==> s.address_register as int + op_n(fetched(s)) as int <= 4096
}

/// The transition relation of one `run` call: given the state before
/// (`pre`) and the byte the random source drew (`rnd`, consulted only by
/// `RND`), it pins down the result and the whole state after (`post`).
pub open spec fn step_rel(pre: Chip8View, post: Chip8View, r: Result<(), Chip8Error>, rnd: u8) -> bool {
    let op = fetched(pre);
    let x = op_x(op) as int;
    let y = op_y(op) as int;
    let kk = op_kk(op);
    let nnn = op_nnn(op);
    let n = op_n(op) as int;
    let pc2 = (pre.program_counter + 2) as u16;
    if op_hi(op) == 0x0 {
        if op == 0x00E0 {
            // CLS: clear the framebuffer.
            &&& r is Ok
            &&& post.screen.len() == 2048
            &&& all_clear(post.screen)
            &&& post == (Chip8View { screen: post.screen, program_counter: pc2, ..pre })
        } else if op == 0x00EE {
            // RET: pop a return address into the program counter.
            if pre.call_stack.len() > 0 {
                &&& r is Ok
                &&& post == (Chip8View {
                    program_counter: pre.call_stack.last(),
                    call_stack: pre.call_stack.subrange(0, pre.call_stack.len() - 1),
                    ..pre
                })
            } else {
                r == Err::<(), Chip8Error>(Chip8Error::StackUnderflow) && post == pre
            }
        } else {
            r == Err::<(), Chip8Error>(Chip8Error::UnsupportedOpcode(op)) && post == pre
        }
    } else if op_hi(op) == 0x1 {
        // JP nnn: jump.
        r is Ok && post == (Chip8View { program_counter: nnn, ..pre })
    } else if op_hi(op) == 0x3 {
        // SE Vx, kk: skip the next instruction on equality.
        &&& r is Ok
        &&& post == (Chip8View {
            program_counter: (pre.program_counter + if pre.registers[x] == kk {
                4int
            } else {
                2int
            }) as u16,
            ..pre
        })
    } else if op_hi(op) == 0x6 {
        // LD Vx, kk.
        r is Ok && post == (Chip8View { registers: pre.registers.update(x, kk), program_counter: pc2, ..pre })
    } else if op_hi(op) == 0x7 {
        // ADD Vx, kk: wrapping, and VF is left alone.
        &&& r is Ok
        &&& post == (Chip8View {
            registers: pre.registers.update(x, (pre.registers[x] + kk) as u8),
            program_counter: pc2,
            ..pre
        })
    } else if op_hi(op) == 0xA {
        // LD I, nnn.
        r is Ok && post == (Chip8View { address_register: nnn, program_counter: pc2, ..pre })
    } else if op_hi(op) == 0xC {
        // RND Vx, kk: a random byte masked by kk.
        r is Ok && post == (Chip8View { registers: pre.registers.update(x, rnd & kk), program_counter: pc2, ..pre })
    } else if op_hi(op) == 0xD {
        // DRW Vx, Vy, n: XOR-draw n sprite rows read at I; VF records
        // whether any lit cell was erased.
        let rows = pre.memory.subrange(
            pre.address_register as int,
            pre.address_register as int + n,
        );
        let vx = pre.registers[x] as int;
        let vy = pre.registers[y] as int;
        let erased = sprite_erases(pre.screen, rows, vx, vy, n);
        &&& r is Ok
        &&& post == (Chip8View {
            screen: sprite_painted(pre.screen, rows, vx, vy, n),
            registers: pre.registers.update(15, if erased {
                1u8
            } else {
                0u8
            }),
            program_counter: pc2,
            ..pre
        })
    } else {
        r == Err::<(), Chip8Error>(Chip8Error::UnsupportedOpcode(op)) && post == pre
    }
}

impl Chip8 {
    /// A fresh machine: memory and registers zeroed, `I` zero, the program
    /// counter at 0x200, an empty call stack, a dark screen, and a fresh
    /// random source.
    pub fn new() -> (c: Chip8)
        ensures
            wf(c@),
            all_clear(c@.memory),
            all_clear(c@.registers),
            c@.address_register == 0,
            c@.program_counter == 0x200,
            c@.call_stack.len() == 0,
            all_clear(c@.screen),
    {
        Chip8 {
            memory: zeroed_bytes(4096),
            v: zeroed_bytes(16),
            i: 0,
            pc: 0x200,
            stack: Vec::new(),
            display: Display::new(),
            rng: crate::rng::fresh_rng(),
        }
    }

    /// Copy a program image into memory at 0x200. An image longer than the
    /// memory from there up (0xE00 bytes) is rejected whole.
    pub fn load_rom(&mut self, rom: &Vec<u8>) -> (r: Result<(), Chip8Error>)
        requires
            wf(old(self)@),
        ensures
            wf(final(self)@),
            rom@.len() <= 0xE00 ==> {
                &&& r is Ok
                &&& final(self)@.memory.len() == 4096
                &&& forall|a: int|
                    0 <= a < 4096 ==> final(self)@.memory[a] == if 0x200 <= a < 0x200
                        + rom@.len() {
                        rom@[a - 0x200]
                    } else {
                        old(self)@.memory[a]
                    }
                &&& final(self)@ == (Chip8View { memory: final(self)@.memory, ..old(self)@ })
            },
            rom@.len() > 0xE00 ==> r == Err::<(), Chip8Error>(Chip8Error::OutOfBoundsLoad)
                && final(self)@ == old(self)@,
    {
        if rom.len() > 0xE00 {
            return Err(Chip8Error::OutOfBoundsLoad);
        }
        let mut k: usize = 0;
        while k < rom.len()
            invariant
                wf(old(self)@),
                k <= rom@.len(),
                rom@.len() <= 0xE00,
                self@ == (Chip8View { memory: self@.memory, ..old(self)@ }),
                self@.memory.len() == 4096,
                forall|a: int|
                    0 <= a < 4096 ==> self@.memory[a] == if 0x200 <= a < 0x200 + k {
                        rom@[a - 0x200]
                    } else {
                        old(self)@.memory[a]
                    },
            decreases rom@.len() - k,
        {
            self.memory[0x200 + k] = rom[k];
            k += 1;
        }
        Ok(())
    }

    /// The framebuffer, read-only: 2048 cells, each 0 or 1, the cell at
    /// `(x, y)` at index `y * 64 + x`.
    pub fn screen_buffer(&self) -> (r: &[u8])
        ensures
            r@ == self@.screen,
    {
        self.display.buffer()
    }

    /// The program counter.
    pub fn program_counter(&self) -> (r: u16)
        ensures
            r == self@.program_counter,
    {
        self.pc
    }

    /// The address register `I`.
    pub fn address_register(&self) -> (r: u16)
        ensures
            r == self@.address_register,
    {
        self.i
    }

    /// Register `Vx`.
    pub fn register(&self, x: usize) -> (r: u8)
        requires
            wf(self@),
            x < 16,
        ensures
            r == self@.registers[x as int],
    {
        self.v[x]
    }

    /// The memory byte at `addr`.
    pub fn memory_byte(&self, addr: usize) -> (r: u8)
        requires
            wf(self@),
            addr < 4096,
        ensures
            r == self@.memory[addr as int],
    {
        self.memory[addr]
    }

    /// How many return addresses the call stack holds.
    pub fn stack_depth(&self) -> (r: usize)
        ensures
            r == self@.call_stack.len(),
    {
        self.stack.len()
    }

    /// Whether `run` may be called: the check behind `step_enabled`,
    /// computed from the live state.
    pub fn can_step(&self) -> (b: bool)
        requires
            wf(self@),
        ensures
            b == step_enabled(self@),
    {
        if self.pc >= 4095 {
            return false;
        }
        let b1 = self.memory[self.pc as usize];
        let b2 = self.memory[self.pc as usize + 1];
        let opcode: u16 = ((b1 as u16) << 8) | (b2 as u16);
        if opcode >> 12 == 0xD {
            let n = opcode & 0x0F;
            (self.i as usize) + (n as usize) <= 4096
        } else {
            true
        }
    }
}

/// The `n` sprite rows that a draw reads from memory at `I`.
pub open spec fn sprite_rows(s: Chip8View, n: int) -> Seq<u8> {
    s.memory.subrange(s.address_register as int, s.address_register as int + n)
}

impl Chip8 {
    /// XOR-draw `height` sprite rows, read from memory at `I`, at
    /// `(x, y)`; then set `VF` to 1 exactly when a lit cell was erased.
    fn draw(&mut self, x: u8, y: u8, height: u8)
        requires
            wf(old(self)@),
            old(self)@.address_register as int + height as int <= 4096,
        ensures
            wf(final(self)@),
            final(self)@ == (Chip8View {
                screen: sprite_painted(
                    old(self)@.screen,
                    sprite_rows(old(self)@, height as int),
                    x as int,
                    y as int,
                    height as int,
                ),
                registers: old(self)@.registers.update(
                    15,
                    if sprite_erases(
                        old(self)@.screen,
                        sprite_rows(old(self)@, height as int),
                        x as int,
                        y as int,
                        height as int,
                    ) {
                        1u8
                    } else {
                        0u8
                    },
                ),
                ..old(self)@
            }),
    {
        let ghost rows = sprite_rows(old(self)@, height as int);
        let mut collision = false;
        let mut r: u8 = 0;
        while r < height
            invariant
                wf(old(self)@),
                r <= height,
                old(self)@.address_register as int + height as int <= 4096,
                rows == sprite_rows(old(self)@, height as int),
                self@ == (Chip8View {
                    screen: sprite_painted(old(self)@.screen, rows, x as int, y as int, r as int),
                    ..old(self)@
                }),
                cells_ok(self@.screen),
                collision == sprite_erases(old(self)@.screen, rows, x as int, y as int, r as int),
            decreases height - r,
        {
            let b = self.memory[(self.i as usize) + (r as usize)];
            proof {
                assert(b == rows[r as int]);
            }
            let e = self.display.draw_byte(b, x as usize, (y as usize) + (r as usize));
            if e {
                collision = true;
            }
            r += 1;
        }
        self.v[15] = if collision {
            1
        } else {
            0
        };
    }

    /// Execute exactly one instruction: fetch the opcode at the program
    /// counter, decode it, apply its whole effect (including moving the
    /// program counter), and report an unsupported opcode or a popped-empty
    /// call stack as an error, leaving the state untouched. The relation
    /// `step_rel` states the exact effect; the drawn byte is existentially
    /// quantified because only `RND` consults the random source.
    pub fn run(&mut self) -> (r: Result<(), Chip8Error>)
        requires
            wf(old(self)@),
            step_enabled(old(self)@),
        ensures
            wf(final(self)@),
            exists|rnd: u8| step_rel(old(self)@, final(self)@, r, rnd),
    {
        let byte1 = self.memory[self.pc as usize] as u16;
        let byte2 = self.memory[self.pc as usize + 1] as u16;
        let opcode: u16 = (byte1 << 8) | byte2;
        proof {
            assert(opcode == fetched(old(self)@));
            assert((opcode >> 8) & 0x0F < 16) by (bit_vector);
            assert((opcode >> 4) & 0x0F < 16) by (bit_vector);
            assert(opcode & 0x0F < 16) by (bit_vector);
        }
        let x = ((opcode >> 8) & 0x0F) as usize;
        let y = ((opcode >> 4) & 0x0F) as usize;
        let kk = (opcode & 0xFF) as u8;
        let nnn = opcode & 0x0FFF;
        let n = (opcode & 0x0F) as u8;
        match opcode >> 12 {
            0x0 => {
                if opcode == 0x00E0 {
                    self.display.clear();
                    self.pc += 2;
                    proof {
                        assert(step_rel(old(self)@, self@, Ok::<(), Chip8Error>(()), 0u8));
                    }
                    Ok(())
                } else if opcode == 0x00EE {
                    match self.stack.pop() {
                        Some(addr) => {
                            self.pc = addr;
                            proof {
                                assert(step_rel(old(self)@, self@, Ok::<(), Chip8Error>(()), 0u8));
                            }
                            Ok(())
                        },
                        None => {
                            proof {
                                assert(step_rel(
                                    old(self)@,
                                    self@,
                                    Err::<(), Chip8Error>(Chip8Error::StackUnderflow),
                                    0u8,
                                ));
                            }
                            Err(Chip8Error::StackUnderflow)
                        },
                    }
                } else {
                    proof {
                        assert(step_rel(
                            old(self)@,
                            self@,
                            Err::<(), Chip8Error>(Chip8Error::UnsupportedOpcode(opcode)),
                            0u8,
                        ));
                    }
                    Err(Chip8Error::UnsupportedOpcode(opcode))
                }
            },
            0x1 => {
                self.pc = nnn;
                proof {
                    assert(step_rel(old(self)@, self@, Ok::<(), Chip8Error>(()), 0u8));
                }
                Ok(())
            },
            0x3 => {
                if self.v[x] == kk {
                    self.pc += 2;
                }
                self.pc += 2;
                proof {
                    assert(step_rel(old(self)@, self@, Ok::<(), Chip8Error>(()), 0u8));
                }
                Ok(())
            },
            0x6 => {
                self.v[x] = kk;
                self.pc += 2;
                proof {
                    assert(step_rel(old(self)@, self@, Ok::<(), Chip8Error>(()), 0u8));
                }
                Ok(())
            },
            0x7 => {
                let cur = self.v[x];
                self.v[x] = cur.wrapping_add(kk);
                self.pc += 2;
                proof {
                    assert((cur + kk - 256) as u8 == (cur + kk) as u8) by (bit_vector);
                    assert(step_rel(old(self)@, self@, Ok::<(), Chip8Error>(()), 0u8));
                }
                Ok(())
            },
            0xA => {
                self.i = nnn;
                self.pc += 2;
                proof {
                    assert(step_rel(old(self)@, self@, Ok::<(), Chip8Error>(()), 0u8));
                }
                Ok(())
            },
            0xC => {
                let b = crate::rng::random_byte(&mut self.rng);
                self.v[x] = b & kk;
                self.pc += 2;
                proof {
                    assert(step_rel(old(self)@, self@, Ok::<(), Chip8Error>(()), b));
                }
                Ok(())
            },
            0xD => {
                let vx = self.v[x];
                let vy = self.v[y];
                self.draw(vx, vy, n);
                self.pc += 2;
                proof {
                    assert(step_rel(old(self)@, self@, Ok::<(), Chip8Error>(()), 0u8));
                }
                Ok(())
            },
            _ => {
                proof {
                    assert(step_rel(
                        old(self)@,
                        self@,
                        Err::<(), Chip8Error>(Chip8Error::UnsupportedOpcode(opcode)),
                        0u8,
                    ));
                }
                Err(Chip8Error::UnsupportedOpcode(opcode))
            },
        }
    }
}

/// Law: a successful step keeps the program counter even and inside the
/// program window `[0x200, 0x1000)`, provided it starts there with room
/// for the largest advance (`SE` can move it by 4), any jump it takes has
/// an even target at or above 0x200, and the call stack is empty (as it
/// is on this machine, which never pushes: a loaded return address could
/// move the counter anywhere). A jump such as `JP 0x251` leaves the
/// window's evenness, which is why jumps are constrained here.
pub proof fn lemma_step_stays_in_window(
    pre: Chip8View,
    post: Chip8View,
    r: Result<(), Chip8Error>,
    rnd: u8,
)
    requires
        step_rel(pre, post, r, rnd),
        r is Ok,
        pre.program_counter % 2 == 0,
        0x200 <= pre.program_counter,
        pre.program_counter as int + 4 < 0x1000,
        pre.call_stack.len() == 0,
        op_hi(fetched(pre)) == 0x1 ==> op_nnn(fetched(pre)) % 2 == 0 && op_nnn(fetched(pre))
            >= 0x200,
    ensures
        post.program_counter % 2 == 0,
        0x200 <= post.program_counter < 0x1000,
        post.call_stack == pre.call_stack,
{
    let op = fetched(pre);
    assert(op_nnn(op) < 0x1000) by (bit_vector);
}

/// One state of a run trace is well-placed: the program counter is even
/// and at or above the load address, and the call stack is empty.
pub open spec fn pc_placed(s: Chip8View) -> bool {
    &&& s.program_counter % 2 == 0
    &&& 0x200 <= s.program_counter
    &&& s.call_stack.len() == 0
}

proof fn lemma_trace_prefix(trace: Seq<Chip8View>, rnds: Seq<u8>, k: int)
    requires
        trace.len() == rnds.len() + 1,
        0 <= k < trace.len(),
        pc_placed(trace[0]),
        forall|m: int|
            0 <= m < rnds.len() ==> #[trigger] step_rel(
                trace[m],
                trace[m + 1],
                Ok::<(), Chip8Error>(()),
                rnds[m],
            ),
        forall|m: int|
            0 <= m < rnds.len() ==> (#[trigger] trace[m].program_counter) as int + 4 < 0x1000,
        forall|m: int|
            0 <= m < rnds.len() && op_hi(#[trigger] fetched(trace[m])) == 0x1 ==> op_nnn(
                fetched(trace[m]),
            ) % 2 == 0 && op_nnn(fetched(trace[m])) >= 0x200,
    ensures
        pc_placed(trace[k]),
        k >= 1 ==> trace[k].program_counter < 0x1000,
    decreases k,
{
    if k >= 1 {
        let m = k - 1;
        lemma_trace_prefix(trace, rnds, m);
        assert(step_rel(trace[m], trace[m + 1], Ok::<(), Chip8Error>(()), rnds[m]));
        lemma_step_stays_in_window(trace[m], trace[m + 1], Ok::<(), Chip8Error>(()), rnds[m]);
        assert(trace[k] == trace[m + 1]);
    }
}

/// Law: along any run of successful steps that starts at an even program
/// counter at or above 0x200 with an empty call stack, keeps below the
/// top of memory (each counter has room for the largest advance, 4), and
/// whose jumps all have even targets at or above 0x200, the program
/// counter stays even and inside `[0x200, 0x1000)`, and the call stack
/// stays empty. State `trace[m + 1]` is the outcome of one `run` call on
/// `trace[m]` that drew the byte `rnds[m]`.
pub proof fn lemma_trace_stays_in_window(trace: Seq<Chip8View>, rnds: Seq<u8>)
    requires
        trace.len() == rnds.len() + 1,
        pc_placed(trace[0]),
        forall|m: int|
            0 <= m < rnds.len() ==> #[trigger] step_rel(
                trace[m],
                trace[m + 1],
                Ok::<(), Chip8Error>(()),
                rnds[m],
            ),
        forall|m: int|
            0 <= m < rnds.len() ==> (#[trigger] trace[m].program_counter) as int + 4 < 0x1000,
        forall|m: int|
            0 <= m < rnds.len() && op_hi(#[trigger] fetched(trace[m])) == 0x1 ==> op_nnn(
                fetched(trace[m]),
            ) % 2 == 0 && op_nnn(fetched(trace[m])) >= 0x200,
    ensures
        forall|k: int| 0 <= k < trace.len() ==> pc_placed(#[trigger] trace[k]),
        forall|k: int| 1 <= k < trace.len() ==> (#[trigger] trace[k].program_counter) < 0x1000,
{
    assert forall|k: int| 0 <= k < trace.len() implies pc_placed(#[trigger] trace[k]) by {
        lemma_trace_prefix(trace, rnds, k);
    }
    assert forall|k: int| 1 <= k < trace.len() implies (#[trigger] trace[k].program_counter)
        < 0x1000 by {
        lemma_trace_prefix(trace, rnds, k);
    }
}

/// Law: `RND Vx, 0x00` writes 0 to `Vx`, whatever byte the random source
/// drew (the mask is applied to every draw).
pub proof fn lemma_rnd_zero_mask(
    pre: Chip8View,
    post: Chip8View,
    r: Result<(), Chip8Error>,
    rnd: u8,
)
    requires
        step_rel(pre, post, r, rnd),
        r is Ok,
        op_hi(fetched(pre)) == 0xC,
        op_kk(fetched(pre)) == 0,
        pre.registers.len() == 16,
    ensures
        post.registers[op_x(fetched(pre)) as int] == 0,
{
    let op = fetched(pre);
    assert(rnd & 0 == 0) by (bit_vector);
    assert(op_x(op) < 16) by (bit_vector);
}

/// A vector of `n` zero bytes.
fn zeroed_bytes(n: usize) -> (v: Vec<u8>)
    ensures
        v@.len() == n,
        all_clear(v@),
{
    let mut v: Vec<u8> = Vec::new();
    while v.len() < n
        invariant
            v@.len() <= n,
            all_clear(v@),
        decreases n - v@.len(),
    {
        v.push(0);
    }
    v
}

} // verus!
