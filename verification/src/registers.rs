//! Allocation of the registers of one function.

use vstd::prelude::*;

verus! {

/// The index of a register in the frame of a function.
pub type Register = u8;

/// The number of registers that a frame can have.
pub const REGISTER_COUNT: u16 = 256;

/// The abstract state of a [`RegisterAllocator`].
pub struct RegisterFile {
    /// Which of the registers are allocated.
    pub used: Seq<bool>,
    /// No register from here on is allocated.
    pub top: nat,
    /// The largest value that `top` has had.
    pub size: nat,
}

impl RegisterFile {
    /// Nothing is allocated and nothing ever was.
    pub open spec fn empty() -> RegisterFile {
        RegisterFile { used: Seq::new(REGISTER_COUNT as nat, |i: int| false), top: 0, size: 0 }
    }

    /// Exactly the registers below `top` are allocated.
    pub open spec fn packed(self) -> bool {
        &&& self.top <= REGISTER_COUNT
        &&& self.used == Seq::new(REGISTER_COUNT as nat, |i: int| i < self.top)
    }

    /// There are as many registers as a frame can have, and none from `top` on is allocated.
    pub open spec fn valid(self) -> bool {
        &&& self.used.len() == REGISTER_COUNT
        &&& self.top <= self.size <= REGISTER_COUNT
        &&& forall|i: int| self.top <= i < REGISTER_COUNT ==> !#[trigger] self.used[i]
    }

    /// The register just below `top` is allocated, if there is one.
    pub open spec fn tight(self) -> bool {
        self.top > 0 ==> self.used[self.top - 1]
    }

    /// Which registers are allocated after those from `start` up to `end` were marked.
    pub open spec fn marked(self, start: int, end: int, mark: bool) -> Seq<bool> {
        Seq::new(
            self.used.len(),
            |i: int|
                if start <= i < end {
                    mark
                } else {
                    self.used[i]
                },
        )
    }

    /// The state after `top` was moved, with `size` to follow if it is less.
    pub open spec fn with_top(self, top: nat) -> RegisterFile {
        RegisterFile {
            top,
            size: if top > self.size {
                top
            } else {
                self.size
            },
            ..self
        }
    }

    /// The state after register `register` was allocated.
    pub open spec fn allocated(self, register: int) -> RegisterFile {
        RegisterFile { used: self.used.update(register, true), ..self }.with_top(
            if register == self.top {
                self.top + 1
            } else {
                self.top
            },
        )
    }

    /// The state after a block of `count` registers was allocated from `top` on.
    pub open spec fn pushed(self, count: nat) -> RegisterFile {
        RegisterFile {
            used: self.marked(self.top as int, (self.top + count) as int, true),
            ..self
        }.with_top(self.top + count)
    }

    /// The state after the `count` registers below `top` were freed.
    pub open spec fn popped(self, count: nat) -> RegisterFile {
        RegisterFile {
            used: self.marked(self.top - count, self.top as int, false),
            top: (self.top - count) as nat,
            ..self
        }
    }

    /// The state after register `register` was freed: `top` is the register after the last one that
    /// is allocated then.
    pub open spec fn freed(self, register: int) -> RegisterFile {
        let used = self.used.update(register, false);
        RegisterFile { used, top: used_end(used, self.top), size: self.size }
    }
}

/// The lowest free register from `start` on.
pub open spec fn lowest_free(used: Seq<bool>, start: nat) -> Option<nat>
    decreases used.len() - start,
{
    if start >= used.len() {
        None
    } else if !used[start as int] {
        Some(start)
    } else {
        lowest_free(used, start + 1)
    }
}

/// The register that is found is free, and those below it are not.
pub proof fn lemma_lowest_free(used: Seq<bool>, start: nat)
    ensures
        match lowest_free(used, start) {
            Some(register) => {
                &&& start <= register < used.len()
                &&& !used[register as int]
                &&& forall|i: int| start <= i < register ==> #[trigger] used[i]
            },
            None => forall|i: int| start <= i < used.len() ==> #[trigger] used[i],
        },
    decreases used.len() - start,
{
    if start < used.len() && used[start as int] {
        lemma_lowest_free(used, start + 1);
    }
}

/// The register after the last allocated one below `end`.
pub open spec fn used_end(used: Seq<bool>, end: nat) -> nat
    decreases end,
{
    if end == 0 || used[end - 1] {
        end
    } else {
        used_end(used, (end - 1) as nat)
    }
}

/// The registers below `end` that are not below the end of the allocated ones are free.
pub proof fn lemma_used_end(used: Seq<bool>, end: nat)
    ensures
        used_end(used, end) <= end,
        used_end(used, end) > 0 ==> used[used_end(used, end) - 1],
        forall|i: int| used_end(used, end) <= i < end ==> !#[trigger] used[i],
    decreases end,
{
    if end > 0 && !used[end - 1] {
        lemma_used_end(used, (end - 1) as nat);
    }
}

/// Keeps track of which registers of a function are in use.
pub struct RegisterAllocator {
    // The total array of registers, marking whether they are allocated
    registers: [bool; 256],
    // The first free register
    first_free: u16,
    // The free register after the last used register
    stack_top: u16,
    // The index of the largest used register + 1 (e.g. the stack size required for the function)
    stack_size: u16,
}

impl View for RegisterAllocator {
    type V = RegisterFile;

    closed spec fn view(&self) -> RegisterFile {
        RegisterFile {
            used: self.registers@,
            top: self.stack_top as nat,
            size: self.stack_size as nat,
        }
    }
}

impl Default for RegisterAllocator {
    fn default() -> (allocator: RegisterAllocator)
        ensures
            allocator.wf(),
            allocator@ == RegisterFile::empty(),
            allocator@.top == 0,
            allocator@.size == 0,
            forall|i: int| 0 <= i < REGISTER_COUNT ==> !#[trigger] allocator@.used[i],
    {
        let allocator = RegisterAllocator {
            registers: [false; 256],
            first_free: 0,
            stack_top: 0,
            stack_size: 0,
        };
        assert(allocator@.used =~= RegisterFile::empty().used);
        allocator
    }
}

impl RegisterAllocator {
    /// The invariant of the allocator: `first_free` is the lowest free register, nothing is
    /// allocated from `stack_top` on, and `stack_size` is at least `stack_top`.
    pub closed spec fn wf(&self) -> bool {
        &&& self.first_free <= self.stack_top <= self.stack_size <= REGISTER_COUNT
        &&& forall|i: int| 0 <= i < self.first_free ==> self.registers@[i]
        &&& self.first_free < REGISTER_COUNT ==> !self.registers@[self.first_free as int]
        &&& forall|i: int| self.stack_top <= i < REGISTER_COUNT ==> !self.registers@[i]
    }

    /// What the invariant says of the abstract state.
    pub proof fn lemma_wf(&self)
        requires
            self.wf(),
        ensures
            self@.valid(),
    {
    }

    /// The register from which on nothing is allocated.
    pub fn stack_top(&self) -> (top: u16)
        ensures
            top == self@.top,
    {
        self.stack_top
    }

    /// The number of registers that the function needs.
    pub fn stack_size(&self) -> (size: u16)
        ensures
            size == self@.size,
    {
        self.stack_size
    }

    /// Allocates any single available register, returns it if one is available. The register is the
    /// lowest one that is free.
    pub fn allocate(&mut self) -> (allocated: Option<Register>)
        requires
            old(self).wf(),
        ensures
            final(self).wf(),
            match lowest_free(old(self)@.used, 0) {
                Some(register) => {
                    &&& allocated == Some(register as Register)
                    &&& register <= old(self)@.top
                    &&& final(self)@ == old(self)@.allocated(register as int)
                },
                None => allocated is None && *final(self) == *old(self),
            },
            match allocated {
                Some(register) => {
                    &&& !old(self)@.used[register as int]
                    &&& forall|i: int| 0 <= i < register ==> #[trigger] old(self)@.used[i]
                    &&& final(self)@.used == old(self)@.used.update(register as int, true)
                    &&& final(self)@.top == if register < old(self)@.top {
                        old(self)@.top
                    } else {
                        register as nat + 1
                    }
                    &&& final(self)@.size == if final(self)@.top < old(self)@.size {
                        old(self)@.size
                    } else {
                        final(self)@.top
                    }
                },
                None => forall|i: int| 0 <= i < REGISTER_COUNT ==> #[trigger] old(self)@.used[i],
            },
    {
        proof {
            lemma_lowest_free(self.registers@, 0);
            if self.first_free < REGISTER_COUNT {
                assert(!self.registers@[self.first_free as int]);
            }
        }
        if self.first_free < REGISTER_COUNT {
            let register: u8 = self.first_free as u8;
            self.registers[register as usize] = true;

            if self.first_free == self.stack_top {
                self.stack_top += 1;
            }
            self.stack_size = self.stack_size.max(self.stack_top);

            let mut i: u16 = self.first_free;
            while i < REGISTER_COUNT && self.registers[i as usize]
                invariant
                    i <= REGISTER_COUNT,
                    forall|j: int| 0 <= j < i ==> self.registers@[j],
                    i <= self.stack_top,
                    self.stack_top <= REGISTER_COUNT,
                    forall|j: int|
                        self.stack_top <= j < REGISTER_COUNT ==> !self.registers@[j],
                decreases REGISTER_COUNT - i,
            {
                i += 1;
            }
            self.first_free = i;

            Some(register)
        } else {
            None
        }
    }

    /// Frees a single register.
    pub fn free(&mut self, register: Register)
        requires
            old(self).wf(),
            old(self)@.used[register as int],
        ensures
            final(self).wf(),
            final(self)@ == old(self)@.freed(register as int),
            final(self)@.used == old(self)@.used.update(register as int, false),
            final(self)@.top > 0 ==> final(self)@.used[final(self)@.top - 1],
            forall|i: int|
                final(self)@.top <= i < REGISTER_COUNT ==> !#[trigger] final(self)@.used[i],
            final(self)@.size == old(self)@.size,
    {
        let top: u16 = self.stack_top;
        self.registers[register as usize] = false;
        self.first_free = self.first_free.min(register as u16);
        while self.stack_top > 0 && !self.registers[self.stack_top as usize - 1]
            invariant
                self.stack_top <= top <= REGISTER_COUNT,
                self.registers@ == old(self)@.used.update(register as int, false),
                self.first_free == if old(self).first_free < register {
                    old(self).first_free
                } else {
                    register as u16
                },
                self.stack_size == old(self).stack_size,
                used_end(self.registers@, top as nat) == used_end(
                    self.registers@,
                    self.stack_top as nat,
                ),
            decreases self.stack_top,
        {
            self.stack_top -= 1;
        }
        proof {
            lemma_used_end(self.registers@, top as nat);
            if self.first_free > self.stack_top {
                assert(self.registers@[self.first_free - 1]);
            }
        }
    }

    /// Allocates a block of registers of the given size (which must be > 0) always at the end of
    /// the allocated area. If successful, returns the starting register of the block.
    pub fn push(&mut self, size: u8) -> (start: Option<Register>)
        requires
            old(self).wf(),
        ensures
            final(self).wf(),
            start is Some <==> 0 < size <= REGISTER_COUNT - old(self)@.top,
            match start {
                Some(start) => {
                    &&& start == old(self)@.top
                    &&& final(self)@ == old(self)@.pushed(size as nat)
                    &&& forall|i: int|
                        0 <= i < REGISTER_COUNT ==> #[trigger] final(self)@.used[i] == (
                        old(self)@.used[i] || start <= i < start + size)
                    &&& final(self)@.top == start + size
                    &&& final(self)@.size == if start + size < old(self)@.size {
                        old(self)@.size
                    } else {
                        (start + size) as nat
                    }
                },
                None => *final(self) == *old(self),
            },
    {
        if size == 0 {
            None
        } else if size as u16 <= REGISTER_COUNT - self.stack_top {
            let begin: u16 = self.stack_top;
            let end: u16 = begin + size as u16;
            let mut i: u16 = begin;
            while i < end
                invariant
                    begin <= i <= end <= REGISTER_COUNT,
                    self.first_free == old(self).first_free,
                    self.stack_top == old(self).stack_top,
                    self.stack_size == old(self).stack_size,
                    self.registers@ == old(self)@.marked(begin as int, i as int, true),
                decreases end - i,
            {
                self.registers[i as usize] = true;
                i += 1;
                assert(self.registers@ =~= old(self)@.marked(begin as int, i as int, true));
            }
            if self.first_free == self.stack_top {
                self.first_free += size as u16;
            }
            self.stack_top += size as u16;
            self.stack_size = self.stack_size.max(self.stack_top);
            Some(begin as u8)
        } else {
            None
        }
    }

    /// Frees a contiguous block of registers which have just been pushed (so only a block at the
    /// end of the allocated area).
    pub fn pop(&mut self, size: u8)
        requires
            old(self).wf(),
            size <= old(self)@.top,
            forall|i: int|
                old(self)@.top - size <= i < old(self)@.top ==> #[trigger] old(self)@.used[i],
        ensures
            final(self).wf(),
            final(self)@ == old(self)@.popped(size as nat),
            final(self)@.top == old(self)@.top - size,
            final(self)@.size == old(self)@.size,
            forall|i: int|
                0 <= i < REGISTER_COUNT ==> #[trigger] final(self)@.used[i] == (old(self)@.used[i]
                    && i < old(self)@.top - size),
    {
        if size > 0 {
            let end: u16 = self.stack_top;
            let begin: u16 = end - size as u16;
            self.stack_top = begin;
            let mut i: u16 = begin;
            while i < end
                invariant
                    begin <= i <= end <= REGISTER_COUNT,
                    self.first_free == old(self).first_free,
                    self.stack_top == begin,
                    self.stack_size == old(self).stack_size,
                    self.registers@ == old(self)@.marked(begin as int, i as int, false),
                decreases end - i,
            {
                self.registers[i as usize] = false;
                i += 1;
                assert(self.registers@ =~= old(self)@.marked(begin as int, i as int, false));
            }
            self.first_free = self.first_free.min(self.stack_top);
        }
        assert(size == 0 ==> self.registers@ =~= old(self)@.marked(
            self.stack_top as int,
            self.stack_top as int,
            false,
        ));
    }
}

/// To pop a block that was just pushed frees what the push allocated and nothing else.
pub proof fn law_pop_undoes_push(file: RegisterFile, count: nat)
    requires
        file.valid(),
        file.top + count <= REGISTER_COUNT,
    ensures
        file.pushed(count).valid(),
        file.pushed(count).popped(count) == (RegisterFile {
            size: file.pushed(count).size,
            ..file
        }),
{
    assert(file.pushed(count).popped(count).used =~= file.used);
}

/// To free a register that was just allocated gives back the state before, where `top` is the
/// register after the last allocated one.
pub proof fn law_free_undoes_allocate(file: RegisterFile, register: nat)
    requires
        file.valid(),
        file.tight(),
        lowest_free(file.used, 0) == Some(register),
    ensures
        file.allocated(register as int).valid(),
        file.allocated(register as int).freed(register as int) == (RegisterFile {
            size: file.allocated(register as int).size,
            ..file
        }),
{
    lemma_lowest_free(file.used, 0);
    if file.top < register {
        assert(file.used[file.top as int]);
    }
    let allocated = file.allocated(register as int);
    assert(allocated.freed(register as int).used =~= file.used);
    lemma_used_end(file.used, allocated.top);
    assert(used_end(file.used, file.top) == file.top);
}

/// The number of registers that a function needs is the largest value that `top` had: it never
/// falls, and rises only to a new `top`.
pub proof fn law_size_is_high_water(file: RegisterFile, register: int, count: nat)
    requires
        file.valid(),
        0 <= register <= file.top,
        file.top + count <= REGISTER_COUNT,
    ensures
        file.allocated(register).size >= file.size,
        file.allocated(register).size > file.size ==> file.allocated(register).size
            == file.allocated(register).top,
        file.pushed(count).size >= file.size,
        file.pushed(count).size > file.size ==> file.pushed(count).size == file.pushed(count).top,
        file.freed(register).size == file.size,
        file.popped(count).size == file.size,
{
}

/// When a register is freed, `top` becomes the register after the last one that is allocated then.
pub proof fn law_free_finds_last_used(file: RegisterFile, register: int)
    requires
        file.valid(),
        0 <= register < REGISTER_COUNT,
    ensures
        file.freed(register).valid(),
        file.freed(register).tight(),
{
    let used = file.used.update(register, false);
    lemma_used_end(used, file.top);
    assert forall|i: int| file.freed(register).top <= i < REGISTER_COUNT implies !(
    #[trigger] used[i]) by {
        if i >= file.top {
            assert(!file.used[i]);
        }
    }
}

/// Where `top` is the register after the last allocated one, it is after a register was allocated,
/// and after a block was pushed and popped again.
pub proof fn law_top_follows_last_used(file: RegisterFile, register: nat, count: nat)
    requires
        file.valid(),
        file.tight(),
        lowest_free(file.used, 0) == Some(register),
        file.top + count <= REGISTER_COUNT,
    ensures
        file.allocated(register as int).tight(),
        file.pushed(count).tight(),
        file.pushed(count).popped(count).tight(),
{
    lemma_lowest_free(file.used, 0);
    law_pop_undoes_push(file, count);
    if file.top < register {
        assert(file.used[file.top as int]);
    }
}

/// Where exactly the registers below `top` are allocated, to allocate takes the one at `top`, and
/// to push one register does the same.
pub proof fn law_allocate_is_push(file: RegisterFile, register: nat)
    requires
        file.packed(),
        lowest_free(file.used, 0) == Some(register),
    ensures
        register == file.top,
        file.allocated(register as int) == file.pushed(1),
        file.pushed(1).packed(),
{
    lemma_lowest_free(file.used, 0);
    if register < file.top {
        assert(file.used[register as int]);
    } else if file.top < register {
        assert(file.used[file.top as int]);
    }
    assert(file.allocated(register as int).used =~= file.pushed(1).used);
    assert(file.pushed(1).used =~= Seq::new(REGISTER_COUNT as nat, |i: int| i < file.top + 1));
}

} // verus!
