//! Allocation of registers, and the stack of functions.

use lua_compiler::registers::RegisterAllocator;
use lua_compiler::top_stack::TopStack;

#[test]
fn registers_are_allocated_from_the_lowest_on() {
    let mut registers = RegisterAllocator::default();
    assert_eq!(registers.stack_top(), 0);
    assert_eq!(registers.stack_size(), 0);
    assert_eq!(registers.allocate(), Some(0));
    assert_eq!(registers.allocate(), Some(1));
    assert_eq!(registers.allocate(), Some(2));
    registers.free(1);
    assert_eq!(registers.stack_top(), 3);
    assert_eq!(registers.allocate(), Some(1));
    assert_eq!(registers.allocate(), Some(3));
    assert_eq!(registers.stack_top(), 4);
    assert_eq!(registers.stack_size(), 4);
}

#[test]
fn all_registers_are_allocated_at_last() {
    let mut registers = RegisterAllocator::default();
    for i in 0..256u16 {
        assert_eq!(registers.allocate(), Some(i as u8));
    }
    assert_eq!(registers.allocate(), None);
    assert_eq!(registers.push(1), None);
    assert_eq!(registers.stack_top(), 256);
    registers.free(17);
    assert_eq!(registers.allocate(), Some(17));
    assert_eq!(registers.allocate(), None);
}

#[test]
fn blocks_are_pushed_at_the_end() {
    let mut registers = RegisterAllocator::default();
    assert_eq!(registers.push(0), None);
    assert_eq!(registers.allocate(), Some(0));
    assert_eq!(registers.push(3), Some(1));
    assert_eq!(registers.stack_top(), 4);
    registers.free(0);
    assert_eq!(registers.push(2), Some(4));
    assert_eq!(registers.stack_top(), 6);
    assert_eq!(registers.allocate(), Some(0));
    assert_eq!(registers.allocate(), Some(6));
    registers.pop(0);
    assert_eq!(registers.stack_top(), 7);
    registers.pop(3);
    assert_eq!(registers.stack_top(), 4);
    assert_eq!(registers.stack_size(), 7);
    assert_eq!(registers.allocate(), Some(4));
}

#[test]
fn a_block_can_end_at_the_last_register() {
    let mut registers = RegisterAllocator::default();
    assert_eq!(registers.push(255), Some(0));
    assert_eq!(registers.push(2), None);
    assert_eq!(registers.push(1), Some(255));
    assert_eq!(registers.stack_top(), 256);
    assert_eq!(registers.stack_size(), 256);
    assert_eq!(registers.allocate(), None);
    registers.pop(1);
    assert_eq!(registers.allocate(), Some(255));
    registers.pop(2);
    assert_eq!(registers.push(2), Some(254));
}

#[test]
fn pop_gives_back_what_push_took() {
    let mut registers = RegisterAllocator::default();
    assert_eq!(registers.push(5), Some(0));
    registers.free(2);
    assert_eq!(registers.push(4), Some(5));
    registers.pop(4);
    assert_eq!(registers.stack_top(), 5);
    assert_eq!(registers.allocate(), Some(2));
    assert_eq!(registers.allocate(), Some(5));
    assert_eq!(registers.stack_size(), 9);
}

#[test]
fn free_gives_back_what_allocate_took() {
    let mut registers = RegisterAllocator::default();
    assert_eq!(registers.push(3), Some(0));
    assert_eq!(registers.allocate(), Some(3));
    registers.free(3);
    assert_eq!(registers.stack_top(), 3);
    assert_eq!(registers.allocate(), Some(3));
    assert_eq!(registers.stack_size(), 4);
}

#[test]
fn the_top_falls_to_the_last_used_register() {
    let mut registers = RegisterAllocator::default();
    assert_eq!(registers.push(3), Some(0));
    registers.free(1);
    assert_eq!(registers.stack_top(), 3);
    registers.free(2);
    assert_eq!(registers.stack_top(), 1);
    assert_eq!(registers.stack_size(), 3);
    assert_eq!(registers.push(2), Some(1));
    registers.pop(2);
    assert_eq!(registers.allocate(), Some(1));
    registers.free(1);
    assert_eq!(registers.stack_top(), 1);
    registers.free(0);
    assert_eq!(registers.stack_top(), 0);
    assert_eq!(registers.stack_size(), 3);
}

#[test]
fn stack_gives_back_what_was_pushed() {
    let mut stack = TopStack::new(1);
    assert_eq!(stack.len(), 1);
    stack.push(2);
    stack.push(3);
    assert_eq!(stack.len(), 3);
    assert_eq!(stack.top, 3);
    assert_eq!((*stack.get(0), *stack.get(1), *stack.get(2)), (1, 2, 3));
    assert_eq!(stack.pop(), 3);
    assert_eq!(stack.pop(), 2);
    assert_eq!(stack.len(), 1);
    assert_eq!(stack.top, 1);
}

#[test]
fn stack_entries_change_in_place() {
    let mut stack = TopStack::new(1);
    stack.push(2);
    *stack.get_mut(0) = 10;
    *stack.get_mut(1) = 20;
    assert_eq!(stack.top, 20);
    assert_eq!(stack.pop(), 20);
    assert_eq!(stack.top, 10);
}
