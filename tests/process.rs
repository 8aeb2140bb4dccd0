use rkernel::address::{PhysPageNum, VirtAddr, VirtPageNum};
use rkernel::elf::{ElfImage, ElfSegment};
use rkernel::kernel::{Kernel, TrapConfig};
use rkernel::memory_set::KernelLayout;
use rkernel::manager::{add_task, fetch_task, Processor, TaskManager};
use rkernel::pid::{kernel_stack_position, pid_alloc, PidAllocator};
use rkernel::syscall::{
    set_next_trigger, sys_get_time, sys_yield, SyscallOutcome, TrapCause, TrapOutcome, SYSCALL_EXIT, SYSCALL_FORK,
    SYSCALL_GETPID, SYSCALL_WAITPID, SYSCALL_WRITE,
};
use rkernel::task::TaskStatus;

fn program() -> (Vec<u8>, ElfImage) {
    let mut data = vec![0u8; 4096];
    data[..4].copy_from_slice(&[0x7f, b'E', b'L', b'F']);
    data.extend_from_slice(&[0x13u8; 64]);
    let seg = ElfSegment {
        is_load: true,
        vaddr: 0x10000,
        mem_size: 64,
        offset: 4096,
        file_size: 64,
        readable: true,
        writable: true,
        executable: true,
    };
    (data, ElfImage { entry: 0x10000, segments: vec![seg] })
}

fn boot() -> (Kernel, usize) {
    let config = TrapConfig { trap_handler: 0xffff_ffff_ffff_f000, trap_return: 0xffff_ffc0_8020_1000, sstatus: 0x122 };
    let layout = KernelLayout {
        stext: 0x8020_0000,
        etext: 0x8020_2000,
        srodata: 0x8020_2000,
        erodata: 0x8020_3000,
        sdata: 0x8020_3000,
        edata: 0x8020_4000,
        sbss: 0x8020_4000,
        ebss: 0x8020_6000,
        ekernel: 0x8020_6000,
        memory_end: 0x8021_0000,
    };
    let mut k = Kernel::new(PhysPageNum(0x9_0000), PhysPageNum(0x9_0000 + 4096), &layout, PhysPageNum(0x8_0200), config).unwrap();
    assert_eq!(k.kernel_token() >> 60, 8);
    let (data, image) = program();
    let init = k.add_initproc(&data, &image).unwrap();
    assert_eq!(k.run_next(), Some(init));
    (k, init)
}

#[test]
fn scheduler_fifo() {
    let mut m = TaskManager::new();
    add_task(&mut m, 1);
    add_task(&mut m, 2);
    m.add(3);
    assert_eq!(fetch_task(&mut m), Some(1));
    assert_eq!(m.fetch(), Some(2));
    assert_eq!(fetch_task(&mut m), Some(3));
    assert_eq!(fetch_task(&mut m), None);
    assert_eq!(m.len(), 0);
}

#[test]
fn processor_slot() {
    let mut p = Processor::new();
    assert_eq!(p.current(), None);
    p.set_current(4);
    assert_eq!(p.current(), Some(4));
    assert_eq!(p.take_current(), Some(4));
    assert_eq!(p.current(), None);
}

#[test]
fn pid_reuse() {
    let mut a = PidAllocator::new();
    assert_eq!(pid_alloc(&mut a).unwrap().0, 0);
    assert_eq!(a.allocate().unwrap().0, 1);
    assert_eq!(a.allocate().unwrap().0, 2);
    a.dealloc(1);
    assert_eq!(a.allocate().unwrap().0, 1);
    assert_eq!(a.allocate().unwrap().0, 3);
    assert_eq!(kernel_stack_position(1), (0xffff_ffff_ffff_f000 - 0x3000 - 0x2000, 0xffff_ffff_ffff_f000 - 0x3000));
}

#[test]
fn timer_and_clock() {
    assert_eq!(set_next_trigger(1000), 1000 + 125_000);
    assert_eq!(sys_get_time(12_500 * 7 + 3), 7);
}

#[test]
fn fork_gives_child_zero_and_parent_pid() {
    let (mut k, init) = boot();
    let child = k.fork().unwrap();
    assert_ne!(child, init);
    assert_eq!(k.task_parent(child), Some(Some(init)));
    assert_eq!(k.task_children(init), Some(vec![child]));
    assert_eq!(k.task_status(child), Some(TaskStatus::Ready));
    // both see the same program bytes, in separate frames
    assert_eq!(k.read_user_byte(child, VirtAddr(0x10003)), Some(0x13));
    assert!(k.write_user_byte(child, VirtAddr(0x10003), 0x55));
    assert_eq!(k.read_user_byte(init, VirtAddr(0x10003)), Some(0x13));
    assert_eq!(k.read_user_byte(child, VirtAddr(0x10003)), Some(0x55));
}

#[test]
fn zombie_reparenting() {
    let (mut k, init) = boot();
    let p = k.fork().unwrap();
    k.suspend_current_and_run_next();
    assert_eq!(k.run_next(), Some(p));
    let x = k.fork().unwrap();
    let y = k.fork().unwrap();
    assert_eq!(k.task_children(p), Some(vec![x, y]));
    k.exit_current_and_run_next(3);
    assert_eq!(k.task_status(p), Some(TaskStatus::Zombie));
    assert_eq!(k.task_exit_code(p), Some(3));
    assert_eq!(k.task_parent(x), Some(Some(init)));
    assert_eq!(k.task_parent(y), Some(Some(init)));
    assert_eq!(k.task_children(p), Some(vec![]));
    assert_eq!(k.task_children(init), Some(vec![p, x, y]));
    assert_eq!(k.current_pid(), None);
}

#[test]
fn waitpid_retry() {
    let (mut k, init) = boot();
    let c = k.fork().unwrap();
    assert_eq!(k.waitpid(c as isize), (-2, 0));
    assert_eq!(k.waitpid(99), (-1, 0));
    // let the child run and exit
    k.suspend_current_and_run_next();
    assert_eq!(k.run_next(), Some(c));
    k.exit_current_and_run_next(42);
    assert_eq!(k.run_next(), Some(init));
    assert_eq!(k.waitpid(c as isize), (c as isize, 42));
    assert_eq!(k.task_status(c), None);
    assert_eq!(k.task_children(init), Some(vec![]));
    assert_eq!(k.waitpid(-1), (-1, 0));
}

#[test]
fn syscalls_through_trap() {
    let (mut k, init) = boot();
    // getpid: a7 = 172
    k.update_current_trap_cx(17, SYSCALL_GETPID, 0);
    let sepc = k.current_trap_cx().unwrap().sepc;
    assert_eq!(k.trap_handler(TrapCause::UserEnvCall), TrapOutcome::Resume);
    assert_eq!(k.current_trap_cx().unwrap().x[10], init as u64);
    assert_eq!(k.current_trap_cx().unwrap().sepc, sepc + 4);
    assert_eq!(k.syscall(SYSCALL_WRITE, 1, 0x10000, 5), SyscallOutcome::Write { fd: 1, buf: 0x10000, len: 5 });
    match k.syscall(SYSCALL_FORK, 0, 0, 0) {
        SyscallOutcome::Done(c) => {
            assert!(c > 0);
            let c = c as usize;
            assert_eq!(k.syscall(SYSCALL_WAITPID, c as u64, 0x10010, 0), SyscallOutcome::Done(-2));
        }
        other => panic!("unexpected {:?}", other),
    }
    assert_eq!(k.syscall(999, 0, 0, 0), SyscallOutcome::Unsupported(999));
    assert_eq!(k.trap_handler(TrapCause::Other(7)), TrapOutcome::Unsupported(7));
    assert_eq!(sys_yield(&mut k), 0);
    assert_eq!(k.current_pid(), None);
}

#[test]
fn forked_child_returns_zero() {
    let (mut k, init) = boot();
    k.update_current_trap_cx(10, 77, 0);
    let c = k.fork().unwrap();
    k.suspend_current_and_run_next();
    assert_eq!(k.run_next(), Some(c));
    assert_eq!(k.current_trap_cx().unwrap().x[10], 0);
    assert_eq!(k.syscall(SYSCALL_EXIT, 5, 0, 0), SyscallOutcome::Exited);
    assert_eq!(k.run_next(), Some(init));
    assert_eq!(k.current_trap_cx().unwrap().x[10], 77);
    assert_eq!(k.syscall(SYSCALL_WAITPID, u64::MAX, 0x10020, 0), SyscallOutcome::Done(c as i64));
    assert_eq!(k.read_user_byte(init, VirtAddr(0x10020)), Some(5));
    assert_eq!(k.read_user_byte(init, VirtAddr(0x10021)), Some(0));
    assert_eq!(k.read_user_byte(init, VirtAddr(0x10024)), Some(0x13));
}

#[test]
fn faults_kill_only_the_task() {
    let (mut k, init) = boot();
    let c = k.fork().unwrap();
    k.suspend_current_and_run_next();
    assert_eq!(k.run_next(), Some(c));
    assert_eq!(k.trap_handler(TrapCause::StorePageFault), TrapOutcome::Schedule);
    assert_eq!(k.task_status(c), Some(TaskStatus::Zombie));
    assert_eq!(k.task_exit_code(c), Some(-2));
    assert_eq!(k.run_next(), Some(init));
    assert_eq!(k.trap_handler(TrapCause::SupervisorTimer), TrapOutcome::Preempt);
    assert_eq!(k.task_status(init), Some(TaskStatus::Ready));
}

#[test]
fn exec_replaces_program() {
    let (mut k, init) = boot();
    let c = k.fork().unwrap();
    let mut data = vec![0u8; 4096];
    data[..4].copy_from_slice(&[0x7f, b'E', b'L', b'F']);
    data.extend_from_slice(&[0x21u8; 16]);
    let seg = ElfSegment { is_load: true, vaddr: 0x20000, mem_size: 16, offset: 4096, file_size: 16, readable: true, writable: false, executable: true };
    let image = ElfImage { entry: 0x20004, segments: vec![seg] };
    assert_eq!(k.exec(&data, &image), 0);
    assert_eq!(k.current_trap_cx().unwrap().sepc, 0x20004);
    assert_eq!(k.read_user_byte(init, VirtAddr(0x20001)), Some(0x21));
    assert_eq!(k.read_user_byte(init, VirtAddr(0x10001)), None);
    assert_eq!(k.task_children(init), Some(vec![c]));
    let bad = ElfImage { entry: 0, segments: vec![ElfSegment { offset: 1 << 40, ..seg }] };
    assert_eq!(k.exec(&data, &bad), -1);
    assert_eq!(k.read_user_byte(init, VirtAddr(0x20001)), Some(0x21));
}

#[test]
fn reaping_returns_every_frame() {
    let (mut k, init) = boot();
    let before = k.free_frames();
    let c = k.fork().unwrap();
    assert!(k.free_frames() < before);
    k.suspend_current_and_run_next();
    assert_eq!(k.run_next(), Some(c));
    k.exit_current_and_run_next(-7);
    assert_eq!(k.run_next(), Some(init));
    assert_eq!(k.waitpid(-1), (c as isize, -7));
    assert_eq!(k.free_frames(), before);
}

#[test]
fn kernel_needs_a_valid_layout() {
    let config = TrapConfig { trap_handler: 0, trap_return: 0, sstatus: 0 };
    let bad = KernelLayout {
        stext: 0x8020_0000,
        etext: 0x8020_3000,
        srodata: 0x8020_2000,
        erodata: 0x8020_3000,
        sdata: 0x8020_3000,
        edata: 0x8020_4000,
        sbss: 0x8020_4000,
        ebss: 0x8020_6000,
        ekernel: 0x8020_6000,
        memory_end: 0x8021_0000,
    };
    assert!(Kernel::new(PhysPageNum(0x9_0000), PhysPageNum(0x9_1000), &bad, PhysPageNum(0x8_0200), config).is_none());
    let good = KernelLayout { etext: 0x8020_2000, ..bad };
    assert!(Kernel::new(PhysPageNum(0x9_0000), PhysPageNum(0x9_0010), &good, PhysPageNum(0x8_0200), config).is_none());
    assert!(Kernel::new(PhysPageNum(0x9_0000), PhysPageNum(0x9_1000), &good, PhysPageNum(0x8_0200), config).is_some());
}

#[test]
fn initproc_needs_room_for_its_stack() {
    let config = TrapConfig { trap_handler: 0, trap_return: 0, sstatus: 0 };
    let layout = KernelLayout {
        stext: 0x8020_0000,
        etext: 0x8020_2000,
        srodata: 0x8020_2000,
        erodata: 0x8020_3000,
        sdata: 0x8020_3000,
        edata: 0x8020_4000,
        sbss: 0x8020_4000,
        ebss: 0x8020_6000,
        ekernel: 0x8020_6000,
        memory_end: 0x8021_0000,
    };
    let mut k = Kernel::new(PhysPageNum(0x9_0000), PhysPageNum(0x9_1000), &layout, PhysPageNum(0x8_0200), config).unwrap();
    let (data, mut image) = program();
    // a segment ending two pages below the trap context page leaves no room for the stack
    image.segments[0].vaddr = 0x3f_ffff_d000 - 64;
    assert!(k.add_initproc(&data, &image).is_none());
    let (data, image) = program();
    assert_eq!(k.add_initproc(&data, &image), Some(0));
}

#[test]
fn kernel_stacks_follow_tasks() {
    let (mut k, init) = boot();
    let (b0, _) = kernel_stack_position(init as u64);
    assert!(k.kernel_translate(VirtPageNum(b0 >> 12)).is_some());
    let c = k.fork().unwrap();
    let (b1, t1) = kernel_stack_position(c as u64);
    assert!(k.kernel_translate(VirtPageNum(b1 >> 12)).is_some());
    assert!(k.kernel_translate(VirtPageNum((t1 >> 12) - 1)).unwrap().writable());
    k.suspend_current_and_run_next();
    assert_eq!(k.run_next(), Some(c));
    k.exit_current_and_run_next(1);
    assert_eq!(k.run_next(), Some(init));
    assert_eq!(k.waitpid(c as isize), (c as isize, 1));
    assert!(k.kernel_translate(VirtPageNum(b1 >> 12)).is_none());
    assert!(k.kernel_translate(VirtPageNum(b0 >> 12)).is_some());
}
