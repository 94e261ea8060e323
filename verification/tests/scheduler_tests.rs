use kernel::drivers::exit::{exit_qemu, QemuExitCode};
use kernel::gdt::{build, selectors, Selectors};
use kernel::interrupts::InterruptIndex;
use kernel::tasks::scheduler::Scheduler;
use kernel::tasks::switch::{switch_to_first_task, timer_tick, Tick};
use kernel::tasks::syscall::{init_syscalls, request_of, star_value, syscall_entry, CpuFeatures};
use kernel::tasks::task::{Task, TaskContext, TaskIds, TaskState};

fn task(ids: &mut TaskIds, entry: u64, kernel_stack: u64) -> Task {
    Task {
        id: ids.take(),
        state: TaskState::Ready,
        context: TaskContext::new_user(entry, 0x7_FFFF_F000),
        kernel_stack,
    }
}

#[test]
fn scheduler_rotation() {
    let mut ids = TaskIds::new();
    let mut scheduler = Scheduler::new();
    scheduler.add_task(task(&mut ids, 0x40_0000, 0x10_0000));
    scheduler.add_task(task(&mut ids, 0x50_0000, 0x20_0000));
    scheduler.add_task(task(&mut ids, 0x60_0000, 0x30_0000));
    assert_eq!(scheduler.task_count(), 3);
    assert!(!scheduler.is_initialized());
    scheduler.start();
    assert!(scheduler.is_initialized());
    let mut running = vec![scheduler.current_task_id().unwrap()];
    let mut context = *scheduler.current_context().unwrap();
    for _ in 0..7 {
        timer_tick(&mut context, &mut scheduler);
        running.push(scheduler.current_task_id().unwrap());
    }
    assert_eq!(running, vec![1, 2, 3, 1, 2, 3, 1, 2]);
}

#[test]
fn tick_saves_and_restores_registers() {
    let mut ids = TaskIds::new();
    let mut scheduler = Scheduler::new();
    scheduler.add_task(task(&mut ids, 0x40_0000, 0x10_0000));
    scheduler.add_task(task(&mut ids, 0x50_0000, 0x20_0000));
    scheduler.start();
    let mut context = *scheduler.current_context().unwrap();
    context.rax = 7;
    context.rip = 0x40_0002;
    let tick = timer_tick(&mut context, &mut scheduler);
    assert_eq!(tick, Tick::Scheduled { task_id: Some(1), kernel_stack_top: Some(0x20_1000) });
    assert_eq!(context.rip, 0x50_0000);
    assert_eq!(context.rax, 0);
    assert_eq!(scheduler.context(0).unwrap().rax, 7);
    assert_eq!(scheduler.context(0).unwrap().rip, 0x40_0002);
    context.rbx = 9;
    let tick = timer_tick(&mut context, &mut scheduler);
    assert_eq!(tick, Tick::Scheduled { task_id: Some(2), kernel_stack_top: Some(0x10_1000) });
    assert_eq!(context.rip, 0x40_0002);
    assert_eq!(context.rax, 7);
    assert_eq!(scheduler.context(1).unwrap().rbx, 9);
}

#[test]
fn tick_before_start_changes_nothing() {
    let mut ids = TaskIds::new();
    let mut scheduler = Scheduler::new();
    scheduler.add_task(task(&mut ids, 0x40_0000, 0x10_0000));
    scheduler.add_task(task(&mut ids, 0x50_0000, 0x20_0000));
    let mut context = TaskContext::new_user(0x1234, 0x5678);
    let before = context;
    assert_eq!(timer_tick(&mut context, &mut scheduler), Tick::NotStarted { from_usermode: true });
    assert_eq!(context, before);
    context.cs = 0x08;
    assert_eq!(timer_tick(&mut context, &mut scheduler), Tick::NotStarted { from_usermode: false });
    assert_eq!(scheduler.current_task_id(), Some(1));
}

#[test]
fn schedule_needs_two_tasks() {
    let mut ids = TaskIds::new();
    let mut scheduler = Scheduler::new();
    assert_eq!(scheduler.schedule(), None);
    assert_eq!(scheduler.current_context(), None);
    assert_eq!(scheduler.current_kernel_stack_top(), None);
    assert_eq!(scheduler.current_task_id(), None);
    assert!(scheduler.current_context_mut().is_none());
    scheduler.start();
    assert!(!scheduler.is_initialized());
    scheduler.add_task(task(&mut ids, 0x40_0000, 0x10_0000));
    scheduler.start();
    assert_eq!(scheduler.schedule(), None);
    assert_eq!(scheduler.current_kernel_stack_top(), Some(0x10_1000));
    let mut context = *scheduler.current_context().unwrap();
    assert_eq!(
        timer_tick(&mut context, &mut scheduler),
        Tick::Scheduled { task_id: Some(1), kernel_stack_top: None }
    );
    scheduler.current_context_mut().unwrap().rax = 5;
    assert_eq!(scheduler.current_context().unwrap().rax, 5);
}

#[test]
fn schedule_describes_the_switch() {
    let mut ids = TaskIds::new();
    let mut scheduler = Scheduler::new();
    scheduler.add_task(task(&mut ids, 0x40_0000, 0x10_0000));
    scheduler.add_task(task(&mut ids, 0x50_0000, 0x20_0000));
    scheduler.start();
    let switch = scheduler.schedule().unwrap();
    assert_eq!(switch.outgoing, 0);
    assert_eq!(switch.incoming, 1);
    assert_eq!(switch.kernel_stack_top, 0x20_1000);
    let switch = scheduler.schedule().unwrap();
    assert_eq!(switch.outgoing, 1);
    assert_eq!(switch.incoming, 0);
    assert_eq!(switch.kernel_stack_top, 0x10_1000);
}

#[test]
fn user_context_has_user_selectors_and_interrupts_enabled() {
    let context = TaskContext::new_user(0x40_0000, 0x7_FFFF_F000);
    assert_eq!(context.rip, 0x40_0000);
    assert_eq!(context.rsp, 0x7_FFFF_F000);
    assert_eq!(context.cs, 0x23);
    assert_eq!(context.ss, 0x1b);
    assert_eq!(context.cs & 3, 3);
    assert_eq!(context.rflags, 0x200);
    assert_eq!(context.rax, 0);
    assert_eq!(context.r15, 0);
    assert_eq!(TaskContext::default().rflags, 0);
    assert_eq!(TaskContext::default().cs, 0);
}

#[test]
fn first_switch_loads_the_current_task() {
    let mut ids = TaskIds::new();
    let mut scheduler = Scheduler::new();
    scheduler.add_task(task(&mut ids, 0x40_0000, 0x10_0000));
    scheduler.start();
    let first = switch_to_first_task(&scheduler);
    assert_eq!(first.rip, 0x40_0000);
    assert_eq!(first.cs, 0x23);
    assert_eq!(first.rflags, 0x200);
    assert_eq!(first.rsp, 0x7_FFFF_F000);
    assert_eq!(first.ss, 0x1b);
    assert_eq!(first.data_selector, 0x1b);
    assert_eq!(first.kernel_stack_top, 0x10_1000);
}

#[test]
fn task_ids_count_up_from_one() {
    let mut ids = TaskIds::new();
    assert_eq!(ids.take(), 1);
    assert_eq!(ids.take(), 2);
    assert_eq!(ids.take(), 3);
}

#[test]
fn selectors_follow_the_table_layout() {
    let s = selectors();
    assert_eq!(
        s,
        Selectors { code: 0x08, data: 0x10, user_code: 0x23, user_data: 0x1b, tss: 0x28 }
    );
    assert_eq!((s.user_data & !3) + 8, s.user_code & !3);
}

#[test]
fn syscall_setup_values() {
    let s = selectors();
    assert_eq!(star_value(&s), (0x10u64 << 48) | (0x08u64 << 32));
    let features = CpuFeatures { pge: true, fsgsbase: false, mce: true };
    let setup = init_syscalls(0x6000_0011, 0x104, 0x500, features, &s, 0xffff_8000_0010_0000);
    assert_eq!(setup.cr0, 0x0004_0033);
    assert_eq!(setup.cr4, 0xc0);
    assert_eq!(setup.efer, 0x501);
    assert_eq!(setup.lstar, 0xffff_8000_0010_0000);
    assert_eq!(setup.sfmask, 0x200);
    assert_eq!(setup.star, 0x0010_0008_0000_0000);
    let all = CpuFeatures { pge: true, fsgsbase: true, mce: true };
    assert_eq!(init_syscalls(0, 0, 0, all, &s, 0).cr4, 0x1_00c0);
    let none = CpuFeatures { pge: false, fsgsbase: false, mce: false };
    assert_eq!(init_syscalls(0, 0xffff, 0, none, &s, 0).cr4, 0xfefb);
}

#[test]
fn syscall_round_trip() {
    let request = request_of(1, 2, 3, 4, 5, 6);
    assert_eq!(request.number, 1);
    assert_eq!(request.arg1, 2);
    assert_eq!(request.arg4, 5);
    assert_eq!(request.arg5, 6);
    assert_eq!(
        syscall_entry(
            request.number,
            request.arg1,
            request.arg2,
            request.arg3,
            request.arg4,
            request.arg5
        ),
        0
    );
}

#[test]
fn exit_codes_and_vectors() {
    assert_eq!(QemuExitCode::Success.code(), 0x11);
    assert_eq!(QemuExitCode::Failed.code(), 0x13);
    assert_eq!(exit_qemu(QemuExitCode::Success), 8);
    assert_eq!(exit_qemu(QemuExitCode::Failed), 9);
    assert_eq!((exit_qemu(QemuExitCode::Success) << 1) | 1, 0x11);
    assert_eq!(InterruptIndex::Timer.as_u8(), 32);
    assert_eq!(InterruptIndex::Keyboard.as_u8(), 33);
    assert_eq!(InterruptIndex::Mouse.as_u8(), 44);
}

#[test]
fn rotation_is_fair() {
    let mut ids = TaskIds::new();
    let mut scheduler = Scheduler::new();
    for k in 0..4u64 {
        scheduler.add_task(task(&mut ids, 0x40_0000 + k, 0x10_0000 * (k + 1)));
    }
    scheduler.start();
    let mut runs = [0u32; 4];
    for _ in 0..10 {
        let switch = scheduler.schedule().unwrap();
        runs[switch.incoming] += 1;
    }
    assert_eq!(runs, [2, 3, 3, 2]);
}

#[test]
fn built_table_hands_out_the_layout() {
    let tss: &'static x86_64::structures::tss::TaskStateSegment =
        Box::leak(Box::new(x86_64::structures::tss::TaskStateSegment::new()));
    let (table, handed_out) = build(tss);
    assert_eq!(handed_out, selectors());
    assert_eq!(handed_out.user_data, 0x1b);
    assert_eq!(handed_out.tss, 0x28);
    let entries = table.entries();
    assert_eq!(entries.len(), 7);
    let raw = |d: x86_64::structures::gdt::Descriptor| match d {
        x86_64::structures::gdt::Descriptor::UserSegment(value) => value,
        x86_64::structures::gdt::Descriptor::SystemSegment(low, _) => low,
    };
    assert_eq!(entries[0].raw(), 0);
    assert_eq!(entries[1].raw(), raw(x86_64::structures::gdt::Descriptor::kernel_code_segment()));
    assert_eq!(entries[2].raw(), raw(x86_64::structures::gdt::Descriptor::kernel_data_segment()));
    assert_eq!(entries[3].raw(), raw(x86_64::structures::gdt::Descriptor::user_data_segment()));
    assert_eq!(entries[4].raw(), raw(x86_64::structures::gdt::Descriptor::user_code_segment()));
    assert_eq!(entries[5].raw(), raw(x86_64::structures::gdt::Descriptor::tss_segment(tss)));
}
