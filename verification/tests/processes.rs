use kernel_core::proc::{ProcessManager, WaitOutcome};
use kernel_core::sem::{SemOutcome, Semaphore};
use kernel_core::sched::{sched_prio_to_weight, vruntime_delta, ProcessState};
use kernel_core::virtual_memory::{
    user_page, AccessPermission, PageTableEntry, PageTableEntryType, Shareability,
};

#[test]
fn weight_table_matches_known_entries() {
    assert_eq!(sched_prio_to_weight(0), 88761);
    assert_eq!(sched_prio_to_weight(20), 1024);
    assert_eq!(sched_prio_to_weight(39), 15);
}

#[test]
fn vruntime_scales_by_weight() {
    // The default niceness accrues wall time one to one.
    assert_eq!(vruntime_delta(1000, 20), 1000);
    // The strongest weight slows accrual down.
    assert_eq!(vruntime_delta(88761, 0), 1024);
}

#[test]
fn page_table_entry_fields_round_trip() {
    let mut pte = PageTableEntry::new();
    assert!(!pte.valid());
    pte.set_valid(true);
    pte.set_type(PageTableEntryType::TableOrPage);
    pte.set_addr(0x4000_5000, 3);
    pte.set_access_permission(AccessPermission::El1rwEl0rw);
    pte.set_shareability(Shareability::OuterShareable);
    pte.set_attr_index(1);
    assert!(pte.valid());
    assert!(matches!(pte.type_(), PageTableEntryType::TableOrPage));
    assert_eq!(pte.addr(3), 0x4000_5000);
    assert!(matches!(pte.access_permission(), AccessPermission::El1rwEl0rw));
    assert!(matches!(pte.shareability(), Shareability::OuterShareable));
    assert_eq!(pte.attr_index(), 1);
    // The preset leaves the entry a user page of ordinary memory.
    let mut fresh = PageTableEntry::new();
    user_page(&mut fresh);
    assert!(fresh.accessed());
    assert!(matches!(fresh.type_(), PageTableEntryType::TableOrPage));
}

/// Builds a manager with a root process and one idle process running on
/// CPU 0.
fn boot() -> (ProcessManager, usize, usize) {
    let mut pm = ProcessManager::new();
    let idle = pm.create_proc(None);
    {
        let p = &mut pm.procs[idle];
        p.idle = true;
        p.pid = 0;
        p.state = ProcessState::Running;
    }
    let root = pm.create_proc(None);
    pm.procs[root].parent = Some(root);
    pm.root = Some(root);
    pm.cpus[0].cur_proc = Some(idle);
    pm.cpus[0].idle_proc = Some(idle);
    (pm, root, idle)
}

#[test]
fn activate_seeds_at_floor_and_queues() {
    let (mut pm, root, _) = boot();
    pm.activate(root);
    assert_eq!(pm.procs[root].state, ProcessState::Runnable);
    assert!(pm.run_queue.contains(&root));
    // Activating again changes nothing.
    pm.activate(root);
    assert_eq!(pm.run_queue.iter().filter(|&&s| s == root).count(), 1);
}

#[test]
fn yield_dispatches_lowest_vruntime() {
    let (mut pm, root, idle) = boot();
    pm.activate(root);
    let a = pm.create_proc(Some(root));
    pm.activate(a);
    pm.procs[a].sch_info.vruntime = 50_000;
    // Re-queue under the new runtime: drop to sleeping and wake again.
    pm.update_proc_state(a, ProcessState::Sleeping);
    pm.procs[a].sch_info.vruntime = 50_000;
    pm.update_proc_state(a, ProcessState::Runnable);
    pm.yield_(0, 1_000_000);
    let cur = pm.cpus[0].cur_proc.unwrap();
    assert_eq!(cur, root, "the floor-seeded root must run before a laggard");
    assert_ne!(cur, idle);
}

#[test]
fn fairness_under_round_robin_ticks() {
    // Several equal spinners sharing one CPU get counts within a factor
    // of two of each other once every slice costs the same.
    let (mut pm, root, _) = boot();
    pm.activate(root);
    let mut spinners = vec![root];
    for _ in 0..4 {
        let s = pm.create_proc(Some(root));
        pm.activate(s);
        spinners.push(s);
    }
    let mut counts = vec![0usize; pm.procs.len()];
    let mut now: u64 = 1;
    for _ in 0..1000 {
        pm.yield_(0, now);
        let cur = pm.cpus[0].cur_proc.unwrap();
        counts[cur] += 1;
        now += 2000;
    }
    let mut got: Vec<usize> = spinners.iter().map(|&s| counts[s]).collect();
    got.sort();
    let median = got[got.len() / 2];
    for &c in &got {
        assert!(c * 2 >= median && c <= median * 2, "counts {:?}", got);
    }
}

#[test]
fn exit_reparents_children_to_root() {
    let (mut pm, root, _) = boot();
    pm.activate(root);
    // A parent with ten children runs on CPU 0 and exits before them.
    let parent = pm.create_proc(Some(root));
    pm.activate(parent);
    let mut children = Vec::new();
    for _ in 0..10 {
        let c = pm.create_proc(Some(parent));
        children.push(c);
    }
    // Put the parent on the CPU.
    pm.update_proc_state(parent, ProcessState::Sleeping);
    pm.update_proc_state(parent, ProcessState::Running);
    pm.cpus[0].cur_proc = Some(parent);
    pm.exit(0, 7, 10_000);
    assert_eq!(pm.procs[parent].state, ProcessState::Zombie);
    assert_eq!(pm.procs[parent].exit_code, 7);
    assert_eq!(pm.procs[parent].first_child.len(), 0);
    for &c in &children {
        assert_eq!(pm.procs[c].parent, Some(root));
        assert!(pm.procs[root].first_child.contains(&c));
    }
}

#[test]
fn semaphore_posts_wake_newest_first() {
    let mut s = Semaphore::uninit(1);
    assert!(matches!(s.get_or_wait(1), SemOutcome::Got));
    assert!(matches!(s.get_or_wait(2), SemOutcome::Blocked));
    assert!(matches!(s.get_or_wait(3), SemOutcome::Blocked));
    assert!(!s.try_get());
    s.post();
    s.post();
    // Last in, first woken; each exactly once.
    assert_eq!(s.woken, vec![3, 2]);
    assert_eq!(s.sleep_list.len(), 0);
    s.post();
    assert_eq!(s.try_get_all(), 1);
    assert_eq!(s.try_get_all(), 0);
}

#[test]
fn wait_reaps_the_first_dead_child_once() {
    let (mut pm, root, _) = boot();
    assert!(matches!(pm.wait(root), WaitOutcome::NoChildren));
    let a = pm.create_proc(Some(root));
    let b = pm.create_proc(Some(root));
    assert!(matches!(pm.wait(root), WaitOutcome::WouldBlock));
    pm.procs[b].state = ProcessState::Zombie;
    pm.procs[b].exit_code = 42;
    let pid_b = pm.procs[b].pid;
    match pm.wait(root) {
        WaitOutcome::Reaped(pid, code) => {
            assert_eq!(pid, pid_b);
            assert_eq!(code, 42);
        },
        _ => panic!("a dead child must be reaped"),
    }
    // The identifier went back to the pool exactly once, and the child is
    // detached; the live child stays.
    assert_eq!(pm.pid_free, vec![pid_b]);
    assert_eq!(pm.procs[root].first_child, vec![a]);
    assert!(pm.procs[b].parent.is_none());
    assert!(matches!(pm.wait(root), WaitOutcome::WouldBlock));
}
