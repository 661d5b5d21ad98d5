use stride_kernel::fs::{
    sys_close, sys_dup, sys_mail_read, sys_mail_write, sys_pipe, sys_read, sys_write, FileKind,
};
use stride_kernel::logging::{Level, Logger};
use stride_kernel::mm::{le_bytes, page_floor, page_offset, MemorySet, PAGE_SIZE};
use stride_kernel::process::{
    sys_exec, sys_exit, sys_fork, sys_get_time, sys_getpid, sys_mmap, sys_munmap,
    sys_set_priority, sys_spawn, sys_waitpid, sys_yield, TimeVal,
};
use stride_kernel::sched::{pass_less, stride_for, Stride, TaskManager, BIG_STRIDE};
use stride_kernel::task::{fetch_task, get_task, Kernel, TaskStatus};

const BUF: usize = 0x10000;

fn boot() -> Kernel {
    let image: Vec<u8> = vec![0x13, 0x00, 0x00, 0x00];
    let mut k = Kernel::new(&image);
    assert_eq!(sys_mmap(&mut k, BUF, 2 * PAGE_SIZE, 3), 0);
    k
}

fn poke(k: &mut Kernel, pid: usize, va: usize, bytes: &[u8]) {
    let t = k.tasks[pid].as_mut().unwrap();
    assert!(t.memory_set.write_bytes(va, &bytes.to_vec()));
}

fn peek(k: &Kernel, pid: usize, va: usize, len: usize) -> Vec<u8> {
    k.tasks[pid].as_ref().unwrap().memory_set.read_bytes(va, len).unwrap()
}

fn current(k: &Kernel) -> usize {
    k.current.unwrap()
}

#[test]
fn page_split_of_address() {
    assert_eq!(page_floor(0x1234_5678), 0x12345);
    assert_eq!(page_offset(0x1234_5678), 0x678);
    assert_eq!(page_floor(4095), 0);
    assert_eq!(page_floor(4096), 1);
}

#[test]
fn little_endian_encoding() {
    assert_eq!(le_bytes(0x0102_0304, 4), vec![4, 3, 2, 1]);
    assert_eq!(le_bytes(7, 8), vec![7, 0, 0, 0, 0, 0, 0, 0]);
    assert_eq!(le_bytes(0xff, 0), Vec::<u8>::new());
}

#[test]
fn mmap_then_translate() {
    let mut ms = MemorySet::new();
    assert!(ms.mmap(0x3000, 5000, 3, 100));
    let e = ms.translate(3).unwrap();
    assert_eq!(e.ppn, 100);
    assert!(e.readable() && e.writable() && !e.executable());
    assert_eq!(ms.translate(4).unwrap().ppn, 101);
    assert!(ms.translate(5).is_none());
    assert!(ms.translate(2).is_none());
    assert_eq!(ms.read_bytes(0x3000, 4), Some(vec![0, 0, 0, 0]));
}

#[test]
fn mmap_overlap_and_prot_rejected() {
    let mut ms = MemorySet::new();
    assert!(ms.mmap(0x3000, 4096, 1, 0));
    assert!(!ms.mmap(0x3000, 4096, 1, 10));
    assert!(!ms.mmap(0x4000, 4096, 0, 10));
    assert!(!ms.mmap(0x4000, 4096, 8, 10));
    assert!(ms.translate(4).is_none());
}

#[test]
fn sys_mmap_misaligned_changes_nothing() {
    let mut k = boot();
    assert_eq!(sys_mmap(&mut k, 0x20001, 4096, 3), -1);
    let ms = &k.tasks[0].as_ref().unwrap().memory_set;
    assert!(ms.translate(0x20).is_none());
    assert_eq!(sys_mmap(&mut k, 0x20000, 4096, 0), -1);
    assert_eq!(sys_mmap(&mut k, 0x20000, 4096, 9), -1);
    assert_eq!(sys_mmap(&mut k, 0x20000, 4096, 1), 0);
    assert!(k.tasks[0].as_ref().unwrap().memory_set.translate(0x20).is_some());
}

#[test]
fn munmap_whole_and_partial() {
    let mut k = boot();
    assert_eq!(sys_munmap(&mut k, BUF + PAGE_SIZE, 2 * PAGE_SIZE), -1);
    assert_eq!(sys_munmap(&mut k, BUF, PAGE_SIZE), 0);
    let ms = &k.tasks[0].as_ref().unwrap().memory_set;
    assert!(ms.translate(page_floor(BUF)).is_none());
    assert!(ms.translate(page_floor(BUF) + 1).is_some());
    assert_eq!(sys_munmap(&mut k, BUF, PAGE_SIZE), -1);
}

#[test]
fn write_bytes_across_pages() {
    let mut ms = MemorySet::new();
    assert!(ms.mmap(0x5000, 8192, 3, 0));
    let data: Vec<u8> = vec![1, 2, 3, 4];
    assert!(ms.write_bytes(0x5ffe, &data));
    assert_eq!(ms.read_bytes(0x5ffe, 4), Some(data));
    assert!(!ms.write_bytes(0x6ffe, &vec![9, 9, 9, 9]));
    assert_eq!(ms.read_bytes(0x6ffe, 2), Some(vec![0, 0]));
    assert_eq!(ms.read_bytes(0x6ffe, 4), None);
}

#[test]
fn read_str_crosses_page_boundary() {
    let mut ms = MemorySet::new();
    assert!(ms.mmap(0x5000, 8192, 3, 0));
    assert!(ms.write_bytes(0x5ffd, &b"abcde\0".to_vec()));
    assert_eq!(ms.read_str(0x5ffd), Some(b"abcde".to_vec()));
    assert!(ms.write_bytes(0x6ff0, &vec![b'x'; 16]));
    assert_eq!(ms.read_str(0x6ff0), None);
}

#[test]
fn readonly_page_refuses_writes() {
    let mut ms = MemorySet::new();
    assert!(ms.mmap(0x5000, 10, 1, 0));
    assert!(!ms.write_bytes(0x5000, &vec![1]));
    assert!(!ms.check_writable(0x5000, 1));
    assert!(ms.check_readable(0x5000, 4096));
}

#[test]
fn stride_values() {
    assert_eq!(stride_for(16), BIG_STRIDE / 16);
    assert_eq!(stride_for(1), BIG_STRIDE);
    assert!(stride_for(2) >= stride_for(3));
}

#[test]
fn wraparound_comparison() {
    assert!(pass_less(1, 2));
    assert!(!pass_less(2, 1));
    assert!(!pass_less(5, 5));
    assert!(pass_less(u64::MAX - 5, 10));
    assert!(!pass_less(10, u64::MAX - 5));
}

#[test]
fn fetch_takes_smallest_pass_and_credits_stride() {
    let mut m = TaskManager::new();
    m.add(Stride { pid: 1, pass: 300, stride: 10 });
    m.add(Stride { pid: 2, pass: 100, stride: 20 });
    m.add(Stride { pid: 3, pass: 200, stride: 30 });
    let e = m.fetch().unwrap();
    assert_eq!(e, Stride { pid: 2, pass: 120, stride: 20 });
    assert_eq!(m.len(), 2);
    assert_eq!(m.fetch().unwrap().pid, 3);
    assert_eq!(m.fetch().unwrap().pid, 1);
    assert!(m.fetch().is_none());
}

#[test]
fn fetch_breaks_ties_by_pid_and_wraps() {
    let mut m = TaskManager::new();
    m.add(Stride { pid: 7, pass: 50, stride: 1 });
    m.add(Stride { pid: 4, pass: 50, stride: 1 });
    assert_eq!(m.fetch().unwrap().pid, 4);
    let mut w = TaskManager::new();
    w.add(Stride { pid: 1, pass: 3, stride: 1 });
    w.add(Stride { pid: 2, pass: u64::MAX - 1, stride: 5 });
    let e = w.fetch().unwrap();
    assert_eq!(e.pid, 2);
    assert_eq!(e.pass, 3);
    assert!(w.get_task(1).is_some());
    assert!(w.get_task(2).is_none());
}

#[test]
fn higher_priority_gets_more_slices() {
    let mut m = TaskManager::new();
    m.add(Stride { pid: 1, pass: 0, stride: stride_for(2) });
    m.add(Stride { pid: 2, pass: 0, stride: stride_for(8) });
    let mut low = 0u32;
    let mut high = 0u32;
    for _ in 0..1000 {
        let e = m.fetch().unwrap();
        if e.pid == 1 {
            low += 1;
        } else {
            high += 1;
        }
        m.add(e);
    }
    assert!(high >= low);
    assert!(high >= 3 * low);
}

#[test]
fn fork_returns_child_pid_and_zero_in_child() {
    let mut k = boot();
    poke(&mut k, 0, BUF, b"data");
    let pid = sys_fork(&mut k);
    assert!(pid > 0);
    assert_ne!(pid, sys_getpid(&k));
    let child = k.tasks[pid as usize].as_ref().unwrap();
    assert_eq!(child.trap_cx.a0, 0);
    assert_eq!(child.parent, Some(0));
    assert_eq!(child.status, TaskStatus::Ready);
    assert_eq!(k.tasks[0].as_ref().unwrap().children, vec![pid as usize]);
    assert_eq!(peek(&k, pid as usize, BUF, 4), b"data".to_vec());
    let p = k.tasks[0].as_ref().unwrap().memory_set.translate(page_floor(BUF)).unwrap();
    let c = child.memory_set.translate(page_floor(BUF)).unwrap();
    assert_ne!(p.ppn, c.ppn);
    assert_eq!(get_task(&k, pid as usize), Some(pid as usize));
}

#[test]
fn yield_runs_the_smallest_pass() {
    let mut k = boot();
    let pid = sys_fork(&mut k) as usize;
    assert_eq!(sys_yield(&mut k), 0);
    assert_eq!(current(&k), 0);
    assert_eq!(sys_yield(&mut k), 0);
    assert_eq!(current(&k), pid);
    assert_eq!(k.tasks[0].as_ref().unwrap().status, TaskStatus::Ready);
}

fn run_child(k: &mut Kernel, pid: usize) {
    while current(k) != pid {
        sys_yield(k);
    }
}

#[test]
fn waitpid_reaps_exit_code_once() {
    let mut k = boot();
    let pid = sys_fork(&mut k) as usize;
    assert_eq!(sys_waitpid(&mut k, -1, BUF), -2);
    assert_eq!(sys_waitpid(&mut k, 99, BUF), -1);
    run_child(&mut k, pid);
    sys_exit(&mut k, 7);
    assert_eq!(current(&k), 0);
    assert_eq!(k.tasks[pid].as_ref().unwrap().status, TaskStatus::Zombie);
    assert_eq!(sys_waitpid(&mut k, -1, BUF), pid as isize);
    assert_eq!(peek(&k, 0, BUF, 4), vec![7, 0, 0, 0]);
    assert!(k.tasks[pid].is_none());
    assert_eq!(sys_waitpid(&mut k, -1, BUF), -1);
}

#[test]
fn waitpid_negative_code_and_bad_pointer() {
    let mut k = boot();
    let pid = sys_fork(&mut k) as usize;
    run_child(&mut k, pid);
    sys_exit(&mut k, -2);
    assert_eq!(sys_waitpid(&mut k, pid as isize, 0x900000), -1);
    assert!(k.tasks[pid].is_some());
    assert_eq!(sys_waitpid(&mut k, pid as isize, BUF), pid as isize);
    assert_eq!(peek(&k, 0, BUF, 4), vec![0xfe, 0xff, 0xff, 0xff]);
}

#[test]
fn exit_hands_children_to_init() {
    let mut k = boot();
    let a = sys_fork(&mut k) as usize;
    run_child(&mut k, a);
    let b = sys_fork(&mut k) as usize;
    sys_exit(&mut k, 0);
    assert_eq!(k.tasks[b].as_ref().unwrap().parent, Some(0));
    assert_eq!(k.tasks[0].as_ref().unwrap().children, vec![a, b]);
    let t = k.tasks[a].as_ref().unwrap();
    assert!(t.children.is_empty());
    assert!(t.fd_table.is_empty());
    assert!(t.memory_set.pages.is_empty());
}

#[test]
fn pid_is_reused_after_reaping() {
    let mut k = boot();
    let pid = sys_fork(&mut k) as usize;
    run_child(&mut k, pid);
    sys_exit(&mut k, 1);
    assert_eq!(sys_waitpid(&mut k, pid as isize, BUF), pid as isize);
    assert_eq!(sys_fork(&mut k) as usize, pid);
}

#[test]
fn mail_read_truncates_and_discards_rest() {
    let mut k = boot();
    let b = sys_fork(&mut k) as usize;
    assert_eq!(sys_mail_read(&mut k, BUF, 10), -1);
    poke(&mut k, 0, BUF, b"hello");
    assert_eq!(sys_mail_write(&mut k, b, BUF, 5), 5);
    run_child(&mut k, b);
    poke(&mut k, b, BUF, &[0u8; 8]);
    assert_eq!(sys_mail_read(&mut k, BUF, 3), 3);
    assert_eq!(peek(&k, b, BUF, 5), vec![b'h', b'e', b'l', 0, 0]);
    assert_eq!(sys_mail_read(&mut k, BUF, 3), -1);
}

#[test]
fn mail_write_to_full_mailbox_fails() {
    let mut k = boot();
    let b = sys_fork(&mut k) as usize;
    poke(&mut k, 0, BUF, b"m");
    for _ in 0..16 {
        assert_eq!(sys_mail_write(&mut k, b, BUF, 1), 1);
    }
    assert_eq!(sys_mail_write(&mut k, b, BUF, 1), -1);
    assert_eq!(k.tasks[b].as_ref().unwrap().mail.len(), 16);
}

#[test]
fn mail_write_edge_cases() {
    let mut k = boot();
    let b = sys_fork(&mut k) as usize;
    assert_eq!(sys_mail_write(&mut k, 42, BUF, 4), -1);
    assert_eq!(sys_mail_write(&mut k, b, 0x900000, 4), -1);
    assert_eq!(sys_mail_write(&mut k, b, BUF, 0), 0);
    assert_eq!(k.tasks[b].as_ref().unwrap().mail.len(), 0);
    assert_eq!(sys_mail_write(&mut k, b, BUF, 1000), 256);
    assert_eq!(k.tasks[b].as_ref().unwrap().mail[0].len(), 256);
}

#[test]
fn pipe_round_trip() {
    let mut k = boot();
    assert_eq!(sys_pipe(&mut k, BUF), 0);
    let words = peek(&k, 0, BUF, 16);
    let rfd = u64::from_le_bytes(words[0..8].try_into().unwrap()) as usize;
    let wfd = u64::from_le_bytes(words[8..16].try_into().unwrap()) as usize;
    assert_eq!((rfd, wfd), (3, 4));
    poke(&mut k, 0, BUF + 100, b"round trip");
    assert_eq!(sys_write(&mut k, wfd, BUF + 100, 10), 10);
    assert_eq!(sys_write(&mut k, rfd, BUF + 100, 10), -1);
    assert_eq!(sys_read(&mut k, rfd, BUF + 200, 64), 10);
    assert_eq!(peek(&k, 0, BUF + 200, 10), b"round trip".to_vec());
    assert_eq!(sys_read(&mut k, rfd, BUF + 200, 64), 0);
}

#[test]
fn stdout_write_and_stdin_read() {
    let mut k = boot();
    poke(&mut k, 0, BUF, b"hi\n");
    assert_eq!(sys_write(&mut k, 1, BUF, 3), 3);
    assert_eq!(k.console_out, b"hi\n".to_vec());
    assert_eq!(sys_write(&mut k, 0, BUF, 3), -1);
    assert_eq!(sys_write(&mut k, 9, BUF, 3), -1);
    assert_eq!(sys_write(&mut k, 1, 0x900000, 3), -1);
    k.console_in = b"xyz".to_vec();
    assert_eq!(sys_read(&mut k, 0, BUF, 2), 2);
    assert_eq!(peek(&k, 0, BUF, 2), b"xy".to_vec());
    assert_eq!(k.console_in, b"z".to_vec());
    assert_eq!(sys_read(&mut k, 1, BUF, 2), -1);
}

#[test]
fn dup_and_close() {
    let mut k = boot();
    assert_eq!(sys_dup(&mut k, 1), 3);
    assert_eq!(k.tasks[0].as_ref().unwrap().fd_table[3], Some(1));
    assert_eq!(sys_close(&mut k, 3), 0);
    assert_eq!(sys_close(&mut k, 3), -1);
    assert_eq!(sys_close(&mut k, 50), -1);
    assert_eq!(sys_dup(&mut k, 3), -1);
    assert_eq!(sys_close(&mut k, 0), 0);
    assert_eq!(sys_dup(&mut k, 2), 0);
}

#[test]
fn pipe_ends_have_their_kinds() {
    let mut k = boot();
    assert_eq!(sys_pipe(&mut k, BUF), 0);
    let n = k.files.len();
    assert_eq!(k.files[n - 2].kind, FileKind::PipeRead(0));
    assert_eq!(k.files[n - 1].kind, FileKind::PipeWrite(0));
    assert_eq!(sys_pipe(&mut k, 0x900000), -1);
    assert_eq!(k.files.len(), n);
}

#[test]
fn spawn_and_exec_load_programs() {
    let mut k = boot();
    k.add_app(b"hello".to_vec(), vec![1, 2, 3]);
    poke(&mut k, 0, BUF, b"hello\0");
    poke(&mut k, 0, BUF + 16, b"nope\0");
    let pid = sys_spawn(&mut k, BUF);
    assert!(pid > 0);
    let child = k.tasks[pid as usize].as_ref().unwrap();
    assert_eq!(child.parent, Some(0));
    assert_eq!(child.memory_set.read_bytes(0, 3), Some(vec![1, 2, 3]));
    assert_eq!(sys_spawn(&mut k, BUF + 16), -1);
    assert_eq!(sys_exec(&mut k, BUF + 16), -1);
    assert_eq!(sys_exec(&mut k, BUF), 0);
    assert_eq!(peek(&k, 0, 0, 3), vec![1, 2, 3]);
    assert!(k.tasks[0].as_ref().unwrap().memory_set.translate(page_floor(BUF)).is_none());
    assert_eq!(k.tasks[0].as_ref().unwrap().children, vec![pid as usize]);
}

#[test]
fn get_time_writes_seconds_and_micros() {
    let mut k = boot();
    assert_eq!(sys_get_time(&mut k, BUF, 3_500_000), 0);
    let mut expected = le_bytes(3, 8);
    expected.extend(le_bytes(500_000, 8));
    assert_eq!(peek(&k, 0, BUF, 16), expected);
    assert_eq!(sys_get_time(&mut k, 0x900000, 1), -1);
    assert_eq!(TimeVal::from_us(1_000_001), TimeVal { sec: 1, usec: 1 });
}

#[test]
fn set_priority_bounds() {
    let mut k = boot();
    assert_eq!(sys_set_priority(&mut k, 0), -1);
    assert_eq!(sys_set_priority(&mut k, 1), 1);
    assert_eq!(sys_set_priority(&mut k, 4), 4);
    assert_eq!(k.tasks[0].as_ref().unwrap().priority, 4);
}

#[test]
fn fetch_on_empty_ready_set() {
    let mut k = boot();
    sys_exit(&mut k, 0);
    assert!(k.current.is_none());
    assert!(fetch_task(&mut k).is_none());
}

#[test]
fn logger_level_from_setting() {
    assert_eq!(Logger::init(Some(b"DeBuG".as_slice())), Level::Debug);
    assert_eq!(Logger::init(Some(b"error".as_slice())), Level::Error);
    assert_eq!(Logger::init(Some(b"warn".as_slice())), Level::Warn);
    assert_eq!(Logger::init(Some(b"TRACE".as_slice())), Level::Trace);
    assert_eq!(Logger::init(Some(b"verbose".as_slice())), Level::Info);
    assert_eq!(Logger::init(None), Level::Info);
    assert_eq!(Logger::color(Level::Warn), 93);
    assert_eq!(Logger::color(Level::Trace), 90);
    assert!(Logger.enabled(Level::Error));
}
