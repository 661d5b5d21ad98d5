use stride_kernel::fs::{
    sys_close, sys_fstat, sys_linkat, sys_open, sys_read, sys_unlinkat, sys_write, O_CREATE,
    O_RDWR, O_TRUNC, O_WRONLY,
};
use stride_kernel::mm::PAGE_SIZE;
use stride_kernel::process::sys_mmap;
use stride_kernel::task::Kernel;

const BUF: usize = 0x10000;

fn boot_fs() -> Kernel {
    let mut k = Kernel::new(&vec![0u8; 4]);
    assert_eq!(sys_mmap(&mut k, BUF, 2 * PAGE_SIZE, 3), 0);
    k
}

fn poke(k: &mut Kernel, va: usize, bytes: &[u8]) {
    let t = k.tasks[0].as_mut().unwrap();
    assert!(t.memory_set.write_bytes(va, &bytes.to_vec()));
}

fn peek(k: &Kernel, va: usize, len: usize) -> Vec<u8> {
    k.tasks[0].as_ref().unwrap().memory_set.read_bytes(va, len).unwrap()
}

#[test]
fn open_missing_without_create_fails() {
    let mut k = boot_fs();
    poke(&mut k, BUF, b"file\0");
    assert_eq!(sys_open(&mut k, BUF, O_RDWR), -1);
    assert_eq!(sys_open(&mut k, BUF, 0x8000), -1);
    assert_eq!(sys_open(&mut k, 0x900000, O_CREATE), -1);
    assert!(k.dir.is_empty());
}

#[test]
fn create_write_reopen_read() {
    let mut k = boot_fs();
    poke(&mut k, BUF, b"file\0");
    poke(&mut k, BUF + 64, b"hello world");
    let fd = sys_open(&mut k, BUF, O_CREATE | O_WRONLY);
    assert_eq!(fd, 3);
    assert_eq!(sys_write(&mut k, fd as usize, BUF + 64, 11), 11);
    assert_eq!(sys_read(&mut k, fd as usize, BUF + 128, 11), -1);
    assert_eq!(sys_close(&mut k, fd as usize), 0);
    let rd = sys_open(&mut k, BUF, 0);
    assert_eq!(rd, 3);
    assert_eq!(sys_read(&mut k, rd as usize, BUF + 128, 5), 5);
    assert_eq!(peek(&k, BUF + 128, 5), b"hello".to_vec());
    assert_eq!(sys_read(&mut k, rd as usize, BUF + 128, 100), 6);
    assert_eq!(peek(&k, BUF + 128, 6), b" world".to_vec());
    assert_eq!(sys_read(&mut k, rd as usize, BUF + 128, 100), 0);
    assert_eq!(sys_write(&mut k, rd as usize, BUF + 64, 1), -1);
}

#[test]
fn overwrite_in_place_and_truncate() {
    let mut k = boot_fs();
    poke(&mut k, BUF, b"f\0");
    poke(&mut k, BUF + 64, b"abcdef");
    let fd = sys_open(&mut k, BUF, O_CREATE | O_RDWR) as usize;
    assert_eq!(sys_write(&mut k, fd, BUF + 64, 6), 6);
    let fd2 = sys_open(&mut k, BUF, O_RDWR) as usize;
    assert_eq!(sys_write(&mut k, fd2, BUF + 64, 2), 2);
    assert_eq!(k.inodes[0], b"abcdef".to_vec());
    poke(&mut k, BUF + 64, b"XY");
    assert_eq!(sys_write(&mut k, fd2, BUF + 64, 2), 2);
    assert_eq!(k.inodes[0], b"abXYef".to_vec());
    let fd3 = sys_open(&mut k, BUF, O_RDWR | O_TRUNC) as usize;
    assert!(k.inodes[0].is_empty());
    assert_eq!(sys_write(&mut k, fd, BUF + 64, 1), 1);
    assert_eq!(k.inodes[0], vec![0, 0, 0, 0, 0, 0, b'X']);
    assert_eq!(fd3, 5);
}

#[test]
fn link_unlink_and_fstat() {
    let mut k = boot_fs();
    poke(&mut k, BUF, b"a\0");
    poke(&mut k, BUF + 16, b"b\0");
    poke(&mut k, BUF + 32, b"c\0");
    let fd = sys_open(&mut k, BUF, O_CREATE | O_RDWR) as usize;
    assert_eq!(sys_linkat(&mut k, BUF, BUF + 16), 0);
    assert_eq!(sys_linkat(&mut k, BUF, BUF + 16), -1);
    assert_eq!(sys_linkat(&mut k, BUF + 32, BUF + 48), -1);
    assert_eq!(k.dir.len(), 2);
    assert_eq!(sys_fstat(&mut k, fd, BUF + 256), 0);
    let st = peek(&k, BUF + 256, 80);
    assert_eq!(&st[0..8], &[0u8; 8]);
    assert_eq!(&st[8..16], &[0u8; 8]);
    assert_eq!(&st[16..20], &[0x00, 0x80, 0x00, 0x00]);
    assert_eq!(&st[20..24], &[2, 0, 0, 0]);
    assert!(st[24..80].iter().all(|b| *b == 0));
    assert_eq!(sys_unlinkat(&mut k, BUF), 0);
    assert_eq!(sys_unlinkat(&mut k, BUF), -1);
    assert_eq!(sys_fstat(&mut k, fd, BUF + 256), 0);
    assert_eq!(peek(&k, BUF + 276, 4), vec![1, 0, 0, 0]);
    assert_eq!(sys_fstat(&mut k, 1, BUF + 256), 0);
    let con = peek(&k, BUF + 256, 24);
    assert_eq!(&con[8..16], &[1, 0, 0, 0, 0, 0, 0, 0]);
    assert_eq!(&con[16..24], &[0x00, 0x20, 0x00, 0x00, 1, 0, 0, 0]);
    assert_eq!(sys_fstat(&mut k, fd, 0x900000), -1);
    assert_eq!(sys_fstat(&mut k, 77, BUF + 256), -1);
}

#[test]
fn fstat_reports_pipe_ends() {
    let mut k = boot_fs();
    assert_eq!(stride_kernel::fs::sys_pipe(&mut k, BUF), 0);
    assert_eq!(sys_fstat(&mut k, 3, BUF + 256), 0);
    let st = peek(&k, BUF + 256, 24);
    assert_eq!(&st[8..16], &[0u8; 8]);
    assert_eq!(&st[16..24], &[0x00, 0x10, 0x00, 0x00, 1, 0, 0, 0]);
    assert_eq!(sys_close(&mut k, 3), 0);
    assert_eq!(sys_fstat(&mut k, 3, BUF + 256), -1);
}

#[test]
fn open_reuses_lowest_closed_slot() {
    let mut k = boot_fs();
    poke(&mut k, BUF, b"f\0");
    assert_eq!(sys_close(&mut k, 1), 0);
    let fd = sys_open(&mut k, BUF, O_CREATE | O_RDWR);
    assert_eq!(fd, 1);
    assert_eq!(k.tasks[0].as_ref().unwrap().fd_table.len(), 3);
    assert_eq!(k.tasks[0].as_ref().unwrap().fd_table[2], Some(1));
}
