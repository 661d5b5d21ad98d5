use vstd::prelude::*;
use crate::mm::{le_bytes, le_seq, page_of, MemorySet};
use crate::task::{filled, fd_room, lowest_free, pipe_room, lemma_filled_any, lemma_lowest_free_unique, get_task, same_but_memory, Kernel, TaskControlBlock, MAIL_CAPACITY, MAIL_MAX_LEN};

verus! {

/// What an open file object reads from and writes to.
#[derive(Clone, Copy, Debug, PartialEq, Eq, Structural)]
pub enum FileKind {
    /// The console's input.
    Stdin,
    /// The console's output.
    Stdout,
    /// The reading end of the pipe with that number.
    PipeRead(usize),
    /// The writing end of the pipe with that number.
    PipeWrite(usize),
    /// A regular file: inode number and the current offset in it.
    Inode(usize, usize),
}

/// A name in the root directory and the inode it names.
pub struct DirEntry {
    pub name: Vec<u8>,
    pub ino: usize,
}

/// An open file object; descriptors of one or more tasks share it by its number.
#[derive(Clone, Copy, Debug, PartialEq, Eq, Structural)]
pub struct OpenFile {
    pub kind: FileKind,
    pub readable: bool,
    pub writable: bool,
}

/// Descriptor `fd` of task `t` names an open file.
pub open spec fn fd_open(t: TaskControlBlock, fd: int) -> bool {
    0 <= fd < t.fd_table@.len() && t.fd_table@[fd] is Some
}

/// The two descriptors agree in everything but the descriptor table.
pub open spec fn same_but_fds(a: TaskControlBlock, b: TaskControlBlock) -> bool {
    &&& a.pid == b.pid
    &&& a.parent == b.parent
    &&& a.children == b.children
    &&& a.status == b.status
    &&& a.exit_code == b.exit_code
    &&& a.priority == b.priority
    &&& a.pass == b.pass
    &&& a.trap_cx == b.trap_cx
    &&& a.memory_set == b.memory_set
    &&& a.mail == b.mail
}

/// The two descriptors agree in everything but the mailbox.
pub open spec fn same_but_mail(a: TaskControlBlock, b: TaskControlBlock) -> bool {
    &&& a.pid == b.pid
    &&& a.parent == b.parent
    &&& a.children == b.children
    &&& a.status == b.status
    &&& a.exit_code == b.exit_code
    &&& a.priority == b.priority
    &&& a.pass == b.pass
    &&& a.trap_cx == b.trap_cx
    &&& a.memory_set == b.memory_set
    &&& a.fd_table == b.fd_table
}

/// Closes descriptor `fd` of the running task. Returns 0, or -1 without any change where
/// `fd` is not open.
pub fn sys_close(k: &mut Kernel, fd: usize) -> (r: isize)
    requires
        old(k).running(),
    ensures
        final(k).running(),
        final(k).current == old(k).current,
        r == 0 || r == -1,
        r == 0 <==> fd_open(old(k).tcb(old(k).cur()), fd as int),
        r == -1 ==> final(k).same(old(k)),
        r == 0 ==> final(k).tcb(old(k).cur()).fd_table@ == old(k).tcb(old(k).cur()).fd_table@.update(
            fd as int,
            None,
        ) && same_but_fds(final(k).tcb(old(k).cur()), old(k).tcb(old(k).cur())),
        r == 0 ==> final(k).same_except_tasks(old(k)) && final(k).others_unchanged(old(k), old(k).cur()),
        forall|q: int| #[trigger] final(k).live(q) == old(k).live(q),
{
    let c = k.current.unwrap();
    let t0 = k.task_ref(c);
    if fd >= t0.fd_table.len() || t0.fd_table[fd].is_none() {
        return -1;
    }
    let ghost k0 = *k;
    proof {
        assert(k0.slot_wf(c as int));
    }
    let mut t = k.take_task(c);
    t.fd_table.set(fd, None);
    k.put_task(c, t);
    proof {
        assert(k.tasks@ =~= k0.tasks@.update(c as int, Some(k.tcb(c as int))));
        k0.lemma_replace(k, c as int);
    }
    0
}

/// Gives descriptor `fd` of the running task a second descriptor, the lowest free one, that
/// names the same open file. Returns it, or -1 without any change where `fd` is not open or
/// the lowest free descriptor would not fit the result (see `fd_room`).
pub fn sys_dup(k: &mut Kernel, fd: usize) -> (r: isize)
    requires
        old(k).running(),
    ensures
        final(k).running(),
        final(k).current == old(k).current,
        !fd_open(old(k).tcb(old(k).cur()), fd as int) ==> r == -1,
        !fd_room(old(k).tcb(old(k).cur()).fd_table@) ==> r == -1,
        fd_open(old(k).tcb(old(k).cur()), fd as int) && fd_room(old(k).tcb(old(k).cur()).fd_table@)
            ==> r != -1,
        r == -1 ==> final(k).same(old(k)),
        r != -1 ==> {
            let old_fds = old(k).tcb(old(k).cur()).fd_table@;
            let new_fds = final(k).tcb(old(k).cur()).fd_table@;
            &&& fd_open(old(k).tcb(old(k).cur()), fd as int)
            &&& lowest_free(old_fds, r as int)
            &&& new_fds == filled(old_fds, r as int, old_fds[fd as int]->Some_0)
            &&& same_but_fds(final(k).tcb(old(k).cur()), old(k).tcb(old(k).cur()))
            &&& final(k).same_except_tasks(old(k))
            &&& forall|q: int|
                0 <= q < old(k).tasks@.len() && q != old(k).cur() ==> #[trigger] final(k).tcb(q)
                    == old(k).tcb(q)
        },
        forall|q: int| #[trigger] final(k).live(q) == old(k).live(q),
{
    let c = k.current.unwrap();
    let t0 = k.task_ref(c);
    if fd >= t0.fd_table.len() || t0.fd_table[fd].is_none() {
        return -1;
    }
    let lowest = t0.lowest_free_fd();
    if lowest >= isize::MAX as usize {
        proof {
            if fd_room(t0.fd_table@) {
                let r = choose|r: int| #[trigger] lowest_free(t0.fd_table@, r) && r < isize::MAX;
                lemma_lowest_free_unique(t0.fd_table@, r, lowest as int);
            }
        }
        return -1;
    }
    let file = t0.fd_table[fd];
    let ghost k0 = *k;
    proof {
        assert(k0.slot_wf(c as int));
    }
    let mut t = k.take_task(c);
    let nfd = t.alloc_fd();
    t.fd_table.set(nfd, file);
    k.put_task(c, t);
    proof {
        assert(k.tasks@ =~= k0.tasks@.update(c as int, Some(k.tcb(c as int))));
        let nt = k.tcb(c as int).fd_table@;
        assert forall|i: int| 0 <= i < nt.len() && (#[trigger] nt[i]) is Some implies nt[i]->Some_0
            < k0.files@.len() by {
            if i != nfd && i < k0.tcb(c as int).fd_table@.len() {
                assert(nt[i] == k0.tcb(c as int).fd_table@[i]);
            }
        }
        k0.lemma_replace(k, c as int);
        assert(nt =~= filled(k0.tcb(c as int).fd_table@, nfd as int, file->Some_0));
        lemma_lowest_free_unique(k0.tcb(c as int).fd_table@, nfd as int, lowest as int);
    }
    nfd as isize
}

/// Leaves a message of the first `min(len, 256)` bytes at `buf` in the mailbox of task
/// `pid`, which must be running or ready. Returns the number of bytes, or -1 without any
/// change where those bytes are not readable, no such task runs or waits, or its mailbox
/// already holds 16 messages. A message of no bytes is accepted and not stored.
pub fn sys_mail_write(k: &mut Kernel, pid: usize, buf: usize, len: usize) -> (r: isize)
    requires
        old(k).running(),
    ensures
        final(k).running(),
        final(k).current == old(k).current,
        ({
            let n = if len > MAIL_MAX_LEN { MAIL_MAX_LEN as int } else { len as int };
            let mem = old(k).tcb(old(k).cur()).memory_set;
            let target_ok = old(k).current == Some(pid) || old(k).manager.contains(pid);
            &&& r == -1 <==> !mem.readable_range(buf as int, n) || !target_ok
                || old(k).tcb(pid as int).mail@.len() == MAIL_CAPACITY
            &&& r != -1 ==> r == n
            &&& (r == -1 || n == 0) ==> final(k).same(old(k))
            &&& r != -1 && n > 0 ==> {
                &&& final(k).tcb(pid as int).mail@.len() == old(k).tcb(pid as int).mail@.len() + 1
                &&& forall|i: int|
                    0 <= i < old(k).tcb(pid as int).mail@.len() ==> #[trigger] final(k).tcb(
                        pid as int,
                    ).mail@[i] == old(k).tcb(pid as int).mail@[i]
                &&& final(k).tcb(pid as int).mail@.last()@.len() == n
                &&& forall|j: int|
                    0 <= j < n ==> #[trigger] final(k).tcb(pid as int).mail@.last()@[j] == mem.byte_at(
                        buf + j,
                    )
                &&& same_but_mail(final(k).tcb(pid as int), old(k).tcb(pid as int))
                &&& forall|q: int|
                    0 <= q < old(k).tasks@.len() && q != pid ==> #[trigger] final(k).tcb(q) == old(
                        k,
                    ).tcb(q)
            }
        }),
        forall|q: int| #[trigger] final(k).live(q) == old(k).live(q),
{
    let n = if len > MAIL_MAX_LEN { MAIL_MAX_LEN } else { len };
    let c = k.current.unwrap();
    proof {
        assert(k.slot_wf(c as int));
    }
    let bytes = match k.task_ref(c).memory_set.read_bytes(buf, n) {
        Some(b) => b,
        None => {
            return -1;
        },
    };
    let target = match get_task(k, pid) {
        Some(p) => p,
        None => {
            return -1;
        },
    };
    if k.task_ref(target).mail.len() == MAIL_CAPACITY {
        return -1;
    }
    if n == 0 {
        return 0;
    }
    let ghost k0 = *k;
    proof {
        assert(k0.slot_wf(target as int));
    }
    let mut t = k.take_task(target);
    t.mail.push_back(bytes);
    k.put_task(target, t);
    proof {
        assert(k.tasks@ =~= k0.tasks@.update(target as int, Some(k.tcb(target as int))));
        let m = k.tcb(target as int).mail@;
        assert forall|i: int| 0 <= i < m.len() implies (#[trigger] m[i])@.len() <= MAIL_MAX_LEN by {
            if i < m.len() - 1 {
                assert(m[i] == k0.tcb(target as int).mail@[i]);
            }
        }
        k0.lemma_replace(k, target as int);
    }
    n as isize
}

/// Takes the oldest message from the running task's mailbox and copies at most
/// `min(len, 256)` bytes of it to `buf`; the rest of that message is dropped. Returns the
/// number of bytes copied, or -1 without any change where the destination is not writable
/// or the mailbox is empty. With `len` 0 nothing is taken and 0 returned.
pub fn sys_mail_read(k: &mut Kernel, buf: usize, len: usize) -> (r: isize)
    requires
        old(k).running(),
    ensures
        final(k).running(),
        final(k).current == old(k).current,
        ({
            let n = if len > MAIL_MAX_LEN { MAIL_MAX_LEN as int } else { len as int };
            let c = old(k).cur();
            let mem = old(k).tcb(c).memory_set;
            let mail = old(k).tcb(c).mail@;
            &&& r == -1 <==> !mem.writable_range(buf as int, n) || mail.len() == 0
            &&& (r == -1 || n == 0) ==> final(k).same(old(k))
            &&& r != -1 && n > 0 ==> {
                let msg = mail[0]@;
                let m = if n < msg.len() { n } else { msg.len() as int };
                &&& r == m
                &&& final(k).same_except_tasks(old(k))
                &&& final(k).others_unchanged(old(k), c)
                &&& {
                    let t = final(k).tcb(c);
                    let t0 = old(k).tcb(c);
                    &&& t.pid == t0.pid && t.parent == t0.parent && t.children == t0.children
                    &&& t.status == t0.status && t.exit_code == t0.exit_code
                    &&& t.priority == t0.priority && t.pass == t0.pass && t.trap_cx == t0.trap_cx
                    &&& t.fd_table == t0.fd_table
                }
                &&& final(k).tcb(c).mail@ == mail.subrange(1, mail.len() as int)
                &&& final(k).tcb(c).memory_set.same_layout(&mem)
                &&& forall|va: int|
                    #[trigger] final(k).tcb(c).memory_set.has(page_of(va)) ==> final(k).tcb(
                        c,
                    ).memory_set.byte_at(va) == if buf <= va < buf + m {
                        msg[va - buf]
                    } else {
                        mem.byte_at(va)
                    }
            }
        }),
        forall|q: int| #[trigger] final(k).live(q) == old(k).live(q),
{
    let n = if len > MAIL_MAX_LEN { MAIL_MAX_LEN } else { len };
    let c = k.current.unwrap();
    proof {
        assert(k.slot_wf(c as int));
    }
    if !k.task_ref(c).memory_set.check_writable(buf, n) {
        return -1;
    }
    if k.task_ref(c).mail.len() == 0 {
        return -1;
    }
    if n == 0 {
        return 0;
    }
    let ghost k0 = *k;
    let mut t = k.take_task(c);
    let msg = t.mail.pop_front().unwrap();
    k.put_task(c, t);
    proof {
        assert(k.tasks@ =~= k0.tasks@.update(c as int, Some(k.tcb(c as int))));
        let m = k.tcb(c as int).mail@;
        assert forall|i: int| 0 <= i < m.len() implies (#[trigger] m[i])@.len() <= MAIL_MAX_LEN by {
            assert(m[i] == k0.tcb(c as int).mail@[i + 1]);
        }
        k0.lemma_replace(k, c as int);
    }
    let m = if n < msg.len() { n } else { msg.len() };
    let mut out: Vec<u8> = Vec::new();
    let mut i: usize = 0;
    while i < m
        invariant
            m <= msg@.len(),
            i <= m,
            out@ == msg@.subrange(0, i as int),
        decreases m - i,
    {
        out.push(msg[i]);
        i = i + 1;
        assert(out@ =~= msg@.subrange(0, i as int));
    }
    let ghost k1 = *k;
    let ok = k.copy_out(c, buf, &out);
    proof {
        assert(k1.tcb(c as int).memory_set == k0.tcb(c as int).memory_set);
        assert(ok);
        assert forall|q: int| 0 <= q < k0.tasks@.len() && q != c implies #[trigger] k.tcb(q) == k0.tcb(q) by {
            assert(k1.tcb(q) == k0.tcb(q));
        }
        assert forall|q: int| #[trigger] k.live(q) == k0.live(q) by {
            assert(k1.live(q) == k0.live(q));
        }
    }
    m as isize
}

/// The `len` bytes at `start` in address space `mem`.
pub open spec fn user_bytes(mem: MemorySet, start: int, len: int) -> Seq<u8> {
    Seq::new(len as nat, |j: int| mem.byte_at(start + j))
}

/// The open file that descriptor `fd` of the running task names.
pub open spec fn file_of(k: &Kernel, fd: int) -> OpenFile {
    k.files@[k.tcb(k.cur()).fd_table@[fd]->Some_0 as int]
}

/// What `write(fd, buf, len)` does, from state `k0` with result `r` and state `k1`.
pub open spec fn write_result(k0: &Kernel, k1: &Kernel, fd: int, buf: int, len: int, r: isize) -> bool {
    let c = k0.cur();
    let mem = k0.tcb(c).memory_set;
    let ok = fd_open(k0.tcb(c), fd) && file_of(k0, fd).writable && mem.readable_range(buf, len)
        && len <= isize::MAX && match file_of(k0, fd).kind {
        FileKind::Stdout => true,
        FileKind::PipeWrite(_) => true,
        FileKind::Inode(_, off) => off + len <= usize::MAX,
        _ => false,
    };
    let bytes = user_bytes(mem, buf, len);
    let fid = k0.tcb(c).fd_table@[fd]->Some_0 as int;
    &&& k1.current == k0.current
    &&& k1.tasks == k0.tasks
    &&& k1.manager == k0.manager && k1.apps == k0.apps && k1.dir == k0.dir
    &&& k1.console_in == k0.console_in && k1.next_ppn == k0.next_ppn
    &&& !(ok && file_of(k0, fd).kind is Inode) ==> k1.files == k0.files
    &&& !(ok && file_of(k0, fd).kind is Inode) ==> k1.inodes == k0.inodes
    &&& !(ok && file_of(k0, fd).kind is PipeWrite) ==> k1.pipes == k0.pipes
    &&& !(ok && file_of(k0, fd).kind is Stdout) ==> k1.console_out == k0.console_out
    &&& r == -1 <==> !ok
    &&& !ok ==> k1.same(k0)
    &&& ok ==> r == len && match file_of(k0, fd).kind {
        FileKind::Stdout => k1.console_out@ == k0.console_out@ + bytes && k1.pipes == k0.pipes,
        FileKind::PipeWrite(p) => k1.pipes@.len() == k0.pipes@.len() && k1.pipes@[p as int]@
            == k0.pipes@[p as int]@ + bytes && (forall|q: int|
            0 <= q < k0.pipes@.len() && q != p ==> #[trigger] k1.pipes@[q] == k0.pipes@[q])
            && k1.console_out == k0.console_out,
        FileKind::Inode(ino, off) => k1.inodes@.len() == k0.inodes@.len() && k1.inodes@[ino as int]@
            == spliced(k0.inodes@[ino as int]@, off as int, bytes) && (forall|q: int|
            0 <= q < k0.inodes@.len() && q != ino ==> #[trigger] k1.inodes@[q] == k0.inodes@[q])
            && k1.files@ == k0.files@.update(
            fid,
            OpenFile {
                kind: FileKind::Inode(ino, (off + len) as usize),
                readable: file_of(k0, fd).readable,
                writable: true,
            },
        ),
        _ => true,
    }
}

/// File contents `d` after `b` is written at offset `off`; a gap past the end reads as zeros.
pub open spec fn spliced(d: Seq<u8>, off: int, b: Seq<u8>) -> Seq<u8> {
    let head = if off < d.len() { off } else { d.len() as int };
    let gap = if off > d.len() { off - d.len() } else { 0 };
    let tail = if off + b.len() < d.len() { d.subrange(off + b.len(), d.len() as int) } else { Seq::empty() };
    d.subrange(0, head) + Seq::new(gap as nat, |i: int| 0u8) + b + tail
}

/// The bytes of file contents `d` from offset `off` on.
pub open spec fn from_offset(d: Seq<u8>, off: int) -> Seq<u8> {
    if off < d.len() {
        d.subrange(off, d.len() as int)
    } else {
        Seq::empty()
    }
}

/// The bytes that a read of at most `len` bytes takes from `src`.
pub open spec fn taken(src: Seq<u8>, len: int) -> Seq<u8> {
    if len < src.len() {
        src.subrange(0, len)
    } else {
        src
    }
}

/// What `read(fd, buf, len)` does, from state `k0` with result `r` and state `k1`.
pub open spec fn read_result(k0: &Kernel, k1: &Kernel, fd: int, buf: int, len: int, r: isize) -> bool {
    let c = k0.cur();
    let mem = k0.tcb(c).memory_set;
    let ok = fd_open(k0.tcb(c), fd) && file_of(k0, fd).readable && mem.writable_range(buf, len)
        && len <= isize::MAX && match file_of(k0, fd).kind {
        FileKind::Stdin => true,
        FileKind::PipeRead(_) => true,
        FileKind::Inode(_, _) => true,
        _ => false,
    };
    let src = match file_of(k0, fd).kind {
        FileKind::PipeRead(p) => k0.pipes@[p as int]@,
        FileKind::Inode(ino, off) => from_offset(k0.inodes@[ino as int]@, off as int),
        _ => k0.console_in@,
    };
    let got = taken(src, len);
    let fid = k0.tcb(c).fd_table@[fd]->Some_0 as int;
    &&& k1.current == k0.current
    &&& k1.manager == k0.manager && k1.apps == k0.apps && k1.dir == k0.dir
    &&& k1.console_out == k0.console_out && k1.next_ppn == k0.next_ppn
    &&& k1.inodes == k0.inodes
    &&& !(ok && file_of(k0, fd).kind is Inode) ==> k1.files == k0.files
    &&& !(ok && file_of(k0, fd).kind is Stdin) ==> k1.console_in == k0.console_in
    &&& r == -1 <==> !ok
    &&& !ok ==> k1.same(k0)
    &&& ok ==> {
        &&& r == got.len()
        &&& k1.others_unchanged(k0, c)
        &&& same_but_memory(k1.tcb(c), k0.tcb(c))
        &&& k1.tcb(c).memory_set.same_layout(&mem)
        &&& forall|va: int|
            #[trigger] k1.tcb(c).memory_set.has(page_of(va)) ==> k1.tcb(c).memory_set.byte_at(va)
                == if buf <= va < buf + got.len() {
                got[va - buf]
            } else {
                mem.byte_at(va)
            }
        &&& match file_of(k0, fd).kind {
            FileKind::PipeRead(p) => k1.pipes@.len() == k0.pipes@.len() && k1.pipes@[p as int]@
                == src.subrange(got.len() as int, src.len() as int) && forall|q: int|
                0 <= q < k0.pipes@.len() && q != p ==> #[trigger] k1.pipes@[q] == k0.pipes@[q],
            FileKind::Inode(ino, off) => k1.pipes == k0.pipes && k1.files@ == k0.files@.update(
                fid,
                OpenFile {
                    kind: FileKind::Inode(ino, (off + got.len()) as usize),
                    readable: true,
                    writable: file_of(k0, fd).writable,
                },
            ),
            _ => k1.pipes == k0.pipes && k1.console_in@ == src.subrange(
                got.len() as int,
                src.len() as int,
            ),
        }
    }
}

/// File contents `d` with `b` written at offset `off`.
fn splice(d: &Vec<u8>, off: usize, b: &Vec<u8>) -> (r: Vec<u8>)
    requires
        off + b@.len() <= usize::MAX,
    ensures
        r@ == spliced(d@, off as int, b@),
{
    let dl = d.len();
    let head = if off < dl { off } else { dl };
    let mut out = slice_copy(d, 0, head);
    let mut i: usize = head;
    while i < off
        invariant
            head <= i <= off || (i == head && off < head),
            head == (if off < dl { off } else { dl }),
            out@ == d@.subrange(0, head as int) + Seq::new((i - head) as nat, |j: int| 0u8),
        decreases off - i,
    {
        out.push(0);
        i = i + 1;
        assert(out@ =~= d@.subrange(0, head as int) + Seq::new((i - head) as nat, |j: int| 0u8));
    }
    let ghost pre = out@;
    let mut j: usize = 0;
    while j < b.len()
        invariant
            j <= b@.len(),
            out@ == pre + b@.subrange(0, j as int),
        decreases b@.len() - j,
    {
        out.push(b[j]);
        j = j + 1;
        assert(out@ =~= pre + b@.subrange(0, j as int));
    }
    let end = off + b.len();
    if end < dl {
        let mut tail = slice_copy(d, end, dl);
        out.append(&mut tail);
    }
    proof {
        let gap: int = if off > dl { off - dl } else { 0 };
        assert(pre =~= d@.subrange(0, head as int) + Seq::new(gap as nat, |j: int| 0u8));
        assert(b@.subrange(0, b@.len() as int) =~= b@);
        assert(out@ =~= spliced(d@, off as int, b@));
    }
    out
}

/// Bytes `[from, to)` of `v`, copied.
fn slice_copy(v: &Vec<u8>, from: usize, to: usize) -> (r: Vec<u8>)
    requires
        from <= to <= v@.len(),
    ensures
        r@ == v@.subrange(from as int, to as int),
{
    let mut out: Vec<u8> = Vec::new();
    let mut i: usize = from;
    while i < to
        invariant
            from <= i <= to,
            to <= v@.len(),
            out@ == v@.subrange(from as int, i as int),
        decreases to - i,
    {
        out.push(v[i]);
        i = i + 1;
        assert(out@ =~= v@.subrange(from as int, i as int));
    }
    out
}

/// Writes `len` bytes from `buf` in the running task's memory to the file that `fd` names:
/// the console's output, a pipe, or a regular file at its offset. See `write_result`.
pub fn sys_write(k: &mut Kernel, fd: usize, buf: usize, len: usize) -> (r: isize)
    requires
        old(k).running(),
    ensures
        final(k).running(),
        write_result(old(k), final(k), fd as int, buf as int, len as int, r),
{
    let c = k.current.unwrap();
    proof {
        assert(k.slot_wf(c as int));
    }
    let t = k.task_ref(c);
    if fd >= t.fd_table.len() || t.fd_table[fd].is_none() || len > isize::MAX as usize {
        return -1;
    }
    let fid = t.fd_table[fd].unwrap();
    let file = k.files[fid];
    if !file.writable {
        return -1;
    }
    let mut bytes = match t.memory_set.read_bytes(buf, len) {
        Some(b) => b,
        None => {
            return -1;
        },
    };
    assert(bytes@ =~= user_bytes(k.tcb(c as int).memory_set, buf as int, len as int));
    let ghost k0 = *k;
    match file.kind {
        FileKind::Stdout => {
            k.console_out.append(&mut bytes);
            proof {
                k0.lemma_same_tasks(k);
            }
            len as isize
        },
        FileKind::PipeWrite(p) => {
            let mut pipe: Vec<u8> = Vec::new();
            k.pipes.set_and_swap(p, &mut pipe);
            pipe.append(&mut bytes);
            k.pipes.set(p, pipe);
            proof {
                assert(k.pipes@.len() == k0.pipes@.len());
                k0.lemma_same_tasks(k);
            }
            len as isize
        },
        FileKind::Inode(ino, off) => {
            if off > usize::MAX - len {
                return -1;
            }
            let mut data: Vec<u8> = Vec::new();
            k.inodes.set_and_swap(ino, &mut data);
            let new_data = splice(&data, off, &bytes);
            k.inodes.set(ino, new_data);
            k.files.set(
                fid,
                OpenFile { kind: FileKind::Inode(ino, off + len), readable: file.readable, writable: true },
            );
            proof {
                assert forall|i: int| 0 <= i < k.files@.len() implies k.file_wf(#[trigger] k.files@[i]) by {
                    if i != fid {
                        assert(k0.file_wf(k0.files@[i]));
                    }
                }
                assert forall|i: int| 0 <= i < k.dir@.len() implies (#[trigger] k.dir@[i]).ino
                    < k.inodes@.len() by {
                    assert(k0.dir@[i].ino < k0.inodes@.len());
                }
                k0.lemma_same_tasks(k);
            }
            len as isize
        },
        _ => -1,
    }
}

/// Reads at most `len` bytes from the file that `fd` names, the console's input, a pipe, or
/// a regular file from its offset, into `buf` in the running task's memory. See
/// `read_result`.
pub fn sys_read(k: &mut Kernel, fd: usize, buf: usize, len: usize) -> (r: isize)
    requires
        old(k).running(),
    ensures
        final(k).running(),
        read_result(old(k), final(k), fd as int, buf as int, len as int, r),
{
    let c = k.current.unwrap();
    proof {
        assert(k.slot_wf(c as int));
    }
    let t = k.task_ref(c);
    if fd >= t.fd_table.len() || t.fd_table[fd].is_none() || len > isize::MAX as usize {
        return -1;
    }
    let fid = t.fd_table[fd].unwrap();
    let file = k.files[fid];
    if !file.readable {
        return -1;
    }
    if !t.memory_set.check_writable(buf, len) {
        return -1;
    }
    let ghost k0 = *k;
    let got = match file.kind {
        FileKind::Stdin => {
            let m = if len < k.console_in.len() { len } else { k.console_in.len() };
            let got = slice_copy(&k.console_in, 0, m);
            let rest = slice_copy(&k.console_in, m, k.console_in.len());
            k.console_in = rest;
            got
        },
        FileKind::PipeRead(p) => {
            let mut pipe: Vec<u8> = Vec::new();
            k.pipes.set_and_swap(p, &mut pipe);
            let m = if len < pipe.len() { len } else { pipe.len() };
            let got = slice_copy(&pipe, 0, m);
            let rest = slice_copy(&pipe, m, pipe.len());
            k.pipes.set(p, rest);
            got
        },
        FileKind::Inode(ino, off) => {
            let dl = k.inodes[ino].len();
            let start = if off < dl { off } else { dl };
            let m = if len < dl - start { len } else { dl - start };
            let got = slice_copy(&k.inodes[ino], start, start + m);
            k.files.set(
                fid,
                OpenFile { kind: FileKind::Inode(ino, off + m), readable: true, writable: file.writable },
            );
            proof {
                assert forall|i: int| 0 <= i < k.files@.len() implies k.file_wf(#[trigger] k.files@[i]) by {
                    if i != fid {
                        assert(k0.file_wf(k0.files@[i]));
                    }
                }
                let d = k0.inodes@[ino as int]@;
                assert(got@ =~= taken(from_offset(d, off as int), len as int));
            }
            got
        },
        _ => {
            return -1;
        },
    };
    proof {
        k0.lemma_same_tasks(k);
        assert(got@ =~= taken(
            match file.kind {
                FileKind::PipeRead(p) => k0.pipes@[p as int]@,
                FileKind::Inode(ino, off) => from_offset(k0.inodes@[ino as int]@, off as int),
                _ => k0.console_in@,
            },
            len as int,
        ));
    }
    k.copy_out(c, buf, &got);
    got.len() as isize
}

/// `pipe` took effect from state `k0` to `k1`: a new pipe, its two open files, descriptors
/// `rfd` and `wfd` (free before) naming them, and both numbers written at `fds`.
pub open spec fn pipe_made(k0: &Kernel, k1: &Kernel, fds: int, rfd: int, wfd: int) -> bool {
    let c = k0.cur();
    let t0 = k0.tcb(c);
    let t = k1.tcb(c);
    let p = k0.pipes@.len() as usize;
    let fr = k0.files@.len() as usize;
    let after_read = filled(t0.fd_table@, rfd, fr);
    let words = le_seq(rfd as nat, 8) + le_seq(wfd as nat, 8);
    &&& lowest_free(t0.fd_table@, rfd)
    &&& lowest_free(after_read, wfd)
    &&& t.fd_table@ == filled(after_read, wfd, (fr + 1) as usize)
    &&& k1.files@ == k0.files@.push(
        OpenFile { kind: FileKind::PipeRead(p), readable: true, writable: false },
    ).push(OpenFile { kind: FileKind::PipeWrite(p), readable: false, writable: true })
    &&& k1.pipes@.len() == p + 1
    &&& k1.pipes@[p as int]@.len() == 0
    &&& forall|q: int| 0 <= q < p ==> #[trigger] k1.pipes@[q] == k0.pipes@[q]
    &&& t.pid == t0.pid && t.parent == t0.parent && t.children == t0.children
    &&& t.status == t0.status && t.exit_code == t0.exit_code && t.priority == t0.priority
    &&& t.pass == t0.pass && t.trap_cx == t0.trap_cx && t.mail == t0.mail
    &&& t.memory_set.same_layout(&t0.memory_set)
    &&& forall|va: int|
        #[trigger] t.memory_set.has(page_of(va)) ==> t.memory_set.byte_at(va) == if fds <= va
            < fds + 16 {
            words[va - fds]
        } else {
            t0.memory_set.byte_at(va)
        }
    &&& forall|q: int| 0 <= q < k0.tasks@.len() && q != c ==> #[trigger] k1.tcb(q) == k0.tcb(q)
    &&& k1.current == k0.current && k1.manager == k0.manager && k1.apps == k0.apps
    &&& k1.inodes == k0.inodes && k1.dir == k0.dir
    &&& k1.console_in == k0.console_in && k1.console_out == k0.console_out
    &&& k1.next_ppn == k0.next_ppn
}

/// Makes a pipe: an open file for its reading end and one for its writing end, each on the
/// lowest free descriptor of the running task, whose numbers are written as two 8-byte words
/// to `fds`. Returns 0, or -1 without any change where those 16 bytes are not writable or
/// the two descriptors would not fit the result (see `pipe_room`).
pub fn sys_pipe(k: &mut Kernel, fds: usize) -> (r: isize)
    requires
        old(k).running(),
    ensures
        final(k).running(),
        final(k).current == old(k).current,
        r == 0 || r == -1,
        r == -1 ==> final(k).same(old(k)),
        !old(k).tcb(old(k).cur()).memory_set.writable_range(fds as int, 16) ==> r == -1,
        !pipe_room(old(k).tcb(old(k).cur()).fd_table@) ==> r == -1,
        old(k).tcb(old(k).cur()).memory_set.writable_range(fds as int, 16) && pipe_room(
            old(k).tcb(old(k).cur()).fd_table@,
        ) ==> r == 0,
        r == 0 ==> exists|rfd: int, wfd: int| #[trigger] pipe_made(old(k), final(k), fds as int, rfd, wfd),
        forall|q: int| #[trigger] final(k).live(q) == old(k).live(q),
{
    let c = k.current.unwrap();
    proof {
        assert(k.slot_wf(c as int));
    }
    let t0 = k.task_ref(c);
    if !t0.memory_set.check_writable(fds, 16) {
        return -1;
    }
    let lowest = t0.lowest_free_fd();
    if lowest >= isize::MAX as usize {
        proof {
            if pipe_room(t0.fd_table@) {
                let (r, w) = choose|r: int, w: int|
                    #[trigger] lowest_free(t0.fd_table@, r) && #[trigger] lowest_free(
                        filled(t0.fd_table@, r, 0),
                        w,
                    ) && r < isize::MAX && w < isize::MAX;
                lemma_lowest_free_unique(t0.fd_table@, r, lowest as int);
            }
        }
        return -1;
    }
    let next = t0.free_fd_after(lowest);
    if next >= isize::MAX as usize {
        proof {
            if pipe_room(t0.fd_table@) {
                let (r, w) = choose|r: int, w: int|
                    #[trigger] lowest_free(t0.fd_table@, r) && #[trigger] lowest_free(
                        filled(t0.fd_table@, r, 0),
                        w,
                    ) && r < isize::MAX && w < isize::MAX;
                lemma_lowest_free_unique(t0.fd_table@, r, lowest as int);
                lemma_lowest_free_unique(filled(t0.fd_table@, r, 0), w, next as int);
            }
        }
        return -1;
    }
    proof {
        assert(lowest_free(t0.fd_table@, lowest as int) && lowest_free(
            filled(t0.fd_table@, lowest as int, 0),
            next as int,
        ));
    }
    let ghost k0 = *k;
    let p = k.pipes.len();
    let fr = k.files.len();
    k.pipes.push(Vec::new());
    k.files.push(OpenFile { kind: FileKind::PipeRead(p), readable: true, writable: false });
    k.files.push(OpenFile { kind: FileKind::PipeWrite(p), readable: false, writable: true });
    proof {
        assert forall|i: int| 0 <= i < k.files@.len() implies k.file_wf(#[trigger] k.files@[i]) by {
            if i < k0.files@.len() {
                assert(k0.file_wf(k0.files@[i]));
            }
        }
        k0.lemma_same_tasks(k);
    }
    let nf = k.files.len();
    let ghost k1 = *k;
    let mut t = k.take_task(c);
    let rfd = t.alloc_fd();
    t.fd_table.set(rfd, Some(fr));
    let ghost after_read = t.fd_table@;
    assert(after_read =~= filled(k1.tcb(c as int).fd_table@, rfd as int, fr));
    let wfd = t.alloc_fd();
    t.fd_table.set(wfd, Some(fr + 1));
    k.put_task(c, t);
    proof {
        assert(k.tasks@ =~= k1.tasks@.update(c as int, Some(k.tcb(c as int))));
        let nt = k.tcb(c as int).fd_table@;
        let ot = k1.tcb(c as int).fd_table@;
        assert(k1.slot_wf(c as int));
        assert forall|i: int| 0 <= i < nt.len() && (#[trigger] nt[i]) is Some implies nt[i]->Some_0
            < k1.files@.len() by {
            if i != rfd && i != wfd && i < ot.len() {
                assert(nt[i] == ot[i]);
            }
        }
        k1.lemma_replace(k, c as int);
    }
    let mut words = le_bytes(rfd as u64, 8);
    let mut w2 = le_bytes(wfd as u64, 8);
    words.append(&mut w2);
    assert(words@ == le_seq(rfd as nat, 8) + le_seq(wfd as nat, 8));
    let ghost k2 = *k;
    let ok = k.copy_out(c, fds, &words);
    proof {
        assert(k1.tcb(c as int) == k0.tcb(c as int));
        let ot = k0.tcb(c as int).fd_table@;
        assert(k2.tcb(c as int).fd_table@ =~= filled(filled(ot, rfd as int, fr), wfd as int, (fr + 1) as usize));
        assert(pipe_made(&k0, k, fds as int, rfd as int, wfd as int));
        assert(pipe_room(k0.tcb(c as int).fd_table@));
    }
    0
}

/// Bytes written to an empty pipe come back from it unchanged and in order: a `write` of
/// `n` bytes on its writing end followed by a `read` of `n` bytes on its reading end returns
/// `n` and leaves at the destination exactly the bytes that were at the source.
pub proof fn lemma_pipe_round_trip(
    k0: &Kernel,
    k1: &Kernel,
    k2: &Kernel,
    wfd: int,
    rfd: int,
    src: int,
    dst: int,
    n: int,
    r1: isize,
    r2: isize,
    p: usize,
)
    requires
        k0.running(),
        fd_open(k0.tcb(k0.cur()), wfd),
        fd_open(k0.tcb(k0.cur()), rfd),
        file_of(k0, wfd).kind == FileKind::PipeWrite(p),
        file_of(k0, rfd).kind == FileKind::PipeRead(p),
        0 <= n,
        p < k0.pipes@.len(),
        k0.pipes@[p as int]@.len() == 0,
        write_result(k0, k1, wfd, src, n, r1),
        r1 != -1,
        read_result(k1, k2, rfd, dst, n, r2),
        r2 != -1,
    ensures
        r2 == n,
        forall|j: int|
            0 <= j < n ==> #[trigger] k2.tcb(k0.cur()).memory_set.byte_at(dst + j) == k0.tcb(
                k0.cur(),
            ).memory_set.byte_at(src + j),
{
    let c = k0.cur();
    let bytes = user_bytes(k0.tcb(c).memory_set, src, n);
    assert(k1.pipes@[p as int]@ =~= bytes);
    assert(file_of(k1, rfd) == file_of(k0, rfd));
    assert(taken(bytes, n) =~= bytes);
    assert forall|j: int| 0 <= j < n implies #[trigger] k2.tcb(c).memory_set.byte_at(dst + j)
        == k0.tcb(c).memory_set.byte_at(src + j) by {
        assert(k1.tcb(c).memory_set.writable_at(dst + j));
        assert(k2.tcb(c).memory_set.has(page_of(dst + j)));
    }
}

/// Open for reading and writing.
pub const O_RDWR: u32 = 2;

/// Open for writing only.
pub const O_WRONLY: u32 = 1;

/// Create the file where it does not exist.
pub const O_CREATE: u32 = 0x200;

/// Empty the file on opening.
pub const O_TRUNC: u32 = 0x400;

/// The flag bits that `open` knows.
pub const O_KNOWN: u32 = 0x603;

/// The mode that `fstat` reports for a regular file.
pub const S_IFREG: u64 = 0o100000;

/// The mode that `fstat` reports for an end of a pipe.
pub const S_IFIFO: u64 = 0o010000;

/// The mode that `fstat` reports for the console.
pub const S_IFCHR: u64 = 0o020000;

/// Whether a file opened with `flags` may be read, and written.
pub open spec fn access(flags: u32) -> (bool, bool) {
    if flags & 3u32 == 0 {
        (true, false)
    } else if flags & 3u32 == 1 {
        (false, true)
    } else {
        (true, true)
    }
}

/// Index `i` is the first directory entry named `name`.
pub open spec fn first_entry(k: &Kernel, name: Seq<u8>, i: int) -> bool {
    &&& 0 <= i < k.dir@.len()
    &&& k.dir@[i].name@ == name
    &&& forall|j: int| 0 <= j < i ==> (#[trigger] k.dir@[j]).name@ != name
}

/// Some directory entry is named `name`.
pub open spec fn has_entry(k: &Kernel, name: Seq<u8>) -> bool {
    exists|i: int| 0 <= i < k.dir@.len() && (#[trigger] k.dir@[i]).name@ == name
}

/// The string at `ptr` in the running task's memory is `s`.
pub open spec fn path_at(k: &Kernel, ptr: int, s: Seq<u8>) -> bool {
    k.tcb(k.cur()).memory_set.cstr_at(ptr, s)
}

/// The number of directory entries that name inode `ino`.
pub open spec fn links(d: Seq<DirEntry>, ino: usize) -> nat
    decreases d.len(),
{
    if d.len() == 0 {
        0
    } else {
        links(d.drop_last(), ino) + if d.last().ino == ino {
            1nat
        } else {
            0nat
        }
    }
}

/// The 80 bytes of a status record: device 0, the number `ino`, the mode, and the number of
/// names (the last two kept in their low 32 bits), then 56 zero bytes.
pub open spec fn stat_bytes(ino: nat, mode: nat, nlink: nat) -> Seq<u8> {
    le_seq(0, 8) + le_seq(ino, 8) + le_seq(mode, 4) + le_seq(nlink, 4) + Seq::new(56, |i: int| 0u8)
}

/// The status record of open file `f`: a regular file reports its inode number, the
/// regular-file mode and how many directory entries name it; a pipe end reports its pipe
/// number and the pipe mode; the console reports 0 for its input, 1 for its output, and the
/// character-device mode. Pipes and the console have one name.
pub open spec fn stat_of(k: &Kernel, f: OpenFile) -> Seq<u8> {
    match f.kind {
        FileKind::Inode(ino, _) => stat_bytes(ino as nat, S_IFREG as nat, links(k.dir@, ino)),
        FileKind::PipeRead(p) => stat_bytes(p as nat, S_IFIFO as nat, 1),
        FileKind::PipeWrite(p) => stat_bytes(p as nat, S_IFIFO as nat, 1),
        FileKind::Stdin => stat_bytes(0, S_IFCHR as nat, 1),
        FileKind::Stdout => stat_bytes(1, S_IFCHR as nat, 1),
    }
}

fn find_entry(k: &Kernel, name: &Vec<u8>) -> (r: Option<usize>)
    ensures
        r is None <==> !has_entry(k, name@),
        r matches Some(i) ==> first_entry(k, name@, i as int),
{
    let mut i: usize = 0;
    while i < k.dir.len()
        invariant
            i <= k.dir@.len(),
            forall|j: int| 0 <= j < i ==> (#[trigger] k.dir@[j]).name@ != name@,
        decreases k.dir@.len() - i,
    {
        if crate::task::bytes_eq(&k.dir[i].name, name) {
            return Some(i);
        }
        i = i + 1;
    }
    None
}

fn count_links(d: &Vec<DirEntry>, ino: usize) -> (r: u64)
    ensures
        r == links(d@, ino),
{
    let mut n: u64 = 0;
    let mut i: usize = 0;
    while i < d.len()
        invariant
            i <= d@.len(),
            n == links(d@.subrange(0, i as int), ino),
            n <= i,
        decreases d@.len() - i,
    {
        assert(d@.subrange(0, i + 1).drop_last() =~= d@.subrange(0, i as int));
        if d[i].ino == ino {
            n = n + 1;
        }
        i = i + 1;
    }
    assert(d@.subrange(0, d@.len() as int) =~= d@);
    n
}

/// Reads the path at `ptr` in the running task's memory.
fn read_path(k: &Kernel, ptr: usize) -> (r: Option<Vec<u8>>)
    requires
        k.running(),
    ensures
        r is None ==> forall|s: Seq<u8>| !#[trigger] path_at(k, ptr as int, s),
        r matches Some(s) ==> path_at(k, ptr as int, s@),
{
    let c = k.current.unwrap();
    proof {
        assert(k.slot_wf(c as int));
    }
    let r = k.task_ref(c).memory_set.read_str(ptr);
    proof {
        if r is None {
            assert forall|s: Seq<u8>| !#[trigger] path_at(k, ptr as int, s) by {
                assert(!k.tcb(k.cur()).memory_set.cstr_at(ptr as int, s));
            }
        }
    }
    r
}

/// Opens the file that the path at `path` names, creating it with `O_CREATE` and emptying it
/// with `O_TRUNC`, on the lowest free descriptor of the running task. Returns the
/// descriptor, or -1 without any change where the path cannot be read, `flags` holds an
/// unknown bit, the file does not exist and is not to be created, or the lowest free
/// descriptor would not fit the result (see `fd_room`).
pub fn sys_open(k: &mut Kernel, path: usize, flags: u32) -> (r: isize)
    requires
        old(k).running(),
    ensures
        final(k).running(),
        final(k).current == old(k).current,
        r == -1 ==> final(k).same(old(k)),
        (forall|s: Seq<u8>| !#[trigger] path_at(old(k), path as int, s)) ==> r == -1,
        flags & !O_KNOWN != 0 ==> r == -1,
        forall|s: Seq<u8>|
            #[trigger] path_at(old(k), path as int, s) && !has_entry(old(k), s) && flags & O_CREATE
                == 0 ==> r == -1,
        forall|s: Seq<u8>|
            #[trigger] path_at(old(k), path as int, s) && flags & !O_KNOWN == 0 && (has_entry(
                old(k),
                s,
            ) || flags & O_CREATE != 0) && fd_room(old(k).tcb(old(k).cur()).fd_table@)
                ==> r != -1,
        r != -1 ==> exists|s: Seq<u8>|
            #[trigger] path_at(old(k), path as int, s) && {
                let c = old(k).cur();
                let fds = final(k).tcb(c).fd_table@;
                let f = final(k).files@.last();
                &&& 0 <= r < fds.len()
                &&& lowest_free(old(k).tcb(c).fd_table@, r as int)
                &&& fds == filled(old(k).tcb(c).fd_table@, r as int, old(k).files@.len() as usize)
                &&& same_but_fds(final(k).tcb(c), old(k).tcb(c))
                &&& forall|q: int|
                    0 <= q < old(k).tasks@.len() && q != c ==> #[trigger] final(k).tcb(q) == old(k).tcb(q)
                &&& final(k).current == old(k).current && final(k).manager == old(k).manager
                &&& final(k).apps == old(k).apps && final(k).pipes == old(k).pipes
                &&& final(k).console_in == old(k).console_in && final(k).console_out == old(k).console_out
                &&& final(k).next_ppn == old(k).next_ppn
                &&& f.kind matches FileKind::Inode(ino, _) && {
                    &&& has_entry(old(k), s) ==> {
                        &&& final(k).dir == old(k).dir
                        &&& final(k).inodes@.len() == old(k).inodes@.len()
                        &&& forall|q: int|
                            0 <= q < old(k).inodes@.len() && q != ino ==> #[trigger] final(k).inodes@[q]
                                == old(k).inodes@[q]
                        &&& flags & O_TRUNC == 0 ==> final(k).inodes@[ino as int] == old(k).inodes@[ino as int]
                    }
                    &&& !has_entry(old(k), s) ==> {
                        &&& final(k).inodes@.len() == old(k).inodes@.len() + 1
                        &&& forall|q: int|
                            0 <= q < old(k).inodes@.len() ==> #[trigger] final(k).inodes@[q]
                                == old(k).inodes@[q]
                        &&& forall|j: int|
                            0 <= j < old(k).dir@.len() ==> #[trigger] final(k).dir@[j] == old(k).dir@[j]
                    }
                }
                &&& fds[r as int] == Some((final(k).files@.len() - 1) as usize)
                &&& final(k).files@.len() == old(k).files@.len() + 1
                &&& (f.readable, f.writable) == access(flags)
                &&& f.kind matches FileKind::Inode(ino, off) && off == 0 && ino < final(k).inodes@.len()
                    && (has_entry(old(k), s) ==> exists|i: int|
                    #[trigger] first_entry(old(k), s, i) && old(k).dir@[i].ino == ino)
                    && (!has_entry(old(k), s) ==> ino == old(k).inodes@.len() && final(k).dir@.len()
                    == old(k).dir@.len() + 1 && final(k).dir@.last().name@ == s
                    && final(k).dir@.last().ino == ino)
                    && (flags & O_TRUNC != 0 || !has_entry(old(k), s) ==> final(k).inodes@[ino as int]@.len() == 0)
            },
{
    if flags & !O_KNOWN != 0 {
        return -1;
    }
    let name = match read_path(k, path) {
        Some(n) => n,
        None => {
            return -1;
        },
    };
    let c = k.current.unwrap();
    proof {
        assert(k.slot_wf(c as int));
    }
    let lowest = k.task_ref(c).lowest_free_fd();
    if lowest >= isize::MAX as usize {
        proof {
            let fds = k.tcb(c as int).fd_table@;
            if fd_room(fds) {
                let r = choose|r: int| #[trigger] lowest_free(fds, r) && r < isize::MAX;
                lemma_lowest_free_unique(fds, r, lowest as int);
            }
        }
        return -1;
    }
    let ghost k0 = *k;
    let found = find_entry(k, &name);
    proof {
        assert forall|s: Seq<u8>| #[trigger] path_at(k, path as int, s) implies s == name@ by {
            k.tcb(k.cur()).memory_set.lemma_cstr_unique(path as int, s, name@);
        }
    }
    let ino = match found {
        Some(i) => {
            let ino = k.dir[i].ino;
            if flags & O_TRUNC != 0 {
                k.inodes.set(ino, Vec::new());
            }
            ino
        },
        None => {
            if flags & O_CREATE == 0 {
                return -1;
            }
            let ino = k.inodes.len();
            k.inodes.push(Vec::new());
            k.dir.push(DirEntry { name, ino });
            ino
        },
    };
    let (readable, writable) = if flags & 3u32 == 0 {
        (true, false)
    } else if flags & 3u32 == 1 {
        (false, true)
    } else {
        (true, true)
    };
    let fid = k.files.len();
    k.files.push(OpenFile { kind: FileKind::Inode(ino, 0), readable, writable });
    proof {
        assert forall|i: int| 0 <= i < k.files@.len() implies k.file_wf(#[trigger] k.files@[i]) by {
            if i < k0.files@.len() {
                assert(k0.file_wf(k0.files@[i]));
            }
        }
        assert forall|i: int| 0 <= i < k.dir@.len() implies (#[trigger] k.dir@[i]).ino
            < k.inodes@.len() by {
            if i < k0.dir@.len() {
                assert(k0.dir@[i] == k.dir@[i]);
            }
        }
        k0.lemma_same_tasks(k);
    }
    let ghost k1 = *k;
    let mut t = k.take_task(c);
    let fd = t.alloc_fd();
    t.fd_table.set(fd, Some(fid));
    k.put_task(c, t);
    proof {
        assert(k.tasks@ =~= k1.tasks@.update(c as int, Some(k.tcb(c as int))));
        let nt = k.tcb(c as int).fd_table@;
        let ot = k1.tcb(c as int).fd_table@;
        assert(k1.slot_wf(c as int));
        assert forall|i: int| 0 <= i < nt.len() && (#[trigger] nt[i]) is Some implies nt[i]->Some_0
            < k1.files@.len() by {
            if i != fd && i < ot.len() {
                assert(nt[i] == ot[i]);
            }
        }
        k1.lemma_replace(k, c as int);
        assert(path_at(&k0, path as int, name@));
        assert(nt =~= filled(ot, fd as int, fid));
        assert(k1.tcb(c as int) == k0.tcb(c as int));
    }
    fd as isize
}

/// Gives the file that the path at `old_path` names a second name, the path at `new_path`.
/// Returns 0, or -1 without any change where a path cannot be read, the first name does not
/// exist, or the second already does.
pub fn sys_linkat(k: &mut Kernel, old_path: usize, new_path: usize) -> (r: isize)
    requires
        old(k).running(),
    ensures
        final(k).running(),
        final(k).current == old(k).current,
        r == 0 || r == -1,
        r == -1 ==> final(k).same(old(k)),
        r == 0 <==> exists|a: Seq<u8>, b: Seq<u8>|
            #[trigger] path_at(old(k), old_path as int, a) && #[trigger] path_at(
                old(k),
                new_path as int,
                b,
            ) && has_entry(old(k), a) && !has_entry(old(k), b),
        r == 0 ==> final(k).tasks == old(k).tasks && final(k).files == old(k).files
            && final(k).inodes == old(k).inodes && final(k).pipes == old(k).pipes
            && final(k).current == old(k).current && final(k).manager == old(k).manager
            && final(k).apps == old(k).apps && final(k).next_ppn == old(k).next_ppn,
        r == 0 ==> exists|a: Seq<u8>, i: int|
            #[trigger] path_at(old(k), old_path as int, a) && #[trigger] first_entry(old(k), a, i)
                && final(k).dir@.len() == old(k).dir@.len() + 1 && final(k).dir@.last().ino
                == old(k).dir@[i].ino && path_at(old(k), new_path as int, final(k).dir@.last().name@)
                && forall|j: int| 0 <= j < old(k).dir@.len() ==> #[trigger] final(k).dir@[j] == old(k).dir@[j],
{
    let a = match read_path(k, old_path) {
        Some(n) => n,
        None => {
            return -1;
        },
    };
    let b = match read_path(k, new_path) {
        Some(n) => n,
        None => {
            return -1;
        },
    };
    proof {
        assert forall|s: Seq<u8>| #[trigger] path_at(k, old_path as int, s) implies s == a@ by {
            k.tcb(k.cur()).memory_set.lemma_cstr_unique(old_path as int, s, a@);
        }
        assert forall|s: Seq<u8>| #[trigger] path_at(k, new_path as int, s) implies s == b@ by {
            k.tcb(k.cur()).memory_set.lemma_cstr_unique(new_path as int, s, b@);
        }
    }
    let i = match find_entry(k, &a) {
        Some(i) => i,
        None => {
            return -1;
        },
    };
    if find_entry(k, &b).is_some() {
        return -1;
    }
    let ghost k0 = *k;
    let ino = k.dir[i].ino;
    k.dir.push(DirEntry { name: b, ino });
    proof {
        assert forall|j: int| 0 <= j < k.dir@.len() implies (#[trigger] k.dir@[j]).ino
            < k.inodes@.len() by {
            if j < k0.dir@.len() {
                assert(k0.dir@[j] == k.dir@[j]);
            }
        }
        k0.lemma_same_tasks(k);
        assert(path_at(&k0, old_path as int, a@) && path_at(&k0, new_path as int, b@));
        assert(first_entry(&k0, a@, i as int));
    }
    0
}

/// Removes the directory entry that the path at `path` names. Returns 0, or -1 without any
/// change where the path cannot be read or names nothing.
pub fn sys_unlinkat(k: &mut Kernel, path: usize) -> (r: isize)
    requires
        old(k).running(),
    ensures
        final(k).running(),
        final(k).current == old(k).current,
        r == 0 || r == -1,
        r == -1 ==> final(k).same(old(k)),
        r == 0 <==> exists|s: Seq<u8>| #[trigger] path_at(old(k), path as int, s) && has_entry(old(k), s),
        r == 0 ==> final(k).tasks == old(k).tasks && final(k).files == old(k).files
            && final(k).inodes == old(k).inodes && final(k).pipes == old(k).pipes
            && final(k).current == old(k).current && final(k).manager == old(k).manager
            && final(k).apps == old(k).apps && final(k).next_ppn == old(k).next_ppn,
        r == 0 ==> exists|s: Seq<u8>, i: int|
            #[trigger] path_at(old(k), path as int, s) && #[trigger] first_entry(old(k), s, i)
                && final(k).dir@.len() == old(k).dir@.len() - 1 && forall|j: int|
                0 <= j < final(k).dir@.len() ==> #[trigger] final(k).dir@[j] == old(k).dir@[if j < i {
                    j
                } else {
                    j + 1
                }],
{
    let name = match read_path(k, path) {
        Some(n) => n,
        None => {
            return -1;
        },
    };
    proof {
        assert forall|s: Seq<u8>| #[trigger] path_at(k, path as int, s) implies s == name@ by {
            k.tcb(k.cur()).memory_set.lemma_cstr_unique(path as int, s, name@);
        }
    }
    let i = match find_entry(k, &name) {
        Some(i) => i,
        None => {
            return -1;
        },
    };
    let ghost k0 = *k;
    let _gone = k.dir.remove(i);
    proof {
        assert forall|j: int| 0 <= j < k.dir@.len() implies (#[trigger] k.dir@[j]).ino
            < k.inodes@.len() by {
            let oj = if j < i { j } else { j + 1 };
            assert(k0.dir@[oj] == k.dir@[j]);
        }
        k0.lemma_same_tasks(k);
        assert(path_at(&k0, path as int, name@));
        assert(first_entry(&k0, name@, i as int));
    }
    0
}

/// Writes the status record of the file that `fd` names to `st` (see `stat_of`). Returns 0,
/// or -1 without any change where `fd` is not open or those 80 bytes are not writable.
pub fn sys_fstat(k: &mut Kernel, fd: usize, st: usize) -> (r: isize)
    requires
        old(k).running(),
    ensures
        final(k).running(),
        final(k).current == old(k).current,
        r == 0 || r == -1,
        r == -1 ==> final(k).same(old(k)),
        r == 0 <==> fd_open(old(k).tcb(old(k).cur()), fd as int) && old(k).tcb(
            old(k).cur(),
        ).memory_set.writable_range(st as int, 80),
        r == 0 ==> {
            let c = old(k).cur();
            let bytes = stat_of(old(k), file_of(old(k), fd as int));
            &&& final(k).same_except_tasks(old(k))
            &&& forall|q: int| #[trigger] final(k).live(q) == old(k).live(q)
            &&& forall|q: int|
                0 <= q < old(k).tasks@.len() && q != c ==> #[trigger] final(k).tcb(q) == old(k).tcb(q)
            &&& same_but_memory(final(k).tcb(c), old(k).tcb(c))
            &&& final(k).tcb(c).memory_set.same_layout(&old(k).tcb(c).memory_set)
            &&& forall|va: int|
                #[trigger] final(k).tcb(c).memory_set.has(page_of(va))
                    ==> final(k).tcb(c).memory_set.byte_at(va) == if st <= va < st + 80 {
                    bytes[va - st]
                } else {
                    old(k).tcb(c).memory_set.byte_at(va)
                }
        },
{
    let c = k.current.unwrap();
    proof {
        assert(k.slot_wf(c as int));
    }
    let t = k.task_ref(c);
    if fd >= t.fd_table.len() || t.fd_table[fd].is_none() {
        return -1;
    }
    if !t.memory_set.check_writable(st, 80) {
        return -1;
    }
    let fid = t.fd_table[fd].unwrap();
    let (ino, mode, nlink): (u64, u64, u64) = match k.files[fid].kind {
        FileKind::Inode(ino, _) => (ino as u64, S_IFREG, count_links(&k.dir, ino)),
        FileKind::PipeRead(p) => (p as u64, S_IFIFO, 1),
        FileKind::PipeWrite(p) => (p as u64, S_IFIFO, 1),
        FileKind::Stdin => (0, S_IFCHR, 1),
        FileKind::Stdout => (1, S_IFCHR, 1),
    };
    let mut bytes = le_bytes(0, 8);
    let mut b2 = le_bytes(ino, 8);
    let mut b3 = le_bytes(mode, 4);
    let mut b4 = le_bytes(nlink, 4);
    let mut pad: Vec<u8> = vec![0u8; 56];
    bytes.append(&mut b2);
    bytes.append(&mut b3);
    bytes.append(&mut b4);
    bytes.append(&mut pad);
    proof {
        assert(bytes@ =~= stat_of(k, k.files@[fid as int]));
    }
    k.copy_out(c, st, &bytes);
    0
}

} // verus!
