use vstd::prelude::*;
use std::collections::VecDeque;
use crate::fs::{DirEntry, FileKind, OpenFile};
use crate::mm::{page_of, pages_for, MemorySet, MAX_IMAGE};
use crate::sched::{credited, next_in, stride_for, stride_of, Stride, TaskManager, DEFAULT_PRIORITY};

verus! {

/// Most messages that a mailbox holds.
pub const MAIL_CAPACITY: usize = 16;

/// Most bytes of one message.
pub const MAIL_MAX_LEN: usize = 256;

/// Most processes that exist at once; pids lie below it.
pub const MAX_TASKS: usize = 0x1_0000;

/// The pid of the initial process, which adopts the children of exiting processes.
pub const INITPROC_PID: usize = 0;

#[derive(Clone, Copy, Debug, PartialEq, Eq, Structural)]
pub enum TaskStatus {
    Ready,
    Running,
    Zombie,
}

/// The user registers that a syscall reads and writes: the return-value register and the
/// user program counter.
#[derive(Clone, Copy, Debug, PartialEq, Eq, Structural)]
pub struct TrapContext {
    pub a0: usize,
    pub sepc: usize,
}

/// The process descriptor.
pub struct TaskControlBlock {
    pub pid: usize,
    pub parent: Option<usize>,
    pub children: Vec<usize>,
    pub status: TaskStatus,
    pub exit_code: i32,
    pub priority: u64,
    pub pass: u64,
    pub trap_cx: TrapContext,
    pub memory_set: MemorySet,
    pub fd_table: Vec<Option<usize>>,
    pub mail: VecDeque<Vec<u8>>,
}

impl TaskControlBlock {
    /// The address space is well formed, the priority positive and the mailbox within bounds.
    pub open spec fn wf(&self) -> bool {
        &&& self.memory_set.wf()
        &&& self.priority > 0
        &&& self.mail@.len() <= MAIL_CAPACITY
        &&& forall|i: int| 0 <= i < self.mail@.len() ==> (#[trigger] self.mail@[i])@.len() <= MAIL_MAX_LEN
        &&& forall|i: int| 0 <= i < self.children@.len() ==> #[trigger] self.children@[i] != INITPROC_PID
        &&& self.children@.no_duplicates()
    }

    pub fn getpid(&self) -> (r: usize)
        ensures
            r == self.pid,
    {
        self.pid
    }

    pub fn is_zombie(&self) -> (r: bool)
        ensures
            r == (self.status == TaskStatus::Zombie),
    {
        self.status == TaskStatus::Zombie
    }

    /// Its entry in the ready set: pid, pass and stride.
    pub fn stride_entry(&self) -> (r: Stride)
        requires
            self.priority > 0,
        ensures
            r.pid == self.pid,
            r.pass == self.pass,
            r.stride == stride_of(self.priority),
    {
        Stride { pid: self.pid, pass: self.pass, stride: stride_for(self.priority) }
    }

    /// The lowest free descriptor, without taking it.
    pub fn lowest_free_fd(&self) -> (r: usize)
        ensures
            lowest_free(self.fd_table@, r as int),
    {
        let mut i: usize = 0;
        while i < self.fd_table.len()
            invariant
                i <= self.fd_table@.len(),
                forall|j: int| 0 <= j < i ==> self.fd_table@[j] is Some,
            decreases self.fd_table@.len() - i,
        {
            if self.fd_table[i].is_none() {
                return i;
            }
            i = i + 1;
        }
        i
    }

    /// The descriptor that is lowest free once the lowest free one, `r`, is taken.
    pub fn free_fd_after(&self, r: usize) -> (w: usize)
        requires
            lowest_free(self.fd_table@, r as int),
            r < isize::MAX,
        ensures
            lowest_free(filled(self.fd_table@, r as int, 0), w as int),
    {
        let len = self.fd_table.len();
        if r == len {
            return len + 1;
        }
        let mut i: usize = r + 1;
        while i < len
            invariant
                r < i <= len,
                len == self.fd_table@.len(),
                lowest_free(self.fd_table@, r as int),
                forall|j: int| r < j < i ==> self.fd_table@[j] is Some,
            decreases len - i,
        {
            if self.fd_table[i].is_none() {
                return i;
            }
            i = i + 1;
        }
        len
    }

    /// The lowest free descriptor: the first closed slot, or a new one at the end.
    pub fn alloc_fd(&mut self) -> (r: usize)
        ensures
            lowest_free(old(self).fd_table@, r as int),
            r <= old(self).fd_table@.len(),
            r < final(self).fd_table@.len(),
            final(self).fd_table@[r as int] is None,
            forall|i: int| 0 <= i < r ==> old(self).fd_table@[i] is Some,
            r < old(self).fd_table@.len() ==> final(self).fd_table@ == old(self).fd_table@,
            r == old(self).fd_table@.len() ==> final(self).fd_table@ == old(self).fd_table@.push(None),
            final(self).pid == old(self).pid,
            final(self).parent == old(self).parent,
            final(self).children == old(self).children,
            final(self).status == old(self).status,
            final(self).exit_code == old(self).exit_code,
            final(self).priority == old(self).priority,
            final(self).pass == old(self).pass,
            final(self).trap_cx == old(self).trap_cx,
            final(self).memory_set == old(self).memory_set,
            final(self).mail == old(self).mail,
    {
        let mut i: usize = 0;
        while i < self.fd_table.len()
            invariant
                *self == *old(self),
                i <= self.fd_table@.len(),
                forall|j: int| 0 <= j < i ==> self.fd_table@[j] is Some,
            decreases self.fd_table@.len() - i,
        {
            if self.fd_table[i].is_none() {
                return i;
            }
            i = i + 1;
        }
        self.fd_table.push(None);
        i
    }
}

/// A descriptor for a new process `pid` running `image`: Ready, default priority, pass 0,
/// the console on descriptors 0, 1 and 2, and an empty mailbox.
pub fn new_tcb(pid: usize, image: &Vec<u8>, first_ppn: usize) -> (t: TaskControlBlock)
    requires
        image@.len() <= MAX_IMAGE,
        first_ppn + pages_for(image@.len() as int) <= usize::MAX,
    ensures
        t.wf(),
        t.pid == pid,
        t.parent is None,
        t.children@.len() == 0,
        t.status == TaskStatus::Ready,
        t.priority == DEFAULT_PRIORITY,
        t.pass == 0,
        t.trap_cx == (TrapContext { a0: 0, sepc: 0 }),
        t.fd_table@ == seq![Some(0usize), Some(1usize), Some(1usize)],
        t.mail@.len() == 0,
        forall|v: int| #[trigger] t.memory_set.has(v) == (0 <= v < pages_for(image@.len() as int)),
        forall|va: int| 0 <= va < image@.len() ==> #[trigger] t.memory_set.byte_at(va) == image@[va],
        frames_below(t.memory_set, first_ppn + pages_for(image@.len() as int)),
{
    let mut fd_table: Vec<Option<usize>> = Vec::new();
    fd_table.push(Some(0));
    fd_table.push(Some(1));
    fd_table.push(Some(1));
    TaskControlBlock {
        pid,
        parent: None,
        children: Vec::new(),
        status: TaskStatus::Ready,
        exit_code: 0,
        priority: DEFAULT_PRIORITY,
        pass: 0,
        trap_cx: TrapContext { a0: 0, sepc: 0 },
        memory_set: MemorySet::from_image(image, first_ppn),
        fd_table,
        mail: VecDeque::new(),
    }
}

/// Every frame that `ms` maps lies below `n`.
pub open spec fn frames_below(ms: MemorySet, n: int) -> bool {
    forall|v: int| #[trigger] ms.has(v) ==> ms.entry(v).ppn < n
}

/// `r` is the lowest free descriptor of table `fds`: every slot below it is open, and it is
/// either a closed slot or the slot one past the end.
pub open spec fn lowest_free(fds: Seq<Option<usize>>, r: int) -> bool {
    &&& 0 <= r <= fds.len()
    &&& forall|i: int| 0 <= i < r ==> fds[i] is Some
    &&& r < fds.len() ==> fds[r] is None
}

/// Table `fds` with its free slot `r` (a closed slot, or one past the end) naming open file
/// `f`; every other slot is as it was.
pub open spec fn filled(fds: Seq<Option<usize>>, r: int, f: usize) -> Seq<Option<usize>> {
    if r < fds.len() {
        fds.update(r, Some(f))
    } else {
        fds.push(Some(f))
    }
}

/// The lowest free descriptor of `fds` is one that a syscall can return (it fits `isize`).
pub open spec fn fd_room(fds: Seq<Option<usize>>) -> bool {
    exists|r: int| #[trigger] lowest_free(fds, r) && r < isize::MAX
}

/// Two descriptors can be handed out in turn from `fds`, each fitting `isize`.
pub open spec fn pipe_room(fds: Seq<Option<usize>>) -> bool {
    exists|r: int, w: int|
        #[trigger] lowest_free(fds, r) && #[trigger] lowest_free(filled(fds, r, 0), w) && r
            < isize::MAX && w < isize::MAX
}

/// A table has one lowest free descriptor.
pub proof fn lemma_lowest_free_unique(fds: Seq<Option<usize>>, r1: int, r2: int)
    requires
        lowest_free(fds, r1),
        lowest_free(fds, r2),
    ensures
        r1 == r2,
{
    if r1 < r2 {
        assert(fds[r1] is Some);
    } else if r2 < r1 {
        assert(fds[r2] is Some);
    }
}

/// Which open file fills a slot does not change which slot is free next.
pub proof fn lemma_filled_any(fds: Seq<Option<usize>>, r: int, x: usize, y: usize, w: int)
    requires
        lowest_free(fds, r),
        lowest_free(filled(fds, r, x), w),
    ensures
        lowest_free(filled(fds, r, y), w),
{
    let a = filled(fds, r, x);
    let b = filled(fds, r, y);
    assert forall|i: int| 0 <= i < w implies b[i] is Some by {
        assert(a[i] is Some);
    }
    if w < b.len() {
        assert(a[w] is None);
    }
}

/// The two descriptors agree in everything but the scheduling state and pass.
pub open spec fn same_but_run_state(a: TaskControlBlock, b: TaskControlBlock) -> bool {
    &&& a.pid == b.pid
    &&& a.parent == b.parent
    &&& a.children == b.children
    &&& a.exit_code == b.exit_code
    &&& a.priority == b.priority
    &&& a.trap_cx == b.trap_cx
    &&& a.memory_set == b.memory_set
    &&& a.fd_table == b.fd_table
    &&& a.mail == b.mail
}

/// The two descriptors agree in everything but the parent.
pub open spec fn same_but_parent(a: TaskControlBlock, b: TaskControlBlock) -> bool {
    &&& a.pid == b.pid
    &&& a.children == b.children
    &&& a.status == b.status
    &&& a.exit_code == b.exit_code
    &&& a.priority == b.priority
    &&& a.pass == b.pass
    &&& a.trap_cx == b.trap_cx
    &&& a.memory_set == b.memory_set
    &&& a.fd_table == b.fd_table
    &&& a.mail == b.mail
}

/// The two descriptors agree in everything but the address space.
pub open spec fn same_but_memory(a: TaskControlBlock, b: TaskControlBlock) -> bool {
    &&& a.pid == b.pid
    &&& a.parent == b.parent
    &&& a.children == b.children
    &&& a.status == b.status
    &&& a.exit_code == b.exit_code
    &&& a.priority == b.priority
    &&& a.pass == b.pass
    &&& a.trap_cx == b.trap_cx
    &&& a.fd_table == b.fd_table
    &&& a.mail == b.mail
}

/// Compares two byte strings.
pub fn bytes_eq(a: &Vec<u8>, b: &Vec<u8>) -> (r: bool)
    ensures
        r == (a@ == b@),
{
    if a.len() != b.len() {
        return false;
    }
    let mut i: usize = 0;
    while i < a.len()
        invariant
            a@.len() == b@.len(),
            i <= a@.len(),
            forall|j: int| 0 <= j < i ==> a@[j] == b@[j],
        decreases a@.len() - i,
    {
        if a[i] != b[i] {
            return false;
        }
        i = i + 1;
    }
    assert(a@ =~= b@);
    true
}

/// A copy of a descriptor table; the copies name the same open file objects.
pub fn copy_fds(fds: &Vec<Option<usize>>) -> (r: Vec<Option<usize>>)
    ensures
        r@ == fds@,
{
    let mut out: Vec<Option<usize>> = Vec::new();
    let mut i: usize = 0;
    while i < fds.len()
        invariant
            i <= fds@.len(),
            out@ == fds@.subrange(0, i as int),
        decreases fds@.len() - i,
    {
        out.push(fds[i]);
        i = i + 1;
        assert(out@ =~= fds@.subrange(0, i as int));
    }
    assert(out@ =~= fds@);
    out
}

/// A program that `exec` and `spawn` can load, found by its name.
pub struct App {
    pub name: Vec<u8>,
    pub data: Vec<u8>,
}

/// The whole kernel state: the process table keyed by pid, the scheduler, the running task,
/// the loadable programs and the open file objects.
pub struct Kernel {
    pub tasks: Vec<Option<TaskControlBlock>>,
    pub current: Option<usize>,
    pub manager: TaskManager,
    pub next_ppn: usize,
    pub apps: Vec<App>,
    pub files: Vec<OpenFile>,
    pub pipes: Vec<Vec<u8>>,
    pub inodes: Vec<Vec<u8>>,
    pub console_in: Vec<u8>,
    pub console_out: Vec<u8>,
    pub dir: Vec<DirEntry>,
}

impl Kernel {
    /// A process of this pid exists (running, ready or zombie).
    pub open spec fn live(&self, pid: int) -> bool {
        0 <= pid < self.tasks@.len() && self.tasks@[pid] is Some
    }

    /// The descriptor of process `pid` (meaningful where `live(pid)`).
    pub open spec fn tcb(&self, pid: int) -> TaskControlBlock {
        self.tasks@[pid]->Some_0
    }

    /// The pid of the running task (meaningful where one runs).
    pub open spec fn cur(&self) -> int {
        self.current->Some_0 as int
    }

    /// An open file object refers only to pipes and inodes that exist.
    pub open spec fn file_wf(&self, f: OpenFile) -> bool {
        match f.kind {
            FileKind::PipeRead(p) => p < self.pipes@.len(),
            FileKind::PipeWrite(p) => p < self.pipes@.len(),
            FileKind::Inode(ino, _) => ino < self.inodes@.len(),
            _ => true,
        }
    }

    /// Descriptor table `fds` names only open file objects that exist.
    pub open spec fn fds_wf(&self, fds: Seq<Option<usize>>) -> bool {
        forall|i: int| 0 <= i < fds.len() && (#[trigger] fds[i]) is Some ==> fds[i]->Some_0 < self.files@.len()
    }

    /// The descriptor stored for pid `pid` is well formed and carries that pid.
    pub open spec fn slot_wf(&self, pid: int) -> bool {
        self.live(pid) ==> {
            &&& self.tcb(pid).pid == pid
            &&& self.tcb(pid).wf()
            &&& self.fds_wf(self.tcb(pid).fd_table@)
        }
    }

    /// Every entry of the ready set is a live task in state Ready.
    pub open spec fn ready_wf(&self) -> bool {
        forall|i: int|
            0 <= i < self.manager@.len() ==> self.live((#[trigger] self.manager@[i]).pid as int)
                && self.tcb(self.manager@[i].pid as int).status == TaskStatus::Ready
    }

    pub open spec fn wf(&self) -> bool {
        &&& self.live(INITPROC_PID as int)
        &&& self.tasks@.len() <= MAX_TASKS
        &&& self.files@.len() >= 2
        &&& self.manager.wf()
        &&& forall|pid: int| #[trigger] self.slot_wf(pid)
        &&& self.ready_wf()
        &&& forall|i: int| 0 <= i < self.files@.len() ==> self.file_wf(#[trigger] self.files@[i])
        &&& self.dir_wf()
        &&& self.frames_wf()
        &&& self.tree_wf()
        &&& self.current matches Some(c) ==> self.live(c as int) && self.tcb(c as int).status
            == TaskStatus::Running && !self.manager.contains(c)
    }

    /// Every frame that a process maps lies below the next free frame, so a frame handed out
    /// from `next_ppn` on is in use nowhere.
    pub open spec fn frames_wf(&self) -> bool {
        forall|pid: int| #[trigger] self.live(pid) ==> frames_below(self.tcb(pid).memory_set, self.next_ppn as int)
    }

    /// The frame invariant carries over to `new` where the next free frame does not go back,
    /// no process starts to live but `pid`, every other process keeps its address space, and
    /// the frames of `pid` lie below the new bound.
    pub proof fn lemma_frames_keep(&self, new: &Kernel, pid: int)
        requires
            self.frames_wf(),
            new.next_ppn >= self.next_ppn,
            forall|q: int|
                #[trigger] new.live(q) && q != pid ==> self.live(q) && new.tcb(q).memory_set
                    == self.tcb(q).memory_set,
            new.live(pid) ==> frames_below(new.tcb(pid).memory_set, new.next_ppn as int),
        ensures
            new.frames_wf(),
    {
        assert forall|q: int| #[trigger] new.live(q) implies frames_below(
            new.tcb(q).memory_set,
            new.next_ppn as int,
        ) by {
            if q != pid {
                assert(self.live(q));
                assert(frames_below(self.tcb(q).memory_set, self.next_ppn as int));
            }
        }
    }

    /// The process tree: every child that a process lists is live and names that process as
    /// its parent. With no child list holding a pid twice, a process is listed at most once,
    /// and only by its parent.
    pub open spec fn tree_wf(&self) -> bool {
        forall|p: int, i: int|
            #![trigger self.tcb(p).children@[i]]
            self.live(p) && 0 <= i < self.tcb(p).children@.len() ==> self.live(
                self.tcb(p).children@[i] as int,
            ) && self.tcb(self.tcb(p).children@[i] as int).parent == Some(p as usize)
    }

    /// The tree invariant carries over where the same processes live and none changes its
    /// parent or children.
    pub proof fn lemma_tree_keep(&self, new: &Kernel)
        requires
            self.tree_wf(),
            forall|q: int| #[trigger] new.live(q) == self.live(q),
            forall|q: int|
                #[trigger] new.live(q) ==> new.tcb(q).parent == self.tcb(q).parent
                    && new.tcb(q).children == self.tcb(q).children,
        ensures
            new.tree_wf(),
    {
        assert forall|p: int, i: int|
            new.live(p) && 0 <= i < new.tcb(p).children@.len() implies new.live(
            #[trigger] new.tcb(p).children@[i] as int,
        ) && new.tcb(new.tcb(p).children@[i] as int).parent == Some(p as usize) by {
            assert(self.tcb(p).children@[i] == new.tcb(p).children@[i]);
            assert(self.live(self.tcb(p).children@[i] as int));
            assert(new.live(new.tcb(p).children@[i] as int));
        }
    }

    /// Moving the next free frame forward keeps the kernel well formed.
    pub proof fn lemma_advance_frames(&self, new: &Kernel)
        requires
            self.wf(),
            new.tasks == self.tasks,
            new.same_but_frames(self),
            new.next_ppn >= self.next_ppn,
        ensures
            new.wf(),
    {
        assert forall|q: int| #[trigger] new.slot_wf(q) by {
            assert(self.slot_wf(q));
        }
        self.lemma_frames_keep(new, -1);
        assert forall|q: int| #[trigger] new.live(q) implies new.tcb(q).parent == self.tcb(q).parent
            && new.tcb(q).children == self.tcb(q).children by {
            assert(new.tcb(q) == self.tcb(q));
        }
        self.lemma_tree_keep(new);
    }

    /// Every name of the directory names an existing inode.
    pub open spec fn dir_wf(&self) -> bool {
        forall|i: int| 0 <= i < self.dir@.len() ==> (#[trigger] self.dir@[i]).ino < self.inodes@.len()
    }

    /// A trap came from a running task.
    pub open spec fn running(&self) -> bool {
        self.wf() && self.current is Some
    }

    /// The two kernels differ at most in their process table.
    pub open spec fn same_except_tasks(&self, o: &Kernel) -> bool {
        &&& self.current == o.current
        &&& self.manager == o.manager
        &&& self.next_ppn == o.next_ppn
        &&& self.apps == o.apps
        &&& self.files == o.files
        &&& self.pipes == o.pipes
        &&& self.inodes == o.inodes
        &&& self.console_in == o.console_in
        &&& self.console_out == o.console_out
        &&& self.dir == o.dir
    }

    /// The two kernels differ at most in their processes, running task and ready set.
    pub open spec fn same_but_sched(&self, o: &Kernel) -> bool {
        &&& self.next_ppn == o.next_ppn
        &&& self.apps == o.apps
        &&& self.files == o.files
        &&& self.pipes == o.pipes
        &&& self.inodes == o.inodes
        &&& self.console_in == o.console_in
        &&& self.console_out == o.console_out
        &&& self.dir == o.dir
    }

    /// Every process but `c` is as it was in `o`, and the same processes live.
    pub open spec fn others_unchanged(&self, o: &Kernel, c: int) -> bool {
        &&& self.tasks@.len() >= o.tasks@.len()
        &&& forall|q: int| #[trigger] self.live(q) == o.live(q)
        &&& forall|q: int| 0 <= q < o.tasks@.len() && q != c ==> #[trigger] self.tcb(q) == o.tcb(q)
    }

    /// The two kernels differ at most in their processes and the next free frame.
    pub open spec fn same_but_frames(&self, o: &Kernel) -> bool {
        &&& self.current == o.current
        &&& self.manager == o.manager
        &&& self.apps == o.apps
        &&& self.files == o.files
        &&& self.pipes == o.pipes
        &&& self.inodes == o.inodes
        &&& self.console_in == o.console_in
        &&& self.console_out == o.console_out
        &&& self.dir == o.dir
    }

    /// The two kernels hold the same state.
    pub open spec fn same(&self, o: &Kernel) -> bool {
        &&& self.same_except_tasks(o)
        &&& self.tasks@ == o.tasks@
    }

    /// The descriptor of live process `pid`.
    pub fn task_ref(&self, pid: usize) -> (r: &TaskControlBlock)
        requires
            self.live(pid as int),
        ensures
            *r == self.tcb(pid as int),
    {
        self.tasks[pid].as_ref().unwrap()
    }

    /// Copies `data` into the memory of process `pid` at `start`; fails as a whole, changing
    /// nothing, when the range is not writable there.
    pub fn copy_out(&mut self, pid: usize, start: usize, data: &Vec<u8>) -> (r: bool)
        requires
            old(self).wf(),
            old(self).live(pid as int),
        ensures
            final(self).wf(),
            r == old(self).tcb(pid as int).memory_set.writable_range(start as int, data@.len() as int),
            !r ==> final(self).same(old(self)),
            final(self).same_except_tasks(old(self)),
            final(self).tasks@.len() == old(self).tasks@.len(),
            forall|q: int| #[trigger] final(self).live(q) == old(self).live(q),
            forall|q: int|
                0 <= q < old(self).tasks@.len() && q != pid ==> #[trigger] final(self).tcb(q)
                    == old(self).tcb(q),
            same_but_memory(final(self).tcb(pid as int), old(self).tcb(pid as int)),
            final(self).tcb(pid as int).memory_set.same_layout(&old(self).tcb(pid as int).memory_set),
            r ==> forall|va: int|
                #[trigger] final(self).tcb(pid as int).memory_set.has(page_of(va))
                    ==> final(self).tcb(pid as int).memory_set.byte_at(va) == if start <= va < start + data@.len() {
                    data@[va - start]
                } else {
                    old(self).tcb(pid as int).memory_set.byte_at(va)
                },
    {
        let ghost k0 = *self;
        proof {
            assert(k0.slot_wf(pid as int));
        }
        let mut t = self.take_task(pid);
        let ok = t.memory_set.write_bytes(start, data);
        self.put_task(pid, t);
        proof {
            assert(self.tasks@ =~= k0.tasks@.update(pid as int, Some(self.tcb(pid as int))));
            k0.lemma_replace(self, pid as int);
            if !ok {
                assert(self.tasks@ =~= k0.tasks@);
            }
        }
        ok
    }

    /// A program of this name can be loaded.
    pub open spec fn has_app(&self, name: Seq<u8>) -> bool {
        exists|i: int| 0 <= i < self.apps@.len() && (#[trigger] self.apps@[i]).name@ == name
    }

    /// Looks up a loadable program by name; the first of that name.
    pub fn find_app(&self, name: &Vec<u8>) -> (r: Option<usize>)
        ensures
            r is None <==> !self.has_app(name@),
            r matches Some(i) ==> i < self.apps@.len() && self.apps@[i as int].name@ == name@
                && forall|j: int| 0 <= j < i ==> (#[trigger] self.apps@[j]).name@ != name@,
    {
        let mut i: usize = 0;
        while i < self.apps.len()
            invariant
                i <= self.apps@.len(),
                forall|j: int| 0 <= j < i ==> (#[trigger] self.apps@[j]).name@ != name@,
            decreases self.apps@.len() - i,
        {
            if bytes_eq(&self.apps[i].name, name) {
                return Some(i);
            }
            i = i + 1;
        }
        None
    }

    /// A pid is free: a slot of the table is empty, or the table can grow.
    pub open spec fn has_free_pid(&self) -> bool {
        self.tasks@.len() < MAX_TASKS || exists|q: int| 0 <= q < self.tasks@.len() && !#[trigger] self.live(q)
    }

    /// Takes a free pid: the lowest free slot of the process table, or a new slot at its end.
    /// None where the table is full.
    pub fn alloc_pid(&mut self) -> (r: Option<usize>)
        requires
            old(self).wf(),
        ensures
            final(self).wf(),
            final(self).same_except_tasks(old(self)),
            forall|q: int| #[trigger] final(self).live(q) == old(self).live(q),
            forall|q: int| 0 <= q < old(self).tasks@.len() ==> #[trigger] final(self).tasks@[q] == old(self).tasks@[q],
            final(self).tasks@.len() >= old(self).tasks@.len(),
            r is None ==> final(self).same(old(self)) && old(self).tasks@.len() >= MAX_TASKS
                && forall|q: int| 0 <= q < old(self).tasks@.len() ==> #[trigger] old(self).live(q),
            r matches Some(p) ==> {
                &&& !old(self).live(p as int)
                &&& 0 < p < final(self).tasks@.len()
                &&& p <= old(self).tasks@.len()
                &&& final(self).tasks@.len() <= old(self).tasks@.len() + 1
            },
    {
        let mut i: usize = 0;
        while i < self.tasks.len()
            invariant
                *self == *old(self),
                self.wf(),
                i <= self.tasks@.len(),
                forall|j: int| 0 <= j < i ==> #[trigger] self.live(j),
            decreases self.tasks@.len() - i,
        {
            if self.tasks[i].is_none() {
                return Some(i);
            }
            i = i + 1;
        }
        if self.tasks.len() >= MAX_TASKS {
            return None;
        }
        let ghost k0 = *self;
        self.tasks.push(None);
        proof {
            assert forall|q: int| #[trigger] self.live(q) == k0.live(q) by {
                if 0 <= q < k0.tasks@.len() {
                    assert(self.tasks@[q] == k0.tasks@[q]);
                }
            }
            assert forall|q: int| #[trigger] self.slot_wf(q) by {
                assert(k0.slot_wf(q));
                if 0 <= q < k0.tasks@.len() {
                    assert(self.tasks@[q] == k0.tasks@[q]);
                }
            }
            assert(self.ready_wf()) by {
                assert forall|j: int| 0 <= j < self.manager@.len() implies self.live(
                    (#[trigger] self.manager@[j]).pid as int,
                ) && self.tcb(self.manager@[j].pid as int).status == TaskStatus::Ready by {
                    assert(k0.live(k0.manager@[j].pid as int));
                    assert(self.tasks@[k0.manager@[j].pid as int] == k0.tasks@[k0.manager@[j].pid as int]);
                }
            }
            if let Some(c) = self.current {
                assert(self.tasks@[c as int] == k0.tasks@[c as int]);
            }
        }
        Some(i)
    }

    /// Filling a free slot with a new Ready process keeps the kernel well formed.
    pub proof fn lemma_insert(&self, new: &Kernel, pid: int)
        requires
            self.wf(),
            0 <= pid < self.tasks@.len(),
            !self.live(pid),
            new.same_except_tasks(self),
            new.tasks@ == self.tasks@.update(pid, Some(new.tcb(pid))),
            new.tcb(pid).pid == pid,
            new.tcb(pid).wf(),
            self.fds_wf(new.tcb(pid).fd_table@),
            new.tcb(pid).status == TaskStatus::Ready,
            frames_below(new.tcb(pid).memory_set, self.next_ppn as int),
            new.tcb(pid).children@.len() == 0,
        ensures
            new.wf(),
            !new.manager.contains(pid as usize),
            new.current != Some(pid as usize),
            forall|q: int| #[trigger] new.live(q) == (self.live(q) || q == pid),
            forall|q: int| 0 <= q < self.tasks@.len() && q != pid ==> #[trigger] new.tcb(q) == self.tcb(q),
    {
        assert forall|q: int| #[trigger] new.slot_wf(q) by {
            if q != pid {
                assert(self.slot_wf(q));
            }
        }
        assert forall|i: int| 0 <= i < new.manager@.len() implies new.live(
            (#[trigger] new.manager@[i]).pid as int,
        ) && new.tcb(new.manager@[i].pid as int).status == TaskStatus::Ready by {
            assert(self.live(self.manager@[i].pid as int));
        }
        if new.manager.contains(pid as usize) {
            let i = choose|i: int| 0 <= i < new.manager@.len() && (#[trigger] new.manager@[i]).pid == pid as usize;
            assert(self.live(self.manager@[i].pid as int));
        }
        self.lemma_frames_keep(new, pid);
        assert forall|p: int, i: int|
            new.live(p) && 0 <= i < new.tcb(p).children@.len() implies new.live(
            #[trigger] new.tcb(p).children@[i] as int,
        ) && new.tcb(new.tcb(p).children@[i] as int).parent == Some(p as usize) by {
            if p != pid {
                assert(new.tcb(p) == self.tcb(p));
                let q = self.tcb(p).children@[i] as int;
                assert(self.live(q));
                assert(q != pid);
                assert(new.tcb(q) == self.tcb(q));
            }
        }
    }

    /// Well-formedness depends on the state alone.
    pub proof fn lemma_same(&self, new: &Kernel)
        requires
            self.wf(),
            new.same(self),
        ensures
            new.wf(),
    {
        assert forall|q: int| #[trigger] new.slot_wf(q) by {
            assert(self.slot_wf(q));
        }
        self.lemma_frames_keep(new, -1);
        assert forall|q: int| #[trigger] new.live(q) implies new.tcb(q).parent == self.tcb(q).parent
            && new.tcb(q).children == self.tcb(q).children by {
            assert(new.tcb(q) == self.tcb(q));
        }
        self.lemma_tree_keep(new);
    }

    /// Takes the descriptor of `pid` out of its slot, to change it and put it back.
    pub(crate) fn take_task(&mut self, pid: usize) -> (t: TaskControlBlock)
        requires
            old(self).live(pid as int),
        ensures
            t == old(self).tcb(pid as int),
            final(self).tasks@ == old(self).tasks@.update(pid as int, None),
            final(self).same_except_tasks(old(self)),
    {
        let mut slot: Option<TaskControlBlock> = None;
        self.tasks.set_and_swap(pid, &mut slot);
        slot.unwrap()
    }

    /// Stores `t` in the slot of `pid`.
    pub(crate) fn put_task(&mut self, pid: usize, t: TaskControlBlock)
        requires
            pid < old(self).tasks@.len(),
        ensures
            final(self).tasks@ == old(self).tasks@.update(pid as int, Some(t)),
            final(self).same_except_tasks(old(self)),
    {
        self.tasks.set(pid, Some(t));
    }

    /// Putting back a changed descriptor that keeps its pid, its state and its well-formedness
    /// keeps the kernel well formed.
    pub proof fn lemma_replace(&self, new: &Kernel, pid: int)
        requires
            self.wf(),
            self.live(pid),
            new.same_except_tasks(self),
            new.tasks@ == self.tasks@.update(pid, Some(new.tcb(pid))),
            new.tcb(pid).pid == pid,
            new.tcb(pid).wf(),
            self.fds_wf(new.tcb(pid).fd_table@),
            new.tcb(pid).status == self.tcb(pid).status,
            new.tcb(pid).memory_set == self.tcb(pid).memory_set || frames_below(
                new.tcb(pid).memory_set,
                self.next_ppn as int,
            ),
            (new.tcb(pid).parent == self.tcb(pid).parent && new.tcb(pid).children == self.tcb(
                pid,
            ).children) || new.tree_wf(),
        ensures
            new.wf(),
            forall|q: int| #[trigger] new.live(q) == self.live(q),
            forall|q: int| 0 <= q < self.tasks@.len() && q != pid ==> #[trigger] new.tcb(q) == self.tcb(q),
    {
        assert forall|q: int| #[trigger] new.slot_wf(q) by {
            if q != pid {
                assert(self.slot_wf(q));
            }
        }
        assert forall|i: int| 0 <= i < new.manager@.len() implies new.live(
            (#[trigger] new.manager@[i]).pid as int,
        ) && new.tcb(new.manager@[i].pid as int).status == TaskStatus::Ready by {
            assert(self.live(self.manager@[i].pid as int));
        }
        if new.tcb(pid).memory_set == self.tcb(pid).memory_set {
            assert(self.live(pid));
            assert(frames_below(self.tcb(pid).memory_set, self.next_ppn as int));
        }
        self.lemma_frames_keep(new, pid);
        if new.tcb(pid).parent == self.tcb(pid).parent && new.tcb(pid).children == self.tcb(pid).children {
            assert forall|q: int| #[trigger] new.live(q) implies new.tcb(q).parent == self.tcb(q).parent
                && new.tcb(q).children == self.tcb(q).children by {
                if q != pid { assert(new.tcb(q) == self.tcb(q)); }
            }
            self.lemma_tree_keep(new);
        }
    }

    /// Boots the kernel with the initial process running `init`.
    pub fn new(init: &Vec<u8>) -> (r: Kernel)
        requires
            init@.len() <= MAX_IMAGE,
        ensures
            r.running(),
            r.cur() == INITPROC_PID,
            r.tasks@.len() == 1,
            r.manager@.len() == 0,
            r.tcb(INITPROC_PID as int).parent is None,
            r.tcb(INITPROC_PID as int).children@.len() == 0,
            r.tcb(INITPROC_PID as int).fd_table@ == seq![Some(0usize), Some(1usize), Some(1usize)],
            r.files@ == seq![
                OpenFile { kind: FileKind::Stdin, readable: true, writable: false },
                OpenFile { kind: FileKind::Stdout, readable: false, writable: true },
            ],
            forall|va: int|
                0 <= va < init@.len() ==> #[trigger] r.tcb(INITPROC_PID as int).memory_set.byte_at(va)
                    == init@[va],
            forall|v: int|
                #[trigger] r.tcb(INITPROC_PID as int).memory_set.has(v) == (0 <= v < pages_for(
                    init@.len() as int,
                )),
            r.next_ppn == pages_for(init@.len() as int),
            r.tcb(INITPROC_PID as int).trap_cx == (TrapContext { a0: 0, sepc: 0 }),
            r.tcb(INITPROC_PID as int).status == TaskStatus::Running,
    {
        let n: usize = init.len() / 4096 + if init.len() % 4096 != 0 { 1usize } else { 0usize };
        assert(n as int == pages_for(init@.len() as int));
        let mut t = new_tcb(INITPROC_PID, init, 0);
        t.status = TaskStatus::Running;
        let mut tasks: Vec<Option<TaskControlBlock>> = Vec::new();
        tasks.push(Some(t));
        let mut files: Vec<OpenFile> = Vec::new();
        files.push(OpenFile { kind: FileKind::Stdin, readable: true, writable: false });
        files.push(OpenFile { kind: FileKind::Stdout, readable: false, writable: true });
        let k = Kernel {
            tasks,
            current: Some(INITPROC_PID),
            manager: TaskManager::new(),
            next_ppn: n,
            apps: Vec::new(),
            files,
            pipes: Vec::new(),
            inodes: Vec::new(),
            console_in: Vec::new(),
            console_out: Vec::new(),
            dir: Vec::new(),
        };
        proof {
            assert forall|pid: int| #[trigger] k.slot_wf(pid) by {
                if k.live(pid) {
                    assert(pid == 0);
                }
            }
            assert(!k.manager.contains(INITPROC_PID));
            assert forall|q: int| #[trigger] k.live(q) implies frames_below(
                k.tcb(q).memory_set,
                k.next_ppn as int,
            ) by {
                assert(q == 0);
            }
        }
        k
    }

    /// Registers a program that `exec` and `spawn` can load by name.
    pub fn add_app(&mut self, name: Vec<u8>, data: Vec<u8>)
        requires
            old(self).wf(),
        ensures
            final(self).wf(),
            final(self).apps@.len() == old(self).apps@.len() + 1,
            final(self).apps@.last().name@ == name@,
            final(self).apps@.last().data@ == data@,
            forall|i: int| 0 <= i < old(self).apps@.len() ==> #[trigger] final(self).apps@[i] == old(self).apps@[i],
            final(self).current == old(self).current,
            final(self).tasks == old(self).tasks,
    {
        let ghost before = *self;
        self.apps.push(App { name, data });
        proof {
            before.lemma_same_tasks(self);
        }
    }

    /// A change that leaves the process table, the running task and the ready set alone, and
    /// removes no open file, pipe or inode, keeps the kernel well formed where every open
    /// file refers to what exists.
    pub proof fn lemma_same_tasks(&self, new: &Kernel)
        requires
            self.wf(),
            new.tasks == self.tasks,
            new.current == self.current,
            new.manager == self.manager,
            self.files@.len() <= new.files@.len(),
            forall|i: int| 0 <= i < new.files@.len() ==> new.file_wf(#[trigger] new.files@[i]),
            self.pipes@.len() <= new.pipes@.len(),
            self.inodes@.len() <= new.inodes@.len(),
            new.dir == self.dir || new.dir_wf(),
            new.next_ppn == self.next_ppn,
        ensures
            new.wf(),
    {
        self.lemma_frames_keep(new, -1);
        assert forall|q: int| #[trigger] new.live(q) implies new.tcb(q).parent == self.tcb(q).parent
            && new.tcb(q).children == self.tcb(q).children by {
            assert(new.tcb(q) == self.tcb(q));
        }
        self.lemma_tree_keep(new);
        if new.dir == self.dir {
            assert forall|i: int| 0 <= i < new.dir@.len() implies (#[trigger] new.dir@[i]).ino
                < new.inodes@.len() by {
                assert(self.dir@[i].ino < self.inodes@.len());
            }
        }
        assert forall|pid: int| #[trigger] new.slot_wf(pid) by {
            assert(self.slot_wf(pid));
        }
        assert forall|i: int| 0 <= i < new.files@.len() implies new.file_wf(#[trigger] new.files@[i]) by {
        }
    }
}


/// The ready-set entry of task `t`.
pub open spec fn entry_of(t: TaskControlBlock) -> Stride {
    Stride { pid: t.pid, pass: t.pass, stride: stride_of(t.priority) as u64 }
}

/// Puts task `pid`, which is Ready, into the ready set with its pass and stride.
pub fn add_task(k: &mut Kernel, pid: usize)
    requires
        old(k).wf(),
        old(k).live(pid as int),
        old(k).tcb(pid as int).status == TaskStatus::Ready,
        !old(k).manager.contains(pid),
        old(k).current != Some(pid),
    ensures
        final(k).wf(),
        final(k).manager@ == old(k).manager@.push(entry_of(old(k).tcb(pid as int))),
        final(k).tasks == old(k).tasks,
        final(k).current == old(k).current,
        final(k).next_ppn == old(k).next_ppn,
        final(k).apps == old(k).apps,
        final(k).files == old(k).files,
        final(k).pipes == old(k).pipes,
        final(k).inodes == old(k).inodes,
        final(k).console_in == old(k).console_in,
        final(k).console_out == old(k).console_out,
        final(k).dir == old(k).dir,
{
    proof {
        assert(k.slot_wf(pid as int));
    }
    let e = k.task_ref(pid).stride_entry();
    k.manager.add(e);
    proof {
        assert forall|pid: int| #[trigger] k.slot_wf(pid) by {
            assert(old(k).slot_wf(pid));
        }
        assert(k.ready_wf()) by {
            assert forall|i: int| 0 <= i < k.manager@.len() implies k.live(
                (#[trigger] k.manager@[i]).pid as int,
            ) && k.tcb(k.manager@[i].pid as int).status == TaskStatus::Ready by {
                if i < old(k).manager@.len() {
                    assert(old(k).manager@[i] == k.manager@[i]);
                }
            }
        }
        if let Some(c) = k.current {
            if k.manager.contains(c) {
                let i = choose|i: int| 0 <= i < k.manager@.len() && (#[trigger] k.manager@[i]).pid == c;
                if i < old(k).manager@.len() {
                    assert(old(k).manager@[i] == k.manager@[i]);
                }
            }
        }
        old(k).lemma_frames_keep(k, -1);
        assert forall|q: int| #[trigger] k.live(q) implies k.tcb(q).parent == old(k).tcb(q).parent
            && k.tcb(q).children == old(k).tcb(q).children by {
            assert(k.tcb(q) == old(k).tcb(q));
        }
        old(k).lemma_tree_keep(k);
    }
}

/// Picks the next task from the ready set, credits its stride, and makes it the running task.
pub fn fetch_task(k: &mut Kernel) -> (r: Option<usize>)
    requires
        old(k).wf(),
        old(k).current is None,
    ensures
        final(k).wf(),
        r is None <==> old(k).manager@.len() == 0,
        r is None ==> final(k).tasks == old(k).tasks && final(k).current == old(k).current
            && final(k).manager@ == old(k).manager@,
        r matches Some(p) ==> exists|i: int|
            #[trigger] old(k).manager.is_next(i) && old(k).manager@[i].pid == p && final(k).manager@
                == old(k).manager@.remove(i) && final(k).tcb(p as int).pass == credited(
                old(k).manager@[i],
            ).pass,
        r matches Some(p) ==> {
            &&& old(k).live(p as int)
            &&& old(k).tcb(p as int).status == TaskStatus::Ready
            &&& final(k).current == Some(p)
            &&& final(k).tcb(p as int).status == TaskStatus::Running
            &&& final(k).tcb(p as int).pid == p
        },
        forall|q: int| #[trigger] final(k).live(q) == old(k).live(q),
        r matches Some(p) ==> forall|q: int|
            0 <= q < old(k).tasks@.len() && q != p ==> #[trigger] final(k).tcb(q) == old(k).tcb(q),
        r matches Some(p) ==> same_but_run_state(final(k).tcb(p as int), old(k).tcb(p as int)),
        final(k).same_but_sched(old(k)),
{
    let ghost k0 = *k;
    match k.manager.fetch() {
        None => {
            proof {
                assert forall|q: int| #[trigger] k.slot_wf(q) by {
                    assert(k0.slot_wf(q));
                }
                assert(k.ready_wf()) by {
                    assert forall|j: int| 0 <= j < k.manager@.len() implies k.live(
                        (#[trigger] k.manager@[j]).pid as int,
                    ) && k.tcb(k.manager@[j].pid as int).status == TaskStatus::Ready by {
                        assert(k0.manager@[j] == k.manager@[j]);
                    }
                }
                k0.lemma_frames_keep(k, -1);
                assert forall|q: int| #[trigger] k.live(q) implies k.tcb(q).parent == k0.tcb(q).parent
                    && k.tcb(q).children == k0.tcb(q).children by {
                    assert(k.tcb(q) == k0.tcb(q));
                }
                k0.lemma_tree_keep(k);
            }
            None
        },
        Some(e) => {
            let ghost i = choose|i: int|
                #[trigger] k0.manager.is_next(i) && e == credited(k0.manager@[i]) && k.manager@
                    == k0.manager@.remove(i);
            assert(k0.live(e.pid as int));
            let mut t = k.take_task(e.pid);
            proof {
                assert(k0.slot_wf(e.pid as int));
            }
            t.status = TaskStatus::Running;
            t.pass = e.pass;
            k.put_task(e.pid, t);
            k.current = Some(e.pid);
            proof {
                assert forall|q: int| #[trigger] k.slot_wf(q) by {
                    assert(k0.slot_wf(q));
                }
                assert forall|j: int| 0 <= j < k.manager@.len() implies k.live(
                    (#[trigger] k.manager@[j]).pid as int,
                ) && k.tcb(k.manager@[j].pid as int).status == TaskStatus::Ready by {
                    let oj = if j < i { j } else { j + 1 };
                    assert(k0.manager@[oj] == k.manager@[j]);
                    assert(k0.manager@[oj].pid != k0.manager@[i].pid);
                }
                if k.manager.contains(e.pid) {
                    let j = choose|j: int| 0 <= j < k.manager@.len() && (#[trigger] k.manager@[j]).pid == e.pid;
                    let oj = if j < i { j } else { j + 1 };
                    assert(k0.manager@[oj] == k.manager@[j]);
                    assert(k0.manager@[oj].pid != k0.manager@[i].pid);
                }
                assert forall|q: int| #[trigger] k.live(q) == k0.live(q) by {}
                assert(frames_below(k0.tcb(e.pid as int).memory_set, k0.next_ppn as int));
                k0.lemma_frames_keep(k, e.pid as int);
                assert forall|q: int| #[trigger] k.live(q) implies k.tcb(q).parent == k0.tcb(q).parent
                    && k.tcb(q).children == k0.tcb(q).children by {
                    if q != e.pid as int { assert(k.tcb(q) == k0.tcb(q)); }
                }
                k0.lemma_tree_keep(k);
            }
            Some(e.pid)
        },
    }
}

/// The pid of task `pid` where it is running or ready; absence is an ordinary outcome.
pub fn get_task(k: &Kernel, pid: usize) -> (r: Option<usize>)
    requires
        k.wf(),
    ensures
        r is Some <==> (k.current == Some(pid) || k.manager.contains(pid)),
        r matches Some(p) ==> p == pid && k.live(pid as int),
{
    if k.current == Some(pid) {
        return Some(pid);
    }
    match k.manager.get_task(pid) {
        Some(e) => {
            proof {
                let i = choose|i: int| 0 <= i < k.manager@.len() && #[trigger] k.manager@[i] == e;
                assert(k.live(k.manager@[i].pid as int));
            }
            Some(pid)
        },
        None => None,
    }
}

/// Puts the running task back into the ready set and switches to the task that runs next,
/// which may be the same one.
pub fn suspend_current_and_run_next(k: &mut Kernel)
    requires
        old(k).running(),
    ensures
        final(k).running(),
        exists|i: int|
            #[trigger] next_in(old(k).manager@.push(entry_of(old(k).tcb(old(k).cur()))), i)
                && final(k).cur() == old(k).manager@.push(entry_of(old(k).tcb(old(k).cur())))[i].pid
                && final(k).manager@ == old(k).manager@.push(entry_of(old(k).tcb(old(k).cur()))).remove(i),
        final(k).cur() != old(k).cur() ==> {
            let t = final(k).tcb(old(k).cur());
            let t0 = old(k).tcb(old(k).cur());
            &&& t.status == TaskStatus::Ready
            &&& t.pass == t0.pass
            &&& same_but_run_state(t, t0)
        },
        final(k).same_but_sched(old(k)),
        forall|q: int| #[trigger] final(k).live(q) == old(k).live(q),
{
    let c = k.current.unwrap();
    let ghost k0 = *k;
    let mut t = k.take_task(c);
    t.status = TaskStatus::Ready;
    k.put_task(c, t);
    k.current = None;
    proof {
        assert forall|q: int| #[trigger] k.slot_wf(q) by {
            assert(k0.slot_wf(q));
        }
        assert forall|j: int| 0 <= j < k.manager@.len() implies k.live(
            (#[trigger] k.manager@[j]).pid as int,
        ) && k.tcb(k.manager@[j].pid as int).status == TaskStatus::Ready by {
            assert(k0.live(k0.manager@[j].pid as int));
            assert(k.manager@[j].pid != c);
        }
        assert(entry_of(k.tcb(c as int)) == entry_of(k0.tcb(c as int)));
        assert(frames_below(k0.tcb(c as int).memory_set, k0.next_ppn as int));
        k0.lemma_frames_keep(k, c as int);
        assert forall|q: int| #[trigger] k.live(q) implies k.tcb(q).parent == k0.tcb(q).parent
            && k.tcb(q).children == k0.tcb(q).children by {
            if q != c as int { assert(k.tcb(q) == k0.tcb(q)); }
        }
        k0.lemma_tree_keep(k);
    }
    add_task(k, c);
    fetch_task(k);
}

/// The ready set holds each task at most once, and never a zombie: every entry is a live
/// task in state Ready, and the running task is not among them.
pub proof fn lemma_ready_set_sound(k: &Kernel)
    requires
        k.wf(),
    ensures
        forall|i: int, j: int|
            0 <= i < j < k.manager@.len() ==> (#[trigger] k.manager@[i]).pid != (
            #[trigger] k.manager@[j]).pid,
        forall|i: int|
            0 <= i < k.manager@.len() ==> k.live((#[trigger] k.manager@[i]).pid as int) && k.tcb(
                k.manager@[i].pid as int,
            ).status != TaskStatus::Zombie,
        k.current matches Some(c) ==> !k.manager.contains(c),
{
    assert forall|i: int|
        0 <= i < k.manager@.len() implies k.live((#[trigger] k.manager@[i]).pid as int) && k.tcb(
        k.manager@[i].pid as int,
    ).status != TaskStatus::Zombie by {
        assert(k.live(k.manager@[i].pid as int));
    }
}

} // verus!
