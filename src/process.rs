use vstd::prelude::*;
use crate::mm::{le_seq, le_bytes, mmapped, munmapped, page_of, pages_for, MemorySet, PAGE_SIZE};
use crate::mm::MAX_IMAGE;
use crate::task::{
    frames_below,
    add_task, copy_fds, entry_of, fetch_task, new_tcb, suspend_current_and_run_next, Kernel,
    TaskControlBlock, TaskStatus, TrapContext, INITPROC_PID, MAX_TASKS, same_but_parent,
    same_but_memory, same_but_run_state,
};
use crate::sched::{next_in, DEFAULT_PRIORITY};
use std::collections::VecDeque;

verus! {

/// The time that `get_time` writes: whole seconds and the microseconds beyond them.
#[derive(Clone, Copy, Debug, PartialEq, Eq, Structural)]
pub struct TimeVal {
    pub sec: u64,
    pub usec: u64,
}

/// The bytes of a `TimeVal` for `us` microseconds, as user memory holds it.
pub open spec fn timeval_bytes(us: u64) -> Seq<u8> {
    le_seq((us / 1_000_000) as nat, 8) + le_seq((us % 1_000_000) as nat, 8)
}

impl TimeVal {
    /// Splits a count of microseconds into seconds and microseconds.
    pub fn from_us(us: u64) -> (r: TimeVal)
        ensures
            r.sec == us / 1_000_000,
            r.usec == us % 1_000_000,
    {
        TimeVal { sec: us / 1_000_000, usec: us % 1_000_000 }
    }
}

/// The pid of the running task.
pub fn sys_getpid(k: &Kernel) -> (r: isize)
    requires
        k.running(),
    ensures
        r == k.cur(),
{
    k.current.unwrap() as isize
}

/// Gives up the processor: the running task goes back to the ready set and the task that
/// runs next is switched to. Returns 0.
pub fn sys_yield(k: &mut Kernel) -> (r: isize)
    requires
        old(k).running(),
    ensures
        r == 0,
        final(k).running(),
        exists|i: int|
            #[trigger] next_in(old(k).manager@.push(entry_of(old(k).tcb(old(k).cur()))), i)
                && final(k).cur() == old(k).manager@.push(entry_of(old(k).tcb(old(k).cur())))[i].pid
                && final(k).manager@ == old(k).manager@.push(entry_of(old(k).tcb(old(k).cur()))).remove(i),
        final(k).cur() != old(k).cur() ==> {
            let t = final(k).tcb(old(k).cur());
            let t0 = old(k).tcb(old(k).cur());
            &&& t.status == TaskStatus::Ready
            &&& t.pass == t0.pass
            &&& same_but_run_state(t, t0)
        },
        final(k).same_but_sched(old(k)),
        forall|q: int| #[trigger] final(k).live(q) == old(k).live(q),
{
    suspend_current_and_run_next(k);
    0
}

/// Maps `[start, start + len)` into the running task's address space with protection
/// `prot`. Returns 0, or -1 without any change where `start` is not page-aligned, `prot` has
/// a bit outside read, write and execute or none of them, a page is already mapped, or the
/// region or its frames do not fit.
pub fn sys_mmap(k: &mut Kernel, start: usize, len: usize, prot: usize) -> (r: isize)
    requires
        old(k).running(),
    ensures
        final(k).running(),
        r == 0 || r == -1,
        r == 0 <==> old(k).tcb(old(k).cur()).memory_set.can_mmap(
            start as int,
            len as int,
            prot,
            old(k).next_ppn as int,
        ),
        start as int % PAGE_SIZE as int != 0 ==> r == -1,
        r == -1 ==> final(k).same(old(k)),
        r == 0 ==> {
            &&& mmapped(
                old(k).tcb(old(k).cur()).memory_set,
                final(k).tcb(old(k).cur()).memory_set,
                start as int,
                len as int,
                prot,
                old(k).next_ppn as int,
            )
            &&& final(k).next_ppn == old(k).next_ppn + pages_for(len as int)
            &&& final(k).same_but_frames(old(k))
            &&& final(k).others_unchanged(old(k), old(k).cur())
            &&& same_but_memory(final(k).tcb(old(k).cur()), old(k).tcb(old(k).cur()))
        },
{
    if start % PAGE_SIZE != 0 {
        return -1;
    }
    if prot & !0x7usize != 0 {
        return -1;
    }
    if prot & 0x7usize == 0 {
        return -1;
    }
    let c = k.current.unwrap();
    let n: usize = len / PAGE_SIZE + if len % PAGE_SIZE != 0 { 1usize } else { 0usize };
    assert(n as int == pages_for(len as int));
    let ghost k0 = *k;
    let first = k.next_ppn;
    if first > usize::MAX - n {
        return -1;
    }
    k.next_ppn = first + n;
    proof {
        k0.lemma_advance_frames(k);
    }
    let ghost k1 = *k;
    proof {
        assert(k1.slot_wf(c as int));
        assert(k1.live(c as int));
    }
    let mut t = k.take_task(c);
    let ok = t.memory_set.mmap(start, len, prot, first);
    k.put_task(c, t);
    if !ok {
        k.next_ppn = first;
        proof {
            assert(k.tasks@ =~= k0.tasks@);
            k0.lemma_same(k);
        }
        return -1;
    }
    proof {
        assert(k.tasks@ =~= k1.tasks@.update(c as int, Some(k.tcb(c as int))));
        let ms = k.tcb(c as int).memory_set;
        assert(frames_below(k1.tcb(c as int).memory_set, k1.next_ppn as int));
        assert forall|v: int| #[trigger] ms.has(v) implies ms.entry(v).ppn < k1.next_ppn by {
            if k1.tcb(c as int).memory_set.has(v) {
                assert(k0.live(c as int));
                assert(frames_below(k0.tcb(c as int).memory_set, k0.next_ppn as int));
            }
        }
        k1.lemma_replace(k, c as int);
    }
    0
}

/// Removes `[start, start + len)` from the running task's address space. Returns 0, or -1
/// without any change where `start` is not page-aligned, the region does not fit, or a page
/// of it is not mapped.
pub fn sys_munmap(k: &mut Kernel, start: usize, len: usize) -> (r: isize)
    requires
        old(k).running(),
    ensures
        final(k).running(),
        r == 0 || r == -1,
        r == 0 <==> old(k).tcb(old(k).cur()).memory_set.can_munmap(start as int, len as int),
        r == -1 ==> final(k).same(old(k)),
        r == 0 ==> {
            &&& munmapped(
                old(k).tcb(old(k).cur()).memory_set,
                final(k).tcb(old(k).cur()).memory_set,
                start as int,
                len as int,
            )
            &&& final(k).same_except_tasks(old(k))
            &&& final(k).others_unchanged(old(k), old(k).cur())
            &&& same_but_memory(final(k).tcb(old(k).cur()), old(k).tcb(old(k).cur()))
        },
{
    let c = k.current.unwrap();
    let ghost k0 = *k;
    proof {
        assert(k0.slot_wf(c as int));
    }
    let mut t = k.take_task(c);
    let ok = t.memory_set.munmap(start, len);
    k.put_task(c, t);
    if !ok {
        proof {
            assert(k.tasks@ =~= k0.tasks@);
            k0.lemma_same(k);
        }
        return -1;
    }
    proof {
        assert(k.tasks@ =~= k0.tasks@.update(c as int, Some(k.tcb(c as int))));
        k0.lemma_replace(k, c as int);
    }
    0
}

/// Writes the time `us` microseconds, as a `TimeVal`, to `ts` in the running task's memory.
/// Returns 0, or -1 without any change where those 16 bytes are not writable.
pub fn sys_get_time(k: &mut Kernel, ts: usize, us: u64) -> (r: isize)
    requires
        old(k).running(),
    ensures
        final(k).running(),
        r == 0 || r == -1,
        r == 0 <==> old(k).tcb(old(k).cur()).memory_set.writable_range(ts as int, 16),
        r == -1 ==> final(k).same(old(k)),
        final(k).tcb(old(k).cur()).memory_set.same_layout(&old(k).tcb(old(k).cur()).memory_set),
        final(k).same_except_tasks(old(k)),
        final(k).others_unchanged(old(k), old(k).cur()),
        same_but_memory(final(k).tcb(old(k).cur()), old(k).tcb(old(k).cur())),
        r == 0 ==> forall|va: int|
            #[trigger] final(k).tcb(old(k).cur()).memory_set.has(page_of(va)) ==> final(k).tcb(
                old(k).cur(),
            ).memory_set.byte_at(va) == if ts <= va < ts + 16 {
                timeval_bytes(us)[va - ts]
            } else {
                old(k).tcb(old(k).cur()).memory_set.byte_at(va)
            },
{
    let c = k.current.unwrap();
    let tv = TimeVal::from_us(us);
    let mut bytes = le_bytes(tv.sec, 8);
    let mut usec = le_bytes(tv.usec, 8);
    bytes.append(&mut usec);
    assert(bytes@ == timeval_bytes(us));
    let ok = k.copy_out(c, ts, &bytes);
    if ok {
        0
    } else {
        -1
    }
}

/// Gives a new child of the running task pid `pid` its place in the tree and the ready set:
/// the child is stored in its slot, listed among the parent's children and queued.
fn install_child(k: &mut Kernel, pid: usize, child: TaskControlBlock)
    requires
        old(k).running(),
        0 < pid < old(k).tasks@.len(),
        !old(k).live(pid as int),
        child.pid == pid,
        child.wf(),
        old(k).fds_wf(child.fd_table@),
        child.status == TaskStatus::Ready,
        child.parent == Some(old(k).current->Some_0),
        frames_below(child.memory_set, old(k).next_ppn as int),
        child.children@.len() == 0,
    ensures
        final(k).running(),
        final(k).current == old(k).current,
        final(k).next_ppn == old(k).next_ppn,
        final(k).files == old(k).files,
        final(k).apps == old(k).apps,
        final(k).pipes == old(k).pipes,
        final(k).inodes == old(k).inodes,
        final(k).dir == old(k).dir,
        final(k).tasks@.len() == old(k).tasks@.len(),
        final(k).tcb(pid as int) == child,
        final(k).manager@ == old(k).manager@.push(entry_of(child)),
        final(k).tcb(old(k).cur()).children@ == old(k).tcb(old(k).cur()).children@.push(pid),
        same_but_children(final(k).tcb(old(k).cur()), old(k).tcb(old(k).cur())),
        forall|q: int| #[trigger] final(k).live(q) == (old(k).live(q) || q == pid),
        forall|q: int|
            0 <= q < old(k).tasks@.len() && q != pid && q != old(k).cur() ==> #[trigger] final(k).tcb(q)
                == old(k).tcb(q),
{
    let c = k.current.unwrap();
    let ghost k0 = *k;
    let ghost ch = child;
    k.put_task(pid, child);
    proof {
        k0.lemma_insert(k, pid as int);
    }
    let ghost k1 = *k;
    proof {
        assert(k1.slot_wf(c as int));
        assert(k1.tcb(c as int) == k0.tcb(c as int));
        assert(!k1.tcb(c as int).children@.contains(pid)) by {
            if k1.tcb(c as int).children@.contains(pid) {
                let i = choose|i: int|
                    0 <= i < k1.tcb(c as int).children@.len() && k1.tcb(c as int).children@[i] == pid;
                assert(k0.tcb(c as int).children@[i] == pid);
                assert(k0.live(k0.tcb(c as int).children@[i] as int));
            }
        }
    }
    let mut t = k.take_task(c);
    t.children.push(pid);
    k.put_task(c, t);
    proof {
        assert(k.tasks@ =~= k1.tasks@.update(c as int, Some(k.tcb(c as int))));
        let kids0 = k1.tcb(c as int).children@;
        assert(k.tcb(c as int).children@ == kids0.push(pid));
        assert(k.tcb(pid as int) == ch);
        assert forall|p: int, i: int|
            k.live(p) && 0 <= i < k.tcb(p).children@.len() implies k.live(
            #[trigger] k.tcb(p).children@[i] as int,
        ) && k.tcb(k.tcb(p).children@[i] as int).parent == Some(p as usize) by {
            assert(k1.live(p));
            let q = k.tcb(p).children@[i] as int;
            if p == c as int {
                if i < kids0.len() {
                    assert(kids0[i] as int == q);
                    assert(k1.live(q));
                    if q != c as int {
                        assert(k.tcb(q) == k1.tcb(q));
                    }
                } else {
                    assert(q == pid as int);
                }
            } else {
                assert(k.tcb(p) == k1.tcb(p));
                assert(k1.tcb(p).children@[i] as int == q);
                assert(k1.live(q));
                if q != c as int {
                    assert(k.tcb(q) == k1.tcb(q));
                }
            }
        }
        k1.lemma_replace(k, c as int);
        assert(!k.manager.contains(pid)) by {
            assert(!k1.manager.contains(pid));
        }
    }
    add_task(k, pid);
}

/// The two descriptors agree in everything but the list of children.
pub open spec fn same_but_children(a: TaskControlBlock, b: TaskControlBlock) -> bool {
    &&& a.pid == b.pid
    &&& a.parent == b.parent
    &&& a.status == b.status
    &&& a.exit_code == b.exit_code
    &&& a.priority == b.priority
    &&& a.pass == b.pass
    &&& a.trap_cx == b.trap_cx
    &&& a.memory_set == b.memory_set
    &&& a.fd_table == b.fd_table
    &&& a.mail == b.mail
}

/// Creates a child of the running task: a deep copy of its address space on new frames, a
/// copy of its descriptor table naming the same open files, its registers with the return
/// value 0, its priority and pass. The child is queued and its pid returned; -1, changing
/// nothing, where the process table is full or the frames run out.
pub fn sys_fork(k: &mut Kernel) -> (r: isize)
    requires
        old(k).running(),
    ensures
        final(k).running(),
        final(k).current == old(k).current,
        r == -1 ==> final(k).same(old(k)),
        old(k).has_free_pid() && old(k).next_ppn + old(k).tcb(
            old(k).cur(),
        ).memory_set.pages@.len() <= usize::MAX ==> r != -1,
        r != -1 ==> {
            let c = old(k).cur();
            let parent = old(k).tcb(c);
            let child = final(k).tcb(r as int);
            &&& 0 < r < MAX_TASKS
            &&& r != c
            &&& !old(k).live(r as int)
            &&& final(k).live(r as int)
            &&& child.pid == r
            &&& child.parent == Some(c as usize)
            &&& child.children@.len() == 0
            &&& child.status == TaskStatus::Ready
            &&& child.trap_cx == (TrapContext { a0: 0, sepc: parent.trap_cx.sepc })
            &&& child.fd_table@ == parent.fd_table@
            &&& child.priority == parent.priority
            &&& child.pass == parent.pass
            &&& child.mail@.len() == 0
            &&& forall|v: int| #[trigger] child.memory_set.has(v) == parent.memory_set.has(v)
            &&& forall|v: int|
                #[trigger] child.memory_set.has(v) ==> child.memory_set.entry(v).data@
                    == parent.memory_set.entry(v).data@ && child.memory_set.entry(v).prot
                    == parent.memory_set.entry(v).prot && old(k).next_ppn
                    <= child.memory_set.entry(v).ppn < final(k).next_ppn
            &&& final(k).tcb(c).children@ == parent.children@.push(r as usize)
            &&& same_but_children(final(k).tcb(c), parent)
            &&& forall|q: int|
                0 <= q < old(k).tasks@.len() && q != c && q != r ==> #[trigger] final(k).tcb(q)
                    == old(k).tcb(q)
            &&& final(k).manager@ == old(k).manager@.push(entry_of(child))
            &&& final(k).next_ppn == old(k).next_ppn + parent.memory_set.pages@.len()
            &&& final(k).files == old(k).files && final(k).pipes == old(k).pipes
            &&& final(k).apps == old(k).apps && final(k).inodes == old(k).inodes
            &&& final(k).dir == old(k).dir
        },
{
    let c = k.current.unwrap();
    proof {
        assert(k.slot_wf(c as int));
    }
    let npages = k.task_ref(c).memory_set.pages.len();
    if k.next_ppn > usize::MAX - npages {
        return -1;
    }
    let ghost k0 = *k;
    let pid = match k.alloc_pid() {
        Some(p) => p,
        None => {
            return -1;
        },
    };
    let ghost ka = *k;
    let first = k.next_ppn;
    k.next_ppn = first + npages;
    proof {
        assert(k.tasks@[c as int] == k0.tasks@[c as int]);
        ka.lemma_advance_frames(k);
    }
    let ghost kb = *k;
    proof {
        assert(!k0.live(pid as int));
        assert(!ka.live(pid as int));
        assert(!kb.live(pid as int));
    }
    let parent = k.task_ref(c);
    let child = TaskControlBlock {
        pid,
        parent: Some(c),
        children: Vec::new(),
        status: TaskStatus::Ready,
        exit_code: 0,
        priority: parent.priority,
        pass: parent.pass,
        trap_cx: TrapContext { a0: 0, sepc: parent.trap_cx.sepc },
        memory_set: parent.memory_set.duplicate(first),
        fd_table: copy_fds(&parent.fd_table),
        mail: VecDeque::new(),
    };
    let ghost ch = child;
    install_child(k, pid, child);
    proof {
        assert(k.live(pid as int));
        assert forall|q: int| 0 <= q < k0.tasks@.len() && q != c && q != pid implies #[trigger] k.tcb(q)
            == k0.tcb(q) by {
            assert(ka.tasks@[q] == k0.tasks@[q]);
            assert(k.tcb(q) == kb.tcb(q));
        }
    }
    pid as isize
}

/// The program that `path` names in the memory of the running task: the index of the first
/// loadable program whose name is the string there.
pub open spec fn named_app(k: &Kernel, path: int, i: int) -> bool {
    exists|s: Seq<u8>|
        #[trigger] k.tcb(k.cur()).memory_set.cstr_at(path, s) && 0 <= i < k.apps@.len()
            && k.apps@[i].name@ == s && forall|j: int| 0 <= j < i ==> (#[trigger] k.apps@[j]).name@ != s
}

/// No loadable program is named by a string at `path` in the memory of the running task.
pub open spec fn no_app_at(k: &Kernel, path: int) -> bool {
    forall|s: Seq<u8>| #[trigger] k.tcb(k.cur()).memory_set.cstr_at(path, s) ==> !k.has_app(s)
}

/// Reads the program name at `path` and looks it up.
fn lookup_path(k: &Kernel, path: usize) -> (r: Option<usize>)
    requires
        k.running(),
    ensures
        r is None ==> no_app_at(k, path as int),
        r matches Some(i) ==> named_app(k, path as int, i as int),
{
    let c = k.current.unwrap();
    proof {
        assert(k.slot_wf(c as int));
    }
    let name = match k.task_ref(c).memory_set.read_str(path) {
        Some(s) => s,
        None => {
            return None;
        },
    };
    match k.find_app(&name) {
        Some(i) => {
            proof {
                assert(k.tcb(k.cur()).memory_set.cstr_at(path as int, name@));
            }
            Some(i)
        },
        None => {
            proof {
                assert forall|s: Seq<u8>| #[trigger] k.tcb(k.cur()).memory_set.cstr_at(path as int, s)
                    implies !k.has_app(s) by {
                    k.tcb(k.cur()).memory_set.lemma_cstr_unique(path as int, s, name@);
                }
            }
            None
        },
    }
}

/// Replaces the running task's program by the one that the string at `path` names: a fresh
/// address space holding its image and registers that start it from address 0; pid, parent,
/// children and descriptors stay. Returns 0, or -1 without any change where no such program
/// exists or its image or frames do not fit.
pub fn sys_exec(k: &mut Kernel, path: usize) -> (r: isize)
    requires
        old(k).running(),
    ensures
        final(k).running(),
        final(k).current == old(k).current,
        r == 0 || r == -1,
        r == -1 ==> final(k).same(old(k)),
        no_app_at(old(k), path as int) ==> r == -1,
        forall|i: int|
            #[trigger] named_app(old(k), path as int, i) && old(k).apps@[i].data@.len() <= MAX_IMAGE
                && old(k).next_ppn + pages_for(old(k).apps@[i].data@.len() as int) <= usize::MAX
                ==> r == 0,
        r == 0 ==> exists|i: int|
            #[trigger] named_app(old(k), path as int, i) && {
                let data = old(k).apps@[i].data@;
                let t = final(k).tcb(old(k).cur());
                &&& forall|v: int| #[trigger] t.memory_set.has(v) == (0 <= v < pages_for(data.len() as int))
                &&& forall|va: int| 0 <= va < data.len() ==> #[trigger] t.memory_set.byte_at(va) == data[va]
                &&& t.trap_cx == (TrapContext { a0: 0, sepc: 0 })
                &&& t.pid == old(k).tcb(old(k).cur()).pid
                &&& t.parent == old(k).tcb(old(k).cur()).parent
                &&& t.children == old(k).tcb(old(k).cur()).children
                &&& t.fd_table == old(k).tcb(old(k).cur()).fd_table
                &&& t.status == old(k).tcb(old(k).cur()).status
                &&& t.exit_code == old(k).tcb(old(k).cur()).exit_code
                &&& t.priority == old(k).tcb(old(k).cur()).priority
                &&& t.pass == old(k).tcb(old(k).cur()).pass
                &&& t.mail == old(k).tcb(old(k).cur()).mail
                &&& final(k).next_ppn == old(k).next_ppn + pages_for(data.len() as int)
                &&& final(k).same_but_frames(old(k))
                &&& final(k).others_unchanged(old(k), old(k).cur())
            },
{
    let c = k.current.unwrap();
    let i = match lookup_path(k, path) {
        Some(i) => i,
        None => {
            return -1;
        },
    };
    proof {
        assert(named_app(k, path as int, i as int));
        assert forall|j: int| #[trigger] named_app(k, path as int, j) implies j == i by {
            let s1 = choose|s: Seq<u8>| #[trigger] k.tcb(k.cur()).memory_set.cstr_at(path as int, s) && 0 <= i < k.apps@.len()
                && k.apps@[i as int].name@ == s && forall|j: int| 0 <= j < i ==> (#[trigger] k.apps@[j]).name@ != s;
            let s2 = choose|s: Seq<u8>| #[trigger] k.tcb(k.cur()).memory_set.cstr_at(path as int, s) && 0 <= j < k.apps@.len()
                && k.apps@[j].name@ == s && forall|jj: int| 0 <= jj < j ==> (#[trigger] k.apps@[jj]).name@ != s;
            k.tcb(k.cur()).memory_set.lemma_cstr_unique(path as int, s1, s2);
        }
    }
    let len = k.apps[i].data.len();
    if len > MAX_IMAGE {
        return -1;
    }
    let n: usize = len / PAGE_SIZE + if len % PAGE_SIZE != 0 { 1usize } else { 0usize };
    assert(n as int == pages_for(len as int));
    if k.next_ppn > usize::MAX - n {
        return -1;
    }
    let first = k.next_ppn;
    let ms = MemorySet::from_image(&k.apps[i].data, first);
    let ghost k00 = *k;
    k.next_ppn = first + n;
    proof {
        k00.lemma_advance_frames(k);
    }
    let ghost k0 = *k;
    proof {
        assert(k0.slot_wf(c as int));
        assert(k0.live(c as int));
    }
    let mut t = k.take_task(c);
    t.memory_set = ms;
    t.trap_cx = TrapContext { a0: 0, sepc: 0 };
    k.put_task(c, t);
    proof {
        assert(k.tasks@ =~= k0.tasks@.update(c as int, Some(k.tcb(c as int))));
        k0.lemma_replace(k, c as int);
    }
    0
}

/// Creates a child of the running task that runs the program that the string at `path`
/// names (not a copy of the parent), with return value 0, and queues it. Returns its pid, or
/// -1 without any change where no such program exists, its image or frames do not fit, or
/// the process table is full.
pub fn sys_spawn(k: &mut Kernel, path: usize) -> (r: isize)
    requires
        old(k).running(),
    ensures
        final(k).running(),
        final(k).current == old(k).current,
        r == -1 ==> final(k).same(old(k)),
        no_app_at(old(k), path as int) ==> r == -1,
        forall|i: int|
            #[trigger] named_app(old(k), path as int, i) && old(k).apps@[i].data@.len() <= MAX_IMAGE
                && old(k).next_ppn + pages_for(old(k).apps@[i].data@.len() as int) <= usize::MAX
                && old(k).has_free_pid() ==> r != -1,
        r != -1 ==> exists|i: int|
            #[trigger] named_app(old(k), path as int, i) && {
                let data = old(k).apps@[i].data@;
                let child = final(k).tcb(r as int);
                &&& 0 < r < MAX_TASKS
                &&& !old(k).live(r as int)
                &&& final(k).live(r as int)
                &&& child.pid == r
                &&& child.parent == Some(old(k).cur() as usize)
                &&& child.status == TaskStatus::Ready
                &&& child.trap_cx.a0 == 0
                &&& forall|v: int| #[trigger] child.memory_set.has(v) == (0 <= v < pages_for(data.len() as int))
                &&& forall|va: int| 0 <= va < data.len() ==> #[trigger] child.memory_set.byte_at(va) == data[va]
                &&& final(k).tcb(old(k).cur()).children@ == old(k).tcb(old(k).cur()).children@.push(r as usize)
                &&& same_but_children(final(k).tcb(old(k).cur()), old(k).tcb(old(k).cur()))
                &&& forall|q: int|
                    0 <= q < old(k).tasks@.len() && q != old(k).cur() && q != r
                        ==> #[trigger] final(k).tcb(q) == old(k).tcb(q)
                &&& child.children@.len() == 0
                &&& child.fd_table@ == seq![Some(0usize), Some(1usize), Some(1usize)]
                &&& child.priority == DEFAULT_PRIORITY
                &&& child.pass == 0
                &&& child.mail@.len() == 0
                &&& child.trap_cx == (TrapContext { a0: 0, sepc: 0 })
                &&& final(k).manager@ == old(k).manager@.push(entry_of(child))
                &&& final(k).next_ppn == old(k).next_ppn + pages_for(data.len() as int)
                &&& final(k).files == old(k).files && final(k).pipes == old(k).pipes
                &&& final(k).apps == old(k).apps && final(k).inodes == old(k).inodes
                &&& final(k).dir == old(k).dir
            },
{
    let c = k.current.unwrap();
    let i = match lookup_path(k, path) {
        Some(i) => i,
        None => {
            return -1;
        },
    };
    proof {
        assert(named_app(k, path as int, i as int));
        assert forall|j: int| #[trigger] named_app(k, path as int, j) implies j == i by {
            let s1 = choose|s: Seq<u8>| #[trigger] k.tcb(k.cur()).memory_set.cstr_at(path as int, s) && 0 <= i < k.apps@.len()
                && k.apps@[i as int].name@ == s && forall|j: int| 0 <= j < i ==> (#[trigger] k.apps@[j]).name@ != s;
            let s2 = choose|s: Seq<u8>| #[trigger] k.tcb(k.cur()).memory_set.cstr_at(path as int, s) && 0 <= j < k.apps@.len()
                && k.apps@[j].name@ == s && forall|jj: int| 0 <= jj < j ==> (#[trigger] k.apps@[jj]).name@ != s;
            k.tcb(k.cur()).memory_set.lemma_cstr_unique(path as int, s1, s2);
        }
    }
    let len = k.apps[i].data.len();
    if len > MAX_IMAGE {
        return -1;
    }
    let n: usize = len / PAGE_SIZE + if len % PAGE_SIZE != 0 { 1usize } else { 0usize };
    assert(n as int == pages_for(len as int));
    if k.next_ppn > usize::MAX - n {
        return -1;
    }
    let ghost k0 = *k;
    let pid = match k.alloc_pid() {
        Some(p) => p,
        None => {
            return -1;
        },
    };
    let ghost ka = *k;
    let first = k.next_ppn;
    k.next_ppn = first + n;
    proof {
        ka.lemma_advance_frames(k);
        assert(!k0.live(pid as int));
        assert(!ka.live(pid as int));
    }
    let ghost kb = *k;
    let mut child = new_tcb(pid, &k.apps[i].data, first);
    child.parent = Some(c);
    let ghost ch = child;
    install_child(k, pid, child);
    proof {
        assert(k.live(pid as int));
        assert(k.apps@[i as int] == k0.apps@[i as int]);
        assert(ka.tasks@[c as int] == k0.tasks@[c as int]);
        assert forall|q: int| 0 <= q < k0.tasks@.len() && q != c && q != pid implies #[trigger] k.tcb(q)
            == k0.tcb(q) by {
            assert(ka.tasks@[q] == k0.tasks@[q]);
            assert(k.tcb(q) == kb.tcb(q));
        }
    }
    pid as isize
}

/// The parent that the children of exiting process `c` are handed to: the initial process,
/// or none where the initial process itself exits.
pub open spec fn adoptive_parent(c: int) -> Option<usize> {
    if c == INITPROC_PID {
        None
    } else {
        Some(INITPROC_PID)
    }
}

/// Ends the running task with `exit_code`: it becomes a zombie holding the code, its memory
/// and descriptors are released, its children are handed to the initial process, each
/// listed there once (or left without a parent where the initial process itself exits),
/// and the task that runs next is switched to. Where no task is ready, none runs afterwards.
#[verifier::rlimit(100)]
pub fn sys_exit(k: &mut Kernel, exit_code: i32)
    requires
        old(k).running(),
    ensures
        final(k).wf(),
        final(k).current is None <==> old(k).manager@.len() == 0,
        ({
            let c = old(k).cur();
            let t = final(k).tcb(c);
            &&& final(k).live(c)
            &&& t.status == TaskStatus::Zombie
            &&& t.exit_code == exit_code
            &&& t.children@.len() == 0
            &&& t.fd_table@.len() == 0
            &&& forall|v: int| !#[trigger] t.memory_set.has(v)
            &&& forall|i: int|
                0 <= i < old(k).tcb(c).children@.len() && old(k).live(old(k).tcb(c).children@[i] as int)
                    && old(k).tcb(c).children@[i] != c ==> #[trigger] final(k).tcb(
                    old(k).tcb(c).children@[i] as int,
                ).parent == adoptive_parent(c)
            &&& c != INITPROC_PID ==> final(k).tcb(INITPROC_PID as int).children@ == old(k).tcb(
                INITPROC_PID as int,
            ).children@ + old(k).tcb(c).children@
        
            &&& forall|q: int|
                old(k).live(q) && q != c && q != INITPROC_PID
                    ==> #[trigger] final(k).tcb(q).children == old(k).tcb(q).children
            &&& !final(k).manager.contains(c as usize)
            &&& final(k).tcb(INITPROC_PID as int).children@.no_duplicates()
        }),
        forall|q: int| #[trigger] final(k).live(q) == old(k).live(q),
{
    let c = k.current.unwrap();
    let ghost k0 = *k;
    proof {
        assert(k0.slot_wf(c as int));
    }
    let mut t = k.take_task(c);
    let mut kids: Vec<usize> = Vec::new();
    std::mem::swap(&mut t.children, &mut kids);
    let ghost kids0 = kids@;
    assert(kids0 == k0.tcb(c as int).children@);
    t.status = TaskStatus::Zombie;
    t.exit_code = exit_code;
    t.memory_set = MemorySet::new();
    t.fd_table = Vec::new();
    k.put_task(c, t);
    k.current = None;
    proof {
        assert(k.tasks@ =~= k0.tasks@.update(c as int, Some(k.tcb(c as int))));
        assert forall|q: int| #[trigger] k.slot_wf(q) by {
            assert(k0.slot_wf(q));
        }
        assert forall|i: int| 0 <= i < k.manager@.len() implies k.live(
            (#[trigger] k.manager@[i]).pid as int,
        ) && k.tcb(k.manager@[i].pid as int).status == TaskStatus::Ready by {
            assert(k0.live(k0.manager@[i].pid as int));
            if k.manager@[i].pid == c {
                assert(k0.manager.contains(c));
            }
        }
        k0.lemma_frames_keep(k, c as int);
        assert forall|p: int, i: int|
            k.live(p) && 0 <= i < k.tcb(p).children@.len() implies k.live(
            #[trigger] k.tcb(p).children@[i] as int,
        ) && k.tcb(k.tcb(p).children@[i] as int).parent == Some(p as usize) by {
            assert(p != c as int);
            assert(k.tcb(p) == k0.tcb(p));
            let q = k0.tcb(p).children@[i] as int;
            assert(k0.live(q));
            if q != c as int {
                assert(k.tcb(q) == k0.tcb(q));
            }
        }
        assert forall|p: int, i: int|
            k.live(p) && 0 <= i < k.tcb(p).children@.len() implies !kids0.contains(
            #[trigger] k.tcb(p).children@[i],
        ) by {
            let q = k.tcb(p).children@[i];
            assert(k.tcb(p) == k0.tcb(p));
            if kids0.contains(q) {
                let w = choose|w: int| 0 <= w < kids0.len() && kids0[w] == q;
                assert(k0.tcb(c as int).children@[w] == q);
                assert(k0.tcb(q as int).parent == Some(c));
                assert(k0.tcb(q as int).parent == Some(p as usize));
            }
        }
        assert forall|w: int| 0 <= w < kids0.len() implies #[trigger] k.live(kids0[w] as int) by {
            assert(k0.tcb(c as int).children@[w] == kids0[w]);
            assert(k0.live(kids0[w] as int));
        }
    }
    let np: Option<usize> = if c == INITPROC_PID { None } else { Some(INITPROC_PID) };
    let ghost k1 = *k;
    let mut j: usize = 0;
    while j < kids.len()
        invariant
            kids@ == kids0,
            k1.wf(),
            k.wf(),
            k.current is None,
            k.same_except_tasks(&k1),
            k.tasks@.len() == k1.tasks@.len(),
            np == adoptive_parent(c as int),
            j <= kids@.len(),
            forall|q: int| #[trigger] k.live(q) == k1.live(q),
            forall|q: int| k1.live(q) ==> same_but_parent(#[trigger] k.tcb(q), k1.tcb(q)),
            forall|q: int|
                k1.live(q) && !kids@.subrange(0, j as int).contains(q as usize) ==> (#[trigger] k.tcb(
                    q,
                )).parent == k1.tcb(q).parent,
            forall|i: int| 0 <= i < j && k1.live(kids@[i] as int) ==> (#[trigger] k.tcb(kids@[i] as int)).parent == np,
            forall|p: int, i: int|
                k.live(p) && 0 <= i < k.tcb(p).children@.len() ==> !kids0.contains(
                    #[trigger] k.tcb(p).children@[i],
                ),
            forall|w: int| 0 <= w < kids0.len() ==> #[trigger] k1.live(kids0[w] as int),
        decreases kids@.len() - j,
    {
        let ch = kids[j];
        let ghost kb = *k;
        if ch < k.tasks.len() && k.tasks[ch].is_some() {
            proof {
                assert(kb.slot_wf(ch as int));
            }
            let mut u = k.take_task(ch);
            u.parent = np;
            k.put_task(ch, u);
            proof {
                assert(k.tasks@ =~= kb.tasks@.update(ch as int, Some(k.tcb(ch as int))));
                assert(kids0[j as int] == ch);
                assert forall|p: int, i: int|
                    k.live(p) && 0 <= i < k.tcb(p).children@.len() implies k.live(
                    #[trigger] k.tcb(p).children@[i] as int,
                ) && k.tcb(k.tcb(p).children@[i] as int).parent == Some(p as usize) by {
                    assert(kb.live(p));
                    assert(k.tcb(p).children == kb.tcb(p).children);
                    let q = kb.tcb(p).children@[i];
                    assert(!kids0.contains(q));
                    assert(q != ch);
                    assert(k.tcb(q as int) == kb.tcb(q as int));
                }
                kb.lemma_replace(k, ch as int);
            }
        }
        proof {
            assert forall|q: int|
                k1.live(q) && !kids@.subrange(0, j + 1).contains(q as usize) implies (#[trigger] k.tcb(
                q,
            )).parent == k1.tcb(q).parent by {
                assert(!kids@.subrange(0, j as int).contains(q as usize)) by {
                    if kids@.subrange(0, j as int).contains(q as usize) {
                        let w = choose|w: int| 0 <= w < j && kids@.subrange(0, j as int)[w] == q as usize;
                        assert(kids@.subrange(0, j + 1)[w] == q as usize);
                    }
                }
                if q != ch {
                    assert(k.tcb(q) == kb.tcb(q));
                } else {
                    assert(kids@.subrange(0, j + 1)[j as int] == q as usize);
                }
            }
            assert forall|i: int| 0 <= i < j + 1 && k1.live(kids@[i] as int) implies (#[trigger] k.tcb(
                kids@[i] as int,
            )).parent == np by {
                if i < j && kids@[i] != ch {
                    assert(k.tcb(kids@[i] as int) == kb.tcb(kids@[i] as int));
                } else if kids@[i] == ch {
                    assert(kb.live(ch as int));
                    assert(k.tcb(ch as int).parent == np);
                }
            }
            assert forall|q: int| k1.live(q) implies same_but_parent(#[trigger] k.tcb(q), k1.tcb(q)) by {
                if q != ch {
                    assert(k.tcb(q) == kb.tcb(q));
                }
            }
            assert forall|p: int, i: int|
                k.live(p) && 0 <= i < k.tcb(p).children@.len() implies !kids0.contains(
                #[trigger] k.tcb(p).children@[i],
            ) by {
                assert(kb.live(p));
                assert(k.tcb(p).children == kb.tcb(p).children);
                assert(kb.tcb(p).children@[i] == k.tcb(p).children@[i]);
            }
        }
        j = j + 1;
    }
    let ghost kl = *k;
    if c != INITPROC_PID {
        let ghost kb = *k;
        proof {
            assert(kb.slot_wf(INITPROC_PID as int));
            assert(k0.slot_wf(c as int));
        }
        let mut init = k.take_task(INITPROC_PID);
        init.children.append(&mut kids);
        k.put_task(INITPROC_PID, init);
        proof {
            assert(k.tasks@ =~= kb.tasks@.update(INITPROC_PID as int, Some(k.tcb(INITPROC_PID as int))));
            let old_list = kb.tcb(INITPROC_PID as int).children@;
            let new_list = k.tcb(INITPROC_PID as int).children@;
            assert(new_list == old_list + kids0);
            assert(kb.live(INITPROC_PID as int));
            assert(k0.tcb(c as int).children@ == kids0);
            assert forall|a: int, b: int| 0 <= a < b < new_list.len() implies new_list[a] != new_list[b] by {
                if b < old_list.len() {
                    assert(old_list.no_duplicates());
                } else if a >= old_list.len() {
                    assert(kids0.no_duplicates());
                    assert(new_list[a] == kids0[a - old_list.len()]);
                    assert(new_list[b] == kids0[b - old_list.len()]);
                } else {
                    assert(new_list[b] == kids0[b - old_list.len()]);
                    assert(kids0.contains(new_list[b]));
                    assert(!kids0.contains(kb.tcb(INITPROC_PID as int).children@[a]));
                }
            }
            assert(new_list.no_duplicates());
            assert forall|i: int| 0 <= i < new_list.len() implies #[trigger] new_list[i] != INITPROC_PID by {
                if i >= old_list.len() {
                    assert(new_list[i] == kids0[i - old_list.len()]);
                }
            }
            assert forall|p: int, i: int|
                k.live(p) && 0 <= i < k.tcb(p).children@.len() implies k.live(
                #[trigger] k.tcb(p).children@[i] as int,
            ) && k.tcb(k.tcb(p).children@[i] as int).parent == Some(p as usize) by {
                assert(kb.live(p));
                if p == INITPROC_PID as int && i >= old_list.len() {
                    let w = i - old_list.len();
                    assert(new_list[i] == kids0[w]);
                    assert(k1.live(kids0[w] as int));
                    assert(kb.live(kids0[w] as int));
                    assert(kids0[w] != INITPROC_PID);
                    assert(kb.tcb(kids0[w] as int).parent == np);
                    assert(k.tcb(kids0[w] as int) == kb.tcb(kids0[w] as int));
                } else {
                    let q = kb.tcb(p).children@[i];
                    if p == INITPROC_PID as int {
                        assert(old_list[i] == q);
                    } else {
                        assert(k.tcb(p) == kb.tcb(p));
                    }
                    assert(kb.live(q as int));
                    if q != INITPROC_PID {
                        assert(k.tcb(q as int) == kb.tcb(q as int));
                    }
                }
            }
            kb.lemma_replace(k, INITPROC_PID as int);
        }
    }
    let ghost k2 = *k;
    let r = fetch_task(k);
    proof {
        let cc = c as int;
        assert forall|q: int|
            k0.live(q) && q != cc && q != INITPROC_PID implies #[trigger] k.tcb(q).children
            == k0.tcb(q).children by {
            assert(k1.tcb(q) == k0.tcb(q));
            assert(k1.live(q));
            assert(same_but_parent(kl.tcb(q), k1.tcb(q)));
            assert(k2.tcb(q) == kl.tcb(q));
            if let Some(p) = r {
                if q != p {
                    assert(k.tcb(q) == k2.tcb(q));
                }
            }
        }
        assert(k1.live(cc));
        assert(same_but_parent(kl.tcb(cc), k1.tcb(cc)));
        if c != INITPROC_PID {
            assert(k2.tcb(cc) == kl.tcb(cc));
            assert(k1.live(INITPROC_PID as int));
            assert(same_but_parent(kl.tcb(INITPROC_PID as int), k1.tcb(INITPROC_PID as int)));
            assert(k1.tcb(INITPROC_PID as int) == k0.tcb(INITPROC_PID as int));
        }
        assert(k2.live(cc));
        assert(!k2.manager.contains(c)) by {
            assert(!k0.manager.contains(c));
            if k2.manager.contains(c) {
                let i = choose|i: int| 0 <= i < k2.manager@.len() && (#[trigger] k2.manager@[i]).pid == c;
                assert(k2.live(k2.manager@[i].pid as int) && k2.tcb(k2.manager@[i].pid as int).status == TaskStatus::Ready);
            }
        }
        if let Some(p) = r {
            assert(p != c) by {
                let i = choose|i: int| #[trigger] k2.manager.is_next(i) && k2.manager@[i].pid == p;
                assert(k2.live(k2.manager@[i].pid as int) && k2.tcb(k2.manager@[i].pid as int).status == TaskStatus::Ready);
            }
            assert(k.tcb(cc) == k2.tcb(cc));
            if c != INITPROC_PID && p != INITPROC_PID {
                assert(k.tcb(INITPROC_PID as int) == k2.tcb(INITPROC_PID as int));
            }
        }
        assert forall|q: int| #[trigger] k.live(q) == k0.live(q) by {
            assert(k2.live(q) == k1.live(q));
        }
        assert forall|i: int|
            0 <= i < k0.tcb(cc).children@.len() && k0.live(k0.tcb(cc).children@[i] as int)
                && k0.tcb(cc).children@[i] != c implies #[trigger] k.tcb(
                k0.tcb(cc).children@[i] as int,
            ).parent == adoptive_parent(cc) by {
            let q = kids0[i] as int;
            assert(k1.live(q));
            assert(kl.tcb(q).parent == np);
            if c != INITPROC_PID && q != INITPROC_PID {
                assert(k2.tcb(q) == kl.tcb(q));
            }
            if c != INITPROC_PID && q == INITPROC_PID {
                assert(k0.slot_wf(cc));
            }
            if let Some(p) = r {
                if q != p {
                    assert(k.tcb(q) == k2.tcb(q));
                }
            }
        }
    }
}

/// Child pid `ch` is one that `waitpid(pid, ..)` waits for: any child for -1, else the one
/// of that pid.
pub open spec fn wait_matches(pid: isize, ch: usize) -> bool {
    pid == -1 || pid as int == ch as int
}

/// The 32 bits of an exit code, as an unsigned value.
pub open spec fn code_bits(code: i32) -> nat {
    if code >= 0 {
        code as nat
    } else {
        (code + 0x1_0000_0000) as nat
    }
}

/// Index `i` of the children of process `c` holds the first child that `waitpid(pid, ..)`
/// can reap: a matching child that has exited.
pub open spec fn first_reapable(k: &Kernel, c: int, pid: isize, i: int) -> bool {
    let kids = k.tcb(c).children@;
    &&& 0 <= i < kids.len()
    &&& reapable(k, pid, kids[i])
    &&& forall|j: int| 0 <= j < i ==> !reapable(k, pid, #[trigger] kids[j])
}

/// Child pid `ch` matches `pid` and is a zombie.
pub open spec fn reapable(k: &Kernel, pid: isize, ch: usize) -> bool {
    wait_matches(pid, ch) && k.live(ch as int) && k.tcb(ch as int).status == TaskStatus::Zombie
}

/// What `waitpid(pid, ptr)` does, from state `k0` with result `r` and state `k1`: -1 where no
/// child matches, -2 where matching children exist and none has exited, else the pid of the
/// first that has exited, which leaves the child list and the process table, and whose exit
/// code is written to `ptr` (-1, changing nothing, where those 4 bytes are not writable).
pub open spec fn waitpid_result(k0: &Kernel, k1: &Kernel, pid: isize, ptr: int, r: isize) -> bool {
    let c = k0.cur();
    let kids = k0.tcb(c).children@;
    let mem = k0.tcb(c).memory_set;
    &&& (forall|i: int| 0 <= i < kids.len() ==> !wait_matches(pid, #[trigger] kids[i])) ==> r == -1
        && k1.same(k0)
    &&& (exists|i: int| 0 <= i < kids.len() && wait_matches(pid, #[trigger] kids[i])) && (forall|i: int|
        0 <= i < kids.len() ==> !reapable(k0, pid, #[trigger] kids[i])) ==> r == -2 && k1.same(k0)
    &&& forall|i: int|
        #[trigger] first_reapable(k0, c, pid, i) ==> {
            &&& !mem.writable_range(ptr, 4) ==> r == -1 && k1.same(k0)
            &&& mem.writable_range(ptr, 4) ==> {
                &&& r == kids[i]
                &&& !k1.live(r as int)
                &&& k1.tcb(c).children@ == kids.remove(i)
                &&& k1.tcb(c).memory_set.same_layout(&mem)
                &&& forall|va: int|
                    #[trigger] k1.tcb(c).memory_set.has(page_of(va)) ==> k1.tcb(c).memory_set.byte_at(va)
                        == if ptr <= va < ptr + 4 {
                        le_seq(code_bits(k0.tcb(r as int).exit_code), 4)[va - ptr]
                    } else {
                        mem.byte_at(va)
                    }
                &&& forall|q: int| #[trigger] k1.live(q) == (k0.live(q) && q != r)
                &&& forall|q: int|
                    0 <= q < k0.tasks@.len() && q != c && q != r ==> #[trigger] k1.tcb(q) == k0.tcb(q)
                &&& k1.same_except_tasks(k0)
                &&& {
                    let t = k1.tcb(c);
                    let t0 = k0.tcb(c);
                    &&& t.pid == t0.pid && t.parent == t0.parent && t.status == t0.status
                    &&& t.exit_code == t0.exit_code && t.priority == t0.priority
                    &&& t.pass == t0.pass && t.trap_cx == t0.trap_cx && t.fd_table == t0.fd_table
                    &&& t.mail == t0.mail
                }
            }
        }
}

/// Reaps an exited child of the running task; see `waitpid_result`.
pub fn sys_waitpid(k: &mut Kernel, pid: isize, exit_code_ptr: usize) -> (r: isize)
    requires
        old(k).running(),
    ensures
        final(k).running(),
        final(k).current == old(k).current,
        waitpid_result(old(k), final(k), pid, exit_code_ptr as int, r),
{
    let c = k.current.unwrap();
    proof {
        assert(k.slot_wf(c as int));
    }
    let ghost kids = k.tcb(c as int).children@;
    let n = k.task_ref(c).children.len();
    let mut i: usize = 0;
    let mut any = false;
    while i < n
        invariant
            k.running(),
            c == k.cur(),
            kids == k.tcb(c as int).children@,
            n == kids.len(),
            i <= n,
            any == exists|j: int| 0 <= j < i && wait_matches(pid, #[trigger] kids[j]),
        decreases n - i,
    {
        let ch = k.task_ref(c).children[i];
        if pid == -1 || (pid >= 0 && pid as usize == ch) {
            any = true;
        }
        proof {
            if any {
                if wait_matches(pid, kids[i as int]) {
                    assert(wait_matches(pid, kids[i as int]));
                }
            }
        }
        i = i + 1;
    }
    if !any {
        return -1;
    }
    let mut idx: usize = 0;
    let mut found = false;
    while idx < n && !found
        invariant
            k.running(),
            c == k.cur(),
            kids == k.tcb(c as int).children@,
            n == kids.len(),
            idx <= n,
            found ==> idx < n && reapable(k, pid, kids[idx as int]),
            forall|j: int| 0 <= j < idx ==> !reapable(k, pid, #[trigger] kids[j]),
        decreases n - idx + if found { 0int } else { 1int },
    {
        let ch = k.task_ref(c).children[idx];
        if (pid == -1 || (pid >= 0 && pid as usize == ch)) && ch < k.tasks.len() {
            if let Some(u) = &k.tasks[ch] {
                if u.status == TaskStatus::Zombie {
                    found = true;
                }
            }
        }
        if !found {
            idx = idx + 1;
        }
    }
    if !found {
        return -2;
    }
    proof {
        assert(first_reapable(k, c as int, pid, idx as int));
        assert forall|j: int| #[trigger] first_reapable(k, c as int, pid, j) implies j == idx by {
            if j < idx {
                assert(!reapable(k, pid, kids[j]));
            } else if j > idx {
                assert(!reapable(k, pid, kids[idx as int]));
            }
        }
    }
    let ch = k.task_ref(c).children[idx];
    if !k.task_ref(c).memory_set.check_writable(exit_code_ptr, 4) {
        return -1;
    }
    let code = k.task_ref(ch).exit_code;
    let bits: u64 = if code >= 0 { code as u64 } else { (code as i64 + 0x1_0000_0000i64) as u64 };
    let bytes = le_bytes(bits, 4);
    let ghost k0 = *k;
    let ok = k.copy_out(c, exit_code_ptr, &bytes);
    let ghost k1 = *k;
    proof {
        assert(k1.slot_wf(c as int));
        assert(k0.slot_wf(c as int));
    }
    let mut t = k.take_task(c);
    t.children.remove(idx);
    k.put_task(c, t);
    proof {
        assert(k.tasks@ =~= k1.tasks@.update(c as int, Some(k.tcb(c as int))));
        let ol = k1.tcb(c as int).children@;
        let nl = k.tcb(c as int).children@;
        assert(nl == ol.remove(idx as int));
        assert forall|j: int| 0 <= j < nl.len() implies #[trigger] nl[j] != INITPROC_PID by {
            let oj = if j < idx { j } else { j + 1 };
            assert(ol[oj] == nl[j]);
        }
        assert forall|a: int, b: int| 0 <= a < b < nl.len() implies nl[a] != nl[b] by {
            let oa = if a < idx { a } else { a + 1 };
            let ob = if b < idx { b } else { b + 1 };
            assert(ol[oa] == nl[a]);
            assert(ol[ob] == nl[b]);
            assert(ol.no_duplicates());
        }
        assert(nl.no_duplicates());
        assert forall|p: int, i: int|
            k.live(p) && 0 <= i < k.tcb(p).children@.len() implies k.live(
            #[trigger] k.tcb(p).children@[i] as int,
        ) && k.tcb(k.tcb(p).children@[i] as int).parent == Some(p as usize) by {
            assert(k1.live(p));
            let q = k.tcb(p).children@[i];
            if p == c as int {
                let oi = if i < idx { i } else { i + 1 };
                assert(ol[oi] == q);
                assert(k1.tcb(p).children@[oi] == q);
            } else {
                assert(k.tcb(p) == k1.tcb(p));
                assert(k1.tcb(p).children@[i] == q);
            }
            assert(k1.live(q as int));
            if q as int != c as int {
                assert(k.tcb(q as int) == k1.tcb(q as int));
            }
        }
        k1.lemma_replace(k, c as int);
    }
    let ghost k2 = *k;
    proof {
        assert(k0.slot_wf(c as int));
        assert(kids[idx as int] != INITPROC_PID);
        assert(k2.live(ch as int));
    }
    let _zombie = k.take_task(ch);
    proof {
        assert(k2.tcb(ch as int).status == TaskStatus::Zombie);
        assert forall|q: int| #[trigger] k.slot_wf(q) by {
            assert(k2.slot_wf(q));
        }
        assert forall|j: int| 0 <= j < k.manager@.len() implies k.live(
            (#[trigger] k.manager@[j]).pid as int,
        ) && k.tcb(k.manager@[j].pid as int).status == TaskStatus::Ready by {
            assert(k2.live(k2.manager@[j].pid as int));
        }
        assert(ch != c);
        assert forall|q: int| #[trigger] k.live(q) == (k0.live(q) && q != ch) by {
            assert(k2.live(q) == k1.live(q));
        }
        assert forall|q: int| 0 <= q < k0.tasks@.len() && q != c && q != ch implies #[trigger] k.tcb(q)
            == k0.tcb(q) by {
            assert(k2.tcb(q) == k1.tcb(q));
            assert(k1.tcb(q) == k0.tcb(q));
        }
        assert(k.tcb(c as int) == k2.tcb(c as int));
        let ol = k1.tcb(c as int).children@;
        assert(ol[idx as int] == ch);
        assert(k1.tcb(c as int).children@[idx as int] == ch);
        assert(k1.tcb(ch as int).parent == Some(c));
        assert(k2.tcb(ch as int).parent == Some(c));
        assert(!k2.tcb(c as int).children@.contains(ch)) by {
            if k2.tcb(c as int).children@.contains(ch) {
                let w = choose|w: int| 0 <= w < k2.tcb(c as int).children@.len() && k2.tcb(c as int).children@[w] == ch;
                let ow = if w < idx { w } else { w + 1 };
                assert(ol[ow] == ch);
                assert(ol.no_duplicates());
            }
        }
        assert forall|p: int, i: int|
            k.live(p) && 0 <= i < k.tcb(p).children@.len() implies k.live(
            #[trigger] k.tcb(p).children@[i] as int,
        ) && k.tcb(k.tcb(p).children@[i] as int).parent == Some(p as usize) by {
            assert(k2.live(p));
            assert(k.tcb(p) == k2.tcb(p));
            let q = k2.tcb(p).children@[i];
            assert(k2.live(q as int));
            assert(k2.tcb(q as int).parent == Some(p as usize));
            if q == ch {
                assert(p == c as int);
                assert(k2.tcb(c as int).children@.contains(ch));
            }
            assert(k.tcb(q as int) == k2.tcb(q as int));
        }
    }
    ch as isize
}

/// Sets the running task's priority, which its stride follows from its next pick on. Returns
/// the priority, or -1 without any change where it is not positive.
pub fn sys_set_priority(k: &mut Kernel, prio: isize) -> (r: isize)
    requires
        old(k).running(),
    ensures
        final(k).running(),
        final(k).current == old(k).current,
        prio < 1 ==> r == -1 && final(k).same(old(k)),
        prio >= 1 ==> final(k).same_except_tasks(old(k)) && final(k).others_unchanged(
            old(k),
            old(k).cur(),
        ),
        prio >= 1 ==> r == prio && final(k).tcb(old(k).cur()).priority == prio as u64
            && final(k).tcb(old(k).cur()).pass == old(k).tcb(old(k).cur()).pass,
        forall|q: int| #[trigger] final(k).live(q) == old(k).live(q),
{
    if prio < 1 {
        return -1;
    }
    let c = k.current.unwrap();
    let ghost k0 = *k;
    proof {
        assert(k0.slot_wf(c as int));
    }
    let mut t = k.take_task(c);
    t.priority = prio as u64;
    k.put_task(c, t);
    proof {
        assert(k.tasks@ =~= k0.tasks@.update(c as int, Some(k.tcb(c as int))));
        k0.lemma_replace(k, c as int);
    }
    prio
}

/// A zombie child is reaped once: where the running task has a single child and
/// `waitpid(-1, ..)` reaps it, a second `waitpid(-1, ..)` finds no child and returns -1.
pub proof fn lemma_reaped_once(
    k0: &Kernel,
    k1: &Kernel,
    k2: &Kernel,
    ptr1: int,
    ptr2: int,
    r1: isize,
    r2: isize,
)
    requires
        k0.running(),
        k0.tcb(k0.cur()).children@.len() == 1,
        waitpid_result(k0, k1, -1isize, ptr1, r1),
        r1 >= 0,
        k1.current == k0.current,
        waitpid_result(k1, k2, -1isize, ptr2, r2),
    ensures
        r1 == k0.tcb(k0.cur()).children@[0],
        r2 == -1,
{
    let c = k0.cur();
    let kids = k0.tcb(c).children@;
    assert(wait_matches(-1isize, kids[0]));
    if !reapable(k0, -1isize, kids[0]) {
        assert(forall|i: int| 0 <= i < kids.len() ==> !reapable(k0, -1isize, #[trigger] kids[i]));
    }
    assert(first_reapable(k0, c, -1isize, 0));
    assert(k1.tcb(c).children@ =~= kids.remove(0));
}

} // verus!
