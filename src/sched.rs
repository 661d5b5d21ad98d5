use vstd::prelude::*;

verus! {

/// The fixed numerator from which each task's stride is derived.
pub const BIG_STRIDE: u64 = 0x1_0000_0000;

/// Priority that a task starts with.
pub const DEFAULT_PRIORITY: u64 = 16;

/// `a - b` taken modulo 2^64, as a value in `[0, 2^64)`.
pub open spec fn wrap_diff(a: u64, b: u64) -> int {
    if a >= b {
        a - b
    } else {
        a - b + 0x1_0000_0000_0000_0000
    }
}

/// `a - b` taken modulo 2^64 and read as a signed value in `[-2^63, 2^63)`.
pub open spec fn signed_diff(a: u64, b: u64) -> int {
    if wrap_diff(a, b) >= 0x8000_0000_0000_0000 {
        wrap_diff(a, b) - 0x1_0000_0000_0000_0000
    } else {
        wrap_diff(a, b)
    }
}

/// `a + b` taken modulo 2^64.
pub open spec fn wrap_add(a: u64, b: u64) -> u64 {
    if a + b > u64::MAX {
        (a + b - 0x1_0000_0000_0000_0000) as u64
    } else {
        (a + b) as u64
    }
}

/// Pass `a` comes strictly before pass `b` in the wraparound-aware order.
pub open spec fn pass_before(a: u64, b: u64) -> bool {
    signed_diff(a, b) < 0
}

/// The stride of a task of priority `priority`.
pub open spec fn stride_of(priority: u64) -> int {
    BIG_STRIDE as int / priority as int
}

/// Compares two pass values, allowing for their wraparound.
pub fn pass_less(a: u64, b: u64) -> (r: bool)
    ensures
        r == pass_before(a, b),
{
    a.wrapping_sub(b) >= 0x8000_0000_0000_0000
}

/// Signed distance of `a` from `b`, modulo 2^64.
fn signed_distance(a: u64, b: u64) -> (r: i128)
    ensures
        r as int == signed_diff(a, b),
{
    let d = a.wrapping_sub(b);
    if d >= 0x8000_0000_0000_0000 {
        d as i128 - 0x1_0000_0000_0000_0000i128
    } else {
        d as i128
    }
}

/// The stride that a task of the given priority advances by each time it is picked.
pub fn stride_for(priority: u64) -> (r: u64)
    requires
        priority > 0,
    ensures
        r as int == stride_of(priority),
        r <= BIG_STRIDE,
{
    BIG_STRIDE / priority
}

/// A larger priority never gives a larger stride, so a task of higher priority is credited
/// less pass for each slice and is picked at least as often as one of lower priority.
pub proof fn lemma_stride_antimonotone(lo: u64, hi: u64)
    requires
        0 < lo < hi,
    ensures
        stride_of(lo) >= stride_of(hi),
{
    assert(BIG_STRIDE as int / lo as int >= BIG_STRIDE as int / hi as int) by (nonlinear_arith)
        requires
            0 < lo < hi,
    {
        vstd::arithmetic::div_mod::lemma_div_is_ordered_by_denominator(
            BIG_STRIDE as int,
            lo as int,
            hi as int,
        );
    }
}

/// Two always-ready tasks with passes `pa`, `pb` and strides `sa`, `sb`, after `n` picks made
/// as `fetch` makes them: the smaller pass runs and is credited its stride; on equal passes
/// the first task runs where `a_first`. The result is both passes and how often each ran.
pub open spec fn two_task_run(pa: int, pb: int, sa: int, sb: int, a_first: bool, n: nat) -> (
    int,
    int,
    nat,
    nat,
)
    decreases n,
{
    if n == 0 {
        (pa, pb, 0, 0)
    } else {
        let prev = two_task_run(pa, pb, sa, sb, a_first, (n - 1) as nat);
        if prev.0 < prev.1 || (prev.0 == prev.1 && a_first) {
            (prev.0 + sa, prev.1, (prev.2 + 1) as nat, prev.3)
        } else {
            (prev.0, prev.1 + sb, prev.2, (prev.3 + 1) as nat)
        }
    }
}

proof fn lemma_two_task_gap(pa: int, pb: int, sa: int, sb: int, a_first: bool, n: nat)
    requires
        sa >= sb >= 0,
        -sa <= pa - pb <= sa,
    ensures
        ({
            let r = two_task_run(pa, pb, sa, sb, a_first, n);
            &&& r.0 == pa + r.2 * sa
            &&& r.1 == pb + r.3 * sb
            &&& -sa <= r.0 - r.1 <= sa
        }),
    decreases n,
{
    if n > 0 {
        lemma_two_task_gap(pa, pb, sa, sb, a_first, (n - 1) as nat);
        let prev = two_task_run(pa, pb, sa, sb, a_first, (n - 1) as nat);
        let r = two_task_run(pa, pb, sa, sb, a_first, n);
        assert((prev.2 + 1) * sa == prev.2 * sa + sa) by (nonlinear_arith);
        assert((prev.3 + 1) * sb == prev.3 * sb + sb) by (nonlinear_arith);
        if prev.0 < prev.1 || (prev.0 == prev.1 && a_first) {
            assert(r == (prev.0 + sa, prev.1, (prev.2 + 1) as nat, prev.3));
        } else {
            assert(r == (prev.0, prev.1 + sb, prev.2, (prev.3 + 1) as nat));
        }
    } else {
        let r = two_task_run(pa, pb, sa, sb, a_first, n);
        assert(r == (pa, pb, 0nat, 0nat));
        assert(0 * sa == 0 && 0 * sb == 0) by (nonlinear_arith);
    }
}

/// Proportional share: of two always-ready tasks that start with equal passes, the one of
/// lower priority (the larger stride) is never picked more than once beyond the one of
/// higher priority, however long they run. (A priority above `BIG_STRIDE` has stride 0,
/// which credits nothing; the lower priority is kept at or below it.)
pub proof fn lemma_proportional_share(lo: u64, hi: u64, pass: int, a_first: bool, n: nat)
    requires
        0 < lo < hi,
        lo <= BIG_STRIDE,
    ensures
        ({
            let r = two_task_run(pass, pass, stride_of(lo), stride_of(hi), a_first, n);
            r.2 <= r.3 + 1
        }),
{
    lemma_stride_antimonotone(lo, hi);
    let s1 = stride_of(lo);
    let s2 = stride_of(hi);
    assert(s2 >= 0) by (nonlinear_arith)
        requires
            s2 == BIG_STRIDE as int / hi as int,
            hi > 0,
    ;
    assert(s1 > 0) by {
        vstd::arithmetic::div_mod::lemma_div_non_zero(BIG_STRIDE as int, lo as int);
    }
    lemma_two_task_gap(pass, pass, s1, s2, a_first, n);
    let r = two_task_run(pass, pass, s1, s2, a_first, n);
    let c1 = r.2 as int;
    let c2 = r.3 as int;
    assert(c1 <= c2 + 1) by (nonlinear_arith)
        requires
            c1 * s1 - c2 * s2 <= s1,
            s1 >= s2 >= 0,
            s1 > 0,
            c2 >= 0,
    ;
}

/// Where two passes lie within a quarter of the value range of a common reference, the
/// wraparound-aware order between them is the order of their signed distances from it.
pub proof fn lemma_order_from_reference(a: u64, b: u64, base: u64)
    requires
        -0x4000_0000_0000_0000 < signed_diff(a, base) < 0x4000_0000_0000_0000,
        -0x4000_0000_0000_0000 < signed_diff(b, base) < 0x4000_0000_0000_0000,
    ensures
        pass_before(a, b) == (signed_diff(a, base) < signed_diff(b, base)),
{
}

/// A ready task as the scheduler sees it: its pid, its current pass and its stride.
#[derive(Clone, Copy, Debug, PartialEq, Eq)]
pub struct Stride {
    pub pid: usize,
    pub pass: u64,
    pub stride: u64,
}

/// `a` runs before `b` when the queue's reference pass is `base`: by signed distance of the
/// pass from `base`, then by pid.
pub open spec fn runs_before(a: Stride, b: Stride, base: u64) -> bool {
    signed_diff(a.pass, base) < signed_diff(b.pass, base) || (signed_diff(a.pass, base)
        == signed_diff(b.pass, base) && a.pid < b.pid)
}

/// The entry that `fetch` hands back for queue entry `e`: its pass credited with its stride.
pub open spec fn credited(e: Stride) -> Stride {
    Stride { pid: e.pid, pass: wrap_add(e.pass, e.stride), stride: e.stride }
}

/// Index `i` of queue `q` holds the entry that runs next: before every other entry, measured
/// from the pass at the head of the queue.
pub open spec fn next_in(q: Seq<Stride>, i: int) -> bool {
    &&& 0 <= i < q.len()
    &&& forall|j: int| 0 <= j < q.len() && j != i ==> runs_before(q[i], #[trigger] q[j], q[0].pass)
}

/// Where every pass in the queue lies within a quarter of the value range of the head's, the
/// entry that runs next has the smallest pass in the wraparound-aware order: no other entry's
/// pass comes strictly before it.
pub proof fn lemma_next_has_smallest_pass(q: Seq<Stride>, i: int)
    requires
        next_in(q, i),
        forall|j: int|
            0 <= j < q.len() ==> -0x4000_0000_0000_0000 < signed_diff(#[trigger] q[j].pass, q[0].pass)
                < 0x4000_0000_0000_0000,
    ensures
        forall|j: int| 0 <= j < q.len() ==> !pass_before(#[trigger] q[j].pass, q[i].pass),
{
    assert forall|j: int| 0 <= j < q.len() implies !pass_before(#[trigger] q[j].pass, q[i].pass) by {
        lemma_order_from_reference(q[j].pass, q[i].pass, q[0].pass);
        if j != i {
            assert(runs_before(q[i], q[j], q[0].pass));
        }
    }
}

/// The ready set of the stride scheduler.
pub struct TaskManager {
    pub ready_queue: Vec<Stride>,
}

impl TaskManager {
    pub open spec fn view(&self) -> Seq<Stride> {
        self.ready_queue@
    }

    /// No task is queued twice.
    pub open spec fn wf(&self) -> bool {
        forall|i: int, j: int|
            0 <= i < j < self@.len() ==> (#[trigger] self@[i]).pid != (#[trigger] self@[j]).pid
    }

    /// Task `pid` is in the ready set.
    pub open spec fn contains(&self, pid: usize) -> bool {
        exists|i: int| 0 <= i < self@.len() && (#[trigger] self@[i]).pid == pid
    }

    /// Index `i` holds the entry that runs next.
    pub open spec fn is_next(&self, i: int) -> bool {
        next_in(self@, i)
    }

    pub fn new() -> (r: TaskManager)
        ensures
            r.wf(),
            r@ == Seq::<Stride>::empty(),
    {
        TaskManager { ready_queue: Vec::new() }
    }

    /// Puts a task into the ready set.
    pub fn add(&mut self, task: Stride)
        requires
            old(self).wf(),
            !old(self).contains(task.pid),
        ensures
            final(self).wf(),
            final(self)@ == old(self)@.push(task),
    {
        self.ready_queue.push(task);
        proof {
            assert forall|i: int, j: int|
                0 <= i < j < self@.len() implies (#[trigger] self@[i]).pid != (
                #[trigger] self@[j]).pid by {
                if j == self@.len() - 1 {
                    assert(old(self)@[i].pid != task.pid);
                } else {
                    assert(old(self)@[i].pid != old(self)@[j].pid);
                }
            }
        }
    }

    /// Removes the task that runs next and hands it back with its pass already advanced by
    /// its stride.
    pub fn fetch(&mut self) -> (r: Option<Stride>)
        requires
            old(self).wf(),
        ensures
            final(self).wf(),
            r is None <==> old(self)@.len() == 0,
            r is None ==> final(self)@ == old(self)@,
            r matches Some(e) ==> exists|i: int|
                #[trigger] old(self).is_next(i) && e == credited(old(self)@[i]) && final(self)@
                    == old(self)@.remove(i),
    {
        if self.ready_queue.len() == 0 {
            return None;
        }
        let base = self.ready_queue[0].pass;
        let mut best: usize = 0;
        let mut best_key = signed_distance(self.ready_queue[0].pass, base);
        let mut k: usize = 1;
        while k < self.ready_queue.len()
            invariant
                self.wf(),
                *self == *old(self),
                self@.len() > 0,
                base == self@[0].pass,
                1 <= k <= self@.len(),
                best < k,
                best_key as int == signed_diff(self@[best as int].pass, base),
                forall|j: int|
                    0 <= j < k && j != best ==> runs_before(
                        self@[best as int],
                        #[trigger] self@[j],
                        base,
                    ),
            decreases self@.len() - k,
        {
            let key = signed_distance(self.ready_queue[k].pass, base);
            if key < best_key || (key == best_key && self.ready_queue[k].pid
                < self.ready_queue[best].pid) {
                proof {
                    assert forall|j: int|
                        0 <= j < k + 1 && j != k implies runs_before(
                        self@[k as int],
                        #[trigger] self@[j],
                        base,
                    ) by {
                        if j != best as int {
                            assert(runs_before(self@[best as int], self@[j], base));
                        }
                    }
                }
                best = k;
                best_key = key;
            } else {
                proof {
                    assert(self@[k as int].pid != self@[best as int].pid);
                }
            }
            k = k + 1;
        }
        let e = self.ready_queue.remove(best);
        proof {
            assert(old(self).is_next(best as int));
            assert forall|i: int, j: int|
                0 <= i < j < self@.len() implies (#[trigger] self@[i]).pid != (
                #[trigger] self@[j]).pid by {
                let oi = if i < best { i } else { i + 1 };
                let oj = if j < best { j } else { j + 1 };
                assert(old(self)@[oi].pid != old(self)@[oj].pid);
            }
        }
        Some(Stride { pid: e.pid, pass: e.pass.wrapping_add(e.stride), stride: e.stride })
    }

    /// The ready entry of task `pid`, if it is queued.
    pub fn get_task(&self, pid: usize) -> (r: Option<Stride>)
        requires
            self.wf(),
        ensures
            r is None <==> !self.contains(pid),
            r matches Some(e) ==> e.pid == pid && exists|i: int|
                0 <= i < self@.len() && #[trigger] self@[i] == e,
    {
        let mut i: usize = 0;
        while i < self.ready_queue.len()
            invariant
                i <= self@.len(),
                forall|j: int| 0 <= j < i ==> (#[trigger] self@[j]).pid != pid,
            decreases self@.len() - i,
        {
            if self.ready_queue[i].pid == pid {
                return Some(self.ready_queue[i]);
            }
            i = i + 1;
        }
        None
    }

    /// Number of ready tasks.
    pub fn len(&self) -> (r: usize)
        ensures
            r == self@.len(),
    {
        self.ready_queue.len()
    }
}

} // verus!
