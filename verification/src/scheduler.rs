//! The scheduler: one global queue, one local queue for each worker, and the
//! rule by which a worker that runs dry takes work from elsewhere.
//!
//! A worker looks for a task in its own queue first. When that is empty it
//! takes a batch from the front of the global queue, keeps the first task
//! and queues the rest for itself. When the global queue is empty too it
//! takes one task from the first peer that has any. Work is over when no
//! queue holds a task and no worker is busy.

use vstd::prelude::*;
use vstd::multiset::Multiset;
use vstd::seq_lib::lemma_multiset_commutative;
use std::collections::VecDeque;

verus! {

broadcast use vstd::multiset::group_multiset_axioms;

/// One worker: the tasks queued for it, and whether it is at work on one.
pub struct Worker<T> {
    queue: VecDeque<T>,
    busy: bool,
}

/// What a worker stands for.
#[verifier::ext_equal]
pub struct WorkerView<T> {
    /// The tasks queued for the worker, the next one first.
    pub queue: Seq<T>,
    /// The worker has taken a task and not finished it.
    pub busy: bool,
}

impl<T> View for Worker<T> {
    type V = WorkerView<T>;

    closed spec fn view(&self) -> WorkerView<T> {
        WorkerView { queue: self.queue@, busy: self.busy }
    }
}

pub struct Scheduler<T> {
    global: VecDeque<T>,
    workers: Vec<Worker<T>>,
}

/// What a scheduler stands for.
#[verifier::ext_equal]
pub struct SchedulerView<T> {
    /// The global queue, the next task first.
    pub global: Seq<T>,
    pub workers: Seq<WorkerView<T>>,
}

impl<T> View for Scheduler<T> {
    type V = SchedulerView<T>;

    closed spec fn view(&self) -> SchedulerView<T> {
        SchedulerView {
            global: self.global@,
            workers: Seq::new(self.workers@.len(), |i: int| self.workers@[i]@),
        }
    }
}

/// The tasks in the local queues of `workers`, each as often as it is queued.
pub open spec fn bag_of<T>(workers: Seq<WorkerView<T>>) -> Multiset<T>
    decreases workers.len(),
{
    if workers.len() == 0 {
        Multiset::empty()
    } else {
        bag_of(workers.drop_last()).add(workers.last().queue.to_multiset())
    }
}

/// The first worker from `from` on whose queue holds a task, or the number of
/// workers if there is none.
pub open spec fn first_loaded<T>(workers: Seq<WorkerView<T>>, from: int) -> int
    decreases workers.len() - from,
{
    if from < 0 || from >= workers.len() {
        workers.len() as int
    } else if workers[from].queue.len() > 0 {
        from
    } else {
        first_loaded(workers, from + 1)
    }
}

/// How many tasks a worker takes from a global queue of `n`: half of them,
/// rounded up.
pub open spec fn batch(n: nat) -> nat {
    (n - n / 2) as nat
}

impl<T> SchedulerView<T> {
    /// Every task that waits in a queue, each as often as it waits.
    pub open spec fn pending(self) -> Multiset<T> {
        self.global.to_multiset().add(bag_of(self.workers))
    }

    /// No worker is at work on a task.
    pub open spec fn idle(self) -> bool {
        forall|i: int| 0 <= i < self.workers.len() ==> !(#[trigger] self.workers[i]).busy
    }

    /// No queue holds a task.
    pub open spec fn drained(self) -> bool {
        self.global.len() == 0 && first_loaded(self.workers, 0) == self.workers.len()
    }

    /// Nothing waits and nobody works: the work is over.
    pub open spec fn quiescent(self) -> bool {
        self.idle() && self.drained()
    }

    /// The scheduler after worker `by` has taken the task at the front of the
    /// queue of worker `at`.
    pub open spec fn after_take(self, at: int, by: int) -> Self {
        let taken = self.workers.update(
            at,
            WorkerView {
                queue: self.workers[at].queue.subrange(1, self.workers[at].queue.len() as int),
                busy: self.workers[at].busy,
            },
        );
        SchedulerView {
            global: self.global,
            workers: taken.update(by, WorkerView { queue: taken[by].queue, busy: true }),
        }
    }

    /// The scheduler after worker `by`, whose queue is empty, has taken a
    /// batch from the global queue and kept its first task.
    pub open spec fn after_batch(self, by: int) -> Self {
        let k = batch(self.global.len()) as int;
        SchedulerView {
            global: self.global.subrange(k, self.global.len() as int),
            workers: self.workers.update(
                by,
                WorkerView { queue: self.global.subrange(1, k), busy: true },
            ),
        }
    }

    /// What worker `w` finds: the task and the scheduler after it was taken,
    /// or nothing where no queue holds a task.
    pub open spec fn found(self, w: int) -> Option<(T, Self)> {
        let peer = first_loaded(self.workers, 0);
        if self.workers[w].queue.len() > 0 {
            Some((self.workers[w].queue[0], self.after_take(w, w)))
        } else if self.global.len() > 0 {
            Some((self.global[0], self.after_batch(w)))
        } else if peer < self.workers.len() {
            Some((self.workers[peer].queue[0], self.after_take(peer, w)))
        } else {
            None
        }
    }
}

/// A queue that is not empty holds its first task and the rest.
proof fn lemma_front<T>(s: Seq<T>)
    requires
        s.len() > 0,
    ensures
        s.to_multiset() =~= s.subrange(1, s.len() as int).to_multiset().insert(s[0]),
{
    let rest = s.subrange(1, s.len() as int);
    assert(s =~= seq![s[0]] + rest);
    lemma_multiset_commutative(seq![s[0]], rest);
    assert(seq![s[0]] =~= Seq::<T>::empty().push(s[0]));
    Seq::<T>::empty().to_multiset_ensures();
    s.to_multiset_ensures();
    assert(Seq::<T>::empty().to_multiset().len() == 0) by {
        Seq::<T>::empty().to_multiset_ensures();
    }
    assert(Seq::<T>::empty().to_multiset() =~= Multiset::<T>::empty());
}

/// Replacing one worker changes the bag by that worker's queue.
proof fn lemma_bag_update<T>(workers: Seq<WorkerView<T>>, i: int, w: WorkerView<T>)
    requires
        0 <= i < workers.len(),
    ensures
        bag_of(workers.update(i, w)).add(workers[i].queue.to_multiset()) =~= bag_of(workers).add(
            w.queue.to_multiset(),
        ),
    decreases workers.len(),
{
    let after = workers.update(i, w);
    assert(after.len() == workers.len());
    assert(bag_of(after) == bag_of(after.drop_last()).add(after.last().queue.to_multiset()));
    assert(bag_of(workers) == bag_of(workers.drop_last()).add(
        workers.last().queue.to_multiset(),
    ));
    if i == workers.len() - 1 {
        assert(after.drop_last() =~= workers.drop_last());
        assert(after.last() == w);
    } else {
        assert(after.drop_last() =~= workers.drop_last().update(i, w));
        assert(after.last() == workers.last());
        assert(workers.drop_last()[i] == workers[i]);
        lemma_bag_update(workers.drop_last(), i, w);
    }
    let lhs = bag_of(workers.update(i, w)).add(workers[i].queue.to_multiset());
    let rhs = bag_of(workers).add(w.queue.to_multiset());
    assert forall|t: T| lhs.count(t) == rhs.count(t) by {
        if i < workers.len() - 1 {
            let a = bag_of(workers.drop_last().update(i, w)).add(workers[i].queue.to_multiset());
            let b = bag_of(workers.drop_last()).add(w.queue.to_multiset());
            assert(a.count(t) == b.count(t));
        }
    }
    assert(lhs =~= rhs);
}

/// Where no worker from `from` on has a task queued, every such queue is empty.
proof fn lemma_none_loaded<T>(workers: Seq<WorkerView<T>>, from: int)
    requires
        0 <= from <= workers.len(),
        first_loaded(workers, from) == workers.len(),
    ensures
        forall|i: int| from <= i < workers.len() ==> (#[trigger] workers[i]).queue.len() == 0,
    decreases workers.len() - from,
{
    if from < workers.len() {
        lemma_none_loaded(workers, from + 1);
    }
}

/// The first loaded worker, where there is one, has a task queued.
proof fn lemma_first_loaded<T>(workers: Seq<WorkerView<T>>, from: int)
    requires
        0 <= from <= workers.len(),
    ensures
        from <= first_loaded(workers, from) <= workers.len(),
        first_loaded(workers, from) < workers.len() ==> workers[first_loaded(
            workers,
            from,
        )].queue.len() > 0,
    decreases workers.len() - from,
{
    if from < workers.len() && workers[from].queue.len() == 0 {
        lemma_first_loaded(workers, from + 1);
    }
}

/// Workers whose queues are all empty hold no task.
proof fn lemma_bag_empty<T>(workers: Seq<WorkerView<T>>)
    requires
        forall|i: int| 0 <= i < workers.len() ==> (#[trigger] workers[i]).queue.len() == 0,
    ensures
        bag_of(workers) =~= Multiset::<T>::empty(),
    decreases workers.len(),
{
    if workers.len() > 0 {
        lemma_bag_empty(workers.drop_last());
        let q = workers.last().queue;
        assert(q.len() == 0);
        q.to_multiset_ensures();
        assert(q.to_multiset().len() == 0);
        assert(q.to_multiset() =~= Multiset::<T>::empty());
    }
}

/// No task is lost and none is handed out twice: the task that a worker
/// finds leaves the queues exactly once and every other task stays, and a
/// worker finds nothing only where nothing waits.
pub proof fn lemma_found_accounts<T>(v: SchedulerView<T>, w: int)
    requires
        0 <= w < v.workers.len(),
    ensures
        match v.found(w) {
            Some((task, next)) => v.pending() == next.pending().insert(task),
            None => v.pending() == Multiset::<T>::empty() && v.drained(),
        },
{
    let peer = first_loaded(v.workers, 0);
    lemma_first_loaded(v.workers, 0);
    if v.workers[w].queue.len() > 0 {
        lemma_take_accounts(v, w, w);
    } else if v.global.len() > 0 {
        let n = v.global.len() as int;
        let k = batch(v.global.len()) as int;
        let next = v.after_batch(w);
        assert(1 <= k <= n);
        let head = v.global.subrange(0, k);
        assert(v.global =~= head + next.global);
        lemma_multiset_commutative(head, next.global);
        lemma_front(head);
        assert(head.subrange(1, k) =~= v.global.subrange(1, k));
        lemma_bag_update(v.workers, w, next.workers[w]);
        let q = v.workers[w].queue;
        q.to_multiset_ensures();
        assert(q.to_multiset().len() == 0);
        assert(q.to_multiset() =~= Multiset::<T>::empty());
        assert forall|t: T| v.pending().count(t) == next.pending().insert(v.global[0]).count(
            t,
        ) by {
            let a = bag_of(v.workers.update(w, next.workers[w])).add(q.to_multiset());
            let b = bag_of(v.workers).add(next.workers[w].queue.to_multiset());
            assert(a.count(t) == b.count(t));
            assert(next.workers[w].queue == v.global.subrange(1, k));
        }
        assert(v.pending() =~= next.pending().insert(v.global[0]));
    } else if peer < v.workers.len() {
        lemma_take_accounts(v, peer, w);
    } else {
        lemma_none_loaded(v.workers, 0);
        lemma_bag_empty(v.workers);
        v.global.to_multiset_ensures();
        assert(v.global.to_multiset().len() == 0);
        assert(v.pending() =~= Multiset::<T>::empty());
    }
}

/// Taking the task at the front of one local queue removes that task from
/// what waits, once, and nothing else.
proof fn lemma_take_accounts<T>(v: SchedulerView<T>, at: int, by: int)
    requires
        0 <= at < v.workers.len(),
        0 <= by < v.workers.len(),
        v.workers[at].queue.len() > 0,
    ensures
        v.pending() == v.after_take(at, by).pending().insert(v.workers[at].queue[0]),
{
    let q = v.workers[at].queue;
    let shorter = WorkerView { queue: q.subrange(1, q.len() as int), busy: v.workers[at].busy };
    let taken = v.workers.update(at, shorter);
    assert(taken.len() == v.workers.len());
    let marked = WorkerView { queue: taken[by].queue, busy: true };
    let next = v.after_take(at, by);
    assert(next.workers == taken.update(by, marked));
    lemma_front(q);
    lemma_bag_update(v.workers, at, shorter);
    lemma_bag_update(taken, by, marked);
    assert forall|t: T| v.pending().count(t) == next.pending().insert(q[0]).count(t) by {
        let a = bag_of(taken.update(by, marked)).add(taken[by].queue.to_multiset());
        let b = bag_of(taken).add(marked.queue.to_multiset());
        assert(a.count(t) == b.count(t));
        let c = bag_of(taken).add(v.workers[at].queue.to_multiset());
        let d = bag_of(v.workers).add(shorter.queue.to_multiset());
        assert(c.count(t) == d.count(t));
    }
    assert(v.pending() =~= next.pending().insert(q[0]));
}

impl<T> Scheduler<T> {
    /// A scheduler for `number` workers: every queue empty, every worker idle.
    pub fn new(number: usize) -> (r: Self)
        ensures
            r@.global == Seq::<T>::empty(),
            r@.workers.len() == number,
            forall|i: int|
                0 <= i < number ==> (#[trigger] r@.workers[i]) == (WorkerView {
                    queue: Seq::<T>::empty(),
                    busy: false,
                }),
            r@.pending() == Multiset::<T>::empty(),
            r@.quiescent(),
    {
        let mut workers: Vec<Worker<T>> = Vec::new();
        let mut i: usize = 0;
        while i < number
            invariant
                i <= number,
                workers@.len() == i,
                forall|j: int|
                    0 <= j < i ==> (#[trigger] workers@[j])@ == (WorkerView {
                        queue: Seq::<T>::empty(),
                        busy: false,
                    }),
            decreases number - i,
        {
            workers.push(Worker { queue: VecDeque::new(), busy: false });
            i = i + 1;
        }
        let r = Scheduler { global: VecDeque::new(), workers };
        proof {
            lemma_bag_empty(r@.workers);
            lemma_all_empty(r@.workers, 0);
            r@.global.to_multiset_ensures();
            assert(r@.global.to_multiset() =~= Multiset::<T>::empty());
            assert(r@.pending() =~= Multiset::<T>::empty());
        }
        r
    }

    /// The number of workers.
    pub fn number_of_workers(&self) -> (r: usize)
        ensures
            r == self@.workers.len(),
    {
        self.workers.len()
    }

    /// Whether `worker` has taken a task and not finished it.
    pub fn is_busy(&self, worker: usize) -> (r: bool)
        requires
            worker < self@.workers.len(),
        ensures
            r == self@.workers[worker as int].busy,
    {
        self.workers[worker].busy
    }

    /// Puts a task at the end of the global queue.
    pub fn push(&mut self, task: T)
        ensures
            final(self)@ == (SchedulerView {
                global: old(self)@.global.push(task),
                workers: old(self)@.workers,
            }),
            final(self)@.pending() == old(self)@.pending().insert(task),
    {
        self.global.push_back(task);
        proof {
            old(self)@.global.to_multiset_ensures();
            assert(self@.workers =~= old(self)@.workers);
            assert(self@.pending() =~= old(self)@.pending().insert(task));
        }
    }

    /// Looks for a task for `worker`: in its own queue, then in the global
    /// queue, then with its peers in their order. A worker that finds one is
    /// busy until it finishes. The task that is found leaves the queues once,
    /// and nothing is found only where nothing waits.
    pub fn find_task(&mut self, worker: usize) -> (r: Option<T>)
        requires
            worker < old(self)@.workers.len(),
        ensures
            match (r, old(self)@.found(worker as int)) {
                (Some(task), Some((first, next))) => task == first && final(self)@ == next,
                (None, None) => final(self)@ == old(self)@,
                _ => false,
            },
            match r {
                Some(task) => old(self)@.pending() == final(self)@.pending().insert(task),
                None => old(self)@.pending() == Multiset::<T>::empty(),
            },
            final(self)@.workers.len() == old(self)@.workers.len(),
    {
        let ghost before = self@;
        let ghost start = self.workers@;
        proof {
            lemma_found_accounts(before, worker as int);
            lemma_first_loaded(before.workers, 0);
        }
        if self.workers[worker].queue.len() > 0 {
            let task = self.workers[worker].queue.pop_front().unwrap();
            self.workers[worker].busy = true;
            assert(self@ =~~= before.after_take(worker as int, worker as int));
            return Some(task);
        }
        let n = self.global.len();
        if n > 0 {
            let k = n - n / 2;
            let task = self.global.pop_front().unwrap();
            let mut moved: usize = 1;
            assert(self.workers@[worker as int]@.queue =~= before.global.subrange(1, 1));
            while moved < k
                invariant
                    1 <= moved <= k <= n,
                    n == before.global.len(),
                    self.global@ == before.global.subrange(moved as int, n as int),
                    self.workers@.len() == start.len(),
                    worker < start.len(),
                    self.workers@[worker as int]@.queue == before.global.subrange(1, moved as int),
                    forall|i: int|
                        0 <= i < start.len() && i != worker ==> self.workers@[i] == start[i],
                decreases k - moved,
            {
                let t = self.global.pop_front().unwrap();
                self.workers[worker].queue.push_back(t);
                moved = moved + 1;
                proof {
                    assert(self.global@ =~= before.global.subrange(moved as int, n as int));
                    assert(self.workers@[worker as int]@.queue =~= before.global.subrange(
                        1,
                        moved as int,
                    ));
                }
            }
            self.workers[worker].busy = true;
            assert(self@ =~~= before.after_batch(worker as int));
            return Some(task);
        }
        let mut i: usize = 0;
        while i < self.workers.len()
            invariant
                i <= self.workers@.len(),
                self@ == before,
                before == old(self)@,
                self.workers@ == start,
                worker < start.len(),
                before.workers[worker as int].queue.len() == 0,
                before.global.len() == 0,
                first_loaded(before.workers, 0) == first_loaded(before.workers, i as int),
            decreases self.workers@.len() - i,
        {
            if self.workers[i].queue.len() > 0 {
                proof {
                    assert(first_loaded(before.workers, i as int) == i);
                    lemma_found_accounts(before, worker as int);
                }
                let task = self.workers[i].queue.pop_front().unwrap();
                self.workers[worker].busy = true;
                assert(self@ =~~= before.after_take(i as int, worker as int));
                return Some(task);
            }
            i = i + 1;
        }
        None
    }

    /// Notes that `worker` has finished its task.
    pub fn finish_task(&mut self, worker: usize)
        requires
            worker < old(self)@.workers.len(),
        ensures
            final(self)@ == (SchedulerView {
                global: old(self)@.global,
                workers: old(self)@.workers.update(
                    worker as int,
                    WorkerView { queue: old(self)@.workers[worker as int].queue, busy: false },
                ),
            }),
            final(self)@.pending() == old(self)@.pending(),
    {
        let ghost before = self@;
        self.workers[worker].busy = false;
        proof {
            let w = WorkerView { queue: before.workers[worker as int].queue, busy: false };
            assert(self@.workers =~= before.workers.update(worker as int, w));
            lemma_bag_update(before.workers, worker as int, w);
            assert forall|t: T| self@.pending().count(t) == before.pending().count(t) by {
                let a = bag_of(before.workers.update(worker as int, w)).add(
                    before.workers[worker as int].queue.to_multiset(),
                );
                let b = bag_of(before.workers).add(w.queue.to_multiset());
                assert(a.count(t) == b.count(t));
            }
            assert(self@.pending() =~= before.pending());
        }
    }

    /// Whether the work is over: no queue holds a task and no worker is busy.
    pub fn is_quiescent(&self) -> (r: bool)
        ensures
            r == self@.quiescent(),
            r ==> self@.pending() == Multiset::<T>::empty(),
    {
        proof {
            lemma_first_loaded(self@.workers, 0);
            if self@.drained() {
                lemma_none_loaded(self@.workers, 0);
                lemma_bag_empty(self@.workers);
                self@.global.to_multiset_ensures();
                assert(self@.global.to_multiset() =~= Multiset::<T>::empty());
                assert(self@.pending() =~= Multiset::<T>::empty());
            }
        }
        if self.global.len() > 0 {
            return false;
        }
        let mut i: usize = 0;
        while i < self.workers.len()
            invariant
                i <= self.workers@.len(),
                first_loaded(self@.workers, 0) == first_loaded(self@.workers, i as int),
                forall|j: int| 0 <= j < i ==> !(#[trigger] self@.workers[j]).busy,
            decreases self.workers@.len() - i,
        {
            if self.workers[i].busy {
                return false;
            }
            if self.workers[i].queue.len() > 0 {
                return false;
            }
            i = i + 1;
        }
        true
    }
}

impl Scheduler<String> {
    /// Puts a copy of each key at the end of the global queue, in order.
    pub fn add_generic_to_queue(&mut self, to_add: &Vec<String>)
        ensures
            final(self)@ == (SchedulerView {
                global: old(self)@.global + to_add@,
                workers: old(self)@.workers,
            }),
            final(self)@.pending() == old(self)@.pending().add(to_add@.to_multiset()),
    {
        proof {
            lemma_multiset_commutative(old(self)@.global, to_add@);
            assert(old(self)@.global.to_multiset().add(to_add@.to_multiset()).add(
                bag_of(old(self)@.workers),
            ) =~= old(self)@.pending().add(to_add@.to_multiset()));
        }
        let mut i: usize = 0;
        while i < to_add.len()
            invariant
                i <= to_add.len(),
                self@.workers == old(self)@.workers,
                self@.global == old(self)@.global + to_add@.subrange(0, i as int),
            decreases to_add.len() - i,
        {
            self.push(to_add[i].clone());
            i = i + 1;
            assert(self@.global =~= old(self)@.global + to_add@.subrange(0, i as int));
        }
        assert(to_add@.subrange(0, i as int) =~= to_add@);
    }
}

/// Workers that were just made have nothing queued.
proof fn lemma_all_empty<T>(workers: Seq<WorkerView<T>>, from: int)
    requires
        0 <= from <= workers.len(),
        forall|i: int| 0 <= i < workers.len() ==> (#[trigger] workers[i]).queue.len() == 0,
    ensures
        first_loaded(workers, from) == workers.len(),
    decreases workers.len() - from,
{
    if from < workers.len() {
        lemma_all_empty(workers, from + 1);
    }
}

} // verus!
