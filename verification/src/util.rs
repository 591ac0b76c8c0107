//! Bounded queues and pools of running tasks.
use vstd::prelude::*;
use std::collections::{HashMap, VecDeque};
use std::hash::Hash;
use vstd::std_specs::hash::obeys_key_model;
use tokio_util::task::AbortOnDropHandle;

verus! {

/// A [`VecDeque`] with a maximum size
pub struct BoundedVecDeque<T> {
    /// The inner [`VecDeque`]
    pub inner: VecDeque<T>,
    /// The maximum size of the [`VecDeque`]
    pub max_size: usize,
}

/// The contents of a bounded deque after pushing `item` onto `items`: the
/// oldest item goes when the maximum size is reached; a deque of maximum size
/// 0 holds nothing.
pub open spec fn pushed_bounded<T>(items: Seq<T>, max_size: usize, item: T) -> Seq<T> {
    if max_size == 0 {
        items
    } else if items.len() >= max_size {
        items.drop_first().push(item)
    } else {
        items.push(item)
    }
}

impl<T> BoundedVecDeque<T> {
    /// Whether the deque holds no more than its maximum size.
    pub open spec fn wf(&self) -> bool {
        self.inner@.len() <= self.max_size
    }

    /// Create a new bounded [`VecDeque`] with the given maximum size
    pub fn new(max_size: usize) -> (d: Self)
        ensures
            d.wf(),
            d.inner@ == Seq::<T>::empty(),
            d.max_size == max_size,
    {
        Self { inner: VecDeque::new(), max_size }
    }

    /// Push an item into the bounded [`VecDeque`], removing the oldest item if the
    /// maximum size is reached
    pub fn push(&mut self, item: T)
        ensures
            old(self).wf() ==> final(self).wf(),
            final(self).max_size == old(self).max_size,
            final(self).inner@ == pushed_bounded(old(self).inner@, old(self).max_size, item),
    {
        if self.max_size == 0 {
            // nothing fits
            return;
        }
        if self.inner.len() >= self.max_size {
            let _ = self.inner.pop_front();
        }
        self.inner.push_back(item);
        proof {
            assert(old(self).inner@.drop_first() =~= old(self).inner@.subrange(1, old(self).inner@.len() as int));
        }
    }
}

/// The contents of a bounded deque after pushing each of `xs` in turn.
pub open spec fn pushed_all<T>(items: Seq<T>, max_size: usize, xs: Seq<T>) -> Seq<T>
    decreases xs.len(),
{
    if xs.len() == 0 {
        items
    } else {
        pushed_bounded(pushed_all(items, max_size, xs.drop_last()), max_size, xs.last())
    }
}

/// Pushing items one by one into an empty bounded deque leaves the most recent
/// of them, as many as its maximum size, in the order they were pushed.
pub proof fn lemma_bounded_keeps_most_recent<T>(max_size: usize, xs: Seq<T>)
    ensures
        pushed_all(Seq::<T>::empty(), max_size, xs) == (if xs.len() <= max_size {
            xs
        } else {
            xs.skip(xs.len() - max_size)
        }),
    decreases xs.len(),
{
    if xs.len() > 0 {
        let init = xs.drop_last();
        lemma_bounded_keeps_most_recent(max_size, init);
        let c = max_size as nat;
        if c == 0 {
            assert(xs.skip(xs.len() as int) =~= Seq::<T>::empty());
            assert(init.skip(init.len() as int) =~= Seq::<T>::empty());
        } else if init.len() < c {
            assert(init.push(xs.last()) =~= xs);
            if xs.len() > c {
                assert(xs.skip(xs.len() - c) =~= xs);
            }
        } else {
            let kept = init.skip(init.len() - c);
            assert(kept.drop_first().push(xs.last()) =~= xs.skip(xs.len() - c));
        }
    }
}

/// `tokio`'s error of a task that did not complete, which the task handles
/// below mention; opaque.
#[verifier::external_type_specification]
#[verifier::external_body]
pub struct ExJoinError(tokio::task::JoinError);

/// `tokio_util`'s handle of a spawned task, which aborts the task when
/// dropped; opaque.
#[verifier::external_type_specification]
#[verifier::external_body]
#[verifier::reject_recursive_types(T)]
pub struct ExAbortOnDropHandle<T>(AbortOnDropHandle<T>);

/// Calls `AbortOnDropHandle::is_finished`. Whether a task has finished depends
/// on the scheduler and the time, so nothing is stated of the result.
#[verifier::external_body]
fn task_is_finished<T>(handle: &AbortOnDropHandle<T>) -> bool {
    handle.is_finished()
}

/// Whether `finished` is an answer that `task` gave when asked whether it had
/// finished.
pub closed spec fn is_answer_of<T>(task: AbortOnDropHandle<T>, finished: bool) -> bool {
    call_ensures(task_is_finished::<T>, (&task,), finished)
}

/// Whether `answers` holds, for each task of `tasks` in order, an answer that
/// task gave when asked whether it had finished.
pub open spec fn answers_of_tasks<T>(tasks: Seq<AbortOnDropHandle<T>>, answers: Seq<bool>) -> bool {
    &&& answers.len() == tasks.len()
    &&& forall|i: int| 0 <= i < tasks.len() ==> is_answer_of(tasks[i], #[trigger] answers[i])
}

/// The items of `s` whose flag in `keep` is set, in order.
pub open spec fn select_kept<H>(s: Seq<H>, keep: Seq<bool>) -> Seq<H>
    decreases s.len(),
{
    if s.len() == 0 {
        s
    } else {
        let r = select_kept(s.drop_last(), keep.drop_last());
        if keep.last() {
            r.push(s.last())
        } else {
            r
        }
    }
}

/// The flags of the tasks to keep: those not finished.
pub open spec fn unfinished_flags(finished: Seq<bool>) -> Seq<bool> {
    finished.map_values(|f: bool| !f)
}

/// Whether `sub` is `s` with some items dropped, the others in their order.
pub open spec fn is_pruned_from<H>(sub: Seq<H>, s: Seq<H>) -> bool {
    exists|keep: Seq<bool>| keep.len() == s.len() && sub == select_kept(s, keep)
}

/// The items of `s` paired with their flags in `keep`.
pub open spec fn flagged<H>(s: Seq<H>, keep: Seq<bool>) -> Seq<(H, bool)> {
    Seq::new(s.len(), |i: int| (s[i], keep[i]))
}

/// Selecting keeps exactly the items whose flag is set, in their order: the
/// result is what `Seq::filter` keeps of the items paired with their flags,
/// filtered by the flag.
pub proof fn lemma_select_kept_is_filter<H>(s: Seq<H>, keep: Seq<bool>)
    requires
        keep.len() == s.len(),
    ensures
        select_kept(s, keep) == flagged(s, keep).filter(|p: (H, bool)| p.1).map_values(|p: (H, bool)| p.0),
    decreases s.len(),
{
    reveal(Seq::filter);
    let f = flagged(s, keep);
    if s.len() > 0 {
        lemma_select_kept_is_filter(s.drop_last(), keep.drop_last());
        assert(f.drop_last() =~= flagged(s.drop_last(), keep.drop_last()));
        let sub = f.drop_last().filter(|p: (H, bool)| p.1);
        assert(f.last() == (s.last(), keep.last()));
        if keep.last() {
            assert(f.filter(|p: (H, bool)| p.1) == sub.push(f.last()));
            assert(sub.push(f.last()).map_values(|p: (H, bool)| p.0) =~= sub.map_values(|p: (H, bool)| p.0).push(
                s.last(),
            ));
        } else {
            assert(f.filter(|p: (H, bool)| p.1) == sub);
        }
    } else {
        assert(f.filter(|p: (H, bool)| p.1).len() == 0);
        assert(f.filter(|p: (H, bool)| p.1).map_values(|p: (H, bool)| p.0) =~= s);
    }
}

/// Selecting keeps every item only when every flag is set.
pub proof fn lemma_select_kept_all<H>(s: Seq<H>, keep: Seq<bool>)
    requires
        keep.len() == s.len(),
        select_kept(s, keep).len() >= s.len(),
    ensures
        forall|i: int| 0 <= i < keep.len() ==> #[trigger] keep[i],
    decreases s.len(),
{
    if s.len() > 0 {
        lemma_select_kept_len(s.drop_last(), keep.drop_last());
        lemma_select_kept_all(s.drop_last(), keep.drop_last());
        assert forall|i: int| 0 <= i < keep.len() implies #[trigger] keep[i] by {
            if i < keep.len() - 1 {
                assert(keep.drop_last()[i] == keep[i]);
            }
        }
    }
}

/// Selecting from a sequence never yields more than it holds.
pub proof fn lemma_select_kept_len<H>(s: Seq<H>, keep: Seq<bool>)
    ensures
        select_kept(s, keep).len() <= s.len(),
    decreases s.len(),
{
    if s.len() > 0 {
        lemma_select_kept_len(s.drop_last(), keep.drop_last());
    }
}

/// The error of inserting into a pool full of running tasks.
#[derive(Debug)]
pub enum FuturePoolError {
    /// The pool is full of tasks that are all still running
    PoolFull,
}

/// A [`Vec`] of [`AbortOnDropHandle`]s with a maximum size. Instead of always aborting old tasks when
/// new ones come in, it will only do so if a task is finished.
#[verifier::reject_recursive_types(T)]
pub struct FuturePool<T> {
    /// The inner [`VecDeque`]
    pub inner: VecDeque<AbortOnDropHandle<T>>,
    /// The maximum number of tasks that can be in the pool at any given time
    pub max_size: usize,
}

impl<T> FuturePool<T> {
    /// Whether the pool holds no more tasks than its maximum size.
    pub open spec fn wf(&self) -> bool {
        self.inner@.len() <= self.max_size
    }

    /// Create a new bounded future pool with the given maximum size.
    pub fn new(max_size: usize) -> (p: Self)
        ensures
            p.wf(),
            p.inner@ == Seq::<AbortOnDropHandle<T>>::empty(),
            p.max_size == max_size,
    {
        Self { inner: VecDeque::new(), max_size }
    }

    /// Returns whether or not the pool is full.
    pub fn is_full(&self) -> (full: bool)
        ensures
            full == (self.inner@.len() >= self.max_size),
    {
        self.inner.len() >= self.max_size
    }

    /// Returns whether or not the pool is empty.
    pub fn is_empty(&self) -> (empty: bool)
        ensures
            empty == (self.inner@.len() == 0),
    {
        self.inner.len() == 0
    }

    /// Returns the length of the pool.
    pub fn len(&self) -> (n: usize)
        ensures
            n == self.inner@.len(),
    {
        self.inner.len()
    }

    /// Drops the tasks flagged as finished, keeping the others in their order,
    /// and returns how many were dropped. `finished` holds one flag per task,
    /// in the pool's order.
    pub fn retain_unfinished(&mut self, finished: &Vec<bool>) -> (removed: usize)
        requires
            finished@.len() == old(self).inner@.len(),
        ensures
            final(self).max_size == old(self).max_size,
            old(self).wf() ==> final(self).wf(),
            final(self).inner@ == select_kept(old(self).inner@, unfinished_flags(finished@)),
            removed == old(self).inner@.len() - final(self).inner@.len(),
    {
        let ghost all = self.inner@;
        let ghost flags = unfinished_flags(finished@);
        let size_before = self.inner.len();
        let mut i: usize = 0;
        assert(all.skip(0) =~= all);
        assert(all.take(0) =~= Seq::<AbortOnDropHandle<T>>::empty());
        while i < size_before
            invariant
                size_before == all.len(),
                finished@.len() == size_before,
                flags == unfinished_flags(finished@),
                i <= size_before,
                self.max_size == old(self).max_size,
                all == old(self).inner@,
                self.inner@ == all.skip(i as int) + select_kept(all.take(i as int), flags.take(i as int)),
            decreases size_before - i,
        {
            let ghost before = self.inner@;
            let ghost kept = select_kept(all.take(i as int), flags.take(i as int));
            assert(before[0] == all[i as int]);
            let handle = self.inner.pop_front().unwrap();
            let done = finished[i];
            if !done {
                self.inner.push_back(handle);
            }
            proof {
                assert(all.take(i + 1).drop_last() =~= all.take(i as int));
                assert(all.take(i + 1).last() == all[i as int]);
                assert(flags.take(i + 1).drop_last() =~= flags.take(i as int));
                assert(flags.take(i + 1).last() == !done);
                assert(before.subrange(1, before.len() as int) =~= all.skip(i + 1) + kept);
                if done {
                    assert(select_kept(all.take(i + 1), flags.take(i + 1)) == kept);
                    assert(self.inner@ =~= all.skip(i + 1) + select_kept(all.take(i + 1), flags.take(i + 1)));
                } else {
                    assert(select_kept(all.take(i + 1), flags.take(i + 1)) == kept.push(all[i as int]));
                    assert(self.inner@ =~= all.skip(i + 1) + select_kept(all.take(i + 1), flags.take(i + 1)));
                }
            }
            i = i + 1;
        }
        proof {
            assert(all.take(i as int) =~= all);
            assert(flags.take(i as int) =~= flags);
            assert(all.skip(i as int) =~= Seq::<AbortOnDropHandle<T>>::empty());
            assert(self.inner@ =~= select_kept(all, flags));
            lemma_select_kept_len(all, flags);
        }
        size_before - self.inner.len()
    }

    /// Prune any finished tasks from the pool, returning how many were pruned.
    /// Each task is asked whether it has finished, in order; the finished ones
    /// are dropped and the others keep their order. Which tasks have finished
    /// is up to the scheduler.
    pub fn prune(&mut self) -> (pruned: usize)
        ensures
            final(self).max_size == old(self).max_size,
            old(self).wf() ==> final(self).wf(),
            is_pruned_from(final(self).inner@, old(self).inner@),
            pruned == old(self).inner@.len() - final(self).inner@.len(),
            // exactly the tasks that answered that they had finished are dropped
            exists|answers: Seq<bool>|
                answers_of_tasks(old(self).inner@, answers) && final(self).inner@ == select_kept(
                    old(self).inner@,
                    unfinished_flags(answers),
                ),
    {
        let finished = self.finished_flags();
        let pruned = self.retain_unfinished(&finished);
        assert(unfinished_flags(finished@).len() == old(self).inner@.len());
        assert(answers_of_tasks(old(self).inner@, finished@));
        pruned
    }

    /// Insert a new task into the pool, given which of its tasks have finished
    /// (`finished` holds one flag per task, in the pool's order). A pool that
    /// is not full takes the task. A full pool first drops its finished tasks;
    /// it then takes the task if that made room, and refuses it otherwise.
    pub fn insert_given(&mut self, item: AbortOnDropHandle<T>, finished: &Vec<bool>) -> (r: Result<(), FuturePoolError>)
        requires
            finished@.len() == old(self).inner@.len(),
        ensures
            final(self).max_size == old(self).max_size,
            old(self).wf() ==> final(self).wf(),
            old(self).inner@.len() < old(self).max_size ==> r is Ok && final(self).inner@ == old(self).inner@.push(item),
            old(self).inner@.len() >= old(self).max_size ==> {
                let kept = select_kept(old(self).inner@, unfinished_flags(finished@));
                if kept.len() < old(self).max_size {
                    r is Ok && final(self).inner@ == kept.push(item)
                } else {
                    r is Err && final(self).inner@ == kept
                }
            },
    {
        if self.is_full() {
            self.retain_unfinished(finished);
            if self.is_full() {
                return Err(FuturePoolError::PoolFull);
            }
        }
        self.inner.push_back(item);
        Ok(())
    }

    /// Insert a new task into the pool. This will error if the pool is full
    /// of futures that are all still running: a full pool asks each task, in
    /// order, whether it has finished, and goes on as
    /// [`FuturePool::insert_given`] does with those answers.
    pub fn insert(&mut self, item: AbortOnDropHandle<T>) -> (r: Result<(), FuturePoolError>)
        ensures
            final(self).max_size == old(self).max_size,
            old(self).wf() ==> final(self).wf(),
            old(self).inner@.len() < old(self).max_size ==> r is Ok && final(self).inner@ == old(self).inner@.push(item),
            r is Ok ==> exists|pruned: Seq<AbortOnDropHandle<T>>|
                is_pruned_from(pruned, old(self).inner@) && pruned.len() < old(self).max_size
                    && final(self).inner@ == pruned.push(item),
            r is Err ==> is_pruned_from(final(self).inner@, old(self).inner@) && final(self).inner@.len() >= final(self).max_size,
            // a full pool drops exactly the tasks that answered that they had
            // finished, and refuses the new task only if none did
            old(self).inner@.len() >= old(self).max_size ==> exists|answers: Seq<bool>|
                answers_of_tasks(old(self).inner@, answers) && {
                    let kept = select_kept(old(self).inner@, unfinished_flags(answers));
                    if kept.len() < old(self).max_size {
                        r is Ok && final(self).inner@ == kept.push(item)
                    } else {
                        r is Err && final(self).inner@ == kept
                    }
                },
            // it refuses the task only if every task answered that it was still running
            old(self).wf() && r is Err ==> exists|answers: Seq<bool>|
                answers_of_tasks(old(self).inner@, answers) && forall|i: int|
                    0 <= i < answers.len() ==> !#[trigger] answers[i],
    {
        if !self.is_full() {
            self.inner.push_back(item);
            proof {
                lemma_keep_all(old(self).inner@);
            }
            return Ok(());
        }
        let finished = self.finished_flags();
        let ghost keep = unfinished_flags(finished@);
        let r = self.insert_given(item, &finished);
        proof {
            let kept = select_kept(old(self).inner@, keep);
            assert(keep.len() == old(self).inner@.len());
            assert(is_pruned_from(kept, old(self).inner@));
            assert(answers_of_tasks(old(self).inner@, finished@));
            if old(self).wf() && r is Err {
                lemma_select_kept_all(old(self).inner@, keep);
                assert forall|i: int| 0 <= i < finished@.len() implies !#[trigger] finished@[i] by {
                    assert(keep[i] == !finished@[i]);
                }
            }
        }
        r
    }

    /// Asks each task of the pool, in order, whether it has finished.
    fn finished_flags(&self) -> (finished: Vec<bool>)
        ensures
            answers_of_tasks(self.inner@, finished@),
    {
        let mut finished: Vec<bool> = Vec::new();
        let mut i: usize = 0;
        while i < self.inner.len()
            invariant
                i <= self.inner@.len(),
                finished@.len() == i,
                forall|j: int| 0 <= j < i ==> is_answer_of(self.inner@[j], #[trigger] finished@[j]),
            decreases self.inner@.len() - i,
        {
            let answer = task_is_finished(&self.inner[i]);
            assert(is_answer_of(self.inner@[i as int], answer));
            finished.push(answer);
            i = i + 1;
        }
        finished
    }
}

/// The number of tasks in all the pools of a map.
pub open spec fn total_tasks<K, T>(m: Map<K, FuturePool<T>>) -> nat
    decreases m.dom().len(),
{
    if m.dom().finite() && m.dom().len() > 0 {
        let k = m.dom().choose();
        m[k].inner@.len() + total_tasks(m.remove(k))
    } else {
        0
    }
}

/// The total counts any one pool together with the others.
pub proof fn lemma_total_tasks_remove<K, T>(m: Map<K, FuturePool<T>>, k: K)
    requires
        m.dom().finite(),
        m.contains_key(k),
    ensures
        total_tasks(m) == m[k].inner@.len() + total_tasks(m.remove(k)),
    decreases m.dom().len(),
{
    let c = m.dom().choose();
    if c != k {
        lemma_total_tasks_remove(m.remove(c), k);
        lemma_total_tasks_remove(m.remove(k), c);
        assert(m.remove(c).remove(k) =~= m.remove(k).remove(c));
    }
}

/// Putting a pool under a key replaces what the total counted for that key.
pub proof fn lemma_total_tasks_insert<K, T>(m: Map<K, FuturePool<T>>, k: K, p: FuturePool<T>)
    requires
        m.dom().finite(),
    ensures
        total_tasks(m.insert(k, p)) == p.inner@.len() + total_tasks(m.remove(k)),
{
    lemma_total_tasks_remove(m.insert(k, p), k);
    assert(m.insert(k, p).remove(k) =~= m.remove(k));
}

/// A map with no pools holds no tasks.
pub proof fn lemma_total_tasks_empty<K, T>(m: Map<K, FuturePool<T>>)
    requires
        m.dom() == Set::<K>::empty(),
    ensures
        total_tasks(m) == 0,
{
}

/// Calls `Vec::from_iter` on a `HashMap`. Trusted: as std documents for the
/// map's owning iterator, the result holds every key-value pair of the map
/// once, in an arbitrary order (so each key once).
#[verifier::external_body]
fn hash_map_entries<K: Eq + Hash, V>(map: HashMap<K, V>) -> (entries: Vec<(K, V)>)
    ensures
        obeys_key_model::<K>() ==> {
            &&& forall|i: int, j: int|
                0 <= i < j < entries@.len() ==> (#[trigger] entries@[i]).0 != (#[trigger] entries@[j]).0
            &&& forall|i: int|
                0 <= i < entries@.len() ==> map@.contains_key((#[trigger] entries@[i]).0) && map@[entries@[i].0]
                    == entries@[i].1
            &&& forall|k: K| #[trigger]
                map@.contains_key(k) ==> exists|i: int| 0 <= i < entries@.len() && (#[trigger] entries@[i]).0 == k
        },
{
    Vec::from_iter(map)
}

/// The errors of inserting into a keyed future pool.
#[derive(Debug)]
pub enum KeyedFuturePoolError {
    /// the global pool is full
    GlobalPoolFull,
    /// the pool for the given key is full
    PerKeyPoolFull,
}

/// The tasks under a key, none if there is no pool for it.
pub open spec fn tasks_of<K, T>(m: Map<K, FuturePool<T>>, k: K) -> Seq<AbortOnDropHandle<T>> {
    if m.contains_key(k) {
        m[k].inner@
    } else {
        Seq::empty()
    }
}

/// The tasks under a key that had not finished, by the answers `finished`
/// holds for that key's pool (one per task, in order).
pub open spec fn kept_tasks<K, T>(m: Map<K, FuturePool<T>>, finished: Map<K, Vec<bool>>, k: K) -> Seq<
    AbortOnDropHandle<T>,
> {
    select_kept(tasks_of(m, k), unfinished_flags(finished[k]@))
}

/// Whether `finished` holds one answer per task for every pool of `m`.
pub open spec fn answers_every_task<K, T>(m: Map<K, FuturePool<T>>, finished: Map<K, Vec<bool>>) -> bool {
    forall|k: K| #[trigger] m.contains_key(k) ==> finished.contains_key(k) && finished[k]@.len() == m[k].inner@.len()
}

/// Whether `finished` holds, for every pool of `m`, the answers its tasks
/// gave, in order, when asked whether they had finished.
pub open spec fn answers_given_by_tasks<K, T>(m: Map<K, FuturePool<T>>, finished: Map<K, Vec<bool>>) -> bool {
    forall|k: K| #[trigger] m.contains_key(k) ==> finished.contains_key(k) && answers_of_tasks(m[k].inner@, finished[k]@)
}

/// The number of tasks in all the pools of a map that had not finished.
pub open spec fn unfinished_total<K, T>(m: Map<K, FuturePool<T>>, finished: Map<K, Vec<bool>>) -> nat
    decreases m.dom().len(),
{
    if m.dom().finite() && m.dom().len() > 0 {
        let k = m.dom().choose();
        kept_tasks(m, finished, k).len() + unfinished_total(m.remove(k), finished)
    } else {
        0
    }
}

/// The unfinished total counts any one pool together with the others.
pub proof fn lemma_unfinished_total_remove<K, T>(m: Map<K, FuturePool<T>>, finished: Map<K, Vec<bool>>, k: K)
    requires
        m.dom().finite(),
        m.contains_key(k),
    ensures
        unfinished_total(m, finished) == kept_tasks(m, finished, k).len() + unfinished_total(m.remove(k), finished),
    decreases m.dom().len(),
{
    let c = m.dom().choose();
    if c != k {
        lemma_unfinished_total_remove(m.remove(c), finished, k);
        lemma_unfinished_total_remove(m.remove(k), finished, c);
        assert(m.remove(c).remove(k) =~= m.remove(k).remove(c));
        assert(kept_tasks(m.remove(c), finished, k) == kept_tasks(m, finished, k));
        assert(kept_tasks(m.remove(k), finished, c) == kept_tasks(m, finished, c));
    }
}

/// The unfinished total reads only the answers for the pools of the map.
pub proof fn lemma_unfinished_total_same_answers<K, T>(
    m: Map<K, FuturePool<T>>,
    f1: Map<K, Vec<bool>>,
    f2: Map<K, Vec<bool>>,
)
    requires
        forall|k: K| #[trigger] m.contains_key(k) ==> f1[k]@ == f2[k]@,
    ensures
        unfinished_total(m, f1) == unfinished_total(m, f2),
    decreases m.dom().len(),
{
    if m.dom().finite() && m.dom().len() > 0 {
        let k = m.dom().choose();
        lemma_unfinished_total_same_answers(m.remove(k), f1, f2);
    }
}

/// The tasks under a key once finished tasks are dropped, from all pools when
/// `prune_all` holds and from none otherwise.
pub open spec fn tasks_after_global_prune<K, T>(
    m: Map<K, FuturePool<T>>,
    finished: Map<K, Vec<bool>>,
    prune_all: bool,
    k: K,
) -> Seq<AbortOnDropHandle<T>> {
    if prune_all {
        kept_tasks(m, finished, k)
    } else {
        tasks_of(m, k)
    }
}

/// What inserting `item` under `key` into the pools `old_pools` does, given
/// the answers `finished` of every task to whether it had finished:
/// - a full global pool drops the finished tasks of every pool, and refuses
///   the item if the unfinished tasks still fill it;
/// - then a full pool for the key drops its finished tasks, and refuses the
///   item if its unfinished tasks still fill it;
/// - otherwise the item is last in the key's pool.
pub open spec fn keyed_insert_outcome<K, T>(
    old_pools: Map<K, FuturePool<T>>,
    old_size: nat,
    max_size: nat,
    max_size_per_key: nat,
    finished: Map<K, Vec<bool>>,
    key: K,
    item: AbortOnDropHandle<T>,
    new_pools: Map<K, FuturePool<T>>,
    r: Result<(), KeyedFuturePoolError>,
) -> bool {
    let prune_all = old_size >= max_size;
    let base = tasks_after_global_prune(old_pools, finished, prune_all, key);
    let kept = kept_tasks(old_pools, finished, key);
    if prune_all && unfinished_total(old_pools, finished) >= max_size {
        &&& r matches Err(KeyedFuturePoolError::GlobalPoolFull)
        &&& forall|k: K| #[trigger] tasks_of(new_pools, k) == kept_tasks(old_pools, finished, k)
    } else {
        &&& forall|k: K|
            k != key ==> #[trigger] tasks_of(new_pools, k) == tasks_after_global_prune(
                old_pools,
                finished,
                prune_all,
                k,
            )
        &&& if base.len() < max_size_per_key {
            r is Ok && tasks_of(new_pools, key) == base.push(item)
        } else if kept.len() < max_size_per_key {
            r is Ok && tasks_of(new_pools, key) == kept.push(item)
        } else {
            r matches Err(KeyedFuturePoolError::PerKeyPoolFull) && tasks_of(new_pools, key) == kept
        }
    }
}

/// The pools of a map whose pools carry the answers of their tasks.
pub open spec fn pools_of<K, T>(o: Map<K, (FuturePool<T>, Vec<bool>)>) -> Map<K, FuturePool<T>> {
    o.map_values(|e: (FuturePool<T>, Vec<bool>)| e.0)
}

/// The answers carried by the pools of such a map.
pub open spec fn answers_of<K, T>(o: Map<K, (FuturePool<T>, Vec<bool>)>) -> Map<K, Vec<bool>> {
    o.map_values(|e: (FuturePool<T>, Vec<bool>)| e.1)
}

/// Takes the pools out of `map`, each paired with the answers of its tasks,
/// in order, to whether they have finished: asked of the tasks themselves,
/// or read from `given`.
fn observe_pools<K: Eq + Hash, T>(
    map: HashMap<K, FuturePool<T>>,
    given: Option<&HashMap<K, Vec<bool>>>,
) -> (observed: HashMap<K, (FuturePool<T>, Vec<bool>)>)
    requires
        obeys_key_model::<K>(),
        given matches Some(f) ==> answers_every_task(map@, f@),
    ensures
        pools_of(observed@) == map@,
        answers_every_task(pools_of(observed@), answers_of(observed@)),
        given matches Some(f) ==> forall|k: K| #[trigger] map@.contains_key(k) ==> observed@[k].1@ == f@[k]@,
        given is None ==> forall|k: K| #[trigger] map@.contains_key(k) ==> answers_of_tasks(
            map@[k].inner@,
            observed@[k].1@,
        ),
{
    let ghost old_map = map@;
    let mut entries = hash_map_entries(map);
    let mut observed: HashMap<K, (FuturePool<T>, Vec<bool>)> = HashMap::new();
    let ghost mut rest = old_map;
    while entries.len() > 0
        invariant
            obeys_key_model::<K>(),
            given matches Some(f) ==> answers_every_task(old_map, f@),
            rest.dom().finite(),
            forall|i: int, j: int|
                0 <= i < j < entries@.len() ==> (#[trigger] entries@[i]).0 != (#[trigger] entries@[j]).0,
            forall|i: int|
                0 <= i < entries@.len() ==> rest.contains_key((#[trigger] entries@[i]).0) && rest[entries@[i].0]
                    == entries@[i].1,
            forall|k: K| #[trigger]
                rest.contains_key(k) ==> exists|i: int| 0 <= i < entries@.len() && (#[trigger] entries@[i]).0 == k,
            forall|k: K| #[trigger] rest.contains_key(k) ==> old_map.contains_key(k) && rest[k] == old_map[k],
            forall|k: K| #[trigger] observed@.contains_key(k) ==> !rest.contains_key(k) && old_map.contains_key(k)
                && observed@[k].0 == old_map[k] && observed@[k].1@.len() == old_map[k].inner@.len()
                && (given matches Some(f) ==> observed@[k].1@ == f@[k]@)
                && (given is None ==> answers_of_tasks(old_map[k].inner@, observed@[k].1@)),
            forall|k: K| #[trigger] old_map.contains_key(k) ==> rest.contains_key(k) || observed@.contains_key(k),
        decreases entries.len(),
    {
        let ghost before = entries@;
        let (key, pool) = entries.pop().unwrap();
        proof {
            assert(rest.contains_key(key) && rest[key] == pool);
            let new_rest = rest.remove(key);
            assert forall|k: K| #[trigger] new_rest.contains_key(k) implies exists|i: int|
                0 <= i < entries@.len() && (#[trigger] entries@[i]).0 == k by {
                assert(rest.contains_key(k) && k != key);
                let i = choose|i: int| 0 <= i < before.len() && (#[trigger] before[i]).0 == k;
                assert(entries@[i] == before[i]);
            }
            rest = new_rest;
        }
        let flags = match given {
            Some(f) => {
                let answers = f.get(&key).unwrap();
                let mut copy: Vec<bool> = Vec::new();
                let mut i: usize = 0;
                while i < answers.len()
                    invariant
                        i <= answers@.len(),
                        copy@ == answers@.take(i as int),
                    decreases answers@.len() - i,
                {
                    copy.push(answers[i]);
                    i = i + 1;
                    assert(copy@ =~= answers@.take(i as int));
                }
                assert(answers@.take(i as int) =~= answers@);
                copy
            },
            None => pool.finished_flags(),
        };
        observed.insert(key, (pool, flags));
    }
    proof {
        assert(pools_of(observed@) =~= old_map);
    }
    observed
}

/// The state of a keyed future pool.
#[verifier::reject_recursive_types(K)]
#[verifier::reject_recursive_types(T)]
struct KeyedPoolState<K: Eq + Hash, T> {
    /// The map of keys to their future pools
    map: HashMap<K, FuturePool<T>>,
    /// The current size of the global pool (all keys combined)
    current_size: usize,
    /// The maximum number of tasks that can be in the global pool at any given time
    max_size: usize,
    /// The maximum size that a single key's pool can grow to
    max_size_per_key: usize,
}

impl<K: Eq + Hash, T> KeyedPoolState<K, T> {
    /// Whether the current size counts the tasks of all pools and is within
    /// the global maximum, and every pool has the per-key maximum size and is
    /// within it.
    spec fn wf(&self) -> bool {
        &&& self.current_size == total_tasks(self.map@)
        &&& self.current_size <= self.max_size
        &&& forall|k: K| #[trigger] self.map@.contains_key(k) ==> self.map@[k].max_size == self.max_size_per_key
            && self.map@[k].wf()
    }

    /// An empty state with the given maximums.
    fn new(max_size: usize, max_size_per_key: usize) -> (p: Self)
        ensures
            p.wf(),
            p.map@ == Map::<K, FuturePool<T>>::empty(),
            p.max_size == max_size,
            p.max_size_per_key == max_size_per_key,
    {
        let p = Self { map: HashMap::new(), max_size, current_size: 0, max_size_per_key };
        proof {
            lemma_total_tasks_empty(p.map@);
        }
        p
    }

    /// Insert a new task under `key` into the pools of `observed`, each paired
    /// with the answers of its tasks to whether they had finished; the state's
    /// own map is empty on entry and holds the pools on return.
    fn insert_observed(
        &mut self,
        key: K,
        item: AbortOnDropHandle<T>,
        observed: HashMap<K, (FuturePool<T>, Vec<bool>)>,
    ) -> (r: Result<(), KeyedFuturePoolError>)
        requires
            obeys_key_model::<K>(),
            old(self).map@ == Map::<K, FuturePool<T>>::empty(),
            old(self).current_size == total_tasks(pools_of(observed@)),
            old(self).current_size <= old(self).max_size,
            forall|k: K| #[trigger] observed@.contains_key(k) ==> observed@[k].0.max_size == old(self).max_size_per_key
                && observed@[k].0.wf(),
            answers_every_task(pools_of(observed@), answers_of(observed@)),
        ensures
            final(self).wf(),
            final(self).max_size == old(self).max_size,
            final(self).max_size_per_key == old(self).max_size_per_key,
            keyed_insert_outcome(
                pools_of(observed@),
                old(self).current_size as nat,
                old(self).max_size as nat,
                old(self).max_size_per_key as nat,
                answers_of(observed@),
                key,
                item,
                final(self).map@,
                r,
            ),
    {
        let ghost all = observed@;
        let ghost pools = pools_of(observed@);
        let ghost answers = answers_of(observed@);
        let ghost start_size = self.current_size;
        let prune_all = self.current_size >= self.max_size;
        let mut observed = observed;
        let key_entry = observed.remove(&key);
        let ghost others = observed@;
        proof {
            assert(pools.dom() =~= all.dom());
            assert(others == all.remove(key));
            assert(pools_of(others) =~= pools.remove(key));
            if pools.contains_key(key) {
                lemma_total_tasks_remove(pools, key);
                lemma_unfinished_total_remove(pools, answers, key);
            } else {
                assert(pools.remove(key) =~= pools);
            }
        }
        let mut entries = hash_map_entries(observed);
        let mut map: HashMap<K, FuturePool<T>> = HashMap::new();
        let ghost mut rest = others;
        proof {
            lemma_total_tasks_empty(map@);
        }
        while entries.len() > 0
            invariant
                obeys_key_model::<K>(),
                prune_all == (start_size >= self.max_size),
                self.max_size == old(self).max_size,
                self.max_size_per_key == old(self).max_size_per_key,
                start_size <= self.max_size,
                pools == pools_of(all),
                answers == answers_of(all),
                others == all.remove(key),
                forall|k: K| #[trigger] all.contains_key(k) ==> all[k].0.max_size == self.max_size_per_key
                    && all[k].0.wf(),
                answers_every_task(pools, answers),
                rest.dom().finite(),
                map@.dom().finite(),
                forall|i: int, j: int|
                    0 <= i < j < entries@.len() ==> (#[trigger] entries@[i]).0 != (#[trigger] entries@[j]).0,
                forall|i: int|
                    0 <= i < entries@.len() ==> rest.contains_key((#[trigger] entries@[i]).0) && rest[entries@[i].0]
                        == entries@[i].1,
                forall|k: K| #[trigger]
                    rest.contains_key(k) ==> exists|i: int| 0 <= i < entries@.len() && (#[trigger] entries@[i]).0 == k,
                forall|k: K| #[trigger] rest.contains_key(k) ==> others.contains_key(k) && rest[k] == others[k],
                forall|k: K| #[trigger] map@.contains_key(k) ==> !rest.contains_key(k) && k != key && pools.contains_key(k)
                    && map@[k].inner@ == tasks_after_global_prune(pools, answers, prune_all, k)
                    && map@[k].max_size == self.max_size_per_key && map@[k].wf(),
                forall|k: K| #[trigger] pools.contains_key(k) && k != key ==> rest.contains_key(k) || map@.contains_key(k)
                    || (prune_all && kept_tasks(pools, answers, k).len() == 0),
                self.current_size == total_tasks(map@) + total_tasks(pools_of(rest)) + tasks_of(pools, key).len(),
                self.current_size <= start_size,
                prune_all ==> total_tasks(map@) + unfinished_total(pools_of(rest), answers) == unfinished_total(
                    pools_of(others),
                    answers,
                ),
            decreases entries.len(),
        {
            let ghost before = entries@;
            let ghost map_before = map@;
            let (k, entry) = entries.pop().unwrap();
            let (mut pool, flags) = entry;
            proof {
                assert(rest.contains_key(k) && rest[k] == (pool, flags));
                assert(pools.contains_key(k) && pools[k] == pool && answers[k] == flags);
                let new_rest = rest.remove(k);
                assert forall|j: K| #[trigger] new_rest.contains_key(j) implies exists|i: int|
                    0 <= i < entries@.len() && (#[trigger] entries@[i]).0 == j by {
                    assert(rest.contains_key(j) && j != k);
                    let i = choose|i: int| 0 <= i < before.len() && (#[trigger] before[i]).0 == j;
                    assert(entries@[i] == before[i]);
                }
                assert(pools_of(rest).dom() =~= rest.dom());
                lemma_total_tasks_remove(pools_of(rest), k);
                lemma_unfinished_total_remove(pools_of(rest), answers, k);
                assert(pools_of(rest).remove(k) =~= pools_of(new_rest));
                assert(kept_tasks(pools_of(rest), answers, k) == kept_tasks(pools, answers, k));
                rest = new_rest;
                assert(!map_before.contains_key(k));
            }
            if prune_all {
                let pruned = pool.retain_unfinished(&flags);
                self.current_size = self.current_size - pruned;
                if !pool.is_empty() {
                    map.insert(k, pool);
                    proof {
                        lemma_total_tasks_insert(map_before, k, pool);
                        assert(map_before.remove(k) =~= map_before);
                    }
                }
            } else {
                map.insert(k, pool);
                proof {
                    lemma_total_tasks_insert(map_before, k, pool);
                    assert(map_before.remove(k) =~= map_before);
                }
            }
        }
        proof {
            assert(rest.dom() =~= Set::<K>::empty());
            assert(pools_of(rest).dom() =~= Set::<K>::empty());
            lemma_total_tasks_empty(pools_of(rest));
        }
        let ghost map_rest = map@;
        let (mut pool, flags) = match key_entry {
            Some(e) => e,
            None => (FuturePool::new(self.max_size_per_key), Vec::new()),
        };
        proof {
            assert(pool.inner@ == tasks_of(pools, key));
            assert(select_kept(pool.inner@, unfinished_flags(flags@)) == kept_tasks(pools, answers, key));
            assert(flags@.len() == pool.inner@.len());
            assert(!map_rest.contains_key(key));
            assert(map_rest.remove(key) =~= map_rest);
        }
        if prune_all {
            let pruned = pool.retain_unfinished(&flags);
            self.current_size = self.current_size - pruned;
            if self.current_size >= self.max_size {
                if !pool.is_empty() {
                    map.insert(key, pool);
                    proof {
                        lemma_total_tasks_insert(map_rest, key, pool);
                    }
                }
                self.map = map;
                proof {
                    self.lemma_outcome_tasks(pools, answers, key, prune_all, map_rest);
                    assert forall|k: K| #[trigger] tasks_of(self.map@, k) == kept_tasks(pools, answers, k) by {
                        if k == key && pool.inner@.len() == 0 {
                            assert(tasks_of(self.map@, k) =~= pool.inner@);
                        }
                    }
                }
                return Err(KeyedFuturePoolError::GlobalPoolFull);
            }
            if pool.is_full() {
                map.insert(key, pool);
                proof {
                    lemma_total_tasks_insert(map_rest, key, pool);
                }
                self.map = map;
                proof {
                    self.lemma_outcome_tasks(pools, answers, key, prune_all, map_rest);
                }
                return Err(KeyedFuturePoolError::PerKeyPoolFull);
            }
        } else {
            if pool.is_full() {
                let pruned = pool.retain_unfinished(&flags);
                self.current_size = self.current_size - pruned;
                if pool.is_full() {
                    map.insert(key, pool);
                    proof {
                        lemma_total_tasks_insert(map_rest, key, pool);
                    }
                    self.map = map;
                    proof {
                        self.lemma_outcome_tasks(pools, answers, key, prune_all, map_rest);
                    }
                    return Err(KeyedFuturePoolError::PerKeyPoolFull);
                }
            }
        }
        pool.inner.push_back(item);
        self.current_size = self.current_size + 1;
        map.insert(key, pool);
        proof {
            lemma_total_tasks_insert(map_rest, key, pool);
        }
        self.map = map;
        proof {
            self.lemma_outcome_tasks(pools, answers, key, prune_all, map_rest);
        }
        Ok(())
    }

    /// The pools other than the key's, as `insert_observed` leaves them.
    proof fn lemma_outcome_tasks(
        &self,
        pools: Map<K, FuturePool<T>>,
        answers: Map<K, Vec<bool>>,
        key: K,
        prune_all: bool,
        map_rest: Map<K, FuturePool<T>>,
    )
        requires
            !map_rest.contains_key(key),
            forall|k: K| #[trigger] map_rest.contains_key(k) ==> k != key && pools.contains_key(k)
                && map_rest[k].inner@ == tasks_after_global_prune(pools, answers, prune_all, k),
            forall|k: K| #[trigger] pools.contains_key(k) && k != key ==> map_rest.contains_key(k)
                || (prune_all && kept_tasks(pools, answers, k).len() == 0),
            self.map@ == map_rest || exists|p: FuturePool<T>| self.map@ == map_rest.insert(key, p),
        ensures
            forall|k: K|
                k != key ==> #[trigger] tasks_of(self.map@, k) == tasks_after_global_prune(pools, answers, prune_all, k),
    {
        assert forall|k: K|
            k != key implies #[trigger] tasks_of(self.map@, k) == tasks_after_global_prune(pools, answers, prune_all, k) by {
            assert(self.map@.contains_key(k) == map_rest.contains_key(k));
            if map_rest.contains_key(k) {
                assert(self.map@[k] == map_rest[k]);
            } else if !pools.contains_key(k) {
                assert(tasks_of(pools, k) =~= Seq::<AbortOnDropHandle<T>>::empty());
            }
        }
    }

    /// Insert a new task into the pool for the given key. Each task is asked
    /// whether it has finished, and the insert goes on as
    /// [`KeyedPoolState::insert_given`] does with those answers.
    fn insert(&mut self, key: K, item: AbortOnDropHandle<T>) -> (r: Result<(), KeyedFuturePoolError>)
        requires
            old(self).wf(),
            obeys_key_model::<K>(),
        ensures
            final(self).wf(),
            final(self).max_size == old(self).max_size,
            final(self).max_size_per_key == old(self).max_size_per_key,
            exists|finished: Map<K, Vec<bool>>|
                answers_given_by_tasks(old(self).map@, finished) && keyed_insert_outcome(
                    old(self).map@,
                    old(self).current_size as nat,
                    old(self).max_size as nat,
                    old(self).max_size_per_key as nat,
                    finished,
                    key,
                    item,
                    final(self).map@,
                    r,
                ),
    {
        let mut map: HashMap<K, FuturePool<T>> = HashMap::new();
        std::mem::swap(&mut map, &mut self.map);
        proof {
            lemma_total_tasks_empty(self.map@);
        }
        let observed = observe_pools(map, None);
        proof {
            assert forall|k: K| #[trigger] observed@.contains_key(k) implies observed@[k].0.max_size
                == self.max_size_per_key && observed@[k].0.wf() by {
                assert(pools_of(observed@).contains_key(k));
                assert(pools_of(observed@)[k] == observed@[k].0);
                assert(old(self).map@.contains_key(k));
            }
        }
        let r = self.insert_observed(key, item, observed);
        proof {
            assert(answers_given_by_tasks(old(self).map@, answers_of(observed@)));
        }
        r
    }

    /// Insert a new task into the pool for the given key, given the answers
    /// of every task to whether it has finished (one per task of each pool, in
    /// the pool's order). This will error if either:
    /// - The global pool is full of unfinished tasks
    /// - The per-key pool is full of unfinished tasks for the given key
    ///
    /// A full global pool first drops the finished tasks of every pool (and
    /// the pools left empty); a full pool for the key drops its own.
    fn insert_given(
        &mut self,
        key: K,
        item: AbortOnDropHandle<T>,
        finished: &HashMap<K, Vec<bool>>,
    ) -> (r: Result<(), KeyedFuturePoolError>)
        requires
            old(self).wf(),
            obeys_key_model::<K>(),
            answers_every_task(old(self).map@, finished@),
        ensures
            final(self).wf(),
            final(self).max_size == old(self).max_size,
            final(self).max_size_per_key == old(self).max_size_per_key,
            keyed_insert_outcome(
                old(self).map@,
                old(self).current_size as nat,
                old(self).max_size as nat,
                old(self).max_size_per_key as nat,
                finished@,
                key,
                item,
                final(self).map@,
                r,
            ),
    {
        let mut map: HashMap<K, FuturePool<T>> = HashMap::new();
        std::mem::swap(&mut map, &mut self.map);
        proof {
            lemma_total_tasks_empty(self.map@);
        }
        let observed = observe_pools(map, Some(finished));
        proof {
            assert forall|k: K| #[trigger] observed@.contains_key(k) implies observed@[k].0.max_size
                == self.max_size_per_key && observed@[k].0.wf() by {
                assert(pools_of(observed@).contains_key(k));
                assert(pools_of(observed@)[k] == observed@[k].0);
                assert(old(self).map@.contains_key(k));
            }
        }
        let r = self.insert_observed(key, item, observed);
        proof {
            let pools = old(self).map@;
            let seen = answers_of(observed@);
            assert forall|k: K| #[trigger] pools.contains_key(k) implies seen[k]@ == finished@[k]@ by {
                assert(observed@.contains_key(k));
            }
            lemma_unfinished_total_same_answers(pools, seen, finished@);
            lemma_outcome_same_answers(
                pools,
                old(self).current_size as nat,
                old(self).max_size as nat,
                old(self).max_size_per_key as nat,
                seen,
                finished@,
                key,
                item,
                self.map@,
                r,
            );
        }
        r
    }
}

/// The outcome of an insert reads only the answers for the pools there are.
proof fn lemma_outcome_same_answers<K, T>(
    old_pools: Map<K, FuturePool<T>>,
    old_size: nat,
    max_size: nat,
    max_size_per_key: nat,
    f1: Map<K, Vec<bool>>,
    f2: Map<K, Vec<bool>>,
    key: K,
    item: AbortOnDropHandle<T>,
    new_pools: Map<K, FuturePool<T>>,
    r: Result<(), KeyedFuturePoolError>,
)
    requires
        forall|k: K| #[trigger] old_pools.contains_key(k) ==> f1[k]@ == f2[k]@,
        unfinished_total(old_pools, f1) == unfinished_total(old_pools, f2),
        keyed_insert_outcome(old_pools, old_size, max_size, max_size_per_key, f1, key, item, new_pools, r),
    ensures
        keyed_insert_outcome(old_pools, old_size, max_size, max_size_per_key, f2, key, item, new_pools, r),
{
    assert forall|k: K| #[trigger] kept_tasks(old_pools, f1, k) == kept_tasks(old_pools, f2, k) by {
        if !old_pools.contains_key(k) {
            assert(tasks_of(old_pools, k).len() == 0);
        }
    }
    let prune_all = old_size >= max_size;
    assert forall|k: K|
        #[trigger] tasks_after_global_prune(old_pools, f1, prune_all, k) == tasks_after_global_prune(
            old_pools,
            f2,
            prune_all,
            k,
        ) by {
        assert(kept_tasks(old_pools, f1, k) == kept_tasks(old_pools, f2, k));
    }
}

/// A way to bound the number of tasks that can be running for a given key
/// simultaneously.
#[verifier::reject_recursive_types(K)]
#[verifier::reject_recursive_types(T)]
pub struct KeyedFuturePool<K: Eq + Hash, T> {
    state: KeyedPoolState<K, T>,
}

impl<K: Eq + Hash, T> KeyedFuturePool<K, T> {
    /// The current size counts the tasks of all pools and is within the
    /// global maximum; every pool has the per-key maximum size and is within it.
    #[verifier::type_invariant]
    spec fn inv(self) -> bool {
        self.state.wf()
    }

    /// The pools, by key.
    pub closed spec fn pools(self) -> Map<K, FuturePool<T>> {
        self.state.map@
    }

    /// The current size of the global pool (all keys combined).
    pub closed spec fn size(self) -> nat {
        self.state.current_size as nat
    }

    /// The maximum number of tasks in the global pool.
    pub closed spec fn max_size(self) -> nat {
        self.state.max_size as nat
    }

    /// The maximum number of tasks in the pool of one key.
    pub closed spec fn max_size_per_key(self) -> nat {
        self.state.max_size_per_key as nat
    }

    /// The bounds that every keyed pool keeps: the current size counts the
    /// tasks of all pools and is within the global maximum, and every pool has
    /// the per-key maximum size and is within it.
    pub open spec fn within_bounds(self) -> bool {
        &&& self.size() == total_tasks(self.pools())
        &&& self.size() <= self.max_size()
        &&& forall|k: K| #[trigger] self.pools().contains_key(k) ==> self.pools()[k].max_size == self.max_size_per_key()
            && self.pools()[k].wf()
    }

    /// Create a new keyed bounded future pool with the given maximums.
    pub fn new(max_size: usize, max_size_per_key: usize) -> (p: Self)
        ensures
            p.within_bounds(),
            p.pools() == Map::<K, FuturePool<T>>::empty(),
            p.size() == 0,
            p.max_size() == max_size,
            p.max_size_per_key() == max_size_per_key,
    {
        KeyedFuturePool { state: KeyedPoolState::new(max_size, max_size_per_key) }
    }

    /// The current size of the global pool (all keys combined).
    pub fn current_size(&self) -> (n: usize)
        ensures
            n == self.size(),
    {
        self.state.current_size
    }

    /// The number of tasks in the pool of a key, 0 if it has none.
    pub fn tasks_for(&self, key: &K) -> (n: usize)
        requires
            obeys_key_model::<K>(),
        ensures
            n == tasks_of(self.pools(), *key).len(),
    {
        proof {
            use_type_invariant(self);
        }
        match self.state.map.get(key) {
            Some(pool) => pool.len(),
            None => 0,
        }
    }

    /// Insert a new task into the pool for the given key. This will error if either:
    /// - The global pool is full
    /// - The per-key pool is full for the given key
    ///
    /// Each task is asked whether it has finished, and the insert goes on as
    /// [`KeyedFuturePool::insert_given`] does with those answers. Which tasks
    /// have finished is up to the scheduler.
    pub fn insert(&mut self, key: K, item: AbortOnDropHandle<T>) -> (r: Result<(), KeyedFuturePoolError>)
        requires
            obeys_key_model::<K>(),
        ensures
            final(self).within_bounds(),
            final(self).max_size() == old(self).max_size(),
            final(self).max_size_per_key() == old(self).max_size_per_key(),
            // success is owed while neither pool is full
            old(self).size() < old(self).max_size() && tasks_of(old(self).pools(), key).len()
                < old(self).max_size_per_key() ==> {
                &&& r is Ok
                &&& tasks_of(final(self).pools(), key) == tasks_of(old(self).pools(), key).push(item)
                &&& forall|k: K| k != key ==> #[trigger] tasks_of(final(self).pools(), k) == tasks_of(old(self).pools(), k)
            },
            // otherwise the outcome is that of `insert_given` for the answers the tasks gave
            exists|finished: Map<K, Vec<bool>>|
                answers_given_by_tasks(old(self).pools(), finished) && keyed_insert_outcome(
                    old(self).pools(),
                    old(self).size(),
                    old(self).max_size(),
                    old(self).max_size_per_key(),
                    finished,
                    key,
                    item,
                    final(self).pools(),
                    r,
                ),
    {
        proof {
            use_type_invariant(&*self);
        }
        let ghost start = self.state;
        let mut state = KeyedPoolState::new(self.state.max_size, self.state.max_size_per_key);
        std::mem::swap(&mut state, &mut self.state);
        let r = state.insert(key, item);
        let ghost finished = choose|finished: Map<K, Vec<bool>>|
            answers_given_by_tasks(start.map@, finished) && keyed_insert_outcome(
                start.map@,
                start.current_size as nat,
                start.max_size as nat,
                start.max_size_per_key as nat,
                finished,
                key,
                item,
                state.map@,
                r,
            );
        self.state = state;
        assert(answers_given_by_tasks(old(self).pools(), finished));
        assert(keyed_insert_outcome(
            old(self).pools(),
            old(self).size(),
            old(self).max_size(),
            old(self).max_size_per_key(),
            finished,
            key,
            item,
            self.pools(),
            r,
        ));
        r
    }

    /// Insert a new task into the pool for the given key, given the answers of
    /// every task to whether it has finished: `finished` holds, for each key
    /// with a pool, one answer per task of that pool, in the pool's order.
    /// - A full global pool drops the finished tasks of every pool (and the
    ///   pools left empty); if the unfinished tasks still fill it, the insert
    ///   fails with [`KeyedFuturePoolError::GlobalPoolFull`].
    /// - Then a full pool for the key drops its finished tasks; if its
    ///   unfinished tasks still fill it, the insert fails with
    ///   [`KeyedFuturePoolError::PerKeyPoolFull`].
    /// - Otherwise the task is added last to the key's pool.
    pub fn insert_given(
        &mut self,
        key: K,
        item: AbortOnDropHandle<T>,
        finished: &HashMap<K, Vec<bool>>,
    ) -> (r: Result<(), KeyedFuturePoolError>)
        requires
            obeys_key_model::<K>(),
            answers_every_task(old(self).pools(), finished@),
        ensures
            final(self).within_bounds(),
            final(self).max_size() == old(self).max_size(),
            final(self).max_size_per_key() == old(self).max_size_per_key(),
            keyed_insert_outcome(
                old(self).pools(),
                old(self).size(),
                old(self).max_size(),
                old(self).max_size_per_key(),
                finished@,
                key,
                item,
                final(self).pools(),
                r,
            ),
    {
        proof {
            use_type_invariant(&*self);
        }
        let mut state = KeyedPoolState::new(self.state.max_size, self.state.max_size_per_key);
        std::mem::swap(&mut state, &mut self.state);
        let r = state.insert_given(key, item, finished);
        self.state = state;
        r
    }
}

/// Keeping every item keeps the sequence.
pub proof fn lemma_keep_all<H>(s: Seq<H>)
    ensures
        is_pruned_from(s, s),
{
    let keep = Seq::new(s.len(), |i: int| true);
    lemma_select_all(s, keep);
}

proof fn lemma_select_all<H>(s: Seq<H>, keep: Seq<bool>)
    requires
        keep.len() == s.len(),
        forall|i: int| 0 <= i < keep.len() ==> keep[i],
    ensures
        select_kept(s, keep) == s,
    decreases s.len(),
{
    if s.len() > 0 {
        lemma_select_all(s.drop_last(), keep.drop_last());
        assert(s.drop_last().push(s.last()) =~= s);
    }
}

} // verus!
