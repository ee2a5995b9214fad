//! What a crawl finds does not depend on the order in which its tasks are
//! taken.
//!
//! A crawl is seen here from above: the store, the tasks that wait, and a
//! tree that says what listing each directory gives. A step takes any one of
//! the waiting tasks and does with it what `EntryWrapper::expand` does. Two
//! crawls that start alike and both come to an end hold the same keys.

use vstd::prelude::*;
use crate::crawl::{expanded, pick, put_all, task_entries, Listing};
use crate::entry::EntryView;

verus! {

/// A crawl under way: what the store holds and the tasks that wait.
pub struct CrawlView {
    pub store: Map<Seq<char>, EntryView>,
    pub waiting: Seq<EntryView>,
}

/// The crawl after the waiting task at `i` was taken and expanded: the files
/// that its listing gave and the task itself are in the store, and the
/// directories that its listing gave wait.
pub open spec fn step(tree: spec_fn(Seq<char>) -> Listing, c: CrawlView, i: int) -> CrawlView {
    let task = c.waiting[i];
    let found = task_entries(task, tree(task.path));
    CrawlView {
        store: put_all(c.store, pick(found, false)).insert(
            task.path,
            expanded(task, tree(task.path)),
        ),
        waiting: c.waiting.remove(i) + pick(found, true),
    }
}

/// Each of `picks` names, in its turn, a task that waits.
pub open spec fn can_run(tree: spec_fn(Seq<char>) -> Listing, c: CrawlView, picks: Seq<int>) -> bool
    decreases picks.len(),
{
    picks.len() == 0 || (0 <= picks[0] < c.waiting.len() && can_run(
        tree,
        step(tree, c, picks[0]),
        picks.drop_first(),
    ))
}

/// The crawl after the tasks that `picks` names were taken, one after the
/// other.
pub open spec fn run(tree: spec_fn(Seq<char>) -> Listing, c: CrawlView, picks: Seq<int>) -> CrawlView
    decreases picks.len(),
{
    if picks.len() == 0 {
        c
    } else {
        run(tree, step(tree, c, picks[0]), picks.drop_first())
    }
}

/// The keys that a crawl from `task` puts in the store, `depth` levels down.
pub open spec fn below_one(tree: spec_fn(Seq<char>) -> Listing, task: EntryView, depth: nat) -> Set<
    Seq<char>,
>
    decreases depth, 0nat,
{
    if task.is_dir && depth > 0 {
        below(tree, task_entries(task, tree(task.path)), (depth - 1) as nat).insert(task.path)
    } else {
        set![task.path]
    }
}

/// The keys that a crawl from each of `entries` puts in the store, `depth`
/// levels down.
pub open spec fn below(
    tree: spec_fn(Seq<char>) -> Listing,
    entries: Seq<EntryView>,
    depth: nat,
) -> Set<Seq<char>>
    decreases depth, entries.len() + 1,
{
    if entries.len() == 0 {
        Set::empty()
    } else {
        below(tree, entries.drop_last(), depth).union(below_one(tree, entries.last(), depth))
    }
}

/// A crawl from `task` is over within `depth` levels.
pub open spec fn done_one(tree: spec_fn(Seq<char>) -> Listing, task: EntryView, depth: nat) -> bool
    decreases depth, 0nat,
{
    !task.is_dir || (depth > 0 && done(
        tree,
        task_entries(task, tree(task.path)),
        (depth - 1) as nat,
    ))
}

/// A crawl from each of `entries` is over within `depth` levels.
pub open spec fn done(tree: spec_fn(Seq<char>) -> Listing, entries: Seq<EntryView>, depth: nat) -> bool
    decreases depth, entries.len() + 1,
{
    entries.len() == 0 || (done(tree, entries.drop_last(), depth) && done_one(
        tree,
        entries.last(),
        depth,
    ))
}

/// The number of tasks that a crawl from `task` takes, `depth` levels down:
/// the task itself and one for each directory below it.
pub open spec fn tasks_one(tree: spec_fn(Seq<char>) -> Listing, task: EntryView, depth: nat) -> nat
    decreases depth, 0nat,
{
    if task.is_dir && depth > 0 {
        1 + tasks(tree, pick(task_entries(task, tree(task.path)), true), (depth - 1) as nat)
    } else {
        1
    }
}

/// The number of tasks that a crawl from each of `waiting` takes, `depth`
/// levels down.
pub open spec fn tasks(tree: spec_fn(Seq<char>) -> Listing, waiting: Seq<EntryView>, depth: nat) -> nat
    decreases depth, waiting.len() + 1,
{
    if waiting.len() == 0 {
        0
    } else {
        tasks(tree, waiting.drop_last(), depth) + tasks_one(tree, waiting.last(), depth)
    }
}

/// A crawl that is over within some depth is over within any greater depth,
/// and puts the same keys in the store.
proof fn lemma_deeper_one(
    tree: spec_fn(Seq<char>) -> Listing,
    task: EntryView,
    d1: nat,
    d2: nat,
)
    requires
        done_one(tree, task, d1),
        d1 <= d2,
    ensures
        done_one(tree, task, d2),
        below_one(tree, task, d1) == below_one(tree, task, d2),
    decreases d1, 0nat,
{
    if task.is_dir {
        lemma_deeper(
            tree,
            task_entries(task, tree(task.path)),
            (d1 - 1) as nat,
            (d2 - 1) as nat,
        );
    }
}

proof fn lemma_deeper(
    tree: spec_fn(Seq<char>) -> Listing,
    entries: Seq<EntryView>,
    d1: nat,
    d2: nat,
)
    requires
        done(tree, entries, d1),
        d1 <= d2,
    ensures
        done(tree, entries, d2),
        below(tree, entries, d1) == below(tree, entries, d2),
    decreases d1, entries.len() + 1,
{
    if entries.len() > 0 {
        lemma_deeper(tree, entries.drop_last(), d1, d2);
        lemma_deeper_one(tree, entries.last(), d1, d2);
    }
}

/// Two lists of entries one after the other.
proof fn lemma_concat(
    tree: spec_fn(Seq<char>) -> Listing,
    a: Seq<EntryView>,
    b: Seq<EntryView>,
    depth: nat,
)
    ensures
        done(tree, a + b, depth) == (done(tree, a, depth) && done(tree, b, depth)),
        below(tree, a + b, depth) =~= below(tree, a, depth).union(below(tree, b, depth)),
    decreases b.len(),
{
    if b.len() == 0 {
        assert(a + b =~= a);
    } else {
        assert((a + b).drop_last() =~= a + b.drop_last());
        assert((a + b).last() == b.last());
        lemma_concat(tree, a, b.drop_last(), depth);
    }
}

/// A list of entries without one of them.
proof fn lemma_remove(
    tree: spec_fn(Seq<char>) -> Listing,
    entries: Seq<EntryView>,
    i: int,
    depth: nat,
)
    requires
        0 <= i < entries.len(),
    ensures
        done(tree, entries, depth) == (done(tree, entries.remove(i), depth) && done_one(
            tree,
            entries[i],
            depth,
        )),
        below(tree, entries, depth) =~= below(tree, entries.remove(i), depth).union(
            below_one(tree, entries[i], depth),
        ),
    decreases entries.len(),
{
    if i == entries.len() - 1 {
        assert(entries.remove(i) =~= entries.drop_last());
    } else {
        let shorter = entries.remove(i);
        assert(shorter.drop_last() =~= entries.drop_last().remove(i));
        assert(shorter.last() == entries.last());
        lemma_remove(tree, entries.drop_last(), i, depth);
    }
}

/// The files and the directories of a list, each kind by itself.
proof fn lemma_sorted(tree: spec_fn(Seq<char>) -> Listing, entries: Seq<EntryView>, depth: nat)
    ensures
        done(tree, entries, depth) == done(tree, pick(entries, true), depth),
        below(tree, entries, depth) =~= below(tree, pick(entries, false), depth).union(
            below(tree, pick(entries, true), depth),
        ),
        forall|store: Map<Seq<char>, EntryView>|
            #![trigger put_all(store, pick(entries, false))]
            put_all(store, pick(entries, false)).dom() =~= store.dom().union(
                below(tree, pick(entries, false), depth),
            ),
    decreases entries.len(),
{
    if entries.len() > 0 {
        let shorter = entries.drop_last();
        lemma_sorted(tree, shorter, depth);
        let last = entries.last();
        let files = pick(entries, false);
        let dirs = pick(entries, true);
        if last.is_dir {
            assert(dirs == pick(shorter, true).push(last));
            assert(files == pick(shorter, false));
            assert(dirs.drop_last() =~= pick(shorter, true));
            assert(dirs.last() == last);
            assert(done(tree, dirs, depth) == (done(tree, pick(shorter, true), depth) && done_one(
                tree,
                last,
                depth,
            )));
            assert(done(tree, entries, depth) == (done(tree, shorter, depth) && done_one(
                tree,
                last,
                depth,
            )));
        } else {
            assert(files == pick(shorter, false).push(last));
            assert(dirs == pick(shorter, true));
            assert(done_one(tree, last, depth));
            assert(done(tree, entries, depth) == done(tree, shorter, depth));
            assert(files.drop_last() =~= pick(shorter, false));
            assert(files.last() == last);
            assert(below_one(tree, last, depth) =~= set![last.path]);
            assert(below(tree, files, depth) =~= below(tree, pick(shorter, false), depth).union(
                set![last.path],
            ));
            assert forall|store: Map<Seq<char>, EntryView>|
                #![trigger put_all(store, pick(entries, false))]
                put_all(store, pick(entries, false)).dom() =~= store.dom().union(
                    below(tree, pick(entries, false), depth),
                ) by {
                let before = put_all(store, pick(shorter, false));
                assert(put_all(store, files) == before.insert(last.path, last));
                assert(before.dom() =~= store.dom().union(
                    below(tree, pick(shorter, false), depth),
                ));
            }
        }
    } else {
        assert(pick(entries, true) =~= Seq::<EntryView>::empty());
        assert(pick(entries, false) =~= Seq::<EntryView>::empty());
    }
}

/// A step changes neither whether the crawl is over within `depth` levels
/// nor the keys that the store holds or will hold.
proof fn lemma_step_keeps(tree: spec_fn(Seq<char>) -> Listing, c: CrawlView, i: int, depth: nat)
    requires
        0 <= i < c.waiting.len(),
        done(tree, c.waiting, depth),
    ensures
        done(tree, step(tree, c, i).waiting, depth),
        step(tree, c, i).store.dom().union(below(tree, step(tree, c, i).waiting, depth))
            =~= c.store.dom().union(below(tree, c.waiting, depth)),
{
    let task = c.waiting[i];
    let found = task_entries(task, tree(task.path));
    let rest = c.waiting.remove(i);
    lemma_remove(tree, c.waiting, i, depth);
    lemma_concat(tree, rest, pick(found, true), depth);
    if task.is_dir {
        let d = (depth - 1) as nat;
        lemma_sorted(tree, found, d);
        lemma_deeper(tree, pick(found, true), d, depth);
        assert(put_all(c.store, pick(found, false)).dom() =~= c.store.dom().union(
            below(tree, pick(found, false), d),
        ));
    } else {
        assert(pick(found, true) =~= Seq::<EntryView>::empty());
        assert(pick(found, false) =~= Seq::<EntryView>::empty());
    }
}

/// A crawl that comes to an end in `picks.len()` steps is over within as
/// many levels.
proof fn lemma_run_ends(tree: spec_fn(Seq<char>) -> Listing, c: CrawlView, picks: Seq<int>)
    requires
        can_run(tree, c, picks),
        run(tree, c, picks).waiting.len() == 0,
    ensures
        done(tree, c.waiting, picks.len()),
    decreases picks.len(),
{
    if picks.len() > 0 {
        let i = picks[0];
        let next = step(tree, c, i);
        let task = c.waiting[i];
        let found = task_entries(task, tree(task.path));
        let d = (picks.len() - 1) as nat;
        lemma_run_ends(tree, next, picks.drop_first());
        lemma_concat(tree, c.waiting.remove(i), pick(found, true), d);
        lemma_sorted(tree, found, d);
        lemma_deeper(tree, c.waiting.remove(i), d, picks.len());
        lemma_remove(tree, c.waiting, i, picks.len());
    }
}

/// At its end a crawl holds the keys that it held at its start and those
/// that lie below the tasks that waited then.
proof fn lemma_run_keeps(
    tree: spec_fn(Seq<char>) -> Listing,
    c: CrawlView,
    picks: Seq<int>,
    depth: nat,
)
    requires
        can_run(tree, c, picks),
        done(tree, c.waiting, depth),
    ensures
        run(tree, c, picks).store.dom().union(below(tree, run(tree, c, picks).waiting, depth))
            =~= c.store.dom().union(below(tree, c.waiting, depth)),
    decreases picks.len(),
{
    if picks.len() > 0 {
        lemma_step_keeps(tree, c, picks[0], depth);
        lemma_run_keeps(tree, step(tree, c, picks[0]), picks.drop_first(), depth);
    }
}

/// Two crawls of one tree that start alike and both come to an end hold the
/// same keys at their ends, in whatever order each took its tasks, and each
/// holds every key that it held at the start.
pub proof fn lemma_crawl_order_free(
    tree: spec_fn(Seq<char>) -> Listing,
    start: CrawlView,
    one: Seq<int>,
    other: Seq<int>,
)
    requires
        can_run(tree, start, one),
        can_run(tree, start, other),
        run(tree, start, one).waiting.len() == 0,
        run(tree, start, other).waiting.len() == 0,
    ensures
        run(tree, start, one).store.dom() == run(tree, start, other).store.dom(),
        start.store.dom().subset_of(run(tree, start, one).store.dom()),
{
    let depth = if one.len() <= other.len() {
        other.len()
    } else {
        one.len()
    };
    lemma_run_ends(tree, start, one);
    lemma_run_ends(tree, start, other);
    lemma_deeper(tree, start.waiting, one.len(), depth);
    lemma_deeper(tree, start.waiting, other.len(), depth);
    lemma_run_keeps(tree, start, one, depth);
    lemma_run_keeps(tree, start, other, depth);
    assert(run(tree, start, one).store.dom() =~= start.store.dom().union(
        below(tree, start.waiting, depth),
    ));
    assert(run(tree, start, other).store.dom() =~= start.store.dom().union(
        below(tree, start.waiting, depth),
    ));
}

/// A crawl that is over within some depth takes as many tasks at any
/// greater depth.
proof fn lemma_tasks_deeper_one(
    tree: spec_fn(Seq<char>) -> Listing,
    task: EntryView,
    d1: nat,
    d2: nat,
)
    requires
        done_one(tree, task, d1),
        d1 <= d2,
    ensures
        tasks_one(tree, task, d1) == tasks_one(tree, task, d2),
    decreases d1, 0nat,
{
    if task.is_dir {
        let found = task_entries(task, tree(task.path));
        lemma_sorted(tree, found, (d1 - 1) as nat);
        lemma_tasks_deeper(tree, pick(found, true), (d1 - 1) as nat, (d2 - 1) as nat);
    }
}

proof fn lemma_tasks_deeper(
    tree: spec_fn(Seq<char>) -> Listing,
    waiting: Seq<EntryView>,
    d1: nat,
    d2: nat,
)
    requires
        done(tree, waiting, d1),
        d1 <= d2,
    ensures
        tasks(tree, waiting, d1) == tasks(tree, waiting, d2),
    decreases d1, waiting.len() + 1,
{
    if waiting.len() > 0 {
        lemma_tasks_deeper(tree, waiting.drop_last(), d1, d2);
        lemma_tasks_deeper_one(tree, waiting.last(), d1, d2);
    }
}

/// The tasks of two lists one after the other add up.
proof fn lemma_tasks_concat(
    tree: spec_fn(Seq<char>) -> Listing,
    a: Seq<EntryView>,
    b: Seq<EntryView>,
    depth: nat,
)
    ensures
        tasks(tree, a + b, depth) == tasks(tree, a, depth) + tasks(tree, b, depth),
    decreases b.len(),
{
    if b.len() == 0 {
        assert(a + b =~= a);
    } else {
        assert((a + b).drop_last() =~= a + b.drop_last());
        assert((a + b).last() == b.last());
        lemma_tasks_concat(tree, a, b.drop_last(), depth);
    }
}

/// The tasks of a list are those of one of its entries and those of the
/// others.
proof fn lemma_tasks_remove(
    tree: spec_fn(Seq<char>) -> Listing,
    waiting: Seq<EntryView>,
    i: int,
    depth: nat,
)
    requires
        0 <= i < waiting.len(),
    ensures
        tasks(tree, waiting, depth) == tasks(tree, waiting.remove(i), depth) + tasks_one(
            tree,
            waiting[i],
            depth,
        ),
    decreases waiting.len(),
{
    if i == waiting.len() - 1 {
        assert(waiting.remove(i) =~= waiting.drop_last());
    } else {
        let shorter = waiting.remove(i);
        assert(shorter.drop_last() =~= waiting.drop_last().remove(i));
        assert(shorter.last() == waiting.last());
        lemma_tasks_remove(tree, waiting.drop_last(), i, depth);
    }
}

/// A crawl that comes to an end has taken one task for each task that
/// waited at its start and each directory below those.
proof fn lemma_run_length(tree: spec_fn(Seq<char>) -> Listing, c: CrawlView, picks: Seq<int>)
    requires
        can_run(tree, c, picks),
        run(tree, c, picks).waiting.len() == 0,
    ensures
        picks.len() == tasks(tree, c.waiting, picks.len()),
    decreases picks.len(),
{
    if picks.len() > 0 {
        let i = picks[0];
        let next = step(tree, c, i);
        let task = c.waiting[i];
        let found = task_entries(task, tree(task.path));
        let rest = c.waiting.remove(i);
        let d = (picks.len() - 1) as nat;
        lemma_run_length(tree, next, picks.drop_first());
        lemma_run_ends(tree, next, picks.drop_first());
        lemma_concat(tree, rest, pick(found, true), d);
        lemma_tasks_concat(tree, rest, pick(found, true), d);
        lemma_tasks_deeper(tree, rest, d, picks.len());
        lemma_tasks_remove(tree, c.waiting, i, picks.len());
        if !task.is_dir {
            assert(pick(found, true) =~= Seq::<EntryView>::empty());
        }
    }
}

/// Every task is taken once: two crawls of one tree that start alike and
/// both come to an end take the same number of tasks, one for each task that
/// waited at the start and one for each directory below those, in whatever
/// order each took them.
pub proof fn lemma_crawl_takes_each_task_once(
    tree: spec_fn(Seq<char>) -> Listing,
    start: CrawlView,
    one: Seq<int>,
    other: Seq<int>,
)
    requires
        can_run(tree, start, one),
        can_run(tree, start, other),
        run(tree, start, one).waiting.len() == 0,
        run(tree, start, other).waiting.len() == 0,
    ensures
        one.len() == other.len(),
        one.len() == tasks(tree, start.waiting, one.len()),
        done(tree, start.waiting, one.len()),
{
    let depth = if one.len() <= other.len() {
        other.len()
    } else {
        one.len()
    };
    lemma_run_ends(tree, start, one);
    lemma_run_ends(tree, start, other);
    lemma_run_length(tree, start, one);
    lemma_run_length(tree, start, other);
    lemma_tasks_deeper(tree, start.waiting, one.len(), depth);
    lemma_tasks_deeper(tree, start.waiting, other.len(), depth);
}

} // verus!
