//! The pending-task containers: a FIFO queue and a binary min-heap
//! ordered by ascending `eta`, the structure every scheduling queue
//! uses.
//!
//! The heap's sift-down always descends into the smaller-keyed child,
//! so the root is a minimal-key task at all times.

use std::collections::VecDeque;
use vstd::prelude::*;
use vstd::multiset::Multiset;

use crate::task::Task;
use crate::task::eta_key;

verus! {

broadcast use
    vstd::seq_lib::group_to_multiset_ensures,
    vstd::multiset::group_multiset_axioms,
;

/// The index of the parent of the node at `idx`.
fn parent_idx(idx: usize) -> (r: usize)
    requires
        idx >= 1,
    ensures
        r == (idx - 1) / 2,
{
    (idx - 1) / 2
}

/// The index of the left child of the node at `idx`.
fn left_child(idx: usize) -> (r: usize)
    requires
        2 * idx + 1 <= usize::MAX,
    ensures
        r == 2 * idx + 1,
{
    2 * idx + 1
}

/// The index of the right child of the node at `idx`.
fn right_child(idx: usize) -> (r: usize)
    requires
        2 * idx + 2 <= usize::MAX,
    ensures
        r == 2 * idx + 2,
{
    2 * idx + 2
}

/// A container of pending tasks. What it holds is described as a
/// multiset: which element comes out first is the implementation's
/// affair, stated by each implementation on its own methods.
pub trait Queue<T>: Sized {
    /// The multiset of elements currently held.
    spec fn contents(&self) -> Multiset<T>;

    /// An empty queue.
    fn new() -> (q: Self)
        ensures
            q.contents() == Multiset::<T>::empty(),
    ;

    /// The number of pending elements.
    fn len(&self) -> (n: usize)
        ensures
            n == self.contents().len(),
    ;

    /// Adds one element.
    fn insert(&mut self, task: T)
        ensures
            final(self).contents() == old(self).contents().insert(task),
    ;

    /// Borrows the element that `pop` would return, without removing it.
    fn peek(&self) -> (r: Option<&T>)
        ensures
            (r matches Some(t) ==> self.contents().contains(*t)),
            r is None <==> self.contents().len() == 0,
    ;

    /// Removes and returns an element, or `None` when empty.
    fn pop(&mut self) -> (r: Option<T>)
        ensures
            (r matches Some(t) ==> old(self).contents().contains(t) && final(self).contents()
                == old(self).contents().remove(t)),
            (r is None ==> old(self).contents().len() == 0 && final(self).contents() == old(
                self,
            ).contents()),
            old(self).contents().len() == 0 ==> r is None,
    ;
}

/// A first-in-first-out queue.
pub struct BasicQueue<T> {
    queue: VecDeque<T>,
}

impl<T> View for BasicQueue<T> {
    type V = Seq<T>;

    closed spec fn view(&self) -> Seq<T> {
        self.queue@
    }
}

impl<T> Queue<T> for BasicQueue<T> {
    closed spec fn contents(&self) -> Multiset<T> {
        self.queue@.to_multiset()
    }

    fn new() -> (q: Self)
        ensures
            q@ == Seq::<T>::empty(),
    {
        BasicQueue { queue: VecDeque::new() }
    }

    fn len(&self) -> (n: usize)
        ensures
            n == self@.len(),
    {
        self.queue.len()
    }

    /// Appends at the back.
    fn insert(&mut self, task: T)
        ensures
            final(self)@ == old(self)@.push(task),
    {
        self.queue.push_back(task);
    }

    /// Borrows the front element.
    fn peek(&self) -> (r: Option<&T>)
        ensures
            (r matches Some(t) ==> self@.len() > 0 && *t == self@[0]),
            r is None <==> self@.len() == 0,
    {
        proof {
            if self.queue@.len() > 0 {
                assert(self.queue@.contains(self.queue@[0]));
            }
        }
        if self.queue.len() > 0 {
            Some(&self.queue[0])
        } else {
            None
        }
    }

    /// Removes the front element.
    fn pop(&mut self) -> (r: Option<T>)
        ensures
            (r matches Some(t) ==> old(self)@.len() > 0 && t == old(self)@[0] && final(self)@
                == old(self)@.drop_first()),
            r is None <==> old(self)@.len() == 0,
            r is None ==> final(self)@ == old(self)@,
    {
        proof {
            if self.queue@.len() > 0 {
                let q = self.queue@;
                assert(q =~= Seq::empty().push(q[0]) + q.drop_first());
                lemma_first_plus_rest_to_multiset(q);
            }
        }
        self.queue.pop_front()
    }
}

impl<T> BasicQueue<T> {
    /// Re-sifting is a no-op in a queue that keeps arrival order.
    pub fn bubble_down(&mut self, _idx: usize)
        ensures
            *final(self) == *old(self),
    {
    }
}

/// The multiset of a nonempty sequence is the multiset of its tail with
/// its head inserted.
proof fn lemma_first_plus_rest_to_multiset<T>(q: Seq<T>)
    requires
        q.len() > 0,
    ensures
        q.to_multiset() == q.drop_first().to_multiset().insert(q[0]),
        q.to_multiset().contains(q[0]),
        q.drop_first().to_multiset() == q.to_multiset().remove(q[0]),
{
    q.to_multiset_ensures();
    q.drop_first().to_multiset_ensures();
    assert(q.drop_first().push(q[0]).to_multiset() =~= q.drop_first().to_multiset().insert(q[0]));
    lemma_rotate_to_multiset(q);
    assert(q.to_multiset().remove(q[0]) =~= q.drop_first().to_multiset());
}

/// Moving the head of a sequence to its back preserves the multiset.
proof fn lemma_rotate_to_multiset<T>(q: Seq<T>)
    requires
        q.len() > 0,
    ensures
        q.to_multiset() == q.drop_first().push(q[0]).to_multiset(),
{
    let r = q.drop_first().push(q[0]);
    assert(q.to_multiset() =~= r.to_multiset()) by {
        vstd::seq_lib::lemma_multiset_commutative(seq![q[0]], q.drop_first());
        vstd::seq_lib::lemma_multiset_commutative(q.drop_first(), seq![q[0]]);
        assert(q =~= seq![q[0]] + q.drop_first());
        assert(r =~= q.drop_first() + seq![q[0]]);
    }
}

/// The ordering key of the task at index `i`.
pub open spec fn hkey(s: Seq<Task>, i: int) -> int {
    eta_key(s[i]@)
}

/// The node at `i` is no smaller than its parent.
pub open spec fn parent_link_ok(s: Seq<Task>, i: int) -> bool {
    hkey(s, (i - 1) / 2) <= hkey(s, i)
}

/// The binary min-heap shape: every node outranks its parent.
pub open spec fn heap_wf(s: Seq<Task>) -> bool {
    forall|i: int| 1 <= i < s.len() ==> #[trigger] parent_link_ok(s, i)
}

/// A binary min-heap of tasks, ordered by ascending `eta`; tasks
/// without an `eta` rank ahead of every instant and come out first.
pub struct Heap {
    data: Vec<Task>,
}

impl View for Heap {
    type V = Seq<Task>;

    closed spec fn view(&self) -> Seq<Task> {
        self.data@
    }
}

impl Heap {
    #[verifier::type_invariant]
    spec fn inv(&self) -> bool {
        heap_wf(self.data@)
    }
}

/// Replacing one element changes the multiset by removing the old
/// element and inserting the new one.
proof fn lemma_update_to_multiset<T>(s: Seq<T>, i: int, x: T)
    requires
        0 <= i < s.len(),
    ensures
        s.update(i, x).to_multiset() == s.to_multiset().remove(s[i]).insert(x),
{
    let t = s.update(i, x);
    assert(t.remove(i) =~= s.remove(i));
    assert(t.to_multiset().remove(x) == s.to_multiset().remove(s[i])) by {
        assert(t.remove(i).to_multiset() =~= t.to_multiset().remove(t[i]));
        assert(s.remove(i).to_multiset() =~= s.to_multiset().remove(s[i]));
    }
    assert(t.contains(x)) by {
        assert(t[i] == x);
    }
    assert(t.to_multiset().count(x) > 0);
    assert(t.to_multiset() =~= s.to_multiset().remove(s[i]).insert(x));
}

/// Swapping two elements preserves the multiset.
proof fn lemma_swap_to_multiset<T>(s: Seq<T>, i: int, j: int)
    requires
        0 <= i < s.len(),
        0 <= j < s.len(),
    ensures
        s.update(i, s[j]).update(j, s[i]).to_multiset() == s.to_multiset(),
{
    if i == j {
        assert(s.update(i, s[j]).update(j, s[i]) =~= s);
    } else {
        let s1 = s.update(i, s[j]);
        lemma_update_to_multiset(s, i, s[j]);
        lemma_update_to_multiset(s1, j, s[i]);
        assert(s1[j] == s[j]);
        assert(s.to_multiset().count(s[i]) > 0) by {
            assert(s.contains(s[i]));
        }
        assert(s1.to_multiset().count(s[j]) > 0) by {
            assert(s1.contains(s[j])) by {
                assert(s1[j] == s[j]);
            }
        }
        assert(s.update(i, s[j]).update(j, s[i]).to_multiset() =~= s.to_multiset());
    }
}

/// Swaps the elements at `i` and `j`.
fn swap_tasks(v: &mut Vec<Task>, i: usize, j: usize)
    requires
        i < old(v)@.len(),
        j < old(v)@.len(),
    ensures
        final(v)@ == old(v)@.update(i as int, old(v)@[j as int]).update(j as int, old(v)@[i as int]),
        final(v)@.to_multiset() == old(v)@.to_multiset(),
{
    let a = v[i].clone();
    let b = v[j].clone();
    v.set(i, b);
    v.set(j, a);
    proof {
        lemma_swap_to_multiset(old(v)@, i as int, j as int);
    }
}

/// Whether `a` strictly outranks `b` for dispatch.
fn key_lt(a: &Task, b: &Task) -> (r: bool)
    ensures
        r == (eta_key(a@) < eta_key(b@)),
{
    !b.ranks_no_later(a)
}

/// The heap shape with the links into the two children of `x` possibly
/// broken, while `x`'s own subtree is still bounded by `x`'s parent.
spec fn almost_heap_down(s: Seq<Task>, x: int) -> bool {
    &&& forall|i: int|
        1 <= i < s.len() && i != 2 * x + 1 && i != 2 * x + 2 ==> #[trigger] parent_link_ok(s, i)
    &&& x > 0 && 2 * x + 1 < s.len() ==> hkey(s, (x - 1) / 2) <= hkey(s, 2 * x + 1)
    &&& x > 0 && 2 * x + 2 < s.len() ==> hkey(s, (x - 1) / 2) <= hkey(s, 2 * x + 2)
}

/// The heap shape with the link from `x` up to its parent possibly
/// broken, while the children of `x` are still bounded by `x`'s parent.
spec fn almost_heap_up(s: Seq<Task>, x: int) -> bool {
    &&& forall|i: int| 1 <= i < s.len() && i != x ==> #[trigger] parent_link_ok(s, i)
    &&& x > 0 && 2 * x + 1 < s.len() ==> hkey(s, (x - 1) / 2) <= hkey(s, 2 * x + 1)
    &&& x > 0 && 2 * x + 2 < s.len() ==> hkey(s, (x - 1) / 2) <= hkey(s, 2 * x + 2)
}

/// Restores the heap shape by sifting the node at `idx` up to its place.
fn sift_up(data: &mut Vec<Task>, idx: usize)
    requires
        idx < old(data)@.len(),
        almost_heap_up(old(data)@, idx as int),
    ensures
        heap_wf(final(data)@),
        final(data)@.to_multiset() == old(data)@.to_multiset(),
        final(data)@.len() == old(data)@.len(),
    decreases idx,
{
    if idx == 0 {
        proof {
            assert forall|i: int| 1 <= i < data@.len() implies #[trigger] parent_link_ok(
                data@,
                i,
            ) by {}
        }
        return ;
    }
    let p = parent_idx(idx);
    if key_lt(&data[idx], &data[p]) {
        let ghost s = data@;
        let ghost x = idx as int;
        let ghost pi = p as int;
        swap_tasks(data, idx, p);
        proof {
            let s2 = data@;
            assert forall|i: int| 1 <= i < s2.len() && i != pi implies #[trigger] parent_link_ok(
                s2,
                i,
            ) by {
                let q = (i - 1) / 2;
                if i == x {
                    assert(hkey(s2, q) == hkey(s, x) && hkey(s2, i) == hkey(s, pi));
                } else if q == x {
                    assert(i == 2 * x + 1 || i == 2 * x + 2);
                    assert(hkey(s, pi) <= hkey(s, i));
                    assert(hkey(s2, q) == hkey(s, pi) && hkey(s2, i) == hkey(s, i));
                } else if q == pi {
                    assert(parent_link_ok(s, i));
                    assert(hkey(s2, q) == hkey(s, x) && hkey(s2, i) == hkey(s, i));
                    assert(hkey(s, x) < hkey(s, pi));
                } else {
                    assert(parent_link_ok(s, i));
                    assert(hkey(s2, q) == hkey(s, q) && hkey(s2, i) == hkey(s, i));
                }
            }
            if pi > 0 {
                let g = (pi - 1) / 2;
                assert(g < pi && g != x);
                assert(parent_link_ok(s, pi));
                if 2 * pi + 1 < s2.len() {
                    let c = 2 * pi + 1;
                    if c == x {
                        assert(hkey(s2, c) == hkey(s, pi));
                    } else {
                        assert(parent_link_ok(s, c));
                        assert((c - 1) / 2 == pi);
                    }
                    assert(hkey(s2, g) <= hkey(s2, c));
                }
                if 2 * pi + 2 < s2.len() {
                    let c = 2 * pi + 2;
                    if c == x {
                        assert(hkey(s2, c) == hkey(s, pi));
                    } else {
                        assert(parent_link_ok(s, c));
                        assert((c - 1) / 2 == pi);
                    }
                    assert(hkey(s2, g) <= hkey(s2, c));
                }
            }
            assert(almost_heap_up(s2, pi));
        }
        sift_up(data, p);
    } else {
        proof {
            assert(parent_link_ok(data@, idx as int));
            assert forall|i: int| 1 <= i < data@.len() implies #[trigger] parent_link_ok(
                data@,
                i,
            ) by {}
        }
    }
}

/// Restores the heap shape by sifting the node at `idx` down, always
/// descending into the smaller-keyed child.
fn sift_down(data: &mut Vec<Task>, idx: usize)
    requires
        idx < old(data)@.len(),
        almost_heap_down(old(data)@, idx as int),
    ensures
        heap_wf(final(data)@),
        final(data)@.to_multiset() == old(data)@.to_multiset(),
        final(data)@.len() == old(data)@.len(),
    decreases old(data)@.len() - idx,
{
    let n = data.len();
    let mut smallest = idx;
    if idx < n / 2 {
        let l = left_child(idx);
        assert(l < n);
        if key_lt(&data[l], &data[smallest]) {
            smallest = l;
        }
        if l + 1 < n {
            let r = right_child(idx);
            if key_lt(&data[r], &data[smallest]) {
                smallest = r;
            }
        }
    } else {
        proof {
            assert(2 * idx + 1 >= n);
        }
    }
    if smallest == idx {
        proof {
            let s = data@;
            let x = idx as int;
            assert forall|i: int| 1 <= i < s.len() implies #[trigger] parent_link_ok(s, i) by {
                if i == 2 * x + 1 || i == 2 * x + 2 {
                    assert((i - 1) / 2 == x);
                    assert(hkey(s, x) <= hkey(s, i));
                }
            }
        }
        return ;
    }
    let ghost s = data@;
    let ghost x = idx as int;
    let ghost c = smallest as int;
    proof {
        assert(c == 2 * x + 1 || c == 2 * x + 2);
        assert(hkey(s, c) < hkey(s, x));
        if c == 2 * x + 1 && 2 * x + 2 < s.len() {
            assert(hkey(s, c) <= hkey(s, 2 * x + 2));
        }
    }
    swap_tasks(data, idx, smallest);
    proof {
        let s2 = data@;
        assert forall|i: int|
            1 <= i < s2.len() && i != 2 * c + 1 && i != 2 * c + 2 implies #[trigger] parent_link_ok(
            s2,
            i,
        ) by {
            let q = (i - 1) / 2;
            if i == c {
                assert(hkey(s2, q) == hkey(s, c) && hkey(s2, i) == hkey(s, x));
            } else if q == x {
                assert(i == 2 * x + 1 || i == 2 * x + 2);
                assert(i != c);
                assert(hkey(s2, q) == hkey(s, c) && hkey(s2, i) == hkey(s, i));
                assert(hkey(s, c) <= hkey(s, i));
            } else if i == x {
                assert(q == (x - 1) / 2 && x > 0);
                assert(c == 2 * x + 1 || c == 2 * x + 2);
                assert(hkey(s2, i) == hkey(s, c));
                assert(hkey(s, q) <= hkey(s, c));
                assert(hkey(s2, q) == hkey(s, q));
            } else {
                assert(parent_link_ok(s, i));
                assert(hkey(s2, q) == hkey(s, q) && hkey(s2, i) == hkey(s, i));
            }
        }
        if 2 * c + 1 < s2.len() {
            let cc = 2 * c + 1;
            assert(parent_link_ok(s, cc));
            assert((cc - 1) / 2 == c);
            assert(hkey(s2, x) == hkey(s, c));
            assert(hkey(s2, (c - 1) / 2) <= hkey(s2, cc));
        }
        if 2 * c + 2 < s2.len() {
            let cc = 2 * c + 2;
            assert(parent_link_ok(s, cc));
            assert((cc - 1) / 2 == c);
            assert(hkey(s2, (c - 1) / 2) <= hkey(s2, cc));
        }
        assert(almost_heap_down(s2, c));
    }
    sift_down(data, smallest);
}

/// In a well-shaped heap the root carries a minimal key.
proof fn lemma_root_min(s: Seq<Task>, i: int)
    requires
        heap_wf(s),
        0 <= i < s.len(),
    ensures
        hkey(s, 0) <= hkey(s, i),
    decreases i,
{
    if i > 0 {
        assert(parent_link_ok(s, i));
        lemma_root_min(s, (i - 1) / 2);
    }
}

/// In a well-shaped heap the root outranks every element of the
/// contents.
proof fn lemma_root_min_contents(s: Seq<Task>)
    requires
        heap_wf(s),
        s.len() > 0,
    ensures
        forall|u: Task| s.to_multiset().count(u) > 0 ==> eta_key(s[0]@) <= eta_key(u@),
{
    assert forall|u: Task| s.to_multiset().count(u) > 0 implies eta_key(s[0]@) <= eta_key(u@) by {
        assert(s.contains(u));
        let i = choose|i: int| 0 <= i < s.len() && s[i] == u;
        lemma_root_min(s, i);
    }
}

impl Queue<Task> for Heap {
    closed spec fn contents(&self) -> Multiset<Task> {
        self.data@.to_multiset()
    }

    fn new() -> (q: Self)
        ensures
            q@ == Seq::<Task>::empty(),
    {
        let data = Vec::new();
        proof {
            assert(data@.to_multiset() =~= Multiset::<Task>::empty()) by {
                data@.to_multiset_ensures();
                assert(data@.to_multiset().len() == 0);
            }
        }
        Heap { data }
    }

    fn len(&self) -> (n: usize)
        ensures
            n == self@.len(),
    {
        self.data.len()
    }

    /// Appends the task and sifts it up to its place; the heap shape is
    /// preserved.
    fn insert(&mut self, task: Task)
        ensures
            final(self)@.len() == old(self)@.len() + 1,
    {
        proof {
            use_type_invariant(&*self);
        }
        let mut data = Vec::new();
        std::mem::swap(&mut data, &mut self.data);
        let ghost orig = data@;
        data.push(task);
        let idx = data.len() - 1;
        proof {
            let s = data@;
            assert forall|i: int| 1 <= i < s.len() && i != idx as int implies #[trigger] parent_link_ok(
                s,
                i,
            ) by {
                assert(parent_link_ok(orig, i));
                assert(hkey(s, i) == hkey(orig, i) && hkey(s, (i - 1) / 2) == hkey(orig, (i - 1) / 2));
            }
            assert(2 * (idx as int) + 1 >= s.len());
            assert(almost_heap_up(s, idx as int));
        }
        sift_up(&mut data, idx);
        self.data = data;
    }

    /// Borrows the task the next `pop` returns: one with a minimal key.
    fn peek(&self) -> (r: Option<&Task>)
        ensures
            (r matches Some(t) ==> self@.len() > 0 && *t == self@[0] && (forall|u: Task|
                self.contents().count(u) > 0 ==> eta_key(t@) <= eta_key(u@))),
    {
        proof {
            use_type_invariant(self);
            if self.data@.len() > 0 {
                lemma_root_min_contents(self.data@);
                assert(self.data@.contains(self.data@[0]));
            }
        }
        if self.data.len() > 0 {
            Some(&self.data[0])
        } else {
            None
        }
    }

    /// Removes and returns a task with a minimal key: no pending task
    /// outranks the one dispatched.
    fn pop(&mut self) -> (r: Option<Task>)
        ensures
            (r matches Some(t) ==> t == old(self)@[0] && (forall|u: Task|
                old(self).contents().count(u) > 0 ==> eta_key(t@) <= eta_key(u@))),
    {
        proof {
            use_type_invariant(&*self);
        }
        if self.data.len() == 0 {
            return None;
        }
        let mut data = Vec::new();
        std::mem::swap(&mut data, &mut self.data);
        let ghost orig = data@;
        proof {
            lemma_root_min_contents(orig);
            assert(orig.contains(orig[0]));
        }
        let t = data.swap_remove(0);
        proof {
            let s2 = data@;
            assert(s2 =~= orig.update(0, orig.last()).drop_last());
            lemma_update_to_multiset(orig, 0, orig.last());
            if orig.len() == 1 {
                assert(s2.len() == 0);
                assert(s2.to_multiset().len() == 0);
                assert forall|v: Task| s2.to_multiset().count(v) == orig.to_multiset().remove(
                    orig[0],
                ).count(v) by {
                    assert(s2.to_multiset().count(v) <= s2.to_multiset().len());
                    if v == orig[0] {
                        assert(orig.to_multiset().count(v) > 0);
                        assert(orig.to_multiset().count(v) <= orig.to_multiset().len());
                    } else {
                        assert(!orig.contains(v));
                        assert(orig.to_multiset().count(v) == 0);
                    }
                }
                assert(s2.to_multiset() =~= orig.to_multiset().remove(orig[0]));
            } else {
                let s1 = orig.update(0, orig.last());
                assert(s1.drop_last().push(s1.last()) =~= s1);
                assert(s1.drop_last().push(s1.last()).to_multiset() =~= s1.drop_last().to_multiset().insert(s1.last()));
                assert(s1.last() == orig.last());
                assert(s2.to_multiset().insert(orig.last()) == orig.to_multiset().remove(orig[0]).insert(orig.last()));
                assert forall|v: Task| s2.to_multiset().count(v) == orig.to_multiset().remove(
                    orig[0],
                ).count(v) by {
                    assert(s2.to_multiset().insert(orig.last()).count(v) == orig.to_multiset().remove(
                        orig[0],
                    ).insert(orig.last()).count(v));
                }
                assert(s2.to_multiset() =~= orig.to_multiset().remove(orig[0]));
            }
            if s2.len() > 0 {
                assert forall|i: int| 1 <= i < s2.len() && i != 1 && i != 2 implies #[trigger] parent_link_ok(
                    s2,
                    i,
                ) by {
                    assert(parent_link_ok(orig, i));
                    assert(hkey(s2, i) == hkey(orig, i) && hkey(s2, (i - 1) / 2) == hkey(orig, (i - 1) / 2));
                }
                assert(almost_heap_down(s2, 0));
            }
        }
        if data.len() > 0 {
            sift_down(&mut data, 0);
        }
        self.data = data;
        Some(t)
    }
}

impl Heap {
    /// Re-sifts the node at `idx` downward. The heap shape is already an
    /// invariant of the type, so this never changes what is pending; it
    /// remains for callers that used it as a repair step.
    pub fn bubble_down(&mut self, idx: usize)
        ensures
            final(self).contents() == old(self).contents(),
            final(self)@.len() == old(self)@.len(),
    {
        proof {
            use_type_invariant(&*self);
        }
        if idx >= self.data.len() {
            return ;
        }
        let mut data = Vec::new();
        std::mem::swap(&mut data, &mut self.data);
        proof {
            let s = data@;
            let x = idx as int;
            if x > 0 {
                if 2 * x + 1 < s.len() {
                    assert(parent_link_ok(s, x));
                    assert(parent_link_ok(s, 2 * x + 1));
                    assert((2 * x + 1 - 1) / 2 == x);
                }
                if 2 * x + 2 < s.len() {
                    assert(parent_link_ok(s, x));
                    assert(parent_link_ok(s, 2 * x + 2));
                    assert((2 * x + 2 - 1) / 2 == x);
                }
            }
            assert(almost_heap_down(s, x));
        }
        sift_down(&mut data, idx);
        self.data = data;
    }
}

/// Law: dispatch from one queue comes out in ascending key order. If a
/// pop returns a minimal task `t1` of the pending multiset and the next
/// pop returns a minimal task `t2` of what remained, then `t1` ranks no
/// later than `t2`.
pub proof fn lemma_pops_ascending(m: Multiset<Task>, t1: Task, t2: Task)
    requires
        m.count(t1) > 0,
        (forall|u: Task| m.count(u) > 0 ==> eta_key(t1@) <= eta_key(u@)),
        m.remove(t1).count(t2) > 0,
        (forall|u: Task| m.remove(t1).count(u) > 0 ==> eta_key(t2@) <= eta_key(u@)),
    ensures
        eta_key(t1@) <= eta_key(t2@),
{
    assert(m.count(t2) > 0);
}

} // verus!
