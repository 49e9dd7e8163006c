//! Call-stack-aware exploration of every statically reachable path from the
//! entry point.
use vstd::prelude::*;
use std::collections::HashMap;

use crate::image::{Cartridge, ENTRY_POINT};
use crate::instruction::{decode_at, decoded, DecodeError, Flow, Instruction};
use vstd::set_lib::lemma_len_subset;

verus! {

broadcast use vstd::std_specs::hash::group_hash_axioms;

/// Most tasks one exploration processes before it gives up; growing call
/// stacks in recursive code would otherwise make the task space unbounded.
pub const MAX_TASKS: usize = 1048576;

/// A task as a value: its start address and its stack of pending return
/// addresses, innermost last.
pub type Task = (usize, Seq<usize>);

/// The control-transferring instruction that ends the straight-line walk
/// from `a`, or the decode error that stops it.
pub open spec fn control_at(image: Seq<u8>, a: usize) -> Result<Instruction, DecodeError>
    decreases image.len() - a,
{
    match decoded(image, a) {
        Err(e) => Err(e),
        Ok(i) => {
            if i.spec_flow() == Flow::Plain && a < image.len() && a + i.spec_size() <= image.len()
                && a + i.spec_size() <= usize::MAX {
                control_at(image, (a + i.spec_size()) as usize)
            } else {
                Ok(i)
            }
        },
    }
}

/// The edges `(from, to)` the walk of task `t` records from `a` on: one to
/// the next instruction for each instruction that does not transfer
/// control, then one to each successor task's start.
pub open spec fn walk_edges(image: Seq<u8>, t: Task, a: usize) -> Seq<(usize, usize)>
    decreases image.len() - a,
{
    match decoded(image, a) {
        Err(_) => Seq::empty(),
        Ok(i) => {
            if i.spec_flow() == Flow::Plain && a < image.len() && a + i.spec_size() <= image.len()
                && a + i.spec_size() <= usize::MAX {
                seq![(a, (a + i.spec_size()) as usize)] + walk_edges(image, t, (a + i.spec_size()) as usize)
            } else if unbalanced(t, i) {
                Seq::empty()
            } else {
                task_successors(t, i).map_values(|s: Task| (a, s.0))
            }
        },
    }
}

/// `m` with `e.0` appended to the recorded predecessors of `e.1`.
pub open spec fn add_edge(m: Map<usize, Seq<usize>>, e: (usize, usize)) -> Map<usize, Seq<usize>> {
    m.insert(e.1, if m.contains_key(e.1) { m[e.1].push(e.0) } else { seq![e.0] })
}

/// `m` with the edges `es` added in order.
pub open spec fn record_all(m: Map<usize, Seq<usize>>, es: Seq<(usize, usize)>) -> Map<usize, Seq<usize>>
    decreases es.len(),
{
    if es.len() == 0 {
        m
    } else {
        record_all(add_edge(m, es[0]), es.drop_first())
    }
}

/// Whether `from` is recorded as a predecessor of `to`.
pub open spec fn has_edge(m: Map<usize, Seq<usize>>, from: usize, to: usize) -> bool {
    m.contains_key(to) && m[to].contains(from)
}

proof fn lemma_record_one(m: Map<usize, Seq<usize>>, e: (usize, usize))
    ensures
        record_all(m, seq![e]) == add_edge(m, e),
{
    reveal_with_fuel(record_all, 2);
    assert(seq![e].drop_first() =~= Seq::<(usize, usize)>::empty());
}

proof fn lemma_record_two(m: Map<usize, Seq<usize>>, e1: (usize, usize), e2: (usize, usize))
    ensures
        record_all(m, seq![e1, e2]) == add_edge(add_edge(m, e1), e2),
{
    assert(seq![e1, e2].drop_first() =~= seq![e2]);
    lemma_record_one(add_edge(m, e1), e2);
}

proof fn lemma_record_prepend(m: Map<usize, Seq<usize>>, e: (usize, usize), es: Seq<(usize, usize)>)
    ensures
        record_all(m, seq![e] + es) == record_all(add_edge(m, e), es),
{
    assert((seq![e] + es).drop_first() =~= es);
}

proof fn lemma_add_edge_has(m: Map<usize, Seq<usize>>, e: (usize, usize), from: usize, to: usize)
    ensures
        has_edge(add_edge(m, e), from, to) <==> has_edge(m, from, to) || e == (from, to),
{
    let m1 = add_edge(m, e);
    if e.1 == to {
        if m.contains_key(to) {
            assert(m1[to] == m[to].push(e.0));
            if m[to].contains(from) {
                let k = choose|k: int| 0 <= k < m[to].len() && m[to][k] == from;
                assert(m1[to][k] == from);
            }
            if m1[to].contains(from) {
                let k = choose|k: int| 0 <= k < m1[to].len() && m1[to][k] == from;
                if k < m[to].len() {
                    assert(m[to][k] == from);
                }
            }
            assert(m1[to][m[to].len() as int] == e.0);
        } else {
            assert(m1[to] == seq![e.0]);
            assert(m1[to][0] == e.0);
            if m1[to].contains(from) {
                let k = choose|k: int| 0 <= k < m1[to].len() && m1[to][k] == from;
            }
        }
    } else {
        assert(m1.contains_key(to) == m.contains_key(to));
        if m.contains_key(to) {
            assert(m1[to] == m[to]);
        }
    }
}

/// An edge is recorded after adding `es` exactly when it was recorded
/// before or is one of `es`.
proof fn lemma_record_has_edge(m: Map<usize, Seq<usize>>, es: Seq<(usize, usize)>, from: usize, to: usize)
    ensures
        has_edge(record_all(m, es), from, to) <==> has_edge(m, from, to) || es.contains((from, to)),
    decreases es.len(),
{
    if es.len() > 0 {
        let m1 = add_edge(m, es[0]);
        lemma_record_has_edge(m1, es.drop_first(), from, to);
        lemma_add_edge_has(m, es[0], from, to);
        assert(es.contains((from, to)) <==> es[0] == (from, to) || es.drop_first().contains((from, to))) by {
            if es.contains((from, to)) {
                let k = choose|k: int| 0 <= k < es.len() && es[k] == (from, to);
                if k > 0 {
                    assert(es.drop_first()[k - 1] == (from, to));
                }
            }
            if es.drop_first().contains((from, to)) {
                let k = choose|k: int| 0 <= k < es.drop_first().len() && es.drop_first()[k] == (from, to);
                assert(es[k + 1] == (from, to));
            }
            assert(es[0] == es[0]);
        }
    }
}

/// Whether `i` returns from a task whose stack is empty.
pub open spec fn unbalanced(t: Task, i: Instruction) -> bool {
    i.spec_is_return() && t.1.len() == 0
}

/// The tasks that follow a task `t` whose walk ends at the control
/// instruction `i`, in the order in which they are scheduled.
pub open spec fn task_successors(t: Task, i: Instruction) -> Seq<Task> {
    let next = i.spec_next_address() as usize;
    let stack = t.1;
    match i.spec_flow() {
        Flow::Jump => seq![(i.spec_jump_target().unwrap() as usize, stack)],
        Flow::ConditionalJump(_) => seq![
            (i.spec_jump_target().unwrap() as usize, stack),
            (next, stack),
        ],
        Flow::Call => seq![(i.spec_call_target().unwrap() as usize, stack.push(next))],
        Flow::ConditionalCall(_) | Flow::Restart => seq![
            (i.spec_call_target().unwrap() as usize, stack.push(next)),
            (next, stack),
        ],
        Flow::Return => seq![(stack.last(), stack.drop_last())],
        Flow::ConditionalReturn(_) => seq![(stack.last(), stack.drop_last()), (next, stack)],
        _ => seq![],
    }
}

/// Whether `s` is scheduled when `p` is processed.
pub open spec fn is_successor(image: Seq<u8>, p: Task, s: Task) -> bool {
    match control_at(image, p.0) {
        Ok(i) => !unbalanced(p, i) && task_successors(p, i).contains(s),
        Err(_) => false,
    }
}

/// The task the exploration starts with.
pub open spec fn entry_task() -> Task {
    (ENTRY_POINT, Seq::empty())
}

/// Whether `path` is a chain of tasks from the entry task, each one
/// scheduled by the one before.
pub open spec fn is_path(image: Seq<u8>, path: Seq<Task>) -> bool {
    &&& path.len() > 0
    &&& path[0] == entry_task()
    &&& forall|k: int| 0 <= k < path.len() - 1 ==> is_successor(image, #[trigger] path[k], path[k + 1])
}

pub open spec fn reachable(image: Seq<u8>, t: Task) -> bool {
    exists|path: Seq<Task>| #[trigger] is_path(image, path) && path.last() == t
}

/// The first recorded predecessor of `a`, if any.
pub open spec fn first_ancestor(ancestors: Map<usize, Seq<usize>>, a: usize) -> Option<usize> {
    if ancestors.contains_key(a) && ancestors[a].len() > 0 {
        Some(ancestors[a][0])
    } else {
        None
    }
}

/// A pending exploration unit: a start address and the call context.
pub struct Todo {
    start_address: usize,
    return_addresses: Vec<usize>,
}

impl View for Todo {
    type V = Task;

    closed spec fn view(&self) -> Task {
        (self.start_address, self.return_addresses@)
    }
}

fn copy_stack(v: &Vec<usize>) -> (r: Vec<usize>)
    ensures
        r@ == v@,
{
    let mut r: Vec<usize> = Vec::new();
    let mut k: usize = 0;
    while k < v.len()
        invariant
            k <= v@.len(),
            r@ == v@.subrange(0, k as int),
        decreases v@.len() - k,
    {
        r.push(v[k]);
        k = k + 1;
        assert(r@ =~= v@.subrange(0, k as int));
    }
    assert(r@ =~= v@);
    r
}

fn same_stack(a: &Vec<usize>, b: &Vec<usize>) -> (r: bool)
    ensures
        r == (a@ == b@),
{
    if a.len() != b.len() {
        return false;
    }
    let mut k: usize = 0;
    while k < a.len()
        invariant
            a@.len() == b@.len(),
            k <= a@.len(),
            forall|j: int| 0 <= j < k ==> a@[j] == b@[j],
        decreases a@.len() - k,
    {
        if a[k] != b[k] {
            return false;
        }
        k = k + 1;
    }
    assert(a@ =~= b@);
    true
}

impl Todo {
    pub fn new(start_address: usize) -> (r: Todo)
        ensures
            r@ == (start_address, Seq::<usize>::empty()),
    {
        Todo { start_address, return_addresses: Vec::new() }
    }

    pub fn start_address(&self) -> (r: usize)
        ensures
            r == self@.0,
    {
        self.start_address
    }

    /// The same context, continued at `start_address`.
    pub fn continue_from(&self, start_address: usize) -> (r: Todo)
        ensures
            r@ == (start_address, self@.1),
    {
        Todo { start_address, return_addresses: copy_stack(&self.return_addresses) }
    }

    /// A call of `start_address` that returns to `return_address`.
    pub fn call(&self, start_address: usize, return_address: usize) -> (r: Todo)
        ensures
            r@ == (start_address, self@.1.push(return_address)),
    {
        let mut return_addresses = copy_stack(&self.return_addresses);
        return_addresses.push(return_address);
        Todo { start_address, return_addresses }
    }

    /// The return to the innermost caller.
    pub fn ret(&self) -> (r: Todo)
        requires
            self@.1.len() > 0,
        ensures
            r@ == (self@.1.last(), self@.1.drop_last()),
    {
        let mut return_addresses = copy_stack(&self.return_addresses);
        let start_address = return_addresses.pop().unwrap();
        assert(return_addresses@ =~= self@.1.drop_last());
        Todo { start_address, return_addresses }
    }

    pub fn has_return(&self) -> (r: bool)
        ensures
            r == (self@.1.len() > 0),
    {
        self.return_addresses.len() > 0
    }
}

/// Why an exploration stopped before it was complete.
#[derive(Clone, Copy, Debug, PartialEq, Eq, Structural)]
pub enum AnalysisError {
    /// No instruction could be decoded where a path led.
    Decode(DecodeError),
    /// A return was reached with no pending return address.
    UnbalancedReturn { address: usize },
    /// More than `MAX_TASKS` tasks were reachable.
    TaskLimit,
}

/// The state of an exploration: pending tasks, processed tasks, indirect
/// jumps met, and for each address the addresses control came from.
pub struct AnalysisData {
    todo: Vec<Todo>,
    done: HashMap<usize, Vec<Vec<usize>>>,
    done_count: usize,
    unknown_jumps: Vec<usize>,
    ancestors: HashMap<usize, Vec<usize>>,
}

impl AnalysisData {
    pub closed spec fn wf(&self) -> bool {
        forall|a: usize| #[trigger]
            self.done@.contains_key(a) ==> self.done@[a]@.len() > 0
    }

    /// Whether task `t` has been processed.
    pub closed spec fn is_done(&self, t: Task) -> bool {
        &&& self.done@.contains_key(t.0)
        &&& exists|k: int|
            0 <= k < self.done@[t.0]@.len() && (#[trigger] self.done@[t.0]@[k])@ == t.1
    }

    /// The pending tasks, last one first to run.
    pub closed spec fn pending(&self) -> Seq<Task> {
        self.todo@.map_values(|t: Todo| t@)
    }

    pub closed spec fn processed(&self) -> nat {
        self.done_count as nat
    }

    /// Addresses of the indirect jumps met, in the order they were met.
    pub closed spec fn spec_unknown_jumps(&self) -> Seq<usize> {
        self.unknown_jumps@
    }

    /// For each address, the addresses control came from, in the order
    /// they were recorded.
    pub closed spec fn spec_ancestors(&self) -> Map<usize, Seq<usize>> {
        self.ancestors@.map_values(|v: Vec<usize>| v@)
    }

    pub fn new() -> (r: AnalysisData)
        ensures
            r.wf(),
            forall|t: Task| !r.is_done(t),
            r.pending() == Seq::<Task>::empty(),
            r.processed() == 0,
            r.spec_unknown_jumps() == Seq::<usize>::empty(),
            r.spec_ancestors() == Map::<usize, Seq<usize>>::empty(),
    {
        let r = AnalysisData {
            todo: Vec::new(),
            done: HashMap::new(),
            done_count: 0,
            unknown_jumps: Vec::new(),
            ancestors: HashMap::new(),
        };
        assert(r.pending() =~= Seq::<Task>::empty());
        assert(r.spec_ancestors() =~= Map::<usize, Seq<usize>>::empty());
        r
    }

    /// Records that control passes from `from` to `to`.
    pub fn add_ancestor(&mut self, from: usize, to: usize)
        ensures
            final(self).spec_ancestors() == old(self).spec_ancestors().insert(
                to,
                if old(self).spec_ancestors().contains_key(to) {
                    old(self).spec_ancestors()[to].push(from)
                } else {
                    seq![from]
                },
            ),
            final(self).wf() == old(self).wf(),
            forall|t: Task| final(self).is_done(t) == old(self).is_done(t),
            final(self).pending() == old(self).pending(),
            final(self).processed() == old(self).processed(),
            final(self).spec_unknown_jumps() == old(self).spec_unknown_jumps(),
    {
        let mut list = match self.ancestors.remove(&to) {
            Some(v) => v,
            None => Vec::new(),
        };
        list.push(from);
        self.ancestors.insert(to, list);
        proof {
            let want = old(self).spec_ancestors().insert(
                to,
                if old(self).spec_ancestors().contains_key(to) {
                    old(self).spec_ancestors()[to].push(from)
                } else {
                    seq![from]
                },
            );
            assert(self.spec_ancestors() =~= want);
            assert forall|t: Task| self.is_done(t) == old(self).is_done(t) by {}
        }
    }

    /// The addresses control was recorded to come from before reaching
    /// `address`, in the order they were recorded.
    pub fn get_ancestors(&self, address: usize) -> (r: Vec<usize>)
        ensures
            r@ == if self.spec_ancestors().contains_key(address) {
                self.spec_ancestors()[address]
            } else {
                Seq::empty()
            },
    {
        match self.ancestors.get(&address) {
            Some(v) => copy_stack(v),
            None => Vec::new(),
        }
    }

    /// The path by which the exploration first reached `target`: the
    /// addresses from the entry point to `target`, each the first recorded
    /// predecessor of the next. Empty when `target` is the entry point. The
    /// path stops early at an address with no recorded predecessor, or when
    /// it grows past `MAX_TASKS` addresses.
    pub fn trace(&self, target: usize) -> (r: Vec<usize>)
        ensures
            target == ENTRY_POINT ==> r@.len() == 0,
            target != ENTRY_POINT ==> {
                &&& r@.len() > 0
                &&& r@.last() == target
                &&& forall|k: int| 0 <= k < r@.len() - 1 ==> first_ancestor(self.spec_ancestors(), #[trigger] r@[k + 1]) == Some(r@[k])
                &&& r@[0] == ENTRY_POINT || first_ancestor(self.spec_ancestors(), r@[0]).is_none() || r@.len() > MAX_TASKS
                &&& forall|k: int| 0 < k < r@.len() ==> r@[k] != ENTRY_POINT
            },
    {
        if target == ENTRY_POINT {
            return Vec::new();
        }
        let mut back: Vec<usize> = Vec::new();
        back.push(target);
        let mut current = target;
        let mut steps: usize = 0;
        while current != ENTRY_POINT && steps < MAX_TASKS
            invariant
                back@.len() == steps + 1,
                back@[0] == target,
                back@.last() == current,
                steps <= MAX_TASKS,
                forall|k: int| 0 <= k < back@.len() - 1 ==> back@[k] != ENTRY_POINT,
                target != ENTRY_POINT,
                forall|k: int| 0 <= k < back@.len() - 1 ==> first_ancestor(self.spec_ancestors(), #[trigger] back@[k]) == Some(back@[k + 1]),
            ensures
                back@.len() > 0,
                forall|k: int| 0 <= k < back@.len() - 1 ==> back@[k] != ENTRY_POINT,
                back@[0] == target,
                back@.last() == current,
                forall|k: int| 0 <= k < back@.len() - 1 ==> first_ancestor(self.spec_ancestors(), #[trigger] back@[k]) == Some(back@[k + 1]),
                current == ENTRY_POINT || first_ancestor(self.spec_ancestors(), current).is_none() || back@.len() > MAX_TASKS,
            decreases MAX_TASKS - steps,
        {
            let first = match self.ancestors.get(&current) {
                Some(list) => {
                    if list.len() > 0 {
                        Some(list[0])
                    } else {
                        None
                    }
                },
                None => None,
            };
            match first {
                Some(p) => {
                    proof {
                        assert(first_ancestor(self.spec_ancestors(), current) == Some(p));
                    }
                    back.push(p);
                    current = p;
                    steps = steps + 1;
                },
                None => {
                    proof {
                        assert(first_ancestor(self.spec_ancestors(), current).is_none());
                    }
                    break;
                },
            }
        }
        let ghost stopped = current == ENTRY_POINT || first_ancestor(self.spec_ancestors(), current).is_none() || back@.len() > MAX_TASKS;
        assert(stopped);
        let mut r: Vec<usize> = Vec::new();
        let mut k: usize = back.len();
        while k > 0
            invariant
                k <= back@.len(),
                r@.len() == back@.len() - k,
                forall|j: int| 0 <= j < r@.len() ==> r@[j] == back@[back@.len() - 1 - j],
            decreases k,
        {
            k = k - 1;
            r.push(back[k]);
        }
        proof {
            assert forall|j: int| 0 <= j < r@.len() - 1 implies first_ancestor(self.spec_ancestors(), #[trigger] r@[j + 1]) == Some(r@[j]) by {
                let i = back@.len() - 2 - j;
                assert(r@[j + 1] == back@[i]);
                assert(r@[j] == back@[i + 1]);
            }
            assert forall|k: int| 0 < k < r@.len() implies r@[k] != ENTRY_POINT by {
                assert(r@[k] == back@[back@.len() - 1 - k]);
            }
        }
        r
    }

    /// Addresses of the indirect jumps met.
    pub fn unknown_jumps(&self) -> (r: &Vec<usize>)
        ensures
            r@ == self.spec_unknown_jumps(),
    {
        &self.unknown_jumps
    }

    /// Whether `todo` has been processed.
    pub fn is_task_done(&self, todo: &Todo) -> (r: bool)
        requires
            self.wf(),
        ensures
            r == self.is_done(todo@),
    {
        match self.done.get(&todo.start_address) {
            None => false,
            Some(list) => {
                let mut k: usize = 0;
                while k < list.len()
                    invariant
                        self.done@.contains_key(todo@.0),
                        *list == self.done@[todo@.0],
                        k <= list@.len(),
                        forall|j: int| 0 <= j < k ==> (#[trigger] list@[j])@ != todo@.1,
                    decreases list@.len() - k,
                {
                    if same_stack(&list[k], &todo.return_addresses) {
                        return true;
                    }
                    k = k + 1;
                }
                false
            },
        }
    }

    /// Marks `todo` as processed.
    fn mark_done(&mut self, todo: Todo)
        requires
            old(self).wf(),
            !old(self).is_done(todo@),
            old(self).processed() < MAX_TASKS,
        ensures
            final(self).wf(),
            forall|t: Task| final(self).is_done(t) == (old(self).is_done(t) || t == todo@),
            final(self).pending() == old(self).pending(),
            final(self).processed() == old(self).processed() + 1,
            final(self).spec_unknown_jumps() == old(self).spec_unknown_jumps(),
            final(self).spec_ancestors() == old(self).spec_ancestors(),
    {
        let a = todo.start_address;
        let mut list = match self.done.remove(&a) {
            Some(v) => v,
            None => Vec::new(),
        };
        let ghost old_list = list@;
        list.push(todo.return_addresses);
        self.done.insert(a, list);
        self.done_count = self.done_count + 1;
        proof {
            if old(self).done@.contains_key(a) {
                assert(old_list == old(self).done@[a]@);
            } else {
                assert(old_list.len() == 0);
            }
            assert forall|t: Task| self.is_done(t) == (old(self).is_done(t) || t == todo@) by {
                if t.0 != a {
                    assert(self.done@.contains_key(t.0) == old(self).done@.contains_key(t.0));
                    if self.done@.contains_key(t.0) {
                        assert(self.done@[t.0] == old(self).done@[t.0]);
                    }
                } else {
                    let nl = self.done@[a]@;
                    assert(nl == old_list.push(todo.return_addresses));
                    if old(self).is_done(t) {
                        let k = choose|k: int|
                            0 <= k < old(self).done@[t.0]@.len() && (#[trigger] old(
                                self,
                            ).done@[t.0]@[k])@ == t.1;
                        assert(nl[k] == old_list[k]);
                    }
                    if t == todo@ {
                        assert(nl[nl.len() - 1]@ == t.1);
                    }
                    if self.is_done(t) && t != todo@ {
                        let k = choose|k: int|
                            0 <= k < nl.len() && (#[trigger] nl[k])@ == t.1;
                        assert(k < old_list.len());
                        assert(old(self).done@[t.0]@[k] == nl[k]);
                    }
                }
            }
            assert(self.spec_ancestors() =~= old(self).spec_ancestors());
        }
    }
}


/// Whether the walk of `t` ends at an indirect jump at `a`.
pub open spec fn indirect_at(image: Seq<u8>, t: Task, a: usize) -> bool {
    control_at(image, t.0) matches Ok(i) && i.spec_flow() == Flow::IndirectJump && i.address == a
}

/// Whether processing `t` fails: its walk meets an undecodable address, or
/// it returns with no pending return address.
pub open spec fn fails(image: Seq<u8>, t: Task) -> bool {
    match control_at(image, t.0) {
        Ok(i) => unbalanced(t, i),
        Err(_) => true,
    }
}

proof fn lemma_successor_reachable(image: Seq<u8>, p: Task, s: Task)
    requires
        reachable(image, p),
        is_successor(image, p, s),
    ensures
        reachable(image, s),
{
    let path = choose|path: Seq<Task>| #[trigger] is_path(image, path) && path.last() == p;
    let longer = path.push(s);
    assert forall|k: int| 0 <= k < longer.len() - 1 implies is_successor(
        image,
        #[trigger] longer[k],
        longer[k + 1],
    ) by {
        if k < path.len() - 1 {
            assert(is_successor(image, path[k], path[k + 1]));
        }
    }
    assert(is_path(image, longer));
}

proof fn lemma_entry_reachable(image: Seq<u8>)
    ensures
        reachable(image, entry_task()),
{
    let path = seq![entry_task()];
    assert(is_path(image, path));
}

proof fn lemma_path_done(image: Seq<u8>, d: &AnalysisData, path: Seq<Task>)
    requires
        d.is_done(entry_task()),
        forall|p: Task, s: Task| d.is_done(p) && #[trigger] is_successor(image, p, s) ==> d.is_done(s),
        is_path(image, path),
    ensures
        d.is_done(path.last()),
    decreases path.len(),
{
    if path.len() > 1 {
        let shorter = path.drop_last();
        assert forall|k: int| 0 <= k < shorter.len() - 1 implies is_successor(
            image,
            #[trigger] shorter[k],
            shorter[k + 1],
        ) by {
            assert(is_successor(image, path[k], path[k + 1]));
        }
        assert(is_path(image, shorter));
        lemma_path_done(image, d, shorter);
        assert(is_successor(image, path[path.len() - 2], path[path.len() - 1]));
    }
}

proof fn lemma_reachable_done(image: Seq<u8>, d: &AnalysisData, t: Task)
    requires
        d.is_done(entry_task()),
        forall|p: Task, s: Task| d.is_done(p) && #[trigger] is_successor(image, p, s) ==> d.is_done(s),
        reachable(image, t),
    ensures
        d.is_done(t),
{
    let path = choose|path: Seq<Task>| #[trigger] is_path(image, path) && path.last() == t;
    lemma_path_done(image, d, path);
}

/// Walks from the task's start to the first control-transferring
/// instruction, recording each edge on the way, and returns the tasks
/// that follow.
fn analyse_path(cartridge: &Cartridge, data: &mut AnalysisData, todo: &Todo) -> (r: Result<
    Vec<Todo>,
    AnalysisError,
>)
    ensures
        final(data).wf() == old(data).wf(),
        forall|t: Task| final(data).is_done(t) == old(data).is_done(t),
        final(data).pending() == old(data).pending(),
        final(data).processed() == old(data).processed(),
        final(data).spec_ancestors() == record_all(
            old(data).spec_ancestors(),
            walk_edges(cartridge@, todo@, todo@.0),
        ),
        r is Err ==> final(data).spec_unknown_jumps() == old(data).spec_unknown_jumps(),
        match control_at(cartridge@, todo@.0) {
            Err(e) => r == Err::<Vec<Todo>, AnalysisError>(AnalysisError::Decode(e)),
            Ok(i) => if unbalanced(todo@, i) {
                r == Err::<Vec<Todo>, AnalysisError>(
                    AnalysisError::UnbalancedReturn { address: i.address },
                )
            } else {
                &&& r matches Ok(v) && v@.map_values(|t: Todo| t@) == task_successors(todo@, i)
                &&& final(data).spec_unknown_jumps() == if i.spec_flow() == Flow::IndirectJump {
                    old(data).spec_unknown_jumps().push(i.address)
                } else {
                    old(data).spec_unknown_jumps()
                }
            },
        },
{
    let ghost image = cartridge@;
    let len = cartridge.len();
    let mut current = todo.start_address;
    if current >= len {
        assert(walk_edges(image, todo@, current) =~= Seq::<(usize, usize)>::empty());
        return Err(AnalysisError::Decode(DecodeError::OutOfImage { address: current }));
    }
    let mut result: Vec<Todo> = Vec::new();
    loop
        invariant
            current <= len,
            len == image.len(),
            image == cartridge@,
            control_at(image, current) == control_at(image, todo@.0),
            record_all(data.spec_ancestors(), walk_edges(image, todo@, current)) == record_all(
                old(data).spec_ancestors(),
                walk_edges(image, todo@, todo@.0),
            ),
            result@.len() == 0,
            data.wf() == old(data).wf(),
            forall|t: Task| data.is_done(t) == old(data).is_done(t),
            data.pending() == old(data).pending(),
            data.processed() == old(data).processed(),
            data.spec_unknown_jumps() == old(data).spec_unknown_jumps(),
        decreases len - current,
    {
        let instruction = match decode_at(cartridge, current) {
            Ok(i) => i,
            Err(e) => {
                assert(walk_edges(image, todo@, current) =~= Seq::<(usize, usize)>::empty());
                return Err(AnalysisError::Decode(e));
            },
        };
        let next = instruction.next_address();
        match instruction.flow() {
            Flow::Jump => {
                let ghost prev = data.spec_ancestors();
                let target = instruction.jump_target().unwrap();
                result.push(todo.continue_from(target));
                data.add_ancestor(current, target);
                proof {
                    assert(walk_edges(image, todo@, current) =~= seq![(current, target)]);
                    lemma_record_one(prev, (current, target));
                }
                assert(result@.map_values(|t: Todo| t@) =~= task_successors(todo@, instruction));
                return Ok(result);
            },
            Flow::ConditionalJump(_) => {
                let ghost prev = data.spec_ancestors();
                let target = instruction.jump_target().unwrap();
                result.push(todo.continue_from(target));
                data.add_ancestor(current, target);
                result.push(todo.continue_from(next));
                data.add_ancestor(current, next);
                proof {
                    assert(walk_edges(image, todo@, current) =~= seq![(current, target), (current, next)]);
                    lemma_record_two(prev, (current, target), (current, next));
                }
                assert(result@.map_values(|t: Todo| t@) =~= task_successors(todo@, instruction));
                return Ok(result);
            },
            Flow::IndirectJump => {
                let ghost pre = data.done;
                data.unknown_jumps.push(current);
                proof {
                    assert(walk_edges(image, todo@, current) =~= Seq::<(usize, usize)>::empty());
                    assert(data.done == pre);
                    assert forall|t: Task| data.is_done(t) == old(data).is_done(t) by {}
                }
                assert(result@.map_values(|t: Todo| t@) =~= task_successors(todo@, instruction));
                return Ok(result);
            },
            Flow::Call => {
                let ghost prev = data.spec_ancestors();
                let target = instruction.call_target().unwrap();
                result.push(todo.call(target, next));
                data.add_ancestor(current, target);
                proof {
                    assert(walk_edges(image, todo@, current) =~= seq![(current, target)]);
                    lemma_record_one(prev, (current, target));
                }
                assert(result@.map_values(|t: Todo| t@) =~= task_successors(todo@, instruction));
                return Ok(result);
            },
            Flow::ConditionalCall(_) | Flow::Restart => {
                let ghost prev = data.spec_ancestors();
                let target = instruction.call_target().unwrap();
                result.push(todo.call(target, next));
                data.add_ancestor(current, target);
                result.push(todo.continue_from(next));
                data.add_ancestor(current, next);
                proof {
                    assert(walk_edges(image, todo@, current) =~= seq![(current, target), (current, next)]);
                    lemma_record_two(prev, (current, target), (current, next));
                }
                assert(result@.map_values(|t: Todo| t@) =~= task_successors(todo@, instruction));
                return Ok(result);
            },
            Flow::Return => {
                if !todo.has_return() {
                    assert(walk_edges(image, todo@, current) =~= Seq::<(usize, usize)>::empty());
                    return Err(AnalysisError::UnbalancedReturn { address: current });
                }
                let ghost prev = data.spec_ancestors();
                let back = todo.ret();
                let return_address = back.start_address;
                result.push(back);
                data.add_ancestor(current, return_address);
                proof {
                    assert(walk_edges(image, todo@, current) =~= seq![(current, return_address)]);
                    lemma_record_one(prev, (current, return_address));
                }
                assert(result@.map_values(|t: Todo| t@) =~= task_successors(todo@, instruction));
                return Ok(result);
            },
            Flow::ConditionalReturn(_) => {
                if !todo.has_return() {
                    assert(walk_edges(image, todo@, current) =~= Seq::<(usize, usize)>::empty());
                    return Err(AnalysisError::UnbalancedReturn { address: current });
                }
                let ghost prev = data.spec_ancestors();
                let back = todo.ret();
                let return_address = back.start_address;
                result.push(back);
                data.add_ancestor(current, return_address);
                result.push(todo.continue_from(next));
                data.add_ancestor(current, next);
                proof {
                    assert(walk_edges(image, todo@, current) =~= seq![(current, return_address), (current, next)]);
                    lemma_record_two(prev, (current, return_address), (current, next));
                }
                assert(result@.map_values(|t: Todo| t@) =~= task_successors(todo@, instruction));
                return Ok(result);
            },
            Flow::Plain => {
                let ghost prev = data.spec_ancestors();
                data.add_ancestor(current, next);
                proof {
                    assert(walk_edges(image, todo@, current) == seq![(current, next)] + walk_edges(image, todo@, next));
                    lemma_record_prepend(prev, (current, next), walk_edges(image, todo@, next));
                }
                current = next;
            },
        }
    }
}


/// The loop invariant of the exploration: processed and pending tasks are
/// reachable, processed tasks did not fail, every successor of a processed
/// task is processed or pending, and the indirect jumps met are those of
/// the processed tasks.
#[verifier::opaque]
pub open spec fn exploring(image: Seq<u8>, d: &AnalysisData) -> bool {
    &&& d.wf()
    &&& forall|t: Task| #[trigger] d.is_done(t) ==> reachable(image, t) && !fails(image, t)
    &&& forall|k: int| 0 <= k < d.pending().len() ==> reachable(image, #[trigger] d.pending()[k])
    &&& forall|p: Task, s: Task|
        d.is_done(p) && #[trigger] is_successor(image, p, s) ==> d.is_done(s) || d.pending().contains(s)
    &&& d.is_done(entry_task()) || d.pending().contains(entry_task())
    &&& forall|a: usize|
        d.spec_unknown_jumps().contains(a) <==> exists|t: Task| d.is_done(t) && #[trigger] indirect_at(image, t, a)
    &&& d.processed() <= MAX_TASKS
}

/// The recorded edges are exactly those of the walks of processed tasks.
#[verifier::opaque]
pub open spec fn edges_recorded(image: Seq<u8>, d: &AnalysisData) -> bool {
    forall|from: usize, to: usize| #[trigger]
        has_edge(d.spec_ancestors(), from, to) <==> exists|t: Task|
            d.is_done(t) && #[trigger] walk_edges(image, t, t.0).contains((from, to))
}

proof fn lemma_edges_init(image: Seq<u8>, d: AnalysisData)
    requires
        forall|t: Task| !d.is_done(t),
        d.spec_ancestors() == Map::<usize, Seq<usize>>::empty(),
    ensures
        edges_recorded(image, &d),
{
    reveal(edges_recorded);
}

proof fn lemma_edges_frame(image: Seq<u8>, before: AnalysisData, after: AnalysisData)
    requires
        edges_recorded(image, &before),
        forall|u: Task| #[trigger] after.is_done(u) == before.is_done(u),
        after.spec_ancestors() == before.spec_ancestors(),
    ensures
        edges_recorded(image, &after),
{
    reveal(edges_recorded);
    assert forall|from: usize, to: usize| #[trigger]
        has_edge(after.spec_ancestors(), from, to) <==> exists|t: Task|
            after.is_done(t) && #[trigger] walk_edges(image, t, t.0).contains((from, to)) by {
        if exists|t: Task| after.is_done(t) && #[trigger] walk_edges(image, t, t.0).contains((from, to)) {
            let t = choose|t: Task| after.is_done(t) && #[trigger] walk_edges(image, t, t.0).contains((from, to));
            assert(before.is_done(t));
        }
        if has_edge(after.spec_ancestors(), from, to) {
            let t = choose|t: Task| before.is_done(t) && #[trigger] walk_edges(image, t, t.0).contains((from, to));
            assert(after.is_done(t));
        }
    }
}

proof fn lemma_edges_step(image: Seq<u8>, before: AnalysisData, after: AnalysisData, t: Task)
    requires
        edges_recorded(image, &before),
        forall|u: Task| #[trigger] after.is_done(u) == (before.is_done(u) || u == t),
        after.spec_ancestors() == record_all(before.spec_ancestors(), walk_edges(image, t, t.0)),
    ensures
        edges_recorded(image, &after),
{
    reveal(edges_recorded);
    assert forall|from: usize, to: usize| #[trigger]
        has_edge(after.spec_ancestors(), from, to) <==> exists|u: Task|
            after.is_done(u) && #[trigger] walk_edges(image, u, u.0).contains((from, to)) by {
        lemma_record_has_edge(before.spec_ancestors(), walk_edges(image, t, t.0), from, to);
        if exists|u: Task| after.is_done(u) && #[trigger] walk_edges(image, u, u.0).contains((from, to)) {
            let u = choose|u: Task| after.is_done(u) && #[trigger] walk_edges(image, u, u.0).contains((from, to));
            if u != t {
                assert(before.is_done(u));
            }
        }
        if has_edge(after.spec_ancestors(), from, to) {
            if has_edge(before.spec_ancestors(), from, to) {
                let u = choose|u: Task| before.is_done(u) && #[trigger] walk_edges(image, u, u.0).contains((from, to));
                assert(after.is_done(u));
            } else {
                assert(after.is_done(t));
            }
        }
    }
}

proof fn lemma_edges_final(image: Seq<u8>, d: AnalysisData)
    requires
        edges_recorded(image, &d),
        forall|t: Task| #[trigger] d.is_done(t) <==> reachable(image, t),
    ensures
        forall|from: usize, to: usize| #[trigger]
            has_edge(d.spec_ancestors(), from, to) <==> exists|t: Task|
                reachable(image, t) && #[trigger] walk_edges(image, t, t.0).contains((from, to)),
{
    reveal(edges_recorded);
    assert forall|from: usize, to: usize| #[trigger]
        has_edge(d.spec_ancestors(), from, to) <==> exists|t: Task|
            reachable(image, t) && #[trigger] walk_edges(image, t, t.0).contains((from, to)) by {
        if exists|t: Task| reachable(image, t) && #[trigger] walk_edges(image, t, t.0).contains((from, to)) {
            let t = choose|t: Task| reachable(image, t) && #[trigger] walk_edges(image, t, t.0).contains((from, to));
            assert(d.is_done(t));
        }
        if has_edge(d.spec_ancestors(), from, to) {
            let t = choose|t: Task| d.is_done(t) && #[trigger] walk_edges(image, t, t.0).contains((from, to));
            assert(reachable(image, t));
        }
    }
}

/// The exploration gave up: `MAX_TASKS` distinct tasks were processed, all
/// of them reachable.
pub open spec fn task_limit_reached(image: Seq<u8>, d: &AnalysisData) -> bool {
    &&& done_tasks(d).finite()
    &&& done_tasks(d).len() == MAX_TASKS
    &&& forall|t: Task| #[trigger] done_tasks(d).contains(t) ==> reachable(image, t)
}

/// The processed tasks.
pub open spec fn done_tasks(d: &AnalysisData) -> Set<Task> {
    Set::new(|t: Task| d.is_done(t))
}

/// Every task reachable from the entry task.
pub open spec fn reachable_tasks(image: Seq<u8>) -> Set<Task> {
    Set::new(|t: Task| reachable(image, t))
}

/// How often `a` occurs in `s`.
pub open spec fn count_of(s: Seq<usize>, a: usize) -> nat
    decreases s.len(),
{
    if s.len() == 0 {
        0
    } else {
        count_of(s.drop_last(), a) + if s.last() == a {
            1nat
        } else {
            0nat
        }
    }
}

/// The processed tasks whose walk ends at an indirect jump at `a`.
pub open spec fn indirect_tasks(image: Seq<u8>, d: &AnalysisData, a: usize) -> Set<Task> {
    done_tasks(d).filter(|t: Task| indirect_at(image, t, a))
}

/// The processed tasks are finitely many, as many as the count says, and
/// each address occurs in the indirect-jump list once for each processed
/// task whose walk ends at an indirect jump there.
#[verifier::opaque]
pub open spec fn counted(image: Seq<u8>, d: &AnalysisData) -> bool {
    &&& done_tasks(d).finite()
    &&& done_tasks(d).len() == d.processed()
    &&& forall|a: usize| #[trigger] count_of(d.spec_unknown_jumps(), a) == indirect_tasks(image, d, a).len()
}

proof fn lemma_count_push(s: Seq<usize>, x: usize, a: usize)
    ensures
        count_of(s.push(x), a) == count_of(s, a) + if x == a {
            1nat
        } else {
            0nat
        },
{
    assert(s.push(x).drop_last() =~= s);
}

proof fn lemma_counted_init(image: Seq<u8>, d: AnalysisData)
    requires
        forall|t: Task| !d.is_done(t),
        d.processed() == 0,
        d.spec_unknown_jumps() == Seq::<usize>::empty(),
    ensures
        counted(image, &d),
{
    reveal(counted);
    assert(done_tasks(&d) =~= Set::<Task>::empty());
    assert forall|a: usize| #[trigger] count_of(d.spec_unknown_jumps(), a) == indirect_tasks(image, &d, a).len() by {
        assert(indirect_tasks(image, &d, a) =~= Set::<Task>::empty());
    }
}

proof fn lemma_counted_frame(image: Seq<u8>, before: AnalysisData, after: AnalysisData)
    requires
        counted(image, &before),
        forall|u: Task| #[trigger] after.is_done(u) == before.is_done(u),
        after.spec_unknown_jumps() == before.spec_unknown_jumps(),
        after.processed() == before.processed(),
    ensures
        counted(image, &after),
{
    reveal(counted);
    assert(done_tasks(&after) =~= done_tasks(&before));
    assert forall|a: usize| #[trigger] count_of(after.spec_unknown_jumps(), a) == indirect_tasks(image, &after, a).len() by {
        assert(indirect_tasks(image, &after, a) =~= indirect_tasks(image, &before, a));
    }
}

proof fn lemma_counted_step(image: Seq<u8>, before: AnalysisData, after: AnalysisData, t: Task, ctrl: Instruction)
    requires
        counted(image, &before),
        !before.is_done(t),
        control_at(image, t.0) == Ok::<Instruction, DecodeError>(ctrl),
        forall|u: Task| #[trigger] after.is_done(u) == (before.is_done(u) || u == t),
        after.spec_unknown_jumps() == if ctrl.spec_flow() == Flow::IndirectJump {
            before.spec_unknown_jumps().push(ctrl.address)
        } else {
            before.spec_unknown_jumps()
        },
        after.processed() == before.processed() + 1,
    ensures
        counted(image, &after),
{
    reveal(counted);
    assert(done_tasks(&after) =~= done_tasks(&before).insert(t));
    assert forall|a: usize| #[trigger] count_of(after.spec_unknown_jumps(), a) == indirect_tasks(image, &after, a).len() by {
        let old_set = indirect_tasks(image, &before, a);
        lemma_len_subset(old_set, done_tasks(&before));
        if indirect_at(image, t, a) {
            assert(indirect_tasks(image, &after, a) =~= old_set.insert(t));
            lemma_count_push(before.spec_unknown_jumps(), ctrl.address, a);
        } else {
            assert(indirect_tasks(image, &after, a) =~= old_set);
            if ctrl.spec_flow() == Flow::IndirectJump {
                lemma_count_push(before.spec_unknown_jumps(), ctrl.address, a);
            }
        }
    }
}

/// How an exploration that stopped at task `t` with error `e` leaves its
/// state: `t` is reachable and fails with `e`, it was not processed, the
/// recorded edges are those of the processed tasks and of `t`'s walk up to
/// the failure, and the indirect jumps are those of the processed tasks.
pub open spec fn failed_with(image: Seq<u8>, d: &AnalysisData, t: Task, e: AnalysisError) -> bool {
    &&& reachable(image, t)
    &&& !d.is_done(t)
    &&& match control_at(image, t.0) {
        Err(de) => e == AnalysisError::Decode(de),
        Ok(i) => unbalanced(t, i) && e == AnalysisError::UnbalancedReturn { address: i.address },
    }
    &&& forall|from: usize, to: usize| #[trigger]
        has_edge(d.spec_ancestors(), from, to) <==> (exists|u: Task|
            d.is_done(u) && #[trigger] walk_edges(image, u, u.0).contains((from, to)))
            || walk_edges(image, t, t.0).contains((from, to))
    &&& forall|a: usize|
        d.spec_unknown_jumps().contains(a) <==> exists|u: Task| d.is_done(u) && #[trigger] indirect_at(image, u, a)
}

proof fn lemma_failed_state(image: Seq<u8>, before: AnalysisData, after: AnalysisData, t: Task, e: AnalysisError)
    requires
        exploring(image, &before),
        edges_recorded(image, &before),
        reachable(image, t),
        !before.is_done(t),
        match control_at(image, t.0) {
            Err(de) => e == AnalysisError::Decode(de),
            Ok(i) => unbalanced(t, i) && e == AnalysisError::UnbalancedReturn { address: i.address },
        },
        forall|u: Task| #[trigger] after.is_done(u) == before.is_done(u),
        after.spec_unknown_jumps() == before.spec_unknown_jumps(),
        after.spec_ancestors() == record_all(before.spec_ancestors(), walk_edges(image, t, t.0)),
    ensures
        failed_with(image, &after, t, e),
{
    reveal(exploring);
    reveal(edges_recorded);
    assert forall|from: usize, to: usize| #[trigger]
        has_edge(after.spec_ancestors(), from, to) <==> (exists|u: Task|
            after.is_done(u) && #[trigger] walk_edges(image, u, u.0).contains((from, to)))
            || walk_edges(image, t, t.0).contains((from, to)) by {
        lemma_record_has_edge(before.spec_ancestors(), walk_edges(image, t, t.0), from, to);
        if exists|u: Task| after.is_done(u) && #[trigger] walk_edges(image, u, u.0).contains((from, to)) {
            let u = choose|u: Task| after.is_done(u) && #[trigger] walk_edges(image, u, u.0).contains((from, to));
            assert(before.is_done(u));
        }
        if has_edge(before.spec_ancestors(), from, to) {
            let u = choose|u: Task| before.is_done(u) && #[trigger] walk_edges(image, u, u.0).contains((from, to));
            assert(after.is_done(u));
        }
    }
    assert forall|a: usize|
        after.spec_unknown_jumps().contains(a) <==> exists|u: Task| after.is_done(u) && #[trigger] indirect_at(image, u, a) by {
        if exists|u: Task| after.is_done(u) && #[trigger] indirect_at(image, u, a) {
            let u = choose|u: Task| after.is_done(u) && #[trigger] indirect_at(image, u, a);
            assert(before.is_done(u));
        }
        if after.spec_unknown_jumps().contains(a) {
            let u = choose|u: Task| before.is_done(u) && #[trigger] indirect_at(image, u, a);
            assert(after.is_done(u));
        }
    }
}

proof fn lemma_init(image: Seq<u8>, d: AnalysisData)
    requires
        d.wf(),
        forall|t: Task| !d.is_done(t),
        d.pending() == seq![entry_task()],
        d.processed() == 0,
        d.spec_unknown_jumps() == Seq::<usize>::empty(),
    ensures
        exploring(image, &d),
{
    reveal(exploring);
    lemma_entry_reachable(image);
    assert(d.pending()[0] == entry_task());
    assert forall|a: usize| d.spec_unknown_jumps().contains(a) <==> exists|t: Task| d.is_done(t) && #[trigger] indirect_at(image, t, a) by {
        assert(!d.spec_unknown_jumps().contains(a));
    }
}

proof fn lemma_sound(image: Seq<u8>, d: AnalysisData)
    requires
        exploring(image, &d),
    ensures
        forall|t: Task| #[trigger] d.is_done(t) ==> reachable(image, t) && !fails(image, t),
        forall|k: int| 0 <= k < d.pending().len() ==> reachable(image, #[trigger] d.pending()[k]),
        d.processed() <= MAX_TASKS,
        d.wf(),
{
    reveal(exploring);
}

proof fn lemma_finished(image: Seq<u8>, d: AnalysisData)
    requires
        exploring(image, &d),
        d.pending().len() == 0,
    ensures
        forall|t: Task| #[trigger] d.is_done(t) <==> reachable(image, t),
        forall|a: usize|
            d.spec_unknown_jumps().contains(a) <==> exists|t: Task|
                reachable(image, t) && #[trigger] indirect_at(image, t, a),
{
    reveal(exploring);
    assert(d.is_done(entry_task()));
    assert forall|p: Task, s: Task| d.is_done(p) && #[trigger] is_successor(image, p, s) implies d.is_done(s) by {
        assert(!d.pending().contains(s));
    }
    assert forall|t: Task| #[trigger] d.is_done(t) <==> reachable(image, t) by {
        if reachable(image, t) {
            lemma_reachable_done(image, &d, t);
        }
    }
    assert forall|a: usize|
        d.spec_unknown_jumps().contains(a) <==> exists|t: Task|
            reachable(image, t) && #[trigger] indirect_at(image, t, a) by {
        if exists|t: Task| reachable(image, t) && #[trigger] indirect_at(image, t, a) {
            let t = choose|t: Task| reachable(image, t) && #[trigger] indirect_at(image, t, a);
            assert(d.is_done(t));
        }
    }
}

proof fn lemma_skip_frame(image: Seq<u8>, before: AnalysisData, after: AnalysisData)
    requires
        exploring(image, &before),
        after.pending() == before.pending(),
        forall|u: Task| #[trigger] after.is_done(u) == before.is_done(u),
        after.spec_unknown_jumps() == before.spec_unknown_jumps(),
        after.processed() == before.processed(),
        after.wf() == before.wf(),
    ensures
        exploring(image, &after),
{
    reveal(exploring);
    assert forall|p: Task, s: Task| after.is_done(p) && #[trigger] is_successor(image, p, s) implies after.is_done(s) || after.pending().contains(s) by {
        assert(before.is_done(p));
    }
    assert forall|u: Task| #[trigger] after.is_done(u) implies reachable(image, u) && !fails(image, u) by {
        assert(before.is_done(u));
    }
    lemma_indirect_frame(image, before, after);
}

/// With the same processed tasks and the same list, the indirect jumps
/// recorded are still those of the processed tasks.
proof fn lemma_indirect_frame(image: Seq<u8>, before: AnalysisData, after: AnalysisData)
    requires
        forall|a: usize|
            before.spec_unknown_jumps().contains(a) <==> exists|u: Task| before.is_done(u) && #[trigger] indirect_at(image, u, a),
        forall|u: Task| #[trigger] after.is_done(u) == before.is_done(u),
        after.spec_unknown_jumps() == before.spec_unknown_jumps(),
    ensures
        forall|a: usize|
            after.spec_unknown_jumps().contains(a) <==> exists|u: Task| after.is_done(u) && #[trigger] indirect_at(image, u, a),
{
    assert forall|a: usize| after.spec_unknown_jumps().contains(a) <==> exists|u: Task| after.is_done(u) && #[trigger] indirect_at(image, u, a) by {
        if exists|u: Task| after.is_done(u) && #[trigger] indirect_at(image, u, a) {
            let u = choose|u: Task| after.is_done(u) && #[trigger] indirect_at(image, u, a);
            assert(before.is_done(u));
        }
        if after.spec_unknown_jumps().contains(a) {
            let u = choose|u: Task| before.is_done(u) && #[trigger] indirect_at(image, u, a);
            assert(after.is_done(u));
        }
    }
}

/// Popping a pending task that was already processed keeps the invariant.
proof fn lemma_skip(image: Seq<u8>, before: AnalysisData, after: AnalysisData, t: Task)
    requires
        exploring(image, &before),
        before.pending().len() > 0,
        before.pending().last() == t,
        before.is_done(t),
        after.pending() == before.pending().drop_last(),
        forall|u: Task| #[trigger] after.is_done(u) == before.is_done(u),
        after.spec_unknown_jumps() == before.spec_unknown_jumps(),
        after.processed() == before.processed(),
        after.wf() == before.wf(),
    ensures
        exploring(image, &after),
{
    reveal(exploring);
    assert forall|p: Task, s: Task| after.is_done(p) && #[trigger] is_successor(image, p, s) implies after.is_done(s) || after.pending().contains(s) by {
        assert(before.is_done(p));
        assert(before.is_done(s) || before.pending().contains(s));
        if before.pending().contains(s) && s != t {
            let k = choose|k: int| 0 <= k < before.pending().len() && before.pending()[k] == s;
            assert(after.pending()[k] == s);
        }
    }
    if !after.is_done(entry_task()) {
        let k = choose|k: int| 0 <= k < before.pending().len() && before.pending()[k] == entry_task();
        assert(after.pending()[k] == entry_task());
    }
    assert forall|k: int| 0 <= k < after.pending().len() implies reachable(image, #[trigger] after.pending()[k]) by {
        assert(after.pending()[k] == before.pending()[k]);
    }
    assert forall|u: Task| #[trigger] after.is_done(u) implies reachable(image, u) && !fails(image, u) by {
        assert(before.is_done(u));
    }
    lemma_indirect_frame(image, before, after);
}

/// Processing the last pending task, which had not been processed, keeps
/// the invariant.
proof fn lemma_step(
    image: Seq<u8>,
    before: AnalysisData,
    after: AnalysisData,
    t: Task,
    ctrl: Instruction,
)
    requires
        exploring(image, &before),
        before.pending().len() > 0,
        before.pending().last() == t,
        !before.is_done(t),
        control_at(image, t.0) == Ok::<Instruction, DecodeError>(ctrl),
        !unbalanced(t, ctrl),
        after.pending() == before.pending().drop_last() + task_successors(t, ctrl),
        forall|u: Task| #[trigger] after.is_done(u) == (before.is_done(u) || u == t),
        after.spec_unknown_jumps() == if ctrl.spec_flow() == Flow::IndirectJump {
            before.spec_unknown_jumps().push(ctrl.address)
        } else {
            before.spec_unknown_jumps()
        },
        after.processed() == before.processed() + 1,
        after.processed() <= MAX_TASKS,
        after.wf(),
    ensures
        exploring(image, &after),
{
    reveal(exploring);
    let n = before.pending().len() - 1;
    let succ = task_successors(t, ctrl);
    assert(before.pending()[n] == t);
    assert(reachable(image, t));
    assert forall|s: Task| #[trigger] is_successor(image, t, s) implies after.pending().contains(s) by {
        let k = choose|k: int| 0 <= k < succ.len() && succ[k] == s;
        assert(after.pending()[n + k] == s);
    }
    assert forall|k: int| 0 <= k < after.pending().len() implies reachable(image, #[trigger] after.pending()[k]) by {
        if k < n {
            assert(after.pending()[k] == before.pending()[k]);
        } else {
            let s = after.pending()[k];
            assert(succ[k - n] == s);
            assert(succ.contains(s));
            assert(is_successor(image, t, s));
            lemma_successor_reachable(image, t, s);
        }
    }
    assert forall|p: Task, s: Task| after.is_done(p) && #[trigger] is_successor(image, p, s) implies after.is_done(s) || after.pending().contains(s) by {
        if p != t {
            assert(before.is_done(p));
            assert(before.is_done(s) || before.pending().contains(s));
            if before.pending().contains(s) && s != t {
                let k = choose|k: int| 0 <= k < before.pending().len() && before.pending()[k] == s;
                assert(after.pending()[k] == s);
            }
        }
    }
    if !after.is_done(entry_task()) {
        let k = choose|k: int| 0 <= k < before.pending().len() && before.pending()[k] == entry_task();
        assert(after.pending()[k] == entry_task());
    }
    assert forall|u: Task| #[trigger] after.is_done(u) implies reachable(image, u) && !fails(image, u) by {
        if u != t {
            assert(before.is_done(u));
        }
    }
    assert forall|a: usize| after.spec_unknown_jumps().contains(a) <==> exists|u: Task| after.is_done(u) && #[trigger] indirect_at(image, u, a) by {
        if after.spec_unknown_jumps().contains(a) {
            if before.spec_unknown_jumps().contains(a) {
                let u = choose|u: Task| before.is_done(u) && #[trigger] indirect_at(image, u, a);
                assert(after.is_done(u));
            } else {
                let k = choose|k: int| 0 <= k < after.spec_unknown_jumps().len() && after.spec_unknown_jumps()[k] == a;
                assert(k == before.spec_unknown_jumps().len());
                assert(indirect_at(image, t, a));
                assert(after.is_done(t));
            }
        }
        if exists|u: Task| after.is_done(u) && #[trigger] indirect_at(image, u, a) {
            let u = choose|u: Task| after.is_done(u) && #[trigger] indirect_at(image, u, a);
            if u == t {
                assert(after.spec_unknown_jumps().last() == a);
            } else {
                assert(before.is_done(u));
                assert(before.spec_unknown_jumps().contains(a));
                let k = choose|k: int| 0 <= k < before.spec_unknown_jumps().len() && before.spec_unknown_jumps()[k] == a;
                assert(after.spec_unknown_jumps()[k] == a);
            }
        }
    }
}

/// Explores all paths from the entry point, processing each distinct task
/// once, until no task is pending or one of them fails.
fn analyse_static_paths(cartridge: &Cartridge, data: &mut AnalysisData) -> (r: Result<
    (),
    AnalysisError,
>)
    requires
        old(data).wf(),
        forall|t: Task| !old(data).is_done(t),
        old(data).pending() == Seq::<Task>::empty(),
        old(data).processed() == 0,
        old(data).spec_unknown_jumps() == Seq::<usize>::empty(),
        old(data).spec_ancestors() == Map::<usize, Seq<usize>>::empty(),
    ensures
        forall|t: Task| #[trigger] final(data).is_done(t) ==> reachable(cartridge@, t) && !fails(cartridge@, t),
        r is Ok ==> explored(cartridge@, final(data)) && counted(cartridge@, final(data)),
        r matches Err(e) ==> stopped_with(cartridge@, final(data), e),
{
    let ghost image = cartridge@;
    let ghost fresh = *data;
    data.todo.push(Todo::new(ENTRY_POINT));
    proof {
        assert forall|t: Task| !data.is_done(t) by {
            assert(!fresh.is_done(t));
        }
        assert(data.pending() =~= seq![entry_task()]);
        lemma_init(image, *data);
        assert(data.spec_ancestors() == fresh.spec_ancestors());
        lemma_edges_init(image, *data);
        lemma_counted_init(image, *data);
    }
    loop
        invariant
            image == cartridge@,
            exploring(image, data),
            edges_recorded(image, data),
            counted(image, data),
        decreases MAX_TASKS - data.processed(), data.pending().len(),
    {
        let ghost before = *data;
        proof {
            lemma_sound(image, before);
        }
        let popped = data.todo.pop();
        proof {
            assert forall|t: Task| #[trigger] data.is_done(t) == before.is_done(t) by {}
            assert(data.spec_ancestors() == before.spec_ancestors());
            lemma_edges_frame(image, before, *data);
            assert(data.spec_unknown_jumps() == before.spec_unknown_jumps());
            lemma_counted_frame(image, before, *data);
        }
        let todo = match popped {
            None => {
                proof {
                    assert(data.pending() =~= before.pending());
                    lemma_skip_frame(image, before, *data);
                    lemma_finished(image, *data);
                    lemma_edges_final(image, *data);
                    assert(data.pending().len() == 0);
                    lemma_sound(image, *data);
                    assert forall|t: Task| reachable(image, t) implies !#[trigger] fails(image, t) by {
                        assert(data.is_done(t));
                    }
                }
                return Ok(());
            },
            Some(t) => t,
        };
        proof {
            assert(before.pending() =~= data.pending().push(todo@));
            assert(data.pending() =~= before.pending().drop_last());
            assert(before.pending()[before.pending().len() - 1] == todo@);
        }
        if data.is_task_done(&todo) {
            proof {
                lemma_skip(image, before, *data, todo@);
            }
            continue;
        }
        if data.done_count >= MAX_TASKS {
            proof {
                reveal(counted);
                assert forall|t: Task| #[trigger] done_tasks(data).contains(t) implies reachable(image, t) by {
                    assert(data.is_done(t));
                    assert(before.is_done(t));
                }
            }
            return Err(AnalysisError::TaskLimit);
        }
        let ghost mid = *data;
        let next = match analyse_path(cartridge, data, &todo) {
            Ok(v) => v,
            Err(e) => {
                proof {
                    assert(reachable(image, todo@));
                    assert(before.is_done(todo@) == mid.is_done(todo@));
                    assert forall|u: Task| #[trigger] data.is_done(u) == before.is_done(u) by {
                        assert(mid.is_done(u) == before.is_done(u));
                    }
                    lemma_failed_state(image, before, *data, todo@, e);
                    assert forall|u: Task| #[trigger] data.is_done(u) implies reachable(image, u) && !fails(image, u) by {
                        assert(mid.is_done(u));
                        assert(before.is_done(u));
                    }
                }
                return Err(e);
            },
        };
        let ghost t = todo@;
        let ghost ctrl = match control_at(image, t.0) {
            Ok(i) => i,
            Err(_) => arbitrary(),
        };
        let ghost after_path = *data;
        let mut next = next;
        data.todo.append(&mut next);
        let ghost appended = *data;
        proof {
            assert(appended.done == after_path.done);
            assert forall|u: Task| appended.is_done(u) == before.is_done(u) by {
                assert(after_path.is_done(u) == mid.is_done(u));
                assert(mid.is_done(u) == before.is_done(u));
            }
            assert(appended.pending() =~= mid.pending() + task_successors(t, ctrl));
        }
        data.mark_done(todo);
        proof {
            lemma_step(image, before, *data, t, ctrl);
            assert(appended.spec_ancestors() == after_path.spec_ancestors());
            lemma_edges_step(image, before, *data, t);
            lemma_counted_step(image, before, *data, t, ctrl);
        }
    }
}

/// What a complete exploration leaves: no task pending, exactly the
/// reachable tasks processed, none of them failing, and exactly the
/// indirect jumps and edges met on their walks recorded.
pub open spec fn explored(image: Seq<u8>, d: &AnalysisData) -> bool {
    &&& d.pending().len() == 0
    &&& forall|t: Task| #[trigger] d.is_done(t) <==> reachable(image, t)
    &&& forall|t: Task| reachable(image, t) ==> !#[trigger] fails(image, t)
    &&& forall|a: usize|
        d.spec_unknown_jumps().contains(a) <==> exists|t: Task|
            reachable(image, t) && #[trigger] indirect_at(image, t, a)
    &&& forall|from: usize, to: usize| #[trigger]
        has_edge(d.spec_ancestors(), from, to) <==> exists|t: Task|
            reachable(image, t) && #[trigger] walk_edges(image, t, t.0).contains((from, to))
}

/// Idempotence: two complete explorations of one image process the same
/// tasks, record the same indirect jumps, each as often, and the same
/// edges; only the order in which they were recorded may differ.
pub proof fn lemma_exploration_unique(image: Seq<u8>, d1: &AnalysisData, d2: &AnalysisData)
    requires
        explored(image, d1),
        explored(image, d2),
        counted(image, d1),
        counted(image, d2),
    ensures
        forall|a: usize| #[trigger] count_of(d1.spec_unknown_jumps(), a) == count_of(d2.spec_unknown_jumps(), a),
        forall|t: Task| #[trigger] d1.is_done(t) == d2.is_done(t),
        forall|a: usize| #[trigger] d1.spec_unknown_jumps().contains(a) == d2.spec_unknown_jumps().contains(a),
        forall|from: usize, to: usize| #[trigger] has_edge(d1.spec_ancestors(), from, to) == has_edge(d2.spec_ancestors(), from, to),
{
    assert forall|a: usize| #[trigger] d1.spec_unknown_jumps().contains(a) == d2.spec_unknown_jumps().contains(a) by {
        assert(d1.spec_unknown_jumps().contains(a) == exists|t: Task| reachable(image, t) && #[trigger] indirect_at(image, t, a));
    }
    reveal(counted);
    assert forall|a: usize| #[trigger] count_of(d1.spec_unknown_jumps(), a) == count_of(d2.spec_unknown_jumps(), a) by {
        assert(indirect_tasks(image, d1, a) =~= indirect_tasks(image, d2, a));
    }
}

/// How an exploration that stopped early leaves its state: the processed
/// tasks are reachable and did not fail; on `TaskLimit` there are
/// `MAX_TASKS` of them, and otherwise some reachable task failed with `e`
/// as `failed_with` describes.
pub open spec fn stopped_with(image: Seq<u8>, d: &AnalysisData, e: AnalysisError) -> bool {
    &&& forall|t: Task| #[trigger] d.is_done(t) ==> reachable(image, t) && !fails(image, t)
    &&& match e {
        AnalysisError::TaskLimit => task_limit_reached(image, d),
        _ => exists|t: Task| #[trigger] failed_with(image, d, t, e),
    }
}

/// An exploration that fails had a reachable task that fails, or more
/// than `MAX_TASKS` reachable tasks.
proof fn lemma_success_owed(image: Seq<u8>, d: &AnalysisData, e: AnalysisError)
    requires
        stopped_with(image, d, e),
    ensures
        !((forall|t: Task| reachable(image, t) ==> !#[trigger] fails(image, t))
            && reachable_tasks(image).finite() && reachable_tasks(image).len() < MAX_TASKS),
{
    if (forall|t: Task| reachable(image, t) ==> !#[trigger] fails(image, t))
        && reachable_tasks(image).finite() && reachable_tasks(image).len() < MAX_TASKS {
        if e is TaskLimit {
            assert(done_tasks(d).subset_of(reachable_tasks(image)));
            lemma_len_subset(done_tasks(d), reachable_tasks(image));
        } else {
            let t = choose|t: Task| #[trigger] failed_with(image, d, t, e);
            assert(fails(image, t));
        }
    }
}

/// Explores the image from its entry point. On failure the state built so
/// far comes back with the error, so that a caller can trace the path that
/// led to it. Success is owed when no reachable task fails and fewer than
/// `MAX_TASKS` tasks are reachable.
pub fn analyse(cartridge: &Cartridge) -> (r: Result<AnalysisData, (AnalysisData, AnalysisError)>)
    ensures
        r matches Ok(d) ==> explored(cartridge@, &d),
        r matches Ok(d) ==> counted(cartridge@, &d),
        r matches Err((d, e)) ==> stopped_with(cartridge@, &d, e),
        (forall|t: Task| reachable(cartridge@, t) ==> !#[trigger] fails(cartridge@, t))
            && reachable_tasks(cartridge@).finite() && reachable_tasks(cartridge@).len() < MAX_TASKS
            ==> r is Ok,
{
    let mut data = AnalysisData::new();
    let outcome = analyse_static_paths(cartridge, &mut data);
    match outcome {
        Ok(()) => {
            assert(explored(cartridge@, &data));
            assert(counted(cartridge@, &data));
            Ok(data)
        },
        Err(e) => {
            proof {
                lemma_success_owed(cartridge@, &data, e);
            }
            Err((data, e))
        },
    }
}

} // verus!
