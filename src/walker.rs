//! Breadth-first walk over the instructions of one function.
use vstd::prelude::*;
use vstd::set_lib::{lemma_int_range, lemma_len_subset, set_int_range};
use std::collections::HashSet;

use crate::data::{FunctionFacts, FunctionTable};
use crate::image::Cartridge;
use crate::instruction::{decode_at, decoded, DecodeError, Instruction};

verus! {

broadcast use vstd::std_specs::hash::group_hash_axioms;

/// Whether the callee of `i` is known to be able to return.
pub open spec fn callee_returns(table: Map<usize, FunctionFacts>, i: Instruction) -> bool {
    match i.spec_call_target() {
        Some(t) => 0 <= t <= usize::MAX && table.contains_key(t as usize)
            && table[t as usize].can_return,
        None => false,
    }
}

/// Whether the walk goes on from `i` to the address `a`: to the static
/// jump target, and past `i` unless `i` ends control flow for good or calls
/// a function not known to return.
pub open spec fn follows(table: Map<usize, FunctionFacts>, i: Instruction, a: int) -> bool {
    ||| i.spec_jump_target() == Some(a)
    ||| a == i.spec_next_address() && (i.spec_can_continue() || callee_returns(table, i))
}

pub open spec fn walk_step(
    image: Seq<u8>,
    table: Map<usize, FunctionFacts>,
    p: usize,
    a: usize,
) -> bool {
    decoded(image, p) matches Ok(i) && follows(table, i, a as int)
}

/// Whether `path` is a chain of walk steps from `start`.
pub open spec fn is_walk(
    image: Seq<u8>,
    table: Map<usize, FunctionFacts>,
    start: usize,
    path: Seq<usize>,
) -> bool {
    &&& path.len() > 0
    &&& path[0] == start
    &&& forall|k: int|
        0 <= k < path.len() - 1 ==> walk_step(image, table, #[trigger] path[k], path[k + 1])
}

/// Whether the walk from `start` reaches `a`.
pub open spec fn walk_reaches(
    image: Seq<u8>,
    table: Map<usize, FunctionFacts>,
    start: usize,
    a: usize,
) -> bool {
    exists|path: Seq<usize>| #[trigger] is_walk(image, table, start, path) && path.last() == a
}

proof fn lemma_walk_start(image: Seq<u8>, table: Map<usize, FunctionFacts>, start: usize)
    ensures
        walk_reaches(image, table, start, start),
{
    assert(is_walk(image, table, start, seq![start]));
}

pub proof fn lemma_walk_extend(
    image: Seq<u8>,
    table: Map<usize, FunctionFacts>,
    start: usize,
    p: usize,
    a: usize,
)
    requires
        walk_reaches(image, table, start, p),
        walk_step(image, table, p, a),
    ensures
        walk_reaches(image, table, start, a),
{
    let path = choose|path: Seq<usize>| #[trigger] is_walk(image, table, start, path) && path.last() == p;
    let longer = path.push(a);
    assert forall|k: int| 0 <= k < longer.len() - 1 implies walk_step(
        image,
        table,
        #[trigger] longer[k],
        longer[k + 1],
    ) by {
        if k < path.len() - 1 {
            assert(walk_step(image, table, path[k], path[k + 1]));
        }
    }
    assert(is_walk(image, table, start, longer));
}

/// A set of addresses that holds `start` and each address the walk goes on
/// to from one of its members holds every address the walk reaches.
proof fn lemma_walk_closed(
    image: Seq<u8>,
    table: Map<usize, FunctionFacts>,
    start: usize,
    s: Set<usize>,
    path: Seq<usize>,
)
    requires
        s.contains(start),
        forall|p: usize, a: usize| s.contains(p) && #[trigger] walk_step(image, table, p, a) ==> s.contains(a),
        is_walk(image, table, start, path),
    ensures
        s.contains(path.last()),
    decreases path.len(),
{
    if path.len() > 1 {
        let shorter = path.drop_last();
        assert forall|k: int| 0 <= k < shorter.len() - 1 implies walk_step(
            image,
            table,
            #[trigger] shorter[k],
            shorter[k + 1],
        ) by {
            assert(walk_step(image, table, path[k], path[k + 1]));
        }
        lemma_walk_closed(image, table, start, s, shorter);
        assert(walk_step(image, table, path[path.len() - 2], path[path.len() - 1]));
    }
}

/// What a successful walk returns: each instruction decoded where it
/// stands, each address once, `start` first, every address the walk goes
/// on to present, and nothing the walk does not reach.
pub open spec fn walk_result(
    image: Seq<u8>,
    table: Map<usize, FunctionFacts>,
    start: usize,
    v: Seq<Instruction>,
) -> bool {
    &&& v.len() > 0
    &&& v[0].address == start
    &&& forall|k: int| 0 <= k < v.len() ==> decoded(image, (#[trigger] v[k]).address) == Ok::<Instruction, DecodeError>(v[k])
    &&& forall|j: int, k: int| 0 <= j < k < v.len() ==> v[j].address != v[k].address
    &&& forall|a: usize| #[trigger] walk_reaches(image, table, start, a) <==> exists|k: int|
        0 <= k < v.len() && v[k].address == a
}

/// `q` is in breadth-first order: each address after the first is reached
/// by a walk step from `q[parent[k]]`, the first address in `q` with such a
/// step, and these first predecessors never move backwards. Every parent
/// lies before `bound`.
pub open spec fn bfs_order(
    image: Seq<u8>,
    table: Map<usize, FunctionFacts>,
    q: Seq<usize>,
    parent: Seq<int>,
    bound: int,
) -> bool {
    &&& parent.len() == q.len()
    &&& forall|k: int|
        1 <= k < q.len() ==> 0 <= #[trigger] parent[k] < k && parent[k] < bound && walk_step(
            image,
            table,
            q[parent[k]],
            q[k],
        )
    &&& forall|k: int, j: int|
        1 <= k < q.len() && 0 <= j < parent[k] ==> !walk_step(image, table, #[trigger] q[j], #[trigger] q[k])
    &&& forall|k: int, l: int| 1 <= k < l < q.len() ==> #[trigger] parent[k] <= #[trigger] parent[l]
}

/// `v` is visited in breadth-first order.
pub open spec fn breadth_first(image: Seq<u8>, table: Map<usize, FunctionFacts>, v: Seq<Instruction>) -> bool {
    exists|parent: Seq<int>| #[trigger] bfs_order(image, table, visit_order(v), parent, v.len() as int)
}

/// The addresses of the visited instructions, in visiting order.
pub open spec fn visit_order(v: Seq<Instruction>) -> Seq<usize> {
    v.map_values(|i: Instruction| i.address)
}

/// Appending an address first reached from the `h`-th keeps the order
/// breadth first.
proof fn lemma_bfs_push(
    image: Seq<u8>,
    table: Map<usize, FunctionFacts>,
    q0: Seq<usize>,
    q: Seq<usize>,
    parent: Seq<int>,
    h: int,
    x: usize,
)
    requires
        bfs_order(image, table, q, parent, h + 1),
        0 <= h < q0.len() <= q.len(),
        forall|k: int| 0 <= k < q0.len() ==> q[k] == q0[k],
        forall|j: int, y: usize| 0 <= j < h && #[trigger] walk_step(image, table, q0[j], y) ==> q0.contains(y),
        walk_step(image, table, q0[h], x),
        !q.contains(x),
    ensures
        bfs_order(image, table, q.push(x), parent.push(h), h + 1),
{
    let q1 = q.push(x);
    let p1 = parent.push(h);
    let n = q.len() as int;
    assert(q1[h] == q0[h]);
    assert forall|k: int| 1 <= k < q1.len() implies 0 <= #[trigger] p1[k] < k && p1[k] < h + 1 && walk_step(image, table, q1[p1[k]], q1[k]) by {
        if k < n {
            assert(p1[k] == parent[k]);
            assert(q1[p1[k]] == q[parent[k]]);
        }
    }
    assert forall|k: int, j: int|
        1 <= k < q1.len() && 0 <= j < p1[k] implies !walk_step(image, table, #[trigger] q1[j], #[trigger] q1[k]) by {
        if k < n {
            assert(p1[k] == parent[k]);
            assert(!walk_step(image, table, q[j], q[k]));
        } else {
            assert(q1[j] == q0[j]);
            if walk_step(image, table, q0[j], x) {
                assert(q0.contains(x));
                let i = choose|i: int| 0 <= i < q0.len() && q0[i] == x;
                assert(q[i] == x);
            }
        }
    }
    assert forall|k: int, l: int| 1 <= k < l < q1.len() implies #[trigger] p1[k] <= #[trigger] p1[l] by {
        if l < n {
            assert(p1[k] == parent[k] && p1[l] == parent[l]);
        } else {
            assert(p1[k] == parent[k]);
        }
    }
}

/// Appends `x` to the queue unless it was ever enqueued.
fn enqueue(queue: &mut Vec<usize>, enqueued: &mut HashSet<usize>, x: usize)
    requires
        forall|y: usize| #[trigger] old(enqueued)@.contains(y) <==> old(queue)@.contains(y),
        old(queue)@.no_duplicates(),
    ensures
        forall|y: usize| #[trigger] final(enqueued)@.contains(y) <==> final(queue)@.contains(y),
        final(queue)@.no_duplicates(),
        final(queue)@.contains(x),
        final(queue)@ == if old(queue)@.contains(x) {
            old(queue)@
        } else {
            old(queue)@.push(x)
        },
{
    if enqueued.insert(x) {
        queue.push(x);
        proof {
            assert(queue@[queue@.len() - 1] == x);
            assert forall|y: usize| #[trigger] enqueued@.contains(y) <==> queue@.contains(y) by {
                if y != x && queue@.contains(y) {
                    let k = choose|k: int| 0 <= k < queue@.len() && queue@[k] == y;
                    assert(old(queue)@[k] == y);
                }
                if old(queue)@.contains(y) {
                    let k = choose|k: int| 0 <= k < old(queue)@.len() && old(queue)@[k] == y;
                    assert(queue@[k] == y);
                }
            }
        }
    }
}

/// Visits, breadth first, every instruction reachable from `address`
/// without entering callees, in the order visited. Fails with the first
/// decode error met.
#[verifier::rlimit(100)]
pub fn walk(cartridge: &Cartridge, table: &FunctionTable, address: usize) -> (r: Result<
    Vec<Instruction>,
    DecodeError,
>)
    requires
        table.wf(),
    ensures
        r matches Ok(v) ==> breadth_first(cartridge@, table@, v@),
        match r {
            Ok(v) => walk_result(cartridge@, table@, address, v@),
            Err(e) => exists|a: usize|
                walk_reaches(cartridge@, table@, address, a) && #[trigger] decoded(cartridge@, a)
                    == Err::<Instruction, DecodeError>(e),
        },
{
    let ghost image = cartridge@;
    let ghost facts = table@;
    let len = cartridge.len();
    let mut queue: Vec<usize> = Vec::new();
    let mut enqueued: HashSet<usize> = HashSet::new();
    queue.push(address);
    enqueued.insert(address);
    let mut out: Vec<Instruction> = Vec::new();
    let mut head: usize = 0;
    let ghost mut seen: Set<int> = Set::empty();
    let ghost mut parent: Seq<int> = seq![0];
    proof {
        lemma_walk_start(image, facts, address);
        lemma_int_range(0, len as int);
    }
    while head < queue.len()
        invariant
            image == cartridge@,
            facts == table@,
            len == image.len(),
            table.wf(),
            head <= queue@.len(),
            head <= len,
            out@.len() == head,
            queue@.len() > 0,
            queue@[0] == address,
            queue@.no_duplicates(),
            forall|x: usize| #[trigger] enqueued@.contains(x) <==> queue@.contains(x),
            forall|k: int| 0 <= k < head ==> (#[trigger] out@[k]).address == queue@[k],
            forall|k: int| 0 <= k < head ==> decoded(image, queue@[k]) == Ok::<Instruction, DecodeError>(#[trigger] out@[k]),
            forall|k: int| 0 <= k < queue@.len() ==> walk_reaches(image, facts, address, #[trigger] queue@[k]),
            forall|k: int, a: usize| 0 <= k < head && #[trigger] walk_step(image, facts, queue@[k], a) ==> queue@.contains(a),
            seen.finite(),
            seen.len() == head,
            seen.subset_of(set_int_range(0, len as int)),
            forall|x: int| seen.contains(x) <==> exists|k: int| 0 <= k < head && queue@[k] == x,
            bfs_order(image, facts, queue@, parent, head as int),
        decreases len - head,
    {
        let a = queue[head];
        let ins = match decode_at(cartridge, a) {
            Ok(i) => i,
            Err(e) => {
                return Err(e);
            },
        };
        let ghost q0 = queue@;
        let next = ins.next_address();
        let go_on = if ins.can_continue() {
            true
        } else {
            match ins.call_target() {
                Some(t) => table.can_return(t),
                None => false,
            }
        };
        if go_on {
            let ghost before_push = queue@;
            enqueue(&mut queue, &mut enqueued, next);
            proof {
                if !before_push.contains(next) {
                    assert(walk_step(image, facts, q0[head as int], next));
                    lemma_bfs_push(image, facts, q0, before_push, parent, head as int, next);
                    parent = parent.push(head as int);
                }
            }
        }
        let ghost q1 = queue@;
        let target = ins.jump_target();
        match target {
            Some(t) => {
                let ghost before_push = queue@;
                enqueue(&mut queue, &mut enqueued, t);
                proof {
                    if !before_push.contains(t) {
                        assert(walk_step(image, facts, q0[head as int], t));
                        assert forall|k: int| 0 <= k < q0.len() implies before_push[k] == q0[k] by {}
                        lemma_bfs_push(image, facts, q0, before_push, parent, head as int, t);
                        parent = parent.push(head as int);
                    }
                }
            },
            None => {},
        }
        proof {
            assert(go_on == (ins.spec_can_continue() || callee_returns(facts, ins)));
            assert forall|k: int| 0 <= k < q0.len() implies queue@[k] == q0[k] by {
                assert(q1[k] == q0[k]);
            }
            assert forall|x: usize| q0.contains(x) implies queue@.contains(x) by {
                let k = choose|k: int| 0 <= k < q0.len() && q0[k] == x;
                assert(queue@[k] == x);
            }
            assert forall|x: usize| #[trigger] walk_step(image, facts, a, x) implies queue@.contains(x) by {
                if target == Some(x) {
                    assert(queue@.contains(x));
                } else {
                    assert(x as int == ins.spec_next_address());
                    assert(go_on);
                    assert(q1.contains(next));
                    let k = choose|k: int| 0 <= k < q1.len() && q1[k] == next;
                    if k < q0.len() {
                        assert(queue@[k] == next);
                    } else {
                        assert(queue@[k] == next);
                    }
                }
            }
            assert forall|k: int| 0 <= k < queue@.len() implies walk_reaches(image, facts, address, #[trigger] queue@[k]) by {
                if k >= q0.len() {
                    let x = queue@[k];
                    if k < q1.len() {
                        assert(x == next);
                    } else {
                        assert(x == target.unwrap());
                    }
                    assert(walk_step(image, facts, a, x));
                    lemma_walk_extend(image, facts, address, a, x);
                }
            }
            assert(!seen.contains(a as int)) by {
                if seen.contains(a as int) {
                    let k = choose|k: int| 0 <= k < head && queue@[k] == a;
                    assert(q0[k] == q0[head as int]);
                }
            }
            seen = seen.insert(a as int);
            lemma_int_range(0, len as int);
            lemma_len_subset(seen, set_int_range(0, len as int));
        }
        out.push(ins);
        head = head + 1;
        proof {
            assert forall|x: int| seen.contains(x) <==> exists|k: int| 0 <= k < head && queue@[k] == x by {
                if x == a as int {
                    assert(queue@[head - 1] == a);
                }
            }
            assert forall|k: int, x: usize| 0 <= k < head && #[trigger] walk_step(image, facts, queue@[k], x) implies queue@.contains(x) by {
                if k < head - 1 {
                    assert(q0.contains(x));
                }
            }
        }
    }
    proof {
        let s = Set::new(|x: usize| queue@.contains(x));
        assert forall|p: usize, x: usize| s.contains(p) && #[trigger] walk_step(image, facts, p, x) implies s.contains(x) by {
            let k = choose|k: int| 0 <= k < queue@.len() && queue@[k] == p;
        }
        assert(s.contains(address)) by {
            assert(queue@[0] == address);
        }
        assert forall|x: usize| #[trigger] walk_reaches(image, facts, address, x) <==> exists|k: int|
            0 <= k < out@.len() && out@[k].address == x by {
            if walk_reaches(image, facts, address, x) {
                let path = choose|path: Seq<usize>| #[trigger] is_walk(image, facts, address, path) && path.last() == x;
                lemma_walk_closed(image, facts, address, s, path);
                let k = choose|k: int| 0 <= k < queue@.len() && queue@[k] == x;
                assert(out@[k].address == x);
            }
            if exists|k: int| 0 <= k < out@.len() && out@[k].address == x {
                let k = choose|k: int| 0 <= k < out@.len() && out@[k].address == x;
                assert(queue@[k] == x);
            }
        }
        assert forall|k: int| 0 <= k < out@.len() implies decoded(image, (#[trigger] out@[k]).address) == Ok::<Instruction, DecodeError>(out@[k]) by {
            assert(out@[k].address == queue@[k]);
        }
        assert forall|j: int, k: int| 0 <= j < k < out@.len() implies out@[j].address != out@[k].address by {
            assert(out@[j].address == queue@[j]);
            assert(out@[k].address == queue@[k]);
        }
        assert(out@[0].address == address);
        assert(visit_order(out@) =~= queue@);
        assert(bfs_order(image, facts, visit_order(out@), parent, out@.len() as int));
    }
    Ok(out)
}

} // verus!
