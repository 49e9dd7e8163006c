//! Partition of a function's instructions into basic blocks linked into a
//! control-flow graph.
use vstd::prelude::*;
use std::collections::HashMap;
use std::collections::HashSet;

use crate::data::{Data, FunctionFacts};
use crate::image::Cartridge;
use crate::instruction::{decoded, Condition, DecodeError, Flow, Instruction};
use crate::walker::{
    callee_returns, follows, lemma_walk_extend, walk, walk_reaches, walk_result, walk_step,
};

verus! {

broadcast use vstd::std_specs::hash::group_hash_axioms;

/// The instructions of a function in address order: each decoded where it
/// stands, addresses strictly increasing, exactly the addresses the walk
/// from `start` reaches.
pub open spec fn sorted_walk(
    image: Seq<u8>,
    table: Map<usize, FunctionFacts>,
    start: usize,
    v: Seq<Instruction>,
) -> bool {
    &&& forall|k: int| 0 <= k < v.len() ==> decoded(image, (#[trigger] v[k]).address) == Ok::<Instruction, DecodeError>(v[k])
    &&& forall|j: int, k: int| 0 <= j < k < v.len() ==> v[j].address < v[k].address
    &&& forall|a: usize| #[trigger] walk_reaches(image, table, start, a) <==> exists|k: int|
        0 <= k < v.len() && v[k].address == a
}

/// Whether one of the first `n` instructions of `s` stands at `a`.
pub open spec fn has_address(s: Seq<Instruction>, n: int, a: usize) -> bool {
    exists|k: int| 0 <= k < n && s[k].address == a
}

/// Inserts `x` into `out`, which is sorted by address and does not hold
/// `x`'s address, keeping it sorted.
fn insert_sorted(out: &mut Vec<Instruction>, x: Instruction)
    requires
        forall|j: int, k: int| 0 <= j < k < old(out)@.len() ==> old(out)@[j].address < old(out)@[k].address,
        forall|k: int| 0 <= k < old(out)@.len() ==> old(out)@[k].address != x.address,
    ensures
        forall|j: int, k: int| 0 <= j < k < final(out)@.len() ==> final(out)@[j].address < final(out)@[k].address,
        exists|p: int| 0 <= p <= old(out)@.len() && final(out)@ == old(out)@.insert(p, x),
{
    let mut p: usize = 0;
    while p < out.len() && out[p].address < x.address
        invariant
            p <= out@.len(),
            forall|k: int| 0 <= k < p ==> out@[k].address < x.address,
        decreases out@.len() - p,
    {
        p = p + 1;
    }
    let ghost before = out@;
    out.insert(p, x);
    proof {
        assert forall|j: int, k: int| 0 <= j < k < out@.len() implies out@[j].address < out@[k].address by {
            if k < p {
            } else if k == p {
                assert(out@[j] == before[j]);
            } else if j < p {
                assert(out@[k] == before[k - 1]);
                assert(before[p as int].address > x.address);
                if k - 1 > p {
                    assert(before[p as int].address < before[k - 1].address);
                }
            } else if j == p {
                assert(before[p as int].address > x.address);
                if k - 1 > p {
                    assert(before[p as int].address < before[k - 1].address);
                }
            } else {
                assert(out@[j] == before[j - 1]);
                assert(out@[k] == before[k - 1]);
            }
        }
    }
}

/// The instructions the walk from `address` visits, in address order.
pub fn collect_instructions(cart: &Cartridge, data: &Data, address: usize) -> (r: Result<
    Vec<Instruction>,
    DecodeError,
>)
    requires
        data.functions.wf(),
    ensures
        match r {
            Ok(v) => sorted_walk(cart@, data.functions@, address, v@) && v@.len() > 0,
            Err(e) => exists|a: usize|
                walk_reaches(cart@, data.functions@, address, a) && #[trigger] decoded(cart@, a)
                    == Err::<Instruction, DecodeError>(e),
        },
{
    let visited = match walk(cart, &data.functions, address) {
        Ok(v) => v,
        Err(e) => {
            return Err(e);
        },
    };
    let ghost image = cart@;
    let ghost facts = data.functions@;
    let mut out: Vec<Instruction> = Vec::new();
    let mut i: usize = 0;
    while i < visited.len()
        invariant
            image == cart@,
            facts == data.functions@,
            walk_result(image, facts, address, visited@),
            i <= visited@.len(),
            out@.len() == i,
            forall|j: int, k: int| 0 <= j < k < out@.len() ==> out@[j].address < out@[k].address,
            forall|k: int| 0 <= k < out@.len() ==> decoded(image, (#[trigger] out@[k]).address) == Ok::<Instruction, DecodeError>(out@[k]),
            forall|a: usize| #[trigger] has_address(out@, out@.len() as int, a) == has_address(visited@, i as int, a),
        decreases visited@.len() - i,
    {
        let x = visited[i];
        proof {
            assert forall|k: int| 0 <= k < out@.len() implies out@[k].address != x.address by {
                if out@[k].address == x.address {
                    assert(has_address(out@, out@.len() as int, x.address));
                    let j = choose|j: int| 0 <= j < i && visited@[j].address == x.address;
                    assert(visited@[j].address != visited@[i as int].address);
                }
            }
        }
        let ghost before = out@;
        insert_sorted(&mut out, x);
        proof {
            let p = choose|p: int| 0 <= p <= before.len() && out@ == before.insert(p, x);
            assert forall|k: int| 0 <= k < out@.len() implies decoded(image, (#[trigger] out@[k]).address) == Ok::<Instruction, DecodeError>(out@[k]) by {
                if k < p {
                    assert(out@[k] == before[k]);
                } else if k > p {
                    assert(out@[k] == before[k - 1]);
                }
            }
            assert forall|a: usize| #[trigger] has_address(out@, out@.len() as int, a) == has_address(visited@, i + 1, a) by {
                if has_address(out@, out@.len() as int, a) {
                    let k = choose|k: int| 0 <= k < out@.len() && out@[k].address == a;
                    if k < p {
                        assert(before[k].address == a);
                        assert(has_address(before, before.len() as int, a));
                    } else if k > p {
                        assert(before[k - 1].address == a);
                        assert(has_address(before, before.len() as int, a));
                    }
                }
                if has_address(visited@, i + 1, a) {
                    let j = choose|j: int| 0 <= j < i + 1 && visited@[j].address == a;
                    if j < i {
                        assert(has_address(visited@, i as int, a));
                        assert(has_address(before, before.len() as int, a));
                        let k = choose|k: int| 0 <= k < before.len() && before[k].address == a;
                        if k < p {
                            assert(out@[k] == before[k]);
                        } else {
                            assert(out@[k + 1] == before[k]);
                        }
                    } else {
                        assert(out@[p] == x);
                    }
                }
            }
        }
        i = i + 1;
    }
    proof {
        assert forall|a: usize| #[trigger] walk_reaches(image, facts, address, a) <==> exists|k: int|
            0 <= k < out@.len() && out@[k].address == a by {
            assert(has_address(out@, out@.len() as int, a) == has_address(visited@, visited@.len() as int, a));
        }
    }
    Ok(out)
}


/// Whether `i` ends control flow for good: an unconditional return, or a
/// call of a function not known to return.
pub open spec fn dead_end(table: Map<usize, FunctionFacts>, i: Instruction) -> bool {
    &&& i.spec_condition().is_none()
    &&& (i.spec_is_return() || (i.spec_call_target().is_some() && !callee_returns(table, i)))
}

/// Whether a block must end after `i`.
pub open spec fn closes(table: Map<usize, FunctionFacts>, i: Instruction) -> bool {
    dead_end(table, i) || i.spec_is_jump()
}

/// Whether a block ends after the `j`-th instruction for a reason of its
/// own: it closes, it is the last, or the next instruction does not follow
/// it in memory.
pub open spec fn ends_block(table: Map<usize, FunctionFacts>, v: Seq<Instruction>, j: int) -> bool {
    ||| closes(table, v[j])
    ||| j == v.len() - 1
    ||| v[j].spec_next_address() != v[j + 1].address
}

/// Whether the `j`-th instruction makes `a` the start of a block: `a` is its
/// jump target, or the block ends after it and `a` is its fallthrough or the
/// next instruction.
pub open spec fn marks_start(table: Map<usize, FunctionFacts>, v: Seq<Instruction>, j: int, a: usize) -> bool {
    ||| v[j].spec_jump_target() == Some(a as int)
    ||| ends_block(table, v, j) && (v[j].spec_next_address() == a || (j + 1 < v.len() && v[j + 1].address == a))
}

pub open spec fn is_block_start(table: Map<usize, FunctionFacts>, v: Seq<Instruction>, a: usize) -> bool {
    exists|j: int| 0 <= j < v.len() && #[trigger] marks_start(table, v, j, a)
}

/// Address control goes on to after `i` when it does not branch off.
pub open spec fn successor_address(i: Instruction) -> int {
    match i.spec_jump_target() {
        Some(t) => t,
        None => i.spec_next_address(),
    }
}

/// How control leaves a block, with successors given as block indices.
#[derive(Clone, Copy, Debug, PartialEq, Eq, Structural)]
pub enum ChunkType {
    /// Control does not go on: an unconditional return, a call of a
    /// function that never returns, or a jump whose target is not known.
    End,
    /// Control goes on at `if_true` when the condition holds, else at
    /// `if_false`.
    Conditional { condition: Condition, if_true: usize, if_false: usize },
    /// Control goes on at `next`.
    Unconditional { next: usize },
}

/// A basic block: `len` instructions from index `start` of its set.
#[derive(Clone, Copy, Debug, PartialEq, Eq, Structural)]
pub struct Chunk {
    pub start: usize,
    pub len: usize,
    pub chunk_type: ChunkType,
}

/// The blocks are consecutive, non-empty, start at 0 and end at `n`.
pub open spec fn partitions(cs: Seq<Chunk>, n: int) -> bool {
    &&& cs.len() > 0
    &&& cs[0].start == 0
    &&& forall|c: int| 0 <= c < cs.len() ==> (#[trigger] cs[c]).len > 0
    &&& forall|c: int| 0 <= c < cs.len() - 1 ==> (#[trigger] cs[c + 1]).start == cs[c].start + cs[c].len
    &&& cs.last().start + cs.last().len == n
}

pub open spec fn is_chunk_start(cs: Seq<Chunk>, k: int) -> bool {
    exists|c: int| 0 <= c < cs.len() && (#[trigger] cs[c]).start == k
}

/// A block starts at each block-start address and nowhere else.
pub open spec fn boundaries(table: Map<usize, FunctionFacts>, v: Seq<Instruction>, cs: Seq<Chunk>) -> bool {
    forall|k: int| 0 < k < v.len() ==> (is_chunk_start(cs, k) <==> #[trigger] is_block_start(table, v, v[k].address))
}

/// Block `ch` ends as its last instruction says, and each successor index
/// names the block of `cs` that starts where control goes.
pub open spec fn shaped(table: Map<usize, FunctionFacts>, v: Seq<Instruction>, cs: Seq<Chunk>, ch: Chunk) -> bool {
    let l = v[ch.start + ch.len - 1];
    match ch.chunk_type {
        ChunkType::End => dead_end(table, l) || l.spec_flow() == Flow::IndirectJump,
        ChunkType::Unconditional { next } => {
            &&& !dead_end(table, l)
            &&& l.spec_flow() != Flow::IndirectJump
            &&& !(l.spec_flow() is ConditionalJump)
            &&& next < cs.len()
            &&& v[cs[next as int].start as int].address == successor_address(l)
        },
        ChunkType::Conditional { condition, if_true, if_false } => {
            &&& l.spec_flow() == Flow::ConditionalJump(condition)
            &&& if_true < cs.len()
            &&& if_false < cs.len()
            &&& v[cs[if_true as int].start as int].address == l.spec_jump_target().unwrap()
            &&& v[cs[if_false as int].start as int].address == l.spec_next_address()
        },
    }
}

/// Collects the addresses at which blocks start, besides the first.
fn block_starts(data: &Data, v: &Vec<Instruction>) -> (r: HashSet<usize>)
    requires
        data.functions.wf(),
        forall|k: int| 0 <= k < v@.len() ==> (#[trigger] v@[k]).spec_next_address() <= usize::MAX,
    ensures
        forall|a: usize| #[trigger] r@.contains(a) <==> is_block_start(data.functions@, v@, a),
{
    let ghost table = data.functions@;
    let n = v.len();
    let mut starts: HashSet<usize> = HashSet::new();
    let mut j: usize = 0;
    while j < n
        invariant
            n == v@.len(),
            j <= n,
            table == data.functions@,
            data.functions.wf(),
            forall|k: int| 0 <= k < v@.len() ==> (#[trigger] v@[k]).spec_next_address() <= usize::MAX,
            forall|a: usize| #[trigger] starts@.contains(a) <==> exists|jj: int| 0 <= jj < j && #[trigger] marks_start(table, v@, jj, a),
        decreases n - j,
    {
        let ins = v[j];
        let ghost before = starts@;
        let target = ins.jump_target();
        match target {
            Some(t) => {
                starts.insert(t);
            },
            None => {},
        }
        let ghost mid = starts@;
        let next = ins.next_address();
        let ends = is_dead_end(data, &ins) || ins.is_jump() || j + 1 == n || next != v[j + 1].address;
        if ends {
            starts.insert(next);
            if j + 1 < n {
                starts.insert(v[j + 1].address);
            }
        }
        proof {
            assert(ends == ends_block(table, v@, j as int));
            assert forall|a: usize| #[trigger] starts@.contains(a) <==> exists|jj: int| 0 <= jj < j + 1 && #[trigger] marks_start(table, v@, jj, a) by {
                if starts@.contains(a) && !before.contains(a) {
                    assert(marks_start(table, v@, j as int, a));
                }
                if exists|jj: int| 0 <= jj < j + 1 && #[trigger] marks_start(table, v@, jj, a) {
                    let jj = choose|jj: int| 0 <= jj < j + 1 && #[trigger] marks_start(table, v@, jj, a);
                    if jj < j {
                        assert(before.contains(a));
                    }
                }
            }
        }
        j = j + 1;
    }
    starts
}

/// Whether `instruction` ends control flow for good.
fn is_dead_end(data: &Data, instruction: &Instruction) -> (r: bool)
    requires
        data.functions.wf(),
    ensures
        r == dead_end(data.functions@, *instruction),
{
    if instruction.condition().is_some() {
        false
    } else if instruction.is_return() {
        true
    } else {
        match instruction.call_target() {
            Some(call_target) => !data.functions.can_return(call_target),
            None => false,
        }
    }
}


/// Cuts `v` into blocks before each instruction that stands at a block
/// start. The blocks' shapes are left to be filled in.
fn split_blocks(v: &Vec<Instruction>, starts: &HashSet<usize>, table: Ghost<Map<usize, FunctionFacts>>) -> (r: Vec<Chunk>)
    requires
        v@.len() > 0,
        forall|a: usize| #[trigger] starts@.contains(a) <==> is_block_start(table@, v@, a),
    ensures
        partitions(r@, v@.len() as int),
        boundaries(table@, v@, r@),
{
    let n = v.len();
    let mut chunks: Vec<Chunk> = Vec::new();
    let mut start: usize = 0;
    let mut k: usize = 1;
    while k < n
        invariant
            n == v@.len(),
            0 <= start < k <= n,
            forall|a: usize| #[trigger] starts@.contains(a) <==> is_block_start(table@, v@, a),
            chunks@.len() == 0 ==> start == 0,
            chunks@.len() > 0 ==> chunks@[0].start == 0,
            chunks@.len() > 0 ==> chunks@.last().start + chunks@.last().len == start,
            forall|c: int| 0 <= c < chunks@.len() ==> (#[trigger] chunks@[c]).len > 0,
            forall|c: int| 0 <= c < chunks@.len() - 1 ==> (#[trigger] chunks@[c + 1]).start == chunks@[c].start + chunks@[c].len,
            forall|kk: int| 0 < kk < k ==> (is_chunk_start(chunks@, kk) || kk == start <==> #[trigger] is_block_start(table@, v@, v@[kk].address)),
            forall|c: int| 0 <= c < chunks@.len() ==> (#[trigger] chunks@[c]).start < start,
        decreases n - k,
    {
        if starts.contains(&v[k].address) {
            let ghost before = chunks@;
            chunks.push(Chunk { start, len: k - start, chunk_type: ChunkType::End });
            proof {
                assert forall|kk: int| 0 < kk < k + 1 implies (is_chunk_start(chunks@, kk) || kk == k <==> #[trigger] is_block_start(table@, v@, v@[kk].address)) by {
                    if kk < k {
                        if is_chunk_start(before, kk) || kk == start {
                            if kk == start {
                                assert(chunks@[chunks@.len() - 1].start == kk);
                            } else {
                                let c = choose|c: int| 0 <= c < before.len() && (#[trigger] before[c]).start == kk;
                                assert(chunks@[c].start == kk);
                            }
                        }
                        if is_chunk_start(chunks@, kk) {
                            let c = choose|c: int| 0 <= c < chunks@.len() && (#[trigger] chunks@[c]).start == kk;
                            if c < before.len() {
                                assert(before[c].start == kk);
                            }
                        }
                    } else {
                        if is_chunk_start(chunks@, kk) {
                            let c = choose|c: int| 0 <= c < chunks@.len() && (#[trigger] chunks@[c]).start == kk;
                            if c < before.len() {
                                assert(before[c].start < start);
                            }
                        }
                    }
                }
            }
            start = k;
        } else {
            proof {
                assert forall|kk: int| 0 < kk < k + 1 implies (is_chunk_start(chunks@, kk) || kk == start <==> #[trigger] is_block_start(table@, v@, v@[kk].address)) by {
                    if kk == k {
                        if is_chunk_start(chunks@, kk) {
                            let c = choose|c: int| 0 <= c < chunks@.len() && (#[trigger] chunks@[c]).start == kk;
                        }
                    }
                }
            }
        }
        k = k + 1;
    }
    let ghost before = chunks@;
    chunks.push(Chunk { start, len: n - start, chunk_type: ChunkType::End });
    proof {
        assert forall|kk: int| 0 < kk < v@.len() implies (is_chunk_start(chunks@, kk) <==> #[trigger] is_block_start(table@, v@, v@[kk].address)) by {
            if is_chunk_start(before, kk) || kk == start {
                if kk == start {
                    assert(chunks@[chunks@.len() - 1].start == kk);
                } else {
                    let c = choose|c: int| 0 <= c < before.len() && (#[trigger] before[c]).start == kk;
                    assert(chunks@[c].start == kk);
                }
            }
            if is_chunk_start(chunks@, kk) {
                let c = choose|c: int| 0 <= c < chunks@.len() && (#[trigger] chunks@[c]).start == kk;
                if c < before.len() {
                    assert(before[c].start == kk);
                }
            }
        }
        assert forall|c: int| 0 <= c < chunks@.len() - 1 implies (#[trigger] chunks@[c + 1]).start == chunks@[c].start + chunks@[c].len by {
            if c < before.len() - 1 {
                assert(chunks@[c + 1] == before[c + 1]);
            }
        }
    }
    chunks
}


/// Maps the address of each block's first instruction to the block's index.
fn index_blocks(v: &Vec<Instruction>, cs: &Vec<Chunk>) -> (r: HashMap<usize, usize>)
    requires
        partitions(cs@, v@.len() as int),
    ensures
        forall|a: usize| #[trigger] r@.contains_key(a) ==> r@[a] < cs@.len() && v@[cs@[r@[a] as int].start as int].address == a,
        forall|c: int| 0 <= c < cs@.len() ==> r@.contains_key(#[trigger] v@[cs@[c].start as int].address),
{
    let mut map: HashMap<usize, usize> = HashMap::new();
    let mut c: usize = 0;
    while c < cs.len()
        invariant
            c <= cs@.len(),
            partitions(cs@, v@.len() as int),
            forall|a: usize| #[trigger] map@.contains_key(a) ==> map@[a] < cs@.len() && v@[cs@[map@[a] as int].start as int].address == a,
            forall|d: int| 0 <= d < c ==> map@.contains_key(#[trigger] v@[cs@[d].start as int].address),
        decreases cs@.len() - c,
    {
        proof {
            lemma_block_in_range(cs@, v@.len() as int, c as int);
        }
        let a = v[cs[c].start].address;
        map.insert(a, c);
        c = c + 1;
    }
    map
}

proof fn lemma_block_in_range(cs: Seq<Chunk>, n: int, c: int)
    requires
        partitions(cs, n),
        0 <= c < cs.len(),
    ensures
        0 <= cs[c].start,
        cs[c].start + cs[c].len <= n,
        c < cs.len() - 1 ==> cs[c].start + cs[c].len < n,
    decreases cs.len() - c,
{
    if c < cs.len() - 1 {
        lemma_block_in_range(cs, n, c + 1);
        assert(cs[c + 1].start == cs[c].start + cs[c].len);
    }
}

/// Where a block's last instruction hands control on, some block starts.
proof fn lemma_successor_block(
    image: Seq<u8>,
    table: Map<usize, FunctionFacts>,
    start: usize,
    v: Seq<Instruction>,
    cs: Seq<Chunk>,
    c: int,
    s: int,
)
    requires
        sorted_walk(image, table, start, v),
        v.len() > 0,
        partitions(cs, v.len() as int),
        boundaries(table, v, cs),
        0 <= c < cs.len(),
        0 <= s <= usize::MAX,
        follows(table, v[cs[c].start + cs[c].len - 1], s),
        v[cs[c].start + cs[c].len - 1].spec_jump_target() == Some(s)
            || s == v[cs[c].start + cs[c].len - 1].spec_next_address(),
    ensures
        exists|d: int| 0 <= d < cs.len() && v[cs[d].start as int].address == s,
{
    lemma_block_in_range(cs, v.len() as int, c);
    let e = cs[c].start + cs[c].len - 1;
    let l = v[e];
    assert(walk_reaches(image, table, start, l.address));
    assert(walk_step(image, table, l.address, s as usize));
    lemma_walk_extend(image, table, start, l.address, s as usize);
    let k = choose|k: int| 0 <= k < v.len() && v[k].address == s as usize;
    if k == 0 {
        assert(v[cs[0].start as int].address == s);
    } else if l.spec_jump_target() == Some(s) || ends_block(table, v, e) {
        assert(marks_start(table, v, e, s as usize));
        assert(is_block_start(table, v, v[k].address));
        let d = choose|d: int| 0 <= d < cs.len() && (#[trigger] cs[d]).start == k;
        assert(v[cs[d].start as int].address == s);
    } else {
        assert(c < cs.len() - 1);
        assert(cs[c + 1].start == e + 1);
        assert(v[cs[c + 1].start as int].address == s);
    }
}


fn block_at(map: &HashMap<usize, usize>, a: usize) -> (r: usize)
    requires
        map@.contains_key(a),
    ensures
        r == map@[a],
{
    match map.get(&a) {
        Some(i) => *i,
        None => 0,
    }
}

/// Fills in how control leaves each block.
fn link_blocks(
    data: &Data,
    v: &Vec<Instruction>,
    cs: &Vec<Chunk>,
    image: Ghost<Seq<u8>>,
    start: Ghost<usize>,
) -> (r: Vec<Chunk>)
    requires
        data.functions.wf(),
        sorted_walk(image@, data.functions@, start@, v@),
        v@.len() > 0,
        partitions(cs@, v@.len() as int),
        boundaries(data.functions@, v@, cs@),
        forall|k: int| 0 <= k < v@.len() ==> (#[trigger] v@[k]).spec_next_address() <= usize::MAX,
    ensures
        r@.len() == cs@.len(),
        forall|c: int| 0 <= c < r@.len() ==> (#[trigger] r@[c]).start == cs@[c].start && r@[c].len == cs@[c].len,
        forall|c: int| 0 <= c < r@.len() ==> shaped(data.functions@, v@, cs@, #[trigger] r@[c]),
{
    let ghost table = data.functions@;
    let n = v.len();
    let map = index_blocks(v, cs);
    let mut out: Vec<Chunk> = Vec::new();
    let mut c: usize = 0;
    while c < cs.len()
        invariant
            table == data.functions@,
            data.functions.wf(),
            sorted_walk(image@, table, start@, v@),
            v@.len() > 0,
            partitions(cs@, v@.len() as int),
            boundaries(table, v@, cs@),
            forall|k: int| 0 <= k < v@.len() ==> (#[trigger] v@[k]).spec_next_address() <= usize::MAX,
            forall|a: usize| #[trigger] map@.contains_key(a) ==> map@[a] < cs@.len() && v@[cs@[map@[a] as int].start as int].address == a,
            forall|d: int| 0 <= d < cs@.len() ==> map@.contains_key(#[trigger] v@[cs@[d].start as int].address),
            c <= cs@.len(),
            n == v@.len(),
            out@.len() == c,
            forall|d: int| 0 <= d < c ==> (#[trigger] out@[d]).start == cs@[d].start && out@[d].len == cs@[d].len,
            forall|d: int| 0 <= d < c ==> shaped(table, v@, cs@, #[trigger] out@[d]),
        decreases cs@.len() - c,
    {
        proof {
            lemma_block_in_range(cs@, v@.len() as int, c as int);
            assert(cs@[c as int].len > 0);
        }
        let first = cs[c].start;
        let len = cs[c].len;
        let l = v[first + len - 1];
        let ghost e = first + len - 1;
        let next = l.next_address();
        let chunk_type = if is_dead_end(data, &l) {
            ChunkType::End
        } else {
            match l.flow() {
                Flow::IndirectJump => ChunkType::End,
                Flow::ConditionalJump(condition) => {
                    let target = l.jump_target().unwrap();
                    proof {
                        lemma_successor_block(image@, table, start@, v@, cs@, c as int, target as int);
                        lemma_successor_block(image@, table, start@, v@, cs@, c as int, next as int);
                    }
                    let if_true = block_at(&map, target);
                    let if_false = block_at(&map, next);
                    ChunkType::Conditional { condition, if_true, if_false }
                },
                _ => {
                    let to = match l.jump_target() {
                        Some(t) => t,
                        None => next,
                    };
                    proof {
                        lemma_successor_block(image@, table, start@, v@, cs@, c as int, to as int);
                    }
                    ChunkType::Unconditional { next: block_at(&map, to) }
                },
            }
        };
        out.push(Chunk { start: first, len, chunk_type });
        c = c + 1;
    }
    out
}

/// The blocks of one function and the instructions they are cut from.
pub struct ChunkSet {
    chunks: Vec<Chunk>,
    instructions: Vec<Instruction>,
}

impl ChunkSet {
    /// The blocks partition the instructions, which fit the address space.
    #[verifier::type_invariant]
    spec fn well_formed(&self) -> bool {
        &&& partitions(self.chunks@, self.instructions@.len() as int)
        &&& self.instructions@.len() <= usize::MAX
    }

    /// The function's instructions in address order.
    pub closed spec fn instrs(&self) -> Seq<Instruction> {
        self.instructions@
    }

    /// The blocks, in address order.
    pub closed spec fn blocks(&self) -> Seq<Chunk> {
        self.chunks@
    }

    pub fn len(&self) -> (r: usize)
        ensures
            r == self.blocks().len(),
    {
        self.chunks.len()
    }

    pub fn get_by_index(&self, index: usize) -> (r: &Chunk)
        requires
            index < self.blocks().len(),
        ensures
            *r == self.blocks()[index as int],
            r.len > 0,
            r.start + r.len <= self.instrs().len(),
    {
        proof {
            use_type_invariant(self);
            lemma_block_in_range(self.chunks@, self.instructions@.len() as int, index as int);
        }
        &self.chunks[index]
    }

    /// The block that holds the lowest address, the root of the graph.
    pub fn root(&self) -> (r: &Chunk)
        ensures
            *r == self.blocks()[0],
            r.len > 0,
            r.start + r.len <= self.instrs().len(),
    {
        proof {
            use_type_invariant(self);
            lemma_block_in_range(self.chunks@, self.instructions@.len() as int, 0);
        }
        &self.chunks[0]
    }
}

impl Chunk {
    /// The instructions of this block, taken from the set it belongs to.
    pub fn instructions(&self, set: &ChunkSet) -> (r: Vec<Instruction>)
        requires
            self.start + self.len <= set.instrs().len(),
        ensures
            r@ == set.instrs().subrange(self.start as int, self.start + self.len),
    {
        proof {
            use_type_invariant(set);
        }
        let end = self.start + self.len;
        let mut r: Vec<Instruction> = Vec::new();
        let mut k: usize = self.start;
        while k < end
            invariant
                end == self.start + self.len,
                self.start <= k <= self.start + self.len,
                self.start + self.len <= set.instrs().len(),
                r@ == set.instrs().subrange(self.start as int, k as int),
            decreases self.start + self.len - k,
        {
            r.push(set.instructions[k]);
            k = k + 1;
            assert(r@ =~= set.instrs().subrange(self.start as int, k as int));
        }
        r
    }

    pub fn chunk_type(&self) -> (r: ChunkType)
        ensures
            r == self.chunk_type,
    {
        self.chunk_type
    }
}

/// Builds the control-flow graph of the function at `address`: its
/// instructions in address order, cut into blocks at each block start, each
/// block's successors given by index.
pub fn chunk(cart: &Cartridge, data: &Data, address: usize) -> (r: Result<ChunkSet, DecodeError>)
    requires
        data.functions.wf(),
    ensures
        match r {
            Ok(set) => is_cfg(cart@, data.functions@, address, set.instrs(), set.blocks()),
            Err(e) => exists|a: usize|
                walk_reaches(cart@, data.functions@, address, a) && #[trigger] decoded(cart@, a)
                    == Err::<Instruction, DecodeError>(e),
        },
{
    let instructions = match collect_instructions(cart, data, address) {
        Ok(v) => v,
        Err(e) => {
            return Err(e);
        },
    };
    let ghost table = data.functions@;
    let image_size = cart.len();
    let count = instructions.len();
    proof {
        assert(cart@.len() == image_size && instructions@.len() == count);
        assert forall|k: int| 0 <= k < instructions@.len() implies (#[trigger] instructions@[k]).spec_next_address() <= usize::MAX by {
            assert(decoded(cart@, instructions@[k].address) == Ok::<Instruction, DecodeError>(instructions@[k]));
        }
    }
    let starts = block_starts(data, &instructions);
    let split = split_blocks(&instructions, &starts, Ghost(table));
    let chunks = link_blocks(data, &instructions, &split, Ghost(cart@), Ghost(address));
    let set = ChunkSet { chunks, instructions };
    proof {
        let cs = set.blocks();
        let v = set.instrs();
        assert forall|c: int| 0 <= c < cs.len() implies shaped(table, v, cs, #[trigger] cs[c]) by {
            assert(shaped(table, v, split@, cs[c]));
        }
        assert forall|k: int| 0 < k < v.len() implies (is_chunk_start(cs, k) <==> #[trigger] is_block_start(table, v, v[k].address)) by {
            if is_chunk_start(cs, k) {
                let c = choose|c: int| 0 <= c < cs.len() && (#[trigger] cs[c]).start == k;
                assert(split@[c].start == k);
            }
            if is_chunk_start(split@, k) {
                let c = choose|c: int| 0 <= c < split@.len() && (#[trigger] split@[c]).start == k;
                assert(cs[c].start == k);
            }
        }
        assert forall|c: int| 0 <= c < cs.len() - 1 implies (#[trigger] cs[c + 1]).start == cs[c].start + cs[c].len by {
            assert(split@[c + 1].start == split@[c].start + split@[c].len);
        }
        assert(cs.last() == cs[cs.len() - 1]);
    }
    Ok(set)
}


/// Whether instruction index `k` lies in block `ch`.
pub open spec fn in_block(ch: Chunk, k: int) -> bool {
    ch.start <= k < ch.start + ch.len
}

/// Whether some block holds instruction index `k`.
pub open spec fn covered(cs: Seq<Chunk>, k: int) -> bool {
    exists|c: int| 0 <= c < cs.len() && #[trigger] in_block(cs[c], k)
}

/// The instructions of the first `m` blocks, block after block.
pub open spec fn concat_blocks(v: Seq<Instruction>, cs: Seq<Chunk>, m: int) -> Seq<Instruction>
    decreases m,
{
    if m <= 0 {
        Seq::empty()
    } else {
        concat_blocks(v, cs, m - 1) + v.subrange(cs[m - 1].start as int, cs[m - 1].start + cs[m - 1].len)
    }
}

proof fn lemma_blocks_ordered(cs: Seq<Chunk>, n: int, c: int, d: int)
    requires
        partitions(cs, n),
        0 <= c < d < cs.len(),
    ensures
        cs[c].start + cs[c].len <= cs[d].start,
    decreases d - c,
{
    if d > c + 1 {
        lemma_blocks_ordered(cs, n, c, d - 1);
        assert(cs[(d - 1) + 1].start == cs[d - 1].start + cs[d - 1].len);
    } else {
        assert(cs[c + 1].start == cs[c].start + cs[c].len);
    }
}

proof fn lemma_concat_prefix(v: Seq<Instruction>, cs: Seq<Chunk>, m: int)
    requires
        partitions(cs, v.len() as int),
        1 <= m <= cs.len(),
    ensures
        concat_blocks(v, cs, m) == v.subrange(0, cs[m - 1].start + cs[m - 1].len),
    decreases m,
{
    lemma_block_in_range(cs, v.len() as int, m - 1);
    if m == 1 {
        assert(concat_blocks(v, cs, 0) == Seq::<Instruction>::empty());
        assert(concat_blocks(v, cs, 1) =~= v.subrange(0, cs[0].start + cs[0].len));
    } else {
        lemma_concat_prefix(v, cs, m - 1);
        assert(cs[(m - 2) + 1].start == cs[m - 2].start + cs[m - 2].len);
        assert(concat_blocks(v, cs, m) =~= v.subrange(0, cs[m - 1].start + cs[m - 1].len));
    }
}

proof fn lemma_index_in_some_block(cs: Seq<Chunk>, n: int, c: int, k: int)
    requires
        partitions(cs, n),
        0 <= c < cs.len(),
        0 <= k < cs[c].start + cs[c].len,
    ensures
        exists|d: int| 0 <= d <= c && #[trigger] in_block(cs[d], k),
    decreases c,
{
    if k < cs[c].start {
        assert(c > 0);
        assert(cs[(c - 1) + 1].start == cs[c - 1].start + cs[c - 1].len);
        lemma_index_in_some_block(cs, n, c - 1, k);
        let d = choose|d: int| 0 <= d <= c - 1 && #[trigger] in_block(cs[d], k);
        assert(in_block(cs[d], k));
    } else {
        assert(in_block(cs[c], k));
    }
}

/// Block coverage: every instruction of the function lies in exactly one
/// block, and the blocks read in order give back the instructions.
pub proof fn lemma_blocks_cover(v: Seq<Instruction>, cs: Seq<Chunk>)
    requires
        partitions(cs, v.len() as int),
    ensures
        forall|k: int| 0 <= k < v.len() ==> #[trigger] covered(cs, k),
        forall|k: int, c: int, d: int|
            0 <= c < cs.len() && 0 <= d < cs.len() && #[trigger] in_block(cs[c], k) && #[trigger] in_block(cs[d], k) ==> c == d,
        concat_blocks(v, cs, cs.len() as int) == v,
{
    let last = cs.len() - 1;
    assert forall|k: int| 0 <= k < v.len() implies #[trigger] covered(cs, k) by {
        assert(cs.last() == cs[last]);
        lemma_index_in_some_block(cs, v.len() as int, last, k);
    }
    assert forall|k: int, c: int, d: int|
        0 <= c < cs.len() && 0 <= d < cs.len() && #[trigger] in_block(cs[c], k) && #[trigger] in_block(cs[d], k) implies c == d by {
        if c < d {
            lemma_blocks_ordered(cs, v.len() as int, c, d);
        } else if d < c {
            lemma_blocks_ordered(cs, v.len() as int, d, c);
        }
    }
    lemma_concat_prefix(v, cs, cs.len() as int);
    assert(cs.last() == cs[last]);
    assert(v.subrange(0, v.len() as int) =~= v);
}


pub open spec fn increasing(s: Seq<int>) -> bool {
    forall|j: int, k: int| 0 <= j < k < s.len() ==> s[j] < s[k]
}

proof fn lemma_increasing_prefix(s1: Seq<int>, s2: Seq<int>, k: int)
    requires
        increasing(s1),
        increasing(s2),
        forall|x: int| s1.contains(x) <==> s2.contains(x),
        0 <= k <= s1.len(),
        0 <= k <= s2.len(),
    ensures
        forall|j: int| 0 <= j < k ==> s1[j] == s2[j],
    decreases k,
{
    if k > 0 {
        lemma_increasing_prefix(s1, s2, k - 1);
        let i = k - 1;
        let a = s1[i];
        assert(s1.contains(a));
        let m = choose|m: int| 0 <= m < s2.len() && s2[m] == a;
        if m < i {
            assert(s1[m] == s2[m]);
            assert(s1[m] < s1[i]);
        } else if m > i {
            let b = s2[i];
            assert(s2.contains(b));
            let p = choose|p: int| 0 <= p < s1.len() && s1[p] == b;
            if p < i {
                assert(s2[p] == s1[p]);
                assert(s2[p] < s2[i]);
            } else if p > i {
                assert(s1[p] > s1[i]);
                assert(s2[i] < s2[m]);
            }
        }
    }
}

/// Two strictly increasing sequences with the same elements are equal.
proof fn lemma_increasing_unique(s1: Seq<int>, s2: Seq<int>)
    requires
        increasing(s1),
        increasing(s2),
        forall|x: int| s1.contains(x) <==> s2.contains(x),
    ensures
        s1 == s2,
{
    if s1.len() < s2.len() {
        lemma_increasing_prefix(s1, s2, s1.len() as int);
        let b = s2[s1.len() as int];
        assert(s2.contains(b));
        let p = choose|p: int| 0 <= p < s1.len() && s1[p] == b;
        assert(s2[p] == s1[p]);
        assert(s2[p] < s2[s1.len() as int]);
    } else if s2.len() < s1.len() {
        lemma_increasing_prefix(s1, s2, s2.len() as int);
        let b = s1[s2.len() as int];
        assert(s1.contains(b));
        let p = choose|p: int| 0 <= p < s2.len() && s2[p] == b;
        assert(s2[p] == s1[p]);
        assert(s1[p] < s1[s2.len() as int]);
    } else {
        lemma_increasing_prefix(s1, s2, s1.len() as int);
        assert(s1 =~= s2);
    }
}

pub open spec fn addresses(v: Seq<Instruction>) -> Seq<int> {
    v.map_values(|i: Instruction| i.address as int)
}

pub open spec fn block_starts_of(cs: Seq<Chunk>) -> Seq<int> {
    cs.map_values(|ch: Chunk| ch.start as int)
}

/// What `chunk` builds for the function at `start`: the sorted walk, cut
/// into blocks at the block starts, each block shaped by its last
/// instruction.
pub open spec fn is_cfg(
    image: Seq<u8>,
    table: Map<usize, FunctionFacts>,
    start: usize,
    v: Seq<Instruction>,
    cs: Seq<Chunk>,
) -> bool {
    &&& sorted_walk(image, table, start, v)
    &&& partitions(cs, v.len() as int)
    &&& boundaries(table, v, cs)
    &&& forall|c: int| 0 <= c < cs.len() ==> shaped(table, v, cs, #[trigger] cs[c])
}

proof fn lemma_sorted_walk_unique(
    image: Seq<u8>,
    table: Map<usize, FunctionFacts>,
    start: usize,
    v1: Seq<Instruction>,
    v2: Seq<Instruction>,
)
    requires
        sorted_walk(image, table, start, v1),
        sorted_walk(image, table, start, v2),
    ensures
        v1 == v2,
{
    let a1 = addresses(v1);
    let a2 = addresses(v2);
    assert forall|x: int| a1.contains(x) implies a2.contains(x) by {
        let k = choose|k: int| 0 <= k < a1.len() && a1[k] == x;
        assert(walk_reaches(image, table, start, v1[k].address));
        let m = choose|m: int| 0 <= m < v2.len() && v2[m].address == v1[k].address;
        assert(a2[m] == x);
    }
    assert forall|x: int| a2.contains(x) implies a1.contains(x) by {
        let k = choose|k: int| 0 <= k < a2.len() && a2[k] == x;
        assert(walk_reaches(image, table, start, v2[k].address));
        let m = choose|m: int| 0 <= m < v1.len() && v1[m].address == v2[k].address;
        assert(a1[m] == x);
    }
    lemma_increasing_unique(a1, a2);
    assert forall|k: int| 0 <= k < v1.len() implies v1[k] == v2[k] by {
        assert(a1[k] == a2[k]);
        assert(decoded(image, v1[k].address) == Ok::<Instruction, DecodeError>(v1[k]));
        assert(decoded(image, v2[k].address) == Ok::<Instruction, DecodeError>(v2[k]));
    }
    assert(v1 =~= v2);
}

proof fn lemma_block_starts_increasing(cs: Seq<Chunk>, n: int)
    requires
        partitions(cs, n),
    ensures
        increasing(block_starts_of(cs)),
{
    assert forall|j: int, k: int| 0 <= j < k < cs.len() implies block_starts_of(cs)[j] < block_starts_of(cs)[k] by {
        lemma_blocks_ordered(cs, n, j, k);
    }
}

/// The block whose first instruction stands at a given address is unique.
proof fn lemma_block_by_address(v: Seq<Instruction>, cs: Seq<Chunk>, c: int, d: int)
    requires
        increasing(addresses(v)),
        partitions(cs, v.len() as int),
        0 <= c < cs.len(),
        0 <= d < cs.len(),
        v[cs[c].start as int].address == v[cs[d].start as int].address,
    ensures
        c == d,
{
    lemma_block_in_range(cs, v.len() as int, c);
    lemma_block_in_range(cs, v.len() as int, d);
    if cs[c].start != cs[d].start {
        if cs[c].start < cs[d].start {
            assert(addresses(v)[cs[c].start as int] < addresses(v)[cs[d].start as int]);
        } else {
            assert(addresses(v)[cs[d].start as int] < addresses(v)[cs[c].start as int]);
        }
    }
    if c < d {
        lemma_blocks_ordered(cs, v.len() as int, c, d);
    } else if d < c {
        lemma_blocks_ordered(cs, v.len() as int, d, c);
    }
}

proof fn lemma_same_layout(
    table: Map<usize, FunctionFacts>,
    v: Seq<Instruction>,
    cs1: Seq<Chunk>,
    cs2: Seq<Chunk>,
)
    requires
        partitions(cs1, v.len() as int),
        partitions(cs2, v.len() as int),
        boundaries(table, v, cs1),
        boundaries(table, v, cs2),
    ensures
        cs1.len() == cs2.len(),
        forall|c: int| 0 <= c < cs1.len() ==> (#[trigger] cs1[c]).start == cs2[c].start && cs1[c].len == cs2[c].len,
{
    let n = v.len() as int;
    let s1 = block_starts_of(cs1);
    let s2 = block_starts_of(cs2);
    lemma_block_starts_increasing(cs1, n);
    lemma_block_starts_increasing(cs2, n);
    assert forall|x: int| s1.contains(x) implies s2.contains(x) by {
        let c = choose|c: int| 0 <= c < s1.len() && s1[c] == x;
        lemma_block_in_range(cs1, n, c);
        if x == 0 {
            assert(s2[0] == 0);
        } else {
            assert(is_chunk_start(cs1, x));
            assert(is_block_start(table, v, v[x].address));
            assert(is_chunk_start(cs2, x));
            let d = choose|d: int| 0 <= d < cs2.len() && (#[trigger] cs2[d]).start == x;
            assert(s2[d] == x);
        }
    }
    assert forall|x: int| s2.contains(x) implies s1.contains(x) by {
        let c = choose|c: int| 0 <= c < s2.len() && s2[c] == x;
        lemma_block_in_range(cs2, n, c);
        if x == 0 {
            assert(s1[0] == 0);
        } else {
            assert(is_chunk_start(cs2, x));
            assert(is_block_start(table, v, v[x].address));
            assert(is_chunk_start(cs1, x));
            let d = choose|d: int| 0 <= d < cs1.len() && (#[trigger] cs1[d]).start == x;
            assert(s1[d] == x);
        }
    }
    lemma_increasing_unique(s1, s2);
    assert forall|c: int| 0 <= c < cs1.len() implies (#[trigger] cs1[c]).start == cs2[c].start && cs1[c].len == cs2[c].len by {
        assert(s1[c] == s2[c]);
        if c < cs1.len() - 1 {
            assert(s1[c + 1] == s2[c + 1]);
            assert(cs1[c + 1].start == cs1[c].start + cs1[c].len);
            assert(cs2[c + 1].start == cs2[c].start + cs2[c].len);
        } else {
            assert(cs1.last() == cs1[c]);
            assert(cs2.last() == cs2[c]);
        }
    }
}

proof fn lemma_same_shape(
    table: Map<usize, FunctionFacts>,
    v: Seq<Instruction>,
    cs1: Seq<Chunk>,
    cs2: Seq<Chunk>,
    c: int,
)
    requires
        increasing(addresses(v)),
        partitions(cs1, v.len() as int),
        cs1.len() == cs2.len(),
        forall|d: int| 0 <= d < cs1.len() ==> (#[trigger] cs1[d]).start == cs2[d].start && cs1[d].len == cs2[d].len,
        0 <= c < cs1.len(),
        shaped(table, v, cs1, cs1[c]),
        shaped(table, v, cs2, cs2[c]),
    ensures
        cs1[c] == cs2[c],
{
    match cs1[c].chunk_type {
        ChunkType::End => {},
        ChunkType::Unconditional { next } => {
            match cs2[c].chunk_type {
                ChunkType::Unconditional { next: other } => {
                    assert(cs1[other as int].start == cs2[other as int].start);
                    lemma_block_by_address(v, cs1, next as int, other as int);
                },
                _ => {},
            }
        },
        ChunkType::Conditional { condition, if_true, if_false } => {
            match cs2[c].chunk_type {
                ChunkType::Conditional { condition: c2, if_true: t2, if_false: f2 } => {
                    assert(cs1[t2 as int].start == cs2[t2 as int].start);
                    assert(cs1[f2 as int].start == cs2[f2 as int].start);
                    lemma_block_by_address(v, cs1, if_true as int, t2 as int);
                    lemma_block_by_address(v, cs1, if_false as int, f2 as int);
                },
                _ => {},
            }
        },
    }
}

/// Idempotence: the control-flow graph of a function is determined by the
/// image, the function facts and the entry address; building it twice gives
/// the same instructions and the same blocks with the same successor shapes.
pub proof fn lemma_cfg_unique(
    image: Seq<u8>,
    table: Map<usize, FunctionFacts>,
    start: usize,
    v1: Seq<Instruction>,
    cs1: Seq<Chunk>,
    v2: Seq<Instruction>,
    cs2: Seq<Chunk>,
)
    requires
        is_cfg(image, table, start, v1, cs1),
        is_cfg(image, table, start, v2, cs2),
    ensures
        v1 == v2,
        cs1 == cs2,
{
    lemma_sorted_walk_unique(image, table, start, v1, v2);
    let v = v1;
    lemma_same_layout(table, v, cs1, cs2);
    assert(increasing(addresses(v))) by {
        assert forall|j: int, k: int| 0 <= j < k < addresses(v).len() implies addresses(v)[j] < addresses(v)[k] by {
            assert(v[j].address < v[k].address);
        }
    }
    assert forall|c: int| 0 <= c < cs1.len() implies cs1[c] == cs2[c] by {
        lemma_same_shape(table, v, cs1, cs2, c);
    }
    assert(cs1 =~= cs2);
}

} // verus!
