//! Program-wide fixpoint analysis that discovers functions, their call sites
//! and whether they can return.
use vstd::prelude::*;
use vstd::set_lib::{lemma_int_range, lemma_len_subset, set_int_range};
use vstd::string::StringExecFns;

use crate::data::{default_name, Data, FunctionFacts};
use crate::disassembly::{collect_instructions, sorted_walk};
use crate::image::{Cartridge, ENTRY_POINT};
use crate::instruction::{decoded, DecodeError, Instruction};
use crate::walker::{callee_returns, is_walk, walk_reaches, walk_step};

verus! {

/// Most passes one analyzer runs before it gives up waiting for its facts
/// to settle.
pub const MAX_ROUNDS: usize = 1000000;

/// Why a fixpoint analysis stopped early.
#[derive(Clone, Copy, Debug, PartialEq, Eq, Structural)]
pub enum ScanError {
    /// An instruction of a known function could not be decoded.
    Decode(DecodeError),
    /// The facts had not settled after `MAX_ROUNDS` passes.
    RoundLimit,
}

/// Facts only grow: no function is dropped or renamed, no call site is
/// forgotten, and a function known to return stays so.
pub open spec fn grows(old: Map<usize, FunctionFacts>, new: Map<usize, FunctionFacts>) -> bool {
    forall|a: usize| #[trigger]
        old.contains_key(a) ==> {
            &&& new.contains_key(a)
            &&& new[a].name == old[a].name
            &&& old[a].call_sites.subset_of(new[a].call_sites)
            &&& (old[a].can_return ==> new[a].can_return)
        }
}

/// `i`, met in the function at `f`, is accounted for in `table`: its callee
/// is known and lists it as a call site, and if it returns, `f` can return.
pub open spec fn accounted(table: Map<usize, FunctionFacts>, f: usize, i: Instruction) -> bool {
    &&& (i.spec_call_target() matches Some(t) ==> table.contains_key(t as usize)
        && table[t as usize].call_sites.contains(i.address))
    &&& (i.spec_is_return() ==> table.contains_key(f) && table[f].can_return)
}

/// The instruction at `a` decodes and is accounted for.
pub open spec fn accounted_at(image: Seq<u8>, table: Map<usize, FunctionFacts>, f: usize, a: usize) -> bool {
    decoded(image, a) matches Ok(i) && accounted(table, f, i)
}

/// Every instruction the walk from `f` reaches decodes and is accounted for.
pub open spec fn function_settled(image: Seq<u8>, table: Map<usize, FunctionFacts>, f: usize) -> bool {
    forall|a: usize| #[trigger] walk_reaches(image, table, f, a) ==> accounted_at(image, table, f, a)
}

/// The function facts are a fixpoint: the entry point is known and a scan
/// of every known function would add nothing.
pub open spec fn settled(image: Seq<u8>, table: Map<usize, FunctionFacts>) -> bool {
    &&& table.contains_key(ENTRY_POINT)
    &&& forall|f: usize| #[trigger] table.contains_key(f) ==> function_settled(image, table, f)
}

/// The functions known to return.
pub open spec fn returning(table: Map<usize, FunctionFacts>) -> Set<usize> {
    table.dom().filter(|a: usize| table[a].can_return)
}

/// Monotonicity: as the facts grow, neither the number of known functions
/// nor the number of functions known to return goes down.
pub proof fn lemma_facts_monotone(old: Map<usize, FunctionFacts>, new: Map<usize, FunctionFacts>)
    requires
        grows(old, new),
        new.dom().finite(),
    ensures
        old.dom().len() <= new.dom().len(),
        returning(old).len() <= returning(new).len(),
{
    assert(old.dom().subset_of(new.dom()));
    lemma_len_subset(old.dom(), new.dom());
    assert(returning(old).subset_of(returning(new)));
    lemma_len_subset(returning(old), returning(new));
}

/// Two tables that each grow into the other are the same.
pub proof fn lemma_grows_antisymmetric(a: Map<usize, FunctionFacts>, b: Map<usize, FunctionFacts>)
    requires
        grows(a, b),
        grows(b, a),
    ensures
        a == b,
{
    assert forall|k: usize| a.contains_key(k) implies a[k] == b[k] by {
        assert(a[k].call_sites =~= b[k].call_sites);
    }
    assert(a =~= b);
}

pub proof fn lemma_grows_transitive(
    a: Map<usize, FunctionFacts>,
    b: Map<usize, FunctionFacts>,
    c: Map<usize, FunctionFacts>,
)
    requires
        grows(a, b),
        grows(b, c),
    ensures
        grows(a, c),
{
    assert forall|k: usize| #[trigger] a.contains_key(k) implies {
        &&& c.contains_key(k)
        &&& c[k].name == a[k].name
        &&& a[k].call_sites.subset_of(c[k].call_sites)
        &&& (a[k].can_return ==> c[k].can_return)
    } by {
        assert(b.contains_key(k));
    }
}

proof fn lemma_grows_refl(a: Map<usize, FunctionFacts>)
    ensures
        grows(a, a),
{
}

/// After a step from `mid` to `new`, a table that grew into `mid` and was
/// changed before is still changed.
proof fn lemma_still_changed(
    old: Map<usize, FunctionFacts>,
    mid: Map<usize, FunctionFacts>,
    new: Map<usize, FunctionFacts>,
)
    requires
        grows(old, mid),
        grows(mid, new),
        mid != old,
    ensures
        grows(old, new),
        new != old,
{
    lemma_grows_transitive(old, mid, new);
    if new == old {
        lemma_grows_antisymmetric(old, mid);
    }
}

/// Known functions lie below the 16-bit call space and call sites inside an
/// image of `n` bytes.
pub open spec fn bounded(table: Map<usize, FunctionFacts>, n: nat) -> bool {
    forall|a: usize| #[trigger]
        table.contains_key(a) ==> a < 0x10000 && forall|s: usize| #[trigger]
            table[a].call_sites.contains(s) ==> s < n
}

/// The number that stands for the call site `s` of the function at `a`.
pub open spec fn site_code(n: nat, a: usize, s: usize) -> int {
    0x10000 + (a as int) * (n as int) + (s as int)
}

/// The number that stands for the fact that the function at `a` returns.
pub open spec fn return_code(n: nat, a: usize) -> int {
    0x10000 + 0x10000 * (n as int) + (a as int)
}

/// Whether `x` stands for a fact of `table`: a known function, a call site,
/// or a function known to return.
pub open spec fn is_fact(table: Map<usize, FunctionFacts>, n: nat, x: int) -> bool {
    ||| (0 <= x < 0x10000 && table.contains_key(x as usize))
    ||| exists|a: usize, s: usize|
        table.contains_key(a) && #[trigger] table[a].call_sites.contains(s) && x == site_code(n, a, s)
    ||| exists|a: usize| table.contains_key(a) && table[a].can_return && x == #[trigger] return_code(n, a)
}

/// All facts of `table`, each as a number.
pub open spec fn facts(table: Map<usize, FunctionFacts>, n: nat) -> Set<int> {
    Set::new(|x: int| is_fact(table, n, x))
}

/// More facts than a bounded table can hold.
pub open spec fn fact_bound(n: nat) -> int {
    0x20000 + 0x10000 * (n as int)
}

proof fn lemma_site_code_range(n: nat, a: usize, s: usize)
    requires
        a < 0x10000,
        s < n,
    ensures
        0x10000 <= site_code(n, a, s) < 0x10000 + 0x10000 * n,
{
    vstd::arithmetic::mul::lemma_mul_inequality(a as int, 0xFFFF, n as int);
    vstd::arithmetic::mul::lemma_mul_inequality(0, a as int, n as int);
}

proof fn lemma_site_code_injective(n: nat, a: usize, s: usize, b: usize, t: usize)
    requires
        s < n,
        t < n,
        site_code(n, a, s) == site_code(n, b, t),
    ensures
        a == b,
        s == t,
{
    let x = (a as int) * (n as int) + (s as int);
    vstd::arithmetic::div_mod::lemma_fundamental_div_mod_converse(x, n as int, a as int, s as int);
    vstd::arithmetic::div_mod::lemma_fundamental_div_mod_converse(x, n as int, b as int, t as int);
}

/// A bounded table has fewer facts than `fact_bound`.
proof fn lemma_facts_in_range(table: Map<usize, FunctionFacts>, n: nat)
    requires
        bounded(table, n),
    ensures
        facts(table, n).finite(),
        facts(table, n).len() <= fact_bound(n),
{
    let range = set_int_range(0, fact_bound(n));
    assert forall|x: int| facts(table, n).contains(x) implies range.contains(x) by {
        if exists|a: usize, s: usize| table.contains_key(a) && #[trigger] table[a].call_sites.contains(s) && x == site_code(n, a, s) {
            let (a, s) = choose|a: usize, s: usize| table.contains_key(a) && #[trigger] table[a].call_sites.contains(s) && x == site_code(n, a, s);
            lemma_site_code_range(n, a, s);
        }
    }
    lemma_int_range(0, fact_bound(n));
    lemma_len_subset(facts(table, n), range);
}

/// A step that changes a bounded table adds at least one fact.
proof fn lemma_facts_grow(old: Map<usize, FunctionFacts>, new: Map<usize, FunctionFacts>, n: nat)
    requires
        grows(old, new),
        bounded(old, n),
        bounded(new, n),
        old != new,
    ensures
        facts(old, n).len() < facts(new, n).len(),
{
    let fo = facts(old, n);
    let fnew = facts(new, n);
    lemma_facts_in_range(old, n);
    lemma_facts_in_range(new, n);
    assert forall|x: int| fo.contains(x) implies fnew.contains(x) by {
        if exists|a: usize, s: usize| old.contains_key(a) && #[trigger] old[a].call_sites.contains(s) && x == site_code(n, a, s) {
            let (a, s) = choose|a: usize, s: usize| old.contains_key(a) && #[trigger] old[a].call_sites.contains(s) && x == site_code(n, a, s);
            assert(new[a].call_sites.contains(s));
        }
        if exists|a: usize| old.contains_key(a) && old[a].can_return && x == #[trigger] return_code(n, a) {
            let a = choose|a: usize| old.contains_key(a) && old[a].can_return && x == #[trigger] return_code(n, a);
            assert(new.contains_key(a) && new[a].can_return);
        }
    }
    let x = lemma_new_fact(old, new, n);
    assert(fo.subset_of(fnew.remove(x)));
    lemma_len_subset(fo, fnew.remove(x));
}

/// A fact of `new` that `old` lacks.
proof fn lemma_new_fact(old: Map<usize, FunctionFacts>, new: Map<usize, FunctionFacts>, n: nat) -> (x: int)
    requires
        grows(old, new),
        bounded(old, n),
        bounded(new, n),
        old != new,
    ensures
        facts(new, n).contains(x),
        !facts(old, n).contains(x),
{
    if exists|k: usize| new.contains_key(k) && !old.contains_key(k) {
        let k = choose|k: usize| new.contains_key(k) && !old.contains_key(k);
        assert(is_fact(new, n, k as int));
        if is_fact(old, n, k as int) {
            if exists|a: usize, s: usize| old.contains_key(a) && #[trigger] old[a].call_sites.contains(s) && k as int == site_code(n, a, s) {
                let (a, s) = choose|a: usize, s: usize| old.contains_key(a) && #[trigger] old[a].call_sites.contains(s) && k as int == site_code(n, a, s);
                lemma_site_code_range(n, a, s);
            }
        }
        k as int
    } else if exists|k: usize, s: usize| old.contains_key(k) && #[trigger] new[k].call_sites.contains(s) && !old[k].call_sites.contains(s) {
        let (k, s) = choose|k: usize, s: usize| old.contains_key(k) && #[trigger] new[k].call_sites.contains(s) && !old[k].call_sites.contains(s);
        let x = site_code(n, k, s);
        assert(is_fact(new, n, x));
        lemma_site_code_range(n, k, s);
        if is_fact(old, n, x) {
            if exists|a: usize, t: usize| old.contains_key(a) && #[trigger] old[a].call_sites.contains(t) && x == site_code(n, a, t) {
                let (a, t) = choose|a: usize, t: usize| old.contains_key(a) && #[trigger] old[a].call_sites.contains(t) && x == site_code(n, a, t);
                lemma_site_code_injective(n, k, s, a, t);
            }
        }
        x
    } else if exists|k: usize| old.contains_key(k) && new[k].can_return && !old[k].can_return {
        let k = choose|k: usize| old.contains_key(k) && new[k].can_return && !old[k].can_return;
        let x = return_code(n, k);
        assert(is_fact(new, n, x));
        if is_fact(old, n, x) {
            if exists|a: usize, t: usize| old.contains_key(a) && #[trigger] old[a].call_sites.contains(t) && x == site_code(n, a, t) {
                let (a, t) = choose|a: usize, t: usize| old.contains_key(a) && #[trigger] old[a].call_sites.contains(t) && x == site_code(n, a, t);
                lemma_site_code_range(n, a, t);
            }
        }
        x
    } else {
        assert forall|k: usize| old.contains_key(k) implies old[k] == new[k] by {
            assert(old[k].call_sites =~= new[k].call_sites);
        }
        assert(old.dom() =~= new.dom());
        assert(old =~= new);
        0
    }
}

/// Every fact of `small` is also a fact of `big`; names aside.
pub open spec fn below(small: Map<usize, FunctionFacts>, big: Map<usize, FunctionFacts>) -> bool {
    forall|a: usize| #[trigger]
        small.contains_key(a) ==> {
            &&& big.contains_key(a)
            &&& small[a].call_sites.subset_of(big[a].call_sites)
            &&& (small[a].can_return ==> big[a].can_return)
        }
}

/// Every fact of `table` holds in every fixpoint: it is the least one.
pub open spec fn least(image: Seq<u8>, table: Map<usize, FunctionFacts>) -> bool {
    forall|t: Map<usize, FunctionFacts>| #[trigger] settled(image, t) ==> below(table, t)
}

/// The entry point is called `entrypoint`; every other function keeps the
/// name it got when first seen.
pub open spec fn named(table: Map<usize, FunctionFacts>) -> bool {
    forall|a: usize| #[trigger]
        table.contains_key(a) ==> table[a].name == if a == ENTRY_POINT {
            "entrypoint"@
        } else {
            default_name(a)
        }
}

/// Knowing more functions that return only lets the walk reach further.
proof fn lemma_walk_monotone(
    image: Seq<u8>,
    small: Map<usize, FunctionFacts>,
    big: Map<usize, FunctionFacts>,
    f: usize,
    a: usize,
)
    requires
        below(small, big),
        walk_reaches(image, small, f, a),
    ensures
        walk_reaches(image, big, f, a),
{
    let path = choose|path: Seq<usize>| #[trigger] is_walk(image, small, f, path) && path.last() == a;
    assert forall|k: int| 0 <= k < path.len() - 1 implies walk_step(image, big, #[trigger] path[k], path[k + 1]) by {
        assert(walk_step(image, small, path[k], path[k + 1]));
        let i = match decoded(image, path[k]) {
            Ok(i) => i,
            Err(_) => arbitrary(),
        };
        if callee_returns(small, i) {
            let t = i.spec_call_target().unwrap();
            assert(small.contains_key(t as usize));
        }
    }
    assert(is_walk(image, big, f, path));
}

/// An instruction met by the walk of a known function under facts that hold
/// in a fixpoint `t` is accounted for in `t`.
proof fn lemma_accounted_in_fixpoint(
    image: Seq<u8>,
    before: Map<usize, FunctionFacts>,
    t: Map<usize, FunctionFacts>,
    f: usize,
    ins: Instruction,
)
    requires
        settled(image, t),
        below(before, t),
        before.contains_key(f),
        walk_reaches(image, before, f, ins.address),
        decoded(image, ins.address) == Ok::<Instruction, DecodeError>(ins),
    ensures
        accounted(t, f, ins),
        t.contains_key(f),
{
    lemma_walk_monotone(image, before, t, f, ins.address);
    assert(function_settled(image, t, f));
    assert(accounted_at(image, t, f, ins.address));
}

/// Idempotence of the function analysis: two tables that are both the
/// least fixpoint for one image, with functions named as the analysis names
/// them, are equal; so `find_functions` gives the same table every time.
pub proof fn lemma_least_unique(image: Seq<u8>, r1: Map<usize, FunctionFacts>, r2: Map<usize, FunctionFacts>)
    requires
        settled(image, r1),
        settled(image, r2),
        least(image, r1),
        least(image, r2),
        named(r1),
        named(r2),
    ensures
        r1 == r2,
{
    assert(below(r1, r2));
    assert(below(r2, r1));
    assert forall|a: usize| r1.contains_key(a) implies r1[a] == r2[a] by {
        assert(r1[a].call_sites =~= r2[a].call_sites);
    }
    assert(r1.dom() =~= r2.dom());
    assert(r1 =~= r2);
}

/// The scan of a known function of `table` meets an undecodable address:
/// the error `e` is that address's decode error.
pub open spec fn scan_fails(image: Seq<u8>, table: Map<usize, FunctionFacts>, e: ScanError) -> bool {
    match e {
        ScanError::Decode(de) => exists|f: usize, a: usize|
            table.contains_key(f) && #[trigger] walk_reaches(image, table, f, a)
                && decoded(image, a) == Err::<Instruction, DecodeError>(de),
        ScanError::RoundLimit => false,
    }
}

proof fn lemma_accounted_grows(t0: Map<usize, FunctionFacts>, t1: Map<usize, FunctionFacts>, f: usize, i: Instruction)
    requires
        grows(t0, t1),
        accounted(t0, f, i),
    ensures
        accounted(t1, f, i),
{
    if let Some(t) = i.spec_call_target() {
        assert(t0.contains_key(t as usize));
    }
    if i.spec_is_return() {
        assert(t0.contains_key(f));
    }
}

/// The calls and returns already accounted for stay accounted for as the
/// table grows.
proof fn lemma_keep_accounted(
    image: Seq<u8>,
    start: Map<usize, FunctionFacts>,
    known: Seq<usize>,
    idx: int,
    f: usize,
    v: Seq<Instruction>,
    j: int,
    t0: Map<usize, FunctionFacts>,
    t1: Map<usize, FunctionFacts>,
)
    requires
        grows(t0, t1),
        forall|k: int, a: usize|
            0 <= k < idx && #[trigger] walk_reaches(image, start, known[k], a) ==> accounted_at(image, t0, known[k], a),
        forall|k: int| 0 <= k < j ==> accounted(t0, f, #[trigger] v[k]),
        0 <= j < v.len(),
        accounted(t1, f, v[j]),
    ensures
        forall|k: int, a: usize|
            0 <= k < idx && #[trigger] walk_reaches(image, start, known[k], a) ==> accounted_at(image, t1, known[k], a),
        forall|k: int| 0 <= k < j + 1 ==> accounted(t1, f, #[trigger] v[k]),
{
    assert forall|k: int, a: usize|
        0 <= k < idx && #[trigger] walk_reaches(image, start, known[k], a) implies accounted_at(image, t1, known[k], a) by {
        let i = decoded(image, a)->Ok_0;
        lemma_accounted_grows(t0, t1, known[k], i);
    }
    assert forall|k: int| 0 <= k < j + 1 implies accounted(t1, f, #[trigger] v[k]) by {
        if k < j {
            lemma_accounted_grows(t0, t1, f, v[k]);
        }
    }
}

/// Once every instruction of `f`'s walk is accounted for, every address the
/// walk reaches under the facts at the start of the pass is.
proof fn lemma_function_accounted(
    image: Seq<u8>,
    start: Map<usize, FunctionFacts>,
    before: Map<usize, FunctionFacts>,
    cur: Map<usize, FunctionFacts>,
    f: usize,
    v: Seq<Instruction>,
)
    requires
        grows(start, before),
        sorted_walk(image, before, f, v),
        forall|k: int| 0 <= k < v.len() ==> accounted(cur, f, #[trigger] v[k]),
    ensures
        forall|a: usize| #[trigger] walk_reaches(image, start, f, a) ==> accounted_at(image, cur, f, a),
{
    assert forall|a: usize| #[trigger] walk_reaches(image, start, f, a) implies accounted_at(image, cur, f, a) by {
        assert(below(start, before)) by {
            assert forall|b: usize| #[trigger] start.contains_key(b) implies before.contains_key(b)
                && start[b].call_sites.subset_of(before[b].call_sites)
                && (start[b].can_return ==> before[b].can_return) by {}
        }
        lemma_walk_monotone(image, start, before, f, a);
        let k = choose|k: int| 0 <= k < v.len() && v[k].address == a;
        assert(decoded(image, v[k].address) == Ok::<Instruction, DecodeError>(v[k]));
        assert(accounted(cur, f, v[k]));
    }
}

/// One scan of every known function: adds the callees met as functions,
/// records their call sites, and marks functions that reach a return.
/// Tells whether any fact was new.
pub fn analyze_functions(cart: &Cartridge, data: &mut Data) -> (r: Result<bool, ScanError>)
    requires
        old(data).functions.wf(),
    ensures
        final(data).functions.wf(),
        grows(old(data).functions@, final(data).functions@),
        r matches Ok(changed) ==> changed == (final(data).functions@ != old(data).functions@),
        r == Ok::<bool, ScanError>(false) ==> forall|f: usize| #[trigger]
            old(data).functions@.contains_key(f) ==> function_settled(cart@, old(data).functions@, f),
        forall|t: Map<usize, FunctionFacts>| #[trigger]
            settled(cart@, t) && below(old(data).functions@, t) ==> below(final(data).functions@, t),
        forall|a: usize| #[trigger]
            final(data).functions@.contains_key(a) && !old(data).functions@.contains_key(a)
                ==> final(data).functions@[a].name == default_name(a),
        bounded(old(data).functions@, cart@.len()) ==> bounded(final(data).functions@, cart@.len()),
        r is Ok ==> forall|f: usize, a: usize|
            old(data).functions@.contains_key(f) && #[trigger] walk_reaches(cart@, old(data).functions@, f, a)
                ==> accounted_at(cart@, final(data).functions@, f, a),
        r matches Err(e) ==> scan_fails(cart@, final(data).functions@, e),
{
    let ghost image = cart@;
    let ghost start = data.functions@;
    let known = data.functions.iter();
    proof {
        data.functions.lemma_order();
    }
    let mut changes = false;
    let mut idx: usize = 0;
    while idx < known.len()
        invariant
            image == cart@,
            start == old(data).functions@,
            data.functions.wf(),
            grows(start, data.functions@),
            changes == (data.functions@ != start),
            idx <= known@.len(),
            forall|k: int| 0 <= k < known@.len() ==> start.contains_key(#[trigger] known@[k]),
            !changes ==> forall|k: int| 0 <= k < idx ==> function_settled(image, start, #[trigger] known@[k]),
            forall|t: Map<usize, FunctionFacts>| #[trigger]
                settled(image, t) && below(start, t) ==> below(data.functions@, t),
            forall|a: usize| #[trigger]
                data.functions@.contains_key(a) && !start.contains_key(a) ==> data.functions@[a].name == default_name(a),
            bounded(start, image.len()) ==> bounded(data.functions@, image.len()),
            forall|k: int, a: usize|
                0 <= k < idx && #[trigger] walk_reaches(image, start, known@[k], a) ==> accounted_at(image, data.functions@, known@[k], a),
        decreases known@.len() - idx,
    {
        let f = known[idx];
        let instructions = match collect_instructions(cart, data, f) {
            Ok(v) => v,
            Err(e) => {
                proof {
                    let a = choose|a: usize|
                        walk_reaches(image, data.functions@, f, a) && #[trigger] decoded(image, a)
                            == Err::<Instruction, DecodeError>(e);
                    assert(data.functions@.contains_key(f));
                    assert(walk_reaches(image, data.functions@, f, a));
                }
                return Err(ScanError::Decode(e));
            },
        };
        let ghost before = data.functions@;
        let mut j: usize = 0;
        while j < instructions.len()
            invariant
                image == cart@,
                data.functions.wf(),
                grows(start, data.functions@),
                grows(before, data.functions@),
                changes == (data.functions@ != start),
                start.contains_key(f),
                j <= instructions@.len(),
                !changes ==> before == start,
                !changes ==> forall|k: int| 0 <= k < j ==> accounted(start, f, #[trigger] instructions@[k]),
                sorted_walk(image, before, f, instructions@),
                before.contains_key(f),
                forall|t: Map<usize, FunctionFacts>| #[trigger]
                    settled(image, t) && below(start, t) ==> below(before, t),
                forall|t: Map<usize, FunctionFacts>| #[trigger]
                    settled(image, t) && below(start, t) ==> below(data.functions@, t),
                forall|a: usize| #[trigger]
                    data.functions@.contains_key(a) && !start.contains_key(a) ==> data.functions@[a].name == default_name(a),
                bounded(start, image.len()) ==> bounded(data.functions@, image.len()),
                forall|k: int, a: usize|
                    0 <= k < idx && #[trigger] walk_reaches(image, start, known@[k], a) ==> accounted_at(image, data.functions@, known@[k], a),
                forall|k: int| 0 <= k < j ==> accounted(data.functions@, f, #[trigger] instructions@[k]),
                known@[idx as int] == f,
                idx < known@.len(),
            decreases instructions@.len() - j,
        {
            let ins = instructions[j];
            let ghost t_start = data.functions@;
            match ins.call_target() {
                Some(target) => {
                    let ghost t0 = data.functions@;
                    let is_new_function = data.functions.get_or_add(target);
                    let ghost t1 = data.functions@;
                    let is_new_call_site = data.functions.add_call_site(target, ins.address);
                    let ghost t2 = data.functions@;
                    proof {
                        assert(grows(t0, t1));
                        assert(grows(t1, t2)) by {
                            assert forall|a: usize| #[trigger] t1.contains_key(a) implies t1[a].call_sites.subset_of(t2[a].call_sites) by {}
                        }
                        if !is_new_function {
                            assert(t1 == t0);
                        }
                        if !is_new_call_site {
                            assert(t1[target].call_sites.insert(ins.address) =~= t1[target].call_sites);
                            assert(t2 =~= t1);
                        } else {
                            assert(!t1[target].call_sites.contains(ins.address));
                            assert(t2[target].call_sites.contains(ins.address));
                        }
                        lemma_grows_transitive(t0, t1, t2);
                        lemma_grows_transitive(start, t0, t2);
                        lemma_grows_transitive(before, t0, t2);
                        if changes {
                            lemma_still_changed(start, t0, t2);
                        }
                        assert forall|t: Map<usize, FunctionFacts>| #[trigger]
                            settled(image, t) && below(start, t) implies below(t2, t) by {
                            lemma_accounted_in_fixpoint(image, before, t, f, ins);
                            assert forall|a: usize| #[trigger] t2.contains_key(a) implies {
                                &&& t.contains_key(a)
                                &&& t2[a].call_sites.subset_of(t[a].call_sites)
                                &&& (t2[a].can_return ==> t[a].can_return)
                            } by {
                                if a != target {
                                    assert(t0.contains_key(a));
                                } else if t0.contains_key(a) {
                                    assert(t1[a] == t0[a]);
                                } else {
                                    assert(t1[a].call_sites == Set::<usize>::empty());
                                }
                            }
                        }
                        if bounded(start, image.len()) {
                            assert(decoded(image, ins.address) == Ok::<Instruction, DecodeError>(ins));
                            assert(target < 0x10000);
                            assert forall|a: usize| #[trigger] t2.contains_key(a) implies a < 0x10000 && forall|s: usize| #[trigger]
                                t2[a].call_sites.contains(s) ==> s < image.len() by {
                                if a != target {
                                    assert(t0.contains_key(a));
                                    assert(t2[a] == t0[a]);
                                } else if t0.contains_key(a) {
                                    assert(t1[a] == t0[a]);
                                } else {
                                    assert(t1[a].call_sites == Set::<usize>::empty());
                                }
                            }
                        }
                        assert forall|a: usize| #[trigger]
                            t2.contains_key(a) && !start.contains_key(a) implies t2[a].name == default_name(a) by {
                            if a == target && !t0.contains_key(a) {
                                assert(t1[a].name == default_name(a));
                            } else {
                                assert(t0.contains_key(a));
                            }
                        }
                        if is_new_function || is_new_call_site {
                            assert(t2 != t0) by {
                                if is_new_function {
                                    assert(!t0.contains_key(target));
                                } else {
                                    assert(!t0[target].call_sites.contains(ins.address));
                                }
                            }
                            if !changes {
                                assert(t2 != start);
                            }
                        }
                    }
                    proof {
                        assert(t2.contains_key(target) && t2[target].call_sites.contains(ins.address));
                    }
                    changes = changes || is_new_function || is_new_call_site;
                },
                None => {},
            }
            let ghost t_call = data.functions@;
            proof {
                assert(grows(t_start, t_call));
                if let Some(tg) = ins.spec_call_target() {
                    assert(t_call.contains_key(tg as usize) && t_call[tg as usize].call_sites.contains(ins.address));
                }
            }
            if ins.is_return() {
                let ghost t0 = data.functions@;
                let is_new_fact = data.functions.set_can_return(f);
                let ghost t1 = data.functions@;
                proof {
                    assert(grows(t0, t1)) by {
                        assert forall|a: usize| #[trigger] t0.contains_key(a) implies t0[a].call_sites.subset_of(t1[a].call_sites) by {}
                    }
                    lemma_grows_transitive(start, t0, t1);
                    lemma_grows_transitive(before, t0, t1);
                    if !is_new_fact {
                        assert(t1 =~= t0);
                    }
                    if changes {
                        lemma_still_changed(start, t0, t1);
                    }
                    if is_new_fact && !changes {
                        assert(!t0[f].can_return);
                        assert(t1 != start);
                    }
                    assert forall|t: Map<usize, FunctionFacts>| #[trigger]
                        settled(image, t) && below(start, t) implies below(t1, t) by {
                        lemma_accounted_in_fixpoint(image, before, t, f, ins);
                        assert forall|a: usize| #[trigger] t1.contains_key(a) implies {
                            &&& t.contains_key(a)
                            &&& t1[a].call_sites.subset_of(t[a].call_sites)
                            &&& (t1[a].can_return ==> t[a].can_return)
                        } by {
                            assert(t0.contains_key(a));
                        }
                    }
                    assert forall|a: usize| #[trigger]
                        t1.contains_key(a) && !start.contains_key(a) implies t1[a].name == default_name(a) by {
                        assert(t0.contains_key(a));
                    }
                    if bounded(start, image.len()) {
                        assert forall|a: usize| #[trigger] t1.contains_key(a) implies a < 0x10000 && forall|s: usize| #[trigger]
                            t1[a].call_sites.contains(s) ==> s < image.len() by {
                            assert(t0.contains_key(a));
                            assert(t1[a].call_sites == t0[a].call_sites);
                        }
                    }
                }
                changes = changes || is_new_fact;
            }
            proof {
                let t_end = data.functions@;
                assert(grows(t_call, t_end));
                lemma_grows_transitive(t_start, t_call, t_end);
                if let Some(tg) = ins.spec_call_target() {
                    assert(t_call.contains_key(tg as usize));
                    assert(t_end.contains_key(tg as usize) && t_end[tg as usize].call_sites.contains(ins.address));
                }
                assert(accounted(t_end, f, ins));
                lemma_keep_accounted(image, start, known@, idx as int, f, instructions@, j as int, t_start, t_end);
            }
            j = j + 1;
        }
        proof {
            lemma_function_accounted(image, start, before, data.functions@, f, instructions@);
            assert forall|k: int, a: usize|
                0 <= k < idx + 1 && #[trigger] walk_reaches(image, start, known@[k], a) implies accounted_at(image, data.functions@, known@[k], a) by {
                if k == idx {
                    assert(walk_reaches(image, start, f, a));
                }
            }
            if !changes {
                assert forall|a: usize| #[trigger] walk_reaches(image, start, f, a) implies accounted_at(image, start, f, a) by {
                    let k = choose|k: int| 0 <= k < instructions@.len() && instructions@[k].address == a;
                    assert(decoded(image, instructions@[k].address) == Ok::<Instruction, DecodeError>(instructions@[k]));
                    assert(accounted(start, f, instructions@[k]));
                }
                assert(function_settled(image, start, known@[idx as int]));
            }
        }
        idx = idx + 1;
    }
    proof {
        if !changes {
            assert forall|f: usize| #[trigger] start.contains_key(f) implies function_settled(image, start, f) by {
                assert(known@.contains(f));
                let k = choose|k: int| 0 <= k < known@.len() && known@[k] == f;
            }
        }
        assert forall|f: usize, a: usize|
            start.contains_key(f) && #[trigger] walk_reaches(image, start, f, a) implies accounted_at(image, data.functions@, f, a) by {
            assert(known@.contains(f));
            let k = choose|k: int| 0 <= k < known@.len() && known@[k] == f;
            assert(walk_reaches(image, start, known@[k], a));
        }
    }
    Ok(changes)
}


/// Whether `last` was reached from `first` by `n` passes that each changed
/// the table.
pub open spec fn changed_for(first: Map<usize, FunctionFacts>, last: Map<usize, FunctionFacts>, n: nat) -> bool {
    exists|chain: Seq<Map<usize, FunctionFacts>>| #[trigger] changing_chain(chain, first, last, n)
}

/// `chain` leads from `first` to `last` in `n` steps, each of which grows
/// and changes the table.
pub open spec fn changing_chain(
    chain: Seq<Map<usize, FunctionFacts>>,
    first: Map<usize, FunctionFacts>,
    last: Map<usize, FunctionFacts>,
    n: nat,
) -> bool {
    &&& chain.len() == n + 1
    &&& chain[0] == first
    &&& chain[n as int] == last
    &&& forall|k: int| 0 <= k < n ==> grows(#[trigger] chain[k], chain[k + 1]) && chain[k] != chain[k + 1]
}

/// A pass over the whole image that adds facts to the function table.
pub trait RomAnalyzer {
    /// Whether `table` is a fixpoint of this analyzer: a pass would add
    /// nothing to it.
    spec fn complete(&self, image: Seq<u8>, table: Map<usize, FunctionFacts>) -> bool;

    /// A property of the table that every pass of this kind of analyzer
    /// keeps.
    spec fn keeps(image: Seq<u8>, table: Map<usize, FunctionFacts>) -> bool;

    /// Whether a pass of this kind of analyzer may stop with `e`, leaving
    /// `table` behind.
    spec fn fails_with(image: Seq<u8>, table: Map<usize, FunctionFacts>, e: ScanError) -> bool;

    /// Runs one pass; tells whether any fact was new.
    fn run(&self, cartridge: &Cartridge, data: &mut Data) -> (r: Result<bool, ScanError>)
        requires
            old(data).functions.wf(),
        ensures
            final(data).functions.wf(),
            grows(old(data).functions@, final(data).functions@),
            r matches Ok(changed) ==> changed == (final(data).functions@ != old(data).functions@),
            r == Ok::<bool, ScanError>(false) ==> self.complete(cartridge@, final(data).functions@),
            Self::keeps(cartridge@, old(data).functions@) ==> Self::keeps(cartridge@, final(data).functions@),
            r matches Err(e) ==> Self::fails_with(cartridge@, final(data).functions@, e),
    ;
}

/// Runs `analyzer` until a pass adds nothing; tells whether any pass added
/// something. Gives up with `RoundLimit` only after `MAX_ROUNDS` passes
/// that each changed the table.
pub fn run_until_unchanged<A: RomAnalyzer>(analyzer: &A, cartridge: &Cartridge, data: &mut Data) -> (r: Result<bool, ScanError>)
    requires
        old(data).functions.wf(),
    ensures
        final(data).functions.wf(),
        grows(old(data).functions@, final(data).functions@),
        r matches Ok(changed) ==> changed == (final(data).functions@ != old(data).functions@),
        r matches Ok(_) ==> analyzer.complete(cartridge@, final(data).functions@),
        A::keeps(cartridge@, old(data).functions@) ==> A::keeps(cartridge@, final(data).functions@),
        r matches Err(e) ==> A::fails_with(cartridge@, final(data).functions@, e) || (e is RoundLimit
            && changed_for(old(data).functions@, final(data).functions@, MAX_ROUNDS as nat)),
{
    let ghost start = data.functions@;
    let ghost mut chain: Seq<Map<usize, FunctionFacts>> = seq![start];
    let mut any_changes = false;
    let mut rounds: usize = 0;
    loop
        invariant
            start == old(data).functions@,
            data.functions.wf(),
            grows(start, data.functions@),
            any_changes == (data.functions@ != start),
            rounds <= MAX_ROUNDS,
            A::keeps(cartridge@, start) ==> A::keeps(cartridge@, data.functions@),
            changing_chain(chain, start, data.functions@, rounds as nat),
        decreases MAX_ROUNDS - rounds,
    {
        if rounds == MAX_ROUNDS {
            return Err(ScanError::RoundLimit);
        }
        let ghost before = data.functions@;
        let changes = match analyzer.run(cartridge, data) {
            Ok(c) => c,
            Err(e) => {
                proof {
                    lemma_grows_transitive(start, before, data.functions@);
                }
                return Err(e);
            },
        };
        proof {
            lemma_grows_transitive(start, before, data.functions@);
            if any_changes {
                lemma_still_changed(start, before, data.functions@);
            }
        }
        any_changes = any_changes || changes;
        if !changes {
            return Ok(any_changes);
        }
        proof {
            let old_chain = chain;
            chain = chain.push(data.functions@);
            assert forall|k: int| 0 <= k < rounds + 1 implies grows(#[trigger] chain[k], chain[k + 1]) && chain[k] != chain[k + 1] by {
                if k < rounds {
                    assert(chain[k] == old_chain[k] && chain[k + 1] == old_chain[k + 1]);
                } else {
                    assert(chain[k] == before);
                }
            }
        }
        rounds = rounds + 1;
    }
}

/// Discovers functions from call targets and which of them can return.
pub struct FunctionAnalyzer;

impl RomAnalyzer for FunctionAnalyzer {
    open spec fn complete(&self, image: Seq<u8>, table: Map<usize, FunctionFacts>) -> bool {
        settled(image, table)
    }

    open spec fn keeps(image: Seq<u8>, table: Map<usize, FunctionFacts>) -> bool {
        least(image, table) && named(table) && bounded(table, image.len())
    }

    open spec fn fails_with(image: Seq<u8>, table: Map<usize, FunctionFacts>, e: ScanError) -> bool {
        scan_fails(image, table, e)
    }

    fn run(&self, cart: &Cartridge, data: &mut Data) -> (r: Result<bool, ScanError>) {
        self.scan(cart, data)
    }
}

impl FunctionAnalyzer {
    /// Adds the entry point as a function the first time; afterwards scans
    /// every known function. Facts that hold in every fixpoint and the
    /// names functions get are kept so.
    pub fn scan(&self, cart: &Cartridge, data: &mut Data) -> (r: Result<bool, ScanError>)
        requires
            old(data).functions.wf(),
        ensures
            final(data).functions.wf(),
            grows(old(data).functions@, final(data).functions@),
            r matches Ok(changed) ==> changed == (final(data).functions@ != old(data).functions@),
            r == Ok::<bool, ScanError>(false) ==> settled(cart@, final(data).functions@),
            least(cart@, old(data).functions@) ==> least(cart@, final(data).functions@),
            named(old(data).functions@) ==> named(final(data).functions@),
            bounded(old(data).functions@, cart@.len()) ==> bounded(final(data).functions@, cart@.len()),
            r matches Err(e) ==> scan_fails(cart@, final(data).functions@, e),
            !old(data).functions@.contains_key(ENTRY_POINT) ==> r == Ok::<bool, ScanError>(true)
                && final(data).functions@ == old(data).functions@.insert(
                ENTRY_POINT,
                FunctionFacts { name: "entrypoint"@, call_sites: Set::empty(), can_return: false },
            ),
            old(data).functions@.contains_key(ENTRY_POINT) && r is Ok ==> forall|f: usize, a: usize|
                old(data).functions@.contains_key(f) && #[trigger] walk_reaches(cart@, old(data).functions@, f, a)
                    ==> accounted_at(cart@, final(data).functions@, f, a),
    {
        let is_new = data.functions.get_or_add(ENTRY_POINT);
        if is_new {
            let name = String::from_str("entrypoint");
            data.functions.set_name(ENTRY_POINT, name);
            proof {
                let old_t = old(data).functions@;
                let new_t = data.functions@;
                assert(new_t.contains_key(ENTRY_POINT));
                assert(!old_t.contains_key(ENTRY_POINT));
                if least(cart@, old_t) {
                    assert forall|t: Map<usize, FunctionFacts>| #[trigger] settled(cart@, t) implies below(new_t, t) by {
                        assert(below(old_t, t));
                        assert forall|a: usize| #[trigger] new_t.contains_key(a) implies {
                            &&& t.contains_key(a)
                            &&& new_t[a].call_sites.subset_of(t[a].call_sites)
                            &&& (new_t[a].can_return ==> t[a].can_return)
                        } by {
                            if a != ENTRY_POINT {
                                assert(old_t.contains_key(a));
                            }
                        }
                    }
                }
                if bounded(old_t, cart@.len()) {
                    assert forall|a: usize| #[trigger] new_t.contains_key(a) implies a < 0x10000 && forall|s: usize| #[trigger]
                        new_t[a].call_sites.contains(s) ==> s < cart@.len() by {
                        if a != ENTRY_POINT {
                            assert(old_t.contains_key(a));
                        } else {
                            assert(new_t[a].call_sites == Set::<usize>::empty());
                        }
                    }
                }
                if named(old_t) {
                    assert forall|a: usize| #[trigger] new_t.contains_key(a) implies new_t[a].name == if a == ENTRY_POINT {
                        "entrypoint"@
                    } else {
                        default_name(a)
                    } by {
                        if a != ENTRY_POINT {
                            assert(old_t.contains_key(a));
                        }
                    }
                }
            }
            Ok(true)
        } else {
            let ghost before = data.functions@;
            let r = analyze_functions(cart, data);
            proof {
                let new_t = data.functions@;
                if least(cart@, before) {
                    assert forall|t: Map<usize, FunctionFacts>| #[trigger] settled(cart@, t) implies below(new_t, t) by {
                        assert(below(before, t));
                    }
                }
                if named(before) {
                    assert forall|a: usize| #[trigger] new_t.contains_key(a) implies new_t[a].name == if a == ENTRY_POINT {
                        "entrypoint"@
                    } else {
                        default_name(a)
                    } by {
                        if before.contains_key(a) {
                            assert(new_t[a].name == before[a].name);
                        }
                    }
                }
            }
            r
        }
    }
}

/// Runs a list of analyzers in turn, each until it adds nothing, and stops
/// at the first one that added something.
pub struct CompositeAnalyzer<A> {
    inner: Vec<A>,
}

impl<A: RomAnalyzer> CompositeAnalyzer<A> {
    pub closed spec fn analyzers(&self) -> Seq<A> {
        self.inner@
    }

    pub fn new() -> (r: Self)
        ensures
            r.analyzers() == Seq::<A>::empty(),
    {
        CompositeAnalyzer { inner: Vec::new() }
    }

    pub fn push(&mut self, analyzer: A)
        ensures
            final(self).analyzers() == old(self).analyzers().push(analyzer),
    {
        self.inner.push(analyzer);
    }
}

impl<A: RomAnalyzer> RomAnalyzer for CompositeAnalyzer<A> {
    open spec fn complete(&self, image: Seq<u8>, table: Map<usize, FunctionFacts>) -> bool {
        forall|k: int| 0 <= k < self.analyzers().len() ==> (#[trigger] self.analyzers()[k]).complete(image, table)
    }

    open spec fn keeps(image: Seq<u8>, table: Map<usize, FunctionFacts>) -> bool {
        A::keeps(image, table)
    }

    open spec fn fails_with(image: Seq<u8>, table: Map<usize, FunctionFacts>, e: ScanError) -> bool {
        A::fails_with(image, table, e) || (e is RoundLimit && exists|first: Map<usize, FunctionFacts>|
            #[trigger] changed_for(first, table, MAX_ROUNDS as nat))
    }

    fn run(&self, cartridge: &Cartridge, data: &mut Data) -> (r: Result<bool, ScanError>) {
        let ghost start = data.functions@;
        let mut k: usize = 0;
        while k < self.inner.len()
            invariant
                start == old(data).functions@,
                data.functions@ == start,
                data.functions.wf(),
                k <= self.analyzers().len(),
                forall|j: int| 0 <= j < k ==> (#[trigger] self.analyzers()[j]).complete(cartridge@, start),
            decreases self.analyzers().len() - k,
        {
            let changes = match run_until_unchanged(&self.inner[k], cartridge, data) {
                Ok(c) => c,
                Err(e) => {
                    proof {
                        if !A::fails_with(cartridge@, data.functions@, e) {
                            assert(changed_for(start, data.functions@, MAX_ROUNDS as nat));
                        }
                    }
                    return Err(e);
                },
            };
            if changes {
                return Ok(true);
            }
            k = k + 1;
        }
        proof {
            lemma_grows_refl(start);
        }
        Ok(false)
    }
}

/// The scan of a table whose facts hold in every fixpoint failed with `e`.
pub open spec fn fails_in_least(image: Seq<u8>, e: ScanError) -> bool {
    exists|t: Map<usize, FunctionFacts>| least(image, t) && #[trigger] scan_fails(image, t, e)
}

/// Where a fixpoint exists, the scan of a table below every fixpoint meets
/// no undecodable address.
proof fn lemma_no_failure_below_fixpoint(
    image: Seq<u8>,
    fixpoint: Map<usize, FunctionFacts>,
    t: Map<usize, FunctionFacts>,
    e: ScanError,
)
    requires
        settled(image, fixpoint),
        least(image, t),
    ensures
        !scan_fails(image, t, e),
{
    assert(below(t, fixpoint));
    if scan_fails(image, t, e) {
        let de = e->Decode_0;
        let (f, a) = choose|f: usize, a: usize|
            t.contains_key(f) && #[trigger] walk_reaches(image, t, f, a)
                && decoded(image, a) == Err::<Instruction, DecodeError>(de);
        lemma_walk_monotone(image, t, fixpoint, f, a);
        assert(function_settled(image, fixpoint, f));
        assert(accounted_at(image, fixpoint, f, a));
    }
}

/// Runs the function analysis to its least fixpoint from an empty table.
/// Every pass that changes something adds a fact, and a table of an image
/// holds fewer than `fact_bound` facts, so the passes come to an end.
pub fn find_functions(cartridge: &Cartridge) -> (r: Result<Data, ScanError>)
    ensures
        r matches Ok(d) ==> {
            &&& d.functions.wf()
            &&& settled(cartridge@, d.functions@)
            &&& least(cartridge@, d.functions@)
            &&& named(d.functions@)
        },
        r matches Err(e) ==> fails_in_least(cartridge@, e),
        (exists|u: Map<usize, FunctionFacts>| #[trigger] settled(cartridge@, u)) ==> r is Ok,
{
    let ghost n = cartridge@.len();
    let mut data = Data::new();
    let analyzer = FunctionAnalyzer;
    proof {
        lemma_facts_in_range(data.functions@, n);
    }
    loop
        invariant
            n == cartridge@.len(),
            data.functions.wf(),
            least(cartridge@, data.functions@),
            named(data.functions@),
            bounded(data.functions@, n),
            facts(data.functions@, n).len() <= fact_bound(n),
        decreases fact_bound(n) - facts(data.functions@, n).len(),
    {
        let ghost before = data.functions@;
        let changes = match analyzer.scan(cartridge, &mut data) {
            Ok(c) => c,
            Err(e) => {
                proof {
                    assert(least(cartridge@, data.functions@) && scan_fails(cartridge@, data.functions@, e));
                    if exists|u: Map<usize, FunctionFacts>| #[trigger] settled(cartridge@, u) {
                        let u = choose|u: Map<usize, FunctionFacts>| #[trigger] settled(cartridge@, u);
                        lemma_no_failure_below_fixpoint(cartridge@, u, data.functions@, e);
                    }
                }
                return Err(e);
            },
        };
        proof {
            lemma_facts_in_range(data.functions@, n);
            if changes {
                lemma_facts_grow(before, data.functions@, n);
            }
        }
        if !changes {
            return Ok(data);
        }
    }
}

} // verus!
