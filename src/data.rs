//! The functions discovered in an image and the facts known of each.
use vstd::prelude::*;
use vstd::string::StringExecFns;
use std::collections::HashMap;
use std::collections::HashSet;

verus! {

broadcast use vstd::std_specs::hash::group_hash_axioms;

/// Decimal digit for `d < 10`.
pub open spec fn digit_char(d: nat) -> char {
    if d == 0 { '0' }
    else if d == 1 { '1' }
    else if d == 2 { '2' }
    else if d == 3 { '3' }
    else if d == 4 { '4' }
    else if d == 5 { '5' }
    else if d == 6 { '6' }
    else if d == 7 { '7' }
    else if d == 8 { '8' }
    else { '9' }
}

/// The decimal representation of `n`, most significant digit first.
pub open spec fn decimal(n: nat) -> Seq<char>
    decreases n,
{
    if n < 10 {
        seq![digit_char(n)]
    } else {
        decimal(n / 10).push(digit_char(n % 10))
    }
}

/// The name a function gets when it is first seen.
pub open spec fn default_name(address: usize) -> Seq<char> {
    "function_"@ + decimal(address as nat)
}

/// Relies on `usize`'s `Display`, through `to_string`: an unsigned integer is
/// written in decimal without sign or padding.
#[verifier::external_body]
fn decimal_text(n: usize) -> (r: String)
    ensures
        r@ == decimal(n as nat),
{
    n.to_string()
}

/// What is known of one function.
pub struct FunctionFacts {
    pub name: Seq<char>,
    pub call_sites: Set<usize>,
    pub can_return: bool,
}

/// Holds the analysis-wide facts.
pub struct Data {
    pub functions: FunctionTable,
}

impl Data {
    pub fn new() -> (r: Data)
        ensures
            r.functions.wf(),
            r.functions@ == Map::<usize, FunctionFacts>::empty(),
    {
        Data { functions: FunctionTable::new() }
    }
}

/// A function, identified by its entry address.
pub struct Function {
    pub address: usize,
    pub name: String,
    pub call_sites: HashSet<usize>,
    pub can_return: bool,
}

impl Function {
    pub open spec fn facts(self) -> FunctionFacts {
        FunctionFacts { name: self.name@, call_sites: self.call_sites@, can_return: self.can_return }
    }

    pub fn new(address: usize) -> (r: Function)
        ensures
            r.address == address,
            r.facts() == new_facts(address),
    {
        let mut name = String::from_str("function_");
        let digits = decimal_text(address);
        name.append(digits.as_str());
        Function { address, name, call_sites: HashSet::new(), can_return: false }
    }
}

/// The facts of a function that was just created.
pub open spec fn new_facts(address: usize) -> FunctionFacts {
    FunctionFacts { name: default_name(address), call_sites: Set::empty(), can_return: false }
}

/// All known functions, keyed by entry address. Addresses are kept in the
/// order in which they were first seen.
pub struct FunctionTable {
    functions: HashMap<usize, Function>,
    order: Vec<usize>,
}

impl View for FunctionTable {
    type V = Map<usize, FunctionFacts>;

    closed spec fn view(&self) -> Map<usize, FunctionFacts> {
        self.functions@.map_values(|f: Function| f.facts())
    }
}

impl FunctionTable {
    pub closed spec fn wf(&self) -> bool {
        &&& self.order@.no_duplicates()
        &&& forall|a: usize| #[trigger]
            self.functions@.contains_key(a) <==> self.order@.contains(a)
        &&& forall|a: usize| #[trigger]
            self.functions@.contains_key(a) ==> self.functions@[a].address == a
    }

    /// The known entry addresses in the order they were first seen.
    pub closed spec fn order(&self) -> Seq<usize> {
        self.order@
    }

    pub proof fn lemma_order(&self)
        requires
            self.wf(),
        ensures
            self.order().no_duplicates(),
            forall|a: usize| #[trigger] self@.contains_key(a) <==> self.order().contains(a),
    {
        assert forall|a: usize| #[trigger] self@.contains_key(a) <==> self.order().contains(a) by {
            assert(self.functions@.contains_key(a) <==> self.order@.contains(a));
        }
    }

    pub fn new() -> (r: FunctionTable)
        ensures
            r.wf(),
            r@ == Map::<usize, FunctionFacts>::empty(),
            r.order() == Seq::<usize>::empty(),
    {
        let r = FunctionTable { functions: HashMap::new(), order: Vec::new() };
        assert(r@ =~= Map::<usize, FunctionFacts>::empty());
        r
    }

    /// Adds a function at `address` unless one is known; tells whether it
    /// was added.
    pub fn get_or_add(&mut self, address: usize) -> (r: bool)
        requires
            old(self).wf(),
        ensures
            final(self).wf(),
            r == !old(self)@.contains_key(address),
            final(self)@ == if r {
                old(self)@.insert(address, new_facts(address))
            } else {
                old(self)@
            },
            final(self).order() == if r {
                old(self).order().push(address)
            } else {
                old(self).order()
            },
    {
        if self.functions.contains_key(&address) {
            false
        } else {
            let f = Function::new(address);
            self.functions.insert(address, f);
            self.order.push(address);
            proof {
                assert(self.order@.no_duplicates()) by {
                    assert(!old(self).order@.contains(address));
                }
                assert forall|a: usize| #[trigger]
                    self.functions@.contains_key(a) <==> self.order@.contains(a) by {
                    if a != address {
                        assert(old(self).functions@.contains_key(a) <==> old(self).order@.contains(a));
                        if self.order@.contains(a) {
                            let k = choose|k: int| 0 <= k < self.order@.len() && self.order@[k] == a;
                            assert(old(self).order@[k] == a);
                        }
                        if old(self).order@.contains(a) {
                            let k = choose|k: int|
                                0 <= k < old(self).order@.len() && old(self).order@[k] == a;
                            assert(self.order@[k] == a);
                        }
                    } else {
                        assert(self.order@[self.order@.len() - 1] == a);
                    }
                }
                assert(self@ =~= old(self)@.insert(address, new_facts(address)));
            }
            true
        }
    }

    pub fn contains(&self, address: usize) -> (r: bool)
        ensures
            r == self@.contains_key(address),
    {
        self.functions.contains_key(&address)
    }

    pub fn get(&self, address: usize) -> (r: Option<&Function>)
        requires
            self.wf(),
        ensures
            match r {
                Some(f) => self@.contains_key(address) && f.address == address && f.facts()
                    == self@[address],
                None => !self@.contains_key(address),
            },
    {
        self.functions.get(&address)
    }

    /// Whether the function at `address` is known and known to return.
    pub fn can_return(&self, address: usize) -> (r: bool)
        requires
            self.wf(),
        ensures
            r == (self@.contains_key(address) && self@[address].can_return),
    {
        match self.functions.get(&address) {
            Some(f) => f.can_return,
            None => false,
        }
    }

    /// Records `site` as a call site of the function at `address`; tells
    /// whether it was new.
    pub fn add_call_site(&mut self, address: usize, site: usize) -> (r: bool)
        requires
            old(self).wf(),
            old(self)@.contains_key(address),
        ensures
            final(self).wf(),
            final(self).order() == old(self).order(),
            r == !old(self)@[address].call_sites.contains(site),
            final(self)@ == old(self)@.insert(
                address,
                FunctionFacts {
                    call_sites: old(self)@[address].call_sites.insert(site),
                    ..old(self)@[address]
                },
            ),
    {
        let mut f = self.functions.remove(&address).unwrap();
        let r = f.call_sites.insert(site);
        self.functions.insert(address, f);
        proof {
            assert forall|a: usize| #[trigger]
                self.functions@.contains_key(a) <==> self.order@.contains(a) by {
                assert(old(self).functions@.contains_key(a) <==> old(self).order@.contains(a));
            }
            assert(self@ =~= old(self)@.insert(
                address,
                FunctionFacts {
                    call_sites: old(self)@[address].call_sites.insert(site),
                    ..old(self)@[address]
                },
            ));
        }
        r
    }

    /// Records that the function at `address` can return; tells whether
    /// that was new.
    pub fn set_can_return(&mut self, address: usize) -> (r: bool)
        requires
            old(self).wf(),
            old(self)@.contains_key(address),
        ensures
            final(self).wf(),
            final(self).order() == old(self).order(),
            r == !old(self)@[address].can_return,
            final(self)@ == old(self)@.insert(
                address,
                FunctionFacts { can_return: true, ..old(self)@[address] },
            ),
    {
        let mut f = self.functions.remove(&address).unwrap();
        let r = !f.can_return;
        f.can_return = true;
        self.functions.insert(address, f);
        proof {
            assert forall|a: usize| #[trigger]
                self.functions@.contains_key(a) <==> self.order@.contains(a) by {
                assert(old(self).functions@.contains_key(a) <==> old(self).order@.contains(a));
            }
            assert(self@ =~= old(self)@.insert(
                address,
                FunctionFacts { can_return: true, ..old(self)@[address] },
            ));
        }
        r
    }

    /// Gives the function at `address` a new display name.
    pub fn set_name(&mut self, address: usize, name: String)
        requires
            old(self).wf(),
            old(self)@.contains_key(address),
        ensures
            final(self).wf(),
            final(self).order() == old(self).order(),
            final(self)@ == old(self)@.insert(
                address,
                FunctionFacts { name: name@, ..old(self)@[address] },
            ),
    {
        let mut f = self.functions.remove(&address).unwrap();
        f.name = name;
        self.functions.insert(address, f);
        proof {
            assert forall|a: usize| #[trigger]
                self.functions@.contains_key(a) <==> self.order@.contains(a) by {
                assert(old(self).functions@.contains_key(a) <==> old(self).order@.contains(a));
            }
            assert(self@ =~= old(self)@.insert(
                address,
                FunctionFacts { name: name@, ..old(self)@[address] },
            ));
        }
    }

    /// The known entry addresses, in the order they were first seen.
    pub fn iter(&self) -> (r: Vec<usize>)
        requires
            self.wf(),
        ensures
            r@ == self.order(),
    {
        self.order.clone()
    }
}

} // verus!
