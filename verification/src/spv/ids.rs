//! The IDs that the parts of a module get.
use crate::ir::InternedStr;
use crate::order;
use crate::order::{ascending, numbered};
use crate::spv::needs::{Needs, NeedsIdsCollector};
use crate::spv::write::LiftError;
use crate::spv::Id;
use std::collections::BTreeMap;
use vstd::prelude::*;

verus! {

/// Something that hands out IDs, one at a time, until it fails.
pub trait IdSource: Sized {
    /// Why no ID could be handed out.
    type Error;

    /// What the next request is answered with.
    spec fn next_id(&self) -> Result<Id, Self::Error>;

    /// The state after the next request.
    spec fn advanced(&self) -> Self;

    /// Asks for an ID.
    fn alloc_id(&mut self) -> (r: Result<Id, Self::Error>)
        ensures
            r == old(self).next_id(),
            *final(self) == old(self).advanced(),
    ;
}

/// The state of a source after `n` requests.
pub open spec fn source_after<S: IdSource>(source: S, n: nat) -> S
    decreases n,
{
    if n == 0 {
        source
    } else {
        source_after(source, (n - 1) as nat).advanced()
    }
}

/// What a source answers the request with that comes after `n` others.
pub open spec fn nth_id<S: IdSource>(source: S, n: nat) -> Result<Id, S::Error> {
    source_after(source, n).next_id()
}

/// Whether a source answers `n` requests with IDs.
pub open spec fn yields<S: IdSource>(source: S, n: nat) -> bool {
    forall|k: nat| k < n ==> (#[trigger] nth_id(source, k)) is Ok
}

/// The IDs that the elements of `s` get, if the source is asked once for each of them, in
/// their order, after `skipped` other requests.
pub open spec fn assigned<S: IdSource>(s: Seq<u32>, source: S, skipped: nat) -> Map<u32, Id> {
    Map::new(
        |x: u32| s.contains(x),
        |x: u32| nth_id(source, (skipped + s.index_of(x)) as nat)->Ok_0,
    )
}

proof fn lemma_source_after_sum<S: IdSource>(source: S, a: nat, b: nat)
    ensures
        source_after(source_after(source, a), b) == source_after(source, a + b),
    decreases b,
{
    if b > 0 {
        lemma_source_after_sum(source, a, (b - 1) as nat);
    }
}

/// The IDs that have been given out.
#[verifier::ext_equal]
pub struct IdMaps {
    pub ext_inst_imports: Map<InternedStr, Id>,
    pub debug_strings: Map<InternedStr, Id>,
    pub old_outputs: Map<Id, Id>,
}

/// The IDs that everything with a need for one has got.
pub struct AllocatedIds {
    pub ext_inst_imports: BTreeMap<InternedStr, Id>,
    pub debug_strings: BTreeMap<InternedStr, Id>,
    pub old_outputs: BTreeMap<Id, Id>,
}

impl View for AllocatedIds {
    type V = IdMaps;

    open spec fn view(&self) -> IdMaps {
        IdMaps {
            ext_inst_imports: self.ext_inst_imports@,
            debug_strings: self.debug_strings@,
            old_outputs: self.old_outputs@,
        }
    }
}

/// The IDs that a source gives to what needs one: first to the imports, then to the
/// strings, then to the outputs, and to the smaller before the larger within each.
pub open spec fn allocation<S: IdSource>(needs: Needs, source: S) -> IdMaps {
    let imports = ascending(needs.ext_inst_imports);
    let strings = ascending(needs.debug_strings);
    let outputs = ascending(needs.old_outputs);
    IdMaps {
        ext_inst_imports: assigned(imports, source, 0),
        debug_strings: assigned(strings, source, imports.len()),
        old_outputs: assigned(outputs, source, imports.len() + strings.len()),
    }
}

/// Gives an ID to each of some distinct numbers.
fn assign<S: IdSource>(keys: &Vec<u32>, source: &mut S) -> (r: Result<BTreeMap<u32, Id>, S::Error>)
    requires
        keys@.no_duplicates(),
    ensures
        match r {
            Ok(map) => {
                &&& yields(*old(source), keys@.len())
                &&& map@ == assigned(keys@, *old(source), 0)
                &&& *final(source) == source_after(*old(source), keys@.len())
            },
            Err(e) => exists|k: nat|
                {
                    &&& k < keys@.len()
                    &&& yields(*old(source), k)
                    &&& #[trigger] nth_id(*old(source), k) == Err::<Id, S::Error>(e)
                    &&& *final(source) == source_after(*old(source), k + 1)
                },
        },
{
    let ghost start = *source;
    let mut map: BTreeMap<u32, Id> = BTreeMap::new();
    let mut i: usize = 0;
    assert(map@ =~= assigned(keys@.take(0), start, 0));
    while i < keys.len()
        invariant
            i <= keys@.len(),
            keys@.no_duplicates(),
            start == *old(source),
            yields(start, i as nat),
            map@ == assigned(keys@.take(i as int), start, 0),
            *source == source_after(start, i as nat),
        decreases keys@.len() - i,
    {
        let key: u32 = keys[i];
        let ghost asked = nth_id(start, i as nat);
        match source.alloc_id() {
            Ok(id) => {
                order::add_entry(&mut map, key, id);
            },
            Err(e) => {
                assert(asked == Err::<Id, S::Error>(e));
                return Err(e);
            },
        }
        proof {
            let was = keys@.take(i as int);
            let now = keys@.take(i + 1);
            assert(now =~= was.push(key));
            assert(now[i as int] == key);
            assert forall|x: u32| was.contains(x) implies #[trigger] now.contains(x)
                && now.index_of(x) == was.index_of(x) by {
                let k = was.index_of(x);
                assert(now[k] == x);
                assert(now[now.index_of(x)] == x);
                assert(keys@[now.index_of(x)] == keys@[k]);
            }
            assert(now.index_of(key) == i) by {
                assert(now.contains(key));
                assert(keys@[now.index_of(key)] == keys@[i as int]);
            }
            assert(map@ =~= assigned(now, start, 0));
        }
        i = i + 1;
    }
    assert(keys@.take(i as int) =~= keys@);
    Ok(map)
}

impl<'a> NeedsIdsCollector<'a> {
    /// Asks a source for an ID for everything that needs one, and stops when the source fails.
    pub fn alloc_ids<S: IdSource>(self, source: &mut S) -> (r: Result<AllocatedIds, S::Error>)
        ensures
            match r {
                Ok(ids) => {
                    &&& yields(*old(source), self@.count())
                    &&& ids@ == allocation(self@, *old(source))
                    &&& *final(source) == source_after(*old(source), self@.count())
                },
                Err(e) => exists|k: nat|
                    {
                        &&& k < self@.count()
                        &&& yields(*old(source), k)
                        &&& #[trigger] nth_id(*old(source), k) == Err::<Id, S::Error>(e)
                        &&& *final(source) == source_after(*old(source), k + 1)
                    },
            },
    {
        let ghost start = *source;
        let imports = order::elements(&self.ext_inst_imports);
        let strings = order::elements(&self.debug_strings);
        let outputs = order::elements(&self.old_outputs);
        proof {
            order::lemma_ascending(self.ext_inst_imports@);
            order::lemma_ascending(self.debug_strings@);
            order::lemma_ascending(self.old_outputs@);
        }
        let ghost n1 = imports@.len();
        let ghost n2 = imports@.len() + strings@.len();
        let ext_inst_imports = match assign(&imports, source) {
            Ok(map) => map,
            Err(e) => {
                return Err(e);
            },
        };
        let ghost after_imports = *source;
        proof {
            lemma_shifted(start, n1);
        }
        let debug_strings = match assign(&strings, source) {
            Ok(map) => map,
            Err(e) => {
                proof {
                    lemma_shifted_failure(start, n1, strings@.len(), e, *source);
                }
                return Err(e);
            },
        };
        let ghost after_strings = *source;
        proof {
            lemma_shifted_yields(start, n1, strings@.len());
            lemma_source_after_sum(start, n1, strings@.len());
            lemma_shifted(start, n2);
            assert(debug_strings@ =~= assigned(strings@, start, n1)) by {
                lemma_shifted_assigned(strings@, start, n1);
            }
        }
        let old_outputs = match assign(&outputs, source) {
            Ok(map) => map,
            Err(e) => {
                proof {
                    lemma_shifted_failure(start, n2, outputs@.len(), e, *source);
                }
                return Err(e);
            },
        };
        proof {
            lemma_shifted_yields(start, n2, outputs@.len());
            lemma_source_after_sum(start, n2, outputs@.len());
            assert(old_outputs@ =~= assigned(outputs@, start, n2)) by {
                lemma_shifted_assigned(outputs@, start, n2);
            }
        }
        Ok(AllocatedIds { ext_inst_imports, debug_strings, old_outputs })
    }
}

/// Requests to a source that has been asked before are later requests to it.
proof fn lemma_shifted<S: IdSource>(source: S, n: nat)
    ensures
        forall|k: nat| #[trigger] nth_id(source_after(source, n), k) == nth_id(source, n + k),
{
    assert forall|k: nat| #[trigger] nth_id(source_after(source, n), k) == nth_id(
        source,
        n + k,
    ) by {
        lemma_source_after_sum(source, n, k);
    }
}

proof fn lemma_shifted_yields<S: IdSource>(source: S, n: nat, m: nat)
    requires
        yields(source, n),
        yields(source_after(source, n), m),
    ensures
        yields(source, n + m),
{
    assert forall|k: nat| k < n + m implies (#[trigger] nth_id(source, k)) is Ok by {
        if k >= n {
            lemma_shifted(source, n);
            assert(nth_id(source_after(source, n), (k - n) as nat) is Ok);
        }
    }
}

proof fn lemma_shifted_assigned<S: IdSource>(s: Seq<u32>, source: S, n: nat)
    ensures
        assigned(s, source_after(source, n), 0) == assigned(s, source, n),
{
    lemma_shifted(source, n);
    let a = assigned(s, source_after(source, n), 0);
    let b = assigned(s, source, n);
    assert forall|x: u32| s.contains(x) implies #[trigger] a[x] == b[x] by {
        let k = s.index_of(x) as nat;
        assert(nth_id(source_after(source, n), k) == nth_id(source, n + k));
    }
    assert(a =~= b);
}

proof fn lemma_shifted_failure<S: IdSource>(source: S, n: nat, m: nat, e: S::Error, end: S)
    requires
        yields(source, n),
        exists|k: nat|
            {
                &&& k < m
                &&& yields(source_after(source, n), k)
                &&& #[trigger] nth_id(source_after(source, n), k) == Err::<Id, S::Error>(e)
                &&& end == source_after(source_after(source, n), k + 1)
            },
    ensures
        exists|k: nat|
            {
                &&& k < n + m
                &&& yields(source, k)
                &&& #[trigger] nth_id(source, k) == Err::<Id, S::Error>(e)
                &&& end == source_after(source, k + 1)
            },
{
    let k = choose|k: nat|
        {
            &&& k < m
            &&& yields(source_after(source, n), k)
            &&& #[trigger] nth_id(source_after(source, n), k) == Err::<Id, S::Error>(e)
            &&& end == source_after(source_after(source, n), k + 1)
        };
    lemma_shifted(source, n);
    lemma_shifted_yields(source, n, k);
    lemma_source_after_sum(source, n, k + 1);
    assert(nth_id(source, n + k) == Err::<Id, S::Error>(e));
}

/// Hands out consecutive IDs. The state is the next one of them, which is also the bound
/// of those that have been handed out.
#[derive(Clone, Copy, Debug, PartialEq, Eq, Structural)]
pub struct IdBound {
    pub bound: Id,
}

impl IdSource for IdBound {
    type Error = LiftError;

    open spec fn next_id(&self) -> Result<Id, LiftError> {
        if self.bound < u32::MAX {
            Ok(self.bound)
        } else {
            Err(LiftError::IdBoundTooLarge)
        }
    }

    open spec fn advanced(&self) -> Self {
        if self.bound < u32::MAX {
            IdBound { bound: (self.bound + 1) as u32 }
        } else {
            *self
        }
    }

    fn alloc_id(&mut self) -> (r: Result<Id, LiftError>) {
        let id: Id = self.bound;
        match id.checked_add(1) {
            Some(bound) => {
                self.bound = bound;
                Ok(id)
            },
            None => Err(LiftError::IdBoundTooLarge),
        }
    }
}

/// How far consecutive IDs from `first` on reach.
pub proof fn lemma_id_bound_after(first: Id, n: nat)
    ensures
        source_after(IdBound { bound: first }, n).bound == (if first + n <= u32::MAX {
            first + n
        } else {
            u32::MAX as int
        }),
    decreases n,
{
    if n > 0 {
        lemma_id_bound_after(first, (n - 1) as nat);
    }
}

/// The IDs from 1 on that the parts of a module get.
pub open spec fn ids_from_one(needs: Needs) -> IdMaps {
    let imports = ascending(needs.ext_inst_imports);
    let strings = ascending(needs.debug_strings);
    let outputs = ascending(needs.old_outputs);
    IdMaps {
        ext_inst_imports: numbered(imports, 1),
        debug_strings: numbered(strings, 1 + imports.len()),
        old_outputs: numbered(outputs, 1 + imports.len() + strings.len()),
    }
}

/// The smallest ID from 1 on that no part of a module gets.
pub open spec fn bound_from_one(needs: Needs) -> nat {
    1 + needs.count()
}

/// Consecutive IDs from 1 on run out exactly if the bound does not fit in 32 bits, and
/// otherwise number the parts of a module as [`ids_from_one`] says.
pub proof fn lemma_allocation_from_one(needs: Needs)
    requires
        needs.finite(),
    ensures
        ({
            let source = IdBound { bound: 1 };
            &&& yields(source, needs.count()) <==> bound_from_one(needs) <= u32::MAX
            &&& bound_from_one(needs) <= u32::MAX ==> allocation(needs, source) == ids_from_one(
                needs,
            ) && source_after(source, needs.count()).bound == bound_from_one(needs)
        }),
{
    let source = IdBound { bound: 1 };
    let n = needs.count();
    assert forall|k: nat| (#[trigger] nth_id(source, k)) == (if 1 + k < u32::MAX {
        Ok::<Id, LiftError>((1 + k) as u32)
    } else {
        Err::<Id, LiftError>(LiftError::IdBoundTooLarge)
    }) by {
        lemma_id_bound_after(1, k);
    }
    lemma_id_bound_after(1, n);
    if 1 + n > u32::MAX {
        assert(nth_id(source, (n - 1) as nat) is Err);
    } else {
        order::lemma_ascending(needs.ext_inst_imports);
        order::lemma_ascending(needs.debug_strings);
        order::lemma_ascending(needs.old_outputs);
        let imports = ascending(needs.ext_inst_imports);
        let strings = ascending(needs.debug_strings);
        let outputs = ascending(needs.old_outputs);
        lemma_assigned_consecutive(imports, 0);
        lemma_assigned_consecutive(strings, imports.len());
        lemma_assigned_consecutive(outputs, imports.len() + strings.len());
    }
}

proof fn lemma_assigned_consecutive(s: Seq<u32>, skipped: nat)
    requires
        1 + skipped + s.len() <= u32::MAX,
    ensures
        assigned(s, IdBound { bound: 1 }, skipped) == numbered(s, 1 + skipped),
{
    let a = assigned(s, IdBound { bound: 1 }, skipped);
    let b = numbered(s, 1 + skipped);
    assert forall|x: u32| s.contains(x) implies #[trigger] a[x] == b[x] by {
        lemma_id_bound_after(1, (skipped + s.index_of(x)) as nat);
    }
    assert(a =~= b);
}

} // verus!
