//! What holds of the IDs that the parts of a module get.
use crate::order;
use crate::order::ascending;
use crate::spv::ids::{
    allocation, bound_from_one, ids_from_one, lemma_id_bound_after, nth_id, source_after, yields,
    IdBound, IdSource,
};
use crate::spv::laws::reading::{goes_up, Numbering};
use crate::spv::needs::Needs;
use crate::spv::write::LiftError;
use crate::spv::Id;
use vstd::prelude::*;

verus! {

/// Different parts of a module get different IDs, all of them from 1 up to the bound, and
/// no ID below the bound is left out.
pub proof fn law_ids_are_dense(needs: Needs)
    requires
        needs.finite(),
        bound_from_one(needs) <= u32::MAX,
    ensures
        ({
            let ids = ids_from_one(needs);
            &&& ids.ext_inst_imports.is_injective()
            &&& ids.debug_strings.is_injective()
            &&& ids.old_outputs.is_injective()
            &&& ids.ext_inst_imports.values().disjoint(ids.debug_strings.values())
            &&& ids.ext_inst_imports.values().disjoint(ids.old_outputs.values())
            &&& ids.debug_strings.values().disjoint(ids.old_outputs.values())
            &&& forall|id: Id|
                1 <= id < bound_from_one(needs) <==> #[trigger] ids.ext_inst_imports.values().union(
                    ids.debug_strings.values(),
                ).union(ids.old_outputs.values()).contains(id)
        }),
{
    let ids = ids_from_one(needs);
    let n1 = needs.ext_inst_imports.len();
    let n2 = needs.debug_strings.len();
    let n3 = needs.old_outputs.len();
    order::lemma_ascending(needs.ext_inst_imports);
    order::lemma_ascending(needs.debug_strings);
    order::lemma_ascending(needs.old_outputs);
    lemma_numbered_values(ascending(needs.ext_inst_imports), 1);
    lemma_numbered_values(ascending(needs.debug_strings), 1 + n1);
    lemma_numbered_values(ascending(needs.old_outputs), 1 + n1 + n2);
    assert forall|id: Id|
        1 <= id < bound_from_one(needs) <==> #[trigger] ids.ext_inst_imports.values().union(
            ids.debug_strings.values(),
        ).union(ids.old_outputs.values()).contains(id) by {
        assert(ids.ext_inst_imports.values().contains(id) <==> 1 <= id < 1 + n1);
        assert(ids.debug_strings.values().contains(id) <==> 1 + n1 <= id < 1 + n1 + n2);
        assert(ids.old_outputs.values().contains(id) <==> 1 + n1 + n2 <= id < 1 + n1 + n2 + n3);
    }
}

proof fn lemma_numbered_values(s: Seq<u32>, first: nat)
    requires
        s.no_duplicates(),
        first + s.len() <= u32::MAX + 1,
    ensures
        order::numbered(s, first).is_injective(),
        forall|id: u32| #[trigger]
            order::numbered(s, first).values().contains(id) <==> first <= id < first + s.len(),
{
    let map = order::numbered(s, first);
    order::lemma_numbered(s, first);
    assert forall|x: u32, y: u32|
        x != y && map.dom().contains(x) && map.dom().contains(y) implies #[trigger] map[x]
        != #[trigger] map[y] by {
        let i = s.index_of(x);
        let j = s.index_of(y);
        assert(map[s[i]] == first + i && map[s[j]] == first + j);
    }
    assert forall|id: u32| #[trigger] map.values().contains(id) <==> first <= id < first
        + s.len() by {
        if map.values().contains(id) {
            let x = choose|x: u32| map.dom().contains(x) && map[x] == id;
            let i = s.index_of(x);
            assert(map[s[i]] == first + i);
        }
        if first <= id < first + s.len() {
            let x = s[id - first];
            assert(map[x] == id);
            assert(s.to_set().contains(x));
            assert(map.dom().contains(x));
        }
    }
}

/// IDs are given in the order of what gets them: to imports first, then to strings, then to
/// outputs, and to the smaller before the larger within each.
pub proof fn law_ids_keep_order(needs: Needs)
    requires
        needs.finite(),
        bound_from_one(needs) <= u32::MAX,
    ensures
        ({
            let ids = ids_from_one(needs);
            &&& forall|x: u32, y: u32|
                needs.ext_inst_imports.contains(x) && needs.ext_inst_imports.contains(y) && x < y
                    ==> #[trigger] ids.ext_inst_imports[x] < #[trigger] ids.ext_inst_imports[y]
            &&& forall|x: u32, y: u32|
                needs.debug_strings.contains(x) && needs.debug_strings.contains(y) && x < y
                    ==> #[trigger] ids.debug_strings[x] < #[trigger] ids.debug_strings[y]
            &&& forall|x: u32, y: u32|
                needs.old_outputs.contains(x) && needs.old_outputs.contains(y) && x < y
                    ==> #[trigger] ids.old_outputs[x] < #[trigger] ids.old_outputs[y]
            &&& forall|x: u32, y: u32|
                needs.ext_inst_imports.contains(x) && needs.debug_strings.contains(y)
                    ==> #[trigger] ids.ext_inst_imports[x] < #[trigger] ids.debug_strings[y]
            &&& forall|x: u32, y: u32|
                needs.debug_strings.contains(x) && needs.old_outputs.contains(y)
                    ==> #[trigger] ids.debug_strings[x] < #[trigger] ids.old_outputs[y]
        }),
{
    let ids = ids_from_one(needs);
    let imports = ascending(needs.ext_inst_imports);
    let strings = ascending(needs.debug_strings);
    let outputs = ascending(needs.old_outputs);
    order::lemma_ascending(needs.ext_inst_imports);
    order::lemma_ascending(needs.debug_strings);
    order::lemma_ascending(needs.old_outputs);
    order::lemma_numbered(imports, 1);
    order::lemma_numbered(strings, 1 + imports.len());
    order::lemma_numbered(outputs, 1 + imports.len() + strings.len());
    assert forall|x: u32| needs.ext_inst_imports.contains(x) implies imports.to_set().contains(
        x,
    ) && #[trigger] ids.ext_inst_imports[x] == 1 + imports.index_of(x) by {
        assert(imports.to_set().contains(x));
    }
    assert forall|x: u32| needs.debug_strings.contains(x) implies strings.to_set().contains(
        x,
    ) && #[trigger] ids.debug_strings[x] == 1 + imports.len() + strings.index_of(x) by {
        assert(strings.to_set().contains(x));
    }
    assert forall|x: u32| needs.old_outputs.contains(x) implies outputs.to_set().contains(x)
        && #[trigger] ids.old_outputs[x] == 1 + imports.len() + strings.len() + outputs.index_of(
        x,
    ) by {
        assert(outputs.to_set().contains(x));
    }
    lemma_index_of_ascending(imports);
    lemma_index_of_ascending(strings);
    lemma_index_of_ascending(outputs);
}

proof fn lemma_index_of_ascending(s: Seq<u32>)
    requires
        order::strictly_ascending(s),
    ensures
        forall|x: u32, y: u32|
            s.contains(x) && s.contains(y) && x < y ==> #[trigger] s.index_of(x)
                < #[trigger] s.index_of(y),
        forall|x: u32| s.contains(x) ==> 0 <= #[trigger] s.index_of(x) < s.len(),
{
    assert forall|x: u32, y: u32| s.contains(x) && s.contains(y) && x < y implies #[trigger] s.index_of(
        x,
    ) < #[trigger] s.index_of(y) by {
        let i = s.index_of(x);
        let j = s.index_of(y);
        assert(s[i] == x && s[j] == y);
    }
}

/// New IDs depend on the order of the old ones only: where the old ones are changed without
/// a change in their order, the new ones stay.
pub proof fn law_ids_depend_on_order(needs: Needs, other: Needs, f: spec_fn(Id) -> Id)
    requires
        needs.finite(),
        other.ext_inst_imports == needs.ext_inst_imports,
        other.debug_strings == needs.debug_strings,
        other.old_outputs == needs.old_outputs.map(f),
        forall|x: Id, y: Id|
            needs.old_outputs.contains(x) && needs.old_outputs.contains(y) && x < y
                ==> #[trigger] f(x) < #[trigger] f(y),
    ensures
        bound_from_one(other) == bound_from_one(needs),
        ids_from_one(other).ext_inst_imports == ids_from_one(needs).ext_inst_imports,
        ids_from_one(other).debug_strings == ids_from_one(needs).debug_strings,
        forall|old_id: Id| #[trigger]
            needs.old_outputs.contains(old_id) ==> ids_from_one(other).old_outputs[f(old_id)]
                == ids_from_one(needs).old_outputs[old_id],
{
    let s = ascending(needs.old_outputs);
    let t = s.map_values(f);
    order::lemma_ascending(needs.old_outputs);
    assert forall|i: int| 0 <= i < s.len() implies needs.old_outputs.contains(#[trigger] s[i]) by {
        assert(s.to_set().contains(s[i]));
    }
    assert forall|i: int, j: int| 0 <= i < j < t.len() implies t[i] < t[j] by {
        assert(s[i] < s[j]);
        assert(f(s[i]) < f(s[j]));
    }
    assert forall|y: Id| #[trigger] t.to_set().contains(y) <==> other.old_outputs.contains(y) by {
        if t.to_set().contains(y) {
            let i = choose|i: int| 0 <= i < t.len() && t[i] == y;
            assert(needs.old_outputs.contains(s[i]));
        }
        if other.old_outputs.contains(y) {
            let x = choose|x: Id| needs.old_outputs.contains(x) && y == f(x);
            assert(s.to_set().contains(x));
            let i = choose|i: int| 0 <= i < s.len() && s[i] == x;
            assert(t[i] == y);
        }
    }
    assert(t.to_set() =~= other.old_outputs);
    order::lemma_ascending_unique(t, other.old_outputs);
    order::lemma_ascending(other.old_outputs);
    assert forall|old_id: Id| #[trigger] needs.old_outputs.contains(old_id) implies ids_from_one(
        other,
    ).old_outputs[f(old_id)] == ids_from_one(needs).old_outputs[old_id] by {
        assert(s.to_set().contains(old_id));
        let i = choose|i: int| 0 <= i < s.len() && s[i] == old_id;
        assert(t[i] == f(old_id));
        assert(t.index_of(f(old_id)) == s.index_of(old_id));
        assert(t.to_set().contains(f(old_id)));
    }
}

/// Where the old IDs are already the ones that come after the imports and the strings, they
/// stay.
pub proof fn law_dense_ids_stay(needs: Needs)
    requires
        needs.finite(),
        bound_from_one(needs) <= u32::MAX,
        forall|id: Id| #[trigger]
            needs.old_outputs.contains(id) <==> 1 + needs.ext_inst_imports.len()
                + needs.debug_strings.len() <= id < bound_from_one(needs),
    ensures
        forall|id: Id| #[trigger]
            needs.old_outputs.contains(id) ==> ids_from_one(needs).old_outputs[id] == id,
{
    let first = 1 + needs.ext_inst_imports.len() + needs.debug_strings.len();
    let s = Seq::new(needs.old_outputs.len(), |i: int| (first + i) as u32);
    assert forall|id: Id| #[trigger] s.to_set().contains(id) <==> needs.old_outputs.contains(id) by {
        if s.to_set().contains(id) {
            let i = choose|i: int| 0 <= i < s.len() && s[i] == id;
        }
        if needs.old_outputs.contains(id) {
            assert(s[id - first] == id);
        }
    }
    assert(s.to_set() =~= needs.old_outputs);
    order::lemma_ascending_unique(s, needs.old_outputs);
    order::lemma_ascending(needs.ext_inst_imports);
    order::lemma_ascending(needs.debug_strings);
    order::lemma_numbered(s, first);
    assert forall|id: Id| #[trigger] needs.old_outputs.contains(id) implies ids_from_one(
        needs,
    ).old_outputs[id] == id by {
        assert(s[id - first] == id);
    }
}

/// A source is asked once for each ID: what it answers later is what it answers after its
/// next step.
pub proof fn law_requests_in_turn<S: IdSource>(source: S, n: nat)
    ensures
        source_after(source, 0) == source,
        source_after(source, n + 1) == source_after(source.advanced(), n),
        nth_id(source, 0) == source.next_id(),
        nth_id(source, n + 1) == nth_id(source.advanced(), n),
        yields(source, 0),
        yields(source, n + 1) <==> source.next_id() is Ok && yields(source.advanced(), n),
{
    lemma_step(source, n);
    assert(nth_id(source, 0) == source.next_id());
    if yields(source, n + 1) {
        assert(nth_id(source, 0) is Ok);
        assert forall|k: nat| k < n implies (#[trigger] nth_id(source.advanced(), k)) is Ok by {
            lemma_step(source, k);
            assert(nth_id(source, k + 1) is Ok);
        }
    }
    if source.next_id() is Ok && yields(source.advanced(), n) {
        assert forall|k: nat| k < n + 1 implies (#[trigger] nth_id(source, k)) is Ok by {
            if k > 0 {
                lemma_step(source, (k - 1) as nat);
                assert(nth_id(source.advanced(), (k - 1) as nat) is Ok);
            }
        }
    }
}

proof fn lemma_step<S: IdSource>(source: S, n: nat)
    ensures
        source_after(source, n + 1) == source_after(source.advanced(), n),
    decreases n,
{
    reveal_with_fuel(source_after, 2);
    if n > 0 {
        lemma_step(source, (n - 1) as nat);
    }
}

/// The answers of a source go to the imports first, then to the strings, then to the outputs,
/// and within each from the smaller to the larger, one by one.
pub proof fn law_answers_in_order<S: IdSource>(needs: Needs, source: S, n: Numbering)
    requires
        goes_up(n.imports),
        goes_up(n.strings),
        goes_up(n.outputs),
        forall|x: u32| #[trigger]
            n.imports.contains(x) <==> needs.ext_inst_imports.contains(x),
        forall|x: u32| #[trigger] n.strings.contains(x) <==> needs.debug_strings.contains(x),
        forall|x: u32| #[trigger] n.outputs.contains(x) <==> needs.old_outputs.contains(x),
    ensures
        ({
            let ids = allocation(needs, source);
            &&& needs.count() == n.imports.len() + n.strings.len() + n.outputs.len()
            &&& forall|x: u32| #[trigger]
                ids.ext_inst_imports.contains_key(x) <==> n.imports.contains(x)
            &&& forall|x: u32| #[trigger]
                ids.debug_strings.contains_key(x) <==> n.strings.contains(x)
            &&& forall|x: u32| #[trigger] ids.old_outputs.contains_key(x) <==> n.outputs.contains(x)
            &&& forall|k: int|
                0 <= k < n.imports.len() ==> ids.ext_inst_imports[#[trigger] n.imports[k]]
                    == nth_id(source, k as nat)->Ok_0
            &&& forall|k: int|
                0 <= k < n.strings.len() ==> ids.debug_strings[#[trigger] n.strings[k]] == nth_id(
                    source,
                    (n.imports.len() + k) as nat,
                )->Ok_0
            &&& forall|k: int|
                0 <= k < n.outputs.len() ==> ids.old_outputs[#[trigger] n.outputs[k]] == nth_id(
                    source,
                    (n.imports.len() + n.strings.len() + k) as nat,
                )->Ok_0
        }),
{
    assert(n.imports.to_set() =~= needs.ext_inst_imports);
    assert(n.strings.to_set() =~= needs.debug_strings);
    assert(n.outputs.to_set() =~= needs.old_outputs);
    order::lemma_ascending_unique(n.imports, needs.ext_inst_imports);
    order::lemma_ascending_unique(n.strings, needs.debug_strings);
    order::lemma_ascending_unique(n.outputs, needs.old_outputs);
    n.imports.unique_seq_to_set();
    n.strings.unique_seq_to_set();
    n.outputs.unique_seq_to_set();
    assert forall|k: int| 0 <= k < n.imports.len() implies n.imports.index_of(
        #[trigger] n.imports[k],
    ) == k by {}
    assert forall|k: int| 0 <= k < n.strings.len() implies n.strings.index_of(
        #[trigger] n.strings[k],
    ) == k by {}
    assert forall|k: int| 0 <= k < n.outputs.len() implies n.outputs.index_of(
        #[trigger] n.outputs[k],
    ) == k by {}
}

/// IDs are handed out one after another, as long as the next one still fits in a word.
pub proof fn law_ids_count_up(bound: Id, n: nat)
    ensures
        nth_id(IdBound { bound }, n) == (if bound + n < u32::MAX {
            Ok::<Id, LiftError>((bound + n) as u32)
        } else {
            Err::<Id, LiftError>(LiftError::IdBoundTooLarge)
        }),
        bound + n <= u32::MAX ==> source_after(IdBound { bound }, n).bound == bound + n,
        bound + n >= u32::MAX ==> source_after(IdBound { bound }, n).bound == u32::MAX,
{
    lemma_id_bound_after(bound, n);
}

} // verus!
