//! What requests come to, whatever the nodes answer. The answers are given as a function from
//! the number of a node and of a try to what came of that try.
use vstd::prelude::*;
use super::coordinator::{
    at_start, delete_step, get_step, set_step, DeleteView, GetView, Reply, SetView,
};
use crate::messages::{DeleteResponse, GetResponse, SetResponse};
use crate::node::NodeView;

verus! {

/// A write that is carried on until no node is left to try.
pub open spec fn set_followed(run: SetView, says: spec_fn(nat, nat) -> Reply<SetResponse>) -> SetView
    decreases run.place.nodes.len() - run.place.node, run.place.max_retries - run.place.attempt,
{
    if run.place.pending() {
        set_followed(set_step(run, says(run.place.node, run.place.attempt)), says)
    } else {
        run
    }
}

/// The first answer of a node, from a try on, says that it took the write.
pub open spec fn takes(says: spec_fn(nat, nat) -> Reply<SetResponse>, node: nat, attempt: nat, max: nat) -> bool
    decreases max - attempt,
{
    if attempt >= max {
        false
    } else {
        match says(node, attempt) {
            Reply::Answered(response) => response.success,
            _ => takes(says, node, attempt + 1, max),
        }
    }
}

proof fn lemma_set_followed(run: SetView, says: spec_fn(nat, nat) -> Reply<SetResponse>)
    requires
        run.place.node == 0 ==> !run.primary_ok,
        run.place.node <= run.place.nodes.len(),
        run.place.attempt <= run.place.max_retries,
    ensures
        ({
            let end = set_followed(run, says);
            &&& !end.place.pending()
            &&& end.place.node == run.place.nodes.len()
            &&& end.place.nodes == run.place.nodes
            &&& end.primary_ok == (if run.place.node == 0 && run.place.nodes.len() > 0 {
                takes(says, 0, run.place.attempt, run.place.max_retries + 1)
            } else {
                run.primary_ok
            })
        }),
    decreases run.place.nodes.len() - run.place.node, run.place.max_retries - run.place.attempt,
{
    if run.place.pending() {
        let next = set_step(run, says(run.place.node, run.place.attempt));
        reveal_with_fuel(takes, 2);
        lemma_set_after_primary(next, says);
        if next.place.node == 0 {
            lemma_set_followed(next, says);
        }
    }
}

proof fn lemma_set_after_primary(run: SetView, says: spec_fn(nat, nat) -> Reply<SetResponse>)
    requires
        run.place.node <= run.place.nodes.len(),
        run.place.attempt <= run.place.max_retries,
    ensures
        run.place.node > 0 ==> {
            let end = set_followed(run, says);
            &&& !end.place.pending()
            &&& end.place.node == run.place.nodes.len()
            &&& end.place.nodes == run.place.nodes
            &&& end.primary_ok == run.primary_ok
        },
    decreases run.place.nodes.len() - run.place.node, run.place.max_retries - run.place.attempt,
{
    if run.place.pending() && run.place.node > 0 {
        lemma_set_after_primary(set_step(run, says(run.place.node, run.place.attempt)), says);
    }
}

/// A write goes to every replica and succeeds exactly if the primary took it: if the first
/// answer that the first node gives, in its first try or one of its retries, is a success.
pub proof fn lemma_set_outcome(nodes: Seq<NodeView>, max_retries: nat, says: spec_fn(nat, nat) -> Reply<SetResponse>)
    requires
        nodes.len() > 0,
    ensures
        ({
            let end = set_followed(SetView { place: at_start(nodes, max_retries), primary_ok: false }, says);
            &&& !end.place.pending()
            &&& end.primary_ok == takes(says, 0, 0, max_retries + 1)
            &&& end.place.node == nodes.len()
        }),
{
    lemma_set_followed(SetView { place: at_start(nodes, max_retries), primary_ok: false }, says);
}

/// A read that is carried on until it has found something or no node is left to try.
pub open spec fn get_followed(run: GetView, says: spec_fn(nat, nat) -> Reply<GetResponse>) -> GetView
    decreases
            (if run.found is None {
                1int
            } else {
                0
            }),
            run.place.nodes.len() - run.place.node,
            run.place.max_retries - run.place.attempt,
{
    if run.pending() {
        get_followed(get_step(run, says(run.place.node, run.place.attempt)), says)
    } else {
        run
    }
}

/// What the first answer of a node, from a try on, found.
pub open spec fn found_on(
    says: spec_fn(nat, nat) -> Reply<GetResponse>,
    node: nat,
    attempt: nat,
    max: nat,
) -> Option<GetResponse>
    decreases max - attempt,
{
    if attempt >= max {
        None
    } else {
        match says(node, attempt) {
            Reply::Answered(response) => if response.found {
                Some(response)
            } else {
                None
            },
            _ => found_on(says, node, attempt + 1, max),
        }
    }
}

/// What the nodes from one on found: the first of them that found anything decides.
pub open spec fn first_found(
    says: spec_fn(nat, nat) -> Reply<GetResponse>,
    node: nat,
    count: nat,
    max: nat,
) -> Option<GetResponse>
    decreases count - node,
{
    if node >= count {
        None
    } else {
        match found_on(says, node, 0, max) {
            Some(response) => Some(response),
            None => first_found(says, node + 1, count, max),
        }
    }
}

proof fn lemma_get_followed(run: GetView, says: spec_fn(nat, nat) -> Reply<GetResponse>)
    requires
        run.found is None,
        run.place.node <= run.place.nodes.len(),
        run.place.attempt <= run.place.max_retries,
    ensures
        ({
            let end = get_followed(run, says);
            let count = run.place.nodes.len();
            let max = run.place.max_retries + 1;
            &&& !end.pending()
            &&& end.found == (if run.place.node >= count {
                None
            } else {
                match found_on(says, run.place.node, run.place.attempt, max) {
                    Some(response) => Some(response),
                    None => first_found(says, run.place.node + 1, count, max),
                }
            })
        }),
    decreases run.place.nodes.len() - run.place.node, run.place.max_retries - run.place.attempt,
{
    if run.pending() {
        let next = get_step(run, says(run.place.node, run.place.attempt));
        reveal_with_fuel(found_on, 2);
        if next.found is None {
            lemma_get_followed(next, says);
        }
    }
}

/// A read gives what the first replica found that has the key; replicas without it, or that
/// fail on their first try and every retry, are passed over.
pub proof fn lemma_get_outcome(nodes: Seq<NodeView>, max_retries: nat, says: spec_fn(nat, nat) -> Reply<GetResponse>)
    ensures
        ({
            let end = get_followed(GetView { place: at_start(nodes, max_retries), found: None }, says);
            &&& !end.pending()
            &&& end.found == first_found(says, 0, nodes.len(), max_retries + 1)
        }),
{
    lemma_get_followed(GetView { place: at_start(nodes, max_retries), found: None }, says);
}

/// A deletion that is carried on until no node is left to try.
pub open spec fn delete_followed(run: DeleteView, says: spec_fn(nat, nat) -> Reply<DeleteResponse>) -> DeleteView
    decreases run.place.nodes.len() - run.place.node, run.place.max_retries - run.place.attempt,
{
    if run.place.pending() {
        delete_followed(delete_step(run, says(run.place.node, run.place.attempt)), says)
    } else {
        run
    }
}

/// The first answer of a node, from a try on, says that it had the key. A node that cannot be
/// reached is not tried again.
pub open spec fn deletes(says: spec_fn(nat, nat) -> Reply<DeleteResponse>, node: nat, attempt: nat, max: nat) -> bool
    decreases max - attempt,
{
    if attempt >= max {
        false
    } else {
        match says(node, attempt) {
            Reply::Answered(response) => response.deleted,
            Reply::ConnectFailed => false,
            Reply::CallFailed => deletes(says, node, attempt + 1, max),
        }
    }
}

proof fn lemma_delete_followed(run: DeleteView, says: spec_fn(nat, nat) -> Reply<DeleteResponse>)
    requires
        run.place.node <= run.place.nodes.len(),
        run.place.attempt <= run.place.max_retries,
    ensures
        ({
            let end = delete_followed(run, says);
            let count = run.place.nodes.len();
            let max = run.place.max_retries + 1;
            &&& !end.place.pending()
            &&& end.place.node == count
            &&& end.any_deleted <==> (run.any_deleted || (run.place.node < count && deletes(
                says,
                run.place.node,
                run.place.attempt,
                max,
            )) || exists|node: nat| run.place.node < node < count && #[trigger] deletes(says, node, 0, max))
        }),
    decreases run.place.nodes.len() - run.place.node, run.place.max_retries - run.place.attempt,
{
    if run.place.pending() {
        let next = delete_step(run, says(run.place.node, run.place.attempt));
        reveal_with_fuel(deletes, 2);
        lemma_delete_followed(next, says);
        let count = run.place.nodes.len();
        let max = run.place.max_retries + 1;
        if next.place.node > run.place.node {
            assert(next.place.node == run.place.node + 1 && next.place.attempt == 0);
            if exists|node: nat| run.place.node < node < count && #[trigger] deletes(says, node, 0, max) {
                let node = choose|node: nat| run.place.node < node < count && #[trigger] deletes(says, node, 0, max);
                assert(node == next.place.node || next.place.node < node);
            }
        }
    }
}

/// A deletion goes to every replica, and reports whether any of them had the key.
pub proof fn lemma_delete_outcome(nodes: Seq<NodeView>, max_retries: nat, says: spec_fn(nat, nat) -> Reply<DeleteResponse>)
    ensures
        ({
            let end = delete_followed(DeleteView { place: at_start(nodes, max_retries), any_deleted: false }, says);
            &&& !end.place.pending()
            &&& end.place.node == nodes.len()
            &&& end.any_deleted <==> exists|node: nat|
                node < nodes.len() && #[trigger] deletes(says, node, 0, max_retries + 1)
        }),
{
    let start = DeleteView { place: at_start(nodes, max_retries), any_deleted: false };
    let tries = max_retries + 1;
    let end = delete_followed(start, says);
    lemma_delete_followed(start, says);
    if exists|node: nat| node < nodes.len() && #[trigger] deletes(says, node, 0, tries) {
        let node = choose|node: nat| node < nodes.len() && #[trigger] deletes(says, node, 0, tries);
        assert(node == 0 || 0 < node < nodes.len());
    }
    if end.any_deleted && nodes.len() > 0 && deletes(says, 0, 0, tries) {
        assert(0nat < nodes.len() && deletes(says, 0, 0, tries));
    }
}

proof fn lemma_takes(says: spec_fn(nat, nat) -> Reply<SetResponse>, node: nat, attempt: nat, max: nat, j: nat)
    ensures
        attempt <= j < max && says(node, j) is Answered && (forall|k: nat|
            attempt <= k < j ==> !(#[trigger] says(node, k) is Answered)) ==> takes(says, node, attempt, max) == says(
            node,
            j,
        )->Answered_0.success,
        (forall|k: nat| attempt <= k < max ==> !(#[trigger] says(node, k) is Answered)) ==> !takes(
            says,
            node,
            attempt,
            max,
        ),
    decreases max - attempt,
{
    if attempt < max {
        assert(says(node, attempt) is Answered || !(says(node, attempt) is Answered));
        lemma_takes(says, node, attempt + 1, max, j);
    }
}

/// A write is decided by the first answer of the primary, in its first try or a retry; if it gives
/// none, the write fails.
pub proof fn lemma_set_by_first_answer(
    nodes: Seq<NodeView>,
    max_retries: nat,
    says: spec_fn(nat, nat) -> Reply<SetResponse>,
    j: nat,
)
    requires
        nodes.len() > 0,
    ensures
        ({
            let end = set_followed(SetView { place: at_start(nodes, max_retries), primary_ok: false }, says);
            &&& j <= max_retries && says(0, j) is Answered && (forall|k: nat|
                k < j ==> !(#[trigger] says(0, k) is Answered)) ==> end.primary_ok == says(0, j)->Answered_0.success
            &&& (forall|k: nat| k <= max_retries ==> !(#[trigger] says(0, k) is Answered)) ==> !end.primary_ok
        }),
{
    lemma_set_outcome(nodes, max_retries, says);
    lemma_takes(says, 0, 0, max_retries + 1, j);
}

/// What a node finds is decided by its first answer; if it gives none, it finds nothing.
pub proof fn lemma_found_by_first_answer(
    says: spec_fn(nat, nat) -> Reply<GetResponse>,
    node: nat,
    attempt: nat,
    max: nat,
    j: nat,
)
    ensures
        attempt <= j < max && says(node, j) is Answered && (forall|k: nat|
            attempt <= k < j ==> !(#[trigger] says(node, k) is Answered)) ==> found_on(says, node, attempt, max) == (if says(
            node,
            j,
        )->Answered_0.found {
            Some(says(node, j)->Answered_0)
        } else {
            None
        }),
        (forall|k: nat| attempt <= k < max ==> !(#[trigger] says(node, k) is Answered)) ==> found_on(
            says,
            node,
            attempt,
            max,
        ) is None,
    decreases max - attempt,
{
    if attempt < max {
        assert(says(node, attempt) is Answered || !(says(node, attempt) is Answered));
        lemma_found_by_first_answer(says, node, attempt + 1, max, j);
    }
}

/// A read gives what the first node finds that finds anything, and nothing only if none does.
pub proof fn lemma_get_by_first_found(
    nodes: Seq<NodeView>,
    max_retries: nat,
    says: spec_fn(nat, nat) -> Reply<GetResponse>,
    i: nat,
)
    ensures
        ({
            let end = get_followed(GetView { place: at_start(nodes, max_retries), found: None }, says);
            let tries = max_retries + 1;
            &&& i < nodes.len() && found_on(says, i, 0, tries) is Some && (forall|n: nat|
                n < i ==> #[trigger] found_on(says, n, 0, tries) is None) ==> end.found == found_on(says, i, 0, tries)
            &&& (forall|n: nat| n < nodes.len() ==> #[trigger] found_on(says, n, 0, tries) is None) ==> end.found is None
        }),
{
    lemma_get_outcome(nodes, max_retries, says);
    lemma_first_found(says, 0, nodes.len(), max_retries + 1, i);
}

proof fn lemma_first_found(says: spec_fn(nat, nat) -> Reply<GetResponse>, node: nat, count: nat, max: nat, i: nat)
    ensures
        node <= i < count && found_on(says, i, 0, max) is Some && (forall|n: nat|
            node <= n < i ==> #[trigger] found_on(says, n, 0, max) is None) ==> first_found(says, node, count, max)
            == found_on(says, i, 0, max),
        (forall|n: nat| node <= n < count ==> #[trigger] found_on(says, n, 0, max) is None) ==> first_found(
            says,
            node,
            count,
            max,
        ) is None,
    decreases count - node,
{
    if node < count {
        lemma_first_found(says, node + 1, count, max, i);
    }
}

/// Whether a node had the key is decided by its first answer, unless it could not be reached before
/// that; if it gives none, it is taken not to have had it.
pub proof fn lemma_deleted_by_first_answer(
    says: spec_fn(nat, nat) -> Reply<DeleteResponse>,
    node: nat,
    attempt: nat,
    max: nat,
    j: nat,
)
    ensures
        attempt <= j < max && says(node, j) is Answered && (forall|k: nat|
            attempt <= k < j ==> #[trigger] says(node, k) is CallFailed) ==> deletes(says, node, attempt, max) == says(
            node,
            j,
        )->Answered_0.deleted,
        attempt <= j < max && says(node, j) is ConnectFailed && (forall|k: nat|
            attempt <= k < j ==> #[trigger] says(node, k) is CallFailed) ==> !deletes(says, node, attempt, max),
        (forall|k: nat| attempt <= k < max ==> #[trigger] says(node, k) is CallFailed) ==> !deletes(
            says,
            node,
            attempt,
            max,
        ),
    decreases max - attempt,
{
    if attempt < max {
        assert(says(node, attempt) is CallFailed || !(says(node, attempt) is CallFailed));
        lemma_deleted_by_first_answer(says, node, attempt + 1, max, j);
    }
}

} // verus!
