//! What holds of every listing of branches and tags.

use crate::git::branch::{
    first_failure_at, listed_branches, listed_locals, listed_remotes, listed_tags, local_listed,
    points_at, remote_listed, walk_fails_with, walk_succeeds, walked, BranchModel, BranchRef,
    BranchScan, LocalRef, TagModel, TagRef, Walk,
};
use crate::order::name_at_most;
use crate::sort::{
    goes_before, is_stable_sort, lemma_every_place_is_taken, sorts_stably, stable_sort_is_unique,
    Ranked,
};
use vstd::prelude::*;

verus! {

/// A walk that does not succeed fails with one error, and a walk that succeeds with none.
pub proof fn a_walk_has_one_outcome<R, E>(walk: Walk<R, E>, first: E, second: E)
    ensures
        walk_succeeds(walk) || exists|e: E| walk_fails_with(walk, e),
        walk_fails_with(walk, first) ==> !walk_succeeds(walk),
        walk_fails_with(walk, first) && walk_fails_with(walk, second) ==> first == second,
{
    match walk {
        Err(e) => {
            assert(walk_fails_with(walk, e));
        },
        Ok(items) => {
            if !walk_succeeds(walk) {
                let i = choose|i: int| 0 <= i < items@.len() && !((#[trigger] items@[i]) is Ok);
                let k = lemma_first_failure(items@, i);
                assert(first_failure_at(items@, k, items@[k]->Err_0));
                assert(walk_fails_with(walk, items@[k]->Err_0));
            }
        },
    }
}

proof fn lemma_first_failure<R, E>(items: Seq<Result<R, E>>, i: int) -> (k: int)
    requires
        0 <= i < items.len(),
        items[i] is Err,
    ensures
        first_failure_at(items, k, items[k]->Err_0),
    decreases i,
{
    if exists|j: int| 0 <= j < i && (#[trigger] items[j]) is Err {
        let j = choose|j: int| 0 <= j < i && (#[trigger] items[j]) is Err;
        lemma_first_failure(items, j)
    } else {
        i
    }
}

/// The HEAD branch, where it is listed, goes before every other branch, and the branches that
/// are not HEAD go by name.
pub proof fn head_goes_first<E>(
    scan: BranchScan<E>,
    include_remotes: bool,
    list: Seq<BranchModel>,
)
    requires
        is_stable_sort(listed_branches(scan, include_remotes), list),
    ensures
        forall|j: int, k: int|
            0 <= j < k < list.len() && (#[trigger] list[k]).is_head ==> (
            #[trigger] list[j]).is_head,
        forall|j: int, k: int|
            0 <= j < k < list.len() && !(#[trigger] list[j]).is_head ==> name_at_most(
                list[j].name,
                (#[trigger] list[k]).name,
            ),
{
    let origin = choose|origin: Seq<int>|
        sorts_stably(listed_branches(scan, include_remotes), list, origin);
    assert forall|j: int, k: int| 0 <= j < k < list.len() implies (#[trigger] list[j]).rank_le(
        #[trigger] list[k],
    ) by {
        assert(goes_before(list[j], origin[j], list[k], origin[k]));
    }
}

/// Where no two local branches share a name, at most one branch is HEAD, and it goes first.
pub proof fn at_most_one_head<E>(
    scan: BranchScan<E>,
    include_remotes: bool,
    list: Seq<BranchModel>,
    k: int,
)
    requires
        is_stable_sort(listed_branches(scan, include_remotes), list),
        forall|i: int, j: int|
            0 <= i < j < listed_locals(scan).len() ==> (#[trigger] listed_locals(scan)[i]).name
                != (#[trigger] listed_locals(scan)[j]).name,
        0 <= k < list.len(),
        list[k].is_head,
    ensures
        k == 0,
{
    let input = listed_branches(scan, include_remotes);
    let origin = choose|origin: Seq<int>| sorts_stably(input, list, origin);
    if k > 0 {
        head_goes_first(scan, include_remotes, list);
        assert(list[0].is_head);
        lemma_listed_locals(scan);
        lemma_listed_remotes(scan);
        let a = origin[0];
        let b = origin[k];
        assert(list[0] == input[a] && list[k] == input[b]);
        assert(a < listed_locals(scan).len() && b < listed_locals(scan).len());
        assert(listed_locals(scan)[a].name != listed_locals(scan)[b].name);
    }
}

/// A listed branch is HEAD only if it is local and HEAD points at it; a remote branch has no
/// upstream, and none is listed unless remotes are included.
pub proof fn remotes_are_never_head<E>(
    scan: BranchScan<E>,
    include_remotes: bool,
    list: Seq<BranchModel>,
    k: int,
)
    requires
        is_stable_sort(listed_branches(scan, include_remotes), list),
        0 <= k < list.len(),
    ensures
        list[k].is_head <==> !list[k].is_remote && points_at(
            scan.head,
            list[k].name,
            list[k].tip_oid,
        ),
        list[k].is_remote ==> include_remotes && list[k].upstream is None,
{
    let input = listed_branches(scan, include_remotes);
    let origin = choose|origin: Seq<int>| sorts_stably(input, list, origin);
    lemma_listed_locals(scan);
    lemma_listed_remotes(scan);
    let a = origin[k];
    assert(list[k] == input[a]);
    if a < listed_locals(scan).len() {
        assert(list[k] == listed_locals(scan)[a]);
    } else {
        assert(list[k] == listed_remotes(scan)[a - listed_locals(scan).len()]);
    }
}

/// Where a local and a remote branch share a name, the local branch goes first.
pub proof fn local_goes_before_its_namesake<E>(
    scan: BranchScan<E>,
    include_remotes: bool,
    list: Seq<BranchModel>,
    j: int,
    k: int,
)
    requires
        is_stable_sort(listed_branches(scan, include_remotes), list),
        0 <= j < list.len(),
        0 <= k < list.len(),
        list[j].name == list[k].name,
        !list[j].is_remote,
        list[k].is_remote,
    ensures
        j < k,
{
    let input = listed_branches(scan, include_remotes);
    let origin = choose|origin: Seq<int>| sorts_stably(input, list, origin);
    lemma_listed_locals(scan);
    lemma_listed_remotes(scan);
    let a = origin[j];
    let b = origin[k];
    assert(list[j] == input[a] && list[k] == input[b]);
    if a >= listed_locals(scan).len() {
        assert(list[j] == listed_remotes(scan)[a - listed_locals(scan).len()]);
    }
    if b < listed_locals(scan).len() {
        assert(list[k] == listed_locals(scan)[b]);
    } else {
        assert(list[k] == listed_remotes(scan)[b - listed_locals(scan).len()]);
    }
    if k < j {
        assert(goes_before(list[k], b, list[j], a));
        BranchModel::rank_total(list[j], list[j]);
        assert(list[j].rank_le(list[k]));
    }
}

/// Tags go by name.
pub proof fn tags_go_by_name<E>(walk: Walk<TagRef<E>, E>, list: Seq<TagModel>, j: int, k: int)
    requires
        is_stable_sort(listed_tags(walk), list),
        0 <= j <= k < list.len(),
    ensures
        name_at_most(list[j].name, list[k].name),
{
    let origin = choose|origin: Seq<int>| sorts_stably(listed_tags(walk), list, origin);
    if j < k {
        assert(goes_before(list[j], origin[j], list[k], origin[k]));
    } else {
        TagModel::rank_total(list[j], list[j]);
    }
}

/// The places below `n` where a branch is local.
spec fn local_places(list: Seq<BranchModel>, n: nat) -> Seq<int>
    decreases n,
{
    if n == 0 {
        Seq::empty()
    } else {
        let rest = local_places(list, (n - 1) as nat);
        if list[n - 1].is_remote {
            rest
        } else {
            rest.push(n - 1)
        }
    }
}

/// The local branches of a list, in its order.
pub open spec fn locals_of(list: Seq<BranchModel>) -> Seq<BranchModel> {
    list.filter(|b: BranchModel| !b.is_remote)
}

proof fn lemma_local_places(list: Seq<BranchModel>, n: nat)
    requires
        n <= list.len(),
    ensures
        locals_of(list.take(n as int)) == local_places(list, n).map_values(|k: int| list[k]),
        forall|m: int|
            #![trigger local_places(list, n)[m]]
            0 <= m < local_places(list, n).len() ==> 0 <= local_places(list, n)[m] < n
                && !list[local_places(list, n)[m]].is_remote,
        forall|m: int, l: int|
            0 <= m < l < local_places(list, n).len() ==> #[trigger] local_places(list, n)[m]
                < #[trigger] local_places(list, n)[l],
        forall|k: int|
            0 <= k < n && !list[k].is_remote ==> #[trigger] local_places(list, n).contains(k),
    decreases n,
{
    let local = |b: BranchModel| !b.is_remote;
    reveal(Seq::filter);
    if n == 0 {
        assert(locals_of(list.take(0)) =~= Seq::empty());
    } else {
        let m = (n - 1) as nat;
        lemma_local_places(list, m);
        assert(list.take(n as int).drop_last() == list.take(m as int));
        let rest = local_places(list, m);
        assert forall|k: int| 0 <= k < n && !list[k].is_remote implies #[trigger] local_places(
            list,
            n,
        ).contains(k) by {
            if k == m {
                assert(local_places(list, n)[rest.len() as int] == k);
            } else {
                assert(rest.contains(k));
                let l = choose|l: int| 0 <= l < rest.len() && rest[l] == k;
                assert(local_places(list, n)[l] == k);
            }
        }
        assert(locals_of(list.take(n as int)) =~= local_places(list, n).map_values(
            |k: int| list[k],
        ));
    }
}

/// Including remotes adds branches to the list and leaves the local ones in their order.
pub proof fn remotes_keep_the_order_of_locals<E>(
    scan: BranchScan<E>,
    without: Seq<BranchModel>,
    with: Seq<BranchModel>,
)
    requires
        is_stable_sort(listed_branches(scan, false), without),
        is_stable_sort(listed_branches(scan, true), with),
    ensures
        locals_of(with) == without,
{
    let locals = listed_locals(scan);
    let input = listed_branches(scan, true);
    let origin = choose|origin: Seq<int>| sorts_stably(input, with, origin);
    lemma_listed_locals(scan);
    lemma_listed_remotes(scan);
    lemma_local_places(with, with.len());
    assert(with.take(with.len() as int) == with);
    let places = local_places(with, with.len());
    let kept = locals_of(with);
    let kept_origin = places.map_values(|k: int| origin[k]);
    assert forall|m: int| 0 <= m < kept_origin.len() implies 0 <= #[trigger] kept_origin[m]
        < locals.len() && kept[m] == locals[kept_origin[m]] by {
        let k = places[m];
        assert(with[k] == input[origin[k]]);
        if origin[k] >= locals.len() {
            assert(with[k] == listed_remotes(scan)[origin[k] - locals.len()]);
        }
    }
    assert forall|m: int, l: int| 0 <= m < l < kept_origin.len() implies #[trigger] goes_before(
        kept[m],
        kept_origin[m],
        kept[l],
        kept_origin[l],
    ) by {
        assert(places[m] < places[l]);
        assert(goes_before(with[places[m]], origin[places[m]], with[places[l]], origin[places[l]]));
    }
    assert(kept_origin.no_duplicates()) by {
        assert forall|m: int, l: int|
            0 <= m < kept_origin.len() && 0 <= l < kept_origin.len() && m
                != l implies kept_origin[m] != kept_origin[l] by {
            assert(places[m] != places[l]);
        }
    }
    assert(kept_origin.len() == locals.len()) by {
        let n = locals.len() as int;
        let all = vstd::set_lib::set_int_range(0, n);
        vstd::set_lib::lemma_int_range(0, n);
        kept_origin.unique_seq_to_set();
        assert(kept_origin.to_set() =~= all) by {
            assert forall|place: int|
                all.contains(place) implies #[trigger] kept_origin.to_set().contains(place) by {
                let k = lemma_every_place_is_taken(origin, place);
                assert(with[k] == locals[place]);
                assert(places.contains(k));
                let m = choose|m: int| 0 <= m < places.len() && places[m] == k;
                assert(kept_origin[m] == place);
            }
        }
    }
    assert(sorts_stably(locals, kept, kept_origin));
    stable_sort_is_unique(locals, kept, without);
}

/// What a listed local branch is.
proof fn lemma_listed_locals<E>(scan: BranchScan<E>)
    ensures
        forall|i: int|
            #![trigger listed_locals(scan)[i]]
            0 <= i < listed_locals(scan).len() ==> {
                let b = listed_locals(scan)[i];
                !b.is_remote && b.is_head == points_at(scan.head, b.name, b.tip_oid)
            },
{
    let listed = |item: Result<LocalRef<E>, E>| local_listed(scan.head, item);
    assert forall|i: int|
        #![trigger listed_locals(scan)[i]]
        0 <= i < listed_locals(scan).len() implies {
        let b = listed_locals(scan)[i];
        !b.is_remote && b.is_head == points_at(scan.head, b.name, b.tip_oid)
    } by {
        walked(scan.locals).lemma_filter_map_contains(listed, listed_locals(scan)[i]);
    }
}

/// What a listed remote branch is.
proof fn lemma_listed_remotes<E>(scan: BranchScan<E>)
    ensures
        forall|i: int|
            #![trigger listed_remotes(scan)[i]]
            0 <= i < listed_remotes(scan).len() ==> {
                let b = listed_remotes(scan)[i];
                b.is_remote && !b.is_head && b.upstream is None
            },
{
    let listed = |item: Result<BranchRef, E>| remote_listed(item);
    assert forall|i: int|
        #![trigger listed_remotes(scan)[i]]
        0 <= i < listed_remotes(scan).len() implies {
        let b = listed_remotes(scan)[i];
        b.is_remote && !b.is_head && b.upstream is None
    } by {
        walked(scan.remotes).lemma_filter_map_contains(listed, listed_remotes(scan)[i]);
    }
}

} // verus!
