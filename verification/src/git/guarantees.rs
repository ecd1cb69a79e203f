//! What a list of branches or tags is, told by what was read of the repository.

use crate::git::branch::{
    first_failure_at, listed_branches, listed_locals, listed_remotes, listed_tags, local_listed,
    remote_listed, tag_listed, walk_fails_with, walk_succeeds, BranchInfo, BranchRef,
    BranchScan, LocalRef, Oid, TagInfo, TagRef, Walk,
};
use crate::order::{bytes_at_most, name_at_most, name_at_most_antisymmetric, name_at_most_total};
use crate::sort::{
    goes_before, is_stable_sort, lemma_every_place_is_taken, sorts_stably, views, Ranked,
};
use vstd::prelude::*;
use vstd::utf8::encode_utf8;

verus! {

/// Where the elements that a filter keeps stand in what it was given.
proof fn lemma_kept_places<A, B>(items: Seq<A>, f: spec_fn(A) -> Option<B>) -> (places: Seq<int>)
    ensures
        places.len() == items.filter_map(f).len(),
        forall|m: int|
            0 <= m < places.len() ==> 0 <= #[trigger] places[m] < items.len() && f(
                items[places[m]],
            ) == Some(items.filter_map(f)[m]),
        forall|m: int, l: int|
            0 <= m < l < places.len() ==> #[trigger] places[m] < #[trigger] places[l],
        forall|i: int|
            0 <= i < items.len() && f(#[trigger] items[i]) is Some ==> places.contains(i),
    decreases items.len(),
{
    reveal(Seq::filter_map);
    if items.len() == 0 {
        Seq::empty()
    } else {
        let rest = items.drop_last();
        let before = lemma_kept_places(rest, f);
        let last = items.len() - 1;
        let places = match f(items.last()) {
            Some(_) => before.push(last),
            None => before,
        };
        assert forall|i: int| 0 <= i < items.len() && f(#[trigger] items[i]) is Some implies
            places.contains(i) by {
            if i == last {
                assert(places[before.len() as int] == i);
            } else {
                assert(rest[i] == items[i]);
                assert(before.contains(i));
                let m = choose|m: int| 0 <= m < before.len() && before[m] == i;
                assert(places[m] == i);
            }
        }
        places
    }
}

/// Byte strings that differ, one no later than the other, differ at a first place: there the
/// earlier one ends or has the smaller byte.
proof fn lemma_first_difference(a: Seq<u8>, b: Seq<u8>) -> (m: int)
    requires
        bytes_at_most(a, b),
        a != b,
    ensures
        0 <= m <= a.len(),
        m < b.len(),
        a.take(m) == b.take(m),
        m < a.len() ==> a[m] < b[m],
    decreases a.len(),
{
    if a.len() == 0 {
        assert(b.len() > 0) by {
            if b.len() == 0 {
                assert(a =~= b);
            }
        }
        assert(a.take(0) == b.take(0));
        0
    } else if a[0] < b[0] {
        assert(a.take(0) == b.take(0));
        0
    } else {
        let x = a.drop_first();
        let y = b.drop_first();
        assert(x != y) by {
            assert(a =~= seq![a[0]] + x);
            assert(b =~= seq![b[0]] + y);
        }
        let m = lemma_first_difference(x, y);
        assert(a.take(m + 1) =~= seq![a[0]] + x.take(m));
        assert(b.take(m + 1) =~= seq![b[0]] + y.take(m));
        m + 1
    }
}

proof fn lemma_at_most_from_difference(a: Seq<u8>, b: Seq<u8>, m: int)
    requires
        0 <= m <= a.len(),
        m <= b.len(),
        a.take(m) == b.take(m),
        m < a.len() ==> m < b.len() && a[m] < b[m],
    ensures
        bytes_at_most(a, b),
    decreases a.len(),
{
    if a.len() > 0 && m > 0 {
        assert(a[0] == a.take(m)[0]);
        assert(b[0] == b.take(m)[0]);
        let x = a.drop_first();
        let y = b.drop_first();
        assert(x.take(m - 1) =~= a.take(m).drop_first());
        assert(y.take(m - 1) =~= b.take(m).drop_first());
        lemma_at_most_from_difference(x, y, m - 1);
    }
}

/// A name comes no later than another exactly where, after what their UTF-8 encodings share,
/// it ends or goes on with a smaller byte.
pub proof fn names_are_ordered_by_their_first_different_byte(a: Seq<char>, b: Seq<char>)
    ensures
        name_at_most(a, b) <==> exists|m: int|
            {
                &&& 0 <= m <= encode_utf8(a).len()
                &&& m <= encode_utf8(b).len()
                &&& #[trigger] encode_utf8(a).take(m) == encode_utf8(b).take(m)
                &&& m < encode_utf8(a).len() ==> m < encode_utf8(b).len() && encode_utf8(a)[m]
                    < encode_utf8(b)[m]
            },
{
    let x = encode_utf8(a);
    let y = encode_utf8(b);
    if name_at_most(a, b) {
        let m = if x == y {
            x.len() as int
        } else {
            lemma_first_difference(x, y)
        };
        assert(x.take(m) == y.take(m));
    }
    if exists|m: int|
        {
            &&& 0 <= m <= x.len()
            &&& m <= y.len()
            &&& #[trigger] x.take(m) == y.take(m)
            &&& m < x.len() ==> m < y.len() && x[m] < y[m]
        } {
        let m = choose|m: int|
            {
                &&& 0 <= m <= x.len()
                &&& m <= y.len()
                &&& #[trigger] x.take(m) == y.take(m)
                &&& m < x.len() ==> m < y.len() && x[m] < y[m]
            };
        lemma_at_most_from_difference(x, y, m);
    }
}

/// Two object names are equal exactly where all twenty bytes are.
pub proof fn object_names_are_equal_by_their_bytes(a: Oid, b: Oid)
    ensures
        vstd::std_specs::cmp::PartialEqSpec::eq_spec(&a, &b) <==> forall|i: int|
            0 <= i < 20 ==> #[trigger] a.bytes@[i] == b.bytes@[i],
        a@ == a.bytes@,
{
    if forall|i: int| 0 <= i < 20 ==> #[trigger] a.bytes@[i] == b.bytes@[i] {
        assert(a.bytes@ =~= b.bytes@);
    }
}

/// A walk succeeds exactly where it was started and every reference was read; it fails with
/// the error that kept it from starting, or else with the first of its failures.
pub proof fn a_walk_comes_to_its_first_failure<R, E>(walk: Walk<R, E>, error: E)
    ensures
        walk_succeeds(walk) <==> walk is Ok && forall|i: int|
            0 <= i < walk->Ok_0@.len() ==> (#[trigger] walk->Ok_0@[i]) is Ok,
        walk is Err ==> (walk_fails_with(walk, error) <==> walk->Err_0 == error),
        walk is Ok ==> (walk_fails_with(walk, error) <==> exists|i: int|
            {
                &&& 0 <= i < walk->Ok_0@.len()
                &&& #[trigger] walk->Ok_0@[i] == Err::<R, E>(error)
                &&& forall|j: int| 0 <= j < i ==> (#[trigger] walk->Ok_0@[j]) is Ok
            }),
{
    if walk is Ok {
        let items = walk->Ok_0@;
        if exists|i: int|
            {
                &&& 0 <= i < items.len()
                &&& #[trigger] items[i] == Err::<R, E>(error)
                &&& forall|j: int| 0 <= j < i ==> (#[trigger] items[j]) is Ok
            } {
            let i = choose|i: int|
                {
                    &&& 0 <= i < items.len()
                    &&& #[trigger] items[i] == Err::<R, E>(error)
                    &&& forall|j: int| 0 <= j < i ==> (#[trigger] items[j]) is Ok
                };
            assert(first_failure_at(items, i, error));
        }
        if walk_fails_with(walk, error) {
            let i = choose|i: int| #[trigger] first_failure_at(items, i, error);
            assert(items[i] == Err::<R, E>(error));
        }
    }
}

/// Two names, in order: they are the same, or the first ends or has the smaller byte where
/// their encodings first differ.
proof fn lemma_names_in_order(a: Seq<char>, b: Seq<char>)
    requires
        name_at_most(a, b),
    ensures
        a == b || exists|m: int|
            {
                &&& 0 <= m <= encode_utf8(a).len()
                &&& m < encode_utf8(b).len()
                &&& #[trigger] encode_utf8(a).take(m) == encode_utf8(b).take(m)
                &&& m < encode_utf8(a).len() ==> encode_utf8(a)[m] < encode_utf8(b)[m]
            },
{
    let x = encode_utf8(a);
    let y = encode_utf8(b);
    if x == y {
        assert(name_at_most(b, a));
        name_at_most_antisymmetric(a, b);
    } else {
        let m = lemma_first_difference(x, y);
        assert(x.take(m) == y.take(m));
    }
}

/// A list of branches is told by the references that were read. `sources[k]` is the place of
/// the reference that is listed at `k`: among the local ones, or behind them among the remote
/// ones. Every reference with a name and a target is listed once, with the name, the target and
/// the upstream that were read, and as HEAD exactly where it is local and HEAD has its name and
/// its target. HEAD goes first; the rest go by the bytes of their names, and where those are
/// the same in the order in which they were read.
pub proof fn branches_are_listed_as_they_were_read<E>(
    scan: BranchScan<E>,
    include_remotes: bool,
    branches: Seq<BranchInfo>,
) -> (sources: Seq<int>)
    requires
        scan.locals is Ok,
        include_remotes ==> scan.remotes is Ok,
        is_stable_sort(listed_branches(scan, include_remotes), views(branches)),
    ensures
        sources.len() == branches.len(),
        forall|j: int, k: int|
            0 <= j < k < sources.len() ==> #[trigger] sources[j] != #[trigger] sources[k],
        // each listed branch is a reference that was read
        forall|k: int|
            #![trigger sources[k]]
            #![trigger branches[k]]
            0 <= k < sources.len() ==> 0 <= sources[k] < scan.locals->Ok_0@.len() + (
            if include_remotes {
                scan.remotes->Ok_0@.len()
            } else {
                0
            }),
        forall|k: int|
            #![trigger sources[k]]
            #![trigger branches[k]]
            0 <= k < sources.len() && sources[k] < scan.locals->Ok_0@.len() ==> {
                let read = scan.locals->Ok_0@[sources[k]];
                let local = read->Ok_0;
                let oid = local.branch.target->Some_0;
                let head = scan.head->Ok_0;
                let listed = branches[k];
                &&& read is Ok
                &&& local.branch.name is Some
                &&& local.branch.target is Some
                &&& listed.name@ == local.branch.name->Some_0@
                &&& listed.tip_oid.bytes@ == oid.bytes@
                &&& !listed.is_remote
                &&& local.upstream is Ok && local.upstream->Ok_0 is Some ==> listed.upstream is Some
                    && listed.upstream->Some_0@ == local.upstream->Ok_0->Some_0@
                &&& local.upstream is Err || local.upstream->Ok_0 is None
                    ==> listed.upstream is None
                &&& listed.is_head <==> {
                    &&& scan.head is Ok
                    &&& head.target is Some
                    &&& head.target->Some_0.bytes@ == oid.bytes@
                    &&& head.shorthand is Some
                    &&& head.shorthand->Some_0@ == local.branch.name->Some_0@
                }
            },
        forall|k: int|
            #![trigger sources[k]]
            #![trigger branches[k]]
            0 <= k < sources.len() && sources[k] >= scan.locals->Ok_0@.len() ==> {
                let read = scan.remotes->Ok_0@[sources[k] - scan.locals->Ok_0@.len()];
                let remote = read->Ok_0;
                let listed = branches[k];
                &&& read is Ok
                &&& remote.name is Some
                &&& remote.target is Some
                &&& listed.name@ == remote.name->Some_0@
                &&& listed.tip_oid.bytes@ == remote.target->Some_0.bytes@
                &&& listed.is_remote
                &&& !listed.is_head
                &&& listed.upstream is None
            },
        // each reference with a name and a target is listed
        forall|i: int|
            #![trigger scan.locals->Ok_0@[i]]
            0 <= i < scan.locals->Ok_0@.len() && scan.locals->Ok_0@[i] is Ok
                && scan.locals->Ok_0@[i]->Ok_0.branch.name is Some
                && scan.locals->Ok_0@[i]->Ok_0.branch.target is Some ==> sources.contains(i),
        include_remotes ==> forall|i: int|
            #![trigger scan.remotes->Ok_0@[i]]
            0 <= i < scan.remotes->Ok_0@.len() && scan.remotes->Ok_0@[i] is Ok
                && scan.remotes->Ok_0@[i]->Ok_0.name is Some
                && scan.remotes->Ok_0@[i]->Ok_0.target is Some ==> sources.contains(
                scan.locals->Ok_0@.len() + i,
            ),
        // and they stand in order
        forall|j: int, k: int|
            #![trigger branches[j], branches[k]]
            0 <= j < k < branches.len() ==> {
                let a = encode_utf8(branches[j].name@);
                let b = encode_utf8(branches[k].name@);
                ||| branches[j].is_head && !branches[k].is_head
                ||| branches[j].is_head == branches[k].is_head && (exists|m: int|
                    {
                        &&& 0 <= m <= a.len()
                        &&& m < b.len()
                        &&& #[trigger] a.take(m) == b.take(m)
                        &&& m < a.len() ==> a[m] < b[m]
                    })
                ||| branches[j].is_head == branches[k].is_head && branches[j].name@
                    == branches[k].name@ && sources[j] < sources[k]
            },
{
    let list = views(branches);
    let input = listed_branches(scan, include_remotes);
    let origin = choose|origin: Seq<int>| sorts_stably(input, list, origin);
    let by_local = |item: Result<LocalRef<E>, E>| local_listed(scan.head, item);
    let by_remote = |item: Result<BranchRef, E>| remote_listed(item);
    let locals = scan.locals->Ok_0@;
    let remotes = if include_remotes {
        scan.remotes->Ok_0@
    } else {
        Seq::empty()
    };
    let from_locals = lemma_kept_places(locals, by_local);
    let from_remotes = lemma_kept_places(remotes, by_remote);
    let n = listed_locals(scan).len();
    assert(listed_locals(scan) == locals.filter_map(by_local));
    assert(n == from_locals.len());
    if include_remotes {
        assert(listed_remotes(scan) == remotes.filter_map(by_remote));
    } else {
        reveal(Seq::filter_map);
        assert(from_remotes.len() == 0);
    }
    assert(input.len() == n + from_remotes.len());
    let places = from_locals + from_remotes.map_values(|i: int| locals.len() + i);
    assert(places.len() == input.len());
    assert forall|m: int, l: int| 0 <= m < l < places.len() implies #[trigger] places[m]
        < #[trigger] places[l] by {
        if l < n {
            assert(from_locals[m] < from_locals[l]);
        } else if m >= n {
            assert(from_remotes[m - n] < from_remotes[l - n]);
        } else {
            assert(0 <= from_locals[m] < locals.len());
            assert(0 <= from_remotes[l - n]);
        }
    }
    let sources = origin.map_values(|m: int| places[m]);
    assert forall|j: int, k: int| 0 <= j < k < sources.len() implies #[trigger] sources[j]
        != #[trigger] sources[k] by {
        assert(origin[j] != origin[k]);
        if origin[j] < origin[k] {
            assert(places[origin[j]] < places[origin[k]]);
        } else {
            assert(places[origin[k]] < places[origin[j]]);
        }
    }
    assert forall|k: int|
        #![trigger sources[k]]
        #![trigger branches[k]]
        0 <= k < sources.len() implies (if origin[k] < n {
        &&& 0 <= sources[k] < locals.len()
        &&& local_listed(scan.head, locals[sources[k]]) == Some(branches[k]@)
    } else {
        &&& 0 <= sources[k] - locals.len() < remotes.len()
        &&& remote_listed(remotes[sources[k] - locals.len()]) == Some(branches[k]@)
    }) by {
        let m = origin[k];
        assert(0 <= m < input.len());
        assert(list[k] == branches[k]@);
        assert(list[k] == input[m]);
        if m < n {
            assert(places[m] == from_locals[m]);
            assert(by_local(locals[from_locals[m]]) == Some(listed_locals(scan)[m]));
        } else {
            assert(places[m] == locals.len() + from_remotes[m - n]);
            assert(by_remote(remotes[from_remotes[m - n]]) == Some(listed_remotes(scan)[m - n]));
        }
    }
    assert forall|i: int|
        #![trigger locals[i]]
        0 <= i < locals.len() && locals[i] is Ok && locals[i]->Ok_0.branch.name is Some
            && locals[i]->Ok_0.branch.target is Some implies sources.contains(i) by {
        assert(by_local(locals[i]) is Some);
        assert(from_locals.contains(i));
        let m = choose|m: int| 0 <= m < from_locals.len() && from_locals[m] == i;
        let k = lemma_every_place_is_taken(origin, m);
        assert(sources[k] == places[m]);
        assert(places[m] == i);
    }
    if include_remotes {
        assert forall|i: int|
            #![trigger remotes[i]]
            0 <= i < remotes.len() && remotes[i] is Ok && remotes[i]->Ok_0.name is Some
                && remotes[i]->Ok_0.target is Some implies sources.contains(locals.len() + i) by {
            assert(by_remote(remotes[i]) is Some);
            assert(from_remotes.contains(i));
            let m = choose|m: int| 0 <= m < from_remotes.len() && from_remotes[m] == i;
            let k = lemma_every_place_is_taken(origin, n + m);
            assert(sources[k] == places[n + m]);
            assert(places[n + m] == locals.len() + i);
        }
    }
    assert forall|j: int, k: int|
        #![trigger branches[j], branches[k]]
        0 <= j < k < branches.len() implies {
        let a = encode_utf8(branches[j].name@);
        let b = encode_utf8(branches[k].name@);
        ||| branches[j].is_head && !branches[k].is_head
        ||| branches[j].is_head == branches[k].is_head && (exists|m: int|
            {
                &&& 0 <= m <= a.len()
                &&& m < b.len()
                &&& #[trigger] a.take(m) == b.take(m)
                &&& m < a.len() ==> a[m] < b[m]
            })
        ||| branches[j].is_head == branches[k].is_head && branches[j].name@ == branches[k].name@
            && sources[j] < sources[k]
    } by {
        assert(list[j] == branches[j]@ && list[k] == branches[k]@);
        assert(goes_before(list[j], origin[j], list[k], origin[k]));
        assert(list[j].rank_le(list[k]));
        if list[j].is_head == list[k].is_head {
            lemma_names_in_order(list[j].name, list[k].name);
            if list[j].name == list[k].name {
                name_at_most_total(list[j].name, list[j].name);
                assert(list[k].rank_le(list[j]));
                assert(places[origin[j]] < places[origin[k]]);
            }
        }
    }
    sources
}

/// A list of tags is told by the references that were read. `sources[k]` is the place of the
/// reference that is listed at `k`. Every tag with a name and a commit is listed once, with the
/// name and the commit that were read, by the bytes of the names, and where those are the same
/// in the order in which they were read.
pub proof fn tags_are_listed_as_they_were_read<E>(walk: Walk<TagRef<E>, E>, tags: Seq<TagInfo>) -> (
sources: Seq<int>)
    requires
        walk is Ok,
        is_stable_sort(listed_tags(walk), views(tags)),
    ensures
        sources.len() == tags.len(),
        forall|j: int, k: int|
            0 <= j < k < sources.len() ==> #[trigger] sources[j] != #[trigger] sources[k],
        forall|k: int|
            #![trigger sources[k]]
            #![trigger tags[k]]
            0 <= k < sources.len() ==> {
                let read = walk->Ok_0@[sources[k]];
                let tag = read->Ok_0;
                &&& 0 <= sources[k] < walk->Ok_0@.len()
                &&& read is Ok
                &&& tag.name is Some
                &&& tag.commit is Ok
                &&& tags[k].name@ == tag.name->Some_0@
                &&& tags[k].tip_oid.bytes@ == tag.commit->Ok_0.bytes@
            },
        forall|i: int|
            #![trigger walk->Ok_0@[i]]
            0 <= i < walk->Ok_0@.len() && walk->Ok_0@[i] is Ok && walk->Ok_0@[i]->Ok_0.name is Some
                && walk->Ok_0@[i]->Ok_0.commit is Ok ==> sources.contains(i),
        forall|j: int, k: int|
            #![trigger tags[j], tags[k]]
            0 <= j < k < tags.len() ==> {
                let a = encode_utf8(tags[j].name@);
                let b = encode_utf8(tags[k].name@);
                ||| exists|m: int|
                    {
                        &&& 0 <= m <= a.len()
                        &&& m < b.len()
                        &&& #[trigger] a.take(m) == b.take(m)
                        &&& m < a.len() ==> a[m] < b[m]
                    }
                ||| tags[j].name@ == tags[k].name@ && sources[j] < sources[k]
            },
{
    let list = views(tags);
    let input = listed_tags(walk);
    let origin = choose|origin: Seq<int>| sorts_stably(input, list, origin);
    let by_tag = |item: Result<TagRef<E>, E>| tag_listed(item);
    let items = walk->Ok_0@;
    let places = lemma_kept_places(items, by_tag);
    assert(input == items.filter_map(by_tag));
    let sources = origin.map_values(|m: int| places[m]);
    assert forall|j: int, k: int| 0 <= j < k < sources.len() implies #[trigger] sources[j]
        != #[trigger] sources[k] by {
        assert(origin[j] != origin[k]);
        if origin[j] < origin[k] {
            assert(places[origin[j]] < places[origin[k]]);
        } else {
            assert(places[origin[k]] < places[origin[j]]);
        }
    }
    assert forall|k: int|
        #![trigger sources[k]]
        #![trigger tags[k]]
        0 <= k < sources.len() implies 0 <= sources[k] < items.len() && tag_listed(
        items[sources[k]],
    ) == Some(tags[k]@) by {
        let m = origin[k];
        assert(0 <= m < input.len());
        assert(list[k] == tags[k]@);
        assert(list[k] == input[m]);
        assert(by_tag(items[places[m]]) == Some(input[m]));
    }
    assert forall|i: int|
        #![trigger items[i]]
        0 <= i < items.len() && items[i] is Ok && items[i]->Ok_0.name is Some
            && items[i]->Ok_0.commit is Ok implies sources.contains(i) by {
        assert(by_tag(items[i]) is Some);
        assert(places.contains(i));
        let m = choose|m: int| 0 <= m < places.len() && places[m] == i;
        let k = lemma_every_place_is_taken(origin, m);
        assert(sources[k] == i);
    }
    assert forall|j: int, k: int|
        #![trigger tags[j], tags[k]]
        0 <= j < k < tags.len() implies {
        let a = encode_utf8(tags[j].name@);
        let b = encode_utf8(tags[k].name@);
        ||| exists|m: int|
            {
                &&& 0 <= m <= a.len()
                &&& m < b.len()
                &&& #[trigger] a.take(m) == b.take(m)
                &&& m < a.len() ==> a[m] < b[m]
            }
        ||| tags[j].name@ == tags[k].name@ && sources[j] < sources[k]
    } by {
        assert(list[j] == tags[j]@ && list[k] == tags[k]@);
        assert(goes_before(list[j], origin[j], list[k], origin[k]));
        lemma_names_in_order(list[j].name, list[k].name);
        if list[j].name == list[k].name {
            name_at_most_total(list[j].name, list[j].name);
            assert(list[k].rank_le(list[j]));
            assert(places[origin[j]] < places[origin[k]]);
        }
    }
    sources
}

} // verus!
