//! Branch info structure and operations

use crate::git::guarantees::{
    branches_are_listed_as_they_were_read, tags_are_listed_as_they_were_read,
};
use crate::order::{name_at_most, name_at_most_total, name_at_most_transitive, name_le};
use crate::sort::{is_stable_sort, stable_sort, views, Ranked, Sortable};
use vstd::prelude::*;

verus! {

/// The name of a git object: its hash.
#[derive(Debug, Clone, Copy)]
pub struct Oid {
    pub bytes: [u8; 20],
}

impl View for Oid {
    type V = Seq<u8>;

    open spec fn view(&self) -> Seq<u8> {
        self.bytes@
    }
}

impl PartialEq for Oid {
    fn eq(&self, other: &Self) -> (r: bool) {
        let mut i: usize = 0;
        while i < 20
            invariant
                i <= 20,
                self@.take(i as int) == other@.take(i as int),
            decreases 20 - i,
        {
            if self.bytes[i] != other.bytes[i] {
                assert(self@[i as int] != other@[i as int]);
                return false;
            }
            assert(self@.take(i + 1) == self@.take(i as int).push(self@[i as int]));
            assert(other@.take(i + 1) == other@.take(i as int).push(other@[i as int]));
            i = i + 1;
        }
        assert(self@.take(20) == self@);
        assert(other@.take(20) == other@);
        true
    }
}

impl vstd::std_specs::cmp::PartialEqSpecImpl for Oid {
    open spec fn obeys_eq_spec() -> bool {
        true
    }

    open spec fn eq_spec(&self, other: &Self) -> bool {
        self@ == other@
    }
}

impl Eq for Oid {}

/// What a walk over references came to: the references in the order of the walk, each read or
/// failed, or a failure to start it.
pub type Walk<R, E> = Result<Vec<Result<R, E>>, E>;

/// Where HEAD points.
#[derive(Debug)]
pub struct HeadRef {
    /// The object that it points at; none if it is symbolic.
    pub target: Option<Oid>,
    /// Its short name, if that is valid UTF-8.
    pub shorthand: Option<String>,
}

/// A branch as it was read.
#[derive(Debug)]
pub struct BranchRef {
    /// The name of the branch, if it is valid UTF-8.
    pub name: Option<String>,
    /// The object that it points at; none if it is symbolic.
    pub target: Option<Oid>,
}

/// A local branch as it was read.
#[derive(Debug)]
pub struct LocalRef<E> {
    pub branch: BranchRef,
    /// The name of the branch that it tracks, if that is valid UTF-8, or why none was found.
    pub upstream: Result<Option<String>, E>,
}

/// The branches of a repository and its HEAD, as they were read.
#[derive(Debug)]
pub struct BranchScan<E> {
    pub head: Result<HeadRef, E>,
    pub locals: Walk<LocalRef<E>, E>,
    /// Read only where remote branches are listed.
    pub remotes: Walk<BranchRef, E>,
}

/// A tag as it was read.
#[derive(Debug)]
pub struct TagRef<E> {
    /// The short name of the tag, if it is valid UTF-8.
    pub name: Option<String>,
    /// The commit that the tag peels to, or why it does not peel to one.
    pub commit: Result<Oid, E>,
}

/// Whether every reference of the walk was read.
pub open spec fn walk_succeeds<R, E>(walk: Walk<R, E>) -> bool {
    walk matches Ok(items) && forall|i: int| 0 <= i < items@.len() ==> (#[trigger] items@[i]) is Ok
}

/// Whether `error` is the first failure of the walk.
pub open spec fn walk_fails_with<R, E>(walk: Walk<R, E>, error: E) -> bool {
    match walk {
        Err(e) => e == error,
        Ok(items) => exists|i: int| #[trigger] first_failure_at(items@, i, error),
    }
}

/// Whether `error` stands at `i` and no failure before it.
pub open spec fn first_failure_at<R, E>(items: Seq<Result<R, E>>, i: int, error: E) -> bool {
    &&& 0 <= i < items.len()
    &&& items[i] == Err::<R, E>(error)
    &&& forall|j: int| 0 <= j < i ==> (#[trigger] items[j]) is Ok
}

/// The references of a walk.
pub open spec fn walked<R, E>(walk: Walk<R, E>) -> Seq<Result<R, E>> {
    match walk {
        Ok(items) => items@,
        Err(_) => Seq::empty(),
    }
}

/// The text of an optional string.
pub open spec fn text(s: Option<String>) -> Option<Seq<char>> {
    match s {
        Some(s) => Some(s@),
        None => None,
    }
}

/// The bytes of an optional object name.
pub open spec fn oid_bytes(oid: Option<Oid>) -> Option<Seq<u8>> {
    match oid {
        Some(oid) => Some(oid@),
        None => None,
    }
}

#[derive(Debug, Clone)]
pub struct BranchInfo {
    pub name: String,
    pub is_head: bool,
    pub is_remote: bool,
    pub upstream: Option<String>,
    pub tip_oid: Oid,
}

/// The model of a `BranchInfo`.
pub struct BranchModel {
    pub name: Seq<char>,
    pub is_head: bool,
    pub is_remote: bool,
    pub upstream: Option<Seq<char>>,
    pub tip_oid: Seq<u8>,
}

impl View for BranchInfo {
    type V = BranchModel;

    open spec fn view(&self) -> BranchModel {
        BranchModel {
            name: self.name@,
            is_head: self.is_head,
            is_remote: self.is_remote,
            upstream: text(self.upstream),
            tip_oid: self.tip_oid@,
        }
    }
}

impl Ranked for BranchModel {
    /// HEAD goes first; the rest go by name.
    open spec fn rank_le(self, other: Self) -> bool {
        if self.is_head == other.is_head {
            name_at_most(self.name, other.name)
        } else {
            self.is_head
        }
    }

    proof fn rank_total(a: Self, b: Self) {
        name_at_most_total(a.name, b.name);
    }

    proof fn rank_transitive(a: Self, b: Self, c: Self) {
        if a.is_head == b.is_head && b.is_head == c.is_head {
            name_at_most_transitive(a.name, b.name, c.name);
        }
    }
}

impl Sortable for BranchInfo {
    fn ranks_le(&self, other: &Self) -> (r: bool) {
        if self.is_head == other.is_head {
            name_le(self.name.as_str(), other.name.as_str())
        } else {
            self.is_head
        }
    }
}

/// Whether HEAD points at the branch: at the same object, by the branch's name.
pub open spec fn points_at<E>(head: Result<HeadRef, E>, name: Seq<char>, oid: Seq<u8>) -> bool {
    head matches Ok(head) && oid_bytes(head.target) == Some(oid) && text(head.shorthand) == Some(
        name,
    )
}

/// How a local branch is listed: not at all where it has no name or no target.
pub open spec fn local_listed<E>(
    head: Result<HeadRef, E>,
    item: Result<LocalRef<E>, E>,
) -> Option<BranchModel> {
    match item {
        Ok(local) => match (local.branch.name, local.branch.target) {
            (Some(name), Some(oid)) => Some(
                BranchModel {
                    name: name@,
                    is_head: points_at(head, name@, oid@),
                    is_remote: false,
                    upstream: match local.upstream {
                        Ok(upstream) => text(upstream),
                        Err(_) => None,
                    },
                    tip_oid: oid@,
                },
            ),
            _ => None,
        },
        Err(_) => None,
    }
}

/// How a remote branch is listed: not at all where it has no name or no target.
pub open spec fn remote_listed<E>(item: Result<BranchRef, E>) -> Option<BranchModel> {
    match item {
        Ok(branch) => match (branch.name, branch.target) {
            (Some(name), Some(oid)) => Some(
                BranchModel {
                    name: name@,
                    is_head: false,
                    is_remote: true,
                    upstream: None,
                    tip_oid: oid@,
                },
            ),
            _ => None,
        },
        Err(_) => None,
    }
}

/// The local branches that are listed, in the order in which they were read.
pub open spec fn listed_locals<E>(scan: BranchScan<E>) -> Seq<BranchModel> {
    walked(scan.locals).filter_map(|item: Result<LocalRef<E>, E>| local_listed(scan.head, item))
}

/// The remote branches that are listed, in the order in which they were read.
pub open spec fn listed_remotes<E>(scan: BranchScan<E>) -> Seq<BranchModel> {
    walked(scan.remotes).filter_map(|item: Result<BranchRef, E>| remote_listed(item))
}

/// All branches that are listed, in the order in which they were read.
pub open spec fn listed_branches<E>(scan: BranchScan<E>, include_remotes: bool) -> Seq<
    BranchModel,
> {
    if include_remotes {
        listed_locals(scan) + listed_remotes(scan)
    } else {
        listed_locals(scan)
    }
}

/// Whether HEAD points at the branch `name` with the tip `oid`.
fn is_head_branch<E>(head: &Result<HeadRef, E>, name: &String, oid: &Oid) -> (r: bool)
    ensures
        r == points_at(*head, name@, oid@),
{
    match head {
        Ok(head) => match (&head.target, &head.shorthand) {
            (Some(target), Some(shorthand)) => *target == *oid && *shorthand == *name,
            _ => false,
        },
        Err(_) => false,
    }
}

/// Lists the local branches of a walk.
fn list_locals<E>(head: &Result<HeadRef, E>, walk: Walk<LocalRef<E>, E>) -> (r: Result<
    Vec<BranchInfo>,
    E,
>)
    ensures
        match r {
            Err(e) => walk_fails_with(walk, e),
            Ok(branches) => walk_succeeds(walk) && views(branches@) == walked(walk).filter_map(
                |item: Result<LocalRef<E>, E>| local_listed(*head, item),
            ),
        },
{
    let items: Vec<Result<LocalRef<E>, E>> = match walk {
        Ok(items) => items,
        Err(e) => return Err(e),
    };
    let ghost listed = |item: Result<LocalRef<E>, E>| local_listed(*head, item);
    let mut branches: Vec<BranchInfo> = Vec::new();
    for item in it: items
        invariant
            it.seq() == items@,
            walk matches Ok(w) && w == items,
            listed == |item: Result<LocalRef<E>, E>| local_listed(*head, item),
            forall|j: int| 0 <= j < it.index() ==> (#[trigger] items@[j]) is Ok,
            views(branches@) == items@.take(it.index()).filter_map(listed),
    {
        let ghost i = it.index();
        proof {
            items@.lemma_filter_map_take_succ(listed, i);
        }
        let local: LocalRef<E> = match item {
            Ok(local) => local,
            Err(e) => {
                assert(first_failure_at(items@, i, e));
                assert(walk_fails_with(walk, e));
                return Err(e);
            },
        };
        let ghost before = branches@;
        if let Some(name) = local.branch.name {
            if let Some(oid) = local.branch.target {
                let is_head: bool = is_head_branch(head, &name, &oid);
                let upstream: Option<String> = match local.upstream {
                    Ok(upstream) => upstream,
                    Err(_) => None,
                };
                branches.push(
                    BranchInfo { name, is_head, is_remote: false, upstream, tip_oid: oid },
                );
                assert(views(branches@) == views(before).push(branches@[before.len() as int]@));
            }
        }
    }
    assert(items@.take(items@.len() as int) == items@);
    Ok(branches)
}

/// Lists the remote branches of a walk.
fn list_remotes<E>(walk: Walk<BranchRef, E>) -> (r: Result<Vec<BranchInfo>, E>)
    ensures
        match r {
            Err(e) => walk_fails_with(walk, e),
            Ok(branches) => walk_succeeds(walk) && views(branches@) == walked(walk).filter_map(
                |item: Result<BranchRef, E>| remote_listed(item),
            ),
        },
{
    let items: Vec<Result<BranchRef, E>> = match walk {
        Ok(items) => items,
        Err(e) => return Err(e),
    };
    let ghost listed = |item: Result<BranchRef, E>| remote_listed(item);
    let mut branches: Vec<BranchInfo> = Vec::new();
    for item in it: items
        invariant
            it.seq() == items@,
            walk matches Ok(w) && w == items,
            listed == |item: Result<BranchRef, E>| remote_listed(item),
            forall|j: int| 0 <= j < it.index() ==> (#[trigger] items@[j]) is Ok,
            views(branches@) == items@.take(it.index()).filter_map(listed),
    {
        let ghost i = it.index();
        proof {
            items@.lemma_filter_map_take_succ(listed, i);
        }
        let branch: BranchRef = match item {
            Ok(branch) => branch,
            Err(e) => {
                assert(first_failure_at(items@, i, e));
                assert(walk_fails_with(walk, e));
                return Err(e);
            },
        };
        let ghost before = branches@;
        if let Some(name) = branch.name {
            if let Some(oid) = branch.target {
                branches.push(
                    BranchInfo {
                        name,
                        is_head: false,
                        is_remote: true,
                        upstream: None,
                        tip_oid: oid,
                    },
                );
                assert(views(branches@) == views(before).push(branches@[before.len() as int]@));
            }
        }
    }
    assert(items@.take(items@.len() as int) == items@);
    Ok(branches)
}

/// Whether the remote branches are to be read: where they are listed, unless the walk over the
/// local branches has failed the listing already.
pub fn reads_remotes<E>(locals: &Walk<LocalRef<E>, E>, include_remotes: bool) -> (r: bool)
    ensures
        r == (include_remotes && walk_succeeds(*locals)),
{
    if !include_remotes {
        return false;
    }
    match locals {
        Ok(items) => {
            let mut i: usize = 0;
            while i < items.len()
                invariant
                    i <= items@.len(),
                    *locals matches Ok(walked) && walked == *items,
                    forall|j: int| 0 <= j < i ==> (#[trigger] items@[j]) is Ok,
                decreases items@.len() - i,
            {
                if items[i].is_err() {
                    assert(items@[i as int] is Err);
                    return false;
                }
                i = i + 1;
            }
            true
        },
        Err(_) => false,
    }
}

impl BranchInfo {
    /// Lists the branches of a scan, the HEAD branch first and the rest by name. A failure to
    /// read a branch fails the listing; a branch without a name or a target is left out, and a
    /// HEAD or an upstream that was not found counts as none.
    pub fn list_all<E>(scan: BranchScan<E>, include_remotes: bool) -> (r: Result<Vec<Self>, E>)
        ensures
            match r {
                Err(e) => walk_fails_with(scan.locals, e) || (walk_succeeds(scan.locals)
                    && include_remotes && walk_fails_with(scan.remotes, e)),
                Ok(branches) => walk_succeeds(scan.locals) && (include_remotes ==> walk_succeeds(
                    scan.remotes,
                )) && is_stable_sort(listed_branches(scan, include_remotes), views(branches@)),
            },
            r is Ok ==> forall|i: int|
                #![trigger scan.locals->Ok_0@[i]]
                0 <= i < scan.locals->Ok_0@.len() && scan.locals->Ok_0@[i]->Ok_0.branch.name is Some
                    && scan.locals->Ok_0@[i]->Ok_0.branch.target is Some ==> exists|k: int|
                    {
                        let local = scan.locals->Ok_0@[i]->Ok_0;
                        let listed = #[trigger] r->Ok_0@[k];
                        &&& 0 <= k < r->Ok_0@.len()
                        &&& !listed.is_remote
                        &&& listed.name@ == local.branch.name->Some_0@
                        &&& listed.tip_oid.bytes@ == local.branch.target->Some_0.bytes@
                        &&& match local.upstream {
                            Ok(Some(upstream)) => listed.upstream is Some
                                && listed.upstream->Some_0@ == upstream@,
                            _ => listed.upstream is None,
                        }
                    },
            r is Ok && include_remotes ==> forall|i: int|
                #![trigger scan.remotes->Ok_0@[i]]
                0 <= i < scan.remotes->Ok_0@.len() && scan.remotes->Ok_0@[i]->Ok_0.name is Some
                    && scan.remotes->Ok_0@[i]->Ok_0.target is Some ==> exists|k: int|
                    {
                        let remote = scan.remotes->Ok_0@[i]->Ok_0;
                        let listed = #[trigger] r->Ok_0@[k];
                        &&& 0 <= k < r->Ok_0@.len()
                        &&& listed.is_remote
                        &&& listed.name@ == remote.name->Some_0@
                        &&& listed.tip_oid.bytes@ == remote.target->Some_0.bytes@
                    },
    {
        let mut branches: Vec<BranchInfo> = match list_locals(&scan.head, scan.locals) {
            Ok(branches) => branches,
            Err(e) => return Err(e),
        };
        if include_remotes {
            let ghost locals = branches@;
            let mut remotes: Vec<BranchInfo> = match list_remotes(scan.remotes) {
                Ok(remotes) => remotes,
                Err(e) => return Err(e),
            };
            let ghost added = remotes@;
            branches.append(&mut remotes);
            assert(views(branches@) == views(locals) + views(added));
        }
        // Put the HEAD branch first
        let sorted: Vec<BranchInfo> = stable_sort(branches);
        proof {
            let sources = branches_are_listed_as_they_were_read(scan, include_remotes, sorted@);
            let locals = scan.locals->Ok_0@;
            assert forall|i: int|
                #![trigger locals[i]]
                0 <= i < locals.len() && locals[i]->Ok_0.branch.name is Some
                    && locals[i]->Ok_0.branch.target is Some implies exists|k: int|
                {
                    let local = locals[i]->Ok_0;
                    let listed = #[trigger] sorted@[k];
                    &&& 0 <= k < sorted@.len()
                    &&& !listed.is_remote
                    &&& listed.name@ == local.branch.name->Some_0@
                    &&& listed.tip_oid.bytes@ == local.branch.target->Some_0.bytes@
                    &&& match local.upstream {
                        Ok(Some(upstream)) => listed.upstream is Some && listed.upstream->Some_0@
                            == upstream@,
                        _ => listed.upstream is None,
                    }
                } by {
                assert(sources.contains(i));
                let k = choose|k: int| 0 <= k < sources.len() && sources[k] == i;
                let listed = sorted@[k];
                assert(0 <= k < sorted@.len());
            }
            if include_remotes {
                let remotes = scan.remotes->Ok_0@;
                assert forall|i: int|
                    #![trigger remotes[i]]
                    0 <= i < remotes.len() && remotes[i]->Ok_0.name is Some
                        && remotes[i]->Ok_0.target is Some implies exists|k: int|
                    {
                        let remote = remotes[i]->Ok_0;
                        let listed = #[trigger] sorted@[k];
                        &&& 0 <= k < sorted@.len()
                        &&& listed.is_remote
                        &&& listed.name@ == remote.name->Some_0@
                        &&& listed.tip_oid.bytes@ == remote.target->Some_0.bytes@
                    } by {
                    assert(sources.contains(locals.len() + i));
                    let k = choose|k: int|
                        0 <= k < sources.len() && sources[k] == locals.len() + i;
                    let listed = sorted@[k];
                    assert(0 <= k < sorted@.len());
                }
            }
        }
        Ok(sorted)
    }
}

#[derive(Debug, Clone)]
pub struct TagInfo {
    pub name: String,
    pub tip_oid: Oid,
}

/// The model of a `TagInfo`.
pub struct TagModel {
    pub name: Seq<char>,
    pub tip_oid: Seq<u8>,
}

impl View for TagInfo {
    type V = TagModel;

    open spec fn view(&self) -> TagModel {
        TagModel { name: self.name@, tip_oid: self.tip_oid@ }
    }
}

impl Ranked for TagModel {
    /// Tags go by name.
    open spec fn rank_le(self, other: Self) -> bool {
        name_at_most(self.name, other.name)
    }

    proof fn rank_total(a: Self, b: Self) {
        name_at_most_total(a.name, b.name);
    }

    proof fn rank_transitive(a: Self, b: Self, c: Self) {
        name_at_most_transitive(a.name, b.name, c.name);
    }
}

impl Sortable for TagInfo {
    fn ranks_le(&self, other: &Self) -> (r: bool) {
        name_le(self.name.as_str(), other.name.as_str())
    }
}

/// How a tag is listed: not at all where it has no name or does not peel to a commit.
pub open spec fn tag_listed<E>(item: Result<TagRef<E>, E>) -> Option<TagModel> {
    match item {
        Ok(tag) => match (tag.name, tag.commit) {
            (Some(name), Ok(commit)) => Some(TagModel { name: name@, tip_oid: commit@ }),
            _ => None,
        },
        Err(_) => None,
    }
}

/// The tags that are listed, in the order in which they were read.
pub open spec fn listed_tags<E>(walk: Walk<TagRef<E>, E>) -> Seq<TagModel> {
    walked(walk).filter_map(|item: Result<TagRef<E>, E>| tag_listed(item))
}

impl TagInfo {
    /// Lists the tags of a walk by name, resolved to the commit they point
    /// at. Both annotated tags (which point to a tag object) and
    /// lightweight tags (which point directly to a commit) are peeled to
    /// their target commit and treated identically here.
    pub fn list_all<E>(walk: Walk<TagRef<E>, E>) -> (r: Result<Vec<Self>, E>)
        ensures
            match r {
                Err(e) => walk_fails_with(walk, e),
                Ok(tags) => walk_succeeds(walk) && is_stable_sort(listed_tags(walk), views(tags@)),
            },
            r is Ok ==> forall|i: int|
                #![trigger walk->Ok_0@[i]]
                0 <= i < walk->Ok_0@.len() && walk->Ok_0@[i]->Ok_0.name is Some
                    && walk->Ok_0@[i]->Ok_0.commit is Ok ==> exists|k: int|
                    {
                        let tag = walk->Ok_0@[i]->Ok_0;
                        let listed = #[trigger] r->Ok_0@[k];
                        &&& 0 <= k < r->Ok_0@.len()
                        &&& listed.name@ == tag.name->Some_0@
                        &&& listed.tip_oid.bytes@ == tag.commit->Ok_0.bytes@
                    },
    {
        let items: Vec<Result<TagRef<E>, E>> = match walk {
            Ok(items) => items,
            Err(e) => return Err(e),
        };
        let ghost listed = |item: Result<TagRef<E>, E>| tag_listed(item);
        let mut tags: Vec<TagInfo> = Vec::new();
        for item in it: items
            invariant
                it.seq() == items@,
                walk matches Ok(w) && w == items,
                listed == |item: Result<TagRef<E>, E>| tag_listed(item),
                forall|j: int| 0 <= j < it.index() ==> (#[trigger] items@[j]) is Ok,
                views(tags@) == items@.take(it.index()).filter_map(listed),
        {
            let ghost i = it.index();
            proof {
                items@.lemma_filter_map_take_succ(listed, i);
            }
            let tag: TagRef<E> = match item {
                Ok(tag) => tag,
                Err(e) => {
                    assert(first_failure_at(items@, i, e));
                    assert(walk_fails_with(walk, e));
                    return Err(e);
                },
            };
            let ghost before = tags@;
            if let Some(name) = tag.name {
                // Skip tags that don't resolve to a commit (e.g. tags pointing
                // at blobs or trees) rather than failing the whole listing.
                if let Ok(commit) = tag.commit {
                    tags.push(TagInfo { name, tip_oid: commit });
                    assert(views(tags@) == views(before).push(tags@[before.len() as int]@));
                }
            }
        }
        assert(items@.take(items@.len() as int) == items@);
        let sorted: Vec<TagInfo> = stable_sort(tags);
        proof {
            let sources = tags_are_listed_as_they_were_read(walk, sorted@);
            assert forall|i: int|
                #![trigger items@[i]]
                0 <= i < items@.len() && items@[i]->Ok_0.name is Some
                    && items@[i]->Ok_0.commit is Ok implies exists|k: int|
                {
                    let tag = items@[i]->Ok_0;
                    let listed = #[trigger] sorted@[k];
                    &&& 0 <= k < sorted@.len()
                    &&& listed.name@ == tag.name->Some_0@
                    &&& listed.tip_oid.bytes@ == tag.commit->Ok_0.bytes@
                } by {
                assert(sources.contains(i));
                let k = choose|k: int| 0 <= k < sources.len() && sources[k] == i;
                let listed = sorted@[k];
                assert(0 <= k < sorted@.len());
            }
        }
        Ok(sorted)
    }
}

} // verus!
