//! Reconciliation of the children of a node is faithful: what holds of one
//! tree holds of a sequence of trees that are matched by position.

use crate::virtual_dom::diff::{
    at, carried_all, children_patches, lemma_prefix_bounds, lemma_total_fresh_le_count,
    lemma_views_take, live, matched_patches, patches, teardown_all, total_count, total_fresh,
    total_width, valid,
};
use crate::virtual_dom::host::{Dom, Live, apply_all, lemma_apply_joined};
use crate::virtual_dom::host::effects::{lemma_torn_down_all, with_children};
use crate::virtual_dom::host::faithful::lemma_reconciled;
use crate::virtual_dom::host::seats::{
    all_below, all_descend, all_dropped, all_shown, all_spared, children_reseated, children_seated,
    descends, done_of, dropped, grown, holds, lemma_all_below, lemma_carried_prefix,
    lemma_fresh_prefix, named, rest_of, seated, spared, top,
};
use crate::virtual_dom::host::shown::{
    apart, handles_all, lemma_roots_all_occur, lemma_roots_split, lemma_shown_is_live,
    lemma_shows_alike, occurs_in, roots, roots_all, shows, tidy,
};
use crate::virtual_dom::laws::occurs;
use crate::virtual_dom::patch::PatchView;
use crate::virtual_dom::vcomp::Handle;
use crate::virtual_dom::vnode::{Node, views};
use vstd::prelude::*;

verus! {

/// No tree that was reconciled shares a handle with a tree before that is
/// still to come.
pub proof fn lemma_step_strange<P>(
    prevs: Seq<Node<P>>,
    done: Seq<Node<P>>,
    first: int,
    last: int,
    j: int,
    i: int,
    handle: Handle,
)
    requires
        all_descend(prevs, done, first, last),
        apart(prevs),
        all_below(prevs, first),
        0 <= i < done.len(),
        i < j < prevs.len(),
        occurs(done[i], handle),
    ensures
        !occurs(prevs[j], handle),
{
    if named(at(prevs, i), handle) {
        assert(occurs(prevs[i], handle));
    }
}

/// What the step needs: the live nodes after the first `j` children show
/// the tree before at place `j` where the parent has it.
pub proof fn lemma_step_seated<P>(
    dom: Dom,
    middle: Dom,
    prevs: Seq<Node<P>>,
    done: Seq<Node<P>>,
    parent: Handle,
    left: Seq<Handle>,
    right: Seq<Handle>,
    first: int,
    until: int,
    j: int,
)
    requires
        children_seated(dom, prevs, parent, left, right, first),
        0 <= j,
        done.len() == j,
        first <= until,
        holds(dom, middle, parent, left + roots_all(done) + roots_all(rest_of(prevs, j)) + right),
        all_descend(prevs, done, first, until),
        grown(dom, middle, first, until),
        all_spared(dom, middle, done_of(prevs, j), parent),
    ensures
        seated(
            middle,
            at(prevs, j),
            parent,
            left + roots_all(done),
            roots_all(rest_of(prevs, j + 1)) + right,
            until,
        ),
{
    let left_j = left + roots_all(done);
    let right_j = roots_all(rest_of(prevs, j + 1)) + right;
    lemma_all_below(dom, prevs, first);
    if j < prevs.len() {
        let p = prevs[j];
        lemma_roots_split(prevs, j);
        assert(middle[parent].children =~= left_j + roots(p) + right_j);
        assert forall|handle: Handle| #[trigger] occurs(p, handle) implies middle.contains_key(
            handle,
        ) && middle[handle] == dom[handle] && !left_j.contains(handle) by {
            lemma_shown_is_live(dom, p, false, handle);
            assert(occurs_in(prevs, handle));
            if occurs_in(done_of(prevs, j), handle) {
                let i = choose|i: int|
                    0 <= i < done_of(prevs, j).len() && occurs(
                        #[trigger] done_of(prevs, j)[i],
                        handle,
                    );
                assert(done_of(prevs, j)[i] == prevs[i]);
                assert(occurs(prevs[i], handle) && occurs(prevs[j], handle));
            }
            if left_j.contains(handle) {
                let n = choose|n: int| 0 <= n < left_j.len() && left_j[n] == handle;
                if n < left.len() {
                    assert(left[n] == handle);
                } else {
                    assert(roots_all(done)[n - left.len()] == handle);
                    lemma_roots_all_occur(done, handle);
                    let i = choose|i: int| 0 <= i < done.len() && occurs(#[trigger] done[i], handle);
                    lemma_step_strange(prevs, done, first, until, j, i, handle);
                }
            }
        }
        lemma_shows_alike(dom, middle, p, false);
        assert(!occurs(p, parent)) by {
            if occurs(p, parent) {
                assert(occurs_in(prevs, parent));
            }
        }
    } else {
        assert(rest_of(prevs, j + 1) =~= Seq::empty());
        assert(rest_of(prevs, j) =~= Seq::empty());
        assert(middle[parent].children =~= left_j + top(at(prevs, j)) + right_j);
    }
}

/// After the step the parent holds the top nodes of the first `j + 1` new
/// trees, then those of the trees before that are still to come.
pub proof fn lemma_step_holds<P>(
    dom: Dom,
    middle: Dom,
    after: Dom,
    prevs: Seq<Node<P>>,
    done: Seq<Node<P>>,
    result: Node<P>,
    parent: Handle,
    left: Seq<Handle>,
    right: Seq<Handle>,
    j: int,
)
    requires
        done.len() == j,
        holds(dom, middle, parent, left + roots_all(done) + roots_all(rest_of(prevs, j)) + right),
        holds(
            middle,
            after,
            parent,
            left + roots_all(done) + roots(result) + (roots_all(rest_of(prevs, j + 1)) + right),
        ),
    ensures
        holds(
            dom,
            after,
            parent,
            left + roots_all(done.push(result)) + roots_all(rest_of(prevs, j + 1)) + right,
        ),
{
    let more = done.push(result);
    assert(more.drop_last() =~= done);
    assert(more.last() == result);
    assert(left + roots_all(done) + roots(result) + (roots_all(rest_of(prevs, j + 1)) + right)
        =~= left + roots_all(more) + roots_all(rest_of(prevs, j + 1)) + right);
}

/// After the step the live nodes show the first `j + 1` new trees.
pub proof fn lemma_step_shown<P>(
    middle: Dom,
    after: Dom,
    prevs: Seq<Node<P>>,
    done: Seq<Node<P>>,
    result: Node<P>,
    parent: Handle,
    first: int,
    until: int,
    j: int,
)
    requires
        done.len() == j,
        all_shown(middle, done, true),
        !occurs_in(done, parent),
        all_descend(prevs, done, first, until),
        apart(prevs),
        all_below(prevs, first),
        spared(middle, after, at(prevs, j), parent),
        shows(after, result, true),
        live(result),
        tidy(result),
    ensures
        all_shown(after, done.push(result), true),
{
    let more = done.push(result);
    assert forall|i: int| 0 <= i < more.len() implies shows(after, #[trigger] more[i], true) && live(
        more[i],
    ) && tidy(more[i]) by {
        if i < j {
            let r = done[i];
            assert(more[i] == r);
            assert forall|handle: Handle| #[trigger] occurs(r, handle) implies after.contains_key(
                handle,
            ) && after[handle] == middle[handle] by {
                lemma_shown_is_live(middle, r, true, handle);
                assert(occurs_in(done, handle));
                if j < prevs.len() {
                    lemma_step_strange(prevs, done, first, until, j, i, handle);
                }
            }
            lemma_shows_alike(middle, after, r, true);
        }
    }
}

/// After the step no handle names nodes of two of the new trees, and none
/// is the parent's.
pub proof fn lemma_step_apart<P>(
    prevs: Seq<Node<P>>,
    done: Seq<Node<P>>,
    result: Node<P>,
    parent: Handle,
    first: int,
    until: int,
    last: int,
    j: int,
)
    requires
        done.len() == j,
        apart(done),
        !occurs_in(done, parent),
        !occurs(result, parent),
        all_descend(prevs, done, first, until),
        descends(at(prevs, j), result, until, last),
        apart(prevs),
        all_below(prevs, first),
        first <= until,
    ensures
        apart(done.push(result)),
        !occurs_in(done.push(result), parent),
{
    let more = done.push(result);
    assert forall|a: int, b: int, handle: Handle| 0 <= a < b < more.len() implies !(#[trigger] occurs(
        more[a],
        handle,
    ) && #[trigger] occurs(more[b], handle)) by {
        if occurs(more[a], handle) && occurs(more[b], handle) {
            if b < j {
                assert(more[a] == done[a] && more[b] == done[b]);
            } else {
                assert(more[a] == done[a]);
                assert(more[b] == result);
                if named(at(prevs, j), handle) {
                    lemma_step_strange(prevs, done, first, until, j, a, handle);
                } else {
                    if named(at(prevs, a), handle) {
                        assert(occurs(prevs[a], handle));
                    }
                }
            }
        }
    }
    if occurs_in(more, parent) {
        let i = choose|i: int| 0 <= i < more.len() && occurs(#[trigger] more[i], parent);
        if i < j {
            assert(more[i] == done[i]);
            assert(occurs_in(done, parent));
        }
    }
}

/// After the step the handles of the first `j + 1` new trees are those of
/// the trees before at their places, or fresh.
pub proof fn lemma_step_descend<P>(
    prevs: Seq<Node<P>>,
    done: Seq<Node<P>>,
    result: Node<P>,
    first: int,
    until: int,
    last: int,
    j: int,
)
    requires
        done.len() == j,
        all_descend(prevs, done, first, until),
        descends(at(prevs, j), result, until, last),
        first <= until <= last,
    ensures
        all_descend(prevs, done.push(result), first, last),
{
    let more = done.push(result);
    assert forall|i: int| 0 <= i < more.len() implies descends(
        at(prevs, i),
        #[trigger] more[i],
        first,
        last,
    ) by {
        if i < j {
            assert(more[i] == done[i]);
        }
    }
}

/// After the step the live nodes are those from before and fresh ones.
pub proof fn lemma_step_grown(dom: Dom, middle: Dom, after: Dom, first: int, until: int, last: int)
    requires
        grown(dom, middle, first, until),
        grown(middle, after, until, last),
        first <= until <= last,
    ensures
        grown(dom, after, first, last),
{
    assert forall|handle: Handle| #[trigger] after.contains_key(handle) implies dom.contains_key(
        handle,
    ) || first <= handle < last by {
        if middle.contains_key(handle) {
        }
    }
}

/// After the step the handles that the new trees do not carry are live no
/// more.
pub proof fn lemma_step_dropped<P>(
    middle: Dom,
    after: Dom,
    prevs: Seq<Node<P>>,
    done: Seq<Node<P>>,
    result: Node<P>,
    first: int,
    until: int,
    last: int,
    j: int,
)
    requires
        0 <= j,
        done.len() == j,
        all_dropped(middle, done_of(prevs, j), done),
        dropped(after, at(prevs, j), result),
        grown(middle, after, until, last),
        all_below(prevs, first),
        first <= until,
    ensures
        all_dropped(after, done_of(prevs, j + 1), done.push(result)),
{
    let more = done.push(result);
    assert forall|handle: Handle|
        occurs_in(done_of(prevs, j + 1), handle) && !occurs_in(more, handle) implies !(
    #[trigger] after.contains_key(handle)) by {
        let i = choose|i: int|
            0 <= i < done_of(prevs, j + 1).len() && occurs(#[trigger] done_of(prevs, j + 1)[i], handle);
        assert(done_of(prevs, j + 1)[i] == prevs[i]);
        if i < j {
            assert(done_of(prevs, j)[i] == prevs[i]);
            assert(occurs_in(done_of(prevs, j), handle));
            if occurs_in(done, handle) {
                let n = choose|n: int| 0 <= n < done.len() && occurs(#[trigger] done[n], handle);
                assert(more[n] == done[n]);
                assert(occurs_in(more, handle));
            }
            assert(!middle.contains_key(handle));
        } else {
            assert(named(at(prevs, j), handle));
            if occurs(result, handle) {
                assert(more[j] == result);
                assert(occurs_in(more, handle));
            }
        }
    }
}

/// After the step every live node but the parent and the nodes of the trees
/// before that were matched is as it was.
pub proof fn lemma_step_spared<P>(
    dom: Dom,
    middle: Dom,
    after: Dom,
    prevs: Seq<Node<P>>,
    parent: Handle,
    j: int,
)
    requires
        0 <= j,
        all_spared(dom, middle, done_of(prevs, j), parent),
        spared(middle, after, at(prevs, j), parent),
    ensures
        all_spared(dom, after, done_of(prevs, j + 1), parent),
{
    assert forall|handle: Handle|
        #[trigger] dom.contains_key(handle) && handle != parent && !occurs_in(done_of(prevs, j + 1), handle)
            implies after.contains_key(handle) && after[handle] == dom[handle] by {
        if occurs_in(done_of(prevs, j), handle) {
            let i = choose|i: int|
                0 <= i < done_of(prevs, j).len() && occurs(#[trigger] done_of(prevs, j)[i], handle);
            assert(done_of(prevs, j + 1)[i] == done_of(prevs, j)[i]);
        }
        if named(at(prevs, j), handle) {
            assert(done_of(prevs, j + 1)[j] == prevs[j]);
        }
        assert(middle.contains_key(handle));
    }
}

/// `lemma_reconciled` for the first `k` of the children of a node, each
/// matched with the tree before at its place.
pub proof fn lemma_matched<P>(
    dom: Dom,
    prevs: Seq<Node<P>>,
    news: Seq<Node<P>>,
    results: Seq<Node<P>>,
    parent: Handle,
    left: Seq<Handle>,
    right: Seq<Handle>,
    first: int,
    k: int,
)
    requires
        children_seated(dom, prevs, parent, left, right, first),
        views(results) == views(news),
        forall|i: int| 0 <= i < news.len() ==> valid(#[trigger] news[i]),
        carried_all(prevs, results, first),
        0 <= first,
        first + total_count(views(news)) <= u64::MAX,
        left.len() + total_width(views(news)) <= u64::MAX,
        0 <= k <= news.len(),
    ensures
        children_reseated(
            dom,
            apply_all(dom, matched_patches(prevs, news.take(k), parent, left.len() as int, first)),
            done_of(prevs, k),
            results.take(k),
            rest_of(prevs, k),
            parent,
            left,
            right,
            first,
            first + total_fresh(prevs, views(news.take(k))),
        ),
        roots_all(results.take(k)).len() == total_width(views(news.take(k))),
        total_fresh(prevs, views(news.take(k))) <= total_count(views(news).take(k)),
        all_descend(prevs, results.take(k), first, first + total_fresh(prevs, views(news.take(k)))),
    decreases news, 2int, k,
{
    assert(views(results).len() == results.len());
    assert(views(news).len() == news.len());
    lemma_views_take(news, k);
    lemma_total_fresh_le_count(prevs, views(news).take(k));
    if k == 0 {
        assert(news.take(0) =~= Seq::empty());
        assert(results.take(0) =~= Seq::empty());
        assert(views(news.take(0)) =~= Seq::empty());
        assert(prevs.skip(0) =~= prevs);
        assert(prevs.take(0) =~= Seq::empty());
        assert(left + roots_all(results.take(0)) + roots_all(rest_of(prevs, 0)) + right =~= left
            + roots_all(prevs) + right);
        assert(dom[parent] == Live { children: dom[parent].children, ..dom[parent] });
    } else {
        let j = k - 1;
        lemma_matched(dom, prevs, news, results, parent, left, right, first, j);
        let before = matched_patches(prevs, news.take(j), parent, left.len() as int, first);
        let middle = apply_all(dom, before);
        let until = first + total_fresh(prevs, views(news.take(j)));
        let last = first + total_fresh(prevs, views(news.take(k)));
        let done = results.take(j);
        let prev = at(prevs, j);
        let result = results[j];
        let left_j = left + roots_all(done);
        let right_j = roots_all(rest_of(prevs, k)) + right;
        let upto = news.take(k);
        assert(upto.drop_last() =~= news.take(j));
        assert(upto.last() == news[j]);
        lemma_views_take(news, j);
        lemma_views_take(results, j);
        lemma_prefix_bounds(views(news), j);
        lemma_fresh_prefix(prevs, views(news), j);
        lemma_total_fresh_le_count(prevs, views(news).take(j));
        lemma_carried_prefix(prevs, results, first, j);
        assert(views(results)[j] == results[j]@);
        assert(views(news)[j] == news[j]@);
        assert(views(done) == views(news.take(j)));
        lemma_all_below(dom, prevs, first);
        lemma_step_seated(dom, middle, prevs, done, parent, left, right, first, until, j);
        assert(left_j.len() == left.len() + total_width(views(news.take(j))));
        lemma_reconciled(middle, prev, news[j], result, parent, left_j, right_j, until);
        let step = patches(prev, news[j], parent, left_j.len() as int, until);
        let after = apply_all(middle, step);
        assert(matched_patches(prevs, upto, parent, left.len() as int, first) == before + step);
        lemma_apply_joined(dom, before, step);
        assert(results.take(k) =~= done.push(result));
        assert(left_j + roots(result) + right_j =~= left + roots_all(done) + roots(result) + (
        roots_all(rest_of(prevs, j + 1)) + right));
        lemma_step_holds(dom, middle, after, prevs, done, result, parent, left, right, j);
        lemma_step_shown(middle, after, prevs, done, result, parent, first, until, j);
        lemma_step_apart(prevs, done, result, parent, first, until, last, j);
        lemma_step_descend(prevs, done, result, first, until, last, j);
        lemma_step_grown(dom, middle, after, first, until, last);
        lemma_step_dropped(middle, after, prevs, done, result, first, until, last, j);
        lemma_step_spared(dom, middle, after, prevs, parent, j);
        assert(roots_all(done.push(result)) =~= roots_all(done) + roots(result)) by {
            assert(done.push(result).drop_last() =~= done);
        }
        lemma_views_take(news, k);
        assert(all_descend(done_of(prevs, k), results.take(k), first, last)) by {
            assert forall|i: int| 0 <= i < results.take(k).len() implies descends(
                at(done_of(prevs, k), i),
                #[trigger] results.take(k)[i],
                first,
                last,
            ) by {
                assert(at(done_of(prevs, k), i) == at(prevs, i));
            }
        }
    }
}

/// Tearing down the trees before that no new tree was matched with leaves
/// the new trees as they are.
pub proof fn lemma_trailing<P>(
    dom: Dom,
    middle: Dom,
    prevs: Seq<Node<P>>,
    results: Seq<Node<P>>,
    parent: Handle,
    left: Seq<Handle>,
    right: Seq<Handle>,
    first: int,
    last: int,
)
    requires
        children_seated(dom, prevs, parent, left, right, first),
        results.len() < prevs.len(),
        first <= last,
        children_reseated(
            dom,
            middle,
            prevs.take(results.len() as int),
            results,
            prevs.skip(results.len() as int),
            parent,
            left,
            right,
            first,
            last,
        ),
        all_descend(prevs, results, first, last),
    ensures
        children_reseated(
            dom,
            apply_all(middle, teardown_all(prevs.skip(results.len() as int), parent)),
            prevs,
            results,
            Seq::empty(),
            parent,
            left,
            right,
            first,
            last,
        ),
{
    let n = results.len() as int;
    let rest = prevs.skip(n);
    let done = prevs.take(n);
    let left_n = left + roots_all(results);
    lemma_all_below(dom, prevs, first);
    assert forall|handle: Handle| #[trigger] occurs_in(rest, handle) implies !left_n.contains(
        handle,
    ) && occurs_in(prevs, handle) && handle != parent && !occurs_in(results, handle) by {
        let j = choose|j: int| 0 <= j < rest.len() && occurs(#[trigger] rest[j], handle);
        assert(rest[j] == prevs[n + j]);
        assert(occurs_in(prevs, handle));
        if occurs_in(results, handle) {
            let i = choose|i: int| 0 <= i < results.len() && occurs(#[trigger] results[i], handle);
            lemma_step_strange(prevs, results, first, last, n + j, i, handle);
        }
        if left_n.contains(handle) {
            let m = choose|m: int| 0 <= m < left_n.len() && left_n[m] == handle;
            if m < left.len() {
                assert(left[m] == handle);
            } else {
                assert(roots_all(results)[m - left.len()] == handle);
                lemma_roots_all_occur(results, handle);
            }
        }
    }
    assert(middle[parent].children =~= left_n + roots_all(rest) + right);
    lemma_torn_down_all(middle, rest, parent, left_n, right);
    let after = apply_all(middle, teardown_all(rest, parent));
    assert(after == with_children(middle, parent, left_n + right).remove_keys(handles_all(rest)));
    assert(left_n + right =~= left + roots_all(results) + roots_all(Seq::<Node<P>>::empty()) + right);
    assert forall|i: int| 0 <= i < results.len() implies shows(after, #[trigger] results[i], true)
        && live(results[i]) && tidy(results[i]) by {
        let r = results[i];
        assert forall|handle: Handle| #[trigger] occurs(r, handle) implies after.contains_key(handle)
            && after[handle] == middle[handle] by {
            lemma_shown_is_live(middle, r, true, handle);
            assert(occurs_in(results, handle));
        }
        lemma_shows_alike(middle, after, r, true);
    }
    assert forall|handle: Handle|
        occurs_in(prevs, handle) && !occurs_in(results, handle) implies !(#[trigger] after.contains_key(
        handle,
    )) by {
        let i = choose|i: int| 0 <= i < prevs.len() && occurs(#[trigger] prevs[i], handle);
        if i < n {
            assert(done[i] == prevs[i]);
            assert(occurs_in(done, handle));
        } else {
            assert(rest[i - n] == prevs[i]);
            assert(occurs_in(rest, handle));
        }
    }
    assert forall|handle: Handle| #[trigger]
        dom.contains_key(handle) && handle != parent && !occurs_in(prevs, handle)
            implies after.contains_key(handle) && after[handle] == dom[handle] by {
        if occurs_in(done, handle) {
            let i = choose|i: int| 0 <= i < done.len() && occurs(#[trigger] done[i], handle);
            assert(done[i] == prevs[i]);
        }
        if occurs_in(rest, handle) {
        }
        assert(middle.contains_key(handle));
    }
}

/// Where the live nodes show the children of a node, the patches of their
/// reconciliation leave live nodes that show the new children in their
/// place.
pub proof fn lemma_children<P>(
    dom: Dom,
    prevs: Seq<Node<P>>,
    news: Seq<Node<P>>,
    results: Seq<Node<P>>,
    parent: Handle,
    left: Seq<Handle>,
    right: Seq<Handle>,
    first: int,
)
    requires
        children_seated(dom, prevs, parent, left, right, first),
        views(results) == views(news),
        forall|i: int| 0 <= i < news.len() ==> valid(#[trigger] news[i]),
        carried_all(prevs, results, first),
        0 <= first,
        first + total_count(views(news)) <= u64::MAX,
        left.len() + total_width(views(news)) <= u64::MAX,
    ensures
        children_reseated(
            dom,
            apply_all(dom, children_patches(prevs, news, parent, left.len() as int, first)),
            prevs,
            results,
            Seq::empty(),
            parent,
            left,
            right,
            first,
            first + total_fresh(prevs, views(news)),
        ),
        roots_all(results).len() == total_width(views(news)),
    decreases news, 3int,
{
    let n = news.len() as int;
    assert(views(results).len() == results.len());
    assert(views(news).len() == news.len());
    lemma_matched(dom, prevs, news, results, parent, left, right, first, n);
    assert(news.take(n) =~= news);
    assert(results.take(n) =~= results);
    let matched = matched_patches(prevs, news, parent, left.len() as int, first);
    let middle = apply_all(dom, matched);
    let last = first + total_fresh(prevs, views(news));
    if n < prevs.len() {
        let trailing = teardown_all(prevs.skip(n), parent);
        lemma_trailing(dom, middle, prevs, results, parent, left, right, first, last);
        lemma_apply_joined(dom, matched, trailing);
    } else {
        assert(done_of(prevs, n) == prevs);
        assert(rest_of(prevs, n) =~= Seq::<Node<P>>::empty());
        assert(matched + Seq::<PatchView<P>>::empty() =~= matched);
    }
}

} // verus!
