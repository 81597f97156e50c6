//! Properties of the sliding window that hold across calls.
use crate::frame::FrameView;
use crate::keyframe_sliding_window::{
    WindowView, forget_points, next_oldest, kept_point_ids, marginalizes, observed_in_both, removed_point_ids,
    shifted_frames, spec_add_keyframe, spec_last_pose,
};
use vstd::multiset::Multiset;
use vstd::prelude::*;

verus! {

broadcast use vstd::seq_lib::group_to_multiset_ensures, vstd::multiset::group_multiset_axioms;

/// All landmark ids owned by a sequence of keyframes, oldest keyframe first.
pub open spec fn owned_point_ids<P, O>(frames: Seq<FrameView<P, O>>) -> Seq<usize>
    decreases frames.len(),
{
    if frames.len() == 0 {
        Seq::empty()
    } else {
        frames[0].new_point_ids + owned_point_ids(frames.drop_first())
    }
}

/// The poses of a sequence of keyframes.
pub open spec fn poses<P, O>(frames: Seq<FrameView<P, O>>) -> Seq<P> {
    frames.map_values(|f: FrameView<P, O>| f.pose)
}

proof fn lemma_owned_push<P, O>(frames: Seq<FrameView<P, O>>, f: FrameView<P, O>)
    ensures
        owned_point_ids(frames.push(f)) == owned_point_ids(frames) + f.new_point_ids,
    decreases frames.len(),
{
    if frames.len() == 0 {
        assert(frames.push(f).drop_first() =~= Seq::<FrameView<P, O>>::empty());
        assert(owned_point_ids(Seq::<FrameView<P, O>>::empty()) == Seq::<usize>::empty());
        assert(owned_point_ids(frames) == Seq::<usize>::empty());
        assert(frames.push(f)[0] == f);
        assert(owned_point_ids(frames.push(f)) =~= f.new_point_ids);
    } else {
        assert(frames.push(f).drop_first() =~= frames.drop_first().push(f));
        lemma_owned_push(frames.drop_first(), f);
        assert(owned_point_ids(frames.push(f)) =~= owned_point_ids(frames) + f.new_point_ids);
    }
}

/// The landmark ids owned by keyframes depend on their new points alone.
pub proof fn lemma_owned_depends_on_new_points<P, O>(
    a: Seq<FrameView<P, O>>,
    b: Seq<FrameView<P, O>>,
)
    requires
        a.len() == b.len(),
        forall|k: int| 0 <= k < a.len() ==> #[trigger] a[k].new_point_ids == b[k].new_point_ids,
    ensures
        owned_point_ids(a) == owned_point_ids(b),
    decreases a.len(),
{
    if a.len() > 0 {
        assert forall|k: int| 0 <= k < a.drop_first().len() implies #[trigger] a.drop_first()[k].new_point_ids
            == b.drop_first()[k].new_point_ids by {
            assert(a.drop_first()[k] == a[k + 1]);
            assert(b.drop_first()[k] == b[k + 1]);
        }
        lemma_owned_depends_on_new_points(a.drop_first(), b.drop_first());
        assert(a[0].new_point_ids == b[0].new_point_ids);
    }
}

proof fn lemma_owned_ignores_observations<P, O>(frames: Seq<FrameView<P, O>>, ids: Set<usize>)
    ensures
        owned_point_ids(frames.map_values(|f: FrameView<P, O>| forget_points(f, ids)))
            == owned_point_ids(frames),
    decreases frames.len(),
{
    let cleaned = frames.map_values(|f: FrameView<P, O>| forget_points(f, ids));
    if frames.len() > 0 {
        assert(cleaned.drop_first() =~= frames.drop_first().map_values(
            |f: FrameView<P, O>| forget_points(f, ids),
        ));
        lemma_owned_ignores_observations(frames.drop_first(), ids);
    }
}

/// Splitting a sequence by a predicate loses and adds nothing.
proof fn lemma_filter_partition(
    ids: Seq<usize>,
    pred: spec_fn(usize) -> bool,
    neg: spec_fn(usize) -> bool,
)
    requires
        forall|id: usize| #[trigger] neg(id) == !pred(id),
    ensures
        ids.filter(pred).to_multiset().add(ids.filter(neg).to_multiset()) =~= ids.to_multiset(),
    decreases ids.len(),
{
    reveal_with_fuel(Seq::filter, 1);
    if ids.len() > 0 {
        let rest = ids.drop_last();
        lemma_filter_partition(rest, pred, neg);
        assert(rest.push(ids.last()) =~= ids);
        assert(ids.drop_last() == rest);
        let x = ids.last();
        if pred(x) {
            assert(!neg(x));
        } else {
            assert(neg(x));
        }
    } else {
        assert(ids.filter(pred) =~= Seq::<usize>::empty());
        assert(ids.filter(neg) =~= Seq::<usize>::empty());
    }
}

/// Capacity: a window that holds at most `max_size > 0` keyframes still does
/// after a keyframe is added; it grows by one until it is full and then
/// stays full.
pub proof fn lemma_add_keyframe_respects_capacity<P, O>(
    w: WindowView<P, O>,
    frame: FrameView<P, O>,
)
    requires
        w.frames.len() <= w.max_size,
        w.max_size > 0,
    ensures
        spec_add_keyframe(w, frame).0.max_size == w.max_size,
        spec_add_keyframe(w, frame).0.frames.len() == if w.frames.len() == w.max_size {
            w.max_size as int
        } else {
            w.frames.len() + 1int
        },
        spec_add_keyframe(w, frame).0.frames.len() <= w.max_size,
{
}

/// The same, for a window of any capacity: the capacity is kept, and a
/// window within a nonzero capacity grows by one until it is full.
pub proof fn lemma_add_keyframe_respects_capacity_any<P, O>(
    w: WindowView<P, O>,
    frame: FrameView<P, O>,
)
    ensures
        spec_add_keyframe(w, frame).0.max_size == w.max_size,
        w.max_size >= 1 && w.frames.len() <= w.max_size ==> spec_add_keyframe(w, frame).0.frames.len()
            == if w.frames.len() == w.max_size {
            w.max_size as int
        } else {
            w.frames.len() + 1int
        },
{
}

/// Marginalization follows the observations of the keyframe that becomes
/// the oldest (`heir`): a landmark of the marginalized keyframe is returned
/// as removed exactly when the heir misses it in its left or in its right
/// image; every other one is handed over to the heir, which still observes
/// it in both images; and no keyframe left in the window observes a removed
/// landmark.
pub proof fn lemma_marginalization_follows_observations<P, O>(
    w: WindowView<P, O>,
    frame: FrameView<P, O>,
)
    requires
        marginalizes(w),
    ensures
        ({
            let (after, marg) = spec_add_keyframe(w, frame);
            let owner = w.frames[0];
            let heir = next_oldest(w, frame);
            &&& marg is Some
            &&& marg.unwrap().0 == owner.pose
            &&& forall|id: usize|
                #[trigger] marg.unwrap().1.contains(id) <==> (owner.new_point_ids.contains(id) && !(
                heir.cam0.contains_key(id) && heir.cam1.contains_key(id)))
            &&& forall|id: usize|
                owner.new_point_ids.contains(id) && #[trigger] heir.cam0.contains_key(id)
                    && heir.cam1.contains_key(id) ==> {
                    &&& after.frames[0].new_point_ids.contains(id)
                    &&& after.frames[0].cam0.contains_key(id)
                    &&& after.frames[0].cam1.contains_key(id)
                }
            &&& forall|id: usize, k: int|
                #![trigger marg.unwrap().1.contains(id), after.frames[k]]
                marg.unwrap().1.contains(id) && 0 <= k < after.frames.len() ==> {
                    &&& !after.frames[k].cam0.contains_key(id)
                    &&& !after.frames[k].cam1.contains_key(id)
                }
        }),
{
    broadcast use vstd::seq_lib::group_filter_ensures;

    let (after, marg) = spec_add_keyframe(w, frame);
    let owner = w.frames[0];
    let shifted = shifted_frames(w, frame);
    let heir = next_oldest(w, frame);
    assert(shifted[0] == heir);
    let removed = removed_point_ids(owner.new_point_ids, shifted[0]);
    let kept = kept_point_ids(owner.new_point_ids, shifted[0]);
    let pred = |id: usize| !observed_in_both(shifted[0], id);
    let keep = |id: usize| observed_in_both(shifted[0], id);
    assert forall|id: usize| #[trigger] removed.contains(id) <==> (owner.new_point_ids.contains(
        id,
    ) && !(heir.cam0.contains_key(id) && heir.cam1.contains_key(id))) by {
        if removed.contains(id) {
            owner.new_point_ids.lemma_filter_contains_rev(pred, id);
            let j = choose|j: int| 0 <= j < removed.len() && removed[j] == id;
        }
        if owner.new_point_ids.contains(id) && !(heir.cam0.contains_key(id)
            && heir.cam1.contains_key(id)) {
            let j = choose|j: int| 0 <= j < owner.new_point_ids.len() && owner.new_point_ids[j] == id;
        }
    }
    assert forall|id: usize|
        owner.new_point_ids.contains(id) && #[trigger] heir.cam0.contains_key(id)
            && heir.cam1.contains_key(id) implies {
        &&& after.frames[0].new_point_ids.contains(id)
        &&& after.frames[0].cam0.contains_key(id)
        &&& after.frames[0].cam1.contains_key(id)
    } by {
        let j = choose|j: int| 0 <= j < owner.new_point_ids.len() && owner.new_point_ids[j] == id;
        assert(kept.contains(id));
        let i = choose|i: int| 0 <= i < kept.len() && kept[i] == id;
        let nps = after.frames[0].new_point_ids;
        assert(nps == shifted[0].new_point_ids + kept);
        assert(nps[shifted[0].new_point_ids.len() + i] == id);
        assert(!removed.contains(id));
        assert(!removed.to_set().contains(id));
    }
    assert forall|id: usize, k: int|
        #![trigger removed.contains(id), after.frames[k]]
        removed.contains(id) && 0 <= k < after.frames.len() implies {
        &&& !after.frames[k].cam0.contains_key(id)
        &&& !after.frames[k].cam1.contains_key(id)
    } by {
        assert(removed.to_set().contains(id));
    }
}

/// A keyframe is marginalized exactly when the window was full (and not of
/// capacity zero).
pub proof fn lemma_marginalizes_iff_full<P, O>(w: WindowView<P, O>, frame: FrameView<P, O>)
    ensures
        spec_add_keyframe(w, frame).1 is Some <==> (w.frames.len() == w.max_size && w.max_size
            > 0),
        spec_add_keyframe(w, frame).1 is Some ==> spec_add_keyframe(w, frame).1.unwrap().0
            == w.frames[0].pose,
{
}

/// The keyframe just added is the newest one: `last_keyframe_t_cam0_w`
/// returns its pose after `add_keyframe`.
pub proof fn lemma_added_keyframe_is_newest<P, O>(
    w: WindowView<P, O>,
    frame: FrameView<P, O>,
    identity: P,
)
    ensures
        spec_last_pose(spec_add_keyframe(w, frame).0, identity) == frame.pose,
        spec_add_keyframe(w, frame).0.frames.last().new_point_ids == frame.new_point_ids
            || (marginalizes(w) && w.max_size == 1),
{
}

/// Adding a keyframe keeps the poses in order: the marginalized pose leaves
/// at the front and the new pose enters at the back.
pub proof fn lemma_add_keyframe_poses<P, O>(w: WindowView<P, O>, frame: FrameView<P, O>)
    ensures
        poses(spec_add_keyframe(w, frame).0.frames) == if marginalizes(w) {
            poses(w.frames).drop_first().push(frame.pose)
        } else {
            poses(w.frames).push(frame.pose)
        },
{
    let r = spec_add_keyframe(w, frame).0.frames;
    let expected = if marginalizes(w) {
        poses(w.frames).drop_first().push(frame.pose)
    } else {
        poses(w.frames).push(frame.pose)
    };
    assert(poses(r) =~= expected);
}

/// Dropped landmarks are forgotten: no keyframe left in the window observes
/// any of the ids that `add_keyframe` returns, in either camera.
pub proof fn lemma_dropped_landmarks_forgotten<P, O>(
    w: WindowView<P, O>,
    frame: FrameView<P, O>,
    k: int,
    id: usize,
)
    requires
        spec_add_keyframe(w, frame).1 is Some,
        spec_add_keyframe(w, frame).1.unwrap().1.contains(id),
        0 <= k < spec_add_keyframe(w, frame).0.frames.len(),
    ensures
        !spec_add_keyframe(w, frame).0.frames[k].cam0.contains_key(id),
        !spec_add_keyframe(w, frame).0.frames[k].cam1.contains_key(id),
{
}

/// Surviving landmarks are handed over to the new oldest keyframe, which
/// observes each of them in both cameras.
pub proof fn lemma_kept_landmarks_handed_over<P, O>(w: WindowView<P, O>, frame: FrameView<P, O>)
    requires
        marginalizes(w),
    ensures
        ({
            let shifted = shifted_frames(w, frame);
            let kept = kept_point_ids(w.frames[0].new_point_ids, shifted[0]);
            let oldest = spec_add_keyframe(w, frame).0.frames[0];
            &&& oldest.new_point_ids == shifted[0].new_point_ids + kept
            &&& forall|i: int| 0 <= i < kept.len() ==> observed_in_both(oldest, #[trigger] kept[i])
        }),
{
    broadcast use vstd::seq_lib::group_filter_ensures;

    let shifted = shifted_frames(w, frame);
    let marg = w.frames[0];
    let kept = kept_point_ids(marg.new_point_ids, shifted[0]);
    let removed = removed_point_ids(marg.new_point_ids, shifted[0]);
    let oldest = spec_add_keyframe(w, frame).0.frames[0];
    assert forall|i: int| 0 <= i < kept.len() implies observed_in_both(oldest, #[trigger] kept[i]) by {
        let id = kept[i];
        assert(observed_in_both(shifted[0], id));
        if removed.to_set().contains(id) {
            let j = choose|j: int| 0 <= j < removed.len() && removed[j] == id;
            assert(!observed_in_both(shifted[0], removed[j]));
        }
    }
}

/// No landmark is lost: the ids owned by the window afterwards, together with
/// the ids returned as dropped, are exactly the ids owned before together
/// with those of the added keyframe.
pub proof fn lemma_add_keyframe_conserves_landmarks<P, O>(
    w: WindowView<P, O>,
    frame: FrameView<P, O>,
)
    ensures
        ({
            let (after, marg) = spec_add_keyframe(w, frame);
            let dropped = match marg {
                Some((_, ids)) => ids,
                None => Seq::empty(),
            };
            owned_point_ids(after.frames).to_multiset().add(dropped.to_multiset())
                == owned_point_ids(w.frames).to_multiset().add(frame.new_point_ids.to_multiset())
        }),
{
    broadcast use vstd::seq_lib::lemma_multiset_commutative;

    let shifted = shifted_frames(w, frame);
    let (after, marg) = spec_add_keyframe(w, frame);
    if marginalizes(w) {
        let m = w.frames[0];
        let pred = |id: usize| observed_in_both(shifted[0], id);
        let neg = |id: usize| !observed_in_both(shifted[0], id);
        let kept = kept_point_ids(m.new_point_ids, shifted[0]);
        let removed = removed_point_ids(m.new_point_ids, shifted[0]);
        lemma_filter_partition(m.new_point_ids, pred, neg);
        assert(m.new_point_ids.filter(pred) == kept);
        assert(m.new_point_ids.filter(neg) == removed);
        let cleaned = shifted.map_values(|f: FrameView<P, O>| forget_points(f, removed.to_set()));
        lemma_owned_ignores_observations(shifted, removed.to_set());
        // owned(after) = shifted[0].ids + kept + owned(shifted.drop_first())
        assert(after.frames.drop_first() =~= cleaned.drop_first());
        assert(owned_point_ids(after.frames) == after.frames[0].new_point_ids + owned_point_ids(
            after.frames.drop_first(),
        ));
        assert(owned_point_ids(cleaned) == cleaned[0].new_point_ids + owned_point_ids(
            cleaned.drop_first(),
        ));
        lemma_owned_push(w.frames.drop_first(), frame);
        assert(owned_point_ids(w.frames) == m.new_point_ids + owned_point_ids(
            w.frames.drop_first(),
        ));
        let a = shifted[0].new_point_ids;
        let rest = owned_point_ids(cleaned.drop_first());
        assert(owned_point_ids(after.frames) == (a + kept) + rest);
        assert(owned_point_ids(shifted) == a + rest);
        assert((a + kept + rest).to_multiset() =~= a.to_multiset().add(kept.to_multiset()).add(
            rest.to_multiset(),
        ));
        assert((a + rest).to_multiset() =~= a.to_multiset().add(rest.to_multiset()));
        let wd = owned_point_ids(w.frames.drop_first());
        assert((wd + frame.new_point_ids).to_multiset() =~= wd.to_multiset().add(
            frame.new_point_ids.to_multiset(),
        ));
        assert((m.new_point_ids + wd).to_multiset() =~= m.new_point_ids.to_multiset().add(
            wd.to_multiset(),
        ));
        assert(marg == Some((m.pose, removed)));
        assert(shifted == w.frames.drop_first().push(frame));
        assert(owned_point_ids(shifted) == wd + frame.new_point_ids);
        assert(a + rest == wd + frame.new_point_ids);
        assert(a.to_multiset().add(rest.to_multiset()) == wd.to_multiset().add(
            frame.new_point_ids.to_multiset(),
        ));
        assert(kept.to_multiset().add(removed.to_multiset()) == m.new_point_ids.to_multiset());
        assert(owned_point_ids(after.frames).to_multiset() == a.to_multiset().add(
            kept.to_multiset(),
        ).add(rest.to_multiset()));
        assert(owned_point_ids(w.frames).to_multiset() == m.new_point_ids.to_multiset().add(
            wd.to_multiset(),
        ));
        let lhs = owned_point_ids(after.frames).to_multiset().add(removed.to_multiset());
        let rhs = owned_point_ids(w.frames).to_multiset().add(frame.new_point_ids.to_multiset());
        assert forall|v: usize| lhs.count(v) == rhs.count(v) by {
            assert(a.to_multiset().add(rest.to_multiset()).count(v) == wd.to_multiset().add(
                frame.new_point_ids.to_multiset(),
            ).count(v));
            assert(kept.to_multiset().add(removed.to_multiset()).count(v)
                == m.new_point_ids.to_multiset().count(v));
            assert(a.to_multiset().count(v) + rest.to_multiset().count(v) == wd.to_multiset().count(
                v,
            ) + frame.new_point_ids.to_multiset().count(v));
            assert(kept.to_multiset().count(v) + removed.to_multiset().count(v)
                == m.new_point_ids.to_multiset().count(v));
        }
        assert(lhs =~= rhs);
    } else {
        lemma_owned_push(w.frames, frame);
        assert(marg is None);
        assert(after.frames == w.frames.push(frame));
        assert(Seq::<usize>::empty().to_multiset() =~= Multiset::empty());
        let o = owned_point_ids(w.frames);
        assert((o + frame.new_point_ids).to_multiset() =~= o.to_multiset().add(
            frame.new_point_ids.to_multiset(),
        ));
        assert(owned_point_ids(after.frames).to_multiset().add(Seq::<usize>::empty().to_multiset())
            =~= o.to_multiset().add(frame.new_point_ids.to_multiset()));
    }
}

/// Dropped landmarks come from the marginalized keyframe: each id is
/// returned at most as often as that keyframe owned it.
pub proof fn lemma_dropped_landmarks_were_owned<P, O>(w: WindowView<P, O>, frame: FrameView<P, O>)
    requires
        spec_add_keyframe(w, frame).1 is Some,
    ensures
        spec_add_keyframe(w, frame).1.unwrap().1.to_multiset().subset_of(
            w.frames[0].new_point_ids.to_multiset(),
        ),
        spec_add_keyframe(w, frame).1.unwrap().1.to_multiset().subset_of(
            owned_point_ids(w.frames).to_multiset(),
        ),
{
    broadcast use vstd::seq_lib::lemma_multiset_commutative;

    let shifted = shifted_frames(w, frame);
    let m = w.frames[0];
    let pred = |id: usize| observed_in_both(shifted[0], id);
    let neg = |id: usize| !observed_in_both(shifted[0], id);
    let kept = kept_point_ids(m.new_point_ids, shifted[0]);
    let removed = removed_point_ids(m.new_point_ids, shifted[0]);
    lemma_filter_partition(m.new_point_ids, pred, neg);
    assert(m.new_point_ids.filter(pred) == kept);
    assert(m.new_point_ids.filter(neg) == removed);
    let wd = owned_point_ids(w.frames.drop_first());
    assert(owned_point_ids(w.frames) == m.new_point_ids + wd);
    assert((m.new_point_ids + wd).to_multiset() =~= m.new_point_ids.to_multiset().add(
        wd.to_multiset(),
    ));
    assert forall|v: usize| removed.to_multiset().count(v) <= m.new_point_ids.to_multiset().count(
        v,
    ) by {
        assert(kept.to_multiset().add(removed.to_multiset()).count(v)
            == m.new_point_ids.to_multiset().count(v));
    }
    assert forall|v: usize| removed.to_multiset().count(v) <= owned_point_ids(
        w.frames,
    ).to_multiset().count(v) by {
        assert(kept.to_multiset().add(removed.to_multiset()).count(v)
            == m.new_point_ids.to_multiset().count(v));
        assert(m.new_point_ids.to_multiset().add(wd.to_multiset()).count(v) == owned_point_ids(
            w.frames,
        ).to_multiset().count(v));
    }
}

} // verus!
