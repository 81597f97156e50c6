use crate::frame::{Frame, FrameView};
use std::collections::VecDeque;
use vstd::prelude::*;

verus! {

broadcast use vstd::std_specs::hash::group_hash_axioms, vstd::std_specs::vecdeque::group_vec_dequeue_axioms;

/// The abstract content of a sliding window: its capacity and its keyframes,
/// oldest first.
pub struct WindowView<P, O> {
    pub max_size: usize,
    pub frames: Seq<FrameView<P, O>>,
}

/// Is feature `id` observed by keyframe `f` in both cameras?
pub open spec fn observed_in_both<P, O>(f: FrameView<P, O>, id: usize) -> bool {
    f.cam0.contains_key(id) && f.cam1.contains_key(id)
}

/// The landmarks of a marginalized keyframe that survive: those that the new
/// oldest keyframe observes in both cameras, in the order of `ids`.
pub open spec fn kept_point_ids<P, O>(ids: Seq<usize>, oldest: FrameView<P, O>) -> Seq<usize> {
    ids.filter(|id: usize| observed_in_both(oldest, id))
}

/// The landmarks of a marginalized keyframe that are dropped: those that the
/// new oldest keyframe does not observe in both cameras, in the order of `ids`.
pub open spec fn removed_point_ids<P, O>(ids: Seq<usize>, oldest: FrameView<P, O>) -> Seq<usize> {
    ids.filter(|id: usize| !observed_in_both(oldest, id))
}

/// A keyframe with every observation of the given features erased.
pub open spec fn forget_points<P, O>(f: FrameView<P, O>, ids: Set<usize>) -> FrameView<P, O> {
    FrameView {
        pose: f.pose,
        cam0: f.cam0.remove_keys(ids),
        cam1: f.cam1.remove_keys(ids),
        new_point_ids: f.new_point_ids,
    }
}

/// Does adding one more keyframe to `w` marginalize its oldest keyframe?
pub open spec fn marginalizes<P, O>(w: WindowView<P, O>) -> bool {
    w.frames.len() == w.max_size && w.frames.len() > 0
}

/// The window after `frame` was pushed and, when the window was full, its
/// oldest keyframe was popped (before the marginalized landmarks are handled).
pub open spec fn shifted_frames<P, O>(w: WindowView<P, O>, frame: FrameView<P, O>) -> Seq<
    FrameView<P, O>,
> {
    if marginalizes(w) {
        w.frames.drop_first().push(frame)
    } else {
        w.frames.push(frame)
    }
}

/// The result of adding `frame` to `w`: the new window and, when a keyframe
/// was marginalized, its pose and the ids of the landmarks that were dropped.
pub open spec fn spec_add_keyframe<P, O>(w: WindowView<P, O>, frame: FrameView<P, O>) -> (
    WindowView<P, O>,
    Option<(P, Seq<usize>)>,
) {
    let shifted = shifted_frames(w, frame);
    if marginalizes(w) {
        let marg = w.frames[0];
        let removed = removed_point_ids(marg.new_point_ids, shifted[0]);
        let kept = kept_point_ids(marg.new_point_ids, shifted[0]);
        let cleaned = shifted.map_values(|f: FrameView<P, O>| forget_points(f, removed.to_set()));
        let oldest = FrameView {
            pose: cleaned[0].pose,
            cam0: cleaned[0].cam0,
            cam1: cleaned[0].cam1,
            new_point_ids: cleaned[0].new_point_ids + kept,
        };
        (
            WindowView { max_size: w.max_size, frames: cleaned.update(0, oldest) },
            Some((marg.pose, removed)),
        )
    } else {
        (WindowView { max_size: w.max_size, frames: shifted }, None)
    }
}

/// The keyframe that becomes the oldest when `frame` is added to a full
/// window `w`: the second oldest, or `frame` itself in a window of one.
pub open spec fn next_oldest<P, O>(w: WindowView<P, O>, frame: FrameView<P, O>) -> FrameView<P, O> {
    if w.frames.len() > 1 {
        w.frames[1]
    } else {
        frame
    }
}

/// The pose of the newest keyframe of `w`, or `identity` when `w` is empty.
pub open spec fn spec_last_pose<P, O>(w: WindowView<P, O>, identity: P) -> P {
    if w.frames.len() == 0 {
        identity
    } else {
        w.frames.last().pose
    }
}

/// The abstract value of what `add_keyframe` returns.
pub open spec fn marginalized_view<P>(r: Option<(P, Vec<usize>)>) -> Option<(P, Seq<usize>)> {
    match r {
        Some((p, ids)) => Some((p, ids@)),
        None => None,
    }
}

/// Maintains a fixed-size queue of keyframes for local bundle adjustment.
pub struct KeyframeSlidingWindow<P, O> {
    pub max_size: usize,
    pub keyframes: VecDeque<Frame<P, O>>,
}

impl<P, O> View for KeyframeSlidingWindow<P, O> {
    type V = WindowView<P, O>;

    open spec fn view(&self) -> WindowView<P, O> {
        WindowView {
            max_size: self.max_size,
            frames: self.keyframes@.map_values(|f: Frame<P, O>| f@),
        }
    }
}

/// Erases every observation of the features in `ids` from `frame`.
fn forget_points_in<P, O>(frame: &mut Frame<P, O>, ids: &Vec<usize>)
    ensures
        final(frame)@ == forget_points(old(frame)@, ids@.to_set()),
{
    let ghost start = frame@;
    let n = ids.len();
    for k in 0..n
        invariant
            n == ids@.len(),
            frame@.pose == start.pose,
            frame@.new_point_ids == start.new_point_ids,
            frame@.cam0 == start.cam0.remove_keys(ids@.take(k as int).to_set()),
            frame@.cam1 == start.cam1.remove_keys(ids@.take(k as int).to_set()),
    {
        let id = ids[k];
        frame.cam0_observations.remove(&id);
        frame.cam1_observations.remove(&id);
        proof {
            let before = ids@.take(k as int).to_set();
            let after = ids@.take(k + 1).to_set();
            assert(ids@.take(k + 1) == ids@.take(k as int).push(id));
            ids@.take(k as int).lemma_push_to_set_commute(id);
            assert(after =~= before.insert(id));
            assert(frame@.cam0 =~= start.cam0.remove_keys(after));
            assert(frame@.cam1 =~= start.cam1.remove_keys(after));
        }
    }
    assert(ids@.take(n as int) == ids@);
}

impl<P, O> KeyframeSlidingWindow<P, O> {
    /// Creates an empty sliding window with the requested maximum number of keyframes.
    pub fn new(max_size: usize) -> (window: Self)
        ensures
            window@ == (WindowView::<P, O> { max_size, frames: Seq::empty() }),
    {
        let window = KeyframeSlidingWindow { max_size, keyframes: VecDeque::with_capacity(max_size) };
        assert(window@.frames =~= Seq::<FrameView<P, O>>::empty());
        window
    }

    /// Returns whether the sliding window has reached its configured capacity.
    pub fn is_full(&self) -> (full: bool)
        ensures
            full == (self@.frames.len() == self.max_size),
    {
        self.keyframes.len() == self.max_size
    }

    /// Adds a keyframe and, when the window is full, returns the marginalized pose and removed landmark IDs.
    ///
    /// When the window already holds `max_size` keyframes, the oldest one is
    /// popped. Each landmark it owned survives when the new oldest keyframe
    /// observes it in both cameras, and is handed over to that keyframe;
    /// every other one is erased from the observations of all keyframes and
    /// returned.
    pub fn add_keyframe(&mut self, frame: Frame<P, O>) -> (result: Option<(P, Vec<usize>)>)
        ensures
            final(self)@ == spec_add_keyframe(old(self)@, frame@).0,
            marginalized_view(result) == spec_add_keyframe(old(self)@, frame@).1,
            result is Some <==> (old(self)@.frames.len() == old(self)@.max_size
                && old(self)@.max_size > 0),
            result is Some ==> {
                let (pose, removed) = result.unwrap();
                let owner = old(self)@.frames[0];
                let heir = next_oldest(old(self)@, frame@);
                &&& pose == owner.pose
                &&& forall|id: usize|
                    #[trigger] removed@.contains(id) <==> (owner.new_point_ids.contains(id) && !(
                    heir.cam0.contains_key(id) && heir.cam1.contains_key(id)))
                &&& forall|id: usize|
                    owner.new_point_ids.contains(id) && #[trigger] heir.cam0.contains_key(id)
                        && heir.cam1.contains_key(id) ==> {
                        &&& final(self)@.frames[0].new_point_ids.contains(id)
                        &&& final(self)@.frames[0].cam0.contains_key(id)
                        &&& final(self)@.frames[0].cam1.contains_key(id)
                    }
                &&& forall|id: usize, k: int|
                    #![trigger removed@.contains(id), final(self)@.frames[k]]
                    removed@.contains(id) && 0 <= k < final(self)@.frames.len() ==> {
                        &&& !final(self)@.frames[k].cam0.contains_key(id)
                        &&& !final(self)@.frames[k].cam1.contains_key(id)
                    }
            },
    {
        let ghost w = self@;
        let ghost fv = frame@;
        let marg_keyframe = if self.keyframes.len() == self.max_size {
            self.keyframes.pop_front()
        } else {
            None
        };
        self.keyframes.push_back(frame);
        let ghost shifted = shifted_frames(w, fv);
        assert(self@.frames =~= shifted);
        match marg_keyframe {
            None => {
                None
            },
            Some(marg_kf) => {
                let Frame { t_cam0_w, new_point_ids, .. } = marg_kf;
                let ghost oldest = shifted[0];
                // Split the landmarks of the marginalized keyframe.
                let mut kept: Vec<usize> = Vec::new();
                let mut removed: Vec<usize> = Vec::new();
                let n = new_point_ids.len();
                for i in 0..n
                    invariant
                        n == new_point_ids@.len(),
                        new_point_ids@ == w.frames[0].new_point_ids,
                        self@.frames == shifted,
                        shifted.len() > 0,
                        oldest == shifted[0],
                        kept@ == kept_point_ids(new_point_ids@.take(i as int), oldest),
                        removed@ == removed_point_ids(new_point_ids@.take(i as int), oldest),
                {
                    let id = new_point_ids[i];
                    proof {
                        reveal_with_fuel(Seq::filter, 1);
                        assert(new_point_ids@.take(i + 1).drop_last() =~= new_point_ids@.take(
                            i as int,
                        ));
                    }
                    if self.keyframes[0].cam0_observations.contains_key(&id)
                        && self.keyframes[0].cam1_observations.contains_key(&id) {
                        kept.push(id);
                    } else {
                        removed.push(id);
                    }
                }
                assert(new_point_ids@.take(n as int) =~= new_point_ids@);
                // Erase the dropped landmarks from every keyframe.
                let ghost removed_set = removed@.to_set();
                let ghost cleaned = shifted.map_values(
                    |f: FrameView<P, O>| forget_points(f, removed_set),
                );
                let len = self.keyframes.len();
                let mut processed: VecDeque<Frame<P, O>> = VecDeque::new();
                for j in 0..len
                    invariant
                        len == shifted.len(),
                        removed_set == removed@.to_set(),
                        cleaned == shifted.map_values(
                            |f: FrameView<P, O>| forget_points(f, removed_set),
                        ),
                        self.keyframes@.len() == len - j,
                        forall|k: int|
                            0 <= k < len - j ==> #[trigger] self.keyframes@[k]@ == shifted[j + k],
                        processed@.len() == j,
                        forall|k: int| 0 <= k < j ==> #[trigger] processed@[k]@ == cleaned[k],
                        self.max_size == w.max_size,
                {
                    let ghost before = self.keyframes@;
                    let mut f = self.keyframes.pop_front().unwrap();
                    assert(f@ == shifted[j as int]);
                    forget_points_in(&mut f, &removed);
                    processed.push_back(f);
                    assert forall|k: int| 0 <= k < len - (j + 1) implies #[trigger] self.keyframes@[k]@
                        == shifted[(j + 1) + k] by {
                        assert(self.keyframes@[k] == before[k + 1]);
                    }
                }
                self.keyframes = processed;
                assert(self@.frames =~= cleaned);
                // Hand the surviving landmarks over to the new oldest keyframe.
                let mut first = self.keyframes.pop_front().unwrap();
                first.new_point_ids.append(&mut kept);
                self.keyframes.push_front(first);
                let ghost expected = spec_add_keyframe(w, fv);
                assert(self@.frames =~= expected.0.frames);
                proof {
                    crate::window_laws::lemma_marginalization_follows_observations(w, fv);
                    assert(expected.1.unwrap().1 == removed@);
                    assert(expected.1.unwrap().0 == t_cam0_w);
                    assert(self@ == expected.0);
                }
                Some((t_cam0_w, removed))
            },
        }
    }
}

impl<P: Copy, O> KeyframeSlidingWindow<P, O> {
    /// Returns the pose of the newest keyframe, or `identity` if the window is empty.
    pub fn last_keyframe_t_cam0_w(&self, identity: P) -> (pose: P)
        ensures
            pose == spec_last_pose(self@, identity),
    {
        let n = self.keyframes.len();
        if n == 0 {
            identity
        } else {
            self.keyframes[n - 1].t_cam0_w
        }
    }
}

} // verus!
