//! The structure of the local bundle adjustment: which landmarks and
//! observations of the keyframe window take part in it, and how its
//! solution is written back.
use crate::estimator::Camera;
use crate::frame::FrameView;
use crate::keyframe_sliding_window::KeyframeSlidingWindow;
use std::collections::HashMap;
use vstd::prelude::*;
use vstd::std_specs::iter::IteratorSpec;

verus! {

broadcast use vstd::std_specs::hash::group_hash_axioms, vstd::std_specs::vecdeque::group_vec_dequeue_axioms;

/// The feature ids of a map, each once, in the map's iteration order.
pub fn feature_ids<V>(m: &HashMap<usize, V>) -> (ids: Vec<usize>)
    ensures
        ids@.to_set() == m@.dom(),
        ids@.no_duplicates(),
{
    let mut ids: Vec<usize> = Vec::new();
    let ghost s = vstd::std_specs::hash::spec_keys_iter(m).remaining();
    for id in it: m.keys()
        invariant
            it.seq() == s,
            ids@.len() == it.index(),
            forall|i: int| 0 <= i < ids@.len() ==> ids@[i] == *s[i],
    {
        ids.push(*id);
    }
    assert(ids@.len() == s.len());
    assert(ids@ =~= s.unref());
    ids
}

proof fn lemma_take_one_more(s: Seq<usize>, k: int)
    requires
        0 <= k < s.len(),
    ensures
        forall|x: usize| #[trigger] s.take(k + 1).contains(x) == (s.take(k).contains(x) || x == s[k]),
{
    let a = s.take(k);
    let b = s.take(k + 1);
    assert forall|x: usize| #[trigger] b.contains(x) == (a.contains(x) || x == s[k]) by {
        if b.contains(x) && x != s[k] {
            let j = choose|j: int| 0 <= j < b.len() && b[j] == x;
            assert(a[j] == x);
        }
        if a.contains(x) {
            let j = choose|j: int| 0 <= j < a.len() && a[j] == x;
            assert(b[j] == x);
        }
        if x == s[k] {
            assert(b[k] == x);
        }
    }
}

/// The number of keyframes that observe feature `id` in the left image.
pub open spec fn observation_count<P, O>(frames: Seq<FrameView<P, O>>, id: usize) -> nat
    decreases frames.len(),
{
    if frames.len() == 0 {
        0
    } else {
        observation_count(frames.drop_last(), id) + if frames.last().cam0.contains_key(id) {
            1nat
        } else {
            0nat
        }
    }
}

/// The observation count of a feature is the number of keyframes whose left
/// image observes it.
pub proof fn lemma_observation_count_is_left_observers<P, O>(
    frames: Seq<FrameView<P, O>>,
    id: usize,
)
    ensures
        observation_count(frames, id) == left_observer_count(frames, id),
    decreases frames.len(),
{
    reveal(Seq::filter);
    if frames.len() > 0 {
        lemma_observation_count_is_left_observers(frames.drop_last(), id);
    }
}

proof fn lemma_observation_count_bounded<P, O>(frames: Seq<FrameView<P, O>>, id: usize)
    ensures
        observation_count(frames, id) <= frames.len(),
    decreases frames.len(),
{
    if frames.len() > 0 {
        lemma_observation_count_bounded(frames.drop_last(), id);
    }
}

proof fn lemma_observation_count_positive<P, O>(frames: Seq<FrameView<P, O>>, k: int, id: usize)
    requires
        0 <= k < frames.len(),
        frames[k].cam0.contains_key(id),
    ensures
        observation_count(frames, id) > 0,
    decreases frames.len(),
{
    if k < frames.len() - 1 {
        lemma_observation_count_positive(frames.drop_last(), k, id);
    }
}

/// Counts, for every feature, the keyframes that observe it in the left image.
fn count_observations_wide<P, O>(window: &KeyframeSlidingWindow<P, O>) -> (counts: HashMap<
    usize,
    usize,
>)
    ensures
        forall|id: usize| #[trigger]
            counts@.contains_key(id) == (observation_count(window@.frames, id) > 0),
        forall|id: usize| #[trigger]
            counts@.contains_key(id) ==> counts@[id] == observation_count(window@.frames, id),
{
    let ghost frames = window@.frames;
    let mut counts: HashMap<usize, usize> = HashMap::new();
    let n = window.keyframes.len();
    for i in 0..n
        invariant
            n == frames.len(),
            frames == window@.frames,
            forall|id: usize| #[trigger]
                counts@.contains_key(id) == (observation_count(frames.take(i as int), id) > 0),
            forall|id: usize| #[trigger]
                counts@.contains_key(id) ==> counts@[id] == observation_count(
                    frames.take(i as int),
                    id,
                ),
    {
        let frame = &window.keyframes[i];
        assert(frame@ == frames[i as int]);
        let ids = feature_ids(&frame.cam0_observations);
        let m = ids.len();
        let ghost prev = frames.take(i as int);
        let ghost next = frames.take(i + 1);
        proof {
            assert(next.drop_last() =~= prev);
            assert(next.last() == frames[i as int]);
        }
        for k in 0..m
            invariant
                m == ids@.len(),
                ids@.no_duplicates(),
                ids@.to_set() == frames[i as int].cam0.dom(),
                n == frames.len(),
                i < n,
                    prev == frames.take(i as int),
                prev.len() == i,
                forall|id: usize| #[trigger]
                    counts@.contains_key(id) == (observation_count(prev, id) + if ids@.take(
                        k as int,
                    ).contains(id) {
                        1nat
                    } else {
                        0nat
                    } > 0),
                forall|id: usize| #[trigger]
                    counts@.contains_key(id) ==> counts@[id] == observation_count(prev, id)
                        + if ids@.take(k as int).contains(id) {
                        1nat
                    } else {
                        0nat
                    },
        {
            let id = ids[k];
            proof {
                lemma_observation_count_bounded(prev, id);
                assert(ids@.take(k + 1) =~= ids@.take(k as int).push(id));
                assert(!ids@.take(k as int).contains(id)) by {
                    if ids@.take(k as int).contains(id) {
                        let j = choose|j: int| 0 <= j < k && ids@.take(k as int)[j] == id;
                        assert(ids@[j] == ids@[k as int]);
                    }
                }
            }
            let c: usize = match counts.get(&id) {
                Some(c) => *c,
                None => 0,
            };
            proof {
                assert(c == observation_count(prev, id));
            }
            counts.insert(id, c + 1);
            proof {
                lemma_take_one_more(ids@, k as int);
            }
        }
        proof {
            assert(ids@.take(m as int) =~= ids@);
            assert forall|id: usize| #[trigger] ids@.contains(id) == frames[i as int].cam0.contains_key(
                id,
            ) by {
                assert(ids@.to_set().contains(id) == ids@.contains(id));
            }
        }
    }
    assert(frames.take(n as int) =~= frames);
    counts
}

/// Are the observation counts of every feature small enough for a `u16`?
pub open spec fn observation_counts_fit<P, O>(frames: Seq<FrameView<P, O>>) -> bool {
    forall|id: usize| #[trigger] observation_count(frames, id) <= u16::MAX
}

/// Counts, for every feature, the keyframes that observe it in the left image.
pub fn count_observations<P, O>(window: &KeyframeSlidingWindow<P, O>) -> (counts: HashMap<
    usize,
    u16,
>)
    requires
        observation_counts_fit(window@.frames),
    ensures
        forall|id: usize| #[trigger]
            counts@.contains_key(id) == (observation_count(window@.frames, id) > 0),
        forall|id: usize| #[trigger]
            counts@.contains_key(id) ==> counts@[id] == observation_count(window@.frames, id),
        forall|id: usize| #[trigger]
            counts@.contains_key(id) ==> counts@[id] == window@.frames.filter(
                |f: FrameView<P, O>| f.cam0.contains_key(id),
            ).len(),
        forall|id: usize| #[trigger]
            counts@.contains_key(id) <==> (exists|k: int|
                0 <= k < window@.frames.len() && #[trigger] window@.frames[k].cam0.contains_key(id)),
{
    let ghost frames = window@.frames;
    let wide = count_observations_wide(window);
    let ids = feature_ids(&wide);
    let mut counts: HashMap<usize, u16> = HashMap::new();
    let n = ids.len();
    for k in 0..n
        invariant
            n == ids@.len(),
            ids@.to_set() == wide@.dom(),
            frames == window@.frames,
            observation_counts_fit(frames),
            forall|id: usize| #[trigger]
                wide@.contains_key(id) == (observation_count(frames, id) > 0),
            forall|id: usize| #[trigger]
                wide@.contains_key(id) ==> wide@[id] == observation_count(frames, id),
            forall|id: usize| #[trigger] counts@.contains_key(id) == ids@.take(k as int).contains(id),
            forall|id: usize| #[trigger] counts@.contains_key(id) ==> counts@[id] == wide@[id],
    {
        let id = ids[k];
        proof {
            lemma_take_one_more(ids@, k as int);
            assert(ids@.to_set().contains(id));
            assert(observation_count(frames, id) <= u16::MAX);
        }
        let c = *wide.get(&id).unwrap();
        counts.insert(id, c as u16);
    }
    proof {
        assert(ids@.take(n as int) =~= ids@);
        assert forall|id: usize| ids@.contains(id) == wide@.contains_key(id) by {
            assert(ids@.to_set().contains(id) == ids@.contains(id));
        }
        assert forall|id: usize| #[trigger] counts@.contains_key(id) implies counts@[id] == frames.filter(
            |f: FrameView<P, O>| f.cam0.contains_key(id),
        ).len() by {
            lemma_observation_count_is_left_observers(frames, id);
        }
        assert forall|id: usize| #[trigger] counts@.contains_key(id) <==> (exists|k: int|
            0 <= k < frames.len() && #[trigger] frames[k].cam0.contains_key(id)) by {
            if exists|k: int| 0 <= k < frames.len() && #[trigger] frames[k].cam0.contains_key(id) {
                let k = choose|k: int| 0 <= k < frames.len() && #[trigger] frames[k].cam0.contains_key(id);
                lemma_observation_count_positive(frames, k, id);
            }
            if counts@.contains_key(id) {
                lemma_observation_count_is_left_observers(frames, id);
                let f = frames.filter(|f: FrameView<P, O>| f.cam0.contains_key(id));
                assert(f.len() > 0);
                assert(f.contains(f[0]));
                frames.lemma_filter_contains_rev(|f: FrameView<P, O>| f.cam0.contains_key(id), f[0]);
                let k = choose|k: int| 0 <= k < frames.len() && frames[k] == f[0];
                assert(frames[k].cam0.contains_key(id)) by {
                    broadcast use vstd::seq_lib::group_filter_ensures;
                }
            }
        }
    }
    counts
}

/// A reprojection residual of the bundle adjustment: landmark `landmark`
/// seen from keyframe `frame` (its index in the window) in image `camera`.
#[derive(Clone, Copy, Debug, PartialEq, Eq, Structural)]
pub struct ResidualBlock {
    pub frame: usize,
    pub camera: Camera,
    pub landmark: usize,
}

/// Does the bundle adjustment of keyframes `frames` and landmarks
/// `landmarks` hold residual block `b`? It holds one for every observation,
/// in either image, of a landmark that at least two keyframes observe in the
/// left image.
pub open spec fn is_residual_block<P, O, L>(
    frames: Seq<FrameView<P, O>>,
    landmarks: Map<usize, L>,
    b: ResidualBlock,
) -> bool {
    &&& b.frame < frames.len()
    &&& match b.camera {
        Camera::Left => frames[b.frame as int].cam0.contains_key(b.landmark),
        Camera::Right => frames[b.frame as int].cam1.contains_key(b.landmark),
    }
    &&& observation_count(frames, b.landmark) > 1
    &&& landmarks.contains_key(b.landmark)
}

/// The position of an image in the order of residual blocks.
pub open spec fn camera_rank(c: Camera) -> int {
    match c {
        Camera::Left => 0,
        Camera::Right => 1,
    }
}

/// Blocks come keyframe by keyframe, the left image before the right one.
pub open spec fn block_before(a: ResidualBlock, b: ResidualBlock) -> bool {
    a.frame < b.frame || (a.frame == b.frame && camera_rank(a.camera) <= camera_rank(b.camera))
}

/// Every feature observed in a right image is observed in the left image of
/// some keyframe.
pub open spec fn right_observed_on_left<P, O>(frames: Seq<FrameView<P, O>>) -> bool {
    forall|k: int, id: usize|
        0 <= k < frames.len() && #[trigger] frames[k].cam1.contains_key(id) ==> observation_count(
            frames,
            id,
        ) > 0
}

/// The bundle adjustment is defined on a window in which every feature
/// observed in a right image is observed in the left image of some keyframe,
/// and no feature is observed in more than `u16::MAX` left images.
pub open spec fn bundle_adjustment_defined<P, O>(frames: Seq<FrameView<P, O>>) -> bool {
    &&& right_observed_on_left(frames)
    &&& observation_counts_fit(frames)
}

/// The number of keyframes that observe feature `id` in their left image.
pub open spec fn left_observer_count<P, O>(frames: Seq<FrameView<P, O>>, id: usize) -> nat {
    frames.filter(|f: FrameView<P, O>| f.cam0.contains_key(id)).len()
}

/// A feature has a positive observation count exactly when some keyframe
/// observes it in the left image.
pub proof fn lemma_observation_count_positive_iff<P, O>(frames: Seq<FrameView<P, O>>, id: usize)
    ensures
        observation_count(frames, id) > 0 <==> exists|k: int|
            0 <= k < frames.len() && #[trigger] frames[k].cam0.contains_key(id),
    decreases frames.len(),
{
    if exists|k: int| 0 <= k < frames.len() && #[trigger] frames[k].cam0.contains_key(id) {
        let k = choose|k: int| 0 <= k < frames.len() && #[trigger] frames[k].cam0.contains_key(id);
        lemma_observation_count_positive(frames, k, id);
    }
    if frames.len() > 0 && observation_count(frames, id) > 0 {
        let rest = frames.drop_last();
        if !frames.last().cam0.contains_key(id) {
            lemma_observation_count_positive_iff(rest, id);
            let k = choose|k: int| 0 <= k < rest.len() && #[trigger] rest[k].cam0.contains_key(id);
            assert(frames[k] == rest[k]);
        } else {
            assert(frames[frames.len() - 1].cam0.contains_key(id));
        }
    }
}

/// Checks whether the bundle adjustment is defined on this window.
pub fn is_bundle_adjustment_defined<P, O>(window: &KeyframeSlidingWindow<P, O>) -> (defined: bool)
    ensures
        defined == bundle_adjustment_defined(window@.frames),
        defined == ((forall|k: int, id: usize|
            0 <= k < window@.frames.len() && #[trigger] window@.frames[k].cam1.contains_key(id)
                ==> exists|j: int|
                0 <= j < window@.frames.len() && #[trigger] window@.frames[j].cam0.contains_key(id))
            && (forall|id: usize| #[trigger] left_observer_count(window@.frames, id) <= u16::MAX)),
{
    proof {
        let frames = window@.frames;
        assert forall|id: usize|
            #[trigger] observation_count(frames, id) == left_observer_count(frames, id) by {
            lemma_observation_count_is_left_observers(frames, id);
        }
        assert forall|id: usize|
            #[trigger] observation_count(frames, id) > 0 <==> exists|j: int|
                0 <= j < frames.len() && #[trigger] frames[j].cam0.contains_key(id) by {
            lemma_observation_count_positive_iff(frames, id);
        }
        assert(observation_counts_fit(frames) == (forall|id: usize|
            #[trigger] left_observer_count(frames, id) <= u16::MAX)) by {
            if observation_counts_fit(frames) {
                assert forall|id: usize| #[trigger] left_observer_count(frames, id) <= u16::MAX by {
                    assert(observation_count(frames, id) == left_observer_count(frames, id));
                }
            } else {
                let id = choose|id: usize| !(#[trigger] observation_count(frames, id) <= u16::MAX);
                assert(observation_count(frames, id) == left_observer_count(frames, id));
            }
        }
    }
    is_bundle_adjustment_defined_counted(window)
}

/// Checks whether the bundle adjustment is defined on this window.
fn is_bundle_adjustment_defined_counted<P, O>(window: &KeyframeSlidingWindow<P, O>) -> (defined: bool)
    ensures
        defined == bundle_adjustment_defined(window@.frames),
{
    let ghost frames = window@.frames;
    let n = window.keyframes.len();
    let counts = count_observations_wide(window);
    let counted = feature_ids(&counts);
    let c = counted.len();
    for k in 0..c
        invariant
            c == counted@.len(),
            frames == window@.frames,
            counted@.to_set() == counts@.dom(),
            forall|id: usize| #[trigger]
                counts@.contains_key(id) ==> counts@[id] == observation_count(frames, id),
            forall|j: int| 0 <= j < k ==> observation_count(frames, #[trigger] counted@[j]) <= u16::MAX,
    {
        let id = counted[k];
        assert(counted@.to_set().contains(id));
        if *counts.get(&id).unwrap() > 65535 {
            assert(observation_count(frames, id) > u16::MAX);
            assert(!observation_counts_fit(frames));
            return false;
        }
    }
    proof {
        assert forall|id: usize| #[trigger] observation_count(frames, id) <= u16::MAX by {
            if counts@.contains_key(id) {
                assert(counted@.to_set().contains(id));
                let j = choose|j: int| 0 <= j < counted@.len() && counted@[j] == id;
            }
        }
    }
    for i in 0..n
        invariant
            n == frames.len(),
            frames == window@.frames,
            observation_counts_fit(frames),
            forall|id: usize| #[trigger]
                counts@.contains_key(id) == (observation_count(frames, id) > 0),
            forall|k: int, id: usize|
                0 <= k < i && #[trigger] frames[k].cam1.contains_key(id) ==> observation_count(
                    frames,
                    id,
                ) > 0,
    {
        let frame = &window.keyframes[i];
        assert(frame@ == frames[i as int]);
        let ids = feature_ids(&frame.cam1_observations);
        let m = ids.len();
        for k in 0..m
            invariant
                m == ids@.len(),
                i < n,
                n == frames.len(),
                frames == window@.frames,
                ids@.to_set() == frames[i as int].cam1.dom(),
                forall|id: usize| #[trigger]
                    counts@.contains_key(id) == (observation_count(frames, id) > 0),
                forall|j: int| 0 <= j < k ==> observation_count(frames, #[trigger] ids@[j]) > 0,
        {
            let id = ids[k];
            if !counts.contains_key(&id) {
                proof {
                    assert(ids@.to_set().contains(id));
                    assert(frames[i as int].cam1.contains_key(id));
                }
                return false;
            }
        }
        proof {
            assert forall|id: usize| #[trigger] frames[i as int].cam1.contains_key(id) implies observation_count(
                frames,
                id,
            ) > 0 by {
                assert(ids@.to_set().contains(id));
                let j = choose|j: int| 0 <= j < ids@.len() && ids@[j] == id;
            }
        }
    }
    true
}

/// The residual blocks of feature ids `ids` of keyframe `frame` in image
/// `camera`: one for each landmark that at least two keyframes observe in the
/// left image, in the order of `ids`.
fn image_blocks<L>(
    frame: usize,
    camera: Camera,
    ids: &Vec<usize>,
    counts: &HashMap<usize, usize>,
    landmarks: &HashMap<usize, L>,
) -> (blocks: Vec<ResidualBlock>)
    requires
        forall|j: int| 0 <= j < ids@.len() ==> counts@.contains_key(#[trigger] ids@[j]),
        ids@.no_duplicates(),
    ensures
        blocks@.no_duplicates(),
        forall|j: int|
            0 <= j < blocks@.len() ==> (#[trigger] blocks@[j]).frame == frame && blocks@[j].camera
                == camera,
        forall|b: ResidualBlock|
            #![trigger blocks@.contains(b)]
            blocks@.contains(b) <==> (b.frame == frame && b.camera == camera && ids@.contains(
                b.landmark,
            ) && counts@[b.landmark] > 1 && landmarks@.contains_key(b.landmark)),
{
    let mut blocks: Vec<ResidualBlock> = Vec::new();
    let n = ids.len();
    for k in 0..n
        invariant
            n == ids@.len(),
            ids@.no_duplicates(),
            forall|j: int| 0 <= j < ids@.len() ==> counts@.contains_key(#[trigger] ids@[j]),
            blocks@.no_duplicates(),
            forall|j: int|
                0 <= j < blocks@.len() ==> (#[trigger] blocks@[j]).frame == frame
                    && blocks@[j].camera == camera,
            forall|b: ResidualBlock|
                #![trigger blocks@.contains(b)]
                blocks@.contains(b) <==> (b.frame == frame && b.camera == camera && ids@.take(
                    k as int,
                ).contains(b.landmark) && counts@[b.landmark] > 1 && landmarks@.contains_key(
                    b.landmark,
                )),
    {
        let id = ids[k];
        proof {
            assert(ids@.take(k + 1) =~= ids@.take(k as int).push(id));
        }
        let c = *counts.get(&id).unwrap();
        proof {
            lemma_take_one_more(ids@, k as int);
            if ids@.take(k as int).contains(id) {
                let j = choose|j: int| 0 <= j < k && ids@.take(k as int)[j] == id;
                assert(ids@[j] == ids@[k as int]);
            }
        }
        if c > 1 && landmarks.contains_key(&id) {
            let b = ResidualBlock { frame, camera, landmark: id };
            let ghost before = blocks@;
            blocks.push(b);
            proof {
                assert(blocks@ == before.push(b));
                assert forall|x: ResidualBlock| #![trigger blocks@.contains(x)] blocks@.contains(x)
                    == (before.contains(x) || x == b) by {
                    if blocks@.contains(x) && x != b {
                        let j = choose|j: int| 0 <= j < blocks@.len() && blocks@[j] == x;
                        assert(before[j] == x);
                    }
                    if before.contains(x) {
                        let j = choose|j: int| 0 <= j < before.len() && before[j] == x;
                        assert(blocks@[j] == x);
                    }
                    if x == b {
                        assert(blocks@[before.len() as int] == x);
                    }
                }
                assert(!before.contains(b));
                assert forall|i: int, j: int| 0 <= i < j < blocks@.len() implies blocks@[i] != blocks@[j] by {
                    if j == blocks@.len() - 1 {
                        assert(before[i] == blocks@[i]);
                    } else {
                        assert(before[i] == blocks@[i] && before[j] == blocks@[j]);
                    }
                }
            }
        }
    }
    assert(ids@.take(n as int) =~= ids@);
    blocks
}

proof fn lemma_concat_contains(a: Seq<ResidualBlock>, b: Seq<ResidualBlock>)
    ensures
        forall|x: ResidualBlock| #[trigger] (a + b).contains(x) == (a.contains(x) || b.contains(x)),
{
    assert forall|x: ResidualBlock| #[trigger] (a + b).contains(x) == (a.contains(x) || b.contains(x)) by {
        if (a + b).contains(x) {
            let j = choose|j: int| 0 <= j < (a + b).len() && (a + b)[j] == x;
            if j < a.len() {
                assert(a[j] == x);
            } else {
                assert(b[j - a.len()] == x);
            }
        }
        if a.contains(x) {
            let j = choose|j: int| 0 <= j < a.len() && a[j] == x;
            assert((a + b)[j] == x);
        }
        if b.contains(x) {
            let j = choose|j: int| 0 <= j < b.len() && b[j] == x;
            assert((a + b)[a.len() + j] == x);
        }
    }
}

/// Blocks that are ordered and distinct, all of keyframes before `frame`.
spec fn ordered_before(blocks: Seq<ResidualBlock>, frame: int) -> bool {
    &&& blocks.no_duplicates()
    &&& forall|j: int| 0 <= j < blocks.len() ==> (#[trigger] blocks[j]).frame < frame
    &&& forall|i: int, j: int| 0 <= i < j < blocks.len() ==> block_before(blocks[i], blocks[j])
}

proof fn lemma_append_image_blocks(
    blocks: Seq<ResidualBlock>,
    left: Seq<ResidualBlock>,
    right: Seq<ResidualBlock>,
    frame: int,
)
    requires
        ordered_before(blocks, frame),
        left.no_duplicates(),
        right.no_duplicates(),
        forall|j: int|
            0 <= j < left.len() ==> (#[trigger] left[j]).frame == frame && left[j].camera
                == Camera::Left,
        forall|j: int|
            0 <= j < right.len() ==> (#[trigger] right[j]).frame == frame && right[j].camera
                == Camera::Right,
    ensures
        ordered_before(blocks + left + right, frame + 1),
{
    let all = blocks + left + right;
    assert forall|i: int, j: int| 0 <= i < j < all.len() implies all[i] != all[j] by {
        if j < blocks.len() {
            assert(all[i] == blocks[i] && all[j] == blocks[j]);
        } else if j < blocks.len() + left.len() {
            if i >= blocks.len() {
                assert(all[i] == left[i - blocks.len()] && all[j] == left[j - blocks.len()]);
            }
        } else {
            if i >= blocks.len() + left.len() {
                assert(all[i] == right[i - blocks.len() - left.len()]);
                assert(all[j] == right[j - blocks.len() - left.len()]);
            }
        }
    }
    assert forall|j: int| 0 <= j < all.len() implies (#[trigger] all[j]).frame < frame + 1 by {
        if j < blocks.len() {
            assert(all[j] == blocks[j]);
        } else if j < blocks.len() + left.len() {
            assert(all[j] == left[j - blocks.len()]);
        } else {
            assert(all[j] == right[j - blocks.len() - left.len()]);
        }
    }
    assert forall|i: int, j: int| 0 <= i < j < all.len() implies block_before(all[i], all[j]) by {
        if j < blocks.len() {
            assert(all[i] == blocks[i] && all[j] == blocks[j]);
        } else if j < blocks.len() + left.len() {
            assert(all[j] == left[j - blocks.len()]);
            if i < blocks.len() {
                assert(all[i] == blocks[i]);
            } else {
                assert(all[i] == left[i - blocks.len()]);
            }
        } else {
            assert(all[j] == right[j - blocks.len() - left.len()]);
            if i < blocks.len() {
                assert(all[i] == blocks[i]);
            } else if i < blocks.len() + left.len() {
                assert(all[i] == left[i - blocks.len()]);
            } else {
                assert(all[i] == right[i - blocks.len() - left.len()]);
            }
        }
    }
}

/// The residual blocks of the bundle adjustment of the window, keyframe by
/// keyframe, the left image before the right one.
pub fn plan_residual_blocks<P, O, L>(
    window: &KeyframeSlidingWindow<P, O>,
    landmarks: &HashMap<usize, L>,
) -> (blocks: Vec<ResidualBlock>)
    requires
        right_observed_on_left(window@.frames),
    ensures
        blocks@.no_duplicates(),
        forall|b: ResidualBlock| #[trigger]
            blocks@.contains(b) == is_residual_block(window@.frames, landmarks@, b),
        forall|i: int, j: int| 0 <= i < j < blocks@.len() ==> block_before(blocks@[i], blocks@[j]),
        forall|b: ResidualBlock| #[trigger]
            blocks@.contains(b) <==> {
                &&& b.frame < window@.frames.len()
                &&& b.camera == Camera::Left ==> window@.frames[b.frame as int].cam0.contains_key(
                    b.landmark,
                )
                &&& b.camera == Camera::Right ==> window@.frames[b.frame as int].cam1.contains_key(
                    b.landmark,
                )
                &&& window@.frames.filter(
                    |f: FrameView<P, O>| f.cam0.contains_key(b.landmark),
                ).len() >= 2
                &&& landmarks@.contains_key(b.landmark)
            },
        forall|i: int, j: int|
            0 <= i < j < blocks@.len() ==> blocks@[i].frame < blocks@[j].frame || (
            blocks@[i].frame == blocks@[j].frame && (blocks@[i].camera == Camera::Left
                || blocks@[j].camera == Camera::Right)),
{
    let ghost frames = window@.frames;
    let counts = count_observations_wide(window);
    let mut blocks: Vec<ResidualBlock> = Vec::new();
    let n = window.keyframes.len();
    for i in 0..n
        invariant
            n == frames.len(),
            frames == window@.frames,
            right_observed_on_left(frames),
            forall|id: usize| #[trigger]
                counts@.contains_key(id) == (observation_count(frames, id) > 0),
            forall|id: usize| #[trigger]
                counts@.contains_key(id) ==> counts@[id] == observation_count(frames, id),
            ordered_before(blocks@, i as int),
            forall|b: ResidualBlock| #[trigger]
                blocks@.contains(b) == (is_residual_block(frames, landmarks@, b) && b.frame < i),
    {
        let frame = &window.keyframes[i];
        assert(frame@ == frames[i as int]);
        let ids0 = feature_ids(&frame.cam0_observations);
        proof {
            assert forall|j: int| 0 <= j < ids0@.len() implies counts@.contains_key(
                #[trigger] ids0@[j],
            ) by {
                assert(ids0@.to_set().contains(ids0@[j]));
                lemma_observation_count_positive(frames, i as int, ids0@[j]);
            }
        }
        let mut left = image_blocks(i, Camera::Left, &ids0, &counts, landmarks);
        let ids1 = feature_ids(&frame.cam1_observations);
        proof {
            assert forall|j: int| 0 <= j < ids1@.len() implies counts@.contains_key(
                #[trigger] ids1@[j],
            ) by {
                assert(ids1@.to_set().contains(ids1@[j]));
                assert(frames[i as int].cam1.contains_key(ids1@[j]));
            }
        }
        let mut right = image_blocks(i, Camera::Right, &ids1, &counts, landmarks);
        let ghost before = blocks@;
        let ghost l = left@;
        let ghost r = right@;
        blocks.append(&mut left);
        blocks.append(&mut right);
        proof {
            assert(blocks@ == before + l + r);
            lemma_append_image_blocks(before, l, r, i as int);
            lemma_concat_contains(before, l);
            lemma_concat_contains(before + l, r);
            assert forall|b: ResidualBlock| #[trigger] blocks@.contains(b) == (is_residual_block(
                frames,
                landmarks@,
                b,
            ) && b.frame < i + 1) by {
                if b.frame == i {
                    assert(ids0@.contains(b.landmark) == ids0@.to_set().contains(b.landmark));
                    assert(ids1@.contains(b.landmark) == ids1@.to_set().contains(b.landmark));
                    if b.camera == Camera::Left && frames[i as int].cam0.contains_key(b.landmark) {
                        lemma_observation_count_positive(frames, i as int, b.landmark);
                    }
                    if b.camera == Camera::Right && frames[i as int].cam1.contains_key(b.landmark) {
                        assert(observation_count(frames, b.landmark) > 0);
                    }
                }
            }
        }
    }
    proof {
        assert forall|b: ResidualBlock| #[trigger] blocks@.contains(b) <==> {
            &&& b.frame < frames.len()
            &&& b.camera == Camera::Left ==> frames[b.frame as int].cam0.contains_key(b.landmark)
            &&& b.camera == Camera::Right ==> frames[b.frame as int].cam1.contains_key(b.landmark)
            &&& frames.filter(|f: FrameView<P, O>| f.cam0.contains_key(b.landmark)).len() >= 2
            &&& landmarks@.contains_key(b.landmark)
        } by {
            lemma_observation_count_is_left_observers(frames, b.landmark);
        }
        assert forall|i: int, j: int| 0 <= i < j < blocks@.len() implies blocks@[i].frame
            < blocks@[j].frame || (blocks@[i].frame == blocks@[j].frame && (blocks@[i].camera
            == Camera::Left || blocks@[j].camera == Camera::Right)) by {
            assert(block_before(blocks@[i], blocks@[j]));
        }
    }
    blocks
}

/// The landmark ids of a list of participants.
pub open spec fn participant_ids(participants: Seq<(usize, u16)>) -> Seq<usize> {
    participants.map_values(|p: (usize, u16)| p.0)
}

/// The landmarks that take part in the bundle adjustment (those that at
/// least two keyframes observe in the left image), each with the number of
/// its left-image residual blocks.
pub fn bundle_adjustment_landmarks<P, O, L>(
    window: &KeyframeSlidingWindow<P, O>,
    landmarks: &HashMap<usize, L>,
) -> (participants: Vec<(usize, u16)>)
    requires
        observation_counts_fit(window@.frames),
    ensures
        forall|j: int|
            0 <= j < participants@.len() ==> (#[trigger] participants@[j]).1 == observation_count(
                window@.frames,
                participants@[j].0,
            ),
        forall|id: usize| #[trigger]
            participant_ids(participants@).contains(id) == (
            landmarks@.contains_key(id) && observation_count(window@.frames, id) > 1),
        participant_ids(participants@).no_duplicates(),
        forall|j: int|
            0 <= j < participants@.len() ==> (#[trigger] participants@[j]).1 == window@.frames.filter(
                |f: FrameView<P, O>| f.cam0.contains_key(participants@[j].0),
            ).len(),
        forall|id: usize| #[trigger]
            participant_ids(participants@).contains(id) == (landmarks@.contains_key(id)
                && window@.frames.filter(|f: FrameView<P, O>| f.cam0.contains_key(id)).len() >= 2),
{
    let ghost frames = window@.frames;
    let counts = count_observations_wide(window);
    let ids = feature_ids(landmarks);
    let mut participants: Vec<(usize, u16)> = Vec::new();
    let n = ids.len();
    for k in 0..n
        invariant
            n == ids@.len(),
            ids@.no_duplicates(),
            ids@.to_set() == landmarks@.dom(),
            frames == window@.frames,
            observation_counts_fit(frames),
            forall|id: usize| #[trigger]
                counts@.contains_key(id) == (observation_count(frames, id) > 0),
            forall|id: usize| #[trigger]
                counts@.contains_key(id) ==> counts@[id] == observation_count(frames, id),
            forall|j: int|
                0 <= j < participants@.len() ==> (#[trigger] participants@[j]).1
                    == observation_count(frames, participants@[j].0),
            forall|id: usize| #[trigger]
                participant_ids(participants@).contains(id) == (ids@.take(
                    k as int,
                ).contains(id) && observation_count(frames, id) > 1),
            participant_ids(participants@).no_duplicates(),
    {
        let id = ids[k];
        proof {
            lemma_take_one_more(ids@, k as int);
            if ids@.take(k as int).contains(id) {
                let j = choose|j: int| 0 <= j < k && ids@.take(k as int)[j] == id;
                assert(ids@[j] == ids@[k as int]);
            }
        }
        match counts.get(&id) {
            Some(c) => {
                if *c > 1 {
                    let ghost before = participants@;
                    proof {
                        assert(observation_count(frames, id) <= u16::MAX);
                    }
                    participants.push((id, *c as u16));
                    proof {
                        let pb = participant_ids(before);
                        let pa = participant_ids(participants@);
                        assert(pa =~= pb.push(id));
                        assert forall|x: usize| #[trigger] pa.contains(x) == (pb.contains(x) || x
                            == id) by {
                            if pa.contains(x) && x != id {
                                let j = choose|j: int| 0 <= j < pa.len() && pa[j] == x;
                                assert(pb[j] == x);
                            }
                            if pb.contains(x) {
                                let j = choose|j: int| 0 <= j < pb.len() && pb[j] == x;
                                assert(pa[j] == x);
                            }
                            if x == id {
                                assert(pa[pb.len() as int] == x);
                            }
                        }
                        assert forall|i: int, j: int| 0 <= i < j < pa.len() implies pa[i] != pa[j] by {
                            if j < pb.len() {
                                assert(pa[i] == pb[i] && pa[j] == pb[j]);
                            } else {
                                assert(!pb.contains(id));
                                assert(pa[i] == pb[i]);
                                assert(pa[j] == id);
                            }
                        }
                    }
                }
            },
            None => {},
        }
    }
    proof {
        assert(ids@.take(n as int) =~= ids@);
        assert forall|id: usize| ids@.contains(id) == landmarks@.contains_key(id) by {
            assert(ids@.to_set().contains(id) == ids@.contains(id));
        }
        assert forall|j: int| 0 <= j < participants@.len() implies (#[trigger] participants@[j]).1
            == frames.filter(|f: FrameView<P, O>| f.cam0.contains_key(participants@[j].0)).len() by {
            lemma_observation_count_is_left_observers(frames, participants@[j].0);
        }
        assert forall|id: usize| #[trigger] participant_ids(participants@).contains(id) == (
        landmarks@.contains_key(id) && frames.filter(
            |f: FrameView<P, O>| f.cam0.contains_key(id),
        ).len() >= 2) by {
            lemma_observation_count_is_left_observers(frames, id);
        }
    }
    participants
}

/// The pose of keyframe `k` after bundle adjustment: the first keyframe is
/// held fixed; any other one takes its optimized pose when there is one.
pub open spec fn optimized_pose<P>(pose: P, optimized: Seq<Option<P>>, k: int) -> P {
    if k > 0 && k < optimized.len() && optimized[k] is Some {
        optimized[k].unwrap()
    } else {
        pose
    }
}

/// Writes the optimized poses back into the window (the first keyframe is
/// held fixed).
pub fn apply_optimized_poses<P: Copy, O>(
    window: &mut KeyframeSlidingWindow<P, O>,
    poses: &Vec<Option<P>>,
)
    ensures
        final(window)@.max_size == old(window)@.max_size,
        final(window)@.frames.len() == old(window)@.frames.len(),
        forall|k: int|
            0 <= k < old(window)@.frames.len() ==> #[trigger] final(window)@.frames[k] == (
            FrameView { pose: optimized_pose(old(window)@.frames[k].pose, poses@, k), ..old(
                window,
            )@.frames[k] }),
        old(window)@.frames.len() > 0 ==> final(window)@.frames[0] == old(window)@.frames[0],
        forall|k: int|
            0 < k < old(window)@.frames.len() && k < poses@.len() && (#[trigger] poses@[k]) is Some
                ==> final(window)@.frames[k].pose == poses@[k]->0,
        forall|k: int|
            0 <= k < old(window)@.frames.len() ==> (#[trigger] final(window)@.frames[k]).cam0
                == old(window)@.frames[k].cam0 && final(window)@.frames[k].cam1 == old(
                window,
            )@.frames[k].cam1 && final(window)@.frames[k].new_point_ids == old(
                window,
            )@.frames[k].new_point_ids,
{
    let ghost start = window@.frames;
    let len = window.keyframes.len();
    let mut processed: std::collections::VecDeque<crate::frame::Frame<P, O>> =
        std::collections::VecDeque::new();
    for j in 0..len
        invariant
            len == start.len(),
            window.max_size == old(window).max_size,
            window.keyframes@.len() == len - j,
            forall|k: int| 0 <= k < len - j ==> #[trigger] window.keyframes@[k]@ == start[j + k],
            processed@.len() == j,
            forall|k: int|
                0 <= k < j ==> #[trigger] processed@[k]@ == (FrameView {
                    pose: optimized_pose(start[k].pose, poses@, k),
                    ..start[k]
                }),
    {
        let ghost before = window.keyframes@;
        let mut f = window.keyframes.pop_front().unwrap();
        assert(f@ == start[j as int]);
        if j > 0 && j < poses.len() {
            match &poses[j] {
                Some(p) => {
                    f.t_cam0_w = *p;
                },
                None => {},
            }
        }
        processed.push_back(f);
        assert forall|k: int| 0 <= k < len - (j + 1) implies #[trigger] window.keyframes@[k]@ == start[(
        j + 1) + k] by {
            assert(window.keyframes@[k] == before[k + 1]);
        }
    }
    window.keyframes = processed;
}

/// The landmark map after the optimized positions `updates` are written
/// into it, in order; an update of an id that is not a landmark is ignored.
pub open spec fn spec_apply_landmark_updates<L>(m: Map<usize, L>, updates: Seq<(usize, L)>) -> Map<
    usize,
    L,
>
    decreases updates.len(),
{
    if updates.len() == 0 {
        m
    } else {
        let before = spec_apply_landmark_updates(m, updates.drop_last());
        let (id, l) = updates.last();
        if before.contains_key(id) {
            before.insert(id, l)
        } else {
            before
        }
    }
}

/// Writing optimized positions creates and removes no landmark.
pub proof fn lemma_landmark_updates_keep_ids<L>(m: Map<usize, L>, updates: Seq<(usize, L)>)
    ensures
        spec_apply_landmark_updates(m, updates).dom() == m.dom(),
    decreases updates.len(),
{
    if updates.len() > 0 {
        lemma_landmark_updates_keep_ids(m, updates.drop_last());
        let before = spec_apply_landmark_updates(m, updates.drop_last());
        let (id, l) = updates.last();
        if before.contains_key(id) {
            assert(before.insert(id, l).dom() =~= before.dom());
        }
    }
}

/// Writing optimized positions: a landmark takes the position of its last
/// update, a landmark with no update keeps its position, and no landmark
/// appears or disappears.
pub proof fn lemma_landmark_updates_values<L>(m: Map<usize, L>, updates: Seq<(usize, L)>)
    ensures
        forall|x: usize| #[trigger]
            spec_apply_landmark_updates(m, updates).contains_key(x) == m.contains_key(x),
        forall|k: int|
            0 <= k < updates.len() && m.contains_key(updates[k].0) && (forall|j: int|
                k < j < updates.len() ==> updates[j].0 != updates[k].0)
                ==> #[trigger] spec_apply_landmark_updates(m, updates)[updates[k].0] == updates[k].1,
        forall|x: usize|
            m.contains_key(x) && (forall|j: int| 0 <= j < updates.len() ==> updates[j].0 != x)
                ==> #[trigger] spec_apply_landmark_updates(m, updates)[x] == m[x],
    decreases updates.len(),
{
    lemma_landmark_updates_keep_ids(m, updates);
    if updates.len() > 0 {
        let rest = updates.drop_last();
        lemma_landmark_updates_values(m, rest);
        lemma_landmark_updates_keep_ids(m, rest);
        let before = spec_apply_landmark_updates(m, rest);
        let last = updates.len() - 1;
        assert forall|k: int|
            0 <= k < updates.len() && m.contains_key(updates[k].0) && (forall|j: int|
                k < j < updates.len() ==> updates[j].0 != updates[k].0)
                implies #[trigger] spec_apply_landmark_updates(m, updates)[updates[k].0]
            == updates[k].1 by {
            if k < last {
                assert(updates[last].0 != updates[k].0);
                assert(rest[k] == updates[k]);
                assert forall|j: int| k < j < rest.len() implies rest[j].0 != rest[k].0 by {
                    assert(rest[j] == updates[j]);
                }
                assert(before.contains_key(updates[k].0));
            } else {
                assert(before.dom().contains(updates[k].0));
            }
        }
        assert forall|x: usize|
            m.contains_key(x) && (forall|j: int| 0 <= j < updates.len() ==> updates[j].0 != x)
                implies #[trigger] spec_apply_landmark_updates(m, updates)[x] == m[x] by {
            assert forall|j: int| 0 <= j < rest.len() implies rest[j].0 != x by {
                assert(rest[j] == updates[j]);
            }
            assert(updates[last].0 != x);
        }
    }
}

/// Writes optimized landmark positions into the map, in order.
pub fn apply_optimized_landmarks<L: Copy>(landmarks: &mut HashMap<usize, L>, updates: &Vec<(usize, L)>)
    ensures
        final(landmarks)@ == spec_apply_landmark_updates(old(landmarks)@, updates@),
        forall|x: usize| #[trigger] final(landmarks)@.contains_key(x) == old(landmarks)@.contains_key(x),
        forall|k: int|
            0 <= k < updates@.len() && old(landmarks)@.contains_key(updates@[k].0) && (forall|j: int|
                k < j < updates@.len() ==> updates@[j].0 != updates@[k].0)
                ==> #[trigger] final(landmarks)@[updates@[k].0] == updates@[k].1,
        forall|x: usize|
            old(landmarks)@.contains_key(x) && (forall|j: int|
                0 <= j < updates@.len() ==> updates@[j].0 != x) ==> #[trigger] final(landmarks)@[x]
                == old(landmarks)@[x],
{
    let ghost start = landmarks@;
    let n = updates.len();
    for k in 0..n
        invariant
            n == updates@.len(),
            landmarks@ == spec_apply_landmark_updates(start, updates@.take(k as int)),
    {
        let (id, l) = updates[k];
        proof {
            assert(updates@.take(k + 1).drop_last() =~= updates@.take(k as int));
            assert(updates@.take(k + 1).last() == updates@[k as int]);
        }
        if landmarks.contains_key(&id) {
            landmarks.insert(id, l);
        }
    }
    assert(updates@.take(n as int) =~= updates@);
    proof {
        lemma_landmark_updates_values(start, updates@);
    }
}

} // verus!
