use vstd::prelude::*;
use crate::math::lanes::{mask_bits, mask_to_bits};

verus! {

/// A lane as mathematics sees it: the ray indices it holds, of which the
/// first `end_len` are committed to tasks and the rest are pending.
pub struct LaneView {
    pub idxs: Seq<u16>,
    pub end_len: nat,
}

/// A ray stack as mathematics sees it: its lanes, and its tasks as pairs of
/// a lane and the index in that lane at which the task starts, the next task
/// last.  A task reaches from its start to the lane's `end_len`.
pub struct StackView {
    pub lanes: Seq<LaneView>,
    pub tasks: Seq<(nat, nat)>,
}

/// Whether bit `l` of `mask` is set.
pub open spec fn bit_set(mask: u32, l: int) -> bool {
    mask & (1u32 << (l as u32)) != 0
}

/// The lanes after `idx` has been pushed onto each lane from `l` up to,
/// not including, `count` whose bit is set in `mask`.
pub open spec fn spread(lanes: Seq<LaneView>, idx: u16, mask: u32, l: int, count: int) -> Seq<
    LaneView,
>
    decreases count - l,
{
    if l >= count || l < 0 || l >= lanes.len() {
        lanes
    } else if bit_set(mask, l) {
        spread(
            lanes.update(l, LaneView { idxs: lanes[l].idxs.push(idx), ..lanes[l] }),
            idx,
            mask,
            l + 1,
            count,
        )
    } else {
        spread(lanes, idx, mask, l + 1, count)
    }
}

/// The lanes after every one of `idxs`, in order, has been pushed onto the
/// lanes below `count` that its mask in `masks` names.
pub open spec fn distribute(lanes: Seq<LaneView>, idxs: Seq<u16>, masks: Seq<u32>, count: int) -> Seq<
    LaneView,
>
    decreases idxs.len(),
{
    if idxs.len() == 0 || masks.len() != idxs.len() {
        lanes
    } else {
        spread(
            distribute(lanes, idxs.drop_last(), masks.drop_last(), count),
            idxs.last(),
            masks.last(),
            0,
            count,
        )
    }
}

impl StackView {
    /// The invariant: in every lane the committed entries exist; every task
    /// names a lane and starts within its committed entries; and of two
    /// tasks on one lane the later one starts no earlier.
    pub open spec fn wf(self) -> bool {
        &&& forall|l: int|
            0 <= l < self.lanes.len() ==> (#[trigger] self.lanes[l]).end_len
                <= self.lanes[l].idxs.len()
        &&& forall|t: int|
            0 <= t < self.tasks.len() ==> {
                &&& (#[trigger] self.tasks[t]).0 < self.lanes.len()
                &&& self.tasks[t].1 <= self.lanes[self.tasks[t].0 as int].end_len
            }
        &&& forall|s: int, t: int|
            0 <= s <= t < self.tasks.len() && self.tasks[s].0 == self.tasks[t].0
                ==> self.tasks[s].1 <= self.tasks[t].1
    }

    /// The lane of the next task.
    pub open spec fn next_lane(self) -> int {
        self.tasks.last().0 as int
    }

    /// The index at which the next task starts.
    pub open spec fn next_start(self) -> int {
        self.tasks.last().1 as int
    }

    /// The index at which the next task ends.
    pub open spec fn next_end(self) -> int {
        self.lanes[self.next_lane()].end_len as int
    }

    /// The ray indices of the next task, in order.
    pub open spec fn next_indices(self) -> Seq<u16> {
        self.lanes[self.next_lane()].idxs.subrange(self.next_start(), self.next_end())
    }

    /// The stack with `count` lanes at least: empty ones are added at the end
    /// as needed.
    pub open spec fn with_lane_count(self, count: nat) -> StackView {
        if count <= self.lanes.len() {
            self
        } else {
            StackView {
                lanes: self.lanes + Seq::new(
                    (count - self.lanes.len()) as nat,
                    |i: int| LaneView { idxs: Seq::empty(), end_len: 0 },
                ),
                ..self
            }
        }
    }

    /// Asking for the same number of lanes once more changes nothing.
    pub proof fn lemma_lane_count_idempotent(self, count: nat)
        ensures
            self.with_lane_count(count).with_lane_count(count) == self.with_lane_count(count),
            self.with_lane_count(count).lanes.len() >= count,
    {
    }

    /// The stack with every lane emptied and no task.
    pub open spec fn cleared(self) -> StackView {
        StackView {
            lanes: Seq::new(
                self.lanes.len(),
                |i: int| LaneView { idxs: Seq::empty(), end_len: 0 },
            ),
            tasks: Seq::empty(),
        }
    }

    /// The stack with `idx` pending at the end of lane `lane`.
    pub open spec fn with_ray(self, idx: u16, lane: int) -> StackView {
        StackView {
            lanes: self.lanes.update(
                lane,
                LaneView { idxs: self.lanes[lane].idxs.push(idx), ..self.lanes[lane] },
            ),
            ..self
        }
    }

    /// Whether lane `lane` has pending entries.
    pub open spec fn has_pending(self, lane: int) -> bool {
        self.lanes[lane].end_len < self.lanes[lane].idxs.len()
    }

    /// The stack with the pending entries of lane `lane`, if there are any,
    /// committed to a new task.
    pub open spec fn with_lane_task(self, lane: int) -> StackView {
        if self.has_pending(lane) {
            StackView {
                lanes: self.lanes.update(
                    lane,
                    LaneView { end_len: self.lanes[lane].idxs.len(), ..self.lanes[lane] },
                ),
                tasks: self.tasks.push((lane as nat, self.lanes[lane].end_len)),
            }
        } else {
            self
        }
    }

    /// The stack with the pending entries of each of `lanes` committed to a
    /// task, in the order given.
    pub open spec fn with_lane_tasks(self, lanes: Seq<usize>) -> StackView
        decreases lanes.len(),
    {
        if lanes.len() == 0 {
            self
        } else {
            self.with_lane_tasks(lanes.drop_last()).with_lane_task(lanes.last() as int)
        }
    }

    /// The stack with the ray indices of the next task appended to its lane
    /// once more and committed to a new task.
    pub open spec fn duplicated(self) -> StackView {
        let lane = self.next_lane();
        let idxs = self.lanes[lane].idxs + self.next_indices();
        StackView {
            lanes: self.lanes.update(lane, LaneView { idxs, end_len: idxs.len() }),
            tasks: self.tasks.push((lane as nat, self.next_end() as nat)),
        }
    }

    /// The stack without its next task: the task is gone, and its lane ends
    /// where the task started.
    pub open spec fn popped(self) -> StackView {
        let lane = self.next_lane();
        let start = self.next_start();
        StackView {
            lanes: self.lanes.update(
                lane,
                LaneView { idxs: self.lanes[lane].idxs.take(start), end_len: start as nat },
            ),
            tasks: self.tasks.drop_last(),
        }
    }

    /// The stack after its next task has been popped and each of the task's
    /// ray indices pushed onto the lanes below `count` that its mask names.
    pub open spec fn redistributed(self, masks: Seq<u32>, count: int) -> StackView {
        StackView {
            lanes: distribute(self.popped().lanes, self.next_indices(), masks, count),
            ..self.popped()
        }
    }
}

/// A lane within a RayStack.  The first `len` entries of `idxs` are the
/// lane's; what lies behind them is spare room.
#[derive(Debug)]
struct Lane {
    idxs: Vec<u16>,
    len: usize,
    end_len: usize,
}

/// A task within a RayStack: the lane that its ray indices are in, and the
/// index within that lane at which they start.
#[derive(Debug)]
struct RayTask {
    lane: usize,
    start_idx: usize,
}

/// A structure used for tracking traversal of a ray batch through a scene.
#[derive(Debug)]
pub struct RayStack {
    lanes: Vec<Lane>,
    tasks: Vec<RayTask>,
}

impl View for RayStack {
    type V = StackView;

    closed spec fn view(&self) -> StackView {
        StackView {
            lanes: Seq::new(
                self.lanes@.len(),
                |i: int|
                    LaneView {
                        idxs: self.lanes@[i].idxs@.take(self.lanes@[i].len as int),
                        end_len: self.lanes@[i].end_len as nat,
                    },
            ),
            tasks: Seq::new(
                self.tasks@.len(),
                |i: int| (self.tasks@[i].lane as nat, self.tasks@[i].start_idx as nat),
            ),
        }
    }
}

impl RayStack {
    /// The invariant: every lane's entries lie within its storage, and the
    /// stack as mathematics sees it satisfies its own invariant.
    pub closed spec fn wf(self) -> bool {
        &&& forall|l: int|
            0 <= l < self.lanes@.len() ==> (#[trigger] self.lanes@[l]).len
                <= self.lanes@[l].idxs@.len()
        &&& self@.wf()
    }

    /// A stack that satisfies its invariant is, as mathematics sees it, a
    /// stack that satisfies the invariant stated there.
    pub proof fn lemma_view_wf(self)
        requires
            self.wf(),
        ensures
            self@.wf(),
    {
    }

    /// A stack with no lane and no task.
    pub fn new() -> (stack: RayStack)
        ensures
            stack.wf(),
            stack@.lanes.len() == 0,
            stack@.tasks.len() == 0,
    {
        RayStack { lanes: Vec::new(), tasks: Vec::new() }
    }

    /// Returns whether the stack is empty of tasks or not.
    pub fn is_empty(&self) -> (r: bool)
        ensures
            r == (self@.tasks.len() == 0),
    {
        self.tasks.len() == 0
    }

    /// Makes sure there are at least `count` lanes.
    pub fn ensure_lane_count(&mut self, count: usize)
        requires
            old(self).wf(),
        ensures
            final(self).wf(),
            final(self)@ == old(self)@.with_lane_count(count as nat),
    {
        while self.lanes.len() < count
            invariant
                self.tasks == old(self).tasks,
                old(self).lanes@.len() <= self.lanes@.len(),
                self.lanes@.len() <= count || self.lanes@.len() == old(self).lanes@.len(),
                forall|i: int|
                    0 <= i < old(self).lanes@.len() ==> self.lanes@[i] == old(self).lanes@[i],
                forall|i: int|
                    old(self).lanes@.len() <= i < self.lanes@.len() ==> (#[trigger] self.lanes@[i]).len
                        == 0 && self.lanes@[i].end_len == 0,
            decreases count - self.lanes@.len(),
        {
            self.lanes.push(Lane { idxs: Vec::new(), len: 0, end_len: 0 });
        }
        proof {
            let goal = old(self)@.with_lane_count(count as nat);
            assert(self@.tasks =~= goal.tasks);
            assert forall|i: int| 0 <= i < self@.lanes.len() implies #[trigger] self@.lanes[i]
                == goal.lanes[i] by {
                if i >= old(self).lanes@.len() {
                    assert(self.lanes@[i].len == 0);
                    assert(self@.lanes[i].idxs =~= Seq::<u16>::empty());
                }
            }
            assert(self@.lanes =~= goal.lanes);
            assert(old(self)@.wf());
            assert forall|t: int| 0 <= t < self@.tasks.len() implies {
                &&& (#[trigger] self@.tasks[t]).0 < self@.lanes.len()
                &&& self@.tasks[t].1 <= self@.lanes[self@.tasks[t].0 as int].end_len
            } by {
                assert(self@.tasks[t] == old(self)@.tasks[t]);
            }
        }
    }

    /// The number of rays in the next task.
    pub fn ray_count_in_next_task(&self) -> (n: usize)
        requires
            self.wf(),
            self@.tasks.len() > 0,
        ensures
            n == self@.next_indices().len(),
            n == self@.next_end() - self@.next_start(),
    {
        let task = &self.tasks[self.tasks.len() - 1];
        proof {
            let t = self@.tasks.len() - 1;
            assert(self@.tasks[t] == self@.tasks.last());
            assert(self@.lanes[task.lane as int].end_len == self.lanes@[task.lane as int].end_len);
        }
        let end = self.lanes[task.lane].end_len;
        end - task.start_idx
    }

    /// The `i`th ray index of the next task.
    pub fn next_task_ray_idx(&self, i: usize) -> (idx: usize)
        requires
            self.wf(),
            self@.tasks.len() > 0,
            i < self@.next_indices().len(),
        ensures
            idx == self@.next_indices()[i as int],
    {
        let task = &self.tasks[self.tasks.len() - 1];
        proof {
            let t = self@.tasks.len() - 1;
            assert(self@.tasks[t] == self@.tasks.last());
            assert(self@.lanes[task.lane as int].end_len == self.lanes@[task.lane as int].end_len);
        }
        let i = i + task.start_idx;
        self.lanes[task.lane].idxs[i] as usize
    }

    /// Clears the lanes and tasks of the RayStack.
    ///
    /// The lanes themselves stay, each with the room it has, so that they
    /// can be filled again without asking for memory.
    pub fn clear(&mut self)
        requires
            old(self).wf(),
        ensures
            final(self).wf(),
            final(self)@ == old(self)@.cleared(),
    {
        let mut l: usize = 0;
        while l < self.lanes.len()
            invariant
                l <= self.lanes@.len(),
                self.lanes@.len() == old(self).lanes@.len(),
                forall|i: int|
                    0 <= i < l ==> (#[trigger] self.lanes@[i]).len == 0 && self.lanes@[i].end_len
                        == 0,
            decreases self.lanes@.len() - l,
        {
            let lane = &mut self.lanes[l];
            lane.len = 0;
            lane.end_len = 0;
            l = l + 1;
        }
        self.tasks.clear();
        proof {
            assert forall|i: int| 0 <= i < self@.lanes.len() implies #[trigger] self@.lanes[i] == (
            LaneView { idxs: Seq::empty(), end_len: 0 }) by {
                assert(self.lanes@[i].len == 0);
                assert(self@.lanes[i].idxs =~= Seq::<u16>::empty());
            }
            assert(self@.lanes =~= old(self)@.cleared().lanes);
            assert(self@.tasks =~= old(self)@.cleared().tasks);
        }
    }

    /// Pushes the given ray index onto the end of the specified lane.  A lane
    /// holds 16-bit indices: of a larger index the low 16 bits are kept.
    pub fn push_ray_index(&mut self, ray_idx: usize, lane: usize)
        requires
            old(self).wf(),
            lane < old(self)@.lanes.len(),
        ensures
            final(self).wf(),
            final(self)@ == old(self)@.with_ray(ray_idx as u16, lane as int),
    {
        let idx = #[verifier::truncate]
        (ray_idx as u16);
        lane_push(&mut self.lanes[lane], idx);
        proof {
            let goal = old(self)@.with_ray(ray_idx as u16, lane as int);
            assert(self@.tasks =~= goal.tasks);
            assert(self@.lanes =~= goal.lanes);
        }
    }

    /// Pushes any excess indices on the given lane to a new task on the
    /// task stack.
    ///
    /// Returns whether a task was pushed or not.  No task will be pushed
    /// if there are no excess indices on the end of the lane.
    pub fn push_lane_to_task(&mut self, lane_idx: usize) -> (pushed: bool)
        requires
            old(self).wf(),
            lane_idx < old(self)@.lanes.len(),
        ensures
            final(self).wf(),
            pushed == old(self)@.has_pending(lane_idx as int),
            final(self)@ == old(self)@.with_lane_task(lane_idx as int),
    {
        assert(old(self)@.lanes[lane_idx as int].idxs.len() == self.lanes@[lane_idx as int].len);
        if self.lanes[lane_idx].end_len < self.lanes[lane_idx].len {
            self.tasks.push(RayTask { lane: lane_idx, start_idx: self.lanes[lane_idx].end_len });
            let lane = &mut self.lanes[lane_idx];
            lane.end_len = lane.len;
            proof {
                let goal = old(self)@.with_lane_task(lane_idx as int);
                assert(self@.tasks =~= goal.tasks);
                assert(self@.lanes =~= goal.lanes);
            }
            true
        } else {
            false
        }
    }

    /// Takes the given list of lane indices, and pushes any excess indices on
    /// the end of each into a new task, in the order provided.
    pub fn push_lanes_to_tasks(&mut self, lane_idxs: &[usize])
        requires
            old(self).wf(),
            forall|i: int| 0 <= i < lane_idxs@.len() ==> lane_idxs@[i] < old(self)@.lanes.len(),
        ensures
            final(self).wf(),
            final(self)@ == old(self)@.with_lane_tasks(lane_idxs@),
    {
        let mut i: usize = 0;
        while i < lane_idxs.len()
            invariant
                i <= lane_idxs@.len(),
                self.wf(),
                self@.lanes.len() == old(self)@.lanes.len(),
                self@ == old(self)@.with_lane_tasks(lane_idxs@.take(i as int)),
                forall|k: int| 0 <= k < lane_idxs@.len() ==> lane_idxs@[k] < old(self)@.lanes.len(),
            decreases lane_idxs@.len() - i,
        {
            proof {
                let upto = lane_idxs@.take(i + 1);
                assert(upto.drop_last() =~= lane_idxs@.take(i as int));
                assert(upto.last() == lane_idxs@[i as int]);
            }
            self.push_lane_to_task(lane_idxs[i]);
            i = i + 1;
        }
        assert(lane_idxs@.take(i as int) =~= lane_idxs@);
    }

    /// Appends the ray indices of the next task to its lane once more and
    /// pushes a task over the copy, so that the same rays are processed a
    /// second time.  The lane must have no pending entries, and the copy
    /// must fit.
    pub fn duplicate_next_task(&mut self)
        requires
            old(self).wf(),
            old(self)@.tasks.len() > 0,
            !old(self)@.has_pending(old(self)@.next_lane()),
            old(self)@.next_end() + old(self)@.next_indices().len() <= usize::MAX,
        ensures
            final(self).wf(),
            final(self)@ == old(self)@.duplicated(),
    {
        let n = self.tasks.len();
        let l = self.tasks[n - 1].lane;
        let start = self.tasks[n - 1].start_idx;
        proof {
            assert(self@.tasks[n - 1] == self@.tasks.last());
            assert(self@.lanes[l as int].end_len == self.lanes@[l as int].end_len);
            assert(self@.lanes[l as int].idxs.len() == self.lanes@[l as int].len);
        }
        let end = self.lanes[l].end_len;
        let new_len = end + (end - start);
        let lane = &mut self.lanes[l];
        let ghost buffer0 = lane.idxs@;
        while lane.idxs.len() < new_len
            invariant
                lane.len == end,
                lane.end_len == end,
                buffer0.len() <= lane.idxs@.len(),
                forall|i: int| 0 <= i < buffer0.len() ==> lane.idxs@[i] == buffer0[i],
            decreases new_len - lane.idxs@.len(),
        {
            lane.idxs.push(0);
        }
        copy_within(lane.idxs.as_mut_slice(), start, end, end);
        lane.len = new_len;
        lane.end_len = new_len;
        self.tasks.push(RayTask { lane: l, start_idx: end });
        proof {
            let goal = old(self)@.duplicated();
            assert(self@.tasks =~= goal.tasks);
            assert(self@.lanes[l as int].idxs =~= goal.lanes[l as int].idxs);
            assert(self@.lanes =~= goal.lanes);
            assert forall|s: int, t: int|
                0 <= s <= t < self@.tasks.len() && self@.tasks[s].0 == self@.tasks[t].0
                    implies self@.tasks[s].1 <= self@.tasks[t].1 by {
                if t == n && s < n {
                    assert(self@.tasks[s] == old(self)@.tasks[s]);
                } else if t < n {
                    assert(self@.tasks[s] == old(self)@.tasks[s]);
                    assert(self@.tasks[t] == old(self)@.tasks[t]);
                }
            }
            assert forall|t: int| 0 <= t < self@.tasks.len() implies {
                &&& (#[trigger] self@.tasks[t]).0 < self@.lanes.len()
                &&& self@.tasks[t].1 <= self@.lanes[self@.tasks[t].0 as int].end_len
            } by {
                if t < n {
                    assert(self@.tasks[t] == old(self)@.tasks[t]);
                }
            }
        }
    }

    /// Pops the next task off the stack.  Its lane then ends where the task
    /// started.
    pub fn pop_task(&mut self)
        requires
            old(self).wf(),
            old(self)@.tasks.len() > 0,
        ensures
            final(self).wf(),
            final(self)@ == old(self)@.popped(),
    {
        let ghost n = self.tasks@.len() as int;
        proof {
            assert(self@.tasks[n - 1] == self@.tasks.last());
        }
        let task = self.tasks.pop().unwrap();
        let lane = &mut self.lanes[task.lane];
        lane.end_len = task.start_idx;
        lane.len = task.start_idx;
        proof {
            let goal = old(self)@.popped();
            let l = task.lane as int;
            assert(old(self)@.lanes[l].end_len == old(self).lanes@[l].end_len);
            assert(self@.tasks =~= goal.tasks);
            assert(self@.lanes[l].idxs =~= goal.lanes[l].idxs);
            assert(self@.lanes =~= goal.lanes);
            assert forall|t: int| 0 <= t < self@.tasks.len() implies {
                &&& (#[trigger] self@.tasks[t]).0 < self@.lanes.len()
                &&& self@.tasks[t].1 <= self@.lanes[self@.tasks[t].0 as int].end_len
            } by {
                assert(self@.tasks[t] == old(self)@.tasks[t]);
                assert(old(self)@.tasks[n - 1] == old(self)@.tasks.last());
            }
            assert forall|s: int, t: int|
                0 <= s <= t < self@.tasks.len() && self@.tasks[s].0 == self@.tasks[t].0
                    implies self@.tasks[s].1 <= self@.tasks[t].1 by {
                assert(self@.tasks[s] == old(self)@.tasks[s]);
                assert(self@.tasks[t] == old(self)@.tasks[t]);
            }
        }
    }

    /// Executes a task without popping it from the task stack: calls
    /// `handle_ray` with each ray index of the task, in order.  The stack
    /// stays as it is, and `handle_ray` has answered for every index.
    pub fn do_next_task<F: FnMut(usize)>(&mut self, mut handle_ray: F)
        requires
            old(self).wf(),
            old(self)@.tasks.len() > 0,
            forall|i: int|
                0 <= i < old(self)@.next_indices().len() ==> call_requires(
                    handle_ray,
                    (#[trigger] old(self)@.next_indices()[i] as usize,),
                ),
        ensures
            final(self).wf(),
            final(self)@ == old(self)@,
            forall|i: int|
                0 <= i < old(self)@.next_indices().len() ==> call_ensures(
                    handle_ray,
                    (#[trigger] old(self)@.next_indices()[i] as usize,),
                    (),
                ),
    {
        let n = self.ray_count_in_next_task();
        let ghost asked = handle_ray;
        let mut i: usize = 0;
        while i < n
            invariant
                i <= n,
                self == old(self),
                self.wf(),
                self@.tasks.len() > 0,
                n == self@.next_indices().len(),
                handle_ray == asked,
                forall|k: int|
                    0 <= k < self@.next_indices().len() ==> call_requires(
                        handle_ray,
                        (#[trigger] self@.next_indices()[k] as usize,),
                    ),
                forall|k: int|
                    0 <= k < i ==> call_ensures(
                        asked,
                        (#[trigger] self@.next_indices()[k] as usize,),
                        (),
                    ),
            decreases n - i,
        {
            let ray_idx = self.next_task_ray_idx(i);
            handle_ray(ray_idx);
            i = i + 1;
        }
    }

    /// Pops the next task off the stack, and executes the provided closure for
    /// each ray index in the task.
    pub fn pop_do_next_task<F: FnMut(usize)>(&mut self, handle_ray: F)
        requires
            old(self).wf(),
            old(self)@.tasks.len() > 0,
            forall|i: int|
                0 <= i < old(self)@.next_indices().len() ==> call_requires(
                    handle_ray,
                    (#[trigger] old(self)@.next_indices()[i] as usize,),
                ),
        ensures
            final(self).wf(),
            final(self)@ == old(self)@.popped(),
            forall|i: int|
                0 <= i < old(self)@.next_indices().len() ==> call_ensures(
                    handle_ray,
                    (#[trigger] old(self)@.next_indices()[i] as usize,),
                    (),
                ),
    {
        self.do_next_task(handle_ray);
        self.pop_task();
    }

    /// Pops the next task off the stack, and pushes each of its ray indices
    /// onto the lanes that the index's mask names: bit `l` of `masks[i]`
    /// sends the task's `i`th ray index to lane `l`, for `l` below
    /// `output_lane_count`.
    ///
    /// The task's lane is cut back to where the task started before
    /// anything is pushed, so the rays move out of the task into fresh
    /// pending entries.
    pub fn pop_next_task_and_push_rays(&mut self, output_lane_count: usize, masks: &[u32])
        requires
            old(self).wf(),
            old(self)@.tasks.len() > 0,
            output_lane_count <= old(self)@.lanes.len(),
            output_lane_count <= 32,
            masks@.len() == old(self)@.next_indices().len(),
        ensures
            final(self).wf(),
            final(self)@ == old(self)@.redistributed(masks@, output_lane_count as int),
    {
        let ghost n = self.tasks@.len() as int;
        let ghost idxs = self@.next_indices();
        proof {
            assert(self@.tasks[n - 1] == self@.tasks.last());
        }
        let task = self.tasks.pop().unwrap();
        let start = task.start_idx;
        let ghost lt = task.lane as int;
        proof {
            assert(old(self)@.lanes[lt].end_len == old(self).lanes@[lt].end_len);
            assert(old(self)@.lanes[lt].idxs.len() == old(self).lanes@[lt].len);
        }
        let end = self.lanes[task.lane].end_len;
        {
            let lane = &mut self.lanes[task.lane];
            lane.end_len = start;
            lane.len = start;
        }
        let ghost popped = old(self)@.popped();
        proof {
            assert(self@.tasks =~= popped.tasks);
            assert(self@.lanes[lt].idxs =~= popped.lanes[lt].idxs);
            assert(self@.lanes =~= popped.lanes);
            assert(idxs.take(0) =~= Seq::<u16>::empty());
            assert forall|l: int| 0 <= l < self.lanes@.len() implies (#[trigger] self.lanes@[l]).end_len
                == popped.lanes[l].end_len && self.lanes@[l].end_len <= self.lanes@[l].len by {
                if l != lt {
                    assert(old(self)@.lanes[l].end_len <= old(self)@.lanes[l].idxs.len());
                    assert(old(self)@.lanes[l].idxs.len() == old(self).lanes@[l].len);
                }
            }
        }
        let mut i = start;
        while i < end
            invariant
                start <= i <= end,
                lt == task.lane,
                lt < self.lanes@.len(),
                self.lanes@.len() == old(self).lanes@.len(),
                output_lane_count <= self.lanes@.len(),
                output_lane_count <= 32,
                masks@.len() == end - start,
                idxs.len() == end - start,
                self@.tasks == popped.tasks,
                self@.lanes == distribute(
                    popped.lanes,
                    idxs.take(i - start),
                    masks@.take(i - start),
                    output_lane_count as int,
                ),
                forall|l: int|
                    0 <= l < self.lanes@.len() ==> (#[trigger] self.lanes@[l]).len
                        <= self.lanes@[l].idxs@.len(),
                popped.lanes.len() == self.lanes@.len(),
                forall|l: int|
                    0 <= l < self.lanes@.len() ==> (#[trigger] self.lanes@[l]).end_len
                        == popped.lanes[l].end_len && self.lanes@[l].end_len <= self.lanes@[l].len,
                self.lanes@[lt].len <= i,
                end <= self.lanes@[lt].idxs@.len(),
                forall|j: int| i <= j < end ==> self.lanes@[lt].idxs@[j] == idxs[j - start],
            decreases end - i,
        {
            let ray_idx = self.lanes[task.lane].idxs[i];
            let mask = masks[i - start];
            let ghost before = self@.lanes;
            let ghost goal = spread(before, ray_idx, mask, 0, output_lane_count as int);
            let mut l: usize = 0;
            while l < output_lane_count
                invariant
                    l <= output_lane_count,
                    lt == task.lane,
                    lt < self.lanes@.len(),
                    start <= i < end,
                    self.lanes@.len() == old(self).lanes@.len(),
                    output_lane_count <= self.lanes@.len(),
                    output_lane_count <= 32,
                    self@.tasks == popped.tasks,
                    spread(self@.lanes, ray_idx, mask, l as int, output_lane_count as int) == goal,
                    forall|x: int|
                        0 <= x < self.lanes@.len() ==> (#[trigger] self.lanes@[x]).len
                            <= self.lanes@[x].idxs@.len(),
                    popped.lanes.len() == self.lanes@.len(),
                    idxs.len() == end - start,
                    forall|x: int|
                        0 <= x < self.lanes@.len() ==> (#[trigger] self.lanes@[x]).end_len
                            == popped.lanes[x].end_len && self.lanes@[x].end_len
                            <= self.lanes@[x].len,
                    self.lanes@[lt].len <= i + 1,
                    lt >= l ==> self.lanes@[lt].len <= i,
                    end <= self.lanes@[lt].idxs@.len(),
                    forall|j: int| i < j < end ==> self.lanes@[lt].idxs@[j] == idxs[j - start],
                decreases output_lane_count - l,
            {
                if (mask & (1u32 << l)) != 0 {
                    let ghost lanes0 = self@.lanes;
                    lane_push(&mut self.lanes[l], ray_idx);
                    proof {
                        assert(self@.tasks =~= popped.tasks);
                        assert(self@.lanes =~= lanes0.update(
                            l as int,
                            LaneView { idxs: lanes0[l as int].idxs.push(ray_idx), ..lanes0[l as int] },
                        ));
                    }
                }
                l = l + 1;
            }
            proof {
                let k = i - start;
                assert(idxs.take(k + 1).drop_last() =~= idxs.take(k));
                assert(masks@.take(k + 1).drop_last() =~= masks@.take(k));
                assert(idxs.take(k + 1).last() == ray_idx);
                assert(masks@.take(k + 1).last() == mask);
            }
            i = i + 1;
        }
        proof {
            assert(idxs.take(end - start) =~= idxs);
            assert(masks@.take(end - start) =~= masks@);
            assert(popped.wf());
            assert forall|l: int| 0 <= l < self@.lanes.len() implies (#[trigger] self@.lanes[l]).end_len
                <= self@.lanes[l].idxs.len() by {
                assert(self.lanes@[l].end_len <= self.lanes@[l].len);
            }
            assert forall|t: int| 0 <= t < self@.tasks.len() implies {
                &&& (#[trigger] self@.tasks[t]).0 < self@.lanes.len()
                &&& self@.tasks[t].1 <= self@.lanes[self@.tasks[t].0 as int].end_len
            } by {
                let tl = popped.tasks[t].0 as int;
                assert(popped.tasks[t].1 <= popped.lanes[tl].end_len);
                assert(self.lanes@[tl].end_len == popped.lanes[tl].end_len);
            }
        }
    }

    /// Pops the next task off the stack, executes the provided closure for
    /// each ray index in the task, and pushes the ray indices back onto the
    /// indicated lanes: lane `l`, for `l` below `output_lane_count`, gets
    /// the indices for which the closure's mask has lane `l` set.
    ///
    /// The closure is called once for each ray index of the task, in order,
    /// before anything is pushed.
    pub fn pop_do_next_task_and_push_rays<F: FnMut(usize) -> glam::Vec4Mask>(
        &mut self,
        output_lane_count: usize,
        mut handle_ray: F,
    )
        requires
            old(self).wf(),
            old(self)@.tasks.len() > 0,
            output_lane_count <= old(self)@.lanes.len(),
            output_lane_count <= 32,
            forall|i: int|
                0 <= i < old(self)@.next_indices().len() ==> call_requires(
                    handle_ray,
                    (#[trigger] old(self)@.next_indices()[i] as usize,),
                ),
        ensures
            final(self).wf(),
            exists|masks: Seq<u32>|
                #![trigger all_answered(handle_ray, old(self)@.next_indices(), masks)]
                all_answered(handle_ray, old(self)@.next_indices(), masks) && final(self)@ == old(self)@.redistributed(masks, output_lane_count as int),
    {
        let n = self.ray_count_in_next_task();
        let mut masks: Vec<u32> = Vec::new();
        let ghost asked = handle_ray;
        let mut i: usize = 0;
        while i < n
            invariant
                i <= n,
                self == old(self),
                self.wf(),
                self@.tasks.len() > 0,
                n == self@.next_indices().len(),
                masks@.len() == i,
                handle_ray == asked,
                forall|k: int|
                    0 <= k < self@.next_indices().len() ==> call_requires(
                        handle_ray,
                        (#[trigger] self@.next_indices()[k] as usize,),
                    ),
                forall|k: int|
                    0 <= k < i ==> answered(
                        asked,
                        self@.next_indices()[k] as usize,
                        #[trigger] masks@[k],
                    ),
            decreases n - i,
        {
            let ray_idx = self.next_task_ray_idx(i);
            let mask = handle_ray(ray_idx);
            masks.push(mask_to_bits(mask));
            i = i + 1;
        }
        self.pop_next_task_and_push_rays(output_lane_count, masks.as_slice());
        assert(all_answered(asked, old(self)@.next_indices(), masks@) && self@ == old(self)@.redistributed(masks@, output_lane_count as int));
    }
}

/// Whether `masks` holds, for each of `idxs` in order, the bits of a mask
/// that `handle_ray` can answer with when called with that ray index.
pub open spec fn all_answered<F: FnMut(usize) -> glam::Vec4Mask>(
    handle_ray: F,
    idxs: Seq<u16>,
    masks: Seq<u32>,
) -> bool {
    &&& masks.len() == idxs.len()
    &&& forall|i: int|
        0 <= i < masks.len() ==> answered(handle_ray, idxs[i] as usize, #[trigger] masks[i])
}

/// Whether `handle_ray`, called with `ray_idx`, can answer with a mask whose
/// set lanes are the set bits of `bits`.
pub open spec fn answered<F: FnMut(usize) -> glam::Vec4Mask>(
    handle_ray: F,
    ray_idx: usize,
    bits: u32,
) -> bool {
    exists|m: glam::Vec4Mask| #[trigger]
        call_ensures(handle_ray, (ray_idx,), m) && mask_bits(m) == bits
}

/// Appends `v` to the lane, into spare room if there is any.
fn lane_push(lane: &mut Lane, v: u16)
    requires
        old(lane).len <= old(lane).idxs@.len(),
    ensures
        final(lane).len == old(lane).len + 1,
        final(lane).len <= final(lane).idxs@.len(),
        final(lane).end_len == old(lane).end_len,
        final(lane).idxs@.len() >= old(lane).idxs@.len(),
        final(lane).idxs@.take(final(lane).len as int) == old(lane).idxs@.take(
            old(lane).len as int,
        ).push(v),
        forall|j: int|
            0 <= j < old(lane).idxs@.len() && j != old(lane).len ==> final(lane).idxs@[j] == old(lane).idxs@[j],
{
    if lane.len < lane.idxs.len() {
        lane.idxs[lane.len] = v;
    } else {
        lane.idxs.push(v);
    }
    let room = lane.idxs.len();
    assert(lane.len < room);
    lane.len = lane.len + 1;
    assert(lane.idxs@.take(lane.len as int) =~= old(lane).idxs@.take(old(lane).len as int).push(v));
}

/// `copy_in_place::copy_in_place`: copies the elements `start..end` of the
/// slice to the places from `dest` on, as a memmove does, so the two ranges
/// may overlap.  It panics when `start..end` or the destination reaches
/// past the end of the slice, so both must lie within it.
#[verifier::external_body]
fn copy_within(slice: &mut [u16], start: usize, end: usize, dest: usize)
    requires
        start <= end <= old(slice)@.len(),
        dest + (end - start) <= old(slice)@.len(),
    ensures
        final(slice)@ == Seq::new(
            old(slice)@.len(),
            |i: int|
                if dest <= i < dest + (end - start) {
                    old(slice)@[start + (i - dest)]
                } else {
                    old(slice)@[i]
                },
        ),
{
    copy_in_place::copy_in_place(slice, start..end, dest)
}

} // verus!
