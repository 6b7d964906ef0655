use vstd::prelude::*;

pub mod conductive;
pub mod extract;
pub mod not_gate;
pub mod union_find;
pub mod wire;

pub use conductive::Conductive;
pub use extract::PixelBuffer;
pub use not_gate::NotGate;
pub use union_find::{DisjointSets, UnionFind};
pub use wire::Wire;

use extract::{
    at, connect_gates, crossing_pair, dense_id, detect_gates, gate_input, gate_output,
    gates_in_scan_order, grid_ok, is_crossing, is_not_cell, is_path, joined_by_contacts,
    label_runs, lemma_conductive_in_run, lemma_run_ids_held, lemma_starts_bounded,
    lemma_starts_monotonic, linked, lists_ok, merge_vertical, number_roots, numbers_root,
    path_step, provisional_id, relabel_gates, relabel_map, run_start, starts_before,
    vertical_contact,
};
use not_gate::{random_jitter, TIME_RANDOM};
use union_find::lemma_find_idempotent;

verus! {

/// A circuit extracted from an image, with the state of its wires and gates.
pub struct Simulator {
    pub width: u32,
    pub height: u32,
    pub raw_image: PixelBuffer,
    /// Dense wire id of each pixel, row by row; -1 where there is no wire.
    pub wire_map: Vec<Vec<i32>>,
    pub gates: Vec<NotGate>,
    pub wires: Vec<Wire>,
}

impl Simulator {
    /// The map, gates and wires refer to one another consistently.
    pub open spec fn wf(&self) -> bool {
        &&& self.wire_map@.len() == self.height
        &&& forall|y: int| 0 <= y < self.height ==> (#[trigger] self.wire_map@[y])@.len() == self.width
        &&& forall|y: int, x: int|
            0 <= y < self.height && 0 <= x < self.width ==> -1 <= #[trigger] self.wire_map@[y]@[x]
                < self.wires@.len()
        &&& self.gates@.len() < u32::MAX
        &&& self.wires@.len() < u32::MAX
        &&& forall|g: int|
            0 <= g < self.gates@.len() ==> {
                let gate = #[trigger] self.gates@[g];
                &&& gate.wf()
                &&& 0 <= gate.wire_in_id < self.wires@.len()
                &&& 0 <= gate.wire_out_id < self.wires@.len()
            }
        &&& forall|w: int, k: int|
            0 <= w < self.wires@.len() && 0 <= k < self.wires@[w].gate_in_ids@.len()
                ==> #[trigger] self.wires@[w].gate_in_ids@[k] < self.gates@.len()
        &&& forall|w: int, k: int|
            0 <= w < self.wires@.len() && 0 <= k < self.wires@[w].gate_out_ids@.len()
                ==> #[trigger] self.wires@[w].gate_out_ids@[k] < self.gates@.len()
    }

    /// The level of wire `w`: its stored state when no gate drives it, else
    /// the OR of its driving gates' outputs.
    pub open spec fn wire_level(&self, w: int) -> bool {
        let ids = self.wires@[w].gate_in_ids@;
        if ids.len() == 0 {
            self.wires@[w].state
        } else {
            exists|k: int| 0 <= k < ids.len() && #[trigger] self.gates@[ids[k] as int].state
        }
    }

    /// The extracted structure (map, wiring, gate lists) of `self` and
    /// `other` agree; only wire and gate states may differ.
    pub open spec fn same_shape(&self, other: &Simulator) -> bool {
        &&& self.width == other.width
        &&& self.height == other.height
        &&& self.raw_image == other.raw_image
        &&& self.wire_map@ == other.wire_map@
        &&& self.gates@.len() == other.gates@.len()
        &&& forall|g: int|
            0 <= g < self.gates@.len() ==> {
                let a = #[trigger] self.gates@[g];
                let b = other.gates@[g];
                &&& a.wire_in_id == b.wire_in_id
                &&& a.wire_out_id == b.wire_out_id
                &&& a.x == b.x
                &&& a.y == b.y
                &&& a.dir == b.dir
            }
        &&& self.wires@.len() == other.wires@.len()
        &&& forall|w: int|
            0 <= w < self.wires@.len() ==> (#[trigger] self.wires@[w]).gate_in_ids@
                == other.wires@[w].gate_in_ids@ && self.wires@[w].gate_out_ids@
                == other.wires@[w].gate_out_ids@
    }

    /// `next` is `self` after one step in which gate `g` drew extra progress
    /// `jitters[g]`: every wire takes its level, then every gate moves toward
    /// the negation of its input wire's new state.
    pub open spec fn steps_to(&self, next: &Simulator, jitters: Seq<u32>) -> bool {
        &&& self.same_shape(next)
        &&& forall|w: int|
            0 <= w < self.wires@.len() ==> (#[trigger] next.wires@[w]).state == self.wire_level(w)
        &&& forall|g: int|
            0 <= g < self.gates@.len() ==> {
                let gate = #[trigger] next.gates@[g];
                (gate.state, gate.slow_state as int) == self.gates@[g].stepped(
                    !next.wires@[gate.wire_in_id as int].state,
                    jitters[g] as int,
                )
            }
    }

    /// A pixel holds a wire exactly when it conducts.
    pub open spec fn map_follows_image(&self, img: PixelBuffer) -> bool {
        forall|y: int, x: int|
            0 <= y < self.height && 0 <= x < self.width ==> (#[trigger] self.wire_map@[y]@[x] == -1)
                == !img.cond(x, y)
    }

    /// Touching conductive pixels share a wire, and the two wires of each
    /// crossing each keep their own id on both sides.
    pub open spec fn neighbours_joined(&self, img: PixelBuffer) -> bool {
        let map = self.wire_map@;
        &&& forall|y: int, x: int|
            0 <= y < self.height && 0 <= x && x + 1 < self.width && img.cond(x, y) && img.cond(x + 1, y)
                ==> #[trigger] map[y]@[x] == map[y]@[x + 1]
        &&& forall|y: int, x: int|
            1 <= y < self.height && 0 <= x < self.width && img.cond(x, y - 1) && img.cond(x, y)
                ==> #[trigger] map[y]@[x] == map[y - 1]@[x]
        &&& forall|y: int|
            1 <= y < self.height && 0 < self.width && img.cond(self.width - 1, y - 1) && img.cond(0, y)
                ==> #[trigger] map[y]@[0]
                == map[y - 1]@[self.width - 1]
        &&& forall|y: int, x: int|
            1 <= y < self.height - 1 && 1 <= x < self.width - 1 && #[trigger] is_crossing(map, x, y)
                ==> map[y]@[x - 1] == map[y]@[x + 1] && map[y - 1]@[x] == map[y + 1]@[x]
    }

    /// There is one settled, low gate per NOT symbol, in row-major order of
    /// the symbols, reading the wire at its input side and driving the wire at
    /// its output side.
    pub open spec fn gates_recognised(&self) -> bool {
        let map = self.wire_map@;
        &&& gates_in_scan_order(self.gates@)
        &&& forall|g: int|
            0 <= g < self.gates@.len() ==> {
                let gate = #[trigger] self.gates@[g];
                &&& 1 <= gate.x < self.width - 1
                &&& 1 <= gate.y < self.height - 1
                &&& is_not_cell(map, gate.x as int, gate.y as int)
                &&& gate.wire_in_id == at(map, gate_input(map, gate.x as int, gate.y as int))
                &&& gate.wire_out_id == at(map, gate_output(map, gate.x as int, gate.y as int))
                &&& !gate.state
                &&& gate.slow_state == 0
                &&& gate.dir == 0
            }
        &&& forall|y: int, x: int|
            1 <= y < self.height - 1 && 1 <= x < self.width - 1 && #[trigger] is_not_cell(map, x, y)
                ==> exists|g: int|
                0 <= g < self.gates@.len() && (#[trigger] self.gates@[g]).x == x && self.gates@[g].y == y
    }

    /// Every wire id is held by some pixel.
    pub open spec fn every_wire_held(&self) -> bool {
        forall|w: int|
            0 <= w < self.wires@.len() ==> #[trigger] holds_wire(
                self.wire_map@,
                self.width as int,
                self.height as int,
                w,
            )
    }

    /// Two conductive pixels share a wire exactly when their horizontal runs
    /// are connected through vertical contacts and crossings.
    pub open spec fn wires_are_contacts(&self, img: PixelBuffer) -> bool {
        exists|prov: Seq<Vec<i32>>|
            {
                &&& prov.len() == self.height
                &&& forall|y: int| 0 <= y < self.height ==> (#[trigger] prov[y])@.len() == self.width
                &&& forall|y: int, x: int|
                    0 <= y < self.height && 0 <= x < self.width ==> #[trigger] prov[y]@[x] as int
                        == provisional_id(img, y * self.width + x)
                &&& forall|y1: int, x1: int, y2: int, x2: int|
                    0 <= y1 < self.height && 0 <= x1 < self.width && 0 <= y2 < self.height && 0 <= x2
                        < self.width && #[trigger] self.wire_map@[y1]@[x1] != -1
                        && #[trigger] self.wire_map@[y2]@[x2] != -1 ==> (self.wire_map@[y1]@[x1]
                        == self.wire_map@[y2]@[x2] <==> linked(
                        prov,
                        self.width as int,
                        self.height as int,
                        prov[y1]@[x1],
                        prov[y2]@[x2],
                    ))
            }
    }

    /// Builds the circuit drawn in `image`: wires from conductive pixel runs
    /// joined vertically and through crossings, and the NOT gates.
    #[verifier::rlimit(60)]
    pub fn from_image(image: &PixelBuffer) -> (r: Self)
        requires
            image.wf(),
        ensures
            r.wf(),
            r.width == image.width,
            r.height == image.height,
            r.raw_image.same_pixels(*image),
            r.map_follows_image(*image),
            r.neighbours_joined(*image),
            r.gates_recognised(),
            r.wires_are_contacts(*image),
            r.every_wire_held(),
            lists_ok(r.gates@, r.wires@, r.gates@.len() as int),
            forall|w: int| 0 <= w < r.wires@.len() ==> !(#[trigger] r.wires@[w]).state,
    {
        let raw_image = image.duplicate();
        let w = image.width as usize;
        let h = image.height as usize;
        let ghost img = *image;
        let (mut wire_map, wire_last_id) = label_runs(image);
        let ghost prov = wire_map@;
        let count = wire_last_id + 1;
        let mut wire_merge = DisjointSets::new(count as usize);
        proof {
            assert forall|y: int, x: int| 0 <= y < h && 0 <= x < w implies -1 <= #[trigger] prov[y]@[x]
                && wire_merge.admits(prov[y]@[x]) && (prov[y]@[x] == -1) == !img.cond(x, y) by {
                let k = y * w + x;
                assert(k + 1 <= w * h) by (nonlinear_arith)
                    requires
                        0 <= y < h,
                        0 <= x < w,
                        k == y * w + x,
                ;
                lemma_starts_bounded(img, k + 1);
                lemma_starts_monotonic(img, k + 1, img.num_pixels());
                if img.cond_at(k) {
                    lemma_conductive_in_run(img, k);
                }
            }
            assert(grid_ok(prov, w as int, h as int, wire_merge));
            assert forall|i: i32, j: i32|
                wire_merge.is_id(i) && wire_merge.is_id(j) && #[trigger] wire_merge.rep(i)
                    == #[trigger] wire_merge.rep(j) implies linked(prov, w as int, h as int, i, j) by {
                assert(wire_merge.rep(i) == i);
                assert(wire_merge.rep(j) == j);
                let s = seq![i];
                assert(is_path(prov, w as int, h as int, s));
                assert(s[0] == i && s[s.len() - 1] == j);
            }
        }
        merge_vertical(&wire_map, w, h, &mut wire_merge);
        let ghost u1 = wire_merge;
        let mut gates = detect_gates(&wire_map, w, h, &mut wire_merge);
        let ghost u2 = wire_merge;
        let ghost gates0 = gates@;
        let (wire_remap, mut wires) = number_roots(&mut wire_merge, count);
        let ghost u3 = wire_merge;
        relabel_map(&mut wire_map, w, h, &mut wire_merge, &wire_remap, wires.len());
        relabel_gates(&mut gates, &mut wire_merge, &wire_remap);
        proof {
            assert forall|j: i32| #[trigger] u2.is_id(j) == (0 <= j < count) by {
                assert(u1.is_id(j) == u2.is_id(j));
            }
            assert forall|g: int| 0 <= g < gates@.len() implies 0 <= (#[trigger] gates@[g]).wire_in_id
                < wires@.len() && 0 <= gates@[g].wire_out_id < wires@.len() by {
                let gate = gates0[g];
                assert(u2.is_id(gate.wire_in_id));
                assert(u2.is_id(gate.wire_out_id));
                lemma_find_idempotent(u2, gate.wire_in_id);
                lemma_find_idempotent(u2, gate.wire_out_id);
                assert(u3.rep(gate.wire_in_id) == u2.rep(gate.wire_in_id));
                assert(u3.rep(gate.wire_out_id) == u2.rep(gate.wire_out_id));
            }
        }
        connect_gates(&gates, &mut wires);
        proof {
            let fm = wire_map@;
            assert forall|y: int, x: int| 0 <= y < h && 0 <= x < w implies (#[trigger] fm[y]@[x] == -1)
                == (prov[y]@[x] == -1) && (fm[y]@[x] == -1) == !img.cond(x, y) && (prov[y]@[x] != -1
                ==> fm[y]@[x] == wire_remap@[u2.rep(prov[y]@[x]) as int]) by {
                let v = prov[y]@[x];
                if v != -1 {
                    assert(u2.is_id(v));
                    lemma_find_idempotent(u2, v);
                }
            }
            assert forall|y: int, x: int|
                0 <= y < h && 0 <= x && x + 1 < w && img.cond(x, y) && img.cond(x + 1, y) implies #[trigger] fm[y]@[x]
                == fm[y]@[x + 1] by {
                let k = y * w + x;
                assert(y * w + (x + 1) == k + 1);
                assert(starts_before(img, k + 2) == starts_before(img, k + 1));
                assert(prov[y]@[x] == prov[y]@[x + 1]);
            }
            assert forall|y: int, x: int|
                1 <= y < h && 0 <= x < w && img.cond(x, y - 1) && img.cond(x, y) implies #[trigger] fm[y]@[x]
                == fm[y - 1]@[x] by {
                assert(u1.rep(prov[y - 1]@[x]) == u1.rep(prov[y]@[x]));
                assert(u2.rep(prov[y - 1]@[x]) == u2.rep(prov[y]@[x]));
            }
            assert forall|y: int, x: int|
                1 <= y < h - 1 && 1 <= x < w - 1 && #[trigger] is_crossing(fm, x, y) implies fm[y]@[x
                - 1] == fm[y]@[x + 1] && fm[y - 1]@[x] == fm[y + 1]@[x] by {
                assert(is_crossing(prov, x, y));
            }
            lemma_gates_carry_over(prov, fm, u2, u3, wire_remap@, gates0, gates@, w as int, h as int);
            lemma_wires_are_contacts(prov, fm, u2, wire_remap@, w as int, h as int, count);
            assert forall|j: i32| #[trigger] u2.is_id(j) == (0 <= j < count) by {
                assert(u1.is_id(j) == u2.is_id(j));
            }
            lemma_every_wire_held(img, prov, fm, u2, wire_remap@, wires@.len() as int, count);
            assert forall|y: int|
                1 <= y < h && 0 < w && img.cond(w - 1, y - 1) && img.cond(0, y) implies #[trigger] fm[y]@[0]
                == fm[y - 1]@[w - 1] by {
                let k = (y - 1) * w + (w - 1);
                assert(y * w + 0 == k + 1 && k >= 0) by (nonlinear_arith)
                    requires
                        k == (y - 1) * w + (w - 1),
                        y >= 1,
                        w >= 1,
                ;
                assert(img.cond_at(k));
                assert(img.cond_at(k + 1));
                assert(!run_start(img, k + 1));
                assert(starts_before(img, k + 2) == starts_before(img, k + 1));
                assert(prov[y - 1]@[w - 1] == prov[y]@[0]);
            }
        }
        let ghost fm = wire_map@;
        let ghost gf = gates@;
        let r = Simulator { width: image.width, height: image.height, raw_image, wire_map, gates, wires };
        proof {
            assert(r.wire_map@ == fm);
            assert(r.gates@ == gf);
            assert(r.gates_recognised());
            assert(r.wires_are_contacts(img));
            assert(r.every_wire_held());
        }
        r
    }

    /// `jitters` gives one admissible extra progress per gate.
    pub open spec fn jitters_ok(&self, jitters: Seq<u32>) -> bool {
        jitters.len() == self.gates@.len() && forall|g: int|
            0 <= g < jitters.len() ==> #[trigger] jitters[g] < TIME_RANDOM
    }

    /// `states` runs from `self` to `last`, one step per entry of `jitters`.
    pub open spec fn runs_to(
        &self,
        last: &Simulator,
        states: Seq<Simulator>,
        jitters: Seq<Seq<u32>>,
    ) -> bool {
        &&& states.len() == jitters.len() + 1
        &&& states[0] == *self
        &&& states[states.len() - 1] == *last
        &&& forall|i: int|
            0 <= i < jitters.len() ==> states[i].jitters_ok(#[trigger] jitters[i]) && states[i].steps_to(
                &states[i + 1],
                jitters[i],
            )
    }

    /// Set state of the wire the coordinates points to.
    /// If there is no wire the coordinates points to, returns false.
    /// Otherwise returns true.
    pub fn set(&mut self, x: u32, y: u32, state: bool) -> (r: bool)
        requires
            old(self).wf(),
            x < old(self).width,
            y < old(self).height,
        ensures
            final(self).wf(),
            final(self).same_shape(old(self)),
            r == (old(self).wire_map@[y as int]@[x as int] != -1),
            final(self).gates@ == old(self).gates@,
            forall|w: int|
                0 <= w < old(self).wires@.len() ==> (#[trigger] final(self).wires@[w]).state == if r
                    && w == old(self).wire_map@[y as int]@[x as int] {
                    state
                } else {
                    old(self).wires@[w].state
                },
    {
        let wire_id = self.wire_map[y as usize][x as usize];
        if wire_id == -1 {
            return false;
        }
        self.wires[wire_id as usize].state = state;
        true
    }

    /// Get state of the wire.
    /// If there are some gates connected to the wire, the state of the wire is ON if at least one of the gates is ON.
    /// If there are no gates connected to the wire, the state of the wire can be set by user interaction.
    pub fn get_wire_state(&self, wire_id: u32) -> (r: bool)
        requires
            self.wf(),
            wire_id < self.wires@.len(),
        ensures
            r == self.wire_level(wire_id as int),
    {
        let wire = &self.wires[wire_id as usize];
        if wire.gate_in_ids.len() == 0 {
            return wire.state;
        }
        let mut k: usize = 0;
        while k < wire.gate_in_ids.len()
            invariant
                self.wf(),
                wire_id < self.wires@.len(),
                *wire == self.wires@[wire_id as int],
                k <= wire.gate_in_ids@.len(),
                forall|j: int| 0 <= j < k ==> !(#[trigger] self.gates@[wire.gate_in_ids@[j] as int]).state,
            decreases wire.gate_in_ids@.len() - k,
        {
            let gate_id = wire.gate_in_ids[k];
            if self.gates[gate_id as usize].state {
                return true;
            }
            k = k + 1;
        }
        false
    }

    /// One step with the given extra progress for each gate.
    pub fn simulate_one_step_with_jitter(&mut self, jitters: &Vec<u32>)
        requires
            old(self).wf(),
            jitters@.len() == old(self).gates@.len(),
            forall|g: int| 0 <= g < jitters@.len() ==> #[trigger] jitters@[g] < TIME_RANDOM,
        ensures
            final(self).wf(),
            old(self).steps_to(final(self), jitters@),
    {
        let ghost s0 = *self;
        let mut wire_id: usize = 0;
        while wire_id < self.wires.len()
            invariant
                self.wf(),
                self.same_shape(&s0),
                self.gates@ == s0.gates@,
                wire_id <= self.wires@.len(),
                forall|w: int|
                    0 <= w < wire_id ==> (#[trigger] self.wires@[w]).state == s0.wire_level(w),
                forall|w: int|
                    wire_id <= w < self.wires@.len() ==> #[trigger] self.wires@[w] == s0.wires@[w],
            decreases self.wires@.len() - wire_id,
        {
            let wire_state = self.get_wire_state(wire_id as u32);
            self.wires[wire_id].state = wire_state;
            wire_id = wire_id + 1;
        }
        let ghost s1 = *self;
        let mut g: usize = 0;
        while g < self.gates.len()
            invariant
                self.wf(),
                self.same_shape(&s0),
                self.wires@ == s1.wires@,
                forall|w: int|
                    0 <= w < self.wires@.len() ==> (#[trigger] self.wires@[w]).state == s0.wire_level(w),
                jitters@.len() == self.gates@.len(),
                forall|j: int| 0 <= j < jitters@.len() ==> #[trigger] jitters@[j] < TIME_RANDOM,
                g <= self.gates@.len(),
                forall|j: int| g <= j < self.gates@.len() ==> #[trigger] self.gates@[j] == s0.gates@[j],
                forall|j: int|
                    0 <= j < g ==> {
                        let gate = #[trigger] self.gates@[j];
                        (gate.state, gate.slow_state as int) == s0.gates@[j].stepped(
                            !self.wires@[gate.wire_in_id as int].state,
                            jitters@[j] as int,
                        )
                    },
            decreases self.gates@.len() - g,
        {
            let input = self.gates[g].wire_in_id as usize;
            let wire_state = self.wires[input].state;
            self.gates[g].update_state_with_jitter(!wire_state, jitters[g]);
            g = g + 1;
        }
    }

    /// One step, each gate drawing fresh random extra progress.
    pub fn simulate_one_step(&mut self)
        requires
            old(self).wf(),
        ensures
            final(self).wf(),
            exists|jitters: Seq<u32>|
                old(self).jitters_ok(jitters) && #[trigger] old(self).steps_to(final(self), jitters),
    {
        let mut jitters: Vec<u32> = Vec::new();
        while jitters.len() < self.gates.len()
            invariant
                jitters@.len() <= self.gates@.len(),
                forall|g: int| 0 <= g < jitters@.len() ==> #[trigger] jitters@[g] < TIME_RANDOM,
            decreases self.gates@.len() - jitters@.len(),
        {
            jitters.push(random_jitter());
        }
        self.simulate_one_step_with_jitter(&jitters);
    }

    /// Runs exactly `steps` steps.
    pub fn simulate(&mut self, steps: u32)
        requires
            old(self).wf(),
        ensures
            final(self).wf(),
            final(self).same_shape(old(self)),
            exists|states: Seq<Simulator>, jitters: Seq<Seq<u32>>|
                jitters.len() == steps && #[trigger] old(self).runs_to(final(self), states, jitters),
    {
        let ghost s0 = *self;
        let ghost mut states: Seq<Simulator> = seq![s0];
        let ghost mut all_jitters: Seq<Seq<u32>> = Seq::empty();
        let mut i: u32 = 0;
        while i < steps
            invariant
                self.wf(),
                self.same_shape(&s0),
                i <= steps,
                all_jitters.len() == i,
                s0.runs_to(self, states, all_jitters),
            decreases steps - i,
        {
            let ghost before = *self;
            self.simulate_one_step();
            proof {
                let j = choose|j: Seq<u32>| before.jitters_ok(j) && #[trigger] before.steps_to(self, j);
                let old_states = states;
                let old_jitters = all_jitters;
                states = states.push(*self);
                all_jitters = all_jitters.push(j);
                assert forall|k: int| 0 <= k < all_jitters.len() implies states[k].jitters_ok(
                    #[trigger] all_jitters[k],
                ) && states[k].steps_to(&states[k + 1], all_jitters[k]) by {
                    if k < old_jitters.len() {
                        assert(all_jitters[k] == old_jitters[k]);
                        assert(states[k] == old_states[k]);
                        assert(states[k + 1] == old_states[k + 1]);
                    }
                }
            }
            i = i + 1;
        }
        proof {
            assert(s0.runs_to(self, states, all_jitters));
        }
    }
}

/// Some pixel of `map` holds wire `w`.
pub open spec fn holds_wire(map: Seq<Vec<i32>>, width: int, height: int, w: int) -> bool {
    exists|y: int, x: int| 0 <= y < height && 0 <= x < width && #[trigger] map[y]@[x] == w
}

/// Each dense id numbers a root, and each root is a run that some pixel
/// holds, so some pixel holds each dense id.
proof fn lemma_every_wire_held(
    img: PixelBuffer,
    prov: Seq<Vec<i32>>,
    fm: Seq<Vec<i32>>,
    u2: DisjointSets,
    remap: Seq<i32>,
    n_wires: int,
    count: i32,
)
    requires
        img.wf(),
        u2.wf(),
        count == starts_before(img, img.num_pixels()),
        forall|j: i32| #[trigger] u2.is_id(j) == (0 <= j < count),
        prov.len() == img.height,
        forall|y: int| 0 <= y < img.height ==> (#[trigger] prov[y])@.len() == img.width,
        forall|y: int, x: int|
            0 <= y < img.height && 0 <= x < img.width ==> #[trigger] prov[y]@[x] as int
                == provisional_id(img, y * img.width + x),
        forall|y: int, x: int|
            0 <= y < img.height && 0 <= x < img.width ==> (#[trigger] fm[y]@[x] == -1) == (prov[y]@[x] == -1)
                && (prov[y]@[x] != -1 ==> fm[y]@[x] == remap[u2.rep(prov[y]@[x]) as int]),
        forall|w: int| 0 <= w < n_wires ==> #[trigger] numbers_root(u2, remap, count as int, w),
    ensures
        forall|w: int| 0 <= w < n_wires ==> #[trigger] holds_wire(fm, img.width as int, img.height as int, w),
{
    let width = img.width as int;
    let height = img.height as int;
    assert forall|w: int| 0 <= w < n_wires implies #[trigger] holds_wire(fm, width, height, w) by {
        assert(numbers_root(u2, remap, count as int, w));
        let j = choose|j: i32| 0 <= j < count && u2.rep(j) == j && #[trigger] remap[j as int] == w;
        lemma_run_ids_held(img, img.num_pixels(), j as int);
        let k = choose|k: int|
            0 <= k < img.num_pixels() && img.cond_at(k) && #[trigger] provisional_id(img, k) == j;
        let y = k / width;
        let x = k % width;
        assert(0 <= y < height && 0 <= x < width && k == y * width + x) by (nonlinear_arith)
            requires
                0 <= k < width * height,
                y == k / width,
                x == k % width,
                width > 0,
        ;
        assert(prov[y]@[x] == j);
        assert(fm[y]@[x] == w);
    }
}

/// Every run along a path of contacts has the representative of the first.
proof fn lemma_path_same_rep(
    u2: DisjointSets,
    prov: Seq<Vec<i32>>,
    width: int,
    height: int,
    s: Seq<i32>,
    n: int,
)
    requires
        u2.wf(),
        grid_ok(prov, width, height, u2),
        is_path(prov, width, height, s),
        s[0] != -1,
        0 <= n < s.len(),
        forall|y: int, x: int|
            1 <= y < height && 0 <= x < width && prov[y - 1]@[x] >= 0 && prov[y]@[x] >= 0 ==> u2.rep(
                #[trigger] prov[y - 1]@[x],
            ) == u2.rep(prov[y]@[x]),
        forall|y: int, x: int|
            1 <= y < height - 1 && 1 <= x < width - 1 && #[trigger] is_crossing(prov, x, y) ==> {
                &&& u2.rep(prov[y]@[x - 1]) == u2.rep(prov[y]@[x + 1])
                &&& u2.rep(prov[y - 1]@[x]) == u2.rep(prov[y + 1]@[x])
            },
    ensures
        s[n] != -1,
        u2.rep(s[n]) == u2.rep(s[0]),
    decreases n,
{
    if n > 0 {
        lemma_path_same_rep(u2, prov, width, height, s, n - 1);
        let a = s[n - 1];
        let b = s[n];
        assert(path_step(prov, width, height, s, n - 1));
        if a != b {
            if vertical_contact(prov, width, height, a, b) {
                let (y, x) = choose|y: int, x: int|
                    1 <= y < height && 0 <= x < width && a != -1 && b != -1 && #[trigger] prov[y - 1]@[x] == a
                        && #[trigger] prov[y]@[x] == b;
                assert(u2.rep(prov[y - 1]@[x]) == u2.rep(prov[y]@[x]));
            } else if vertical_contact(prov, width, height, b, a) {
                let (y, x) = choose|y: int, x: int|
                    1 <= y < height && 0 <= x < width && b != -1 && a != -1 && #[trigger] prov[y - 1]@[x] == b
                        && #[trigger] prov[y]@[x] == a;
                assert(u2.rep(prov[y - 1]@[x]) == u2.rep(prov[y]@[x]));
            } else if crossing_pair(prov, width, height, a, b) {
                let (y, x) = choose|y: int, x: int|
                    1 <= y < height - 1 && 1 <= x < width - 1 && #[trigger] is_crossing(prov, x, y) && ((prov[y]@[x
                        - 1] == a && prov[y]@[x + 1] == b) || (prov[y - 1]@[x] == a && prov[y + 1]@[x] == b));
                assert(is_crossing(prov, x, y));
            } else {
                let (y, x) = choose|y: int, x: int|
                    1 <= y < height - 1 && 1 <= x < width - 1 && #[trigger] is_crossing(prov, x, y) && ((prov[y]@[x
                        - 1] == b && prov[y]@[x + 1] == a) || (prov[y - 1]@[x] == b && prov[y + 1]@[x] == a));
                assert(is_crossing(prov, x, y));
            }
        }
    }
}

/// Dense ids are given per partition, so pixels sharing one come from
/// connected runs.
proof fn lemma_wires_are_contacts(
    prov: Seq<Vec<i32>>,
    fm: Seq<Vec<i32>>,
    u2: DisjointSets,
    remap: Seq<i32>,
    width: int,
    height: int,
    count: i32,
)
    requires
        u2.wf(),
        grid_ok(prov, width, height, u2),
        joined_by_contacts(u2, prov, width, height),
        forall|j: i32| #[trigger] u2.is_id(j) == (0 <= j < count),
        forall|i: i32, j: i32|
            0 <= i < j < count && #[trigger] u2.rep(i) == i && #[trigger] u2.rep(j) == j ==> remap[i as int]
                < remap[j as int],
        fm.len() == height,
        forall|y: int| 0 <= y < height ==> (#[trigger] fm[y])@.len() == width,
        forall|y: int, x: int|
            0 <= y < height && 0 <= x < width ==> (#[trigger] fm[y]@[x] == -1) == (prov[y]@[x] == -1)
                && (prov[y]@[x] != -1 ==> fm[y]@[x] == remap[u2.rep(prov[y]@[x]) as int]),
        forall|y: int, x: int|
            1 <= y < height && 0 <= x < width && prov[y - 1]@[x] >= 0 && prov[y]@[x] >= 0 ==> u2.rep(
                #[trigger] prov[y - 1]@[x],
            ) == u2.rep(prov[y]@[x]),
        forall|y: int, x: int|
            1 <= y < height - 1 && 1 <= x < width - 1 && #[trigger] is_crossing(prov, x, y) ==> {
                &&& u2.rep(prov[y]@[x - 1]) == u2.rep(prov[y]@[x + 1])
                &&& u2.rep(prov[y - 1]@[x]) == u2.rep(prov[y + 1]@[x])
            },
    ensures
        forall|y1: int, x1: int, y2: int, x2: int|
            0 <= y1 < height && 0 <= x1 < width && 0 <= y2 < height && 0 <= x2 < width
                && #[trigger] fm[y1]@[x1] != -1 && #[trigger] fm[y2]@[x2] != -1 ==> (fm[y1]@[x1]
                == fm[y2]@[x2] <==> linked(prov, width, height, prov[y1]@[x1], prov[y2]@[x2])),
{
    assert forall|y1: int, x1: int, y2: int, x2: int|
        0 <= y1 < height && 0 <= x1 < width && 0 <= y2 < height && 0 <= x2 < width
            && #[trigger] fm[y1]@[x1] != -1 && #[trigger] fm[y2]@[x2] != -1 && linked(
            prov,
            width,
            height,
            prov[y1]@[x1],
            prov[y2]@[x2],
        ) implies fm[y1]@[x1] == fm[y2]@[x2] by {
        let p = prov[y1]@[x1];
        let q = prov[y2]@[x2];
        let s = choose|s: Seq<i32>| is_path(prov, width, height, s) && s[0] == p && s[s.len() - 1] == q;
        lemma_path_same_rep(u2, prov, width, height, s, s.len() - 1);
    }

    assert forall|y1: int, x1: int, y2: int, x2: int|
        0 <= y1 < height && 0 <= x1 < width && 0 <= y2 < height && 0 <= x2 < width
            && #[trigger] fm[y1]@[x1] != -1 && #[trigger] fm[y2]@[x2] != -1 && fm[y1]@[x1] == fm[y2]@[x2] implies linked(
            prov,
            width,
            height,
            prov[y1]@[x1],
            prov[y2]@[x2],
        ) by {
        let p = prov[y1]@[x1];
        let q = prov[y2]@[x2];
        assert(u2.is_id(p));
        assert(u2.is_id(q));
        lemma_find_idempotent(u2, p);
        lemma_find_idempotent(u2, q);
        let rp = u2.rep(p);
        let rq = u2.rep(q);
        if rp < rq {
            assert(remap[rp as int] < remap[rq as int]);
        } else if rq < rp {
            assert(remap[rq as int] < remap[rp as int]);
        }
        assert(rp == rq);
    }
}

/// Relabelling keeps each recognised gate attached to the wires at its sides.
proof fn lemma_gates_carry_over(
    prov: Seq<Vec<i32>>,
    fm: Seq<Vec<i32>>,
    u2: DisjointSets,
    u3: DisjointSets,
    remap: Seq<i32>,
    gates0: Seq<NotGate>,
    gates: Seq<NotGate>,
    width: int,
    height: int,
)
    requires
        u2.wf(),
        grid_ok(prov, width, height, u2),
        fm.len() == height,
        forall|y: int| 0 <= y < height ==> (#[trigger] fm[y])@.len() == width,
        forall|y: int, x: int|
            0 <= y < height && 0 <= x < width ==> (#[trigger] fm[y]@[x] == -1) == (prov[y]@[x] == -1)
                && (prov[y]@[x] != -1 ==> fm[y]@[x] == remap[u2.rep(prov[y]@[x]) as int]),
        extract::gates_match(prov, width, height, u2, gates0),
        forall|y: int, x: int|
            1 <= y < height - 1 && 1 <= x < width - 1 && #[trigger] is_not_cell(prov, x, y) ==> exists|g: int|
                0 <= g < gates0.len() && (#[trigger] gates0[g]).x == x && gates0[g].y == y,
        forall|j: i32| u2.admits(j) ==> #[trigger] u3.rep(j) == u2.rep(j),
        gates_in_scan_order(gates0),
        gates.len() == gates0.len(),
        forall|g: int|
            0 <= g < gates0.len() ==> {
                let a = #[trigger] gates[g];
                let b = gates0[g];
                &&& a.wire_in_id == dense_id(u3, remap, b.wire_in_id)
                &&& a.wire_out_id == dense_id(u3, remap, b.wire_out_id)
                &&& a.state == b.state
                &&& a.slow_state == b.slow_state
                &&& a.x == b.x
                &&& a.y == b.y
                &&& a.dir == b.dir
            },
    ensures
        gates_in_scan_order(gates),
        forall|g: int|
            0 <= g < gates.len() ==> {
                let gate = #[trigger] gates[g];
                &&& 1 <= gate.x < width - 1
                &&& 1 <= gate.y < height - 1
                &&& is_not_cell(fm, gate.x as int, gate.y as int)
                &&& gate.wire_in_id == at(fm, gate_input(fm, gate.x as int, gate.y as int))
                &&& gate.wire_out_id == at(fm, gate_output(fm, gate.x as int, gate.y as int))
                &&& !gate.state
                &&& gate.slow_state == 0
                &&& gate.dir == 0
            },
        forall|y: int, x: int|
            1 <= y < height - 1 && 1 <= x < width - 1 && #[trigger] is_not_cell(fm, x, y) ==> exists|g: int|
                0 <= g < gates.len() && (#[trigger] gates[g]).x == x && gates[g].y == y,
{
        assert forall|g: int| 0 <= g < gates.len() implies {
            let gate = #[trigger] gates[g];
            &&& 1 <= gate.x < width - 1
            &&& 1 <= gate.y < height - 1
            &&& is_not_cell(fm, gate.x as int, gate.y as int)
            &&& gate.wire_in_id == at(fm, gate_input(fm, gate.x as int, gate.y as int))
            &&& gate.wire_out_id == at(fm, gate_output(fm, gate.x as int, gate.y as int))
            &&& !gate.state
            &&& gate.slow_state == 0
            &&& gate.dir == 0
        } by {
            let gate = gates[g];
            let g0 = gates0[g];
            let (x, y) = (gate.x as int, gate.y as int);
            assert(is_not_cell(prov, x, y));
            assert(gate_input(fm, x, y) == gate_input(prov, x, y));
            assert(gate_output(fm, x, y) == gate_output(prov, x, y));
            let ci = gate_input(prov, x, y);
            let co = gate_output(prov, x, y);
            assert(u2.rep(g0.wire_in_id) == u2.rep(at(prov, ci)));
            assert(u2.rep(g0.wire_out_id) == u2.rep(at(prov, co)));
            assert(u2.is_id(g0.wire_in_id));
            assert(u2.is_id(g0.wire_out_id));
            assert(u3.rep(g0.wire_in_id) == u2.rep(g0.wire_in_id));
            assert(u3.rep(g0.wire_out_id) == u2.rep(g0.wire_out_id));
            assert(prov[ci.1]@[ci.0] != -1);
            assert(prov[co.1]@[co.0] != -1);
            assert(fm[ci.1]@[ci.0] == remap[u2.rep(prov[ci.1]@[ci.0]) as int]);
            assert(fm[co.1]@[co.0] == remap[u2.rep(prov[co.1]@[co.0]) as int]);
        }
        assert forall|y: int, x: int|
            1 <= y < height - 1 && 1 <= x < width - 1 && #[trigger] is_not_cell(fm, x, y) implies exists|g: int|
            0 <= g < gates.len() && (#[trigger] gates[g]).x == x && gates[g].y == y by {
            assert(is_not_cell(prov, x, y));
            let g = choose|g: int|
                0 <= g < gates0.len() && (#[trigger] gates0[g]).x == x && gates0[g].y == y;
            assert(gates[g].x == x && gates[g].y == y);
        }
}

/// A driven wire reads true exactly when one of its driving gates is on; with
/// two drivers, when either is.
pub proof fn lemma_wired_or(s: Simulator, w: int)
    requires
        s.wf(),
        0 <= w < s.wires@.len(),
        s.wires@[w].gate_in_ids@.len() == 2,
    ensures
        s.wire_level(w) == (s.gates@[s.wires@[w].gate_in_ids@[0] as int].state
            || s.gates@[s.wires@[w].gate_in_ids@[1] as int].state),
{
    let ids = s.wires@[w].gate_in_ids@;
    if s.wire_level(w) {
        let k = choose|k: int| 0 <= k < ids.len() && #[trigger] s.gates@[ids[k] as int].state;
        assert(k == 0 || k == 1);
    }
    if s.gates@[ids[0] as int].state {
        assert(0 <= 0 < ids.len() && s.gates@[ids[0] as int].state);
    }
    if s.gates@[ids[1] as int].state {
        assert(0 <= 1 < ids.len() && s.gates@[ids[1] as int].state);
    }
}

} // verus!
