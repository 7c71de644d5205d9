//! How a patch that arrives from the server changes the model of an
//! aerodrome.

use crate::config::{Aerodrome, BlockState};
use crate::model::{AeroView, State, Timer};
use crate::mutation::{keep, local_state};
use crate::protocol::{BlockStateView, PatchView};
use vstd::prelude::*;

verus! {

/// Whether profile `i` is the first one of `c` called `id`.
pub open spec fn is_first_profile(c: Aerodrome, id: Seq<char>, i: int) -> bool {
    &&& 0 <= i < c.profiles.len()
    &&& c.profiles[i].id@ == id
    &&& forall|j: int| 0 <= j < i ==> c.profiles[j].id@ != id
}

/// The first profile of `c` called `id`, if there is one.
pub open spec fn profile_named(c: Aerodrome, id: Seq<char>) -> Option<usize> {
    if exists|i: int| is_first_profile(c, id, i) {
        Some((choose|i: int| is_first_profile(c, id, i)) as usize)
    } else {
        None
    }
}

/// There is only one first profile of a name.
pub proof fn lemma_profile_named(c: Aerodrome, id: Seq<char>, i: int)
    requires
        is_first_profile(c, id, i),
    ensures
        profile_named(c, id) == Some(i as usize),
{
    let j = choose|j: int| is_first_profile(c, id, j);
    if j < i {
        assert(c.profiles[j].id@ != id);
    } else if i < j {
        assert(c.profiles[i].id@ != id);
    }
}

impl AeroView {
    /// The server names a profile: where the configuration has it, it becomes
    /// active and all timers are cancelled.
    pub open spec fn apply_profile(self, profile: Option<Seq<char>>) -> AeroView {
        match profile {
            Some(id) => match profile_named(self.config, id) {
                Some(i) => AeroView {
                    profile: i,
                    node_timers: Seq::empty(),
                    block_timers: Seq::empty(),
                    ..self
                },
                None => self,
            },
            None => self,
        }
    }

    /// The value that `m` gives node `i`, if it names the node.
    pub open spec fn node_update(self, m: Map<Seq<char>, bool>, i: int) -> Option<bool> {
        let id = self.config.nodes[i].id@;
        if m.contains_key(id) {
            Some(m[id])
        } else {
            None
        }
    }

    /// The timers that survive the values of `m` for the nodes below `limit`:
    /// all but those of a node that `m` names.
    pub open spec fn nodes_kept(self, m: Map<Seq<char>, bool>, limit: int) -> spec_fn(Timer) -> bool {
        |t: Timer| !(t.index < limit && self.node_update(m, t.index as int) is Some)
    }

    /// The server gives the node values of `m`: each named node takes the
    /// value as confirmed, has nothing pending any more, and loses its
    /// timer, whether the value is the one that was pending or another.
    pub open spec fn apply_nodes(self, m: Map<Seq<char>, bool>) -> AeroView {
        AeroView {
            nodes: Seq::new(
                self.nodes.len(),
                |i: int|
                    match self.node_update(m, i) {
                        Some(v) => State { current: v, pending: None },
                        None => self.nodes[i],
                    },
            ),
            node_timers: keep(self.node_timers, self.nodes_kept(m, self.nodes.len() as int)),
            ..self
        }
    }

    /// The state that `m` gives block `b`, if it names the block and its
    /// route, if any, runs between nodes the configuration knows.
    pub open spec fn block_update(self, m: Map<Seq<char>, BlockStateView>, b: int) -> Option<
        BlockState,
    > {
        let id = self.config.blocks[b].id@;
        if m.contains_key(id) {
            local_state(self.config, m[id])
        } else {
            None
        }
    }

    /// As `nodes_kept`, for blocks.
    pub open spec fn blocks_kept(self, m: Map<Seq<char>, BlockStateView>, limit: int) -> spec_fn(
        Timer,
    ) -> bool {
        |t: Timer| !(t.index < limit && self.block_update(m, t.index as int) is Some)
    }

    /// As `apply_nodes`, for blocks.
    pub open spec fn apply_blocks(self, m: Map<Seq<char>, BlockStateView>) -> AeroView {
        AeroView {
            blocks: Seq::new(
                self.blocks.len(),
                |b: int|
                    match self.block_update(m, b) {
                        Some(s) => State { current: s, pending: None },
                        None => self.blocks[b],
                    },
            ),
            block_timers: keep(self.block_timers, self.blocks_kept(m, self.blocks.len() as int)),
            ..self
        }
    }

    /// A patch arrives from the server.
    pub open spec fn apply_patch(self, patch: PatchView) -> AeroView {
        self.apply_profile(patch.profile).apply_nodes(patch.nodes).apply_blocks(patch.blocks)
    }
}

} // verus!
