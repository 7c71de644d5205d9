//! What a screen decides without drawing: what a click means, and where the
//! clickable targets lie.

use crate::config::{BlockState, NodeCondition};
use vstd::prelude::*;

verus! {

/// Which button was clicked.
#[derive(Clone, Copy, Debug, Hash, PartialEq, Eq, PartialOrd, Ord, Structural)]
pub enum ClickType {
    Primary,
    Auxiliary,
}

/// What lies under a point of the screen.
#[derive(Clone, Copy, Debug, PartialEq, Eq, Structural)]
pub enum Target {
    Nothing,
    Node(u16),
    Block(u16),
}

/// How long a router node stays selected, in milliseconds.
pub const DESELECT_AFTER: u64 = 3_000;

/// What a click asks for.
#[derive(Clone, Copy, Debug)]
pub enum ClickAction {
    /// Nothing.
    Nothing,
    /// Turn the node over: lit to dark, dark to lit.
    ToggleNode(usize),
    /// Route from the first node to the second.
    Route(usize, usize),
    /// Show the scratchpad text of the node.
    Scratchpad(usize),
    /// Set the block.
    SetBlock(usize, BlockState),
}

/// The router node that was clicked last, and when.
pub type Selection = Option<(usize, u64)>;

/// Whether a node selected at `at` is still selected at `now`.
pub open spec fn fresh(at: u64, now: u64) -> bool {
    now - at < DESELECT_AFTER
}

/// What a click on `target` asks for. `condition` is how the active
/// profile drives the node under the click, where there is one.
pub open spec fn click_action(
    target: Target,
    click: ClickType,
    condition: NodeCondition,
    selection: Selection,
    now: u64,
) -> ClickAction {
    match target {
        Target::Nothing => ClickAction::Nothing,
        Target::Node(id) => match click {
            ClickType::Auxiliary => ClickAction::Scratchpad(id as usize),
            ClickType::Primary => match condition {
                NodeCondition::Fixed(_) => ClickAction::Nothing,
                NodeCondition::Direct(_) => ClickAction::ToggleNode(id as usize),
                NodeCondition::Router => match selection {
                    Some((from, at)) => if fresh(at, now) {
                        ClickAction::Route(from, id as usize)
                    } else {
                        ClickAction::Nothing
                    },
                    None => ClickAction::Nothing,
                },
            },
        },
        Target::Block(id) => ClickAction::SetBlock(
            id as usize,
            match click {
                ClickType::Primary => BlockState::Clear,
                ClickType::Auxiliary => BlockState::Relax,
            },
        ),
    }
}

/// What is selected after a click: a router node that was clicked with the
/// primary button; on a screen that shows the aerodrome in place (`geo`), a
/// click on nothing keeps the selection; every other click drops it.
pub open spec fn click_selection(
    target: Target,
    click: ClickType,
    condition: NodeCondition,
    selection: Selection,
    geo: bool,
    now: u64,
) -> Selection {
    match target {
        Target::Nothing => if geo {
            selection
        } else {
            None
        },
        Target::Node(id) => if click == ClickType::Primary && condition == NodeCondition::Router {
            Some((id as usize, now))
        } else {
            None
        },
        Target::Block(_) => None,
    }
}

/// Decides what a click at time `now` (milliseconds) asks for and what is
/// selected after it.
pub fn handle_click(
    target: Target,
    click: ClickType,
    condition: NodeCondition,
    selection: Selection,
    geo: bool,
    now: u64,
) -> (r: (ClickAction, Selection))
    ensures
        r.0 == click_action(target, click, condition, selection, now),
        r.1 == click_selection(target, click, condition, selection, geo, now),
{
    match target {
        Target::Nothing => (
            ClickAction::Nothing,
            if geo {
                selection
            } else {
                None
            },
        ),
        Target::Node(id) => match click {
            ClickType::Auxiliary => (ClickAction::Scratchpad(id as usize), None),
            ClickType::Primary => match condition {
                NodeCondition::Fixed(_) => (ClickAction::Nothing, None),
                NodeCondition::Direct(_) => (ClickAction::ToggleNode(id as usize), None),
                NodeCondition::Router => {
                    let action = match selection {
                        Some((from, at)) => if now >= at && now - at < DESELECT_AFTER {
                            ClickAction::Route(from, id as usize)
                        } else if now < at {
                            ClickAction::Route(from, id as usize)
                        } else {
                            ClickAction::Nothing
                        },
                        None => ClickAction::Nothing,
                    };
                    (action, Some((id as usize, now)))
                },
            },
        },
        Target::Block(id) => (
            ClickAction::SetBlock(
                id as usize,
                match click {
                    ClickType::Primary => BlockState::Clear,
                    ClickType::Auxiliary => BlockState::Relax,
                },
            ),
            None,
        ),
    }
}

/// Whether the background is to be drawn again: it was asked for, or
/// control, the presence of data or the profile changed since the last
/// time.
pub open spec fn refresh_required(explicit: bool, last: (bool, bool, usize), now: (bool, bool, usize)) -> bool {
    explicit || last != now
}

/// Tests `refresh_required`.
pub fn is_background_refresh_required(
    explicit: bool,
    last: (bool, bool, usize),
    now: (bool, bool, usize),
) -> (r: bool)
    ensures
        r == refresh_required(explicit, last, now),
{
    explicit || last.0 != now.0 || last.1 != now.1 || last.2 != now.2
}

/// A grid that tells for each point of a screen what lies there.
#[derive(Debug)]
pub struct Lookup2d<T> {
    pub data: Vec<T>,
    pub width: usize,
}

impl<T: Copy> Lookup2d<T> {
    /// The cell that a point falls into: its row and column, or the last
    /// cell where that is beyond the grid.
    pub open spec fn cell(&self, x: usize, y: usize) -> int {
        if x + y * self.width < self.data.len() {
            x + y * self.width
        } else {
            self.data.len() - 1
        }
    }

    /// A grid of `width` by `height` cells that all hold `item`.
    pub fn new(item: T, width: usize, height: usize) -> (r: Self)
        requires
            width * height <= usize::MAX,
        ensures
            r.width == width,
            r.data.len() == width * height,
            forall|i: int| 0 <= i < r.data.len() ==> r.data[i] == item,
    {
        let mut data: Vec<T> = Vec::new();
        let mut y: usize = 0;
        while y < height
            invariant
                y <= height,
                width * height <= usize::MAX,
                data.len() == width * y,
                forall|i: int| 0 <= i < data.len() ==> data[i] == item,
            decreases height - y,
        {
            let mut x: usize = 0;
            assert(width * (y + 1) <= width * height) by (nonlinear_arith)
                requires
                    y + 1 <= height,
            ;
            assert(width * (y + 1) == width * y + width) by (nonlinear_arith);
            while x < width
                invariant
                    x <= width,
                    width * y + width <= usize::MAX,
                    data.len() == width * y + x,
                    forall|i: int| 0 <= i < data.len() ==> data[i] == item,
                decreases width - x,
            {
                data.push(item);
                x += 1;
            }
            y += 1;
        }
        Lookup2d { data, width }
    }

    /// What lies at the point `(x, y)`.
    pub fn sample(&self, x: usize, y: usize) -> (r: &T)
        requires
            self.data.len() > 0,
        ensures
            *r == self.data[self.cell(x, y)],
    {
        assert(y * self.width <= 0xFFFF_FFFF_FFFF_FFFF * 0xFFFF_FFFF_FFFF_FFFF) by (nonlinear_arith)
            requires
                0 <= y <= 0xFFFF_FFFF_FFFF_FFFF,
                0 <= self.width <= 0xFFFF_FFFF_FFFF_FFFF,
        ;
        let at: u128 = x as u128 + (y as u128) * (self.width as u128);
        if at < self.data.len() as u128 {
            &self.data[at as usize]
        } else {
            &self.data[self.data.len() - 1]
        }
    }

    /// Makes every cell hold `item`.
    pub fn clear(&mut self, item: T)
        ensures
            final(self).width == old(self).width,
            final(self).data.len() == old(self).data.len(),
            forall|i: int| 0 <= i < final(self).data.len() ==> final(self).data[i] == item,
    {
        let n = self.data.len();
        let mut i: usize = 0;
        while i < n
            invariant
                i <= n,
                n == self.data.len(),
                self.width == old(self).width,
                forall|j: int| 0 <= j < i ==> self.data[j] == item,
            decreases n - i,
        {
            self.data[i] = item;
            i += 1;
        }
    }
}

} // verus!
