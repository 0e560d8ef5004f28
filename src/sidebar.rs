use vstd::prelude::*;

use crate::a_star::AStar;
use crate::algorithm::{Algorithm, AlgorithmType, AnyAlgorithm};
use crate::grid::{Grid, GridState};
use crate::noise_map::NoiseMap;

verus! {

/// The wall probability, in percent, of the generator offered by the menu.
pub const NOISE_FILL_PERCENTAGE: i32 = 10;

/// A page of the menu.
#[derive(Clone, Copy, PartialEq, Eq, Debug, Structural)]
pub enum SidebarPage {
    Main,
    MazeGenerationAlgorithms,
    PathfindingAlgorithms,
}

/// An algorithm the menu can start.
#[derive(Clone, Copy, PartialEq, Eq, Debug, Structural)]
pub enum AlgorithmChoice {
    NoiseMap,
    AStar,
}

/// What activating a menu entry does.
#[derive(Clone, Copy, PartialEq, Eq, Debug, Structural)]
pub enum SidebarAction {
    SwitchPage(SidebarPage),
    InitAlgorithm(AlgorithmChoice),
}

/// The number of entries on `page`.
pub open spec fn page_len(page: SidebarPage) -> int {
    match page {
        SidebarPage::Main => 2,
        _ => 4,
    }
}

/// The action of entry `i` of `page`; entries not yet available have none.
pub open spec fn page_action(page: SidebarPage, i: int) -> Option<SidebarAction> {
    match page {
        SidebarPage::Main => if i == 0 {
            Some(SidebarAction::SwitchPage(SidebarPage::MazeGenerationAlgorithms))
        } else {
            Some(SidebarAction::SwitchPage(SidebarPage::PathfindingAlgorithms))
        },
        SidebarPage::MazeGenerationAlgorithms => if i == 2 {
            Some(SidebarAction::InitAlgorithm(AlgorithmChoice::NoiseMap))
        } else if i == 3 {
            Some(SidebarAction::SwitchPage(SidebarPage::Main))
        } else {
            None
        },
        SidebarPage::PathfindingAlgorithms => if i == 0 {
            Some(SidebarAction::InitAlgorithm(AlgorithmChoice::AStar))
        } else if i == 3 {
            Some(SidebarAction::SwitchPage(SidebarPage::Main))
        } else {
            None
        },
    }
}

/// The title of entry `i` of `page`.
pub open spec fn page_title(page: SidebarPage, i: int) -> &'static str {
    match page {
        SidebarPage::Main => if i == 0 {
            "View Maze Algorithms"
        } else {
            "View Pathfinding Algorithms"
        },
        SidebarPage::MazeGenerationAlgorithms => if i == 0 {
            "Recursive Backtracking"
        } else if i == 1 {
            "Prim's"
        } else if i == 2 {
            "Noise Map"
        } else {
            "Back"
        },
        SidebarPage::PathfindingAlgorithms => if i == 0 {
            "A*"
        } else if i == 1 {
            "BFS"
        } else if i == 2 {
            "Dijkstra's"
        } else {
            "Back"
        },
    }
}

/// One menu entry: its title and what activating it does.
pub struct SidebarOption {
    pub title: &'static str,
    pub action: Option<SidebarAction>,
}

impl SidebarOption {
    pub open spec fn act(&self) -> Option<SidebarAction> {
        self.action
    }

    pub open spec fn heading(&self) -> &'static str {
        self.title
    }

    fn new(title: &'static str, action: Option<SidebarAction>) -> (r: Self)
        ensures
            r.title == title,
            r.act() == action,
    {
        Self { title, action }
    }

    /// What activating this entry does.
    pub fn action(&self) -> (r: Option<SidebarAction>)
        ensures
            r == self.act(),
    {
        self.action
    }
}

impl SidebarPage {
    /// The entries of this page, top to bottom.
    pub fn options(&self) -> (r: Vec<SidebarOption>)
        ensures
            r@.len() == page_len(*self),
            forall|i: int| 0 <= i < r@.len() ==> (#[trigger] r@[i]).act() == page_action(*self, i),
            forall|i: int| 0 <= i < r@.len() ==> (#[trigger] r@[i]).heading() == page_title(*self, i),
    {
        let mut r: Vec<SidebarOption> = Vec::new();
        match self {
            SidebarPage::Main => {
                r.push(SidebarOption::new("View Maze Algorithms", Some(SidebarAction::SwitchPage(SidebarPage::MazeGenerationAlgorithms))));
                r.push(SidebarOption::new("View Pathfinding Algorithms", Some(SidebarAction::SwitchPage(SidebarPage::PathfindingAlgorithms))));
            },
            SidebarPage::MazeGenerationAlgorithms => {
                r.push(SidebarOption::new("Recursive Backtracking", None));
                r.push(SidebarOption::new("Prim's", None));
                r.push(SidebarOption::new("Noise Map", Some(SidebarAction::InitAlgorithm(AlgorithmChoice::NoiseMap))));
                r.push(SidebarOption::new("Back", Some(SidebarAction::SwitchPage(SidebarPage::Main))));
            },
            SidebarPage::PathfindingAlgorithms => {
                r.push(SidebarOption::new("A*", Some(SidebarAction::InitAlgorithm(AlgorithmChoice::AStar))));
                r.push(SidebarOption::new("BFS", None));
                r.push(SidebarOption::new("Dijkstra's", None));
                r.push(SidebarOption::new("Back", Some(SidebarAction::SwitchPage(SidebarPage::Main))));
            },
        }
        r
    }
}

/// The entry below `selected` on a page of `len` entries, wrapping to the top.
pub open spec fn next_index(selected: Option<usize>, len: int) -> int {
    match selected {
        Some(o) => if o == len - 1 {
            0
        } else {
            o + 1
        },
        None => 0,
    }
}

/// The entry above `selected` on a page of `len` entries, wrapping to the bottom.
pub open spec fn prev_index(selected: Option<usize>, len: int) -> int {
    match selected {
        Some(o) => if o == 0 {
            len - 1
        } else {
            o - 1
        },
        None => 0,
    }
}

/// The action of the selected entry, if any.
pub open spec fn chosen_action(page: SidebarPage, selected: Option<usize>) -> Option<SidebarAction> {
    match selected {
        Some(o) => page_action(page, o as int),
        None => None,
    }
}

/// `state` runs a fresh instance of `choice`: the generator starts filling at
/// once from the top-left corner, the pathfinder, with nothing discovered,
/// first waits for its two markers.
pub open spec fn launched(state: GridState, choice: AlgorithmChoice) -> bool {
    match choice {
        AlgorithmChoice::NoiseMap => {
            &&& state is Generating
            &&& state->Generating_0 matches AnyAlgorithm::NoiseMap(m)
            &&& m.cursor() == (0int, 0int)
            &&& m.fill() == NOISE_FILL_PERCENTAGE
        },
        AlgorithmChoice::AStar => {
            &&& state is PlacingMarkers
            &&& state->PlacingMarkers_0 matches AnyAlgorithm::AStar(a)
            &&& a.inv()
            &&& a.frontier().len() == 0
            &&& a.discovered().len() == 0
        },
    }
}

/// The page and grid state after activating the highlighted entry of `before`.
pub open spec fn selected_outcome(before: Sidebar, after: Sidebar, state_before: GridState, state_after: GridState) -> bool {
    match chosen_action(before.page, before.selected) {
        Some(SidebarAction::SwitchPage(p)) => after.page == p && state_after == state_before,
        Some(SidebarAction::InitAlgorithm(c)) => after.page == SidebarPage::Main && launched(state_after, c),
        None => after.page == before.page && state_after == state_before,
    }
}

/// The menu: the page shown and the highlighted entry.
pub struct Sidebar {
    pub page: SidebarPage,
    pub selected: Option<usize>,
}

impl Sidebar {
    /// The highlighted entry, if any, lies on the page.
    pub open spec fn well_formed(&self) -> bool {
        match self.selected {
            Some(o) => o < page_len(self.page),
            None => true,
        }
    }

    pub fn new() -> (r: Self)
        ensures
            r.well_formed(),
            r.page == SidebarPage::Main,
            r.selected == Some(0usize),
    {
        Self { page: SidebarPage::Main, selected: Some(0) }
    }

    fn page_len(&self) -> (r: usize)
        ensures
            r == page_len(self.page),
    {
        match self.page {
            SidebarPage::Main => 2,
            _ => 4,
        }
    }

    /// Highlights the entry below, wrapping to the top.
    pub fn next(&mut self)
        requires
            old(self).well_formed(),
        ensures
            final(self).well_formed(),
            final(self).page == old(self).page,
            final(self).selected == Some(next_index(old(self).selected, page_len(old(self).page)) as usize),
    {
        let len = self.page_len();
        match self.selected {
            Some(o) => {
                if o == len - 1 {
                    self.selected = Some(0);
                } else {
                    self.selected = Some(o + 1);
                }
            },
            None => {
                self.selected = Some(0);
            },
        }
    }

    /// Highlights the entry above, wrapping to the bottom.
    pub fn prev(&mut self)
        requires
            old(self).well_formed(),
        ensures
            final(self).well_formed(),
            final(self).page == old(self).page,
            final(self).selected == Some(prev_index(old(self).selected, page_len(old(self).page)) as usize),
    {
        let len = self.page_len();
        match self.selected {
            Some(o) => {
                if o == 0 {
                    self.selected = Some(len - 1);
                } else {
                    self.selected = Some(o - 1);
                }
            },
            None => {
                self.selected = Some(0);
            },
        }
    }

    /// Activates the highlighted entry: it switches page, or starts an
    /// algorithm on `grid` (a generator drawing from `seed`) and returns to
    /// the main page. The highlight goes
    /// back to the top in every case.
    pub fn select(&mut self, grid: &mut Grid, seed: u64)
        requires
            old(self).well_formed(),
            old(grid).well_formed(),
        ensures
            final(self).well_formed(),
            final(grid).well_formed(),
            final(self).selected == Some(0usize),
            final(grid).content == old(grid).content,
            final(grid).markers == old(grid).markers,
            final(grid).grid_start == old(grid).grid_start,
            final(grid).grid_end == old(grid).grid_end,
            final(grid).clear == old(grid).clear,
            final(grid).iter_count == old(grid).iter_count,
            selected_outcome(*old(self), *final(self), old(grid).state, final(grid).state),
    {
        let mut action: Option<SidebarAction> = None;
        if let Some(o) = self.selected {
            let options = self.page.options();
            action = options[o].action();
        }
        match action {
            Some(SidebarAction::SwitchPage(page)) => {
                self.selected = Some(0);
                self.page = page;
            },
            Some(SidebarAction::InitAlgorithm(choice)) => {
                self.page = SidebarPage::Main;
                self.selected = Some(0);
                match choice {
                    AlgorithmChoice::NoiseMap => {
                        grid.state = GridState::Generating(AnyAlgorithm::NoiseMap(NoiseMap::new(NOISE_FILL_PERCENTAGE, seed)));
                    },
                    AlgorithmChoice::AStar => {
                        grid.state = GridState::PlacingMarkers(AnyAlgorithm::AStar(AStar::new()));
                    },
                }
            },
            None => {
                self.selected = Some(0);
            },
        }
    }
}

} // verus!
