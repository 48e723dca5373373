//! Static configuration of one production line, for the planned
//! capacity-aware scheduler.

use vstd::prelude::*;
use crate::bom::Tools;

verus! {

/// One production line: the tools mounted on its two machines, the tools
/// each machine could mount, and how long a tool change takes.
pub struct LineConfig {
    pub id: i64,
    pub selected_tools: [Tools; 2],
    pub available_tools: [[Tools; 3]; 2],
    pub tool_change_time: i32,
}

impl core::default::Default for LineConfig {
    /// The single line the shop floor starts out with.
    fn default() -> (r: LineConfig)
        ensures
            r.id == 1,
            r.selected_tools@ == seq![Tools::T1, Tools::T1],
            r.available_tools@.len() == 2,
            r.available_tools@[0]@ == seq![Tools::T1, Tools::T2, Tools::T3],
            r.available_tools@[1]@ == seq![Tools::T1, Tools::T2, Tools::T3],
            r.tool_change_time == 30,
    {
        let r = LineConfig {
            id: 1,
            selected_tools: [Tools::T1, Tools::T1],
            available_tools: [
                [Tools::T1, Tools::T2, Tools::T3],
                [Tools::T1, Tools::T2, Tools::T3],
            ],
            tool_change_time: 30,
        };
        proof {
            assert(r.selected_tools@ =~= seq![Tools::T1, Tools::T1]);
            assert(r.available_tools@[0]@ =~= seq![Tools::T1, Tools::T2, Tools::T3]);
            assert(r.available_tools@[1]@ =~= seq![Tools::T1, Tools::T2, Tools::T3]);
        }
        r
    }
}

} // verus!
