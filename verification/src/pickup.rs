use crate::board::{flat, lemma_flat};
use crate::cell::{Cell, ITEM_CLONE, ITEM_FACTORY, ITEM_PORTAL};
use crate::motion::minus;
use crate::state::{count_owner, lemma_count_owner_update, State};
use vstd::prelude::*;

verus! {

/// `a + 1`, but no more than `usize::MAX`.
pub open spec fn one_more(a: int) -> int {
    if a < usize::MAX {
        a + 1
    } else {
        a
    }
}

impl State {
    /// What it makes of the state `pre` that robot `i` picks up what lies
    /// where it stands.
    ///
    /// Nothing changes where nothing lies there, or a cloning factory. Else
    /// the item leaves the cell and goes to the store, and the change is
    /// recorded. A cloning booster is one less to fetch. A portal booster is
    /// one less on the board and gives the robot one more portal to drop.
    pub open spec fn collected(&self, pre: &State, i: int) -> bool {
        let x = pre.robots@[i].x as int;
        let y = pre.robots@[i].y as int;
        let c = pre.bd.at(x, y);
        let code = c.item_code();
        if code == 0 || code == ITEM_FACTORY {
            *self == *pre
        } else {
            &&& self.bd.same_size(&pre.bd)
            &&& forall|cx: int, cy: int|
                pre.bd.has(cx, cy) && (cx != x || cy != y) ==> #[trigger] self.bd.at(cx, cy)
                    == pre.bd.at(cx, cy)
            &&& self.bd.at(x, y) == c.emptied()
            &&& self.bd.cells@ == pre.bd.cells@.update(
                crate::board::flat(pre.bd.w as int, x, y),
                c.emptied(),
            )
            &&& self.bd.at(x, y).item_code() == 0
            &&& self.bd.at(x, y).wall() == c.wall()
            &&& self.bd.at(x, y).painted() == c.painted()
            &&& self.bd.at(x, y).portal() == c.portal()
            &&& self.bd.at(x, y).owner_code() == c.owner_code()
            &&& self.diff.bd@ == pre.diff.bd@.push((x as usize, y as usize, c))
            &&& self.items@ == pre.items@.update(code, one_more(pre.items@[code] as int) as usize)
            &&& self.clone_num == (if code == ITEM_CLONE {
                minus(pre.clone_num as int, 1)
            } else {
                pre.clone_num as int
            })
            &&& self.portal_num == (if code == ITEM_PORTAL {
                minus(pre.portal_num as int, 1)
            } else {
                pre.portal_num as int
            })
            &&& self.robots@.len() == pre.robots@.len()
            &&& forall|j: int|
                0 <= j < pre.robots@.len() && j != i ==> #[trigger] self.robots@[j]
                    == pre.robots@[j]
            &&& self.robots@[i].same_but_prios(
                &crate::state::RobotState {
                    num_collected_portal: self.robots@[i].num_collected_portal,
                    ..pre.robots@[i]
                },
            )
            &&& self.robots@[i].prios == pre.robots@[i].prios
            &&& self.robots@[i].num_collected_portal == (if code == ITEM_PORTAL {
                one_more(pre.robots@[i].num_collected_portal as int)
            } else {
                pre.robots@[i].num_collected_portal as int
            })
            &&& self.rest == pre.rest
            &&& self.pending_clone == pre.pending_clone
            &&& self.portals == pre.portals
            &&& self.spawn_bot == pre.spawn_bot
            &&& self.island_size_threshold == pre.island_size_threshold
            &&& self.vects == pre.vects
        }
    }
}

/// Lets robot `i` pick up the item on the cell where it stands, unless that is
/// a cloning factory.
pub fn collect_item(state: &mut State, i: usize)
    requires
        old(state).wf(),
        i < old(state).robots@.len(),
    ensures
        final(state).wf(),
        final(state).collected(old(state), i as int),
{
    let x: i64 = state.robots[i].x;
    let y: i64 = state.robots[i].y;
    assert(state.robots@[i as int].wf(&state.bd));
    let prev: Cell = state.bd.get(x, y);
    let ghost f: int = flat(state.bd.w as int, x as int, y as int);
    proof {
        lemma_flat(state.bd.w as int, state.bd.h as int, x as int, y as int);
        assert(prev == state.bd.cells@[f]);
    }
    match prev.item() {
        Some(item) => {
            if item != ITEM_FACTORY {
                state.diff.bd.push((x as usize, y as usize, prev));
                if state.items[item] < usize::MAX {
                    state.items[item] = state.items[item] + 1;
                }
                let mut c: Cell = prev;
                c.set_item(None);
                proof {
                    let v = prev.0;
                    assert((v & !(0xf0u16)) | (0u16 << 4) == v & !(0xf0u16)) by (bit_vector);
                    assert(c == prev.emptied());
                    assert forall|j: int| 0 <= j < state.robots@.len() implies count_owner(
                        state.bd.cells@.update(f, c),
                        j,
                    ) == count_owner(state.bd.cells@, j) by {
                        lemma_count_owner_update(state.bd.cells@, f, c, j);
                    }
                }
                state.bd.set(x, y, c);
                if item == ITEM_CLONE && state.clone_num > 0 {
                    state.clone_num = state.clone_num - 1;
                }
                if item == ITEM_PORTAL {
                    if state.portal_num > 0 {
                        state.portal_num = state.portal_num - 1;
                    }
                    if state.robots[i].num_collected_portal < usize::MAX {
                        state.robots[i].num_collected_portal = state.robots[i].num_collected_portal
                            + 1;
                    }
                }
                proof {
                    assert(state.items@ =~= old(state).items@.update(
                        item as int,
                        one_more(old(state).items@[item as int] as int) as usize,
                    ));
                    assert forall|j: int| 0 <= j < state.robots@.len() implies (
                    #[trigger] state.robots@[j]).wf(&state.bd) && state.robots@[j].prios
                        == state.bd.reserved(j) by {
                        assert(old(state).robots@[j].wf(&old(state).bd));
                    }
                    assert forall|m: int| 0 <= m < state.bd.cells@.len() implies (
                    #[trigger] state.bd.cells@[m]).tidy(state.robots@.len() as int) by {
                        if m != f {
                            assert(state.bd.cells@[m] == old(state).bd.cells@[m]);
                        }
                    }
                    assert forall|m: int| 0 <= m < state.portals@.len() implies state.bd.has(
                        (#[trigger] state.portals@[m]).0 as int,
                        state.portals@[m].1 as int,
                    ) by {
                        assert(old(state).bd.has(
                            old(state).portals@[m].0 as int,
                            old(state).portals@[m].1 as int,
                        ));
                    }
                }
            }
        },
        None => {},
    }
}

} // verus!
