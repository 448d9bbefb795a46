//! Locking pins: a locked pin keeps its rate when rates are propagated.
use vstd::prelude::*;
use crate::app_node::{AppNode, PinUpdate, updated_pin};
use crate::connectivity::{connected, is_component, lemma_component_exact, push_new, vec_contains};
use crate::pin::Pin;
use crate::production_app::{ProductionApp, pin_loc, node_index, side_has_pin, node_has_pin, pin_updated};
use crate::auto_lock::{lock_grown, auto_locked, pin_ids_unique};

verus! {

broadcast use vstd::seq_lib::group_seq_properties;

/// `new` is `old` with the lock flag of the selected pins set to `v`.
pub open spec fn pins_relocked(old: Seq<Pin>, new: Seq<Pin>, sel: spec_fn(u64) -> bool, v: bool) -> bool {
    &&& new.len() == old.len()
    &&& forall|j: int|
        0 <= j < old.len() ==> #[trigger] new[j] == (if sel(old[j].id) {
            Pin { locked: v, ..old[j] }
        } else {
            old[j]
        })
}

/// Every node keeps its settings; the selected pins get lock flag `v`.
pub open spec fn nodes_relocked(
    old: Seq<AppNode>,
    new: Seq<AppNode>,
    sel: spec_fn(u64) -> bool,
    v: bool,
) -> bool {
    &&& new.len() == old.len()
    &&& forall|n: int|
        0 <= n < old.len() ==> (#[trigger] new[n]).same_settings(old[n]) && pins_relocked(
            old[n].ins(),
            new[n].ins(),
            sel,
            v,
        ) && pins_relocked(old[n].outs(), new[n].outs(), sel, v)
}

impl ProductionApp {
    /// Set the lock flag of every pin whose id is in `sel`.
    fn relock(&mut self, sel: &Vec<u64>, v: bool)
        ensures
            nodes_relocked(old(self).nodes@, final(self).nodes@, |id: u64| sel@.contains(id), v),
            final(self).links@ == old(self).links@,
            final(self).next_id == old(self).next_id,
    {
        let ghost orig = self.nodes@;
        let ghost selp = |id: u64| sel@.contains(id);
        let mut n: usize = 0;
        while n < self.nodes.len()
            invariant
                0 <= n <= self.nodes@.len(),
                self.nodes@.len() == orig.len(),
                self.links@ == old(self).links@,
                self.next_id == old(self).next_id,
                orig == old(self).nodes@,
                selp == (|id: u64| sel@.contains(id)),
                forall|m: int| n <= m < orig.len() ==> #[trigger] self.nodes@[m] == orig[m],
                forall|m: int|
                    0 <= m < n ==> (#[trigger] self.nodes@[m]).same_settings(orig[m])
                        && pins_relocked(orig[m].ins(), self.nodes@[m].ins(), selp, v)
                        && pins_relocked(orig[m].outs(), self.nodes@[m].outs(), selp, v),
            decreases self.nodes.len() - n,
        {
            let mut side: usize = 0;
            while side < 2
                invariant
                    0 <= n < self.nodes@.len(),
                    self.nodes@.len() == orig.len(),
                    self.links@ == old(self).links@,
                    self.next_id == old(self).next_id,
                    selp == (|id: u64| sel@.contains(id)),
                    forall|m: int| n < m < orig.len() ==> #[trigger] self.nodes@[m] == orig[m],
                    forall|m: int|
                        0 <= m < n ==> (#[trigger] self.nodes@[m]).same_settings(orig[m])
                            && pins_relocked(orig[m].ins(), self.nodes@[m].ins(), selp, v)
                            && pins_relocked(orig[m].outs(), self.nodes@[m].outs(), selp, v),
                    0 <= side <= 2,
                    self.nodes@[n as int].same_settings(orig[n as int]),
                    side >= 1 ==> pins_relocked(orig[n as int].ins(), self.nodes@[n as int].ins(), selp, v),
                    side < 1 ==> self.nodes@[n as int].ins() == orig[n as int].ins(),
                    side >= 2 ==> pins_relocked(orig[n as int].outs(), self.nodes@[n as int].outs(), selp, v),
                    side < 2 ==> self.nodes@[n as int].outs() == orig[n as int].outs(),
                decreases 2 - side,
            {
                let input = side == 0;
                let len = self.nodes[n].side_len(input);
                let mut j: usize = 0;
                while j < len
                    invariant
                        0 <= n < self.nodes@.len(),
                        self.nodes@.len() == orig.len(),
                        self.links@ == old(self).links@,
                        self.next_id == old(self).next_id,
                        selp == (|id: u64| sel@.contains(id)),
                        forall|m: int| n < m < orig.len() ==> #[trigger] self.nodes@[m] == orig[m],
                        forall|m: int|
                            0 <= m < n ==> (#[trigger] self.nodes@[m]).same_settings(orig[m])
                                && pins_relocked(orig[m].ins(), self.nodes@[m].ins(), selp, v)
                                && pins_relocked(orig[m].outs(), self.nodes@[m].outs(), selp, v),
                        self.nodes@[n as int].same_settings(orig[n as int]),
                        input == (side == 0),
                        side >= 1 ==> pins_relocked(orig[n as int].ins(), self.nodes@[n as int].ins(), selp, v),
                        len == orig[n as int].side(input).len(),
                        self.nodes@[n as int].side(input).len() == len,
                        self.nodes@[n as int].side(!input) == (if side >= 1 {
                            self.nodes@[n as int].side(!input)
                        } else {
                            orig[n as int].side(!input)
                        }),
                        side < 1 ==> self.nodes@[n as int].outs() == orig[n as int].outs(),
                        0 <= j <= len,
                        forall|t: int| j <= t < len ==> #[trigger] self.nodes@[n as int].side(input)[t] == orig[n as int].side(input)[t],
                        forall|t: int|
                            0 <= t < j ==> #[trigger] self.nodes@[n as int].side(input)[t] == (if selp(orig[n as int].side(input)[t].id) {
                                Pin { locked: v, ..orig[n as int].side(input)[t] }
                            } else {
                                orig[n as int].side(input)[t]
                            }),
                    decreases len - j,
                {
                    let id = self.nodes[n].pin(input, j).id;
                    if vec_contains(sel, id) {
                        let ghost before = self.nodes@[n as int];
                        self.nodes[n].update_pin(input, j, PinUpdate::Locked(v));
                        assert(self.nodes@[n as int].side(input)[j as int] == updated_pin(before.side(input)[j as int], PinUpdate::Locked(v)));
                    }
                    j += 1;
                }
                side += 1;
            }
            n += 1;
        }
    }
}


/// `x` is connected to some pin of the node.
pub open spec fn node_reaches(nodes: Seq<AppNode>, links: Seq<crate::link::Link>, node: AppNode, x: u64) -> bool {
    exists|j: int| 0 <= j < node.pins().len() && connected(nodes, links, #[trigger] node.pins()[j].id, x)
}

impl ProductionApp {
    /// Lock or unlock every pin connected to the pin (see `get_connected_pins`);
    /// after locking, the automatic-lock rule runs on mergers and custom splitters.
    pub fn set_pin_locked(&mut self, pin_id: u64, locked: bool) -> (r: Result<(), String>)
        ensures
            pin_loc(old(self).nodes@, pin_id) is None ==> (r matches Err(e) && e@ == "Pin not found"@)
                && final(self).nodes@ == old(self).nodes@,
            pin_loc(old(self).nodes@, pin_id) is Some ==> r is Ok && (!locked ==> nodes_relocked(
                old(self).nodes@,
                final(self).nodes@,
                |id: u64| connected(old(self).nodes@, old(self).links@, pin_id, id),
                false,
            )) && (locked ==> exists|mid: Seq<AppNode>|
                nodes_relocked(
                    old(self).nodes@,
                    mid,
                    |id: u64| connected(old(self).nodes@, old(self).links@, pin_id, id),
                    true,
                ) && lock_grown(mid, final(self).nodes@) && (pin_ids_unique(mid) ==> auto_locked(mid, final(self).nodes@))),
            final(self).links@ == old(self).links@,
            final(self).next_id == old(self).next_id,
    {
        if self.locate_pin(pin_id).is_none() {
            return Err("Pin not found".to_owned());
        }
        let ghost nodes0 = self.nodes@;
        let ghost links0 = self.links@;
        let connected_pins = self.get_connected_pins(pin_id);
        self.relock(&connected_pins, locked);
        proof {
            assert((|id: u64| connected_pins@.contains(id)) =~= (|id: u64| connected(nodes0, links0, pin_id, id))) by {
                assert forall|id: u64| connected_pins@.contains(id) == connected(nodes0, links0, pin_id, id) by {
                    lemma_component_exact(nodes0, links0, pin_id, connected_pins@, id);
                }
            }
        }
        if locked {
            let ghost mid = self.nodes@;
            let _ = self.auto_lock_organizer_pins();
            assert(nodes_relocked(nodes0, mid, |id: u64| connected(nodes0, links0, pin_id, id), true));
        }
        Ok(())
    }

    /// Lock or unlock one pin only.
    pub fn set_pin_locked_single(&mut self, pin_id: u64, locked: bool) -> (r: Result<(), String>)
        ensures
            pin_loc(old(self).nodes@, pin_id) is None ==> (r matches Err(e) && e@ == "Pin not found"@)
                && final(self).nodes@ == old(self).nodes@,
            pin_loc(old(self).nodes@, pin_id) matches Some(l) ==> r is Ok && pin_updated(
                old(self).nodes@,
                final(self).nodes@,
                l,
                PinUpdate::Locked(locked),
            ),
            final(self).links@ == old(self).links@,
            final(self).next_id == old(self).next_id,
    {
        match self.locate_pin(pin_id) {
            Some((n, input, i)) => {
                self.update_pin_at(n, input, i, PinUpdate::Locked(locked));
                Ok(())
            },
            None => Err("Pin not found".to_owned()),
        }
    }

    /// The pins connected to any pin of the node.
    pub fn get_all_connected_pins_for_node(&self, node_id: u64) -> (r: Vec<u64>)
        ensures
            r@.no_duplicates(),
            node_index(self.nodes@, node_id) is None ==> r@.len() == 0,
            node_index(self.nodes@, node_id) matches Some(i) ==> forall|x: u64|
                #[trigger] r@.contains(x) <==> node_reaches(self.nodes@, self.links@, self.nodes@[i], x),
    {
        let mut result: Vec<u64> = Vec::new();
        let ni = match self.find_node_index(node_id) {
            Some(i) => i,
            None => return result,
        };
        let ghost node = self.nodes@[ni as int];
        let ghost nodes = self.nodes@;
        let ghost links = self.links@;
        let mut side: usize = 0;
        while side < 2
            invariant
                ni < self.nodes@.len(),
                node == self.nodes@[ni as int],
                nodes == self.nodes@,
                links == self.links@,
                0 <= side <= 2,
                result@.no_duplicates(),
                forall|x: u64| #[trigger] result@.contains(x) ==> node_reaches(nodes, links, node, x),
                side >= 1 ==> forall|j: int, x: u64| 0 <= j < node.ins().len() && #[trigger] connected(nodes, links, node.ins()[j].id, x) ==> result@.contains(x),
                side >= 2 ==> forall|j: int, x: u64| 0 <= j < node.outs().len() && #[trigger] connected(nodes, links, node.outs()[j].id, x) ==> result@.contains(x),
            decreases 2 - side,
        {
            let input = side == 0;
            let len = self.nodes[ni].side_len(input);
            let mut j: usize = 0;
            while j < len
                invariant
                    ni < self.nodes@.len(),
                    node == self.nodes@[ni as int],
                    nodes == self.nodes@,
                    links == self.links@,
                    input == (side == 0),
                    len == node.side(input).len(),
                    0 <= j <= len,
                    result@.no_duplicates(),
                    forall|x: u64| #[trigger] result@.contains(x) ==> node_reaches(nodes, links, node, x),
                    side >= 1 ==> forall|t: int, x: u64| 0 <= t < node.ins().len() && #[trigger] connected(nodes, links, node.ins()[t].id, x) ==> result@.contains(x),
                    forall|t: int, x: u64| 0 <= t < j && #[trigger] connected(nodes, links, node.side(input)[t].id, x) ==> result@.contains(x),
                decreases len - j,
            {
                let pid = self.nodes[ni].pin(input, j).id;
                let comp = self.get_connected_pins(pid);
                let ghost pin_index = if input { j as int } else { node.ins().len() + j };
                proof {
                    assert(node.pins()[pin_index] == node.side(input)[j as int]);
                }
                let mut c: usize = 0;
                while c < comp.len()
                    invariant
                        ni < self.nodes@.len(),
                        node == self.nodes@[ni as int],
                        nodes == self.nodes@,
                        links == self.links@,
                        input == (side == 0),
                        len == node.side(input).len(),
                        0 <= j < len,
                        pid == node.side(input)[j as int].id,
                        0 <= pin_index < node.pins().len(),
                        node.pins()[pin_index].id == pid,
                        is_component(nodes, links, pid, comp@),
                        0 <= c <= comp@.len(),
                        result@.no_duplicates(),
                        forall|x: u64| #[trigger] result@.contains(x) ==> node_reaches(nodes, links, node, x),
                        side >= 1 ==> forall|t: int, x: u64| 0 <= t < node.ins().len() && #[trigger] connected(nodes, links, node.ins()[t].id, x) ==> result@.contains(x),
                        forall|t: int, x: u64| 0 <= t < j && #[trigger] connected(nodes, links, node.side(input)[t].id, x) ==> result@.contains(x),
                        forall|t: int| 0 <= t < c ==> result@.contains(#[trigger] comp@[t]),
                    decreases comp.len() - c,
                {
                    let x = comp[c];
                    proof {
                        assert(comp@.contains(x));
                        assert(connected(nodes, links, pid, x));
                        assert(node_reaches(nodes, links, node, x));
                    }
                    push_new(&mut result, x);
                    c += 1;
                }
                proof {
                    assert forall|x: u64| connected(nodes, links, pid, x) implies result@.contains(x) by {
                        lemma_component_exact(nodes, links, pid, comp@, x);
                        let t = choose|t: int| 0 <= t < comp@.len() && comp@[t] == x;
                    }
                }
                j += 1;
            }
            side += 1;
        }
        proof {
            assert forall|x: u64| node_reaches(nodes, links, node, x) implies #[trigger] result@.contains(x) by {
                let j = choose|j: int| 0 <= j < node.pins().len() && connected(nodes, links, #[trigger] node.pins()[j].id, x);
                if j < node.ins().len() {
                    assert(node.pins()[j] == node.ins()[j]);
                } else {
                    assert(node.pins()[j] == node.outs()[j - node.ins().len()]);
                }
            }
        }
        result
    }

    /// Lock or unlock every pin connected to any pin of the node.
    pub fn set_node_locked(&mut self, node_id: u64, locked: bool) -> (r: Result<(), String>)
        ensures
            node_index(old(self).nodes@, node_id) is None ==> (r matches Err(e) && e@
                == "Node not found"@) && final(self).nodes@ == old(self).nodes@,
            node_index(old(self).nodes@, node_id) matches Some(i) ==> r is Ok && nodes_relocked(
                old(self).nodes@,
                final(self).nodes@,
                |id: u64| node_reaches(old(self).nodes@, old(self).links@, old(self).nodes@[i], id),
                locked,
            ),
            final(self).links@ == old(self).links@,
            final(self).next_id == old(self).next_id,
    {
        let ni = match self.find_node_index(node_id) {
            Some(i) => i,
            None => return Err("Node not found".to_owned()),
        };
        let ghost nodes0 = self.nodes@;
        let ghost links0 = self.links@;
        let all = self.get_all_connected_pins_for_node(node_id);
        self.relock(&all, locked);
        proof {
            assert((|id: u64| all@.contains(id)) =~= (|id: u64| node_reaches(nodes0, links0, nodes0[ni as int], id)));
        }
        Ok(())
    }

    /// Lock or unlock every pin connected to any pin of the node, and return
    /// the ids of the nodes holding those pins (the node itself when there are none).
    pub fn set_node_locked_and_get_affected(&mut self, node_id: u64, locked: bool) -> (r: Result<
        Vec<u64>,
        String,
    >)
        ensures
            node_index(old(self).nodes@, node_id) is None ==> (r matches Err(e) && e@
                == "Node not found"@) && final(self).nodes@ == old(self).nodes@,
            node_index(old(self).nodes@, node_id) matches Some(i) ==> r is Ok && nodes_relocked(
                old(self).nodes@,
                final(self).nodes@,
                |id: u64| node_reaches(old(self).nodes@, old(self).links@, old(self).nodes@[i], id),
                locked,
            ),
            r matches Ok(v) ==> is_affected_list(old(self).nodes@, old(self).links@, node_id, v@),
            final(self).links@ == old(self).links@,
            final(self).next_id == old(self).next_id,
    {
        let ni = match self.find_node_index(node_id) {
            Some(i) => i,
            None => return Err("Node not found".to_owned()),
        };
        let ghost nodes0 = self.nodes@;
        let ghost links0 = self.links@;
        let ghost node = nodes0[ni as int];
        let all = self.get_all_connected_pins_for_node(node_id);
        let mut affected: Vec<u64> = Vec::new();
        let mut k: usize = 0;
        while k < all.len()
            invariant
                nodes0 == self.nodes@,
                links0 == self.links@,
                node == nodes0[ni as int],
                ni < nodes0.len(),
                forall|x: u64| #[trigger] all@.contains(x) <==> node_reaches(nodes0, links0, node, x),
                0 <= k <= all@.len(),
                affected@.no_duplicates(),
                forall|x: u64| #[trigger] affected@.contains(x) ==> affected_node(nodes0, links0, node, x),
                forall|t: int| 0 <= t < k && (#[trigger] pin_node_id(nodes0, all@[t])) is Some ==> affected@.contains(pin_node_id(nodes0, all@[t])->0),
            decreases all.len() - k,
        {
            let pid = all[k];
            match self.locate_pin(pid) {
                Some((n, _, _)) => {
                    let nid = self.nodes[n].node_id();
                    proof {
                        assert(all@.contains(pid));
                        assert(pin_node_id(nodes0, pid) == Some(nid));
                        assert(affected_node(nodes0, links0, node, nid));
                    }
                    push_new(&mut affected, nid);
                },
                None => {},
            }
            k += 1;
        }
        proof {
            assert forall|x: u64| affected_node(nodes0, links0, node, x) implies #[trigger] affected@.contains(x) by {
                let pid = choose|pid: u64| node_reaches(nodes0, links0, node, pid) && #[trigger] pin_node_id(nodes0, pid) == Some(x);
                assert(all@.contains(pid));
                let t = choose|t: int| 0 <= t < all@.len() && all@[t] == pid;
                assert(pin_node_id(nodes0, all@[t]) == Some(x));
            }
        }
        if affected.len() == 0 {
            proof {
                assert forall|y: u64| !affected_node(nodes0, links0, node, y) by {
                    if affected_node(nodes0, links0, node, y) {
                        assert(affected@.contains(y));
                    }
                }
            }
            affected.push(node_id);
            proof {
                assert(affected@ =~= seq![node_id]);
            }
        } else {
            proof {
                let y = affected@[0];
                assert(affected@.contains(y));
                assert(affected_node(nodes0, links0, node, y));
            }
        }
        let _ = self.set_node_locked(node_id, locked);
        Ok(affected)
    }
}

/// The id of the node holding the pin.
pub open spec fn pin_node_id(nodes: Seq<AppNode>, pid: u64) -> Option<u64> {
    match pin_loc(nodes, pid) {
        Some(l) => Some(nodes[l.0].id()),
        None => None,
    }
}

/// The node with id `x` holds a pin connected to a pin of `node`.
pub open spec fn affected_node(nodes: Seq<AppNode>, links: Seq<crate::link::Link>, node: AppNode, x: u64) -> bool {
    exists|pid: u64| node_reaches(nodes, links, node, pid) && #[trigger] pin_node_id(nodes, pid) == Some(x)
}

/// `v` lists, once each, the nodes holding pins connected to the node with
/// id `node_id` (that node itself when there are none).
pub open spec fn is_affected_list(nodes: Seq<AppNode>, links: Seq<crate::link::Link>, node_id: u64, v: Seq<u64>) -> bool {
    &&& v.no_duplicates()
    &&& node_index(nodes, node_id) matches Some(i)
    &&& forall|x: u64| #[trigger] v.contains(x) <==> (affected_node(nodes, links, nodes[i], x)
            || (x == node_id && forall|y: u64| !affected_node(nodes, links, nodes[i], y)))
}

} // verus!
