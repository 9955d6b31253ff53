//! The operator that lets an attribute hold at most one value per entity.
//!
//! Proposals are buffered per entity and time. When the frontier has passed a time,
//! every entity with a proposal at that time has the value it held retracted and the
//! proposed value asserted. Of several proposals for one entity the last to arrive
//! wins.

use crate::time::{less_equal, Time};
use crate::value::{Eid, Value, ValueView};
use std::collections::HashMap;
use vstd::prelude::*;
use vstd::std_specs::hash::*;

verus! {

broadcast use vstd::std_specs::hash::group_hash_axioms;

/// A change of the multiplicity of one pair, as the operator emits it.
#[derive(Debug)]
pub struct Emitted {
    /// The entity.
    pub eid: Eid,
    /// The value.
    pub value: Value,
    /// The time of the notification.
    pub time: Time,
    /// The change of multiplicity: -1 retracts, +1 asserts.
    pub diff: isize,
}

/// What an [`Emitted`] stands for.
pub struct EmittedView {
    pub eid: Eid,
    pub value: ValueView,
    pub time: Time,
    pub diff: int,
}

impl View for Emitted {
    type V = EmittedView;

    open spec fn view(&self) -> EmittedView {
        EmittedView { eid: self.eid, value: self.value@, time: self.time, diff: self.diff as int }
    }
}

/// The views of a list of changes, position by position.
pub open spec fn emitted_views(changes: Seq<Emitted>) -> Seq<EmittedView> {
    Seq::new(changes.len(), |i: int| changes[i]@)
}

/// The net multiplicity that `changes` give to the pair of `eid` and `value`.
pub open spec fn net(changes: Seq<EmittedView>, eid: Eid, value: ValueView) -> int
    decreases changes.len(),
{
    if changes.len() == 0 {
        0
    } else {
        let last = changes.last();
        net(changes.drop_last(), eid, value) + if last.eid == eid && last.value == value {
            last.diff
        } else {
            0
        }
    }
}

/// The net multiplicity of a list of changes is the sum over its parts.
pub proof fn lemma_net_add(a: Seq<EmittedView>, b: Seq<EmittedView>, eid: Eid, value: ValueView)
    ensures
        net(a + b, eid, value) == net(a, eid, value) + net(b, eid, value),
    decreases b.len(),
{
    if b.len() == 0 {
        assert(a + b =~= a);
    } else {
        lemma_net_add(a, b.drop_last(), eid, value);
        assert((a + b).drop_last() =~= a + b.drop_last());
        assert((a + b).last() == b.last());
    }
}

/// What settling `eid` at `time` emits: the retraction of the value it holds, if any,
/// then the assertion of the value proposed, if any.
pub open spec fn settled(
    current: Map<Eid, ValueView>,
    next: Map<Eid, (Time, ValueView)>,
    eid: Eid,
    time: Time,
) -> Seq<EmittedView> {
    let retraction = if current.dom().contains(eid) {
        seq![EmittedView { eid, value: current[eid], time, diff: -1 }]
    } else {
        Seq::empty()
    };
    let assertion = if next.dom().contains(eid) {
        seq![EmittedView { eid, value: next[eid].1, time, diff: 1 }]
    } else {
        Seq::empty()
    };
    retraction + assertion
}

/// What settling the entities of `due` at `time` emits, in their order.
pub open spec fn settled_all(
    current: Map<Eid, ValueView>,
    next: Map<Eid, (Time, ValueView)>,
    due: Seq<Eid>,
    time: Time,
) -> Seq<EmittedView>
    decreases due.len(),
{
    if due.len() == 0 {
        Seq::empty()
    } else {
        settled_all(current, next, due.drop_last(), time) + settled(
            current,
            next,
            due.last(),
            time,
        )
    }
}

/// The values held after the entities of `due` have been settled: what was proposed
/// for them, and for the others what they held.
pub open spec fn held_after(
    current: Map<Eid, ValueView>,
    next: Map<Eid, (Time, ValueView)>,
    due: Seq<Eid>,
) -> Map<Eid, ValueView> {
    Map::new(
        |eid: Eid|
            if due.contains(eid) {
                next.dom().contains(eid)
            } else {
                current.dom().contains(eid)
            },
        |eid: Eid|
            if due.contains(eid) {
                next[eid].1
            } else {
                current[eid]
            },
    )
}

/// The proposals left after the entities of `due` have been settled.
pub open spec fn proposals_after(next: Map<Eid, (Time, ValueView)>, due: Seq<Eid>) -> Map<
    Eid,
    (Time, ValueView),
> {
    Map::new(|eid: Eid| next.dom().contains(eid) && !due.contains(eid), |eid: Eid| next[eid])
}

/// `due` with `eid` added at the end, unless it holds it.
pub open spec fn with_entity(due: Seq<Eid>, eid: Eid) -> Seq<Eid> {
    if due.contains(eid) {
        due
    } else {
        due.push(eid)
    }
}

/// The state of the operator.
pub struct CardinalityOne {
    /// The value that each entity holds.
    current: HashMap<Eid, Value>,
    /// The latest proposal for each entity, with its time.
    next: HashMap<Eid, (Time, Value)>,
    /// For each time, the entities to settle at it.
    eids: HashMap<Time, Vec<Eid>>,
    /// Everything emitted so far.
    emitted: Ghost<Seq<EmittedView>>,
}

impl CardinalityOne {
    /// The value that each entity holds.
    pub closed spec fn current(&self) -> Map<Eid, ValueView> {
        Map::new(|eid: Eid| self.current@.dom().contains(eid), |eid: Eid| self.current@[eid]@)
    }

    /// The latest proposal for each entity, with its time.
    pub closed spec fn proposals(&self) -> Map<Eid, (Time, ValueView)> {
        Map::new(
            |eid: Eid| self.next@.dom().contains(eid),
            |eid: Eid| (self.next@[eid].0, self.next@[eid].1@),
        )
    }

    /// For each time, the entities to settle at it.
    pub closed spec fn due(&self) -> Map<Time, Seq<Eid>> {
        Map::new(|time: Time| self.eids@.dom().contains(time), |time: Time| self.eids@[time]@)
    }

    /// Everything emitted so far.
    pub closed spec fn history(&self) -> Seq<EmittedView> {
        self.emitted@
    }

    /// No entity is due twice at one time, and of what was emitted so far every entity
    /// has the value it holds once, and no other value.
    pub open spec fn wf(&self) -> bool {
        &&& forall|time: Time| #[trigger]
            self.due().dom().contains(time) ==> self.due()[time].no_duplicates()
        &&& forall|eid: Eid, value: ValueView|
            #![trigger net(self.history(), eid, value)]
            net(self.history(), eid, value) == if self.current().dom().contains(eid)
                && self.current()[eid] == value {
                1int
            } else {
                0int
            }
    }

    /// The time of the latest proposal for `eid`, or `capability` if there is none.
    pub open spec fn latest(&self, eid: Eid, capability: Time) -> Time {
        if self.proposals().dom().contains(eid) {
            self.proposals()[eid].0
        } else {
            capability
        }
    }

    /// The operator is in order when it holds what `before`, an operator in order,
    /// held and has emitted the same.
    proof fn lemma_same_holdings(&self, before: &CardinalityOne)
        requires
            before.wf(),
            self.current() == before.current(),
            self.history() == before.history(),
            forall|time: Time| #[trigger]
                self.due().dom().contains(time) ==> self.due()[time].no_duplicates(),
        ensures
            self.wf(),
    {
        assert forall|eid: Eid, value: ValueView|
            #![trigger net(self.history(), eid, value)]
            net(self.history(), eid, value) == if self.current().dom().contains(eid)
                && self.current()[eid] == value {
                1int
            } else {
                0int
            } by {
            assert(net(before.history(), eid, value) == if before.current().dom().contains(eid)
                && before.current()[eid] == value {
                1int
            } else {
                0int
            });
        }
    }

    /// An operator that has seen nothing.
    pub fn new() -> (operator: CardinalityOne)
        ensures
            operator.wf(),
            operator.current() == Map::<Eid, ValueView>::empty(),
            operator.proposals() == Map::<Eid, (Time, ValueView)>::empty(),
            operator.due() == Map::<Time, Seq<Eid>>::empty(),
            operator.history() == Seq::<EmittedView>::empty(),
    {
        let operator = CardinalityOne {
            current: HashMap::new(),
            next: HashMap::new(),
            eids: HashMap::new(),
            emitted: Ghost(Seq::empty()),
        };
        assert(operator.current() =~= Map::<Eid, ValueView>::empty());
        assert(operator.proposals() =~= Map::<Eid, (Time, ValueView)>::empty());
        assert(operator.due() =~= Map::<Time, Seq<Eid>>::empty());
        operator
    }

    /// Takes the proposal of `value` for `eid` at `time`, from a batch that arrived
    /// with the capability `capability`. The proposal is kept unless a later one for
    /// the entity is known. Returns whether it was kept: the operator is then to be
    /// notified when the frontier has passed the capability.
    pub fn accept(&mut self, capability: Time, eid: Eid, value: Value, time: Time) -> (kept: bool)
        requires
            old(self).wf(),
        ensures
            final(self).wf(),
            kept == (old(self).latest(eid, capability) <= time),
            final(self).current() == old(self).current(),
            final(self).history() == old(self).history(),
            kept ==> final(self).proposals() == old(self).proposals().insert(eid, (time, value@))
                && final(self).due() == old(self).due().insert(
                time,
                with_entity(
                    if old(self).due().dom().contains(time) {
                        old(self).due()[time]
                    } else {
                        Seq::empty()
                    },
                    eid,
                ),
            ),
            !kept ==> final(self).due() == old(self).due() && final(self).proposals() == if old(
                self,
            ).proposals().dom().contains(eid) {
                old(self).proposals()
            } else {
                old(self).proposals().insert(eid, (capability, value@))
            },
    {
        let latest = match self.next.get(&eid) {
            Some(proposal) => proposal.0,
            None => capability,
        };
        if less_equal(latest, time) {
            self.next.insert(eid, (time, value));
            let mut due = match self.eids.remove(&time) {
                Some(due) => due,
                None => Vec::new(),
            };
            if !is_due(&due, eid) {
                due.push(eid);
            }
            self.eids.insert(time, due);
            assert(self.proposals() =~= old(self).proposals().insert(eid, (time, value@)));
            assert(self.due() =~= old(self).due().insert(
                time,
                with_entity(
                    if old(self).due().dom().contains(time) {
                        old(self).due()[time]
                    } else {
                        Seq::empty()
                    },
                    eid,
                ),
            ));
            assert(self.current() =~= old(self).current());
            assert forall|at: Time| #[trigger]
                self.due().dom().contains(at) implies self.due()[at].no_duplicates() by {
                if at != time {
                    assert(old(self).due().dom().contains(at));
                }
            }
            proof {
                self.lemma_same_holdings(old(self));
            }
            true
        } else {
            if !self.next.contains_key(&eid) {
                self.next.insert(eid, (capability, value));
                assert(self.proposals() =~= old(self).proposals().insert(
                    eid,
                    (capability, value@),
                ));
            } else {
                assert(self.proposals() =~= old(self).proposals());
            }
            assert(self.due() =~= old(self).due());
            assert(self.current() =~= old(self).current());
            proof {
                self.lemma_same_holdings(old(self));
            }
            false
        }
    }

    /// Settles one entity at `time` and appends what that emits to `changes`.
    fn settle(&mut self, eid: Eid, time: Time, changes: &mut Vec<Emitted>)
        ensures
            final(self).due() == old(self).due(),
            final(self).current() == if old(self).proposals().dom().contains(eid) {
                old(self).current().insert(eid, old(self).proposals()[eid].1)
            } else {
                old(self).current().remove(eid)
            },
            final(self).proposals() == old(self).proposals().remove(eid),
            final(self).history() == old(self).history() + settled(
                old(self).current(),
                old(self).proposals(),
                eid,
                time,
            ),
            emitted_views(final(changes)@) == emitted_views(old(changes)@) + settled(
                old(self).current(),
                old(self).proposals(),
                eid,
                time,
            ),
    {
        let ghost held = self.current();
        let ghost proposed = self.proposals();
        let ghost views = emitted_views(changes@);
        let ghost mut step: Seq<EmittedView> = Seq::empty();
        match self.current.remove(&eid) {
            Some(value) => {
                proof {
                    step = step.push(EmittedView { eid, value: value@, time, diff: -1 });
                }
                changes.push(Emitted { eid, value, time, diff: -1 });
            },
            None => {},
        }
        assert(self.current() =~= held.remove(eid));
        assert(emitted_views(changes@) =~= views + step);
        match self.next.remove(&eid) {
            Some(proposal) => {
                let value = proposal.1;
                proof {
                    step = step.push(EmittedView { eid, value: value@, time, diff: 1 });
                }
                changes.push(Emitted { eid, value: value.clone(), time, diff: 1 });
                self.current.insert(eid, value);
                assert(self.current() =~= held.insert(eid, proposed[eid].1));
            },
            None => {},
        }
        proof {
            assert(self.proposals() =~= proposed.remove(eid));
            assert(step =~= settled(held, proposed, eid, time));
            assert(emitted_views(changes@) =~= views + step);
            self.emitted@ = self.emitted@ + step;
        }
    }

    /// Settles the entities that are due at `time`, now that the frontier has passed
    /// it: for each, in the order in which they became due, the value it holds is
    /// retracted and the value proposed for it is asserted and held from now on.
    /// Returns the changes, all at `time`.
    pub fn notify(&mut self, time: Time) -> (changes: Vec<Emitted>)
        requires
            old(self).wf(),
        ensures
            final(self).wf(),
            final(self).due() == old(self).due().remove(time),
            final(self).history() == old(self).history() + emitted_views(changes@),
            !old(self).due().dom().contains(time) ==> {
                &&& changes@.len() == 0
                &&& final(self).current() == old(self).current()
                &&& final(self).proposals() == old(self).proposals()
            },
            old(self).due().dom().contains(time) ==> {
                &&& emitted_views(changes@) == settled_all(
                    old(self).current(),
                    old(self).proposals(),
                    old(self).due()[time],
                    time,
                )
                &&& final(self).current() == held_after(
                    old(self).current(),
                    old(self).proposals(),
                    old(self).due()[time],
                )
                &&& final(self).proposals() == proposals_after(
                    old(self).proposals(),
                    old(self).due()[time],
                )
            },
    {
        let mut changes: Vec<Emitted> = Vec::new();
        let ghost before = *self;
        let due = match self.eids.remove(&time) {
            Some(due) => due,
            None => {
                assert(self.due() =~= before.due().remove(time));
                assert(self.history() + emitted_views(changes@) =~= self.history());
                assert(self.current() =~= before.current());
                assert(self.proposals() =~= before.proposals());
                assert forall|at: Time| #[trigger]
                self.due().dom().contains(at) implies self.due()[at].no_duplicates() by {
                    assert(before.due().dom().contains(at));
                }
                proof {
                    self.lemma_same_holdings(&before);
                }
                return changes;
            },
        };
        assert(self.due() =~= before.due().remove(time));
        assert(before.due().dom().contains(time));
        assert(due@ == before.due()[time]);
        let ghost current0 = before.current();
        let ghost next0 = before.proposals();
        let mut i: usize = 0;
        assert(emitted_views(changes@) =~= settled_all(current0, next0, due@.subrange(0, 0), time));
        assert(self.current() =~= held_after(current0, next0, due@.subrange(0, 0)));
        assert(self.proposals() =~= proposals_after(next0, due@.subrange(0, 0)));
        assert(self.history() =~= before.history() + emitted_views(changes@));
        while i < due.len()
            invariant
                i <= due.len(),
                due@.no_duplicates(),
                self.due() == before.due().remove(time),
                current0 == before.current(),
                next0 == before.proposals(),
                before.wf(),
                emitted_views(changes@) == settled_all(
                    current0,
                    next0,
                    due@.subrange(0, i as int),
                    time,
                ),
                self.current() == held_after(current0, next0, due@.subrange(0, i as int)),
                self.proposals() == proposals_after(next0, due@.subrange(0, i as int)),
                self.history() == before.history() + emitted_views(changes@),
                forall|eid: Eid, value: ValueView|
                    #![trigger net(self.history(), eid, value)]
                    net(self.history(), eid, value) == if self.current().dom().contains(eid)
                        && self.current()[eid] == value {
                        1int
                    } else {
                        0int
                    },
            decreases due.len() - i,
        {
            let eid = due[i];
            let ghost shorter = due@.subrange(0, i as int);
            let ghost longer = due@.subrange(0, i + 1);
            let ghost held = self.current();
            let ghost proposed = self.proposals();
            let ghost history = self.history();
            let ghost views = emitted_views(changes@);
            proof {
                assert(longer.drop_last() =~= shorter);
                assert(longer.last() == eid);
                assert(!shorter.contains(eid));
                assert(held.dom().contains(eid) == current0.dom().contains(eid));
                assert(proposed.dom().contains(eid) == next0.dom().contains(eid));
            }
            let ghost step = settled(held, proposed, eid, time);
            self.settle(eid, time, &mut changes);
            proof {
                assert(held.dom().contains(eid) ==> held[eid] == current0[eid]);
                assert(proposed.dom().contains(eid) ==> proposed[eid] == next0[eid]);
                assert(step =~= settled(current0, next0, eid, time));
                assert(self.history() =~= before.history() + emitted_views(changes@));
                assert(self.current() =~= held_after(current0, next0, longer)) by {
                    assert forall|e: Eid|
                        longer.contains(e) == (shorter.contains(e) || e == eid) by {
                        if shorter.contains(e) {
                            let k = choose|k: int| 0 <= k < shorter.len() && shorter[k] == e;
                            assert(longer[k] == e);
                        }
                        if longer.contains(e) {
                            let k = choose|k: int| 0 <= k < longer.len() && longer[k] == e;
                            if k < i {
                                assert(shorter[k] == e);
                            }
                        }
                        assert(longer[i as int] == eid);
                    }
                }
                assert(self.proposals() =~= proposals_after(next0, longer)) by {
                    assert forall|e: Eid|
                        longer.contains(e) == (shorter.contains(e) || e == eid) by {
                        if shorter.contains(e) {
                            let k = choose|k: int| 0 <= k < shorter.len() && shorter[k] == e;
                            assert(longer[k] == e);
                        }
                        if longer.contains(e) {
                            let k = choose|k: int| 0 <= k < longer.len() && longer[k] == e;
                            if k < i {
                                assert(shorter[k] == e);
                            }
                        }
                        assert(longer[i as int] == eid);
                    }
                }
                assert forall|e: Eid, value: ValueView|
                    #![trigger net(self.history(), e, value)]
                    net(self.history(), e, value) == if self.current().dom().contains(e)
                        && self.current()[e] == value {
                        1int
                    } else {
                        0int
                    } by {
                    lemma_net_add(history, step, e, value);
                    lemma_net_settled(current0, next0, eid, time, e, value);
                    assert(net(history, e, value) == if held.dom().contains(e) && held[e]
                        == value {
                        1int
                    } else {
                        0int
                    });
                }
            }
            i += 1;
        }
        assert(due@.subrange(0, due.len() as int) =~= due@);
        changes
    }

    /// At most one value per entity: of everything emitted so far, no entity has two
    /// values with a net positive multiplicity. Notifications arrive in the order of
    /// time, so what was emitted up to a notification is what the attribute holds at
    /// its time.
    pub proof fn lemma_at_most_one_value(&self, eid: Eid, first: ValueView, second: ValueView)
        requires
            self.wf(),
            net(self.history(), eid, first) > 0,
            net(self.history(), eid, second) > 0,
        ensures
            first == second,
    {
    }
}

/// The net multiplicity that settling one entity gives to a pair.
proof fn lemma_net_settled(
    current: Map<Eid, ValueView>,
    next: Map<Eid, (Time, ValueView)>,
    settled_eid: Eid,
    time: Time,
    eid: Eid,
    value: ValueView,
)
    ensures
        net(settled(current, next, settled_eid, time), eid, value) == (if settled_eid == eid
            && next.dom().contains(eid) && next[eid].1 == value {
            1int
        } else {
            0int
        }) - (if settled_eid == eid && current.dom().contains(eid) && current[eid] == value {
            1int
        } else {
            0int
        }),
{
    let retraction = EmittedView { eid: settled_eid, value: current[settled_eid], time, diff: -1 };
    let assertion = EmittedView { eid: settled_eid, value: next[settled_eid].1, time, diff: 1 };
    let out = settled(current, next, settled_eid, time);
    let empty = Seq::<EmittedView>::empty();
    assert(net(empty, eid, value) == 0);
    if current.dom().contains(settled_eid) {
        if next.dom().contains(settled_eid) {
            assert(out =~= seq![retraction, assertion]);
            assert(out.drop_last() =~= seq![retraction]);
            assert(seq![retraction].drop_last() =~= empty);
            assert(net(seq![retraction], eid, value) == net(empty, eid, value) + if retraction.eid
                == eid && retraction.value == value {
                -1int
            } else {
                0int
            });
        } else {
            assert(out =~= seq![retraction]);
            assert(out.drop_last() =~= empty);
        }
    } else {
        if next.dom().contains(settled_eid) {
            assert(out =~= seq![assertion]);
            assert(out.drop_last() =~= empty);
        } else {
            assert(out =~= empty);
        }
    }
}

/// Whether `eid` is among the entities that are due.
fn is_due(due: &Vec<Eid>, eid: Eid) -> (found: bool)
    ensures
        found == due@.contains(eid),
{
    let mut i: usize = 0;
    while i < due.len()
        invariant
            i <= due.len(),
            forall|j: int| 0 <= j < i ==> due@[j] != eid,
        decreases due.len() - i,
    {
        if due[i] == eid {
            return true;
        }
        i += 1;
    }
    false
}

} // verus!
