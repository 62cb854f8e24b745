//! One delivery sweep: every fragment of a frame goes to every client. The sweep says what to
//! send next and takes note of how each send went; whoever does the sending tells it. A client
//! that could not be reached stays in the sweep to its end and leaves the registry after it.

use crate::registry::{lemma_without, without, ClientRegistry, Peer};
use vstd::prelude::*;

verus! {

/// One send: a fragment, by its index, and the client that it goes to.
#[derive(Clone, Copy, Debug, PartialEq, Eq, Structural)]
pub struct Dispatch {
    /// The client's address.
    pub to: Peer,
    /// The client's place among the clients of the sweep.
    pub client: usize,
    /// The index of the fragment.
    pub fragment: usize,
}

/// How a sweep ended.
#[derive(Clone, Copy, Debug, PartialEq, Eq, Structural)]
pub enum SweepOutcome {
    /// Some client was reached with every fragment.
    Delivered,
    /// No client was reached with every fragment, or there was no client.
    NoViableClients,
}

/// What a sweep is, mathematically.
pub struct SweepView {
    /// The clients of the sweep.
    pub targets: Seq<Peer>,
    /// The number of fragments of the frame.
    pub fragments: nat,
    /// The fragment that goes out next.
    pub fragment: nat,
    /// The place of the client that it goes to.
    pub client: nat,
    /// For each client, whether a send to it has failed.
    pub failed: Seq<bool>,
}

impl SweepView {
    /// A sweep that has not sent anything yet. Without clients it is over at once.
    pub open spec fn fresh(targets: Seq<Peer>, fragments: nat) -> SweepView {
        SweepView {
            targets,
            fragments,
            fragment: if targets.len() == 0 {
                fragments
            } else {
                0
            },
            client: 0,
            failed: Seq::new(targets.len(), |c: int| false),
        }
    }

    /// The sweep's invariant.
    pub open spec fn wf(self) -> bool {
        &&& self.failed.len() == self.targets.len()
        &&& self.fragment <= self.fragments
        &&& self.fragment < self.fragments ==> self.client < self.targets.len()
        &&& self.fragment == self.fragments ==> self.client == 0
    }

    /// Every fragment has gone to every client.
    pub open spec fn done(self) -> bool {
        self.fragment >= self.fragments
    }

    /// The sweep after the send that was due went well or failed: a failure marks the client,
    /// and the next send is the same fragment to the next client, or, after the last client,
    /// the next fragment to the first.
    pub open spec fn record(self, delivered: bool) -> SweepView {
        let failed = self.failed.update(
            self.client as int,
            self.failed[self.client as int] || !delivered,
        );
        if self.client + 1 < self.targets.len() {
            SweepView { client: self.client + 1, failed, ..self }
        } else {
            SweepView { fragment: self.fragment + 1, client: 0, failed, ..self }
        }
    }

    /// Fragment `f` is still due to go to client `c`.
    pub open spec fn due(self, f: int, c: int) -> bool {
        self.fragment <= f < self.fragments && (f > self.fragment || c >= self.client)
    }

    /// The first fragment that is still due to go to client `c`.
    pub open spec fn first_due(self, c: int) -> int {
        if c >= self.client {
            self.fragment as int
        } else {
            self.fragment as int + 1
        }
    }

    /// Every client of the sweep is marked.
    pub open spec fn all_failed(self) -> bool {
        forall|c: int| 0 <= c < self.failed.len() ==> self.failed[c]
    }

    /// The sweep after all the sends that are still due, where `outcome(f, c)` says whether
    /// fragment `f` reaches client `c`.
    pub open spec fn play(self, outcome: spec_fn(int, int) -> bool) -> SweepView
        decreases self.fragments - self.fragment, self.targets.len() - self.client,
    {
        if self.wf() && !self.done() {
            self.record(outcome(self.fragment as int, self.client as int)).play(outcome)
        } else {
            self
        }
    }

    /// The fragments that go to client `c` in the sends that are still due, in the order in
    /// which they go out.
    pub open spec fn handed(self, outcome: spec_fn(int, int) -> bool, c: int) -> Seq<int>
        decreases self.fragments - self.fragment, self.targets.len() - self.client,
    {
        if self.wf() && !self.done() {
            let rest = self.record(outcome(self.fragment as int, self.client as int)).handed(
                outcome,
                c,
            );
            if self.client == c {
                seq![self.fragment as int] + rest
            } else {
                rest
            }
        } else {
            Seq::empty()
        }
    }
}

/// The numbers from `first` up to, but not including, `end`.
pub open spec fn numbers(first: int, end: int) -> Seq<int> {
    Seq::new((end - first) as nat, |k: int| first + k)
}

/// The clients that are left when those that the sweep has marked are taken out.
pub open spec fn prune_spec(clients: Seq<Peer>, targets: Seq<Peer>, failed: Seq<bool>) -> Seq<
    Peer,
>
    decreases targets.len(),
{
    if targets.len() == 0 {
        clients
    } else {
        let rest = prune_spec(clients, targets.drop_last(), failed.drop_last());
        if failed.last() {
            without(rest, targets.last())
        } else {
            rest
        }
    }
}

/// Where a delivery sweep stands.
pub struct Sweep {
    targets: Vec<Peer>,
    fragments: usize,
    fragment: usize,
    client: usize,
    failed: Vec<bool>,
}

impl View for Sweep {
    type V = SweepView;

    closed spec fn view(&self) -> SweepView {
        SweepView {
            targets: self.targets@,
            fragments: self.fragments as nat,
            fragment: self.fragment as nat,
            client: self.client as nat,
            failed: self.failed@,
        }
    }
}

impl Sweep {
    /// The sweep's invariant.
    pub open spec fn wf(&self) -> bool {
        self@.wf()
    }

    /// Begins a sweep of a frame of `fragments` fragments over the clients that the registry
    /// holds now.
    pub fn begin(registry: &ClientRegistry, fragments: usize) -> (sweep: Sweep)
        ensures
            sweep.wf(),
            sweep@ == SweepView::fresh(registry@, fragments as nat),
    {
        let targets = registry.clients();
        let mut failed: Vec<bool> = Vec::new();
        let mut c: usize = 0;
        while c < targets.len()
            invariant
                0 <= c <= targets@.len(),
                failed@.len() == c,
                forall|i: int| 0 <= i < c ==> !failed@[i],
            decreases targets@.len() - c,
        {
            failed.push(false);
            c += 1;
        }
        let fragment: usize = if targets.len() == 0 {
            fragments
        } else {
            0
        };
        assert(failed@ =~= Seq::new(targets@.len(), |c: int| false));
        Sweep { targets, fragments, fragment, client: 0, failed }
    }

    /// Whether every fragment has gone to every client.
    pub fn is_done(&self) -> (done: bool)
        ensures
            done == self@.done(),
    {
        self.fragment >= self.fragments
    }

    /// The send that is due, if the sweep is not over.
    pub fn next(&self) -> (step: Option<Dispatch>)
        requires
            self.wf(),
        ensures
            match step {
                Some(dispatch) => {
                    &&& !self@.done()
                    &&& dispatch.client == self@.client
                    &&& dispatch.fragment == self@.fragment
                    &&& dispatch.to == self@.targets[self@.client as int]
                },
                None => self@.done(),
            },
    {
        if self.fragment >= self.fragments {
            None
        } else {
            Some(
                Dispatch {
                    to: self.targets[self.client],
                    client: self.client,
                    fragment: self.fragment,
                },
            )
        }
    }

    /// Takes note of how the send that was due went, and moves on to the next.
    pub fn record(&mut self, delivered: bool)
        requires
            old(self).wf(),
            !old(self)@.done(),
        ensures
            final(self).wf(),
            final(self)@ == old(self)@.record(delivered),
    {
        let client: usize = self.client;
        assert(client < self.targets.len());
        if !delivered {
            self.failed[client] = true;
        }
        if client + 1 < self.targets.len() {
            self.client = client + 1;
        } else {
            self.fragment = self.fragment + 1;
            self.client = 0;
        }
        assert(self.failed@ =~= old(self)@.failed.update(
            old(self)@.client as int,
            old(self)@.failed[old(self)@.client as int] || !delivered,
        ));
    }

    /// Whether a send to the client at this place has failed.
    pub fn has_failed(&self, client: usize) -> (failed: bool)
        requires
            self.wf(),
            client < self@.targets.len(),
        ensures
            failed == self@.failed[client as int],
    {
        self.failed[client]
    }

    /// Ends the sweep: the clients that it has marked leave the registry, all at once and only
    /// now. Says whether any client was reached with every fragment.
    pub fn finish(&self, registry: &mut ClientRegistry) -> (outcome: SweepOutcome)
        requires
            self.wf(),
            old(registry).wf(),
        ensures
            final(registry).wf(),
            final(registry)@ == prune_spec(old(registry)@, self@.targets, self@.failed),
            outcome == if self@.all_failed() {
                SweepOutcome::NoViableClients
            } else {
                SweepOutcome::Delivered
            },
    {
        let mut reached: bool = false;
        let mut c: usize = 0;
        assert(self.targets@.take(0) =~= Seq::<Peer>::empty());
        while c < self.targets.len()
            invariant
                self.wf(),
                0 <= c <= self.targets@.len(),
                registry.wf(),
                registry@ == prune_spec(
                    old(registry)@,
                    self.targets@.take(c as int),
                    self.failed@.take(c as int),
                ),
                reached <==> exists|i: int| 0 <= i < c && !self.failed@[i],
            decreases self.targets@.len() - c,
        {
            proof {
                assert(self.targets@.take(c + 1).drop_last() =~= self.targets@.take(c as int));
                assert(self.failed@.take(c + 1).drop_last() =~= self.failed@.take(c as int));
            }
            if self.failed[c] {
                registry.remove(self.targets[c]);
            } else {
                reached = true;
            }
            c += 1;
        }
        assert(self.targets@.take(c as int) =~= self.targets@);
        assert(self.failed@.take(c as int) =~= self.failed@);
        if reached {
            SweepOutcome::Delivered
        } else {
            SweepOutcome::NoViableClients
        }
    }
}

/// The sweep has marked this peer: a send to it has failed.
pub open spec fn marked(targets: Seq<Peer>, failed: Seq<bool>, peer: Peer) -> bool {
    exists|c: int| 0 <= c < targets.len() && targets[c] == peer && failed[c]
}

/// Who is left after a sweep: the clients that were there before, but for those that the sweep
/// has marked; and no client is there twice.
pub proof fn lemma_prune_members(clients: Seq<Peer>, targets: Seq<Peer>, failed: Seq<bool>)
    requires
        clients.no_duplicates(),
        failed.len() == targets.len(),
    ensures
        prune_spec(clients, targets, failed).no_duplicates(),
        forall|peer: Peer|
            #[trigger] prune_spec(clients, targets, failed).contains(peer) <==> clients.contains(
                peer,
            ) && !marked(targets, failed, peer),
    decreases targets.len(),
{
    if targets.len() > 0 {
        let earlier = targets.drop_last();
        let marks = failed.drop_last();
        lemma_prune_members(clients, earlier, marks);
        let rest = prune_spec(clients, earlier, marks);
        let last = targets.len() - 1;
        lemma_without(rest, targets.last());
        let after = prune_spec(clients, targets, failed);
        assert(after == if failed[last] {
            without(rest, targets[last])
        } else {
            rest
        });
        assert forall|peer: Peer| #[trigger]
            after.contains(peer) <==> clients.contains(peer) && !marked(
                targets,
                failed,
                peer,
            ) by {
            assert(rest.contains(peer) <==> clients.contains(peer) && !marked(
                earlier,
                marks,
                peer,
            ));
            assert(without(rest, targets[last]).contains(peer) <==> peer != targets[last]
                && rest.contains(peer));
            if marked(earlier, marks, peer) {
                let c = choose|c: int| 0 <= c < earlier.len() && earlier[c] == peer && marks[c];
                assert(targets[c] == peer && failed[c]);
            }
            if marked(targets, failed, peer) {
                let c = choose|c: int| 0 <= c < targets.len() && targets[c] == peer && failed[c];
                if c < last {
                    assert(earlier[c] == peer && marks[c]);
                }
            }
            if failed[last] && targets[last] == peer {
                assert(marked(targets, failed, peer));
            }
        }
    } else {
        assert forall|peer: Peer| !marked(targets, failed, peer) by {}
    }
}

/// From any point of a sweep, whatever becomes of the sends that are still due: the sweep comes
/// to its end; a client is marked at the end exactly if it was marked before or one of the
/// fragments still due to it did not reach it; and each client is handed the fragments still
/// due to it in ascending order.
pub proof fn lemma_play(sweep: SweepView, outcome: spec_fn(int, int) -> bool)
    requires
        sweep.wf(),
    ensures
        sweep.play(outcome).wf(),
        sweep.play(outcome).done(),
        sweep.play(outcome).targets == sweep.targets,
        sweep.play(outcome).fragments == sweep.fragments,
        forall|c: int|
            0 <= c < sweep.targets.len() ==> (#[trigger] sweep.play(outcome).failed[c]
                <==> sweep.failed[c] || exists|f: int| sweep.due(f, c) && !outcome(f, c)),
        forall|c: int|
            0 <= c < sweep.targets.len() ==> #[trigger] sweep.handed(outcome, c) == numbers(
                sweep.first_due(c),
                sweep.fragments as int,
            ),
    decreases sweep.fragments - sweep.fragment, sweep.targets.len() - sweep.client,
{
    let end = sweep.play(outcome);
    if !sweep.done() {
        let f0 = sweep.fragment as int;
        let c0 = sweep.client as int;
        let next = sweep.record(outcome(f0, c0));
        lemma_play(next, outcome);
        assert(end == next.play(outcome));
        assert forall|c: int| 0 <= c < sweep.targets.len() implies (#[trigger] end.failed[c]
            <==> sweep.failed[c] || exists|f: int| sweep.due(f, c) && !outcome(f, c)) by {
            assert(end.failed[c] <==> next.failed[c] || exists|f: int|
                next.due(f, c) && !outcome(f, c));
            if exists|f: int| next.due(f, c) && !outcome(f, c) {
                let f = choose|f: int| next.due(f, c) && !outcome(f, c);
                assert(sweep.due(f, c) && !outcome(f, c));
            }
            if c == c0 && !outcome(f0, c0) {
                assert(sweep.due(f0, c) && !outcome(f0, c));
            }
            if exists|f: int| sweep.due(f, c) && !outcome(f, c) {
                let f = choose|f: int| sweep.due(f, c) && !outcome(f, c);
                if !(f == f0 && c == c0) {
                    assert(next.due(f, c) && !outcome(f, c));
                }
            }
        }
        assert forall|c: int| 0 <= c < sweep.targets.len() implies #[trigger] sweep.handed(
            outcome,
            c,
        ) == numbers(sweep.first_due(c), sweep.fragments as int) by {
            assert(next.handed(outcome, c) == numbers(next.first_due(c), next.fragments as int));
            if c == c0 {
                assert(seq![f0] + numbers(f0 + 1, sweep.fragments as int) =~= numbers(
                    f0,
                    sweep.fragments as int,
                ));
            }
        }
    } else {
        assert forall|c: int| 0 <= c < sweep.targets.len() implies #[trigger] sweep.handed(
            outcome,
            c,
        ) == numbers(sweep.first_due(c), sweep.fragments as int) by {
            assert(sweep.handed(outcome, c) =~= numbers(
                sweep.first_due(c),
                sweep.fragments as int,
            ));
        }
    }
}

/// A whole sweep, whatever becomes of its sends: it comes to its end; a client is marked
/// exactly if some fragment did not reach it; and every client, marked or not, is handed every
/// fragment, in the order of the indices.
pub proof fn lemma_sweep(targets: Seq<Peer>, fragments: nat, outcome: spec_fn(int, int) -> bool)
    ensures
        SweepView::fresh(targets, fragments).play(outcome).done(),
        SweepView::fresh(targets, fragments).play(outcome).failed.len() == targets.len(),
        forall|c: int|
            0 <= c < targets.len() ==> (#[trigger] SweepView::fresh(targets, fragments).play(
                outcome,
            ).failed[c] <==> exists|f: int| 0 <= f < fragments && !#[trigger] outcome(f, c)),
        forall|c: int|
            0 <= c < targets.len() ==> #[trigger] SweepView::fresh(targets, fragments).handed(
                outcome,
                c,
            ) == numbers(0, fragments as int),
{
    let fresh = SweepView::fresh(targets, fragments);
    lemma_play(fresh, outcome);
    assert forall|c: int| 0 <= c < targets.len() implies (#[trigger] fresh.play(outcome).failed[c]
        <==> exists|f: int| 0 <= f < fragments && !#[trigger] outcome(f, c)) by {
        if exists|f: int| fresh.due(f, c) && !outcome(f, c) {
            let f = choose|f: int| fresh.due(f, c) && !outcome(f, c);
            assert(0 <= f < fragments && !outcome(f, c));
        }
        if exists|f: int| 0 <= f < fragments && !#[trigger] outcome(f, c) {
            let f = choose|f: int| 0 <= f < fragments && !#[trigger] outcome(f, c);
            assert(fresh.due(f, c) && !outcome(f, c));
        }
    }
}

} // verus!
