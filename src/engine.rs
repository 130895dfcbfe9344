//! The engine that translates a root definition and, on demand, everything
//! it depends on. It decides; the caller performs the outside work (naming a
//! definition, translating it) and reports back.
use vstd::prelude::*;

use crate::deps::{with_node, with_staged, DefId, Deps};
use crate::mangle::{mangle, mk_lean_name_from_parts, views};
use crate::policy::Config;

verus! {

/// The message recorded for a name that the `fail` list matches.
pub const EXCLUDED: &'static str = "excluded by policy";

pub open spec fn outcome_view(r: Result<Option<String>, String>) -> Result<Option<Seq<char>>, Seq<char>> {
    match r {
        Ok(Some(t)) => Ok(Some(t@)),
        Ok(None) => Ok(None),
        Err(m) => Err(m@),
    }
}

/// The outcome recorded for `d`, the latest entry winning.
pub open spec fn outcome_in(entries: Seq<(DefId, Result<Option<String>, String>)>, d: DefId) -> Option<
    Result<Option<Seq<char>>, Seq<char>>,
>
    decreases entries.len(),
{
    if entries.len() == 0 {
        None
    } else if entries.last().0 == d {
        Some(outcome_view(entries.last().1))
    } else {
        outcome_in(entries.drop_last(), d)
    }
}

/// The sequence in reverse order.
pub open spec fn rev(s: Seq<DefId>) -> Seq<DefId> {
    Seq::new(s.len(), |i: int| s[s.len() - 1 - i])
}

/// The worklist with its top removed when the top is `d`.
pub open spec fn pop_if_top(w: Seq<DefId>, d: DefId) -> Seq<DefId> {
    if w.len() > 0 && w.last() == d {
        w.drop_last()
    } else {
        w
    }
}

/// What the caller has to do after `transpile`.
pub enum Action {
    /// Nothing: the definition needs no translation now.
    Done,
    /// Nothing: another definition is still being translated.
    Busy,
    /// Nothing: the definition, whose Lean name is given, got its configured
    /// replacement text.
    Replaced(String),
    /// Translate the definition, whose Lean name is given, then call `finish`.
    Translate(String),
}

pub struct CrateTranspiler {
    config: Config,
    deps: Deps,
    trans_results: Vec<(DefId, Result<Option<String>, String>)>,
    /// Definitions waiting to be looked at; the last one comes first.
    worklist: Vec<DefId>,
    /// The definition handed out for translation.
    pending: Option<DefId>,
}

impl CrateTranspiler {
    pub closed spec fn dep_state(&self) -> Deps {
        self.deps
    }

    pub closed spec fn policy(&self) -> Config {
        self.config
    }

    pub closed spec fn results(&self) -> Seq<(DefId, Result<Option<String>, String>)> {
        self.trans_results@
    }

    pub closed spec fn worklist(&self) -> Seq<DefId> {
        self.worklist@
    }

    pub closed spec fn pending(&self) -> Option<DefId> {
        self.pending
    }

    pub open spec fn outcome(&self, d: DefId) -> Option<Result<Option<Seq<char>>, Seq<char>>> {
        outcome_in(self.results(), d)
    }

    /// A bound on the work left: each node yet to be made may add one entry
    /// to the worklist, and each entry is looked at once.
    pub open spec fn measure(&self) -> int {
        2 * (u32::MAX - self.dep_state().nodes().len()) + self.worklist().len()
            + self.dep_state().staged().len()
    }

    pub open spec fn wf(&self) -> bool {
        &&& self.dep_state().wf()
        &&& self.pending() matches Some(p) ==> self.outcome(p) is None
    }

    /// `d` has an outcome, or is sure to be looked at again.
    pub open spec fn settled_or_waiting(&self, d: DefId) -> bool {
        ||| self.outcome(d) is Some
        ||| self.worklist().contains(d)
        ||| self.dep_state().staged().contains(d)
        ||| self.pending() == Some(d)
    }

    /// Every definition of the graph that `filter` admits has an outcome or
    /// is waiting for one.
    pub open spec fn closed(&self, filter: Seq<DefId>) -> bool {
        forall|d: DefId| #[trigger] self.dep_state().has_node(d) && filter.contains(d) ==> self.settled_or_waiting(d)
    }

    /// The outcomes of `self` are those of `o` and one more, for `d`.
    pub open spec fn adds_outcome(&self, o: &Self, d: DefId, v: Result<Option<Seq<char>>, Seq<char>>) -> bool {
        &&& self.results().len() == o.results().len() + 1
        &&& self.outcome(d) == Some(v)
        &&& forall|e: DefId| e != d ==> #[trigger] self.outcome(e) == o.outcome(e)
    }

    pub fn new(config: Config) -> (r: CrateTranspiler)
        ensures
            r.wf(),
            r.policy() == config,
            r.results() == Seq::<(DefId, Result<Option<String>, String>)>::empty(),
            r.worklist() == Seq::<DefId>::empty(),
            r.pending() is None,
            r.dep_state().nodes() == Seq::<DefId>::empty(),
            r.dep_state().staged() == Seq::<DefId>::empty(),
            r.dep_state().edges() == Seq::<(int, int)>::empty(),
            r.dep_state().crates() == Set::<Seq<char>>::empty(),
            forall|f: Seq<DefId>| #[trigger] r.closed(f),
    {
        CrateTranspiler {
            config,
            deps: Deps::new(),
            trans_results: Vec::new(),
            worklist: Vec::new(),
            pending: None,
        }
    }

    /// The Lean name of a single name.
    pub fn mk_lean_name(&self, s: &str) -> (r: String)
        ensures
            r@ == mangle(seq![s@]),
    {
        let mut parts: Vec<String> = Vec::new();
        parts.push(String::from_str(s));
        assert(views(parts@) =~= seq![s@]);
        mk_lean_name_from_parts(parts.as_slice())
    }

    /// The outcomes, in the order they were recorded, and the dependencies.
    pub fn destruct(self) -> (r: (Vec<(DefId, Result<Option<String>, String>)>, Deps))
        ensures
            r.0@ == self.results(),
            r.1 == self.dep_state(),
    {
        (self.trans_results, self.deps)
    }

    /// Records that `used` is used by `user`. A definition of another crate
    /// gets no node: only its crate's name is recorded.
    pub fn add_dep(&mut self, used: DefId, user: DefId, used_crate: &str)
        requires
            old(self).wf(),
            used.local() ==> old(self).dep_state().room(),
        ensures
            final(self).wf(),
            final(self).measure() <= old(self).measure(),
            final(self).policy() == old(self).policy(),
            final(self).results() == old(self).results(),
            final(self).worklist() == old(self).worklist(),
            final(self).pending() == old(self).pending(),
            forall|f: Seq<DefId>| old(self).closed(f) ==> #[trigger] final(self).closed(f),
            used.local() ==> {
                &&& final(self).dep_state().nodes() == with_node(
                    with_node(old(self).dep_state().nodes(), used),
                    user,
                )
                &&& final(self).dep_state().staged() == with_staged(
                    with_staged(old(self).dep_state().staged(), old(self).dep_state().nodes(), used),
                    with_node(old(self).dep_state().nodes(), used),
                    user,
                )
                &&& final(self).dep_state().edges().drop_last() == old(self).dep_state().edges()
                &&& final(self).dep_state().edges().len() == old(self).dep_state().edges().len() + 1
                &&& final(self).dep_state().nodes()[final(self).dep_state().edges().last().0] == used
                &&& final(self).dep_state().nodes()[final(self).dep_state().edges().last().1] == user
                &&& final(self).dep_state().crates() == old(self).dep_state().crates()
            },
            !used.local() ==> {
                &&& final(self).dep_state().nodes() == old(self).dep_state().nodes()
                &&& final(self).dep_state().staged() == old(self).dep_state().staged()
                &&& final(self).dep_state().edges() == old(self).dep_state().edges()
                &&& final(self).dep_state().crates() == old(self).dep_state().crates().insert(used_crate@)
            },
    {
        let ghost o = *self;
        if used.is_local() {
            self.deps.add_dep(used, user);
            assert(self.dep_state().crates() == o.dep_state().crates());
            assert forall|f: Seq<DefId>| o.closed(f) implies #[trigger] self.closed(f) by {
                assert forall|d: DefId| #[trigger] self.dep_state().has_node(d) && f.contains(d)
                    implies self.settled_or_waiting(d) by {
                    let n0 = o.dep_state().nodes();
                    let s0 = o.dep_state().staged();
                    lemma_with_node_contains(n0, used, d);
                    lemma_with_node_contains(with_node(n0, used), user, d);
                    lemma_with_staged_contains(s0, n0, used, d);
                    lemma_with_staged_contains(with_staged(s0, n0, used), with_node(n0, used), user, d);
                    lemma_with_node_contains(n0, used, user);
                    if o.dep_state().has_node(d) {
                        assert(o.settled_or_waiting(d));
                    }
                };
            };
        } else {
            self.deps.add_crate(String::from_str(used_crate));
            assert forall|f: Seq<DefId>| o.closed(f) implies #[trigger] self.closed(f) by {
                assert forall|d: DefId| #[trigger] self.dep_state().has_node(d) && f.contains(d)
                    implies self.settled_or_waiting(d) by {
                    assert(o.dep_state().has_node(d));
                };
            };
        }
    }

    /// Whether `d` uses itself: some edge goes from its node to itself. Only
    /// an edge that the translator records from `d` to `d` counts, so the
    /// uses inside a closure count as the closure's own as long as they are
    /// recorded under the closure's definition.
    pub fn is_recursive(&self, d: DefId) -> (r: bool)
        requires
            self.wf(),
        ensures
            r == (exists|k: int|
                0 <= k < self.dep_state().edges().len() && self.dep_state().nodes()[(
                #[trigger] self.dep_state().edges()[k]).0] == d && self.dep_state().edges()[k].0
                    == self.dep_state().edges()[k].1),
    {
        self.deps.has_self_edge(d)
    }

    /// The definition to look at next, if any.
    pub fn next_item(&self) -> (r: Option<DefId>)
        ensures
            r == (if self.worklist().len() > 0 {
                Some(self.worklist().last())
            } else {
                None
            }),
    {
        if self.worklist.len() > 0 {
            Some(self.worklist[self.worklist.len() - 1])
        } else {
            None
        }
    }

    /// Whether the graph has room for the nodes and the edge of one more
    /// recorded use.
    pub fn has_room(&self) -> (r: bool)
        requires
            self.wf(),
        ensures
            r == self.dep_state().room(),
    {
        self.deps.has_room()
    }

    /// Whether a failed translation ends the run.
    pub fn strict(&self) -> (r: bool)
        ensures
            r == self.policy().is_strict(),
    {
        self.config.strict()
    }

    /// The number of successful and of failed outcomes.
    pub fn tally(&self) -> (r: (usize, usize))
        ensures
            r.0 == tally_of(self.results()).0,
            r.1 == tally_of(self.results()).1,
    {
        let mut ok: usize = 0;
        let mut err: usize = 0;
        let mut i: usize = 0;
        while i < self.trans_results.len()
            invariant
                i <= self.trans_results.len(),
                ok + err == i,
                ok == tally_of(self.results().take(i as int)).0,
                err == tally_of(self.results().take(i as int)).1,
            decreases self.trans_results.len() - i,
        {
            assert(self.results().take(i + 1).drop_last() =~= self.results().take(i as int));
            if self.trans_results[i].1.is_ok() {
                ok += 1;
            } else {
                err += 1;
            }
            i += 1;
        }
        assert(self.results().take(i as int) =~= self.results());
        (ok, err)
    }

    /// Whether `d` has an outcome.
    pub fn has_outcome(&self, d: DefId) -> (r: bool)
        ensures
            r == self.outcome(d) is Some,
    {
        let mut i: usize = self.trans_results.len();
        assert(self.results().take(i as int) =~= self.results());
        while i > 0
            invariant
                i <= self.trans_results.len(),
                self.outcome(d) == outcome_in(self.results().take(i as int), d),
            decreases i,
        {
            assert(self.results().take(i as int).drop_last() =~= self.results().take(i - 1));
            if self.trans_results[i - 1].0 == d {
                return true;
            }
            i -= 1;
        }
        false
    }

    /// Records the outcome of a definition that has none.
    fn record(&mut self, d: DefId, res: Result<Option<String>, String>)
        requires
            old(self).wf(),
            old(self).outcome(d) is None,
            old(self).pending() != Some(d),
        ensures
            final(self).wf(),
            final(self).adds_outcome(&*old(self), d, outcome_view(res)),
            final(self).policy() == old(self).policy(),
            final(self).dep_state() == old(self).dep_state(),
            final(self).worklist() == old(self).worklist(),
            final(self).pending() == old(self).pending(),
    {
        let ghost before = self.results();
        self.trans_results.push((d, res));
        assert(self.results().drop_last() =~= before);
    }

    /// Moves the staged definitions onto the worklist, the first staged on top.
    fn schedule_staged(&mut self)
        requires
            old(self).wf(),
        ensures
            final(self).wf(),
            final(self).worklist() == old(self).worklist() + rev(old(self).dep_state().staged()),
            final(self).dep_state().staged() == Seq::<DefId>::empty(),
            final(self).dep_state().nodes() == old(self).dep_state().nodes(),
            final(self).dep_state().edges() == old(self).dep_state().edges(),
            final(self).dep_state().crates() == old(self).dep_state().crates(),
            final(self).results() == old(self).results(),
            final(self).policy() == old(self).policy(),
            final(self).pending() == old(self).pending(),
    {
        let staged = self.deps.drain_new_deps();
        let ghost start = self.worklist@;
        let ghost mid = *self;
        let mut i: usize = staged.len();
        while i > 0
            invariant
                self.deps == mid.deps,
                self.trans_results == mid.trans_results,
                self.config == mid.config,
                self.pending == mid.pending,
                i <= staged.len(),
                self.worklist@ == start + rev(staged@).take(staged.len() - i),
            decreases i,
        {
            self.worklist.push(staged[i - 1]);
            i -= 1;
            assert(self.worklist@ =~= start + rev(staged@).take(staged.len() - i));
        }
        assert(rev(staged@).take(staged.len() as int) =~= rev(staged@));
    }

    /// Looks at `d`, the next definition of a run over `filter`, whose path
    /// is `path`. A definition that already has an outcome, or that the
    /// filter leaves out, needs nothing. Otherwise, in this order: a name
    /// that the `ignore` list matches gets `Ok(None)`; one that the `fail`
    /// list matches gets `Err(EXCLUDED)`; the definition gets a node; a name
    /// with a replacement gets that text. In these cases the translator is
    /// not needed. Else the caller is asked to translate `d`.
    pub fn transpile(&mut self, d: DefId, filter: &[DefId], path: &[String]) -> (r: Action)
        requires
            old(self).wf(),
            old(self).outcome(d) is None ==> old(self).dep_state().nodes().len() + 1 < u32::MAX,
        ensures
            final(self).wf(),
            old(self).pending() is None && old(self).worklist().len() > 0 && old(self).worklist().last()
                == d ==> final(self).measure() < old(self).measure(),
            final(self).measure() <= old(self).measure(),
            final(self).policy() == old(self).policy(),
            final(self).dep_state().crates() == old(self).dep_state().crates(),
            final(self).dep_state().edges() == old(self).dep_state().edges(),
            old(self).closed(filter@) ==> final(self).closed(filter@),
            old(self).pending() is Some ==> r is Busy && *final(self) == *old(self),
            old(self).pending() is None && (old(self).outcome(d) is Some || !filter@.contains(d))
                ==> {
                &&& r is Done
                &&& final(self).results() == old(self).results()
                &&& final(self).dep_state() == old(self).dep_state()
                &&& final(self).pending() is None
                &&& final(self).worklist() == pop_if_top(old(self).worklist(), d)
            },
            old(self).pending() is None && old(self).outcome(d) is None && filter@.contains(d)
                ==> ({
                let name = mangle(views(path@));
                let w = pop_if_top(old(self).worklist(), d);
                let nodes = with_node(old(self).dep_state().nodes(), d);
                let staged = with_staged(old(self).dep_state().staged(), old(self).dep_state().nodes(), d);
                if old(self).policy().ignores(name) {
                    &&& r is Done
                    &&& final(self).adds_outcome(&*old(self), d, Ok(None))
                    &&& final(self).dep_state() == old(self).dep_state()
                    &&& final(self).pending() is None
                    &&& final(self).worklist() == w
                } else if old(self).policy().fails(name) {
                    &&& r is Done
                    &&& final(self).adds_outcome(&*old(self), d, Err(EXCLUDED@))
                    &&& final(self).dep_state() == old(self).dep_state()
                    &&& final(self).pending() is None
                    &&& final(self).worklist() == w
                } else if let Some(text) = old(self).policy().replacement(name) {
                    &&& r matches Action::Replaced(n) && n@ == name
                    &&& final(self).adds_outcome(&*old(self), d, Ok(Some(text)))
                    &&& final(self).dep_state().nodes() == nodes
                    &&& final(self).dep_state().staged() == Seq::<DefId>::empty()
                    &&& final(self).pending() is None
                    &&& final(self).worklist() == w + rev(staged)
                } else {
                    &&& r matches Action::Translate(n) && n@ == name
                    &&& final(self).results() == old(self).results()
                    &&& final(self).dep_state().nodes() == nodes
                    &&& final(self).dep_state().staged() == staged
                    &&& final(self).pending() == Some(d)
                    &&& final(self).worklist() == w
                }
            }),
    {
        if self.pending.is_some() {
            return Action::Busy;
        }
        let ghost o = *self;
        if self.worklist.len() > 0 && self.worklist[self.worklist.len() - 1] == d {
            self.worklist.pop();
        }
        assert(self.worklist() == pop_if_top(o.worklist(), d));
        let ghost popped = *self;
        assert forall|x: DefId| x != d && o.worklist().contains(x) implies #[trigger] popped.worklist().contains(x) by {
            let k = choose|k: int| 0 <= k < o.worklist().len() && o.worklist()[k] == x;
            if o.worklist().len() > 0 && o.worklist().last() == d {
                assert(k < o.worklist().len() - 1);
                assert(popped.worklist()[k] == x);
            }
        };
        if self.has_outcome(d) || !contains(filter, d) {
            assert(o.closed(filter@) ==> self.closed(filter@)) by {
                if o.closed(filter@) {
                    assert forall|x: DefId| #[trigger] self.dep_state().has_node(x) && filter@.contains(x)
                        implies self.settled_or_waiting(x) by {
                        assert(o.settled_or_waiting(x));
                    };
                }
            };
            return Action::Done;
        }
        let name = mk_lean_name_from_parts(path);
        if self.config.is_ignored(name.as_str()) {
            self.record(d, Ok(None));
            proof { self.lemma_closed_after_record(&popped, &o, d, filter@); }
            return Action::Done;
        }
        if self.config.is_failed(name.as_str()) {
            self.record(d, Err(String::from_str(EXCLUDED)));
            proof { self.lemma_closed_after_record(&popped, &o, d, filter@); }
            return Action::Done;
        }
        self.deps.get_def_idx(d);
        let ghost noded = *self;
        match self.config.replacement_for(&name) {
            Some(text) => {
                self.record(d, Ok(Some(text)));
                let ghost recorded = *self;
                self.schedule_staged();
                proof {
                    assert forall|x: DefId| #[trigger] self.dep_state().has_node(x) && filter@.contains(x)
                        && o.closed(filter@) implies self.settled_or_waiting(x) by {
                        if x != d {
                            lemma_with_node_contains(o.dep_state().nodes(), d, x);
                            lemma_with_staged_contains(o.dep_state().staged(), o.dep_state().nodes(), d, x);
                            assert(o.dep_state().has_node(x));
                            assert(recorded.outcome(x) == o.outcome(x));
                            assert(o.settled_or_waiting(x));
                            if o.worklist().contains(x) {
                                assert(popped.worklist().contains(x));
                                let k = choose|k: int| 0 <= k < popped.worklist().len() && popped.worklist()[k] == x;
                                assert(self.worklist()[k] == x);
                            }
                            if o.dep_state().staged().contains(x) {
                                let k = choose|k: int| 0 <= k < noded.dep_state().staged().len() && noded.dep_state().staged()[k] == x;
                                let n = noded.dep_state().staged().len();
                                assert(rev(noded.dep_state().staged())[n - 1 - k] == x);
                                assert(self.worklist()[popped.worklist().len() + n - 1 - k] == x);
                            }
                        }
                    };
                    assert forall|e: DefId| e != d implies #[trigger] self.outcome(e) == o.outcome(e) by {
                        assert(recorded.outcome(e) == noded.outcome(e));
                    };
                    assert(self.adds_outcome(&o, d, Ok(Some(text@))));
                }
                Action::Replaced(name)
            },
            None => {
                self.pending = Some(d);
                proof {
                    assert forall|x: DefId| #[trigger] self.dep_state().has_node(x) && filter@.contains(x)
                        && o.closed(filter@) implies self.settled_or_waiting(x) by {
                        if x != d {
                            lemma_with_node_contains(o.dep_state().nodes(), d, x);
                            lemma_with_staged_contains(o.dep_state().staged(), o.dep_state().nodes(), d, x);
                            assert(o.dep_state().has_node(x));
                            assert(o.settled_or_waiting(x));
                            if o.worklist().contains(x) {
                                assert(popped.worklist().contains(x));
                            }
                        }
                    };
                }
                Action::Translate(name)
            },
        }
    }

    proof fn lemma_closed_after_record(&self, popped: &Self, o: &Self, d: DefId, filter: Seq<DefId>)
        requires
            o.pending() is None,
            self.adds_outcome(popped, d, self.outcome(d).unwrap()),
            popped.results() == o.results(),
            self.dep_state() == o.dep_state(),
            self.pending() is None,
            self.worklist() == popped.worklist(),
            forall|x: DefId| x != d && o.worklist().contains(x) ==> #[trigger] popped.worklist().contains(x),
        ensures
            o.closed(filter) ==> self.closed(filter),
    {
        if o.closed(filter) {
            assert forall|x: DefId| #[trigger] self.dep_state().has_node(x) && filter.contains(x)
                implies self.settled_or_waiting(x) by {
                assert(o.settled_or_waiting(x));
                if x != d {
                    assert(self.outcome(x) == popped.outcome(x));
                }
            };
        }
    }

    /// Takes the result of the pending translation. In strict mode a failure
    /// ends the run: it is returned and nothing is recorded. Otherwise the
    /// result is recorded and the definitions staged meanwhile are scheduled.
    /// Without a pending translation nothing happens.
    pub fn finish(&mut self, res: Result<Option<String>, String>) -> (r: Result<(), String>)
        requires
            old(self).wf(),
        ensures
            final(self).wf(),
            final(self).measure() <= old(self).measure(),
            final(self).policy() == old(self).policy(),
            final(self).pending() is None,
            final(self).dep_state().nodes() == old(self).dep_state().nodes(),
            final(self).dep_state().edges() == old(self).dep_state().edges(),
            final(self).dep_state().crates() == old(self).dep_state().crates(),
            old(self).pending() is None ==> r is Ok && *final(self) == *old(self),
            old(self).pending() matches Some(p) ==> ({
                if res is Err && old(self).policy().is_strict() {
                    &&& r == Err::<(), String>(res->Err_0)
                    &&& final(self).results() == old(self).results()
                } else {
                    &&& r is Ok
                    &&& final(self).adds_outcome(&*old(self), p, outcome_view(res))
                    &&& final(self).dep_state().staged() == Seq::<DefId>::empty()
                    &&& final(self).worklist() == old(self).worklist() + rev(old(self).dep_state().staged())
                    &&& forall|f: Seq<DefId>| old(self).closed(f) ==> #[trigger] final(self).closed(f)
                }
            }),
    {
        let ghost o = *self;
        let d = match self.pending {
            None => return Ok(()),
            Some(d) => d,
        };
        self.pending = None;
        if res.is_err() && self.config.strict() {
            return match res {
                Err(msg) => Err(msg),
                Ok(_) => Ok(()),
            };
        }
        self.record(d, res);
        let ghost recorded = *self;
        self.schedule_staged();
        proof {
            assert forall|f: Seq<DefId>| o.closed(f) implies #[trigger] self.closed(f) by {
                assert forall|x: DefId| #[trigger] self.dep_state().has_node(x) && f.contains(x)
                    implies self.settled_or_waiting(x) by {
                    if x != d {
                        assert(o.dep_state().has_node(x));
                        assert(recorded.outcome(x) == o.outcome(x));
                        assert(o.settled_or_waiting(x));
                        if o.worklist().contains(x) {
                            let k = choose|k: int| 0 <= k < o.worklist().len() && o.worklist()[k] == x;
                            assert(self.worklist()[k] == x);
                        }
                        if o.dep_state().staged().contains(x) {
                            let k = choose|k: int| 0 <= k < o.dep_state().staged().len() && o.dep_state().staged()[k] == x;
                            let n = o.dep_state().staged().len();
                            assert(rev(o.dep_state().staged())[n - 1 - k] == x);
                            assert(self.worklist()[o.worklist().len() + n - 1 - k] == x);
                        }
                    }
                };
            };
            assert forall|e: DefId| e != d implies #[trigger] self.outcome(e) == o.outcome(e) by {
                assert(recorded.outcome(e) == o.outcome(e));
            };
            assert(self.adds_outcome(&o, d, outcome_view(res)));
        }
        Ok(())
    }
}

/// Counts the successes and the failures among the entries.
pub open spec fn tally_of(entries: Seq<(DefId, Result<Option<String>, String>)>) -> (nat, nat)
    decreases entries.len(),
{
    if entries.len() == 0 {
        (0, 0)
    } else {
        let t = tally_of(entries.drop_last());
        if entries.last().1 is Ok {
            (t.0 + 1, t.1)
        } else {
            (t.0, t.1 + 1)
        }
    }
}

/// When a run over `filter` has nothing left to look at, nothing pending
/// and nothing staged, every definition that an edge of the graph comes from
/// and that the filter admits has an outcome: all that a translation used
/// was translated in turn.
pub proof fn lemma_run_complete(e: &CrateTranspiler, filter: Seq<DefId>)
    requires
        e.wf(),
        e.closed(filter),
        e.worklist().len() == 0,
        e.pending() is None,
        e.dep_state().staged().len() == 0,
    ensures
        forall|k: int|
            0 <= k < e.dep_state().edges().len() && filter.contains(
                e.dep_state().nodes()[e.dep_state().edges()[k].0],
            ) ==> e.outcome(e.dep_state().nodes()[(#[trigger] e.dep_state().edges()[k]).0]) is Some,
{
    e.dep_state().lemma_wf();
    assert forall|k: int|
        0 <= k < e.dep_state().edges().len() && filter.contains(
            e.dep_state().nodes()[e.dep_state().edges()[k].0],
        ) implies e.outcome(e.dep_state().nodes()[(#[trigger] e.dep_state().edges()[k]).0]) is Some by {
        let d = e.dep_state().nodes()[e.dep_state().edges()[k].0];
        assert(e.dep_state().has_node(d));
        assert(e.settled_or_waiting(d));
    };
}

/// The bound on the work left is never negative, and `transpile` on the
/// worklist's top lowers it while `add_dep` and `finish` never raise it: a
/// run that takes the next item until there is none ends, also on a cyclic
/// graph.
pub proof fn lemma_measure_bounded(e: &CrateTranspiler)
    requires
        e.wf(),
    ensures
        e.measure() >= 0,
{
    e.dep_state().lemma_wf();
}

proof fn lemma_with_node_contains(nodes: Seq<DefId>, d: DefId, x: DefId)
    ensures
        with_node(nodes, d).contains(x) <==> nodes.contains(x) || x == d,
{
    if !nodes.contains(d) {
        if nodes.contains(x) {
            let k = choose|k: int| 0 <= k < nodes.len() && nodes[k] == x;
            assert(nodes.push(d)[k] == x);
        }
        if nodes.push(d).contains(x) && x != d {
            let k = choose|k: int| 0 <= k < nodes.len() + 1 && nodes.push(d)[k] == x;
            assert(nodes[k] == x);
        }
        assert(nodes.push(d)[nodes.len() as int] == d);
    }
}

proof fn lemma_with_staged_contains(staged: Seq<DefId>, nodes: Seq<DefId>, d: DefId, x: DefId)
    ensures
        with_staged(staged, nodes, d).contains(x) <==> staged.contains(x) || (x == d
            && !nodes.contains(d)),
{
    if !nodes.contains(d) {
        if staged.contains(x) {
            let k = choose|k: int| 0 <= k < staged.len() && staged[k] == x;
            assert(staged.push(d)[k] == x);
        }
        if staged.push(d).contains(x) && x != d {
            let k = choose|k: int| 0 <= k < staged.len() + 1 && staged.push(d)[k] == x;
            assert(staged[k] == x);
        }
        assert(staged.push(d)[staged.len() as int] == d);
    }
}

/// Whether `d` is one of `filter`.
pub fn contains(filter: &[DefId], d: DefId) -> (r: bool)
    ensures
        r == filter@.contains(d),
{
    let mut i: usize = 0;
    while i < filter.len()
        invariant
            i <= filter.len(),
            forall|k: int| 0 <= k < i ==> filter@[k] != d,
        decreases filter.len() - i,
    {
        if filter[i] == d {
            return true;
        }
        i += 1;
    }
    false
}

} // verus!
