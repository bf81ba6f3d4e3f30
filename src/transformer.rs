//! Building and applying an ordered set of compiled rules.
use vstd::prelude::*;
use crate::actions::{Answer, Expr, Failure, Host, failure_of};
use crate::errors::Error;
use crate::path::Seg;
use crate::setter::{Setter, rule_outcome, unit_view};
use crate::value::{Json, Value};

verus! {

/// The rules of a pipeline, each as its write path and source expression.
pub open spec fn rules_view(s: Seq<Setter>) -> Seq<(Seq<Seg>, Expr)> {
    s.map_values(|x: Setter| (x.path(), x.child()))
}

/// The rules applied in order to `dst`, each seeing what the earlier ones wrote;
/// the first failure ends the run. Host answers come from `ans` in order; also
/// the answers left over.
pub open spec fn run(rules: Seq<(Seq<Seg>, Expr)>, src: Json, dst: Json, ans: Seq<Answer>) -> (Result<Json, Failure>, Seq<Answer>)
    decreases rules.len(),
{
    if rules.len() == 0 {
        (Ok(dst), ans)
    } else {
        let (r, rest) = run(rules.drop_last(), src, dst, ans);
        match r {
            Ok(d) => rule_outcome(rules.last().0, rules.last().1, src, d, rest),
            Err(f) => (Err(f), rest),
        }
    }
}

/// Every rule's write path has its directives, if any, only at its end.
pub open spec fn wf_paths(rules: Seq<(Seq<Seg>, Expr)>) -> bool {
    forall|i: int| 0 <= i < rules.len() ==> crate::path::wf_write(#[trigger] rules[i].0)
}

/// Collects the rules of a [`Transformer`].
#[derive(Debug)]
pub struct TransformBuilder {
    actions: Vec<Setter>,
}

impl Default for TransformBuilder {
    /// A builder without rules.
    fn default() -> (r: Self)
        ensures
            r.rules().len() == 0,
            wf_paths(r.rules()),
    {
        TransformBuilder { actions: Vec::new() }
    }
}

impl TransformBuilder {
    pub closed spec fn rules(&self) -> Seq<(Seq<Seg>, Expr)> {
        rules_view(self.actions@)
    }

    /// Adds one rule after those already added.
    pub fn add_action(self, action: Setter) -> (r: Self)
        requires
            wf_paths(self.rules()),
            crate::path::wf_write(action.path()),
        ensures
            r.rules() == self.rules().push((action.path(), action.child())),
            wf_paths(r.rules()),
    {
        let mut actions = self.actions;
        let ghost before = actions@;
        actions.push(action);
        assert(rules_view(actions@) =~= rules_view(before).push((action.path(), action.child())));
        assert(wf_paths(rules_view(actions@))) by {
            assert forall|i: int| 0 <= i < rules_view(actions@).len() implies crate::path::wf_write(#[trigger] rules_view(actions@)[i].0) by {
                if i < rules_view(before).len() {
                    assert(rules_view(actions@)[i] == rules_view(before)[i]);
                }
            }
        }
        TransformBuilder { actions }
    }

    /// Adds rules, in their order, after those already added.
    pub fn add_actions(self, actions: Vec<Setter>) -> (r: Self)
        requires
            wf_paths(self.rules()),
            wf_paths(rules_view(actions@)),
        ensures
            r.rules() == self.rules() + rules_view(actions@),
            wf_paths(r.rules()),
    {
        let mut mine = self.actions;
        let mut actions = actions;
        let ghost a = mine@;
        let ghost b = actions@;
        mine.append(&mut actions);
        assert(rules_view(mine@) =~= rules_view(a) + rules_view(b));
        assert(wf_paths(rules_view(mine@))) by {
            let all = rules_view(mine@);
            assert forall|i: int| 0 <= i < all.len() implies crate::path::wf_write(#[trigger] all[i].0) by {
                if i < rules_view(a).len() {
                    assert(all[i] == rules_view(a)[i]);
                } else {
                    assert(all[i] == rules_view(b)[i - rules_view(a).len()]);
                }
            }
        }
        TransformBuilder { actions: mine }
    }

    /// The transformer with the rules added, in order.
    pub fn build(self) -> (r: Result<Transformer, Error>)
        ensures
            r is Ok && r->Ok_0.rules() == self.rules(),
    {
        Ok(Transformer { actions: self.actions })
    }
}

/// An ordered set of compiled rules, applied in order to one source.
#[derive(Debug)]
pub struct Transformer {
    actions: Vec<Setter>,
}

impl Transformer {
    pub closed spec fn rules(&self) -> Seq<(Seq<Seg>, Expr)> {
        rules_view(self.actions@)
    }

    pub closed spec fn actions_seq(&self) -> Seq<Setter> {
        self.actions@
    }

    pub proof fn lemma_rules(&self)
        ensures
            self.rules() == rules_view(self.actions_seq()),
    {
    }

    /// A transformer over the given rules.
    pub fn new(actions: Vec<Setter>) -> (r: Self)
        requires
            wf_paths(rules_view(actions@)),
        ensures
            r.rules() == rules_view(actions@),
    {
        Transformer { actions }
    }

    /// The rules, for encoding.
    pub fn actions(&self) -> (r: &Vec<Setter>)
        ensures
            rules_view(r@) == self.rules(),
    {
        &self.actions
    }

    /// Applies the rules in order to `source`, writing into `destination`,
    /// which may already hold data. The outcome is `run` for the answers the
    /// host gave; on failure the destination may hold part of the writes.
    pub fn apply_to_destination<H: Host>(&self, host: &H, source: &Value, destination: &mut Value) -> (r: Result<(), Error>)
        ensures
            exists|log: Seq<Answer>| run(self.rules(), source@, old(destination)@, log)
                == (unit_view(r, final(destination)@), Seq::<Answer>::empty()),
    {
        let (r, Ghost(log)) = self.apply_logged(host, source, destination);
        assert(log + Seq::<Answer>::empty() =~= log);
        assert(run(self.rules(), source@, old(destination)@, log + Seq::<Answer>::empty())
            == (unit_view(r, destination@), Seq::<Answer>::empty()));
        r
    }

    /// As `apply_to_destination`, also returning the host's answers, in order.
    pub fn apply_logged<H: Host>(&self, host: &H, source: &Value, destination: &mut Value) -> (res: (Result<(), Error>, Ghost<Seq<Answer>>))
        ensures
            forall|k: Seq<Answer>| #![trigger res.1@ + k]
                run(self.rules(), source@, old(destination)@, res.1@ + k) == (unit_view(res.0, final(destination)@), k),
    {
        let ghost rules = self.rules();
        let ghost d_in = destination@;
        let ghost mut log: Seq<Answer> = seq![];
        let mut i: usize = 0;
        assert forall|k: Seq<Answer>| #![trigger log + k]
            run(rules.subrange(0, 0), source@, d_in, log + k) == (Ok::<Json, Failure>(destination@), k) by {
            assert(rules.subrange(0, 0) =~= seq![]);
            assert(log + k =~= k);
        }
        while i < self.actions.len()
            invariant
                i <= self.actions@.len(),
                rules == rules_view(self.actions@),
                rules == self.rules(),
                d_in == old(destination)@,
                forall|k: Seq<Answer>| #![trigger log + k]
                    run(rules.subrange(0, i as int), source@, d_in, log + k) == (Ok::<Json, Failure>(destination@), k),
            decreases self.actions.len() - i,
        {
            let ghost sub = rules.subrange(0, i + 1);
            assert(sub.drop_last() =~= rules.subrange(0, i as int));
            assert(sub.last() == rules[i as int]);
            let ghost d0 = destination@;
            let (r, Ghost(cl)) = self.actions[i].apply_logged(host, source, destination);
            let ghost nlog = log + cl;
            assert forall|k: Seq<Answer>| #![trigger nlog + k]
                run(sub, source@, d_in, nlog + k) == (unit_view(r, destination@), k) by {
                assert(nlog + k =~= log + (cl + k));
                assert(run(rules.subrange(0, i as int), source@, d_in, log + (cl + k)) == (Ok::<Json, Failure>(d0), cl + k));
            }
            match r {
                Err(e) => {
                    let rr: Result<(), Error> = Err(e);
                    assert forall|k: Seq<Answer>| #![trigger nlog + k]
                        run(rules, source@, d_in, nlog + k) == (unit_view(rr, destination@), k) by {
                        lemma_run_stuck(rules, i + 1, source@, d_in, nlog + k);
                    }
                    return (rr, Ghost(nlog));
                },
                Ok(()) => {
                    proof { log = nlog; }
                },
            }
            i = i + 1;
        }
        assert(rules.subrange(0, i as int) =~= rules);
        (Ok(()), Ghost(log))
    }

    /// Applies the rules in order to `source`, starting from a null destination.
    pub fn apply<H: Host>(&self, host: &H, source: &Value) -> (r: Result<Value, Error>)
        ensures
            exists|log: Seq<Answer>| run(self.rules(), source@, Json::Null, log) == (match r {
                Ok(v) => Ok::<Json, Failure>(v@),
                Err(e) => Err(failure_of(e)),
            }, Seq::<Answer>::empty()),
    {
        let mut value = Value::Null;
        let (r, Ghost(log)) = self.apply_logged(host, source, &mut value);
        assert(log + Seq::<Answer>::empty() =~= log);
        assert(run(self.rules(), source@, Json::Null, log + Seq::<Answer>::empty()) == (unit_view(r, value@), Seq::<Answer>::empty()));
        match r {
            Ok(()) => Ok(value),
            Err(e) => Err(e),
        }
    }
}

proof fn lemma_run_stuck(rules: Seq<(Seq<Seg>, Expr)>, k: int, src: Json, dst: Json, ans: Seq<Answer>)
    requires
        0 <= k <= rules.len(),
        run(rules.subrange(0, k), src, dst, ans).0 is Err,
    ensures
        run(rules, src, dst, ans) == run(rules.subrange(0, k), src, dst, ans),
    decreases rules.len() - k,
{
    if k < rules.len() {
        let sub = rules.subrange(0, k + 1);
        assert(sub.drop_last() =~= rules.subrange(0, k));
        lemma_run_stuck(rules, k + 1, src, dst, ans);
    } else {
        assert(rules.subrange(0, k) =~= rules);
    }
}

} // verus!
