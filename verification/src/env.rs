//! The environment a journey runs in: the variable store, plus loops over
//! list variables that bind a loop variable to each element in turn.
use vstd::prelude::*;
use crate::keys::lookup;
use crate::store::{
    copy_variable, lemma_done_releases, Exchange, NodeModel, Object, RCValueProvider, StoreModel,
    ValueProvider,
};
use crate::value::{Value, ValueModel, VarType, Variable};

verus! {

/// The work done for each element of a loop. A body whose `keeps_record` holds
/// keeps `runs`, the record of its runs so far: for each, the element's index
/// and the environment before and after the run; its `step` is held to
/// extending that record. By default a body keeps no record and promises
/// nothing of one.
pub trait IterationBody<P> {
    open spec fn keeps_record() -> bool {
        false
    }

    open spec fn runs(&self) -> Seq<(nat, Environment<P>, Environment<P>)> {
        Seq::empty()
    }

    fn step(&mut self, env: &mut Environment<P>, i: usize)
        ensures
            Self::keeps_record() ==> final(self).runs() == old(self).runs().push(
                (i as nat, *old(env), *final(env)),
            ),
    ;
}

/// The work done for each element of a loop that builds one result per element.
/// A body whose `keeps_record` holds keeps `runs`, the record of its runs so far:
/// for each, the element's index, the environment before and after the run, and
/// what the run built. By default a body keeps no record and promises nothing of one.
pub trait BuildBody<P, G> {
    open spec fn keeps_record() -> bool {
        false
    }

    open spec fn runs(&self) -> Seq<((nat, Environment<P>, Environment<P>), G)> {
        Seq::empty()
    }

    fn build(&mut self, env: &mut Environment<P>, i: usize) -> (g: G)
        ensures
            Self::keeps_record() ==> final(self).runs() == old(self).runs().push(
                ((i as nat, *old(env), *final(env)), g),
            ),
    ;
}

pub struct Environment<P> {
    pub channel: RCValueProvider<P>,
}

/// The store that run `k` of a loop starts from: the loop's start for the first
/// run, else the store the previous run left with `name` released.
pub open spec fn before_run<P>(
    runs: Seq<(nat, Environment<P>, Environment<P>)>,
    start: StoreModel,
    k: int,
    name: Seq<char>,
) -> StoreModel {
    if k == 0 {
        start
    } else {
        runs[k - 1].2.channel@.released(name)
    }
}

/// The fallback provider that run `k` of a loop starts with.
pub open spec fn fallback_before<P>(
    runs: Seq<(nat, Environment<P>, Environment<P>)>,
    fallback: P,
    k: int,
) -> P {
    if k == 0 {
        fallback
    } else {
        runs[k - 1].2.channel.fallback_provider
    }
}

/// `runs` are the `n` runs of a loop over the list at `list` that started from the
/// store `start` and the fallback provider `fallback`, and `end` is the environment
/// after it: run `k` is for element `k`, and sees the store it starts from with
/// `name` bound to element `k` of the list (as `StoreModel::load_ith` describes);
/// after each run `name` is released.
#[verifier::opaque]
pub open spec fn loop_ran<P>(
    runs: Seq<(nat, Environment<P>, Environment<P>)>,
    start: StoreModel,
    fallback: P,
    n: nat,
    name: Seq<char>,
    var_type: Option<VarType>,
    list: Seq<char>,
    end: Environment<P>,
) -> bool {
    &&& runs.len() == n
    &&& forall|k: int| 0 <= k < n ==> (#[trigger] runs[k]).0 == k
    &&& forall|k: int|
        0 <= k < n ==> (#[trigger] runs[k]).1.channel@ == before_run(runs, start, k, name).load_ith(
            k as nat,
            name,
            var_type,
            list,
        )
    &&& forall|k: int|
        0 <= k < n ==> (#[trigger] runs[k]).1.channel.fallback_provider == fallback_before(
            runs,
            fallback,
            k,
        )
    &&& end.channel@ == before_run(runs, start, n as int, name)
    &&& end.channel.fallback_provider == fallback_before(runs, fallback, n as int)
}

proof fn lemma_loop_ran_start<P>(
    start: StoreModel,
    fallback: P,
    name: Seq<char>,
    var_type: Option<VarType>,
    list: Seq<char>,
    end: Environment<P>,
)
    requires
        end.channel@ == start,
        end.channel.fallback_provider == fallback,
    ensures
        loop_ran(Seq::empty(), start, fallback, 0, name, var_type, list, end),
{
    reveal(loop_ran);
}

proof fn lemma_loop_ran_step<P>(
    runs: Seq<(nat, Environment<P>, Environment<P>)>,
    start: StoreModel,
    fallback: P,
    n: nat,
    name: Seq<char>,
    var_type: Option<VarType>,
    list: Seq<char>,
    end: Environment<P>,
    run: (nat, Environment<P>, Environment<P>),
    after: Environment<P>,
)
    requires
        loop_ran(runs, start, fallback, n, name, var_type, list, end),
        run.0 == n,
        run.1.channel@ == end.channel@.load_ith(n, name, var_type, list),
        run.1.channel.fallback_provider == end.channel.fallback_provider,
        after.channel@ == run.2.channel@.released(name),
        after.channel.fallback_provider == run.2.channel.fallback_provider,
    ensures
        loop_ran(runs.push(run), start, fallback, n + 1, name, var_type, list, after),
{
    reveal(loop_ran);
    let r2 = runs.push(run);
    assert forall|k: int| 0 <= k <= n implies before_run(r2, start, k, name) == before_run(
        runs,
        start,
        k,
        name,
    ) && fallback_before(r2, fallback, k) == fallback_before(runs, fallback, k) by {
        if k > 0 {
            assert(r2[k - 1] == runs[k - 1]);
        }
    }
    assert forall|k: int| 0 <= k < n + 1 implies (#[trigger] r2[k]).0 == k && r2[k].1.channel@
        == before_run(r2, start, k, name).load_ith(k as nat, name, var_type, list)
        && r2[k].1.channel.fallback_provider == fallback_before(r2, fallback, k) by {
        if k < n {
            assert(r2[k] == runs[k]);
        }
    }
}

/// The fallback provider `after` is `before` once asked for the list size at
/// `size` and having answered `answer`, for a provider that keeps a record.
pub open spec fn size_answered<P: ValueProvider>(
    before: P,
    after: P,
    size: Seq<char>,
    answer: ValueModel,
) -> bool {
    P::keeps_record() ==> after.exchanges() == before.exchanges().push(
        Exchange::Asked(size, Some(VarType::Long), answer),
    )
}

/// The path that names the size of the list at `list`.
pub fn size_path(list: &String) -> (r: String)
    ensures
        r@ == list@ + seq!['.', 's', 'i', 'z', 'e'],
{
    let mut r = list.clone();
    let ghost before = r@;
    r.append(".size");
    proof {
        reveal_strlit(".size");
    }
    assert(r@ =~= before + seq!['.', 's', 'i', 'z', 'e']);
    r
}

/// How many times a loop over a list runs, given the list's size as read: a long
/// taken as an unsigned count, anything else none.
pub open spec fn loop_count(size: ValueModel) -> nat {
    match size {
        ValueModel::Long(l) => (l as usize) as nat,
        _ => 0,
    }
}

/// The fallback provider was asked for the size of the list at `list` and gave an
/// answer that makes no runs, and `end` is the environment `env` after that answer
/// was remembered and `name` was set to iterate over `list`.
pub open spec fn asked_for_none<P: ValueProvider>(
    env: Environment<P>,
    name: Seq<char>,
    list: Seq<char>,
    end: Environment<P>,
) -> bool {
    let size = list + seq!['.', 's', 'i', 'z', 'e'];
    exists|a: ValueModel, fb: P|
        #[trigger] size_answered(env.channel.fallback_provider, fb, size, a) && loop_count(a) == 0
            && end.channel@ == env.channel@.remember(size, a).index_ref(name, list)
            && end.channel.fallback_provider == fb
}

/// The runs of a building body, without what each built.
pub open spec fn runs_of<P, G>(
    runs: Seq<((nat, Environment<P>, Environment<P>), G)>,
) -> Seq<(nat, Environment<P>, Environment<P>)> {
    runs.map_values(|r: ((nat, Environment<P>, Environment<P>), G)| r.0)
}

/// What each run of a building body built, in order.
pub open spec fn builds_of<P, G>(runs: Seq<((nat, Environment<P>, Environment<P>), G)>) -> Seq<G> {
    runs.map_values(|r: ((nat, Environment<P>, Environment<P>), G)| r.1)
}

proof fn lemma_runs_push<P, G>(
    runs: Seq<((nat, Environment<P>, Environment<P>), G)>,
    r: ((nat, Environment<P>, Environment<P>), G),
)
    ensures
        runs_of(runs.push(r)) == runs_of(runs).push(r.0),
        builds_of(runs.push(r)) == builds_of(runs).push(r.1),
{
    assert(runs_of(runs.push(r)) =~= runs_of(runs).push(r.0));
    assert(builds_of(runs.push(r)) =~= builds_of(runs).push(r.1));
}

/// The record of a loop body went from `before` to `after` while a loop over
/// the list at `list` ran in the environment `env` and left `end`: the size of the
/// list is read as `list.size` (answered by the store if it holds it, else asked
/// of the fallback provider as a long and remembered), `name` is set to iterate
/// over `list`, and the loop ran once per element of that size, as `loop_ran`
/// describes.
#[verifier::opaque]
pub open spec fn iterated<P: ValueProvider>(
    before: Seq<(nat, Environment<P>, Environment<P>)>,
    after: Seq<(nat, Environment<P>, Environment<P>)>,
    env: Environment<P>,
    name: Seq<char>,
    var_type: Option<VarType>,
    list: Seq<char>,
    end: Environment<P>,
) -> bool {
    let size = list + seq!['.', 's', 'i', 'z', 'e'];
    let runs = after.subrange(before.len() as int, after.len() as int);
    &&& before.len() <= after.len()
    &&& after.subrange(0, before.len() as int) == before
    &&& match env.channel@.resolve(size) {
        Some(t) => loop_ran(
            runs,
            env.channel@.index_ref(name, list),
            env.channel.fallback_provider,
            loop_count(env.channel@.target_value(t)),
            name,
            var_type,
            list,
            end,
        ),
        None => exists|a: ValueModel, fb: P|
            #[trigger] size_answered(env.channel.fallback_provider, fb, size, a) && loop_ran(
                runs,
                env.channel@.remember(size, a).index_ref(name, list),
                fb,
                loop_count(a),
                name,
                var_type,
                list,
                end,
            ),
    }
}

/// `runs` are the `n` runs of a body called once for each index from 0 up, with
/// nothing done between the runs: run `k` is for index `k` and starts from the
/// environment `start` or from where run `k - 1` left it, and `end` is where the
/// last run left it (`start` when there is none).
#[verifier::opaque]
pub open spec fn runs_chained<P>(
    runs: Seq<(nat, Environment<P>, Environment<P>)>,
    start: Environment<P>,
    n: nat,
    end: Environment<P>,
) -> bool {
    &&& runs.len() == n
    &&& forall|k: int| 0 <= k < n ==> (#[trigger] runs[k]).0 == k
    &&& forall|k: int|
        0 <= k < n ==> (#[trigger] runs[k]).1 == if k == 0 {
            start
        } else {
            runs[k - 1].2
        }
    &&& end == if n == 0 {
        start
    } else {
        runs[n - 1].2
    }
}

proof fn lemma_runs_chained_step<P>(
    runs: Seq<(nat, Environment<P>, Environment<P>)>,
    start: Environment<P>,
    n: nat,
    end: Environment<P>,
    run: (nat, Environment<P>, Environment<P>),
)
    requires
        runs_chained(runs, start, n, end),
        run.0 == n,
        run.1 == end,
    ensures
        runs_chained(runs.push(run), start, n + 1, run.2),
{
    reveal(runs_chained);
    let r2 = runs.push(run);
    assert forall|k: int| 0 <= k < n + 1 implies (#[trigger] r2[k]).0 == k && r2[k].1 == if k
        == 0 {
        start
    } else {
        r2[k - 1].2
    } by {
        if k < n {
            assert(r2[k] == runs[k]);
            if k > 0 {
                assert(r2[k - 1] == runs[k - 1]);
            }
        } else if k > 0 {
            assert(r2[k - 1] == runs[k - 1]);
        }
    }
}

impl<P: ValueProvider> Environment<P> {
    /// An environment with an empty store that asks `provider` for what it does not hold.
    pub fn new_rc(provider: P) -> (r: Environment<P>)
        ensures
            r.channel@.nodes.len() == 0,
            r.channel@.refs.len() == 0,
            r.channel@.indexes.len() == 0,
            r.channel.fallback_provider == provider,
    {
        Environment { channel: RCValueProvider::new(provider) }
    }

    /// Leaves the environment as it is: neither `text` nor a close reaches the
    /// provider from here (telling and closing are the environment's `write` and
    /// `close`).
    pub fn error(&mut self, text: String)
        ensures
            *final(self) == *old(self),
    {
    }

    /// Leaves the environment as it is (a value is placed by the environment's
    /// `ValueProvider::save`).
    pub fn save(&mut self, var: Variable, val: Value)
        ensures
            *final(self) == *old(self),
    {
    }

    fn count_of(size: &Value) -> (r: usize)
        ensures
            r as nat == loop_count(size@),
    {
        match size {
            Value::Long(l) => *l as usize,
            _ => 0,
        }
    }

    /// Runs `inner` once for each element of the list `to_list`, with `refering_as`
    /// bound to that element and released after each run. The size of the list is
    /// read as `to_list.size`.
    pub fn iterate<B: IterationBody<P>>(&mut self, refering_as: Variable, to_list: Variable, inner: &mut B)
        ensures
            old(self).channel@.resolve(to_list.name@ + seq!['.', 's', 'i', 'z', 'e']) matches Some(t)
                && loop_count(old(self).channel@.target_value(t)) > 0 ==> lookup(
                final(self).channel@.refs,
                refering_as.name@,
            ) is None,
            old(self).channel@.resolve(to_list.name@ + seq!['.', 's', 'i', 'z', 'e']) matches Some(t)
                && loop_count(old(self).channel@.target_value(t)) == 0 ==> final(self).channel@ == old(
                self,
            ).channel@.index_ref(refering_as.name@, to_list.name@)
                && final(self).channel.fallback_provider == old(self).channel.fallback_provider,
            old(self).channel@.resolve(to_list.name@ + seq!['.', 's', 'i', 'z', 'e']) is None ==> lookup(
                final(self).channel@.refs,
                refering_as.name@,
            ) is None || asked_for_none(*old(self), refering_as.name@, to_list.name@, *final(self)),
            B::keeps_record() ==> iterated(
                old(inner).runs(),
                final(inner).runs(),
                *old(self),
                refering_as.name@,
                refering_as.data_type,
                to_list.name@,
                *final(self),
            ),
    {
        let ghost r0 = inner.runs();
        let ghost size_name = to_list.name@ + seq!['.', 's', 'i', 'z', 'e'];
        let length = self.channel.read(Variable { name: size_path(&to_list.name), data_type: Some(VarType::Long) });
        let ghost fb0 = self.channel.fallback_provider;
        self.channel.set_index_ref(copy_variable(&refering_as), copy_variable(&to_list));
        let ghost start = self.channel@;
        let size = Self::count_of(&length);
        let ghost mut runs: Seq<(nat, Environment<P>, Environment<P>)> = Seq::empty();
        proof {
            lemma_loop_ran_start(start, fb0, refering_as.name@, refering_as.data_type, to_list.name@, *self);
        }
        let mut i: usize = 0;
        while i < size
            invariant
                i <= size,
                i > 0 ==> lookup(self.channel@.refs, refering_as.name@) is None,
                i == 0 ==> self.channel@ == start && self.channel.fallback_provider == fb0,
                B::keeps_record() ==> inner.runs() == r0 + runs,
                B::keeps_record() ==> loop_ran(
                    runs,
                    start,
                    fb0,
                    i as nat,
                    refering_as.name@,
                    refering_as.data_type,
                    to_list.name@,
                    *self,
                ),
            decreases size - i,
        {
            let ghost top = *self;
            self.channel.load_ith_as(i, copy_variable(&refering_as), copy_variable(&to_list));
            inner.step(self, i);
            let ghost before = self.channel@;
            self.channel.done(refering_as.name.clone());
            proof {
                lemma_done_releases(before, refering_as.name@, refering_as.name@);
                if B::keeps_record() {
                    let run = inner.runs().last();
                    lemma_loop_ran_step(
                        runs,
                        start,
                        fb0,
                        i as nat,
                        refering_as.name@,
                        refering_as.data_type,
                        to_list.name@,
                        top,
                        run,
                        *self,
                    );
                    runs = runs.push(run);
                    assert(inner.runs() =~= r0 + runs);
                }
            }
            i = i + 1;
        }
        proof {
            reveal(iterated);
            if old(self).channel@.resolve(size_name) is None {
                assert(size_answered(old(self).channel.fallback_provider, fb0, size_name, length@));
            }
            if B::keeps_record() {
                let after = inner.runs();
                assert(after.subrange(0, r0.len() as int) =~= r0);
                assert(after.subrange(r0.len() as int, after.len() as int) =~= runs);
                if old(self).channel@.resolve(size_name) is None {
                    assert(size_answered(old(self).channel.fallback_provider, fb0, size_name, length@));
                }
            }
        }
    }
}


impl<P: ValueProvider> Environment<P> {
    /// Runs `inner` `size` times, for the indexes 0 up to `size`, with nothing done
    /// to the environment between the runs: neither `refering_as` nor `to_list` is
    /// touched here.
    pub fn iterate_outside_building_inside<B: IterationBody<P>>(
        &mut self,
        refering_as: Variable,
        to_list: Variable,
        size: usize,
        inner: &mut B,
    )
        ensures
            size == 0 ==> *final(self) == *old(self),
            B::keeps_record() ==> final(inner).runs().len() >= old(inner).runs().len()
                && final(inner).runs().subrange(0, old(inner).runs().len() as int) == old(
                inner,
            ).runs() && runs_chained(
                final(inner).runs().subrange(
                    old(inner).runs().len() as int,
                    final(inner).runs().len() as int,
                ),
                *old(self),
                size as nat,
                *final(self),
            ),
    {
        let ghost r0 = inner.runs();
        let ghost start = *self;
        let ghost mut runs: Seq<(nat, Environment<P>, Environment<P>)> = Seq::empty();
        proof {
            reveal(runs_chained);
        }
        let mut i: usize = 0;
        while i < size
            invariant
                i <= size,
                i == 0 ==> *self == start,
                B::keeps_record() ==> inner.runs() == r0 + runs,
                B::keeps_record() ==> runs_chained(runs, start, i as nat, *self),
            decreases size - i,
        {
            let ghost top = *self;
            inner.step(self, i);
            proof {
                if B::keeps_record() {
                    let run = inner.runs().last();
                    lemma_runs_chained_step(runs, start, i as nat, top, run);
                    runs = runs.push(run);
                    assert(inner.runs() =~= r0 + runs);
                }
            }
            i = i + 1;
        }
        proof {
            if B::keeps_record() {
                let after = inner.runs();
                assert(after.subrange(0, r0.len() as int) =~= r0);
                assert(after.subrange(r0.len() as int, after.len() as int) =~= runs);
            }
        }
    }

    /// Like `iterate_outside_building_inside`, collecting what each run of `inner`
    /// builds, in order.
    pub fn build_iterate_outside_building_inside<G, B: BuildBody<P, G>>(
        &mut self,
        refering_as: Variable,
        to_list: Variable,
        size: usize,
        inner: &mut B,
    ) -> (res: Vec<G>)
        ensures
            res.len() == size,
            size == 0 ==> *final(self) == *old(self),
            B::keeps_record() ==> final(inner).runs().len() >= old(inner).runs().len()
                && final(inner).runs().subrange(0, old(inner).runs().len() as int) == old(
                inner,
            ).runs() && runs_chained(
                runs_of(
                    final(inner).runs().subrange(
                        old(inner).runs().len() as int,
                        final(inner).runs().len() as int,
                    ),
                ),
                *old(self),
                size as nat,
                *final(self),
            ),
            B::keeps_record() ==> res@ == builds_of(
                final(inner).runs().subrange(old(inner).runs().len() as int, final(inner).runs().len() as int),
            ),
    {
        let ghost r0 = inner.runs();
        let ghost start = *self;
        let mut res: Vec<G> = Vec::new();
        let ghost mut runs: Seq<((nat, Environment<P>, Environment<P>), G)> = Seq::empty();
        proof {
            reveal(runs_chained);
            assert(runs_of(runs) =~= Seq::empty());
            assert(builds_of(runs) =~= Seq::empty());
        }
        let mut i: usize = 0;
        while i < size
            invariant
                i <= size,
                res.len() == i,
                i == 0 ==> *self == start,
                B::keeps_record() ==> inner.runs() == r0 + runs,
                B::keeps_record() ==> res@ == builds_of(runs),
                B::keeps_record() ==> runs_chained(runs_of(runs), start, i as nat, *self),
            decreases size - i,
        {
            let ghost top = *self;
            let built = inner.build(self, i);
            res.push(built);
            proof {
                if B::keeps_record() {
                    let run = inner.runs().last();
                    lemma_runs_chained_step(runs_of(runs), start, i as nat, top, run.0);
                    lemma_runs_push(runs, run);
                    runs = runs.push(run);
                    assert(inner.runs() =~= r0 + runs);
                }
            }
            i = i + 1;
        }
        proof {
            if B::keeps_record() {
                let after = inner.runs();
                assert(after.subrange(0, r0.len() as int) =~= r0);
                assert(after.subrange(r0.len() as int, after.len() as int) =~= runs);
            }
        }
        res
    }

    /// Appends to `push_to` what `inner` builds for each element of the list
    /// `to_list` (its size read as `to_list.size`), with `refering_as` bound to the
    /// element and released after each run.
    pub fn build_iterate<G, B: BuildBody<P, G>>(
        &mut self,
        refering_as: Variable,
        to_list: Variable,
        push_to: Vec<G>,
        inner: &mut B,
    ) -> (res: Vec<G>)
        ensures
            res.len() >= push_to.len(),
            res@.subrange(0, push_to.len() as int) == push_to@,
            old(self).channel@.resolve(to_list.name@ + seq!['.', 's', 'i', 'z', 'e']) matches Some(t)
                ==> res.len() == push_to.len() + loop_count(old(self).channel@.target_value(t)),
            old(self).channel@.resolve(to_list.name@ + seq!['.', 's', 'i', 'z', 'e']) matches Some(t)
                && loop_count(old(self).channel@.target_value(t)) > 0 ==> lookup(
                final(self).channel@.refs,
                refering_as.name@,
            ) is None,
            old(self).channel@.resolve(to_list.name@ + seq!['.', 's', 'i', 'z', 'e']) matches Some(t)
                && loop_count(old(self).channel@.target_value(t)) == 0 ==> final(self).channel@ == old(
                self,
            ).channel@.index_ref(refering_as.name@, to_list.name@)
                && final(self).channel.fallback_provider == old(self).channel.fallback_provider,
            old(self).channel@.resolve(to_list.name@ + seq!['.', 's', 'i', 'z', 'e']) is None ==> lookup(
                final(self).channel@.refs,
                refering_as.name@,
            ) is None || asked_for_none(*old(self), refering_as.name@, to_list.name@, *final(self)),
            B::keeps_record() ==> iterated(
                runs_of(old(inner).runs()),
                runs_of(final(inner).runs()),
                *old(self),
                refering_as.name@,
                refering_as.data_type,
                to_list.name@,
                *final(self),
            ),
            B::keeps_record() ==> res@ == push_to@ + builds_of(
                final(inner).runs().subrange(old(inner).runs().len() as int, final(inner).runs().len() as int),
            ),
    {
        let ghost r0 = inner.runs();
        let ghost size_name = to_list.name@ + seq!['.', 's', 'i', 'z', 'e'];
        let mut push_to = push_to;
        let ghost start_items = push_to@;
        let length = self.channel.read(Variable { name: size_path(&to_list.name), data_type: Some(VarType::Long) });
        let ghost fb0 = self.channel.fallback_provider;
        self.channel.set_index_ref(copy_variable(&refering_as), copy_variable(&to_list));
        let ghost start = self.channel@;
        let size = Self::count_of(&length);
        let ghost mut runs: Seq<((nat, Environment<P>, Environment<P>), G)> = Seq::empty();
        proof {
            lemma_loop_ran_start(start, fb0, refering_as.name@, refering_as.data_type, to_list.name@, *self);
            assert(runs_of(runs) =~= Seq::empty());
            assert(start_items + builds_of(runs) =~= start_items);
        }
        let mut i: usize = 0;
        while i < size
            invariant
                i <= size,
                push_to.len() == start_items.len() + i,
                push_to@.subrange(0, start_items.len() as int) == start_items,
                i > 0 ==> lookup(self.channel@.refs, refering_as.name@) is None,
                i == 0 ==> self.channel@ == start && self.channel.fallback_provider == fb0,
                B::keeps_record() ==> inner.runs() == r0 + runs,
                B::keeps_record() ==> push_to@ == start_items + builds_of(runs),
                B::keeps_record() ==> loop_ran(
                    runs_of(runs),
                    start,
                    fb0,
                    i as nat,
                    refering_as.name@,
                    refering_as.data_type,
                    to_list.name@,
                    *self,
                ),
            decreases size - i,
        {
            let ghost top = *self;
            self.channel.load_ith_as(i, copy_variable(&refering_as), copy_variable(&to_list));
            let built = inner.build(self, i);
            let ghost before_items = push_to@;
            push_to.push(built);
            assert(push_to@.subrange(0, start_items.len() as int) =~= before_items.subrange(0, start_items.len() as int));
            let ghost before = self.channel@;
            self.channel.done(refering_as.name.clone());
            proof {
                lemma_done_releases(before, refering_as.name@, refering_as.name@);
                if B::keeps_record() {
                    let run = inner.runs().last();
                    lemma_loop_ran_step(
                        runs_of(runs),
                        start,
                        fb0,
                        i as nat,
                        refering_as.name@,
                        refering_as.data_type,
                        to_list.name@,
                        top,
                        run.0,
                        *self,
                    );
                    lemma_runs_push(runs, run);
                    runs = runs.push(run);
                    assert(inner.runs() =~= r0 + runs);
                    assert(push_to@ =~= start_items + builds_of(runs));
                }
            }
            i = i + 1;
        }
        proof {
            reveal(iterated);
            if old(self).channel@.resolve(size_name) is None {
                assert(size_answered(old(self).channel.fallback_provider, fb0, size_name, length@));
            }
            if B::keeps_record() {
                let after = inner.runs();
                assert(after.subrange(0, r0.len() as int) =~= r0);
                assert(after.subrange(r0.len() as int, after.len() as int) =~= runs);
                assert(runs_of(after).subrange(0, r0.len() as int) =~= runs_of(r0));
                assert(runs_of(after).subrange(r0.len() as int, after.len() as int) =~= runs_of(runs));
                if old(self).channel@.resolve(size_name) is None {
                    assert(size_answered(old(self).channel.fallback_provider, fb0, size_name, length@));
                }
            }
        }
        push_to
    }
}

impl<P: ValueProvider> ValueProvider for Environment<P> {
    /// Reads through the store, as `RCValueProvider::read` describes.
    fn read(&mut self, variable: Variable) -> (r: Value)
        ensures
            match old(self).channel@.resolve(variable.name@) {
                Some(t) => {
                    &&& r@ == old(self).channel@.target_value(t)
                    &&& final(self).channel@ == old(self).channel@
                    &&& final(self).channel.fallback_provider == old(self).channel.fallback_provider
                },
                None => {
                    &&& final(self).channel@ == old(self).channel@.remember(variable.name@, r@)
                    &&& P::keeps_record() ==> final(self).channel.fallback_provider.exchanges()
                        == old(self).channel.fallback_provider.exchanges().push(
                        Exchange::Asked(variable.name@, variable.data_type, r@),
                    )
                },
            },
    {
        self.channel.read(variable)
    }

    fn write(&mut self, text: String)
        ensures
            final(self).channel@ == old(self).channel@,
            P::keeps_record() ==> final(self).channel.fallback_provider.exchanges() == old(
                self,
            ).channel.fallback_provider.exchanges().push(Exchange::Told(text@)),
    {
        self.channel.write(text)
    }

    /// Leaves the store and the fallback provider as they are, as the store's
    /// `close` does.
    fn close(&mut self)
        ensures
            final(self).channel@ == old(self).channel@,
            final(self).channel.fallback_provider == old(self).channel.fallback_provider,
    {
        self.channel.close()
    }

    fn done(&mut self, str_val: String)
        ensures
            final(self).channel@ == old(self).channel@.released(str_val@),
            final(self).channel.fallback_provider == old(self).channel.fallback_provider,
    {
        self.channel.done(str_val)
    }

    fn set_index_ref(&mut self, as_var: Variable, in_var: Variable)
        ensures
            final(self).channel@ == old(self).channel@.index_ref(as_var.name@, in_var.name@),
            final(self).channel.fallback_provider == old(self).channel.fallback_provider,
    {
        self.channel.set_index_ref(as_var, in_var)
    }

    fn load_ith_as(&mut self, i: usize, index_ref_var: Variable, list_ref_var: Variable)
        ensures
            final(self).channel@ == old(self).channel@.load_ith(
                i as nat,
                index_ref_var.name@,
                index_ref_var.data_type,
                list_ref_var.name@,
            ),
            final(self).channel.fallback_provider == old(self).channel.fallback_provider,
    {
        self.channel.load_ith_as(i, index_ref_var, list_ref_var)
    }

    fn save(&mut self, var: Variable, value: Value)
        ensures
            final(self).channel@ == old(self).channel@.saved(var.name@, value@),
            final(self).channel.fallback_provider == old(self).channel.fallback_provider,
    {
        self.channel.save(var, value)
    }

    fn load_value_as(&mut self, ref_var: Variable, val: Value)
        ensures
            final(self).channel@ == old(self).channel@.add_node(NodeModel::Final(val@)).bind(
                ref_var.name@,
                old(self).channel@.nodes.len(),
            ),
            final(self).channel.fallback_provider == old(self).channel.fallback_provider,
    {
        self.channel.load_value_as(ref_var, val)
    }
}

} // verus!
