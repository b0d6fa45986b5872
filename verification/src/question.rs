//! The quiz session state machine.
//!
//! A session asks every record of a language exactly once, in an order
//! shuffled once at the start, prompts for each record's meanings and
//! then for each of its additionals, and scores recall.  The caller runs
//! the interactive loop: it shows `next_prompt`, reads one answer, hands
//! it to `submit`, and shows the feedback, until the session is complete.

use vstd::prelude::*;
use vstd::seq_lib::group_to_multiset_ensures;
use crate::dict::Vocab;
use crate::dict::VocabV;
use crate::text::chars_of;
use crate::text::chars_eq;
use crate::text::contains_str_vec;
use crate::text::lower_of;
use crate::text::lowercase;
use crate::text::split_chars;
use crate::text::split_on;
use crate::text::string_of;
use crate::text::lemma_chars_deep_view;
use crate::text::lemma_strings_deep_view;

use rand::Rng;

verus! {

broadcast use group_to_multiset_ensures;

/// How many meanings a record demands: `All` asks until every meaning has
/// been supplied, `One` accepts any single correct meaning.
#[derive(Clone, Copy, Debug, PartialEq, Eq, Structural)]
pub enum AnswerMode {
    All,
    One,
}

/// The phase of the current record: asking for meanings, or asking for
/// the values of its additionals.
#[derive(Clone, Copy, Debug, PartialEq, Eq, Structural)]
pub enum Phase {
    Meanings,
    Additionals,
}

/// The identity index order `0, 1, .., n-1`.
pub open spec fn ident_seq(n: nat) -> Seq<usize> {
    Seq::new(n, |i: int| i as usize)
}

/// How many additionals one record carries.
pub open spec fn adds_len(v: VocabV) -> nat {
    match v.additionals {
        Some(a) => a.len(),
        None => 0,
    }
}

/// The additionals of one record, or nothing.
pub open spec fn adds_of(v: VocabV) -> Seq<Seq<char>> {
    match v.additionals {
        Some(a) => a,
        None => Seq::empty(),
    }
}

/// The total count of additionals over a list of records.
pub open spec fn total_adds(es: Seq<VocabV>) -> nat
    decreases es.len(),
{
    if es.len() == 0 {
        0
    } else {
        adds_len(es[0]) + total_adds(es.drop_first())
    }
}

/// The count of additionals over the records selected by an index order.
pub open spec fn sum_idx(es: Seq<VocabV>, ord: Seq<usize>) -> nat
    decreases ord.len(),
{
    if ord.len() == 0 {
        0
    } else {
        adds_len(es[ord[0] as int]) + sum_idx(es, ord.drop_first())
    }
}

proof fn lemma_sum_idx_concat(es: Seq<VocabV>, a: Seq<usize>, b: Seq<usize>)
    ensures
        sum_idx(es, a + b) == sum_idx(es, a) + sum_idx(es, b),
    decreases a.len(),
{
    if a.len() == 0 {
        assert(a + b =~= b);
    } else {
        assert((a + b)[0] == a[0]);
        assert((a + b).drop_first() =~= a.drop_first() + b);
        lemma_sum_idx_concat(es, a.drop_first(), b);
    }
}

proof fn lemma_sum_idx_take_step(es: Seq<VocabV>, ord: Seq<usize>, p: int)
    requires
        0 <= p < ord.len(),
    ensures
        sum_idx(es, ord.take(p + 1)) == sum_idx(es, ord.take(p)) + adds_len(es[ord[p] as int]),
{
    let s = seq![ord[p]];
    assert(ord.take(p + 1) =~= ord.take(p) + s);
    lemma_sum_idx_concat(es, ord.take(p), s);
    assert(s[0] == ord[p]);
    assert(s.drop_first() =~= Seq::<usize>::empty());
    assert(sum_idx(es, Seq::<usize>::empty()) == 0);
    assert(sum_idx(es, s) == adds_len(es[ord[p] as int]));
}

proof fn lemma_sum_idx_prefix(es: Seq<VocabV>, ord: Seq<usize>, p: int)
    requires
        0 <= p <= ord.len(),
    ensures
        sum_idx(es, ord.take(p)) <= sum_idx(es, ord),
{
    assert(ord =~= ord.take(p) + ord.skip(p));
    lemma_sum_idx_concat(es, ord.take(p), ord.skip(p));
}

proof fn lemma_sum_idx_update(es: Seq<VocabV>, ord: Seq<usize>, i: int, v: usize)
    requires
        0 <= i < ord.len(),
    ensures
        sum_idx(es, ord.update(i, v)) + adds_len(es[ord[i] as int]) == sum_idx(es, ord)
            + adds_len(es[v as int]),
    decreases i,
{
    if i == 0 {
        assert(ord.update(0, v)[0] == v);
        assert(ord.update(0, v).drop_first() =~= ord.drop_first());
    } else {
        assert(ord.update(i, v)[0] == ord[0]);
        assert(ord.update(i, v).drop_first() =~= ord.drop_first().update(i - 1, v));
        lemma_sum_idx_update(es, ord.drop_first(), i - 1, v);
        assert(ord.drop_first()[i - 1] == ord[i]);
    }
}

/// The order `ord`, with every index moved up by one.
spec fn shift1(ord: Seq<usize>) -> Seq<usize> {
    Seq::new(ord.len(), |i: int| (ord[i] + 1) as usize)
}

proof fn lemma_sum_idx_shift(es: Seq<VocabV>, ord: Seq<usize>)
    requires
        es.len() <= usize::MAX,
        forall|k: int| 0 <= k < ord.len() ==> (#[trigger] ord[k]) < es.len() - 1,
    ensures
        sum_idx(es, shift1(ord)) == sum_idx(es.drop_first(), ord),
    decreases ord.len(),
{
    if ord.len() > 0 {
        assert(shift1(ord)[0] == (ord[0] + 1) as usize);
        assert(es[(ord[0] + 1) as int] == es.drop_first()[ord[0] as int]);
        assert(shift1(ord).drop_first() =~= shift1(ord.drop_first()));
        assert(forall|k: int|
            0 <= k < ord.drop_first().len() ==> (#[trigger] ord.drop_first()[k]) == ord[k + 1]);
        lemma_sum_idx_shift(es, ord.drop_first());
    }
}

/// The additionals counted along the identity order are the total count.
proof fn lemma_sum_idx_ident(es: Seq<VocabV>)
    requires
        es.len() <= usize::MAX,
    ensures
        sum_idx(es, ident_seq(es.len())) == total_adds(es),
    decreases es.len(),
{
    let n = es.len();
    if n > 0 {
        let idn = ident_seq(n);
        assert(idn[0] == 0usize);
        assert(idn.drop_first() =~= shift1(ident_seq((n - 1) as nat)));
        assert(forall|k: int|
            0 <= k < (n - 1) ==> (#[trigger] ident_seq((n - 1) as nat)[k]) == k as usize);
        lemma_sum_idx_shift(es, ident_seq((n - 1) as nat));
        lemma_sum_idx_ident(es.drop_first());
    }
}

proof fn lemma_total_adds_concat(a: Seq<VocabV>, b: Seq<VocabV>)
    ensures
        total_adds(a + b) == total_adds(a) + total_adds(b),
    decreases a.len(),
{
    if a.len() == 0 {
        assert(a + b =~= b);
    } else {
        assert((a + b)[0] == a[0]);
        assert((a + b).drop_first() =~= a.drop_first() + b);
        lemma_total_adds_concat(a.drop_first(), b);
    }
}

proof fn lemma_total_adds_take_step(es: Seq<VocabV>, p: int)
    requires
        0 <= p < es.len(),
    ensures
        total_adds(es.take(p + 1)) == total_adds(es.take(p)) + adds_len(es[p]),
{
    let s = seq![es[p]];
    assert(es.take(p + 1) =~= es.take(p) + s);
    lemma_total_adds_concat(es.take(p), s);
    assert(s[0] == es[p]);
    assert(s.drop_first() =~= Seq::<VocabV>::empty());
    assert(total_adds(Seq::<VocabV>::empty()) == 0);
    assert(total_adds(s) == adds_len(es[p]));
}

proof fn lemma_total_adds_prefix(es: Seq<VocabV>, p: int)
    requires
        0 <= p <= es.len(),
    ensures
        total_adds(es.take(p)) <= total_adds(es),
{
    assert(es =~= es.take(p) + es.skip(p));
    lemma_total_adds_concat(es.take(p), es.skip(p));
}

/// Relies on rand's `thread_rng` and `Rng::gen_range`: a random index
/// strictly below the bound; `gen_range` panics only on an empty range,
/// which the precondition rules out.
#[verifier::external_body]
fn rand_below(n: usize) -> (r: usize)
    requires
        n >= 1,
    ensures
        r < n,
{
    rand::thread_rng().gen_range(0..n)
}

/// A random permutation of `0, 1, .., n-1`: the identity order shuffled
/// in place.  The ghost record list only carries the additionals count
/// through the shuffle.
fn shuffled_indices(n: usize, Ghost(es): Ghost<Seq<VocabV>>) -> (r: Vec<usize>)
    ensures
        r@.len() == n,
        r@.to_multiset() == ident_seq(n as nat).to_multiset(),
        forall|k: int| 0 <= k < n ==> (#[trigger] r@[k]) < n,
        sum_idx(es, r@) == sum_idx(es, ident_seq(n as nat)),
{
    let mut v: Vec<usize> = Vec::new();
    let mut i: usize = 0;
    while i < n
        invariant
            i <= n,
            v@.len() == i,
            forall|k: int| 0 <= k < i ==> (#[trigger] v@[k]) == k as usize,
        decreases n - i,
    {
        v.push(i);
        i = i + 1;
    }
    proof {
        assert(v@ =~= ident_seq(n as nat));
    }
    let mut i: usize = n;
    while i > 1
        invariant
            i <= n,
            v@.len() == n,
            v@.to_multiset() == ident_seq(n as nat).to_multiset(),
            forall|k: int| 0 <= k < n ==> (#[trigger] v@[k]) < n,
            sum_idx(es, v@) == sum_idx(es, ident_seq(n as nat)),
        decreases i,
    {
        i = i - 1;
        let j: usize = rand_below(i + 1);
        if j != i {
            let ghost s0 = v@;
            let a = v[i];
            let b = v[j];
            v.set(i, b);
            let ghost s1 = v@;
            v.set(j, a);
            let ghost s2 = v@;
            proof {
                assert(s1 == s0.update(i as int, b));
                assert(s2 == s1.update(j as int, a));
                assert(s1[j as int] == b);
                assert(s2.to_multiset() =~= s0.to_multiset());
                lemma_sum_idx_update(es, s0, i as int, b);
                lemma_sum_idx_update(es, s1, j as int, a);
                assert(s1[j as int] == b);
                assert(forall|k: int| 0 <= k < n ==> (#[trigger] s2[k]) < n);
            }
        }
    }
    v
}

/// What the session asks next: a meaning of the named record (with how
/// many meanings are done out of how many), or the value of one
/// additional key of the named record.
#[derive(Debug, Clone, PartialEq)]
pub enum Prompt {
    Meaning { name: String, done: usize, total: usize },
    Additional { name: String, key: String },
}

/// What one answer earned.  A wrong meaning reveals the full meanings
/// list; a wrong additional reveals the expected value.
#[derive(Debug, Clone, PartialEq)]
pub enum Feedback {
    AlreadyUsed,
    Correct,
    WrongMeaning { meanings: Vec<String> },
    CorrectAdditional,
    WrongAdditional { expected: String },
}

/// One quiz session: the records to ask, the shuffled order to ask them
/// in, the progress through that order, and the two score counters.
pub struct Session {
    pub entries: Vec<Vocab>,
    pub order: Vec<usize>,
    pub pos: usize,
    pub phase: Phase,
    pub given: Vec<String>,
    pub add_idx: usize,
    pub meanings_correct: usize,
    pub additionals_correct: usize,
    pub mode: AnswerMode,
    pub ask_additionals: bool,
}

impl Session {
    /// The records, as their models.
    pub open spec fn es(&self) -> Seq<VocabV> {
        self.entries.deep_view()
    }

    /// How many records the session asks.
    pub open spec fn n(&self) -> nat {
        self.es().len()
    }

    /// Every record has been asked.
    pub open spec fn complete(&self) -> bool {
        self.pos == self.n()
    }

    /// The record currently being asked.
    pub open spec fn cur(&self) -> VocabV {
        self.es()[self.order@[self.pos as int] as int]
    }

    /// The indices of the records already finished, in the order they
    /// were asked.
    pub open spec fn done_indices(&self) -> Seq<usize> {
        self.order@.take(self.pos as int)
    }

    /// The session's well-formedness: the order is a permutation of the
    /// record indices, progress stays in bounds, every record has at
    /// least one meaning, and the two counters are bounded by the
    /// questions asked so far.
    pub open spec fn wf(&self) -> bool {
        &&& self.order@.len() == self.n()
        &&& self.order@.to_multiset() == ident_seq(self.n()).to_multiset()
        &&& forall|k: int| 0 <= k < self.n() ==> (#[trigger] self.order@[k]) < self.n()
        &&& self.pos <= self.n()
        &&& forall|k: int| 0 <= k < self.n() ==> (#[trigger] self.es()[k]).meanings.len() >= 1
        &&& sum_idx(self.es(), self.order@) == total_adds(self.es())
        &&& total_adds(self.es()) <= usize::MAX
        &&& self.meanings_correct <= self.pos + (if !self.complete() && self.phase is Additionals {
            1nat
        } else {
            0nat
        })
        &&& self.additionals_correct <= sum_idx(self.es(), self.done_indices()) + (if !self.complete()
            && self.phase is Additionals {
            self.add_idx as nat
        } else {
            0nat
        })
        &&& (!self.complete() && self.phase is Additionals) ==> {
            &&& self.ask_additionals
            &&& self.add_idx < adds_len(self.cur())
            &&& self.given@.len() == 0
        }
        &&& (!self.complete() && self.phase is Meanings) ==> self.given@.len() < self.cur().meanings.len()
    }

    /// A new session over the given records: the order is shuffled once,
    /// the progress and both counters start at zero, and the first
    /// record's meanings are asked first.  Every record must have a
    /// meaning to ask, and the total count of additionals must be
    /// representable, so that the counter cannot overflow.
    pub fn new(entries: Vec<Vocab>, mode: AnswerMode, ask_additionals: bool) -> (s: Session)
        requires
            forall|k: int|
                0 <= k < entries.deep_view().len() ==> (#[trigger] entries.deep_view()[k]).meanings.len() >= 1,
            total_adds(entries.deep_view()) <= usize::MAX,
        ensures
            s.wf(),
            s.entries == entries,
            s.pos == 0,
            s.phase is Meanings,
            s.given@.len() == 0,
            s.add_idx == 0,
            s.meanings_correct == 0,
            s.additionals_correct == 0,
            s.mode == mode,
            s.ask_additionals == ask_additionals,
    {
        let n: usize = entries.len();
        let order = shuffled_indices(n, Ghost(entries.deep_view()));
        proof {
            lemma_sum_idx_ident(entries.deep_view());
        }
        let s = Session {
            entries,
            order,
            pos: 0,
            phase: Phase::Meanings,
            given: Vec::new(),
            add_idx: 0,
            meanings_correct: 0,
            additionals_correct: 0,
            mode,
            ask_additionals,
        };
        proof {
            assert(s.done_indices() =~= Seq::<usize>::empty());
            assert(sum_idx(s.es(), Seq::<usize>::empty()) == 0);
        }
        s
    }

    /// A new session, with what `new` demands checked at run time: every
    /// record must have a meaning to ask, and the total count of
    /// additionals must be representable, so that no counter can
    /// overflow.  Nothing when either check fails.
    pub fn try_new(entries: Vec<Vocab>, mode: AnswerMode, ask_additionals: bool) -> (r: Option<
        Session,
    >)
        ensures
            match r {
                Some(s) => {
                    &&& s.wf()
                    &&& s.entries == entries
                    &&& s.pos == 0
                    &&& s.phase is Meanings
                    &&& s.given@.len() == 0
                    &&& s.add_idx == 0
                    &&& s.meanings_correct == 0
                    &&& s.additionals_correct == 0
                    &&& s.mode == mode
                    &&& s.ask_additionals == ask_additionals
                },
                None => (exists|k: int|
                    0 <= k < entries.deep_view().len() && (#[trigger] entries.deep_view()[k]).meanings.len()
                        == 0) || total_adds(entries.deep_view()) > usize::MAX,
            },
    {
        let ghost es = entries.deep_view();
        let mut total: usize = 0;
        let mut i: usize = 0;
        while i < entries.len()
            invariant
                i <= entries@.len(),
                es == entries.deep_view(),
                es.len() == entries@.len(),
                total == total_adds(es.take(i as int)),
                forall|k: int| 0 <= k < i ==> (#[trigger] es[k]).meanings.len() >= 1,
            decreases entries@.len() - i,
        {
            proof {
                assert(es[i as int] == entries@[i as int]@);
                lemma_total_adds_take_step(es, i as int);
            }
            if entries[i].meanings.len() == 0 {
                return None;
            }
            let a: usize = match &entries[i].additionals {
                Option::Some(adds) => adds.len(),
                Option::None => 0,
            };
            proof {
                assert(a == adds_len(es[i as int]));
            }
            if a > usize::MAX - total {
                proof {
                    lemma_total_adds_prefix(es, i as int + 1);
                }
                return None;
            }
            total = total + a;
            i = i + 1;
        }
        proof {
            assert(es.take(es.len() as int) =~= es);
        }
        Some(Session::new(entries, mode, ask_additionals))
    }

    /// Whether every record has been asked.
    pub fn is_complete(&self) -> (r: bool)
        ensures
            r == self.complete(),
    {
        self.pos == self.entries.len()
    }

    /// The final score: how many records had their meanings answered
    /// fully, and how many additional values were answered correctly.
    pub fn score(&self) -> (r: (usize, usize))
        ensures
            r.0 == self.meanings_correct,
            r.1 == self.additionals_correct,
    {
        (self.meanings_correct, self.additionals_correct)
    }

    /// What to ask next, or nothing when the session is complete.
    pub fn next_prompt(&self) -> (p: Option<Prompt>)
        requires
            self.wf(),
        ensures
            match p {
                None => self.complete(),
                Some(pr) => {
                    &&& !self.complete()
                    &&& match pr {
                        Prompt::Meaning { name, done, total } => {
                            &&& self.phase is Meanings
                            &&& name@ == self.cur().name
                            &&& done == self.given@.len()
                            &&& total == self.cur().meanings.len()
                        },
                        Prompt::Additional { name, key } => {
                            &&& self.phase is Additionals
                            &&& name@ == self.cur().name
                            &&& key@ == pair_key(adds_of(self.cur())[self.add_idx as int])
                        },
                    }
                },
            },
    {
        if self.pos == self.entries.len() {
            return None;
        }
        let ci: usize = self.order[self.pos];
        let entry = &self.entries[ci];
        proof {
            assert(entry@ == self.cur());
        }
        match self.phase {
            Phase::Meanings => Some(
                Prompt::Meaning {
                    name: entry.name.clone(),
                    done: self.given.len(),
                    total: entry.meanings.len(),
                },
            ),
            Phase::Additionals => {
                proof {
                    assert(self.cur().additionals is Some);
                }
                let adds = match &entry.additionals {
                    Option::Some(a) => a,
                    Option::None => unreached(),
                };
                let pair = &adds[self.add_idx];
                let pcs = split_chars(&chars_of(pair.as_str()), ':');
                proof {
                    lemma_chars_deep_view(&pcs);
                    lemma_strings_deep_view(adds);
                    assert(adds.deep_view() == adds_of(self.cur()));
                    crate::text::lemma_split_nonempty(pair@, ':');
                }
                Some(
                    Prompt::Additional { name: entry.name.clone(), key: string_of(&pcs[0]) },
                )
            },
        }
    }
}

/// Where the session stands after the meanings phase of the current
/// record ends: the record's additionals are asked when they are enabled
/// and present, otherwise the next record comes up.
pub open spec fn after_meanings(pre: Session, post: Session) -> bool {
    if pre.ask_additionals && adds_len(pre.cur()) > 0 {
        &&& post.pos == pre.pos
        &&& post.phase is Additionals
        &&& post.add_idx == 0
        &&& post.given@.len() == 0
    } else {
        &&& post.pos == pre.pos + 1
        &&& post.phase is Meanings
        &&& post.add_idx == 0
        &&& post.given@.len() == 0
    }
}

/// Where the session stands after one additional was answered: the next
/// additional of the same record, or the next record when the pair just
/// asked was the record's last.
pub open spec fn after_additional(pre: Session, post: Session) -> bool {
    if pre.add_idx + 1 < adds_len(pre.cur()) {
        &&& post.pos == pre.pos
        &&& post.phase is Additionals
        &&& post.add_idx == pre.add_idx + 1
        &&& post.given@.len() == 0
    } else {
        &&& post.pos == pre.pos + 1
        &&& post.phase is Meanings
        &&& post.add_idx == 0
        &&& post.given@.len() == 0
    }
}

/// The whole transition one answer makes, phase by phase and case by
/// case, together with the feedback it earns.
pub open spec fn step_spec(pre: Session, inp: Seq<char>, post: Session, fb: Feedback) -> bool {
    match pre.phase {
        Phase::Meanings => {
            let low = lower_of(inp);
            if pre.given.deep_view().contains(low) {
                &&& fb is AlreadyUsed
                &&& post == pre
            } else if meaning_match(pre.cur(), inp) {
                match pre.mode {
                    AnswerMode::One => {
                        &&& fb is Correct
                        &&& post.meanings_correct == pre.meanings_correct + 1
                        &&& post.additionals_correct == pre.additionals_correct
                        &&& after_meanings(pre, post)
                    },
                    AnswerMode::All => {
                        if pre.given@.len() + 1 == pre.cur().meanings.len() {
                            &&& fb is Correct
                            &&& post.meanings_correct == pre.meanings_correct + 1
                            &&& post.additionals_correct == pre.additionals_correct
                            &&& after_meanings(pre, post)
                        } else {
                            &&& fb is Correct
                            &&& post.pos == pre.pos
                            &&& post.phase is Meanings
                            &&& post.add_idx == pre.add_idx
                            &&& post.given.deep_view() == pre.given.deep_view().push(low)
                            &&& post.meanings_correct == pre.meanings_correct
                            &&& post.additionals_correct == pre.additionals_correct
                        }
                    },
                }
            } else {
                &&& (fb matches Feedback::WrongMeaning { meanings } && meanings.deep_view()
                    == pre.cur().meanings)
                &&& post.meanings_correct == pre.meanings_correct
                &&& post.additionals_correct == pre.additionals_correct
                &&& after_meanings(pre, post)
            }
        },
        Phase::Additionals => {
            let t = adds_of(pre.cur())[pre.add_idx as int];
            if additional_match(t, inp) {
                &&& fb is CorrectAdditional
                &&& post.additionals_correct == pre.additionals_correct + 1
                &&& post.meanings_correct == pre.meanings_correct
                &&& after_additional(pre, post)
            } else {
                &&& (fb matches Feedback::WrongAdditional { expected } && expected@ == pair_value(
                    t,
                ))
                &&& post.additionals_correct == pre.additionals_correct
                &&& post.meanings_correct == pre.meanings_correct
                &&& after_additional(pre, post)
            }
        },
    }
}

impl Session {
    /// Hand one answer to the session.  The whole transition, including
    /// the feedback, is `step_spec`; the records, their order and the
    /// configuration never change.
    pub fn submit(&mut self, input: &str) -> (fb: Feedback)
        requires
            old(self).wf(),
            !old(self).complete(),
        ensures
            final(self).wf(),
            final(self).entries == old(self).entries,
            final(self).order == old(self).order,
            final(self).mode == old(self).mode,
            final(self).ask_additionals == old(self).ask_additionals,
            step_spec(*old(self), input@, *final(self), fb),
    {
        let ghost pre = *self;
        let n_now: usize = self.entries.len();
        let low_s = lowercase(input);
        let low_cs = chars_of(low_s.as_str());
        let ci: usize = self.order[self.pos];
        proof {
            assert(self.es()[ci as int] == self.entries@[ci as int]@);
            assert(pre.cur() == self.entries@[ci as int]@);
        }
        match self.phase {
            Phase::Meanings => {
                if contains_str_vec(&self.given, &low_cs) {
                    return Feedback::AlreadyUsed;
                }
                let hit = contains_str_vec(&self.entries[ci].meanings, &low_cs);
                proof {
                    assert(self.entries@[ci as int].meanings.deep_view() == pre.cur().meanings);
                    assert(hit == meaning_match(pre.cur(), input@));
                }
                if hit {
                    let total: usize = self.entries[ci].meanings.len();
                    proof {
                        assert(self.given@.len() < total);
                        assert(self.meanings_correct <= self.pos < n_now);
                    }
                    let finish = match self.mode {
                        AnswerMode::One => true,
                        AnswerMode::All => self.given.len() + 1 == total,
                    };
                    if finish {
                        self.meanings_correct = self.meanings_correct + 1;
                        self.advance_after_meanings(ci);
                        proof {
                            lemma_after_meanings_wf(pre, *self);
                        }
                    } else {
                        let ghost gdv = self.given.deep_view();
                        self.given.push(string_of(&low_cs));
                        proof {
                            assert(self.given.deep_view() =~~= gdv.push(lower_of(input@)));
                        }
                    }
                    Feedback::Correct
                } else {
                    let reveal_list = self.entries[ci].get_meanings();
                    proof {
                        assert(reveal_list.deep_view() =~~= pre.cur().meanings);
                    }
                    self.advance_after_meanings(ci);
                    proof {
                        lemma_after_meanings_wf(pre, *self);
                    }
                    Feedback::WrongMeaning { meanings: reveal_list }
                }
            },
            Phase::Additionals => {
                proof {
                    assert(pre.cur().additionals is Some);
                }
                let adds = match &self.entries[ci].additionals {
                    Option::Some(a) => a,
                    Option::None => unreached(),
                };
                proof {
                    lemma_strings_deep_view(adds);
                    assert(adds.deep_view() == adds_of(pre.cur()));
                }
                let alen: usize = adds.len();
                let pair = &adds[self.add_idx];
                let ghost t = adds_of(pre.cur())[pre.add_idx as int];
                proof {
                    assert(pair@ == t);
                }
                let pcs = split_chars(&chars_of(pair.as_str()), ':');
                proof {
                    lemma_chars_deep_view(&pcs);
                }
                let ok = pcs.len() == 2 && chars_eq(
                    &low_cs,
                    &chars_of(lowercase(string_of(&pcs[1]).as_str()).as_str()),
                );
                let expected = if pcs.len() >= 2 {
                    string_of(&pcs[1])
                } else {
                    String::new()
                };
                proof {
                    assert(ok == additional_match(t, input@));
                    assert(expected@ == pair_value(t));
                    lemma_sum_idx_take_step(pre.es(), pre.order@, pre.pos as int);
                    lemma_sum_idx_prefix(pre.es(), pre.order@, pre.pos as int + 1);
                }
                if ok {
                    self.additionals_correct = self.additionals_correct + 1;
                }
                self.add_idx = self.add_idx + 1;
                if self.add_idx == alen {
                    proof {
                        assert(self.pos < n_now);
                    }
                    self.pos = self.pos + 1;
                    self.phase = Phase::Meanings;
                    self.add_idx = 0;
                    self.given = Vec::new();
                    proof {
                        lemma_next_entry_wf(pre, *self);
                    }
                }
                if ok {
                    Feedback::CorrectAdditional
                } else {
                    Feedback::WrongAdditional { expected }
                }
            },
        }
    }

    /// End the meanings phase of the current record: go to its
    /// additionals when they are enabled and present, else to the next
    /// record.
    fn advance_after_meanings(&mut self, ci: usize)
        requires
            old(self).order@.len() == old(self).n(),
            forall|k: int|
                0 <= k < old(self).n() ==> (#[trigger] old(self).order@[k]) < old(self).n(),
            old(self).pos < old(self).n(),
            ci == old(self).order@[old(self).pos as int],
        ensures
            after_meanings(*old(self), *final(self)),
            final(self).entries == old(self).entries,
            final(self).order == old(self).order,
            final(self).mode == old(self).mode,
            final(self).ask_additionals == old(self).ask_additionals,
            final(self).pos == old(self).pos || final(self).pos == old(self).pos + 1,
            final(self).meanings_correct == old(self).meanings_correct,
            final(self).additionals_correct == old(self).additionals_correct,
    {
        let n_now: usize = self.entries.len();
        proof {
            assert(self.es()[ci as int] == self.entries@[ci as int]@);
            assert(self.pos < n_now);
        }
        let has_adds = self.ask_additionals && match &self.entries[ci].additionals {
            Option::Some(a) => a.len() > 0,
            Option::None => false,
        };
        if has_adds {
            self.phase = Phase::Additionals;
            self.add_idx = 0;
            self.given = Vec::new();
        } else {
            self.pos = self.pos + 1;
            self.phase = Phase::Meanings;
            self.add_idx = 0;
            self.given = Vec::new();
        }
    }
}

/// After a meanings phase ended with the counter raised by at most one,
/// the session is still well-formed.
proof fn lemma_after_meanings_wf(pre: Session, post: Session)
    requires
        pre.wf(),
        !pre.complete(),
        pre.phase is Meanings,
        after_meanings(pre, post),
        post.entries == pre.entries,
        post.order == pre.order,
        post.ask_additionals == pre.ask_additionals,
        post.meanings_correct <= pre.meanings_correct + 1,
        post.meanings_correct <= usize::MAX,
        post.additionals_correct == pre.additionals_correct,
    ensures
        post.wf(),
{
    lemma_sum_idx_take_step(pre.es(), pre.order@, pre.pos as int);
    if !(pre.ask_additionals && adds_len(pre.cur()) > 0) {
        assert(post.done_indices() == pre.order@.take(pre.pos as int + 1));
        if !post.complete() {
            assert(post.cur().meanings.len() >= 1);
        }
    }
}

/// After moving from a finished record to the next one, the session is
/// still well-formed.
proof fn lemma_next_entry_wf(pre: Session, post: Session)
    requires
        pre.wf(),
        !pre.complete(),
        pre.phase is Additionals,
        post.entries == pre.entries,
        post.order == pre.order,
        post.pos == pre.pos + 1,
        post.phase is Meanings,
        post.add_idx == 0,
        post.given@.len() == 0,
        post.meanings_correct == pre.meanings_correct,
        post.additionals_correct <= pre.additionals_correct + 1,
        pre.add_idx + 1 == adds_len(pre.cur()),
    ensures
        post.wf(),
{
    lemma_sum_idx_take_step(pre.es(), pre.order@, pre.pos as int);
    assert(post.done_indices() == pre.order@.take(pre.pos as int + 1));
    if !post.complete() {
        assert(post.cur().meanings.len() >= 1);
    }
}

/// At completion every record was asked exactly once: the done list is
/// as long as the record list, holds no index twice, and holds every
/// index; and the meanings counter never exceeds the record count.
pub proof fn lemma_session_complete(s: Session)
    requires
        s.wf(),
        s.complete(),
    ensures
        s.done_indices().len() == s.entries@.len(),
        s.done_indices().no_duplicates(),
        forall|k: int| 0 <= k < s.entries@.len() ==> s.done_indices().contains(#[trigger] (
        k as usize)),
        s.meanings_correct <= s.entries@.len(),
        s.additionals_correct <= total_adds(s.entries.deep_view()),
{
    let n = s.n();
    assert(n <= usize::MAX);
    assert(s.done_indices() =~= s.order@);
    let idn = ident_seq(n);
    assert(idn.no_duplicates()) by {
        assert forall|i: int, j: int| 0 <= i < idn.len() && 0 <= j < idn.len() && i != j implies idn[i]
            != idn[j] by {
            assert(idn[i] == i as usize);
            assert(idn[j] == j as usize);
        }
    }
    idn.lemma_multiset_has_no_duplicates();
    s.order@.lemma_multiset_has_no_duplicates_conv();
    assert forall|k: int| 0 <= k < s.entries@.len() implies s.done_indices().contains(#[trigger] (
    k as usize)) by {
        assert(idn[k] == k as usize);
        assert(idn.contains(k as usize));
        assert(idn.to_multiset().count(k as usize) > 0);
        assert(s.order@.to_multiset().count(k as usize) > 0);
        assert(s.order@.contains(k as usize));
    }
}

/// The key of one `key:value` additional token: what stands before the
/// first `:`, or the whole token when it has none.
pub open spec fn pair_key(t: Seq<char>) -> Seq<char> {
    split_on(t, ':')[0]
}

/// The value of one `key:value` additional token: what stands between
/// the first and the second `:`, or nothing when the token has no `:`.
pub open spec fn pair_value(t: Seq<char>) -> Seq<char> {
    if split_on(t, ':').len() >= 2 {
        split_on(t, ':')[1]
    } else {
        Seq::empty()
    }
}

/// A well-formed additional token: exactly one `key:value` pair.
pub open spec fn pair_ok(t: Seq<char>) -> bool {
    split_on(t, ':').len() == 2
}

/// An answer matches an additional token when the token is a well-formed
/// pair and the answer equals its value, case-insensitively.  A
/// malformed token (the empty placeholder) can never be matched.
pub open spec fn additional_match(t: Seq<char>, inp: Seq<char>) -> bool {
    pair_ok(t) && lower_of(inp) == lower_of(pair_value(t))
}

/// An answer matches a record's meanings when its lowercase folding is
/// one of the stored meanings.
pub open spec fn meaning_match(v: VocabV, inp: Seq<char>) -> bool {
    v.meanings.contains(lower_of(inp))
}

/// Answer matching is case-insensitive: two answers with the same
/// lowercase folding match exactly the same records, for the meanings
/// and for the additionals alike.
pub proof fn lemma_match_case_insensitive(v: VocabV, t: Seq<char>, a: Seq<char>, b: Seq<char>)
    ensures
        lower_of(a) == lower_of(b) ==> meaning_match(v, a) == meaning_match(v, b),
        lower_of(a) == lower_of(b) ==> additional_match(t, a) == additional_match(t, b),
{
}

} // verus!
