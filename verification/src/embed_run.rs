//! The requests that embed a number of texts, one after the other.
//!
//! The run says which texts to send next, and after how long a wait. The caller sends
//! them and hands in the answer. As in [`crate::embed`], a vector is the list of the
//! bits of its components.
use vstd::prelude::*;

use crate::embed::{batches_from, next_step, step_after, RequestStep, EMBED_BATCH, MAX_ATTEMPTS};

verus! {

/// What to do next.
#[derive(Debug, Clone, Copy, PartialEq, Eq, Structural)]
pub enum EmbedAction {
    /// Wait for a number of seconds, and send the texts from one up to before another.
    Send(u64, usize, usize),
    /// Take the vectors: there is one for each text.
    Finish,
    /// Give up: too many requests have failed.
    GiveUp,
    /// Refuse the answer, which has so many vectors for so many texts.
    Refuse(usize, usize),
}

/// The state of a run.
#[verifier::ext_equal]
pub struct EmbedView {
    /// How many texts there are.
    pub texts: nat,
    /// How many of them have a vector.
    pub done: nat,
    /// How often the next texts were sent.
    pub attempts: u32,
    /// The vectors of the first texts.
    pub vectors: Seq<Seq<u32>>,
}

impl EmbedView {
    /// Whether the state is one that a run can be in: the first texts have one vector
    /// each.
    pub open spec fn wf(self) -> bool {
        &&& self.done <= self.texts <= usize::MAX
        &&& self.vectors.len() == self.done
        &&& self.attempts < MAX_ATTEMPTS
    }
}

/// A run before its first request.
pub open spec fn fresh(texts: nat) -> EmbedView {
    EmbedView { texts, done: 0, attempts: 0, vectors: Seq::empty() }
}

/// The texts that are sent next.
pub open spec fn next_batch(run: EmbedView) -> (usize, usize) {
    batches_from(run.done, run.texts)[0]
}

/// What to do where no request is open.
pub open spec fn ask(run: EmbedView) -> EmbedAction {
    if run.done >= run.texts {
        EmbedAction::Finish
    } else {
        EmbedAction::Send(0, next_batch(run).0, next_batch(run).1)
    }
}

/// The number of vectors in an answer.
pub open spec fn vector_count(answer: Option<Seq<Seq<u32>>>) -> Option<usize> {
    match answer {
        Some(vectors) => Some(vectors.len() as usize),
        None => None,
    }
}

/// The step after an answer; there is none where the request failed.
pub open spec fn after_answer(run: EmbedView, answer: Option<Seq<Seq<u32>>>) -> (
    EmbedView,
    EmbedAction,
) {
    let (from, to) = next_batch(run);
    match (step_after(run.attempts, vector_count(answer), (to - from) as usize), answer) {
        (RequestStep::Take, Some(vectors)) => {
            let next = EmbedView {
                done: to as nat,
                attempts: 0,
                vectors: run.vectors + vectors,
                ..run
            };
            (next, ask(next))
        },
        (RequestStep::Refuse, Some(vectors)) => (
            run,
            EmbedAction::Refuse(vectors.len() as usize, (to - from) as usize),
        ),
        (RequestStep::Retry(secs), _) => (
            EmbedView { attempts: (run.attempts + 1) as u32, ..run },
            EmbedAction::Send(secs, from, to),
        ),
        _ => (run, EmbedAction::GiveUp),
    }
}

/// The vectors as lists of bits.
pub open spec fn vector_views(vectors: Seq<Vec<u32>>) -> Seq<Seq<u32>> {
    vectors.map_values(|v: Vec<u32>| v@)
}

/// An answer, with lists for its vectors.
pub open spec fn answer_view(answer: Option<Vec<Vec<u32>>>) -> Option<Seq<Seq<u32>>> {
    match answer {
        Some(vectors) => Some(vector_views(vectors@)),
        None => None,
    }
}

#[derive(Debug)]
struct EmbedState {
    texts: usize,
    done: usize,
    attempts: u32,
    vectors: Vec<Vec<u32>>,
}

impl View for EmbedState {
    type V = EmbedView;

    closed spec fn view(&self) -> EmbedView {
        EmbedView {
            texts: self.texts as nat,
            done: self.done as nat,
            attempts: self.attempts,
            vectors: vector_views(self.vectors@),
        }
    }
}

impl EmbedState {
    fn start(texts: usize) -> (r: EmbedState)
        ensures
            r@ == fresh(texts as nat),
            r@.wf(),
    {
        let state = EmbedState { texts, done: 0, attempts: 0, vectors: Vec::new() };
        assert(state@.vectors =~= Seq::empty());
        state
    }

    fn batch_end(&self) -> (r: usize)
        requires
            self@.wf(),
            self@.done < self@.texts,
        ensures
            next_batch(self@) == (self.done, r),
            self.done < r <= self.texts,
    {
        if self.texts - self.done <= EMBED_BATCH {
            self.texts
        } else {
            self.done + EMBED_BATCH
        }
    }

    fn ask(&self) -> (r: EmbedAction)
        requires
            self@.wf(),
        ensures
            r == ask(self@),
    {
        if self.done >= self.texts {
            EmbedAction::Finish
        } else {
            EmbedAction::Send(0, self.done, self.batch_end())
        }
    }

    fn take(&mut self, vectors: Vec<Vec<u32>>, to: usize)
        requires
            old(self)@.wf(),
            old(self)@.done + vectors@.len() == to <= old(self)@.texts,
        ensures
            final(self)@ == (EmbedView {
                done: to as nat,
                attempts: 0,
                vectors: old(self)@.vectors + vector_views(vectors@),
                ..old(self)@
            }),
            final(self)@.wf(),
    {
        let ghost before = self@.vectors;
        let ghost all = vector_views(vectors@);
        let mut rest = vectors;
        self.vectors.append(&mut rest);
        assert(vector_views(self.vectors@) =~= before + all);
        self.done = to;
        self.attempts = 0;
    }

    fn step(&mut self, answer: Option<Vec<Vec<u32>>>) -> (r: EmbedAction)
        requires
            old(self)@.wf(),
            old(self)@.done < old(self)@.texts,
        ensures
            (final(self)@, r) == after_answer(old(self)@, answer_view(answer)),
            final(self)@.wf(),
    {
        let to = self.batch_end();
        let wanted: usize = to - self.done;
        let count: Option<usize> = match &answer {
            Some(vectors) => Some(vectors.len()),
            None => None,
        };
        assert(count == vector_count(answer_view(answer)));
        match (next_step(self.attempts, count, wanted), answer) {
            (RequestStep::Take, Some(vectors)) => {
                self.take(vectors, to);
                self.ask()
            },
            (RequestStep::Refuse, Some(vectors)) => EmbedAction::Refuse(vectors.len(), wanted),
            (RequestStep::Retry(secs), _) => {
                self.attempts = self.attempts + 1;
                EmbedAction::Send(secs, self.done, to)
            },
            _ => EmbedAction::GiveUp,
        }
    }
}

/// A run that embeds a number of texts.
#[derive(Debug)]
pub struct EmbedRun {
    state: EmbedState,
}

impl View for EmbedRun {
    type V = EmbedView;

    closed spec fn view(&self) -> EmbedView {
        self.state@
    }
}

impl EmbedRun {
    #[verifier::type_invariant]
    closed spec fn inv(self) -> bool {
        self.state@.wf()
    }

    /// Starts a run for so many texts.
    pub fn start(texts: usize) -> (r: EmbedRun)
        ensures
            r@ == fresh(texts as nat),
            r@.wf(),
    {
        EmbedRun { state: EmbedState::start(texts) }
    }

    /// What to do first.
    pub fn first(&self) -> (r: EmbedAction)
        ensures
            r == ask(self@),
    {
        proof {
            use_type_invariant(self);
        }
        self.state.ask()
    }

    /// Takes the answer to the texts that were sent, nothing where the request failed,
    /// and decides what to do next.
    pub fn step(&mut self, answer: Option<Vec<Vec<u32>>>) -> (r: EmbedAction)
        requires
            old(self)@.done < old(self)@.texts,
        ensures
            (final(self)@, r) == after_answer(old(self)@, answer_view(answer)),
            final(self)@.wf(),
    {
        proof {
            use_type_invariant(&*self);
        }
        let mut state = EmbedState::start(0);
        core::mem::swap(&mut state, &mut self.state);
        let action = state.step(answer);
        self.state = state;
        action
    }

    /// The vectors of the texts, in their order.
    pub fn finish(self) -> (r: Vec<Vec<u32>>)
        ensures
            vector_views(r@) == self@.vectors,
    {
        self.state.vectors
    }
}

// ---------------------------------------------------------------------------
// Laws

/// The run after the answers.
pub open spec fn run_after(run: EmbedView, answers: Seq<Option<Seq<Seq<u32>>>>) -> EmbedView
    decreases answers.len(),
{
    if answers.len() == 0 {
        run
    } else {
        run_after(after_answer(run, answers[0]).0, answers.drop_first())
    }
}

/// Whether each of the answers came to texts that were sent, and the run went on.
pub open spec fn goes_on(run: EmbedView, answers: Seq<Option<Seq<Seq<u32>>>>) -> bool
    decreases answers.len(),
{
    answers.len() == 0 || (run.done < run.texts && match after_answer(run, answers[0]).1 {
        EmbedAction::Send(_, _, _) => true,
        EmbedAction::Finish => true,
        _ => false,
    } && goes_on(after_answer(run, answers[0]).0, answers.drop_first()))
}

/// The vectors of all answers, in their order.
pub open spec fn all_vectors(answers: Seq<Option<Seq<Seq<u32>>>>) -> Seq<Seq<u32>>
    decreases answers.len(),
{
    if answers.len() == 0 {
        Seq::empty()
    } else {
        match answers[0] {
            Some(vectors) => vectors + all_vectors(answers.drop_first()),
            None => all_vectors(answers.drop_first()),
        }
    }
}

proof fn lemma_next_batch(run: EmbedView)
    requires
        run.wf(),
        run.done < run.texts,
    ensures
        next_batch(run).0 == run.done,
        run.done < next_batch(run).1 <= run.texts,
        next_batch(run).1 <= run.done + EMBED_BATCH,
        batches_from(next_batch(run).1 as nat, run.texts) == batches_from(
            run.done,
            run.texts,
        ).drop_first(),
{
    let all = batches_from(run.done, run.texts);
    let rest = batches_from(next_batch(run).1 as nat, run.texts);
    assert(rest =~= all.drop_first());
}

/// The vectors of an answer that is taken stand at the texts that were sent; those of
/// earlier texts stay as they are, and the next batch follows.
pub proof fn law_answers_stand_at_their_texts(run: EmbedView, vectors: Seq<Seq<u32>>)
    requires
        run.wf(),
        run.done < run.texts,
        vectors.len() == next_batch(run).1 - next_batch(run).0,
    ensures
        ({
            let (from, to) = next_batch(run);
            let next = after_answer(run, Some(vectors)).0;
            &&& next.wf()
            &&& next.done == to
            &&& next.vectors.take(from as int) == run.vectors
            &&& next.vectors.subrange(from as int, to as int) == vectors
            &&& batches_from(next.done, next.texts) == batches_from(
                run.done,
                run.texts,
            ).drop_first()
        }),
{
    let (from, to) = next_batch(run);
    lemma_next_batch(run);
    let next = after_answer(run, Some(vectors)).0;
    assert(next.vectors.take(from as int) =~= run.vectors);
    assert(next.vectors.subrange(from as int, to as int) =~= vectors);
}

proof fn lemma_vectors_in_order(run: EmbedView, answers: Seq<Option<Seq<Seq<u32>>>>)
    requires
        run.wf(),
        goes_on(run, answers),
        forall|i: int|
            0 <= i < answers.len() ==> (#[trigger] answers[i] matches Some(vectors)
                ==> vectors.len() <= usize::MAX),
    ensures
        run_after(run, answers).wf(),
        run_after(run, answers).texts == run.texts,
        run_after(run, answers).vectors == run.vectors + all_vectors(answers),
    decreases answers.len(),
{
    if answers.len() > 0 {
        lemma_next_batch(run);
        let rest = answers.drop_first();
        let next = after_answer(run, answers[0]).0;
        assert(answers[0] matches Some(vectors) ==> vectors.len() <= usize::MAX);
        assert forall|i: int| 0 <= i < rest.len() implies (#[trigger] rest[i] matches Some(vectors)
            ==> vectors.len() <= usize::MAX) by {
            assert(rest[i] == answers[i + 1]);
        }
        lemma_vectors_in_order(next, rest);
        if let Some(vectors) = answers[0] {
            assert(run.vectors + vectors + all_vectors(rest) =~= run.vectors + (vectors
                + all_vectors(rest)));
        }
    } else {
        assert(run.vectors + all_vectors(answers) =~= run.vectors);
    }
}

/// A run that is told to finish has the vectors of all answers in their order, one for
/// each text.
pub proof fn law_finished_run_has_all_vectors(
    texts: nat,
    answers: Seq<Option<Seq<Seq<u32>>>>,
)
    requires
        texts <= usize::MAX,
        goes_on(fresh(texts), answers),
        forall|i: int|
            0 <= i < answers.len() ==> (#[trigger] answers[i] matches Some(vectors)
                ==> vectors.len() <= usize::MAX),
        ask(run_after(fresh(texts), answers)) is Finish,
    ensures
        run_after(fresh(texts), answers).vectors == all_vectors(answers),
        all_vectors(answers).len() == texts,
{
    lemma_vectors_in_order(fresh(texts), answers);
    assert(fresh(texts).vectors + all_vectors(answers) =~= all_vectors(answers));
}

/// How many requests a run can send yet.
pub open spec fn requests_left(run: EmbedView) -> int {
    (run.texts - run.done) * MAX_ATTEMPTS - run.attempts
}

/// Each answer that does not end a run brings it nearer to its end, and no texts are
/// sent more often than allowed.
pub proof fn law_requests_end(run: EmbedView, answer: Option<Seq<Seq<u32>>>)
    requires
        run.wf(),
        run.done < run.texts,
        answer matches Some(vectors) ==> vectors.len() <= usize::MAX,
        after_answer(run, answer).1 is Send,
    ensures
        after_answer(run, answer).0.wf(),
        0 <= requests_left(after_answer(run, answer).0) < requests_left(run),
{
    lemma_next_batch(run);
}

/// The texts are sent from the first that has no vector on, 64 at most. A request that
/// fails is sent again with the same texts after one second, and after two more, and the
/// run is then given up. An answer with another number of vectors than texts is refused;
/// one with as many is taken, and the texts behind are sent at once.
pub proof fn law_next_request(run: EmbedView, vectors: Seq<Seq<u32>>)
    requires
        run.wf(),
        run.done < run.texts,
        vectors.len() <= usize::MAX,
    ensures
        ({
            let to = if run.texts - run.done <= 64 {
                run.texts
            } else {
                run.done + 64
            };
            let after_next = if run.texts - to <= 64 {
                run.texts
            } else {
                to + 64
            };
            let (failed, again) = after_answer(run, None);
            let (next, action) = after_answer(run, Some(vectors));
            &&& ask(run) == EmbedAction::Send(0, run.done as usize, to as usize)
            &&& run.attempts == 0 ==> again == EmbedAction::Send(
                1,
                run.done as usize,
                to as usize,
            ) && failed.attempts == 1 && failed.done == run.done
            &&& run.attempts == 1 ==> again == EmbedAction::Send(
                2,
                run.done as usize,
                to as usize,
            ) && failed.attempts == 2 && failed.done == run.done
            &&& run.attempts == 2 ==> again == EmbedAction::GiveUp
            &&& vectors.len() != to - run.done ==> action == EmbedAction::Refuse(
                vectors.len() as usize,
                (to - run.done) as usize,
            )
            &&& vectors.len() == to - run.done ==> {
                &&& next.done == to
                &&& next.attempts == 0
                &&& next.vectors == run.vectors + vectors
                &&& to == run.texts ==> action == EmbedAction::Finish
                &&& to < run.texts ==> action == EmbedAction::Send(
                    0,
                    to as usize,
                    after_next as usize,
                )
            }
        }),
        fresh(run.texts).done == 0,
        fresh(run.texts).attempts == 0,
        fresh(run.texts).vectors.len() == 0,
{
    lemma_next_batch(run);
}

} // verus!
