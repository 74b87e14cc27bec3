//! The chain of semaphores that orders the draw submissions of a frame.
use vstd::prelude::*;

verus! {

/// The semaphore a submission waits on and the one it signals.
#[derive(Clone, Copy, Debug, PartialEq, Eq, Structural)]
pub struct SemaphoreGetter<S> {
    pub start_semaphore: S,
    pub finished_semaphore: S,
}

/// Buffer containing semaphores used to start draw calls
pub struct SemaphoreBuffer<S> {
    semaphores: Vec<S>,
    render_finished_semaphore: S,
}

impl<S: Copy> SemaphoreBuffer<S> {
    /// The chain of semaphores, the first one being the one that starts the
    /// frame.
    pub closed spec fn chain(&self) -> Seq<S> {
        self.semaphores@
    }

    /// The semaphore signalled when the frame's last submission is done.
    pub closed spec fn finished(&self) -> S {
        self.render_finished_semaphore
    }

    pub fn new(starting_semaphore: S, render_finished_semaphore: S) -> (b: Self)
        ensures
            b.chain() == seq![starting_semaphore],
            b.finished() == render_finished_semaphore,
    {
        let mut semaphores: Vec<S> = Vec::new();
        semaphores.push(starting_semaphore);
        Self { semaphores, render_finished_semaphore }
    }

    /// How many semaphores must be created before `size` submissions can be
    /// chained.
    pub fn missing(&self, size: usize) -> (n: usize)
        ensures
            n == (if size > self.chain().len() {
                size - self.chain().len()
            } else {
                0
            }),
    {
        if size > self.semaphores.len() {
            size - self.semaphores.len()
        } else {
            0
        }
    }

    /// Gets the semaphores for `size` submissions, after adding the newly
    /// created ones to the chain: submission `i` waits on semaphore `i` and
    /// signals semaphore `i + 1`, the last one signalling the semaphore of
    /// the finished frame.
    pub fn get_semaphores(&mut self, created: Vec<S>, size: usize) -> (r: Vec<SemaphoreGetter<S>>)
        requires
            old(self).chain().len() >= 1,
            old(self).chain().len() + created@.len() == size,
        ensures
            final(self).chain() == old(self).chain() + created@,
            final(self).finished() == old(self).finished(),
            r@.len() == size,
            forall|i: int|
                0 <= i < size - 1 ==> #[trigger] r@[i] == (SemaphoreGetter {
                    start_semaphore: final(self).chain()[i],
                    finished_semaphore: final(self).chain()[i + 1],
                }),
            r@[size - 1] == (SemaphoreGetter {
                start_semaphore: final(self).chain()[size - 1],
                finished_semaphore: final(self).finished(),
            }),
            r@[0].start_semaphore == old(self).chain()[0],
            forall|i: int|
                0 <= i < size - 1 ==> #[trigger] r@[i].finished_semaphore == r@[i + 1].start_semaphore,
    {
        let mut k: usize = 0;
        let ghost old_chain = self.semaphores@;
        while k < created.len()
            invariant
                k <= created@.len(),
                self.semaphores@ == old_chain + created@.take(k as int),
                old_chain.len() + created@.len() == size,
                old_chain.len() >= 1,
                self.render_finished_semaphore == old(self).render_finished_semaphore,
            decreases created@.len() - k,
        {
            self.semaphores.push(created[k]);
            k = k + 1;
            assert(self.semaphores@ =~= old_chain + created@.take(k as int));
        }
        assert(created@.take(k as int) =~= created@);
        let len = self.semaphores.len();
        let mut semaphores: Vec<SemaphoreGetter<S>> = Vec::new();
        let mut i: usize = 1;
        while i < len
            invariant
                1 <= i <= len,
                len == self.semaphores@.len(),
                semaphores@.len() == i - 1,
                forall|j: int|
                    0 <= j < i - 1 ==> #[trigger] semaphores@[j] == (SemaphoreGetter {
                        start_semaphore: self.semaphores@[j],
                        finished_semaphore: self.semaphores@[j + 1],
                    }),
            decreases len - i,
        {
            semaphores.push(
                SemaphoreGetter {
                    start_semaphore: self.semaphores[i - 1],
                    finished_semaphore: self.semaphores[i],
                },
            );
            i = i + 1;
        }
        semaphores.push(
            SemaphoreGetter {
                start_semaphore: self.semaphores[len - 1],
                finished_semaphore: self.render_finished_semaphore,
            },
        );
        semaphores
    }

    pub fn render_finished_semaphore(&self) -> (s: S)
        ensures
            s == self.finished(),
    {
        self.render_finished_semaphore
    }
}

} // verus!
