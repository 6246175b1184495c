use crate::sample::Sample;
use crate::signal::Signal;
use vstd::prelude::*;

verus! {

/// The mathematical state of a patchbay: the stored samples, the per-point
/// freshness marks for the current tick, and the allocation mask of the free
/// pool. All three sequences have the patchbay's capacity as their length.
#[verifier::ext_equal]
pub struct BayView {
    /// The sample stored at each point.
    pub samples: Seq<Sample>,
    /// Whether each point has been written during the current tick.
    pub fresh: Seq<bool>,
    /// Whether each point is currently allocated to a live write handle.
    pub taken: Seq<bool>,
}

impl BayView {
    /// All three component sequences have length `cap`.
    pub open spec fn wf(self, cap: nat) -> bool {
        &&& self.samples.len() == cap
        &&& self.fresh.len() == cap
        &&& self.taken.len() == cap
    }

    /// The value a signal reads in this state: the stored sample for a point,
    /// the carried constant for a fixed signal, silence otherwise.
    pub open spec fn read(self, signal: Signal) -> Sample {
        match signal {
            Signal::PatchPoint(i) => self.samples[i as int],
            Signal::Fixed(s) => s,
            Signal::Silence => Sample::silent(),
        }
    }

    /// Whether a signal's value was computed during the current tick. Fixed
    /// and silent signals are always fresh.
    pub open spec fn is_fresh(self, signal: Signal) -> bool {
        match signal {
            Signal::PatchPoint(i) => self.fresh[i as int],
            Signal::Fixed(_) => true,
            Signal::Silence => true,
        }
    }

    /// The same state with every freshness mark cleared.
    pub open spec fn cleared(self) -> BayView {
        BayView { fresh: Seq::new(self.fresh.len(), |i: int| false), ..self }
    }

    /// An empty patchbay state of capacity `cap`: all samples silent, nothing
    /// fresh, every point free.
    pub open spec fn empty(cap: nat) -> BayView {
        BayView {
            samples: Seq::new(cap, |i: int| Sample::silent()),
            fresh: Seq::new(cap, |i: int| false),
            taken: Seq::new(cap, |i: int| false),
        }
    }
}

/// Balanced allocation: allocating a free point with [`Patchbay::point`]
/// (which takes slot `i` of the pool) and then releasing it with
/// [`Patchbay::release`] (which frees slot `i` again) restores the free pool
/// exactly, so balanced allocate/release pairs never shrink it.
pub proof fn lemma_point_release_balances(taken: Seq<bool>, i: int)
    requires
        0 <= i < taken.len(),
        !taken[i],
    ensures
        taken.update(i, true).update(i, false) == taken,
{
    assert(taken.update(i, true).update(i, false) =~= taken);
}

/// The unique write handle on one patchbay point. Handles are minted only by
/// [`Patchbay::point`], are not copyable, and are the sole way to write a
/// point, which enforces the one-writer-per-point rule.
pub struct PatchPoint {
    id: usize,
}

impl PatchPoint {
    /// The index of the patchbay point this handle writes.
    pub closed spec fn index(&self) -> int {
        self.id as int
    }

    pub(crate) fn new(id: usize) -> (pp: PatchPoint)
        ensures
            pp.index() == id,
    {
        PatchPoint { id }
    }

    /// Derive a freely copyable read handle on the same point.
    pub fn signal(&self) -> (s: Signal)
        ensures
            s == Signal::PatchPoint(self.index() as usize),
    {
        Signal::PatchPoint(self.id)
    }
}

/// A fixed-capacity pool of connection points, each holding one sample and one
/// freshness mark. Points are allocated from a free pool and written through
/// unique [`PatchPoint`] handles; any number of [`Signal`]s may read them.
pub struct Patchbay<const PATCHPOINTS: usize> {
    samples: Vec<Sample>,
    fresh: Vec<bool>,
    taken: Vec<bool>,
}

impl<const PATCHPOINTS: usize> View for Patchbay<PATCHPOINTS> {
    type V = BayView;

    closed spec fn view(&self) -> BayView {
        BayView { samples: self.samples@, fresh: self.fresh@, taken: self.taken@ }
    }
}

impl<const PATCHPOINTS: usize> Patchbay<PATCHPOINTS> {
    /// The three internal arrays all have the declared capacity.
    pub open spec fn wf(&self) -> bool {
        self@.wf(PATCHPOINTS as nat)
    }

    /// A new patchbay: every sample silent, every mark clear, every point
    /// free.
    pub fn new() -> (pb: Patchbay<PATCHPOINTS>)
        ensures
            pb.wf(),
            pb@ == BayView::empty(PATCHPOINTS as nat),
    {
        let mut samples: Vec<Sample> = Vec::new();
        let mut fresh: Vec<bool> = Vec::new();
        let mut taken: Vec<bool> = Vec::new();
        let mut i: usize = 0;
        while i < PATCHPOINTS
            invariant
                i <= PATCHPOINTS,
                samples@ =~= Seq::new(i as nat, |j: int| Sample::silent()),
                fresh@ =~= Seq::new(i as nat, |j: int| false),
                taken@ =~= Seq::new(i as nat, |j: int| false),
            decreases PATCHPOINTS - i,
        {
            samples.push(Sample::silence());
            fresh.push(false);
            taken.push(false);
            i = i + 1;
        }
        let pb = Patchbay { samples, fresh, taken };
        proof {
            assert(pb@ =~= BayView::empty(PATCHPOINTS as nat));
        }
        pb
    }

    /// Allocate a fresh point from the free pool: the lowest free index is
    /// taken and its unique write handle returned. Returns nothing when every
    /// point is in use. Samples and freshness marks are untouched.
    pub fn point(&mut self) -> (r: Option<PatchPoint>)
        requires
            old(self).wf(),
        ensures
            final(self).wf(),
            final(self)@.samples == old(self)@.samples,
            final(self)@.fresh == old(self)@.fresh,
            match r {
                Some(pp) => {
                    &&& 0 <= pp.index() < PATCHPOINTS
                    &&& !old(self)@.taken[pp.index()]
                    &&& forall|j: int| 0 <= j < pp.index() ==> old(self)@.taken[j]
                    &&& final(self)@.taken == old(self)@.taken.update(pp.index(), true)
                },
                None => {
                    &&& forall|j: int| 0 <= j < PATCHPOINTS ==> old(self)@.taken[j]
                    &&& final(self)@.taken == old(self)@.taken
                },
            },
    {
        let mut i: usize = 0;
        while i < PATCHPOINTS
            invariant
                self.wf(),
                i <= PATCHPOINTS,
                *self == *old(self),
                forall|j: int| 0 <= j < i ==> self@.taken[j],
            decreases PATCHPOINTS - i,
        {
            if !self.taken[i] {
                self.taken[i] = true;
                proof {
                    assert(self@.taken =~= old(self)@.taken.update(i as int, true));
                }
                return Some(PatchPoint::new(i));
            }
            i = i + 1;
        }
        None
    }

    /// Return a point to the free pool, consuming its write handle.
    pub fn release(&mut self, point: PatchPoint)
        requires
            old(self).wf(),
            0 <= point.index() < PATCHPOINTS,
        ensures
            final(self).wf(),
            final(self)@.samples == old(self)@.samples,
            final(self)@.fresh == old(self)@.fresh,
            final(self)@.taken == old(self)@.taken.update(point.index(), false),
    {
        self.taken[point.id] = false;
    }

    /// Read the sample value a signal currently refers to.
    pub fn get(&self, signal: Signal) -> (r: Sample)
        requires
            self.wf(),
            signal.in_range(PATCHPOINTS as nat),
        ensures
            r == self@.read(signal),
    {
        match signal {
            Signal::PatchPoint(id) => self.samples[id],
            Signal::Fixed(s) => s,
            Signal::Silence => Sample::silence(),
        }
    }

    /// Write a sample to the point owned by the given handle and mark the
    /// point fresh for the current tick.
    pub fn set(&mut self, point: &mut PatchPoint, sample: Sample)
        requires
            old(self).wf(),
            0 <= old(point).index() < PATCHPOINTS,
        ensures
            final(self).wf(),
            *final(point) == *old(point),
            final(self)@.samples == old(self)@.samples.update(old(point).index(), sample),
            final(self)@.fresh == old(self)@.fresh.update(old(point).index(), true),
            final(self)@.taken == old(self)@.taken,
    {
        let id = point.id;
        self.samples[id] = sample;
        self.fresh[id] = true;
    }

    /// Whether a signal's value is the one computed during the current tick.
    pub fn check(&self, signal: Signal) -> (r: bool)
        requires
            self.wf(),
            signal.in_range(PATCHPOINTS as nat),
        ensures
            r == self@.is_fresh(signal),
    {
        match signal {
            Signal::PatchPoint(id) => self.fresh[id],
            Signal::Fixed(_) => true,
            Signal::Silence => true,
        }
    }

    /// Clear every freshness mark, leaving samples and the free pool alone.
    /// Called at the start of every tick.
    pub fn clear_marks(&mut self)
        requires
            old(self).wf(),
        ensures
            final(self).wf(),
            final(self)@ == old(self)@.cleared(),
    {
        let mut i: usize = 0;
        while i < PATCHPOINTS
            invariant
                self.wf(),
                i <= PATCHPOINTS,
                self@.samples == old(self)@.samples,
                self@.taken == old(self)@.taken,
                self@.fresh.len() == PATCHPOINTS,
                forall|j: int| 0 <= j < i ==> !self@.fresh[j],
                forall|j: int| i <= j < PATCHPOINTS ==> self@.fresh[j] == old(self)@.fresh[j],
            decreases PATCHPOINTS - i,
        {
            self.fresh[i] = false;
            i = i + 1;
        }
        proof {
            assert(self@.fresh =~= old(self)@.cleared().fresh);
            assert(self@ =~= old(self)@.cleared());
        }
    }
}

} // verus!
