//! Search contexts that are used again, and permits that bound how many searches run.

use vstd::prelude::*;

verus! {

/// Contexts that wait for a search.
#[derive(Debug)]
pub struct ContextPool<C> {
    stack: Vec<C>,
    fresh: u64,
}

impl<C> ContextPool<C> {
    /// The contexts that wait, the next to be taken last.
    pub closed spec fn waiting(self) -> Seq<C> {
        self.stack@
    }

    /// How often a context was asked for that was not there.
    pub closed spec fn missed(self) -> u64 {
        self.fresh
    }

    pub fn new() -> (r: ContextPool<C>)
        ensures
            r.waiting().len() == 0,
            r.missed() == 0,
    {
        ContextPool { stack: Vec::new(), fresh: 0 }
    }

    /// Adds contexts.
    pub fn prewarm(&mut self, warmed: Vec<C>)
        ensures
            final(self).waiting() == old(self).waiting() + warmed@,
            final(self).missed() == old(self).missed(),
    {
        let mut more: Vec<C> = warmed;
        self.stack.append(&mut more);
    }

    /// The number of contexts that wait.
    pub fn idle(&self) -> (r: usize)
        ensures
            r == self.waiting().len(),
    {
        self.stack.len()
    }

    /// How many contexts were missing when they were asked for.
    pub fn fresh_allocations(&self) -> (r: u64)
        ensures
            r == self.missed(),
    {
        self.fresh
    }

    /// The contexts that wait, and how often there was none.
    pub open spec fn stock(self) -> (Seq<C>, u64) {
        (self.waiting(), self.missed())
    }

    /// Takes the context that was given back last; where none waits, makes one and counts it.
    fn take<F: Fn() -> C>(&mut self, make: &F) -> (r: C)
        requires
            call_requires(*make, ()),
        ensures
            supplied(None, old(self).stock(), *make, r),
            final(self).stock() == stock_after(None::<C>, old(self).stock()),
    {
        match self.stack.pop() {
            Some(c) => c,
            None => {
                self.fresh = if self.fresh == u64::MAX { 0 } else { self.fresh + 1 };
                make()
            },
        }
    }
}

/// One more; after the largest number it starts again.
pub open spec fn more(n: u64) -> u64 {
    if n == u64::MAX { 0 } else { (n + 1) as u64 }
}

/// Whether `got` is the context that a search gets: the one it has; else the one that was given
/// back last; else a new one.
pub open spec fn supplied<C, F: Fn() -> C>(have: Option<C>, stock: (Seq<C>, u64), make: F, got: C) -> bool {
    match have {
        Some(c) => got == c,
        None => if stock.0.len() > 0 { got == stock.0.last() } else { call_ensures(make, (), got) },
    }
}

/// What the pool has then: a context that waited has left it, and one that was made is counted.
pub open spec fn stock_after<C>(have: Option<C>, stock: (Seq<C>, u64)) -> (Seq<C>, u64) {
    if have is Some {
        stock
    } else if stock.0.len() > 0 {
        (stock.0.drop_last(), stock.1)
    } else {
        (stock.0, more(stock.1))
    }
}

/// The contexts of one search: each is taken when it is first needed.
#[derive(Debug)]
pub struct PooledContexts<C> {
    fwd: Option<C>,
    bwd: Option<C>,
}

impl<C> PooledContexts<C> {
    /// The context of the forward search, where it is taken.
    pub closed spec fn forward(self) -> Option<C> {
        self.fwd
    }

    /// The context of the backward search, where it is taken.
    pub closed spec fn backward(self) -> Option<C> {
        self.bwd
    }

    /// A lease that holds nothing yet.
    pub fn checkout() -> (r: PooledContexts<C>)
        ensures
            r.forward() is None,
            r.backward() is None,
    {
        PooledContexts { fwd: None, bwd: None }
    }

    /// The forward context.
    pub fn one<F: Fn() -> C>(&mut self, pool: &mut ContextPool<C>, make: &F) -> (r: &mut C)
        requires
            call_requires(*make, ()),
        ensures
            supplied(old(self).forward(), old(pool).stock(), *make, *r),
            final(pool).stock() == stock_after(old(self).forward(), old(pool).stock()),
            final(self).forward() == Some(*final(r)),
            final(self).backward() == old(self).backward(),
    {
        if self.fwd.is_none() {
            self.fwd = Some(pool.take(make));
        }
        self.fwd.as_mut().unwrap()
    }

    /// Both contexts, the forward one first.
    pub fn two<F: Fn() -> C>(&mut self, pool: &mut ContextPool<C>, make: &F) -> (r: (&mut C, &mut C))
        requires
            call_requires(*make, ()),
        ensures
            supplied(old(self).forward(), old(pool).stock(), *make, *r.0),
            supplied(old(self).backward(), stock_after(old(self).forward(), old(pool).stock()), *make, *r.1),
            final(pool).stock() == stock_after(
                old(self).backward(),
                stock_after(old(self).forward(), old(pool).stock()),
            ),
            final(self).forward() == Some(*final(r.0)),
            final(self).backward() == Some(*final(r.1)),
    {
        if self.fwd.is_none() {
            self.fwd = Some(pool.take(make));
        }
        if self.bwd.is_none() {
            self.bwd = Some(pool.take(make));
        }
        (self.fwd.as_mut().unwrap(), self.bwd.as_mut().unwrap())
    }

    /// Gives what was taken back to the pool.
    pub fn give_back(self, pool: &mut ContextPool<C>)
        ensures
            final(pool).waiting() == old(pool).waiting() + held(self.forward()) + held(self.backward()),
            final(pool).missed() == old(pool).missed(),
    {
        let ghost before = pool.stack@;
        match self.fwd {
            Some(c) => {
                pool.stack.push(c);
            },
            None => {},
        }
        assert(pool.stack@ =~= before + held(self.fwd));
        let ghost mid = pool.stack@;
        match self.bwd {
            Some(c) => {
                pool.stack.push(c);
            },
            None => {},
        }
        assert(pool.stack@ =~= mid + held(self.bwd));
    }
}

/// What is held, as a list.
pub open spec fn held<C>(c: Option<C>) -> Seq<C> {
    match c {
        Some(x) => seq![x],
        None => Seq::empty(),
    }
}

/// How many searches may run, and how many more may start.
#[derive(Debug, Clone, Copy, PartialEq, Eq, Structural)]
pub struct SearchPermits {
    total: usize,
    free: usize,
}

impl SearchPermits {
    pub closed spec fn all(self) -> usize {
        self.total
    }

    pub closed spec fn left(self) -> usize {
        self.free
    }

    pub closed spec fn wf(self) -> bool {
        self.free <= self.total
    }

    pub fn new(total: usize) -> (r: SearchPermits)
        ensures
            r.wf(),
            r.all() == total,
            r.left() == total,
    {
        SearchPermits { total, free: total }
    }

    pub fn total(&self) -> (r: usize)
        ensures
            r == self.all(),
    {
        self.total
    }

    pub fn available(&self) -> (r: usize)
        ensures
            r == self.left(),
    {
        self.free
    }

    /// A permit for a request, while there is one.
    pub fn try_acquire(&mut self) -> (r: bool)
        requires
            old(self).wf(),
        ensures
            final(self).wf(),
            final(self).all() == old(self).all(),
            r == (old(self).left() > 0),
            final(self).left() == if r { (old(self).left() - 1) as usize } else { old(self).left() },
    {
        if self.free > 0 {
            self.free = self.free - 1;
            true
        } else {
            false
        }
    }

    /// A permit for the second engine of a race, only where more than a quarter of all permits
    /// would remain free.
    pub fn try_acquire_hedge(&mut self) -> (r: bool)
        requires
            old(self).wf(),
        ensures
            final(self).wf(),
            final(self).all() == old(self).all(),
            r == (old(self).left() > 0 && old(self).left() - 1 > old(self).all() / 4),
            final(self).left() == if r { (old(self).left() - 1) as usize } else { old(self).left() },
    {
        if self.free == 0 || self.free - 1 <= self.total / 4 {
            return false;
        }
        self.free = self.free - 1;
        true
    }

    /// Gives a permit back.
    pub fn release(&mut self)
        requires
            old(self).wf(),
            old(self).left() < old(self).all(),
        ensures
            final(self).wf(),
            final(self).all() == old(self).all(),
            final(self).left() == old(self).left() + 1,
    {
        self.free = self.free + 1;
    }
}

/// The number of searches that may run at once: what the setting says, if it is not 0, else one
/// for each core.
pub fn default_search_permits(setting: Option<usize>, cores: Option<usize>) -> (r: SearchPermits)
    ensures
        r.wf(),
        r.left() == r.all(),
        r.all() == (match setting {
            Some(n) => if n > 0 {
                n
            } else {
                match cores {
                    Some(c) => c,
                    None => 8,
                }
            },
            None => match cores {
                Some(c) => c,
                None => 8,
            },
        }),
{
    let fallback: usize = match cores {
        Some(c) => c,
        None => 8,
    };
    let n: usize = match setting {
        Some(n) => if n > 0 {
            n
        } else {
            fallback
        },
        None => fallback,
    };
    SearchPermits::new(n)
}

/// The contexts to make beforehand: what the setting says, else two for each search that may
/// run, or three where two engines race, and at most sixteen.
pub fn prewarm_contexts(setting: Option<usize>, permits: usize, race: bool) -> (r: usize)
    ensures
        r == (match setting {
            Some(n) => n as int,
            None => {
                let want = permits * if race { 3int } else { 2int };
                if want > 16 { 16 } else { want }
            },
        }),
{
    match setting {
        Some(n) => n,
        None => {
            let each: usize = if race { 3 } else { 2 };
            if permits >= 16 {
                16
            } else {
                let want: usize = permits * each;
                if want > 16 {
                    16
                } else {
                    want
                }
            }
        },
    }
}

/// Hedges only use spare permits: after one got its permit, more than a quarter of all permits is
/// free, so a request still gets one.
pub proof fn law_hedges_leave_room(before: SearchPermits, after: SearchPermits, granted: bool)
    requires
        before.wf(),
        granted == (before.left() > 0 && before.left() - 1 > before.all() / 4),
        after.all() == before.all(),
        after.left() == (if granted { before.left() - 1 } else { before.left() as int }),
    ensures
        granted ==> 4 * after.left() > after.all() && after.left() > 0,
        !granted ==> after.left() == before.left(),
{
}

/// No context is lost: once a search has given back the one or the two that it took, as many wait
/// as before, or as many as it needed where fewer waited.
pub proof fn law_contexts_come_back<C>(stock: (Seq<C>, u64), fwd: C, bwd: C)
    ensures
        (stock_after(None::<C>, stock).0 + held(Some(fwd))).len() == (if stock.0.len() < 1 { 1 } else { stock.0.len() }),
        (stock_after(None::<C>, stock_after(None::<C>, stock)).0 + held(Some(fwd)) + held(Some(bwd))).len() == (if stock.0.len()
            < 2 {
            2
        } else {
            stock.0.len()
        }),
{
}

/// A search keeps the context that it has; else it gets the one that was given back last, which leaves the
/// pool; and a new one is made, and counted, only where none waits.
pub proof fn law_waiting_contexts_are_used<C, F: Fn() -> C>(have: Option<C>, stock: (Seq<C>, u64), make: F, got: C)
    requires
        supplied(have, stock, make, got),
    ensures
        have is Some ==> got == have->0 && stock_after(have, stock) == stock,
        have is None && stock.0.len() > 0 ==> got == stock.0[stock.0.len() - 1] && stock_after(have, stock).0 == stock.0.take(
            stock.0.len() - 1,
        ) && stock_after(have, stock).1 == stock.1,
        have is None && stock.0.len() == 0 ==> call_ensures(make, (), got) && stock_after(have, stock).0.len() == 0 && (stock.1
            < u64::MAX ==> stock_after(have, stock).1 == stock.1 + 1),
{
    if stock.0.len() > 0 {
        assert(stock.0.drop_last() =~= stock.0.take(stock.0.len() - 1));
    }
}

}
