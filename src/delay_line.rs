use vstd::prelude::*;

verus! {

/// A fixed-length delay line: a circular buffer with one write cursor.
///
/// Seen from outside it is a queue of constant length `n`. The value at the
/// front was written `n` pushes ago; `push` drops the front and appends the new
/// value at the back. Comb and allpass filters are both built on this one
/// type, so the cursor arithmetic lives here only.
pub struct DelayLine<T> {
    buf: Vec<T>,
    pos: usize,
}

/// Index into the storage of the `k`-th oldest element, for a cursor at `pos`
/// over `n` slots.
spec fn ring_index(pos: int, k: int, n: int) -> int {
    if pos + k < n {
        pos + k
    } else {
        pos + k - n
    }
}

/// What a line holding `q` holds after `xs` is pushed one value at a time.
pub open spec fn pushed<T>(q: Seq<T>, xs: Seq<T>) -> Seq<T>
    decreases xs.len(),
{
    if xs.len() == 0 {
        q
    } else {
        pushed(q.drop_first().push(xs[0]), xs.drop_first())
    }
}

/// A delay line delays by exactly its length: after pushing `xs` into a line
/// holding `q`, it holds the last `q.len()` values of `q` followed by `xs`.
/// So the value pushed `k`-th reaches the front after `q.len() - 1` more pushes.
pub proof fn lemma_pushed_is_window<T>(q: Seq<T>, xs: Seq<T>)
    requires
        q.len() > 0,
    ensures
        pushed(q, xs) == (q + xs).subrange(xs.len() as int, (xs.len() + q.len()) as int),
    decreases xs.len(),
{
    if xs.len() == 0 {
        assert((q + xs).subrange(0, q.len() as int) =~= q);
    } else {
        let q2 = q.drop_first().push(xs[0]);
        let xs2 = xs.drop_first();
        lemma_pushed_is_window(q2, xs2);
        assert((q2 + xs2).subrange(xs2.len() as int, (xs2.len() + q2.len()) as int) =~= (q + xs).subrange(
            xs.len() as int,
            (xs.len() + q.len()) as int,
        ));
    }
}

impl<T> View for DelayLine<T> {
    type V = Seq<T>;

    /// The contents, oldest first.
    closed spec fn view(&self) -> Seq<T> {
        Seq::new(self.buf@.len(), |k: int| self.buf@[ring_index(self.pos as int, k, self.buf@.len() as int)])
    }
}

impl<T> DelayLine<T> {
    /// At least one slot, and the cursor on one of them.
    pub closed spec fn wf(&self) -> bool {
        0 < self.buf@.len() && self.pos < self.buf@.len()
    }
}

impl<T: Copy> DelayLine<T> {
    /// A delay line of `len` slots, each holding `fill`.
    pub fn new(len: usize, fill: T) -> (r: Self)
        requires
            len > 0,
        ensures
            r.wf(),
            r@ == Seq::new(len as nat, |k: int| fill),
    {
        let mut buf: Vec<T> = Vec::with_capacity(len);
        let mut i: usize = 0;
        while i < len
            invariant
                i <= len,
                buf@ == Seq::new(i as nat, |k: int| fill),
            decreases len - i,
        {
            buf.push(fill);
            i = i + 1;
        }
        let r = DelayLine { buf, pos: 0 };
        assert(r@ =~= Seq::new(len as nat, |k: int| fill));
        r
    }

    /// Number of slots; fixed for the life of the line.
    pub fn len(&self) -> (r: usize)
        requires
            self.wf(),
        ensures
            r == self@.len(),
            r > 0,
    {
        self.buf.len()
    }

    /// The oldest value: the one written `len()` pushes ago.
    pub fn front(&self) -> (r: T)
        requires
            self.wf(),
        ensures
            self@.len() > 0,
            r == self@[0],
    {
        self.buf[self.pos]
    }

    /// Overwrites the oldest value with `x` and moves the cursor on by one.
    pub fn push(&mut self, x: T)
        requires
            old(self).wf(),
        ensures
            final(self).wf(),
            final(self)@ == old(self)@.drop_first().push(x),
    {
        let n = self.buf.len();
        let p = self.pos;
        let ghost before = self@;
        self.buf.set(p, x);
        self.pos = if p + 1 == n { 0 } else { p + 1 };
        assert(self@ =~= before.drop_first().push(x));
    }

    /// Sets every slot to `v`, keeping the length.
    pub fn fill(&mut self, v: T)
        requires
            old(self).wf(),
        ensures
            final(self).wf(),
            final(self)@ == Seq::new(old(self)@.len(), |k: int| v),
    {
        let n = self.buf.len();
        let mut i: usize = 0;
        while i < n
            invariant
                n == self.buf@.len(),
                0 < n,
                self.pos < n,
                i <= n,
                forall|j: int| 0 <= j < i ==> self.buf@[j] == v,
            decreases n - i,
        {
            self.buf.set(i, v);
            i = i + 1;
        }
        assert(self@ =~= Seq::new(n as nat, |k: int| v));
    }
}

} // verus!
