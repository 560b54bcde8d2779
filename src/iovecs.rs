//! Vectored I/O views over borrowed byte slices.
//!
//! A list of buffer descriptors can be bounded to a byte length: the head
//! then covers exactly that many bytes and the rest stays recoverable as the
//! tail, without copying any byte.

use vstd::prelude::*;

verus! {

broadcast use Seq::lemma_flatten_singleton;

/// A thin wrapper around a byte slice for vectored I/O.
#[derive(Debug)]
pub struct IoVec<T> {
    inner: T,
}

impl<'a> IoVec<&'a [u8]> {
    /// The bytes this descriptor covers.
    pub closed spec fn bytes(&self) -> Seq<u8> {
        self.inner@
    }

    /// Wraps an immutable slice.
    pub fn from_slice(buf: &'a [u8]) -> (r: Self)
        ensures
            r.bytes() == buf@,
    {
        IoVec { inner: buf }
    }

    /// Returns the wrapped slice.
    pub fn as_slice(&self) -> (r: &'a [u8])
        ensures
            r@ == self.bytes(),
    {
        self.inner
    }
}

impl<'a> IoVec<&'a mut [u8]> {
    /// The bytes this descriptor covers.
    pub closed spec fn bytes(&self) -> Seq<u8> {
        self.inner@
    }

    /// Wraps a mutable slice.
    pub fn from_mut_slice(buf: &'a mut [u8]) -> (r: Self)
        ensures
            r.bytes() == old(buf)@,
    {
        IoVec { inner: buf }
    }

    /// Returns the wrapped bytes for reading.
    pub fn as_slice(&self) -> (r: &[u8])
        ensures
            r@ == self.bytes(),
    {
        self.inner
    }

    /// Returns the wrapped bytes for writing.
    pub fn as_mut_slice(&mut self) -> (r: &mut [u8])
        ensures
            r@ == old(self).bytes(),
            final(self).bytes() == final(r)@,
    {
        self.inner
    }
}

/// Where a bounded view was cut.
#[derive(Debug)]
struct Split<'s> {
    /// Index of the last buffer of the head.
    pos: usize,
    /// The rest of that buffer, when the cut fell inside it.
    second: Option<&'s [u8]>,
}

/// A view of a list of immutable buffers, possibly cut at a byte boundary
/// into a head and a tail.
#[derive(Debug)]
pub struct IoVecs<'s> {
    bufs: Vec<IoVec<&'s [u8]>>,
    /// Index of the first buffer of the head that was not consumed.
    start: usize,
    split: Option<Split<'s>>,
}

impl<'s> IoVecs<'s> {
    spec fn head_end(&self) -> int {
        match self.split {
            Some(sp) => sp.pos + 1,
            None => self.bufs@.len() as int,
        }
    }

    fn head_end_exec(&self) -> (r: usize)
        requires
            self.wf(),
        ensures
            r == self.head_end(),
    {
        let n = self.bufs.len();
        match &self.split {
            Some(sp) => {
                assert(self.head_end() == sp.pos + 1);
                sp.pos + 1
            },
                None => n,
        }
    }

    /// The view's indices stay within its buffer list.
    pub closed spec fn wf(&self) -> bool {
        self.start <= self.head_end() <= self.bufs@.len()
    }

    /// The buffers of the head, as byte sequences.
    pub closed spec fn head(&self) -> Seq<Seq<u8>> {
        byte_seqs(self.bufs@).subrange(self.start as int, self.head_end())
    }

    /// The buffers beyond the cut, as byte sequences.
    pub closed spec fn tail(&self) -> Seq<Seq<u8>> {
        match self.split {
            Some(sp) => {
                let rest = byte_seqs(self.bufs@).skip(sp.pos + 1);
                match sp.second {
                    Some(sec) => seq![sec@] + rest,
                    None => rest,
                }
            },
            None => Seq::empty(),
        }
    }

    /// Creates a view whose head covers the first `max_len` bytes of `bufs`,
    /// or all of them when there are fewer. A buffer in which the bound falls
    /// is cut in two, and its second part opens the tail.
    pub fn bounded(bufs: Vec<IoVec<&'s [u8]>>, max_len: usize) -> (r: Self)
        requires
            max_len > 0,
        ensures
            r.wf(),
            r.head() == bounded_head(byte_seqs(bufs@), max_len as int),
            r.tail() == bounded_tail(byte_seqs(bufs@), max_len as int),
            max_len <= byte_seqs(bufs@).flatten().len() ==> {
                &&& r.head().flatten() == byte_seqs(bufs@).flatten().take(max_len as int)
                &&& r.tail().flatten() == byte_seqs(bufs@).flatten().skip(max_len as int)
            },
            max_len > byte_seqs(bufs@).flatten().len() ==> {
                &&& r.head() == byte_seqs(bufs@)
                &&& r.tail().len() == 0
            },
    {
        let ghost all = byte_seqs(bufs@);
        proof {
            lemma_bounded_head_flatten(all, max_len as int);
            lemma_bounded_tail_flatten(all, max_len as int);
        }
        let mut list = bufs;
        let mut acc: usize = 0;
        let mut i: usize = 0;
        assert(all.skip(0) =~= all);
        assert(all.take(0) + bounded_head(all, max_len as int) =~= bounded_head(all, max_len as int));
        while i < list.len()
            invariant
                i <= list@.len(),
                byte_seqs(list@) == all,
                byte_seqs(bufs@) == all,
                max_len <= all.flatten().len() ==> {
                    &&& bounded_head(all, max_len as int).flatten() == all.flatten().take(max_len as int)
                    &&& bounded_tail(all, max_len as int).flatten() == all.flatten().skip(max_len as int)
                },
                max_len > all.flatten().len() ==> {
                    &&& bounded_head(all, max_len as int) == all
                    &&& bounded_tail(all, max_len as int).len() == 0
                },
                acc < max_len,
                bounded_head(all, max_len as int) == all.take(i as int) + bounded_head(
                    all.skip(i as int),
                    max_len - acc,
                ),
                bounded_tail(all, max_len as int) == bounded_tail(all.skip(i as int), max_len - acc),
            decreases list@.len() - i,
        {
            let len = list[i].as_slice().len();
            let ghost rest = all.skip(i as int);
            assert(rest[0] == all[i as int]);
            assert(rest.drop_first() =~= all.skip(i + 1));
            assert(all.take(i + 1) =~= all.take(i as int) + seq![all[i as int]]);
            if len >= max_len - acc {
                let cut = max_len - acc;
                assert(bounded_head(rest, cut as int) == seq![rest[0].take(cut as int)]);
                assert(bounded_head(all, max_len as int) == all.take(i as int) + seq![all[i as int].take(cut as int)]);
                if cut == len {
                    assert(all[i as int].take(cut as int) =~= all[i as int]);
                    assert(bounded_tail(rest, cut as int) == rest.drop_first());
                    assert(bounded_head(all, max_len as int) =~= all.take(i + 1));
                    assert(bounded_tail(all, max_len as int) =~= all.skip(i + 1));
                    if i + 1 == list.len() {
                        assert(all.skip(i + 1) =~= Seq::<Seq<u8>>::empty());
                        assert(all.take(i + 1) =~= all);
                        let r = IoVecs { bufs: list, start: 0, split: None };
                        assert(r.head() =~= all);
                        return r;
                    }
                    let r = IoVecs { bufs: list, start: 0, split: Some(Split { pos: i, second: None }) };
                    assert(r.head() =~= all.take(i + 1));
                    return r;
                }
                assert(bounded_tail(rest, cut as int) == seq![rest[0].skip(cut as int)] + rest.drop_first());
                let whole = list[i].as_slice();
                let (first, second) = whole.split_at(cut);
                list.set(i, IoVec::from_slice(first));
                let r = IoVecs { bufs: list, start: 0, split: Some(Split { pos: i, second: Some(second) }) };
                assert(byte_seqs(r.bufs@) =~= all.update(i as int, all[i as int].take(cut as int)));
                assert(r.head() =~= all.take(i as int) + seq![all[i as int].take(cut as int)]);
                assert(byte_seqs(r.bufs@).skip(i + 1) =~= all.skip(i + 1));
                return r;
            }
            acc = acc + len;
            i = i + 1;
            assert(all.take(i - 1) + (seq![all[i - 1]] + bounded_head(all.skip(i as int), max_len - acc))
                =~= all.take(i as int) + bounded_head(all.skip(i as int), max_len - acc));
        }
        assert(all.take(i as int) =~= all);
        let r = IoVecs { bufs: list, start: 0, split: None };
        assert(r.head() =~= all);
        assert(all.skip(i as int) =~= Seq::<Seq<u8>>::empty());
        assert(bounded_tail(all.skip(i as int), max_len - acc) =~= Seq::<Seq<u8>>::empty());
        assert(bounded_head(all.skip(i as int), max_len - acc) =~= Seq::<Seq<u8>>::empty());
        assert(bounded_head(all, max_len as int) =~= all);
        r
    }

    /// Creates a view whose head is the whole list and whose tail is empty.
    pub fn unbounded(bufs: Vec<IoVec<&'s [u8]>>) -> (r: Self)
        ensures
            r.wf(),
            r.head() == byte_seqs(bufs@),
            r.tail().len() == 0,
    {
        let r = IoVecs { bufs, start: 0, split: None };
        assert(r.head() =~= byte_seqs(r.bufs@));
        r
    }

    /// Returns the buffers of the head.
    pub fn as_slice(&self) -> (r: &[IoVec<&'s [u8]>])
        requires
            self.wf(),
        ensures
            byte_seqs(r@) == self.head(),
    {
        let end = self.head_end_exec();
        let r = &self.bufs.as_slice()[self.start..end];
        assert(byte_seqs(r@) =~= self.head());
        r
    }

    /// Consumes the first `n` bytes of the head: buffers that lie wholly
    /// within them are dropped and the next one is shortened. The tail is
    /// left as it was.
    pub fn advance(&mut self, n: usize)
        requires
            old(self).wf(),
            n <= old(self).head().flatten().len(),
        ensures
            final(self).wf(),
            final(self).head() == advanced(old(self).head(), n as int),
            final(self).head().flatten() == old(self).head().flatten().skip(n as int),
            final(self).tail() == old(self).tail(),
    {
        let ghost h = self.head();
        proof {
            lemma_drop_front_flatten(h, n as int);
        }
        if n == 0 {
            assert(h.flatten().skip(0) =~= h.flatten());
            return;
        }
        let end = self.head_end_exec();
        let ghost start = self.start as int;
        let mut removed: usize = 0;
        let mut k: usize = self.start;
        let mut done = false;
        assert(h.skip(0) =~= h);
        while k < end && !done
            invariant
                self.wf(),
                self.head() == h,
                self.start == start,
                end == self.head_end(),
                start <= k <= end,
                removed <= n,
                n - removed <= h.skip(k - start).flatten().len(),
                drop_front(h, n as int) == drop_front(h.skip(k - start), n - removed),
                done ==> k < end && h[k - start].len() > n - removed,
            decreases end - k + if done { 0int } else { 1int },
        {
            let len = self.bufs[k].as_slice().len();
            let ghost rest = h.skip(k - start);
            assert(rest[0] == h[k - start]);
            assert(rest.drop_first() =~= h.skip(k - start + 1));
            assert(rest.flatten() == rest[0] + rest.drop_first().flatten());
            if len > n - removed {
                done = true;
            } else {
                removed = removed + len;
                k = k + 1;
            }
        }
        let left = n - removed;
        let ghost rest = h.skip(k - start);
        let ghost old_tail = self.tail();
        self.start = k;
        if left > 0 {
            assert(rest.len() > 0);
            let buf = self.bufs[k].as_slice();
            let (_, second) = buf.split_at(left);
            self.bufs.set(k, IoVec::from_slice(second));
            assert(self.head() =~= rest.update(0, rest[0].skip(left as int)));
        } else {
            assert(self.head() =~= rest);
            proof {
                if rest.len() > 0 {
                    assert(rest[0].skip(0) =~= rest[0]);
                    assert(rest.update(0, rest[0].skip(0)) =~= rest);
                }
            }
        }
        assert(self.tail() =~= old_tail);
    }

    /// Consumes the view and returns what lies beyond the cut: the rest of
    /// the buffer that was cut, if any, followed by the untouched buffers.
    /// An uncut view has an empty tail.
    pub fn into_tail(self) -> (r: Vec<IoVec<&'s [u8]>>)
        requires
            self.wf(),
        ensures
            byte_seqs(r@) == self.tail(),
    {
        let mut out: Vec<IoVec<&'s [u8]>> = Vec::new();
        match self.split {
            Some(sp) => {
                match sp.second {
                    Some(sec) => out.push(IoVec::from_slice(sec)),
                    None => {},
                }
                let ghost first = byte_seqs(out@);
                let total = self.bufs.len();
                let mut j: usize = sp.pos + 1;
                while j < self.bufs.len()
                    invariant
                        sp.pos + 1 <= j <= self.bufs@.len(),
                        byte_seqs(out@) == first + byte_seqs(self.bufs@).subrange(
                            sp.pos + 1,
                            j as int,
                        ),
                    decreases self.bufs@.len() - j,
                {
                    let ghost before = byte_seqs(out@);
                    out.push(IoVec::from_slice(self.bufs[j].as_slice()));
                    assert(byte_seqs(out@) =~= before.push(byte_seqs(self.bufs@)[j as int]));
                    j = j + 1;
                    assert(byte_seqs(out@) =~= first + byte_seqs(self.bufs@).subrange(
                        sp.pos + 1,
                        j as int,
                    ));
                }
                assert(byte_seqs(out@) =~= self.tail());
            },
            None => {
                assert(byte_seqs(out@) =~= self.tail());
            },
        }
        out
    }
}

/// Consumes the first `n` bytes of a list of mutable buffers: buffers that
/// lie wholly within them are dropped and the next one is shortened.
pub fn advance<'a>(bufs: Vec<IoVec<&'a mut [u8]>>, n: usize) -> (r: Vec<IoVec<&'a mut [u8]>>)
    requires
        n <= mut_byte_seqs(bufs@).flatten().len(),
    ensures
        mut_byte_seqs(r@) == advanced(mut_byte_seqs(bufs@), n as int),
        mut_byte_seqs(r@).flatten() == mut_byte_seqs(bufs@).flatten().skip(n as int),
{
    let ghost all = mut_byte_seqs(bufs@);
    proof {
        lemma_drop_front_flatten(all, n as int);
    }
    if n == 0 {
        assert(all.flatten().skip(0) =~= all.flatten());
        return bufs;
    }
    let mut bufs = bufs;
    let mut removed: usize = 0;
    let mut done = false;
    while bufs.len() > 0 && !done
        invariant
            removed <= n,
            n - removed <= mut_byte_seqs(bufs@).flatten().len(),
            drop_front(all, n as int) == drop_front(mut_byte_seqs(bufs@), n - removed),
            done ==> bufs@.len() > 0 && mut_byte_seqs(bufs@)[0].len() > n - removed,
        decreases bufs@.len() + if done { 0int } else { 1int },
    {
        let len = bufs[0].as_slice().len();
        let ghost cur = mut_byte_seqs(bufs@);
        assert(cur.flatten() == cur[0] + cur.drop_first().flatten());
        if len > n - removed {
            done = true;
        } else {
            let _ = bufs.remove(0);
            assert(mut_byte_seqs(bufs@) =~= cur.drop_first());
            removed = removed + len;
        }
    }
    let left = n - removed;
    let ghost cur = mut_byte_seqs(bufs@);
    if left > 0 {
        assert(bufs@.len() > 0);
        let first = bufs.remove(0);
        let s = first.inner;
        let (_, second) = s.split_at_mut(left);
        bufs.insert(0, IoVec::from_mut_slice(second));
        assert(mut_byte_seqs(bufs@) =~= cur.update(0, cur[0].skip(left as int)));
    } else if bufs.len() > 0 {
        assert(cur[0].skip(0) =~= cur[0]);
        assert(cur.update(0, cur[0].skip(0)) =~= cur);
    }
    bufs
}

/// The bytes of each descriptor in a list.
pub open spec fn byte_seqs<'a>(v: Seq<IoVec<&'a [u8]>>) -> Seq<Seq<u8>> {
    v.map_values(|b: IoVec<&'a [u8]>| b.bytes())
}

/// The bytes of each mutable descriptor in a list.
pub open spec fn mut_byte_seqs<'a>(v: Seq<IoVec<&'a mut [u8]>>) -> Seq<Seq<u8>> {
    v.map_values(|b: IoVec<&'a mut [u8]>| b.bytes())
}

/// The descriptors that a view bounded to `n` bytes keeps as its head: whole
/// buffers while they fit, then the front part of the buffer where the `n`th
/// byte falls.
pub open spec fn bounded_head(s: Seq<Seq<u8>>, n: int) -> Seq<Seq<u8>>
    decreases s.len(),
{
    if s.len() == 0 {
        s
    } else if s[0].len() >= n {
        seq![s[0].take(n)]
    } else {
        seq![s[0]] + bounded_head(s.drop_first(), n - s[0].len())
    }
}

/// The descriptors beyond the first `n` bytes: the rest of the buffer that
/// was cut, if any, followed by the untouched buffers.
pub open spec fn bounded_tail(s: Seq<Seq<u8>>, n: int) -> Seq<Seq<u8>>
    decreases s.len(),
{
    if s.len() == 0 {
        s
    } else if s[0].len() > n {
        seq![s[0].skip(n)] + s.drop_first()
    } else if s[0].len() == n {
        s.drop_first()
    } else {
        bounded_tail(s.drop_first(), n - s[0].len())
    }
}

/// Consumes `n` bytes from the front of a descriptor list: every buffer that
/// lies wholly within them is dropped and the next one is shortened.
pub open spec fn drop_front(s: Seq<Seq<u8>>, n: int) -> Seq<Seq<u8>>
    decreases s.len(),
{
    if s.len() == 0 {
        s
    } else if s[0].len() <= n {
        drop_front(s.drop_first(), n - s[0].len())
    } else {
        s.update(0, s[0].skip(n))
    }
}

/// Advancing by zero bytes leaves a list as it is; any other advance is
/// `drop_front`.
pub open spec fn advanced(s: Seq<Seq<u8>>, n: int) -> Seq<Seq<u8>> {
    if n == 0 {
        s
    } else {
        drop_front(s, n)
    }
}

/// Flattening distributes over concatenation.
pub proof fn lemma_flatten_add(a: Seq<Seq<u8>>, b: Seq<Seq<u8>>)
    ensures
        (a + b).flatten() == a.flatten() + b.flatten(),
    decreases a.len(),
{
    if a.len() == 0 {
        assert(a + b =~= b);
        assert(a.flatten() + b.flatten() =~= b.flatten());
    } else {
        assert((a + b).drop_first() =~= a.drop_first() + b);
        lemma_flatten_add(a.drop_first(), b);
        assert((a + b).flatten() =~= a.flatten() + b.flatten());
    }
}

/// The head of a bounded list holds exactly the first `n` bytes, or all
/// of them when there are fewer.
pub proof fn lemma_bounded_head_flatten(s: Seq<Seq<u8>>, n: int)
    requires
        n >= 0,
    ensures
        n <= s.flatten().len() ==> bounded_head(s, n).flatten() == s.flatten().take(n),
        n > s.flatten().len() ==> bounded_head(s, n) == s,
    decreases s.len(),
{
    if s.len() == 0 {
    } else if s[0].len() >= n {
        let h = seq![s[0].take(n)];
        assert(h.drop_first() =~= Seq::<Seq<u8>>::empty());
        assert(h.flatten() =~= s[0].take(n));
        assert(s.flatten().take(n) =~= s[0].take(n));
    } else {
        let r = s.drop_first();
        assert(s.flatten() == s[0] + r.flatten());
        lemma_bounded_head_flatten(r, n - s[0].len());
        lemma_flatten_add(seq![s[0]], bounded_head(r, n - s[0].len()));
        let one = seq![s[0]];
        assert(one.drop_first() =~= Seq::<Seq<u8>>::empty());
        assert(one.flatten() =~= s[0]);
        if n <= s.flatten().len() {
            assert(s.flatten().take(n) =~= s[0] + r.flatten().take(n - s[0].len()));
        } else {
            assert(one + r =~= s);
        }
    }
}

/// The tail of a bounded list holds exactly the bytes beyond the first `n`,
/// and none when there are no more than `n`.
pub proof fn lemma_bounded_tail_flatten(s: Seq<Seq<u8>>, n: int)
    requires
        n >= 0,
    ensures
        n <= s.flatten().len() ==> bounded_tail(s, n).flatten() == s.flatten().skip(n),
        n > s.flatten().len() ==> bounded_tail(s, n).len() == 0,
    decreases s.len(),
{
    if s.len() == 0 {
    } else {
        let r = s.drop_first();
        assert(s.flatten() == s[0] + r.flatten());
        if s[0].len() > n {
            let one = seq![s[0].skip(n)];
            assert(one.drop_first() =~= Seq::<Seq<u8>>::empty());
            assert(one.flatten() =~= s[0].skip(n));
            lemma_flatten_add(one, r);
            assert(s.flatten().skip(n) =~= s[0].skip(n) + r.flatten());
        } else if s[0].len() == n {
            assert(s.flatten().skip(n) =~= r.flatten());
        } else {
            lemma_bounded_tail_flatten(r, n - s[0].len());
            if n <= s.flatten().len() {
                assert(s.flatten().skip(n) =~= r.flatten().skip(n - s[0].len()));
            }
        }
    }
}

/// Dropping `n` bytes from the front leaves exactly the bytes beyond them.
pub proof fn lemma_drop_front_flatten(s: Seq<Seq<u8>>, n: int)
    requires
        0 <= n <= s.flatten().len(),
    ensures
        drop_front(s, n).flatten() == s.flatten().skip(n),
    decreases s.len(),
{
    if s.len() == 0 {
    } else {
        let r = s.drop_first();
        assert(s.flatten() == s[0] + r.flatten());
        if s[0].len() <= n {
            lemma_drop_front_flatten(r, n - s[0].len());
            assert(s.flatten().skip(n) =~= r.flatten().skip(n - s[0].len()));
        } else {
            let u = s.update(0, s[0].skip(n));
            assert(u.drop_first() =~= r);
            assert(u.flatten() =~= s.flatten().skip(n));
        }
    }
}

/// Bounding a list of buffers to `n` bytes, with `n` positive and at most
/// the total length `t`, gives a head of `n` bytes and a tail of `t - n`
/// bytes, and the head followed by the tail gives back the whole byte
/// sequence.
pub proof fn lemma_bounded_round_trip(s: Seq<Seq<u8>>, n: int)
    requires
        0 < n <= s.flatten().len(),
    ensures
        bounded_head(s, n).flatten().len() == n,
        bounded_tail(s, n).flatten().len() == s.flatten().len() - n,
        bounded_head(s, n).flatten() + bounded_tail(s, n).flatten() == s.flatten(),
{
    lemma_bounded_head_flatten(s, n);
    lemma_bounded_tail_flatten(s, n);
    assert(s.flatten().take(n) + s.flatten().skip(n) =~= s.flatten());
}

} // verus!
