use vstd::prelude::*;

verus! {

/// The byte that ends a line.
pub const NEWLINE: u8 = 10;

/// True when `s` holds no line terminator.
pub open spec fn has_no_newline(s: Seq<u8>) -> bool {
    forall|k: int| 0 <= k < s.len() ==> s[k] != NEWLINE
}

/// The index of the first terminator at or after `i`, or `s.len()` if none.
pub open spec fn line_end(s: Seq<u8>, i: nat) -> nat
    decreases s.len() - i,
{
    if i >= s.len() {
        s.len()
    } else if s[i as int] == NEWLINE {
        i
    } else {
        line_end(s, i + 1)
    }
}

/// The complete lines of `s`, terminators stripped, in order. Bytes after
/// the last terminator form a partial line, which is not included.
pub open spec fn lines_of(s: Seq<u8>) -> Seq<Seq<u8>>
    decreases s.len(),
{
    let j = line_end(s, 0);
    if j < s.len() {
        seq![s.subrange(0, j as int)] + lines_of(s.subrange(j + 1int, s.len() as int))
    } else {
        seq![]
    }
}

/// The bytes of `ls`, each line followed by its terminator.
pub open spec fn joined(ls: Seq<Seq<u8>>) -> Seq<u8>
    decreases ls.len(),
{
    if ls.len() == 0 {
        seq![]
    } else {
        ls[0] + seq![NEWLINE] + joined(ls.drop_first())
    }
}

/// True when no line of `ls` holds a terminator.
pub open spec fn all_without_newline(ls: Seq<Seq<u8>>) -> bool {
    forall|k: int| 0 <= k < ls.len() ==> has_no_newline(#[trigger] ls[k])
}

/// `line_end` is the first terminator at or after `i`.
pub proof fn lemma_line_end_bounds(s: Seq<u8>, i: nat)
    requires
        i <= s.len(),
    ensures
        i <= line_end(s, i) <= s.len(),
        forall|k: int| i <= k < line_end(s, i) ==> s[k] != NEWLINE,
        line_end(s, i) < s.len() ==> s[line_end(s, i) as int] == NEWLINE,
    decreases s.len() - i,
{
    if i < s.len() && s[i as int] != NEWLINE {
        lemma_line_end_bounds(s, i + 1);
    }
}

/// A terminator-free run from `i` ending at `j` (at a terminator or the end)
/// makes `j` the line end.
pub proof fn lemma_line_end_at(s: Seq<u8>, i: nat, j: nat)
    requires
        i <= j <= s.len(),
        forall|k: int| i <= k < j ==> s[k] != NEWLINE,
        j == s.len() || s[j as int] == NEWLINE,
    ensures
        line_end(s, i) == j,
    decreases j - i,
{
    if i < j {
        lemma_line_end_at(s, i + 1, j);
    }
}

/// Joining distributes over concatenation.
pub proof fn lemma_joined_append(a: Seq<Seq<u8>>, b: Seq<Seq<u8>>)
    ensures
        joined(a + b) == joined(a) + joined(b),
    decreases a.len(),
{
    if a.len() == 0 {
        assert(a + b =~= b);
        assert(joined(a) + joined(b) =~= joined(b));
    } else {
        assert((a + b).drop_first() =~= a.drop_first() + b);
        lemma_joined_append(a.drop_first(), b);
        assert((a + b)[0] == a[0]);
        assert(joined(a + b) =~= joined(a) + joined(b));
    }
}

/// Splitting the bytes of terminator-free lines, followed by any `t`, gives
/// back those lines and then the lines of `t`.
pub proof fn lemma_lines_of_joined(ls: Seq<Seq<u8>>, t: Seq<u8>)
    requires
        all_without_newline(ls),
    ensures
        lines_of(joined(ls) + t) == ls + lines_of(t),
    decreases ls.len(),
{
    if ls.len() == 0 {
        assert(joined(ls) + t =~= t);
        assert(ls + lines_of(t) =~= lines_of(t));
    } else {
        let l = ls[0];
        let rest = ls.drop_first();
        let s = joined(ls) + t;
        assert(s =~= l + seq![NEWLINE] + (joined(rest) + t));
        assert(has_no_newline(ls[0]));
        lemma_line_end_at(s, 0, l.len());
        assert(s.subrange(0, l.len() as int) =~= l);
        assert(s.subrange(l.len() + 1int, s.len() as int) =~= joined(rest) + t);
        assert(all_without_newline(rest)) by {
            assert forall|k: int| 0 <= k < rest.len() implies has_no_newline(#[trigger] rest[k]) by {
                assert(rest[k] == ls[k + 1]);
            }
        }
        lemma_lines_of_joined(rest, t);
        assert(ls =~= seq![l] + rest);
        assert(seq![l] + (rest + lines_of(t)) =~= ls + lines_of(t));
    }
}

/// The complete lines of `s` hold no terminator; joined again they are the
/// front of `s`, and what follows them is terminator-free.
pub proof fn lemma_lines_of_split(s: Seq<u8>)
    ensures
        all_without_newline(lines_of(s)),
        joined(lines_of(s)).len() <= s.len(),
        joined(lines_of(s)) == s.subrange(0, joined(lines_of(s)).len() as int),
        has_no_newline(s.subrange(joined(lines_of(s)).len() as int, s.len() as int)),
    decreases s.len(),
{
    lemma_line_end_bounds(s, 0);
    let j = line_end(s, 0);
    if j < s.len() {
        let l = s.subrange(0, j as int);
        let r = s.subrange(j + 1int, s.len() as int);
        lemma_lines_of_split(r);
        let ls = lines_of(s);
        assert(ls == seq![l] + lines_of(r));
        assert(ls.drop_first() =~= lines_of(r));
        assert(joined(ls) == l + seq![NEWLINE] + joined(lines_of(r)));
        let n = joined(lines_of(r)).len();
        assert(joined(ls) =~= s.subrange(0, j + 1 + n as int));
        assert(s.subrange(j + 1 + n as int, s.len() as int) =~= r.subrange(n as int, r.len() as int));
        assert forall|k: int| 0 <= k < ls.len() implies has_no_newline(#[trigger] ls[k]) by {
            if k > 0 {
                assert(ls[k] == lines_of(r)[k - 1]);
            }
        }
    } else {
        assert(s.subrange(0, 0) =~= Seq::<u8>::empty());
        assert(s.subrange(0, s.len() as int) =~= s);
    }
}

/// A partial line is never a complete line: bytes without a terminator give
/// no line. Once its terminator arrives, the partial line `p` comes out whole
/// as the first complete line, followed by the lines of what comes after.
pub proof fn law_partial_line_waits(p: Seq<u8>, r: Seq<u8>)
    requires
        has_no_newline(p),
    ensures
        lines_of(p) == Seq::<Seq<u8>>::empty(),
        lines_of(p + seq![NEWLINE] + r) == seq![p] + lines_of(r),
{
    lemma_line_end_at(p, 0, p.len());
    let ls = seq![p];
    assert(joined(ls.drop_first()) == Seq::<u8>::empty()) by {
        assert(ls.drop_first().len() == 0);
    }
    assert(joined(ls) =~= p + seq![NEWLINE]);
    assert(all_without_newline(ls));
    lemma_lines_of_joined(ls, r);
    assert(joined(ls) + r =~= p + seq![NEWLINE] + r);
}

/// Growth loses and repeats no line: when the content starts with the bytes
/// of the lines forwarded so far (the cursor sits just after them), those
/// lines followed by the complete lines from the cursor on are exactly the
/// complete lines of the content, and the content again starts with the
/// bytes of all of them, so the next cycle begins right after the last one.
pub proof fn law_no_lost_lines(earlier: Seq<Seq<u8>>, content: Seq<u8>)
    requires
        all_without_newline(earlier),
        joined(earlier).len() <= content.len(),
        content.take(joined(earlier).len() as int) == joined(earlier),
    ensures
        earlier + lines_of(content.skip(joined(earlier).len() as int)) == lines_of(content),
        ({
            let all = earlier + lines_of(content.skip(joined(earlier).len() as int));
            &&& joined(all).len() <= content.len()
            &&& content.take(joined(all).len() as int) == joined(all)
        }),
{
    let n = joined(earlier).len() as int;
    let rest = content.skip(n);
    let fresh = lines_of(rest);
    assert(content =~= joined(earlier) + rest);
    lemma_lines_of_joined(earlier, rest);
    lemma_lines_of_split(rest);
    lemma_joined_append(earlier, fresh);
    let m = joined(fresh).len() as int;
    assert(content.take(n + m) =~= joined(earlier) + rest.take(m));
    assert(rest.take(m) =~= rest.subrange(0, m));
}

/// The bytes read in one cycle, from the cursor to the end of the file, and
/// how far into them the lines handed to the sink reach.
pub struct PendingLines {
    data: Vec<u8>,
    pos: usize,
}

impl PendingLines {
    pub closed spec fn data(&self) -> Seq<u8> {
        self.data@
    }

    /// Bytes taken up by the lines accepted so far, terminators included.
    pub closed spec fn spec_consumed(&self) -> nat {
        self.pos as nat
    }

    /// The lines accepted so far, in order.
    pub open spec fn forwarded(&self) -> Seq<Seq<u8>> {
        lines_of(self.data().take(self.spec_consumed() as int))
    }

    /// The complete lines not yet accepted, in order.
    pub open spec fn pending(&self) -> Seq<Seq<u8>> {
        lines_of(self.data().skip(self.spec_consumed() as int))
    }

    /// The accepted lines are exactly the front of the data.
    pub open spec fn wf(&self) -> bool {
        &&& self.spec_consumed() <= self.data().len()
        &&& joined(self.forwarded()) == self.data().take(self.spec_consumed() as int)
    }

    /// Accepted and pending lines together are all complete lines of the data,
    /// and the accepted ones fill exactly the consumed bytes.
    pub proof fn lemma_partition(&self)
        requires
            self.wf(),
        ensures
            lines_of(self.data()) == self.forwarded() + self.pending(),
            joined(self.forwarded()).len() == self.spec_consumed(),
            all_without_newline(self.forwarded()),
    {
        let n = self.spec_consumed() as int;
        lemma_lines_of_split(self.data().take(n));
        lemma_lines_of_joined(self.forwarded(), self.data().skip(n));
        assert(self.data().take(n) + self.data().skip(n) =~= self.data());
    }

    pub fn new(data: Vec<u8>) -> (r: PendingLines)
        ensures
            r.wf(),
            r.data() == data@,
            r.spec_consumed() == 0,
            r.forwarded() == Seq::<Seq<u8>>::empty(),
            r.pending() == lines_of(data@),
    {
        let r = PendingLines { data, pos: 0 };
        proof {
            let e = r.data().take(0);
            assert(e =~= Seq::<u8>::empty());
            assert(lines_of(e) =~= Seq::<Seq<u8>>::empty());
            assert(joined(lines_of(e)) =~= e);
            assert(r.data().skip(0) =~= data@);
        }
        r
    }

    pub fn consumed(&self) -> (r: usize)
        ensures
            r == self.spec_consumed(),
    {
        self.pos
    }

    /// The index of the first terminator at or after `from`, or the length.
    fn find_newline(&self, from: usize) -> (i: usize)
        requires
            from <= self.data().len(),
        ensures
            from <= i <= self.data().len(),
            forall|k: int| from <= k < i ==> self.data()[k] != NEWLINE,
            i < self.data().len() ==> self.data()[i as int] == NEWLINE,
    {
        let mut i = from;
        while i < self.data.len() && self.data[i] != NEWLINE
            invariant
                from <= i <= self.data().len(),
                forall|k: int| from <= k < i ==> self.data()[k] != NEWLINE,
            decreases self.data().len() - i,
        {
            i = i + 1;
        }
        i
    }

    /// Where the next pending line ends in the data, and that it is the
    /// first pending line.
    proof fn lemma_next_line(&self, i: usize)
        requires
            self.wf(),
            self.spec_consumed() <= i <= self.data().len(),
            forall|k: int| self.spec_consumed() <= k < i ==> self.data()[k] != NEWLINE,
            i < self.data().len() ==> self.data()[i as int] == NEWLINE,
        ensures
            i == self.data().len() ==> self.pending().len() == 0,
            i < self.data().len() ==> self.pending()
                == seq![self.data().subrange(self.spec_consumed() as int, i as int)]
                + lines_of(self.data().skip(i + 1)),
    {
        let p = self.spec_consumed() as int;
        let rest = self.data().skip(p);
        let j = (i - p) as nat;
        lemma_line_end_at(rest, 0, j);
        if i < self.data().len() {
            assert(rest.subrange(0, j as int) =~= self.data().subrange(p, i as int));
            assert(rest.subrange(j + 1int, rest.len() as int) =~= self.data().skip(i + 1));
        }
    }

    /// The next complete line not yet accepted, without its terminator.
    pub fn next_line(&self) -> (r: Option<Vec<u8>>)
        requires
            self.wf(),
        ensures
            r is None <==> self.pending().len() == 0,
            r matches Some(l) ==> l@ == self.pending()[0],
    {
        let i = self.find_newline(self.pos);
        proof {
            self.lemma_next_line(i);
        }
        if i == self.data.len() {
            return None;
        }
        let mut line: Vec<u8> = Vec::new();
        let mut k = self.pos;
        while k < i
            invariant
                self.spec_consumed() <= k <= i < self.data().len(),
                line@ == self.data().subrange(self.spec_consumed() as int, k as int),
            decreases i - k,
        {
            line.push(self.data[k]);
            k = k + 1;
            proof {
                assert(line@ =~= self.data().subrange(self.spec_consumed() as int, k as int));
            }
        }
        Some(line)
    }

    /// Records that the sink accepted the next pending line.
    pub fn accept(&mut self)
        requires
            old(self).wf(),
            old(self).pending().len() > 0,
        ensures
            final(self).wf(),
            final(self).data() == old(self).data(),
            final(self).forwarded() == old(self).forwarded().push(old(self).pending()[0]),
            final(self).pending() == old(self).pending().drop_first(),
            final(self).spec_consumed() == old(self).spec_consumed() + old(self).pending()[0].len()
                + 1,
    {
        let i = self.find_newline(self.pos);
        let ghost p = self.spec_consumed() as int;
        let ghost fw = self.forwarded();
        let ghost l = self.data().subrange(p, i as int);
        proof {
            self.lemma_next_line(i);
            self.lemma_partition();
            assert(i < self.data.len());
        }
        self.pos = i + 1;
        proof {
            let d = self.data();
            assert(has_no_newline(l));
            assert(all_without_newline(fw.push(l))) by {
                assert forall|k: int| 0 <= k < fw.push(l).len() implies has_no_newline(
                    #[trigger] fw.push(l)[k],
                ) by {
                    if k < fw.len() {
                        assert(fw.push(l)[k] == fw[k]);
                    }
                }
            }
            let one = seq![l];
            assert(joined(one.drop_first()) == Seq::<u8>::empty()) by {
                assert(one.drop_first().len() == 0);
            }
            assert(fw.push(l) =~= fw + one);
            lemma_joined_append(fw, one);
            assert(d.take(i + 1) =~= d.take(p) + (l + seq![NEWLINE] + Seq::<u8>::empty()));
            lemma_lines_of_joined(fw.push(l), Seq::<u8>::empty());
            assert(lines_of(Seq::<u8>::empty()) =~= Seq::<Seq<u8>>::empty());
            assert(joined(fw.push(l)) + Seq::<u8>::empty() =~= joined(fw.push(l)));
            assert(fw.push(l) + Seq::<Seq<u8>>::empty() =~= fw.push(l));
            assert(old(self).pending().drop_first() =~= lines_of(d.skip(i + 1)));
        }
    }
}

} // verus!
