//! Templates: lines of text with numbered pad marks, padded mark by mark.

use vstd::prelude::*;
use crate::pad::{batch_ready, pad, pad_all, try_pad};
use crate::text::{
    chars_of, contains_text, decimal, decimal_of, find_text, first_occurrence,
    lemma_first_occurrence, lemma_lines_fit, lines_of, push_all, split_lines, total_len, views,
};

verus! {

/// The pad mark with the number `k`.
pub open spec fn pad_mark(k: nat) -> Seq<char> {
    seq!['(', 'p', 'a', 'd'] + decimal(k) + seq![')']
}

/// The line holds the pad mark with the number `k`.
pub open spec fn line_marked(line: Seq<char>, k: nat) -> bool {
    contains_text(line, pad_mark(k))
}

/// What stands before the first pad mark `k` of the line.
pub open spec fn before_mark(line: Seq<char>, k: nat) -> Seq<char> {
    line.take(first_occurrence(line, pad_mark(k)))
}

/// What stands after the first pad mark `k` of the line.
pub open spec fn after_mark(line: Seq<char>, k: nat) -> Seq<char> {
    line.skip(first_occurrence(line, pad_mark(k)) + pad_mark(k).len())
}

/// No line holds the pad mark `k`.
pub open spec fn run_done(pending: Seq<Seq<char>>, k: nat) -> bool {
    forall|i: int| 0 <= i < pending.len() ==> !line_marked(#[trigger] pending[i], k)
}

/// The batch that the first `n` lines hand to the padding function: for each line
/// with the mark, what is padded already followed by what stands before the mark.
pub open spec fn batch_of(
    pending: Seq<Seq<char>>,
    padded: Seq<Seq<char>>,
    k: nat,
    n: int,
) -> Seq<Seq<char>>
    decreases n,
{
    if n <= 0 {
        Seq::empty()
    } else {
        let rest = batch_of(pending, padded, k, n - 1);
        if line_marked(pending[n - 1], k) {
            rest.push(padded[n - 1] + before_mark(pending[n - 1], k))
        } else {
            rest
        }
    }
}

/// The lines after the mark `k` is resolved: each line with the mark keeps what
/// stands after it.
pub open spec fn next_pending(pending: Seq<Seq<char>>, k: nat) -> Seq<Seq<char>> {
    Seq::new(
        pending.len(),
        |i: int|
            if line_marked(pending[i], k) {
                after_mark(pending[i], k)
            } else {
                pending[i]
            },
    )
}

/// The padded parts after the mark `k` is resolved: each line with the mark takes
/// the text that the padding function returned for it, as far as it returned one.
pub open spec fn next_padded(
    pending: Seq<Seq<char>>,
    padded: Seq<Seq<char>>,
    k: nat,
    out: Seq<Seq<char>>,
) -> Seq<Seq<char>> {
    Seq::new(
        padded.len(),
        |i: int|
            if line_marked(pending[i], k) && batch_of(pending, padded, k, i).len() < out.len() {
                out[batch_of(pending, padded, k, i).len() as int]
            } else {
                padded[i]
            },
    )
}

/// The first `n` lines of the result, joined by newlines: each is what is left of
/// the line followed by its padded part.
pub open spec fn joined(pending: Seq<Seq<char>>, padded: Seq<Seq<char>>, n: int) -> Seq<char>
    decreases n,
{
    if n <= 0 {
        Seq::empty()
    } else if n == 1 {
        pending[0] + padded[0]
    } else {
        joined(pending, padded, n - 1) + seq!['\n'] + (pending[n - 1] + padded[n - 1])
    }
}

/// A pad mark has six characters at least.
pub proof fn lemma_mark_len(k: nat)
    ensures
        pad_mark(k).len() >= 6,
{
    lemma_decimal_len(k);
}

/// A number has one digit at least.
pub proof fn lemma_decimal_len(n: nat)
    ensures
        decimal(n).len() >= 1,
    decreases n,
{
    if n >= 10 {
        lemma_decimal_len(n / 10);
    }
}

/// Lines that are nowhere longer, and shorter by `d` in one place, hold `d` fewer
/// characters at least.
proof fn lemma_total_len_shrinks(a: Seq<Seq<char>>, b: Seq<Seq<char>>, w: int, d: nat)
    requires
        a.len() == b.len(),
        forall|i: int| 0 <= i < a.len() ==> (#[trigger] a[i]).len() <= b[i].len(),
        w < 0 || (w < a.len() && a[w].len() + d <= b[w].len()),
    ensures
        total_len(a) <= total_len(b),
        w >= 0 ==> total_len(a) + d <= total_len(b),
    decreases a.len(),
{
    if a.len() > 0 {
        let n = a.len() - 1;
        assert(a.last().len() <= b.last().len()) by {
            assert(a[n].len() <= b[n].len());
        }
        assert forall|i: int| 0 <= i < a.drop_last().len() implies (#[trigger] a.drop_last()[i]).len()
            <= b.drop_last()[i].len() by {
            assert(a[i].len() <= b[i].len());
        }
        if 0 <= w < n {
            lemma_total_len_shrinks(a.drop_last(), b.drop_last(), w, d);
        } else {
            lemma_total_len_shrinks(a.drop_last(), b.drop_last(), -1, d);
        }
    }
}

/// Resolving a mark that some line holds takes the mark's characters away.
pub proof fn lemma_next_pending_shrinks(pending: Seq<Seq<char>>, k: nat)
    requires
        !run_done(pending, k),
    ensures
        total_len(next_pending(pending, k)) + 6 <= total_len(pending),
{
    let next = next_pending(pending, k);
    let w = choose|i: int| 0 <= i < pending.len() && line_marked(#[trigger] pending[i], k);
    lemma_mark_len(k);
    assert forall|i: int| 0 <= i < next.len() implies (#[trigger] next[i]).len() + (if line_marked(
        pending[i],
        k,
    ) {
        6int
    } else {
        0int
    }) <= pending[i].len() by {
        if line_marked(pending[i], k) {
            lemma_first_occurrence(pending[i], pad_mark(k));
        }
    }
    assert(next[w].len() + 6 <= pending[w].len());
    lemma_total_len_shrinks(next, pending, w, 6);
}

/// The padding function may be called on every batch that the run hands to it,
/// whatever it returned for the batches before.
pub open spec fn run_ready<F: Fn(&[String]) -> Vec<String>>(
    f: F,
    pending: Seq<Seq<char>>,
    padded: Seq<Seq<char>>,
    k: nat,
) -> bool
    decreases total_len(pending),
{
    if run_done(pending, k) {
        true
    } else {
        proof {
            lemma_next_pending_shrinks(pending, k);
        }
        &&& forall|batch: &[String]|
            views(batch@) == batch_of(pending, padded, k, pending.len() as int)
                ==> #[trigger] call_requires(f, (batch,))
        &&& forall|batch: &[String], out: Vec<String>|
            views(batch@) == batch_of(pending, padded, k, pending.len() as int)
                && #[trigger] call_ensures(f, (batch,), out) ==> run_ready(
                f,
                next_pending(pending, k),
                next_padded(pending, padded, k, views(out@)),
                k + 1,
            )
    }
}

/// `result` is a text that the run can end in: the lines joined once no line holds
/// the current mark, and before that whatever the run ends in after the padding
/// function has answered the batch of the current mark.
pub open spec fn run_result<F: Fn(&[String]) -> Vec<String>>(
    f: F,
    pending: Seq<Seq<char>>,
    padded: Seq<Seq<char>>,
    k: nat,
    result: Seq<char>,
) -> bool
    decreases total_len(pending),
{
    if run_done(pending, k) {
        result == joined(pending, padded, pending.len() as int)
    } else {
        proof {
            lemma_next_pending_shrinks(pending, k);
        }
        exists|batch: &[String], out: Vec<String>|
            views(batch@) == batch_of(pending, padded, k, pending.len() as int)
                && #[trigger] call_ensures(f, (batch,), out) && run_result(
                f,
                next_pending(pending, k),
                next_padded(pending, padded, k, views(out@)),
                k + 1,
                result,
            )
    }
}


/// The views of a list of lines.
pub open spec fn line_views(v: Seq<Vec<char>>) -> Seq<Seq<char>> {
    Seq::new(v.len(), |i: int| v[i]@)
}

/// `n` empty texts.
pub open spec fn empty_texts(n: nat) -> Seq<Seq<char>> {
    Seq::new(n, |i: int| Seq::<char>::empty())
}

fn mark_of(k: usize) -> (v: Vec<char>)
    ensures
        v@ == pad_mark(k as nat),
{
    let mut v: Vec<char> = Vec::new();
    v.push('(');
    v.push('p');
    v.push('a');
    v.push('d');
    let digits = decimal_of(k);
    push_all(&mut v, &digits);
    v.push(')');
    proof {
        assert(v@ == pad_mark(k as nat));
    }
    v
}

fn append_head(s: &mut String, v: &Vec<char>, to: usize)
    requires
        to <= v@.len(),
    ensures
        final(s)@ == old(s)@ + v@.take(to as int),
{
    let mut i: usize = 0;
    assert(s@ == old(s)@ + v@.take(0));
    while i < to
        invariant
            i <= to <= v@.len(),
            s@ == old(s)@ + v@.take(i as int),
        decreases to - i,
    {
        s.push(v[i]);
        i = i + 1;
        assert(s@ == old(s)@ + v@.take(i as int));
    }
}

fn tail_of(v: &Vec<char>, from: usize) -> (r: Vec<char>)
    requires
        from <= v@.len(),
    ensures
        r@ == v@.skip(from as int),
{
    let mut r: Vec<char> = Vec::new();
    let mut i: usize = from;
    while i < v.len()
        invariant
            from <= i <= v@.len(),
            r@ == v@.subrange(from as int, i as int),
        decreases v@.len() - i,
    {
        r.push(v[i]);
        i = i + 1;
        assert(r@ == v@.subrange(from as int, i as int));
    }
    assert(v@.subrange(from as int, v@.len() as int) == v@.skip(from as int));
    r
}

/// A template on its way: the lines as far as they are unresolved, the padded part
/// of each, the number of the current mark, and the padding function.
pub struct Padder<F> where F: Fn(&[String]) -> Vec<String> {
    pending_lines: Vec<Vec<char>>,
    padded: Vec<String>,
    pad_i: usize,
    pad_mark: Vec<char>,
    pad_fn: F,
}

impl<F> Padder<F> where F: Fn(&[String]) -> Vec<String> {
    /// What is left of each line.
    pub closed spec fn pending(&self) -> Seq<Seq<char>> {
        line_views(self.pending_lines@)
    }

    /// The padded part of each line.
    pub closed spec fn padded_text(&self) -> Seq<Seq<char>> {
        views(self.padded@)
    }

    /// The number of the current mark.
    pub closed spec fn index(&self) -> nat {
        self.pad_i as nat
    }

    /// The padding function.
    pub closed spec fn padding(&self) -> F {
        self.pad_fn
    }

    /// Each line has its padded part, and the mark at hand is that of the current
    /// number.
    pub closed spec fn wf(&self) -> bool {
        &&& self.pending_lines@.len() == self.padded@.len()
        &&& self.pad_mark@ == pad_mark(self.pad_i as nat)
        &&& self.pad_i >= 1
        &&& self.pad_i - 1 + total_len(line_views(self.pending_lines@)) <= usize::MAX
    }

    /// A template at its start: the lines of the text, nothing padded, mark 1.
    pub fn new(text_lines: &str, pad_fn: F) -> (r: Self)
        ensures
            r.wf(),
            r.pending() == lines_of(text_lines@),
            r.padded_text() == empty_texts(lines_of(text_lines@).len()),
            r.index() == 1,
            r.padding() == pad_fn,
    {
        let chars = chars_of(text_lines);
        let size: usize = chars.len();
        let lines = split_lines(&chars);
        let mut padded: Vec<String> = Vec::new();
        let mut i: usize = 0;
        while i < lines.len()
            invariant
                i <= lines@.len(),
                padded@.len() == i,
                forall|j: int| 0 <= j < i ==> (#[trigger] padded@[j])@ == Seq::<char>::empty(),
            decreases lines@.len() - i,
        {
            padded.push(String::new());
            i = i + 1;
        }
        proof {
            lemma_lines_fit(chars@);
            assert(line_views(lines@) =~= lines_of(text_lines@));
            assert(views(padded@) =~= empty_texts(lines_of(text_lines@).len()));
        }
        Padder { pending_lines: lines, padded, pad_i: 1, pad_mark: mark_of(1), pad_fn }
    }

    /// Whether no line holds the current mark.
    pub fn all_done(&self) -> (r: bool)
        requires
            self.wf(),
        ensures
            r == run_done(self.pending(), self.index()),
    {
        let mut i: usize = 0;
        while i < self.pending_lines.len()
            invariant
                i <= self.pending_lines@.len(),
                self.wf(),
                forall|j: int|
                    0 <= j < i ==> !line_marked(#[trigger] self.pending()[j], self.index()),
            decreases self.pending_lines@.len() - i,
        {
            if find_text(&self.pending_lines[i], &self.pad_mark).is_some() {
                proof {
                    assert(line_marked(self.pending()[i as int], self.index()));
                }
                return false;
            }
            proof {
                assert(self.pending()[i as int] == self.pending_lines@[i as int]@);
            }
            i = i + 1;
        }
        true
    }

    /// The batch of the current mark: for each line that holds it, what is padded
    /// already followed by what stands before the mark.
    #[verifier::rlimit(50)]
    pub fn next_batch(&self) -> (batch: Vec<String>)
        requires
            self.wf(),
        ensures
            views(batch@) == batch_of(
                self.pending(),
                self.padded_text(),
                self.index(),
                self.pending().len() as int,
            ),
    {
        let ghost pend = self.pending();
        let ghost padd = self.padded_text();
        let ghost k = self.index();
        let n: usize = self.pending_lines.len();
        let mut batch: Vec<String> = Vec::new();
        let mut i: usize = 0;
        proof {
            assert(views(batch@) =~= batch_of(pend, padd, k, 0));
        }
        while i < n
            invariant
                i <= n,
                n == pend.len(),
                n == padd.len(),
                self.pending_lines@.len() == n,
                self.padded@.len() == n,
                pend == line_views(self.pending_lines@),
                padd == views(self.padded@),
                self.pad_mark@ == pad_mark(k),
                views(batch@) == batch_of(pend, padd, k, i as int),
            decreases n - i,
        {
            let ghost line = self.pending_lines@[i as int]@;
            proof {
                assert(pend[i as int] == line);
                assert(padd[i as int] == self.padded@[i as int]@);
            }
            let ghost batch_before = views(batch@);
            match find_text(&self.pending_lines[i], &self.pad_mark) {
                Some(pos) => {
                    let mut entry = self.padded[i].clone();
                    append_head(&mut entry, &self.pending_lines[i], pos);
                    batch.push(entry);
                    proof {
                        assert(views(batch@) =~= batch_before.push(
                            padd[i as int] + before_mark(line, k),
                        ));
                    }
                },
                None => {},
            }
            i = i + 1;
        }
        batch
    }

    /// Takes in what the padding function returned for the batch of the current
    /// mark: each line that holds the mark keeps what stands after it and takes the
    /// text returned for it as its padded part, and the next mark becomes current.
    #[verifier::rlimit(50)]
    pub fn apply(&mut self, out: &Vec<String>)
        requires
            old(self).wf(),
            !run_done(old(self).pending(), old(self).index()),
        ensures
            final(self).wf(),
            final(self).padding() == old(self).padding(),
            final(self).index() == old(self).index() + 1,
            final(self).pending() == next_pending(old(self).pending(), old(self).index()),
            final(self).padded_text() == next_padded(
                old(self).pending(),
                old(self).padded_text(),
                old(self).index(),
                views(out@),
            ),
    {
        let ghost pend = self.pending();
        let ghost padd = self.padded_text();
        let ghost k = self.index();
        let n: usize = self.pending_lines.len();
        let mut rest: Vec<Vec<char>> = Vec::new();
        let mut fresh: Vec<String> = Vec::new();
        let mut rank: usize = 0;
        let mut i: usize = 0;
        while i < n
            invariant
                i <= n,
                n == pend.len(),
                n == padd.len(),
                *self == *old(self),
                self.pending_lines@.len() == n,
                self.padded@.len() == n,
                pend == line_views(self.pending_lines@),
                padd == views(self.padded@),
                self.pad_mark@ == pad_mark(k),
                rank == batch_of(pend, padd, k, i as int).len(),
                rank <= i,
                rest@.len() == i,
                forall|j: int| 0 <= j < i ==> (#[trigger] rest@[j])@ == next_pending(pend, k)[j],
                fresh@.len() == i,
                forall|j: int|
                    0 <= j < i ==> (#[trigger] fresh@[j])@ == next_padded(
                        pend,
                        padd,
                        k,
                        views(out@),
                    )[j],
            decreases n - i,
        {
            let ghost line = self.pending_lines@[i as int]@;
            proof {
                assert(pend[i as int] == line);
                assert(padd[i as int] == self.padded@[i as int]@);
            }
            match find_text(&self.pending_lines[i], &self.pad_mark) {
                Some(pos) => {
                    let line_len: usize = self.pending_lines[i].len();
                    assert(pos + self.pad_mark@.len() <= line_len);
                    rest.push(tail_of(&self.pending_lines[i], pos + self.pad_mark.len()));
                    if rank < out.len() {
                        proof {
                            assert(views(out@)[rank as int] == out@[rank as int]@);
                        }
                        fresh.push(out[rank].clone());
                    } else {
                        fresh.push(self.padded[i].clone());
                    }
                    rank = rank + 1;
                },
                None => {
                    rest.push(tail_of(&self.pending_lines[i], 0));
                    fresh.push(self.padded[i].clone());
                    proof {
                        assert(line.skip(0) == line);
                    }
                },
            }
            i = i + 1;
        }
        proof {
            lemma_next_pending_shrinks(pend, k);
            assert(line_views(rest@) =~= next_pending(pend, k));
            assert(views(fresh@) =~= next_padded(pend, padd, k, views(out@)));
        }
        self.pending_lines = rest;
        self.padded = fresh;
        self.pad_i = self.pad_i + 1;
        self.pad_mark = mark_of(self.pad_i);
    }

    /// Resolves the current mark: the lines that hold it are cut at it, what stands
    /// before the mark goes to the padding function together with what is padded
    /// already, and what the function returns becomes the padded part.
    pub fn step(&mut self)
        requires
            old(self).wf(),
            !run_done(old(self).pending(), old(self).index()),
            forall|batch: &[String]|
                views(batch@) == batch_of(
                    old(self).pending(),
                    old(self).padded_text(),
                    old(self).index(),
                    old(self).pending().len() as int,
                ) ==> #[trigger] call_requires(old(self).padding(), (batch,)),
        ensures
            final(self).wf(),
            final(self).padding() == old(self).padding(),
            final(self).index() == old(self).index() + 1,
            final(self).pending() == next_pending(old(self).pending(), old(self).index()),
            exists|batch: &[String], out: Vec<String>|
                views(batch@) == batch_of(
                    old(self).pending(),
                    old(self).padded_text(),
                    old(self).index(),
                    old(self).pending().len() as int,
                ) && #[trigger] call_ensures(old(self).padding(), (batch,), out)
                    && final(self).padded_text() == next_padded(
                    old(self).pending(),
                    old(self).padded_text(),
                    old(self).index(),
                    views(out@),
                ),
    {
        let batch = self.next_batch();
        let handed: &[String] = batch.as_slice();
        proof {
            assert(call_requires(old(self).padding(), (handed,)));
        }
        let out = (self.pad_fn)(handed);
        proof {
            assert(call_ensures(old(self).padding(), (handed,), out));
        }
        self.apply(&out);
    }

    /// The lines joined by newlines, each followed by its padded part.
    pub fn finish(&self) -> (s: String)
        requires
            self.wf(),
        ensures
            s@ == joined(self.pending(), self.padded_text(), self.pending().len() as int),
    {
        let mut s = String::new();
        let mut i: usize = 0;
        let n: usize = self.pending_lines.len();
        while i < n
            invariant
                i <= n,
                n == self.pending_lines@.len(),
                self.wf(),
                s@ == joined(self.pending(), self.padded_text(), i as int),
            decreases n - i,
        {
            proof {
                assert(self.pending()[i as int] == self.pending_lines@[i as int]@);
                assert(self.padded_text()[i as int] == self.padded@[i as int]@);
            }
            let ghost before = s@;
            if i > 0 {
                s.push('\n');
            }
            append_head(&mut s, &self.pending_lines[i], self.pending_lines[i].len());
            s.append(self.padded[i].as_str());
            proof {
                let line = self.pending_lines@[i as int]@;
                assert(line.take(line.len() as int) == line);
                if i > 0 {
                    assert(s@ == before + seq!['\n'] + (line + self.padded@[i as int]@));
                } else {
                    assert(s@ == line + self.padded@[i as int]@);
                }
            }
            i = i + 1;
        }
        s
    }

    /// Resolves mark after mark until no line holds the current one, and joins the
    /// lines.
    pub fn execute(self) -> (s: String)
        requires
            self.wf(),
            run_ready(self.padding(), self.pending(), self.padded_text(), self.index()),
        ensures
            run_result(self.padding(), self.pending(), self.padded_text(), self.index(), s@),
    {
        let ghost f = self.padding();
        let ghost pend0 = self.pending();
        let ghost padd0 = self.padded_text();
        let ghost k0 = self.index();
        let mut run = self;
        while !run.all_done()
            invariant
                run.wf(),
                run.padding() == f,
                run_ready(f, run.pending(), run.padded_text(), run.index()),
                forall|res: Seq<char>| #[trigger]
                    run_result(f, run.pending(), run.padded_text(), run.index(), res)
                        ==> run_result(f, pend0, padd0, k0, res),
            decreases total_len(run.pending()),
        {
            let ghost pend = run.pending();
            let ghost padd = run.padded_text();
            let ghost k = run.index();
            run.step();
            proof {
                lemma_next_pending_shrinks(pend, k);
                let (batch, out) = choose|batch: &[String], out: Vec<String>|
                    views(batch@) == batch_of(pend, padd, k, pend.len() as int)
                        && #[trigger] call_ensures(f, (batch,), out) && run.padded_text()
                        == next_padded(pend, padd, k, views(out@));
                assert forall|res: Seq<char>| #[trigger]
                    run_result(
                        f,
                        run.pending(),
                        run.padded_text(),
                        run.index(),
                        res,
                    ) implies run_result(f, pend0, padd0, k0, res) by {
                    assert(run_result(f, pend, padd, k, res));
                }
            }
        }
        let s = run.finish();
        proof {
            assert(run_result(f, run.pending(), run.padded_text(), run.index(), s@));
        }
        s
    }
}

/// The padding function pads as `pad` does: it takes every batch that is ready, and
/// returns each field with its padding to the common width.
pub open spec fn pads_exactly<F: Fn(&[String]) -> Vec<String>>(f: F) -> bool {
    &&& forall|batch: &[String]| batch_ready(views(batch@)) ==> #[trigger] call_requires(f, (batch,))
    &&& forall|batch: &[String], out: Vec<String>| #[trigger]
        call_ensures(f, (batch,), out) ==> views(out@) == pad_all(views(batch@))
}

/// Every batch of the template is ready to be padded, each taken after the batches
/// before it are padded to their common widths.
pub open spec fn template_ready(pending: Seq<Seq<char>>, padded: Seq<Seq<char>>, k: nat) -> bool
    decreases total_len(pending),
{
    if run_done(pending, k) {
        true
    } else {
        proof {
            lemma_next_pending_shrinks(pending, k);
        }
        let batch = batch_of(pending, padded, k, pending.len() as int);
        batch_ready(batch) && template_ready(
            next_pending(pending, k),
            next_padded(pending, padded, k, pad_all(batch)),
            k + 1,
        )
    }
}

/// The text of the template once every mark is resolved, each batch padded to its
/// common width.
pub open spec fn template_text(pending: Seq<Seq<char>>, padded: Seq<Seq<char>>, k: nat) -> Seq<
    char,
>
    decreases total_len(pending),
{
    if run_done(pending, k) {
        joined(pending, padded, pending.len() as int)
    } else {
        proof {
            lemma_next_pending_shrinks(pending, k);
        }
        let batch = batch_of(pending, padded, k, pending.len() as int);
        template_text(
            next_pending(pending, k),
            next_padded(pending, padded, k, pad_all(batch)),
            k + 1,
        )
    }
}

/// With a function that pads exactly, a template that is ready can be run.
pub proof fn lemma_template_runs<F: Fn(&[String]) -> Vec<String>>(
    f: F,
    pending: Seq<Seq<char>>,
    padded: Seq<Seq<char>>,
    k: nat,
)
    requires
        pads_exactly(f),
        template_ready(pending, padded, k),
    ensures
        run_ready(f, pending, padded, k),
    decreases total_len(pending),
{
    if !run_done(pending, k) {
        lemma_next_pending_shrinks(pending, k);
        let expected = batch_of(pending, padded, k, pending.len() as int);
        assert forall|batch: &[String], out: Vec<String>|
            views(batch@) == expected && #[trigger] call_ensures(f, (batch,), out) implies run_ready(
            f,
            next_pending(pending, k),
            next_padded(pending, padded, k, views(out@)),
            k + 1,
        ) by {
            lemma_template_runs(
                f,
                next_pending(pending, k),
                next_padded(pending, padded, k, pad_all(expected)),
                k + 1,
            );
        }
    }
}

/// With a function that pads exactly, the run of a template ends in its text and in
/// no other.
pub proof fn lemma_run_is_template<F: Fn(&[String]) -> Vec<String>>(
    f: F,
    pending: Seq<Seq<char>>,
    padded: Seq<Seq<char>>,
    k: nat,
    result: Seq<char>,
)
    requires
        pads_exactly(f),
        run_result(f, pending, padded, k, result),
    ensures
        result == template_text(pending, padded, k),
    decreases total_len(pending),
{
    if !run_done(pending, k) {
        lemma_next_pending_shrinks(pending, k);
        let expected = batch_of(pending, padded, k, pending.len() as int);
        let (batch, out) = choose|batch: &[String], out: Vec<String>|
            views(batch@) == expected && #[trigger] call_ensures(f, (batch,), out) && run_result(
                f,
                next_pending(pending, k),
                next_padded(pending, padded, k, views(out@)),
                k + 1,
                result,
            );
        lemma_run_is_template(
            f,
            next_pending(pending, k),
            next_padded(pending, padded, k, pad_all(expected)),
            k + 1,
            result,
        );
    }
}

/// The template can be padded: every batch of it is ready.
pub open spec fn format_ready(text: Seq<char>) -> bool {
    template_ready(lines_of(text), empty_texts(lines_of(text).len()), 1)
}

/// The text of the template with every mark resolved.
pub open spec fn format_text(text: Seq<char>) -> Seq<char> {
    template_text(lines_of(text), empty_texts(lines_of(text).len()), 1)
}

/// Resolves the pad marks of a template, mark by mark from `(pad1)` on: the lines
/// that hold the current mark are padded to their common width up to the mark.
pub fn pad_with_format(text: &str) -> (s: String)
    requires
        format_ready(text@),
    ensures
        s@ == format_text(text@),
{
    let run = Padder::new(text, pad);
    proof {
        lemma_template_runs(run.padding(), run.pending(), run.padded_text(), run.index());
    }
    let s = run.execute();
    proof {
        lemma_run_is_template(run.padding(), run.pending(), run.padded_text(), run.index(), s@);
    }
    s
}


/// Resolves the pad marks of a template where every batch of it can be padded.
#[verifier::rlimit(50)]
pub fn try_pad_with_format(text: &str) -> (r: Option<String>)
    ensures
        r is Some <==> format_ready(text@),
        r is Some ==> r.unwrap()@ == format_text(text@),
{
    let mut run = Padder::new(text, pad);
    while !run.all_done()
        invariant
            run.wf(),
            template_ready(run.pending(), run.padded_text(), run.index()) <==> format_ready(text@),
            template_text(run.pending(), run.padded_text(), run.index()) == format_text(text@),
        decreases total_len(run.pending()),
    {
        proof {
            lemma_next_pending_shrinks(run.pending(), run.index());
        }
        let batch = run.next_batch();
        match try_pad(batch.as_slice()) {
            Some(out) => {
                run.apply(&out);
            },
            None => {
                return None;
            },
        }
    }
    Some(run.finish())
}

} // verus!
