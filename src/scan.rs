//! The match scanner: walks the new buffer, asks the index for the longest
//! match at each probe, and cuts the new buffer into matches, each one a
//! diff region followed by a copy region, scored the bsdiff way
//! (`2 * matching bytes - length`).
use vstd::prelude::*;
use crate::index::{OldIndex, first_byte_occurs};
use crate::model::{Match, tiles};

verus! {

/// The new byte at `j` equals the old byte at `j + off`, which lies inside
/// the old buffer.
pub open spec fn agrees_at(old: Seq<u8>, new: Seq<u8>, off: int, j: int) -> bool {
    &&& 0 <= j + off < old.len()
    &&& 0 <= j < new.len()
    &&& old[j + off] == new[j]
}

/// How many `j` in `[a, b)` agree at displacement `off`.
pub open spec fn agree_count(old: Seq<u8>, new: Seq<u8>, off: int, a: int, b: int) -> nat
    decreases b - a,
{
    if b <= a {
        0
    } else {
        agree_count(old, new, off, a, b - 1) + if agrees_at(old, new, off, b - 1) {
            1nat
        } else {
            0nat
        }
    }
}

proof fn lemma_agree_count_bound(old: Seq<u8>, new: Seq<u8>, off: int, a: int, b: int)
    requires
        a <= b,
    ensures
        agree_count(old, new, off, a, b) <= b - a,
    decreases b - a,
{
    if a < b {
        lemma_agree_count_bound(old, new, off, a, b - 1);
    }
}

proof fn lemma_agree_count_first(old: Seq<u8>, new: Seq<u8>, off: int, a: int, b: int)
    requires
        a < b,
    ensures
        agree_count(old, new, off, a, b) == agree_count(old, new, off, a + 1, b) + if agrees_at(
            old,
            new,
            off,
            a,
        ) {
            1nat
        } else {
            0nat
        },
    decreases b - a,
{
    if a + 1 < b {
        lemma_agree_count_first(old, new, off, a, b - 1);
        assert(agree_count(old, new, off, a + 1, b) == agree_count(old, new, off, a + 1, b - 1)
            + if agrees_at(old, new, off, b - 1) {
            1nat
        } else {
            0nat
        });
    } else {
        assert(agree_count(old, new, off, a, a) == 0);
        assert(agree_count(old, new, off, a + 1, b) == 0);
    }
}

pub open spec fn min_int(a: int, b: int) -> int {
    if a < b {
        a
    } else {
        b
    }
}

/// `best` is the first point of `[0, bound]` where `score` is largest.
pub open spec fn is_first_best(score: spec_fn(int) -> int, bound: int, best: int) -> bool {
    &&& 0 <= best <= bound
    &&& forall|j: int| 0 <= j <= bound ==> #[trigger] score(j) <= score(best)
    &&& forall|j: int| 0 <= j < best ==> #[trigger] score(j) < score(best)
}

/// How many of the first `len` bytes from `op` in the old buffer and from
/// `np` in the new one are equal.
pub open spec fn fwd_agree(old: Seq<u8>, new: Seq<u8>, op: int, np: int, len: int) -> int
    decreases len,
{
    if len <= 0 {
        0
    } else {
        fwd_agree(old, new, op, np, len - 1) + if old[op + len - 1] == new[np + len - 1] {
            1int
        } else {
            0int
        }
    }
}

/// The bsdiff score of a forward extension of `len` bytes.
pub open spec fn fwd_score(old: Seq<u8>, new: Seq<u8>, op: int, np: int, len: int) -> int {
    2 * fwd_agree(old, new, op, np, len) - len
}

/// How many of the `len` bytes just before `op` in the old buffer and just
/// before `np` in the new one are equal.
pub open spec fn back_agree(old: Seq<u8>, new: Seq<u8>, op: int, np: int, len: int) -> int
    decreases len,
{
    if len <= 0 {
        0
    } else {
        back_agree(old, new, op, np, len - 1) + if old[op - len] == new[np - len] {
            1int
        } else {
            0int
        }
    }
}

/// The bsdiff score of a backward extension of `len` bytes.
pub open spec fn back_score(old: Seq<u8>, new: Seq<u8>, op: int, np: int, len: int) -> int {
    2 * back_agree(old, new, op, np, len) - len
}

/// Over the first `len` bytes of an overlap that starts at `ns` in the new
/// buffer: the bytes that agree with the forward region (old offset `fo`)
/// less those that agree with the backward one (old offset `bo`).
pub open spec fn split_score(old: Seq<u8>, new: Seq<u8>, fo: int, ns: int, bo: int, len: int) -> int
    decreases len,
{
    if len <= 0 {
        0
    } else {
        split_score(old, new, fo, ns, bo, len - 1) + (if new[ns + len - 1] == old[fo + len - 1] {
            1int
        } else {
            0int
        }) - (if new[ns + len - 1] == old[bo + len - 1] {
            1int
        } else {
            0int
        })
    }
}

/// The bsdiff cut of the stretch of the new buffer from `ls` (old offset
/// `lp`) to the probe `sc`, whose match was found at old offset `p`, with the
/// extension lengths spelled out: the diff region is extended forwards by
/// `lenf`, the found match backwards by `lenb` (zero at the end of the new
/// buffer), each the first length with the best score; where the two
/// overlap, `lens` is the first split with the best net score. `m` is the
/// resulting match.
pub open spec fn cut_with(
    old: Seq<u8>,
    new: Seq<u8>,
    ls: int,
    lp: int,
    sc: int,
    p: int,
    lenf: int,
    lenb: int,
    lens: int,
    m: Match,
) -> bool {
    &&& m.add_new_start == ls
    &&& m.add_old_start == lp
    &&& is_first_best(|j: int| fwd_score(old, new, lp, ls, j), min_int(sc - ls, old.len() - lp), lenf)
    &&& if sc == new.len() {
        lenb == 0
    } else {
        is_first_best(|j: int| back_score(old, new, p, sc, j), min_int(sc - ls, p), lenb)
    }
    &&& if ls + lenf > sc - lenb {
        let overlap = ls + lenf - (sc - lenb);
        &&& is_first_best(
            |j: int| split_score(old, new, lp + lenf - overlap, sc - lenb, p - lenb, j),
            overlap,
            lens,
        )
        &&& m.add_length == lenf + lens - overlap
        &&& m.copy_end == sc - lenb + lens
    } else {
        &&& lens == 0
        &&& m.add_length == lenf
        &&& m.copy_end == sc - lenb
    }
}

/// `m` is the bsdiff cut of the stretch from `ls` / `lp` to the probe `sc`
/// whose match was found at `p` (see `cut_with`).
pub open spec fn is_cut(old: Seq<u8>, new: Seq<u8>, ls: int, lp: int, sc: int, p: int, m: Match) -> bool {
    exists|lenf: int, lenb: int, lens: int| #[trigger] cut_with(old, new, ls, lp, sc, p, lenf, lenb, lens, m)
}

/// `m` is the bsdiff cut at some probe of the new buffer and some match
/// position in the old one.
pub open spec fn is_bsdiff_cut(old: Seq<u8>, new: Seq<u8>, m: Match) -> bool {
    exists|sc: int, p: int|
        #[trigger] is_cut(old, new, m.add_new_start as int, m.add_old_start as int, sc, p, m)
}

/// `m` is a bsdiff cut at a probe `sc` inside the new buffer, with the
/// index's match at `p`, after which the next diff region starts at old
/// offset `next_old` (the found match moved back as far as `m`'s copy
/// region ends before the probe).
pub open spec fn cut_then(old: Seq<u8>, new: Seq<u8>, m: Match, next_old: int) -> bool {
    exists|sc: int, p: int|
        #[trigger] is_cut(old, new, m.add_new_start as int, m.add_old_start as int, sc, p, m)
            && sc <= new.len() && next_old == p - (sc - m.copy_end)
}

/// The scanner's state over one old buffer, one new buffer and an index of
/// the old buffer.
pub struct BsdiffIterator<'a> {
    scan: usize,
    pos: usize,
    length: usize,
    lastscan: usize,
    lastpos: usize,
    lastoffset: isize,
    obuf: &'a [u8],
    nbuf: &'a [u8],
    sa: &'a OldIndex<'a>,
}

impl<'a> BsdiffIterator<'a> {
    pub closed spec fn old_bytes(&self) -> Seq<u8> {
        self.obuf@
    }

    pub closed spec fn new_bytes(&self) -> Seq<u8> {
        self.nbuf@
    }

    /// Where the next match starts in the new buffer.
    pub closed spec fn last_scan(&self) -> int {
        self.lastscan as int
    }

    /// Every position the scanner keeps, and the displacement it last used.
    pub closed spec fn state(&self) -> (usize, usize, usize, usize, usize, isize) {
        (self.scan, self.pos, self.length, self.lastscan, self.lastpos, self.lastoffset)
    }

    /// Where the last probe stands in the new buffer.
    pub closed spec fn probe(&self) -> int {
        self.scan as int
    }

    /// Where the index found the match at the last probe, in the old buffer.
    pub closed spec fn found_at(&self) -> int {
        self.pos as int
    }

    /// Where the next match starts in the old buffer.
    pub closed spec fn last_pos(&self) -> int {
        self.lastpos as int
    }

    /// Scanning is over: the next call returns `None`.
    pub closed spec fn is_done(&self) -> bool {
        self.scan >= self.nbuf@.len()
    }

    /// Shrinks with each match handed out.
    pub closed spec fn progress(&self) -> nat {
        if self.scan >= self.nbuf@.len() {
            0
        } else if self.length == 0 {
            (self.nbuf@.len() - self.scan + 1) as nat
        } else {
            (self.nbuf@.len() - self.scan) as nat
        }
    }

    /// The positions lie within the buffers.
    closed spec fn bounds_ok(&self) -> bool {
        let olen = self.obuf@.len();
        let nlen = self.nbuf@.len();
        &&& olen <= isize::MAX
        &&& nlen <= isize::MAX
        &&& self.sa.text() == self.obuf@
        &&& self.scan <= nlen
        &&& self.lastscan <= self.scan
        &&& self.lastpos <= olen
        &&& self.pos <= olen
    }

    pub closed spec fn wf(&self) -> bool {
        let nlen = self.nbuf@.len();
        &&& self.bounds_ok()
        &&& self.scan < nlen ==> self.scan + self.length <= nlen
        &&& self.scan == nlen ==> self.lastscan == nlen
    }

    pub fn new(obuf: &'a [u8], nbuf: &'a [u8], sa: &'a OldIndex<'a>) -> (r: Self)
        requires
            obuf@.len() <= isize::MAX,
            nbuf@.len() <= isize::MAX,
            sa.text() == obuf@,
        ensures
            r.wf(),
            r.old_bytes() == obuf@,
            r.new_bytes() == nbuf@,
            r.last_scan() == 0,
            r.last_pos() == 0,
            r.probe() == 0,
            r.is_done() <==> nbuf@.len() == 0,
            r.progress() <= nbuf@.len() + 1,
    {
        BsdiffIterator {
            scan: 0,
            pos: 0,
            length: 0,
            lastscan: 0,
            lastpos: 0,
            lastoffset: 0,
            obuf,
            nbuf,
            sa,
        }
    }

    /// Whether new byte `j` equals the old byte at `j + lastoffset`.
    fn agrees(&self, j: usize) -> (r: bool)
        requires
            self.obuf@.len() <= isize::MAX,
            j < self.nbuf@.len(),
        ensures
            r == agrees_at(self.obuf@, self.nbuf@, self.lastoffset as int, j as int),
    {
        let oi: i128 = j as i128 + self.lastoffset as i128;
        0 <= oi && oi < self.obuf.len() as i128 && self.obuf[oi as usize] == self.nbuf[j]
    }

    /// How far the diff region that starts at `lastscan` / `lastpos` is
    /// extended forwards: the first length with the best score.
    fn forward_extension(&self) -> (lenf: usize)
        requires
            self.bounds_ok(),
        ensures
            lenf <= self.scan - self.lastscan,
            lenf <= self.obuf@.len() - self.lastpos,
            is_first_best(
                |j: int| fwd_score(self.obuf@, self.nbuf@, self.lastpos as int, self.lastscan as int, j),
                min_int(self.scan - self.lastscan, self.obuf@.len() - self.lastpos),
                lenf as int,
            ),
    {
        let bound: usize = if self.scan - self.lastscan < self.obuf.len() - self.lastpos {
            self.scan - self.lastscan
        } else {
            self.obuf.len() - self.lastpos
        };
        let ghost ob = self.obuf@;
        let ghost nb = self.nbuf@;
        let ghost op = self.lastpos as int;
        let ghost np = self.lastscan as int;
        let ghost f = |j: int| fwd_score(ob, nb, op, np, j);
        let mut s: i128 = 0;
        let mut sf: i128 = 0;
        let mut lenf: i128 = 0;
        let mut i: usize = 0;
        while i < bound
            invariant
                self.bounds_ok(),
                ob == self.obuf@,
                nb == self.nbuf@,
                op == self.lastpos,
                np == self.lastscan,
                f == (|j: int| fwd_score(ob, nb, op, np, j)),
                bound == min_int(self.scan - self.lastscan, self.obuf@.len() - self.lastpos),
                i <= bound,
                s == fwd_agree(ob, nb, op, np, i as int),
                0 <= s <= i,
                is_first_best(f, i as int, lenf as int),
                sf == fwd_agree(ob, nb, op, np, lenf as int),
                0 <= sf <= lenf,
            decreases bound - i,
        {
            if self.obuf[self.lastpos + i] == self.nbuf[self.lastscan + i] {
                s += 1;
            }
            let i1: usize = i + 1;
            if s * 2 - i1 as i128 > sf * 2 - lenf {
                sf = s;
                lenf = i1 as i128;
            }
            i = i1;
        }
        lenf as usize
    }

    /// How far the match found at `pos` is extended backwards from `scan`:
    /// the first length with the best score.
    fn backward_extension(&self) -> (lenb: usize)
        requires
            self.bounds_ok(),
        ensures
            lenb <= self.scan - self.lastscan,
            lenb <= self.pos,
            is_first_best(
                |j: int| back_score(self.obuf@, self.nbuf@, self.pos as int, self.scan as int, j),
                min_int(self.scan - self.lastscan, self.pos as int),
                lenb as int,
            ),
    {
        let bound: usize = if self.scan - self.lastscan < self.pos {
            self.scan - self.lastscan
        } else {
            self.pos
        };
        let ghost ob = self.obuf@;
        let ghost nb = self.nbuf@;
        let ghost op = self.pos as int;
        let ghost np = self.scan as int;
        let ghost f = |j: int| back_score(ob, nb, op, np, j);
        let mut s: i128 = 0;
        let mut sb: i128 = 0;
        let mut lenb: i128 = 0;
        let mut i: usize = 1;
        while i <= bound
            invariant
                self.bounds_ok(),
                ob == self.obuf@,
                nb == self.nbuf@,
                op == self.pos,
                np == self.scan,
                f == (|j: int| back_score(ob, nb, op, np, j)),
                bound == min_int(self.scan - self.lastscan, self.pos as int),
                1 <= i <= bound + 1,
                s == back_agree(ob, nb, op, np, i - 1),
                0 <= s <= i - 1,
                is_first_best(f, i - 1, lenb as int),
                sb == back_agree(ob, nb, op, np, lenb as int),
                0 <= sb <= lenb,
            decreases bound + 1 - i,
        {
            if self.obuf[self.pos - i] == self.nbuf[self.scan - i] {
                s += 1;
            }
            if s * 2 - i as i128 > sb * 2 - lenb {
                sb = s;
                lenb = i as i128;
            }
            i += 1;
        }
        lenb as usize
    }

    /// Where, within `overlap` bytes claimed by both the forward and the
    /// backward extension, the forward one should end: the first split with
    /// the best net score for the forward side.
    fn overlap_split(&self, lenf: usize, lenb: usize, overlap: usize) -> (lens: usize)
        requires
            self.bounds_ok(),
            lenf <= self.scan - self.lastscan,
            lenf <= self.obuf@.len() - self.lastpos,
            lenb <= self.scan - self.lastscan,
            lenb <= self.pos,
            overlap <= lenf,
            overlap <= lenb,
            self.lastscan + lenf - overlap == self.scan - lenb,
        ensures
            lens <= overlap,
            is_first_best(
                |j: int|
                    split_score(
                        self.obuf@,
                        self.nbuf@,
                        self.lastpos + lenf - overlap,
                        self.scan - lenb,
                        self.pos - lenb,
                        j,
                    ),
                overlap as int,
                lens as int,
            ),
    {
        let ghost ob = self.obuf@;
        let ghost nb = self.nbuf@;
        let ghost fo = self.lastpos + lenf - overlap;
        let ghost ns = self.scan - lenb;
        let ghost bo = self.pos - lenb;
        let ghost f = |j: int| split_score(ob, nb, fo, ns, bo, j);
        let mut s: i128 = 0;
        let mut ss: i128 = 0;
        let mut lens: usize = 0;
        let mut i: usize = 0;
        while i < overlap
            invariant
                self.bounds_ok(),
                ob == self.obuf@,
                nb == self.nbuf@,
                fo == self.lastpos + lenf - overlap,
                ns == self.scan - lenb,
                bo == self.pos - lenb,
                f == (|j: int| split_score(ob, nb, fo, ns, bo, j)),
                lenf <= self.obuf@.len() - self.lastpos,
                lenb <= self.pos,
                overlap <= lenf,
                overlap <= lenb,
                self.lastscan + lenf - overlap == self.scan - lenb,
                i <= overlap,
                s == split_score(ob, nb, fo, ns, bo, i as int),
                -(i as int) <= s <= i,
                is_first_best(f, i as int, lens as int),
                ss == split_score(ob, nb, fo, ns, bo, lens as int),
            decreases overlap - i,
        {
            if self.nbuf[self.lastscan + lenf - overlap + i] == self.obuf[self.lastpos + lenf
                - overlap + i] {
                s += 1;
            }
            if self.nbuf[self.scan - lenb + i] == self.obuf[self.pos - lenb + i] {
                s -= 1;
            }
            if s > ss {
                ss = s;
                lens = i + 1;
            }
            i += 1;
        }
        lens
    }

    /// Finds the next match. Matches come out in order: each one starts in
    /// the new buffer where the one before it ended, and in the old buffer
    /// where the one before it left the old cursor. `None` once the whole
    /// new buffer is covered.
    pub fn next(&mut self) -> (r: Option<Match>)
        requires
            old(self).wf(),
        ensures
            final(self).wf(),
            final(self).old_bytes() == old(self).old_bytes(),
            final(self).new_bytes() == old(self).new_bytes(),
            r is None <==> old(self).is_done(),
            r is None ==> final(self).state() == old(self).state(),
            final(self).probe() <= final(self).new_bytes().len(),
            r matches Some(m) ==> (final(self).is_done() <==> m.copy_end == final(self).new_bytes().len()),
            old(self).old_bytes().len() == 0 ==> (r matches Some(m) ==> m.add_length == 0
                && m.copy_end == old(self).new_bytes().len()),
            old(self).is_done() ==> old(self).last_scan() == old(self).new_bytes().len(),
            r matches Some(m) ==> {
                &&& m.within(
                    old(self).old_bytes().len() as int,
                    old(self).new_bytes().len() as int,
                )
                &&& m.add_new_start == old(self).last_scan()
                &&& m.add_old_start == old(self).last_pos()
                &&& final(self).last_scan() == m.copy_end
                &&& final(self).last_pos() == final(self).found_at() - (final(self).probe() - m.copy_end)
                &&& final(self).progress() < old(self).progress()
                &&& is_cut(
                    old(self).old_bytes(),
                    old(self).new_bytes(),
                    old(self).last_scan(),
                    old(self).last_pos(),
                    final(self).probe(),
                    final(self).found_at(),
                    m,
                )
            },
    {
        let obuflen = self.obuf.len();
        let nbuflen = self.nbuf.len();
        let ghost ob = self.obuf@;
        let ghost nb = self.nbuf@;
        let ghost off = self.lastoffset as int;
        let ghost lastscan_at_entry = self.lastscan;
        let ghost lastpos_at_entry = self.lastpos;
        let ghost scan_at_entry = self.scan;
        let ghost length_at_entry = self.length;
        let ghost pos_at_entry = self.pos;
        while self.scan < nbuflen
            invariant
                self.wf(),
                self.obuf@ == ob,
                self.nbuf@ == nb,
                ob == old(self).old_bytes(),
                nb == old(self).new_bytes(),
                old(self).wf(),
                old(self).scan == scan_at_entry,
                old(self).length == length_at_entry,
                old(self).lastscan == lastscan_at_entry,
                old(self).lastpos == lastpos_at_entry,
                obuflen == ob.len(),
                nbuflen == nb.len(),
                self.lastoffset == off,
                self.lastscan == lastscan_at_entry,
                self.lastpos == lastpos_at_entry,
                self.scan + self.length >= scan_at_entry + length_at_entry,
                self.scan == scan_at_entry || scan_at_entry < nbuflen,
                self.scan >= nbuflen ==> (self.scan == scan_at_entry && self.length == length_at_entry && self.pos == pos_at_entry),
            decreases nbuflen - self.scan - self.length,
        {
            let mut oldscore: usize = 0;
            self.scan += self.length;
            let ghost top = self.scan;
            let mut scsc: usize = self.scan;
            while self.scan < nbuflen
                invariant
                    self.bounds_ok(),
                    self.obuf@ == ob,
                    self.nbuf@ == nb,
                    obuflen == ob.len(),
                    nbuflen == nb.len(),
                    self.lastoffset == off,
                    self.lastscan == lastscan_at_entry,
                    self.lastpos == lastpos_at_entry,
                    self.scan >= top,
                    top >= scan_at_entry + length_at_entry,
                    scan_at_entry < nbuflen,
                    scsc <= nbuflen,
                    self.scan <= scsc ==> oldscore == agree_count(ob, nb, off, self.scan as int, scsc as int),
                    scsc < self.scan ==> (scsc + 1 == self.scan && oldscore == 0 && !agrees_at(
                        ob,
                        nb,
                        off,
                        scsc as int,
                    )),
                ensures
                    self.bounds_ok(),
                    self.obuf@ == ob,
                    self.nbuf@ == nb,
                    self.lastoffset == off,
                    self.lastscan == lastscan_at_entry,
                    self.lastpos == lastpos_at_entry,
                    self.scan >= top,
                    ob.len() == 0 ==> self.scan == nbuflen,
                    self.scan < nbuflen ==> (self.scan + self.length <= nbuflen && ((self.length
                        == oldscore && self.length != 0) || self.length > oldscore + 8)),
                decreases nbuflen - self.scan,
            {
                let ghost needle = nb.subrange(self.scan as int, nb.len() as int);
                let found = self.sa.longest_substring_match(&self.nbuf[self.scan..nbuflen]);
                self.pos = found.0;
                self.length = found.1;
                while scsc < self.scan + self.length
                    invariant
                        self.bounds_ok(),
                        self.obuf@ == ob,
                        self.nbuf@ == nb,
                        nbuflen == nb.len(),
                        self.lastoffset == off,
                        self.scan < nbuflen,
                        self.scan + self.length <= nbuflen,
                        scsc <= nbuflen,
                        self.scan <= scsc ==> oldscore == agree_count(ob, nb, off, self.scan as int, scsc as int),
                        scsc < self.scan ==> (scsc + 1 == self.scan && oldscore == 0 && !agrees_at(
                            ob,
                            nb,
                            off,
                            scsc as int,
                        )),
                    decreases self.scan + self.length - scsc,
                {
                    proof {
                        if self.scan <= scsc {
                            lemma_agree_count_bound(ob, nb, off, self.scan as int, scsc as int);
                        }
                    }
                    if self.agrees(scsc) {
                        oldscore += 1;
                    }
                    scsc += 1;
                }
                proof {
                    lemma_agree_count_bound(ob, nb, off, self.scan as int, scsc as int);
                }
                let significantly_better = self.length > oldscore + 8;
                let same_length = self.length == oldscore && self.length != 0;
                if same_length || significantly_better {
                    break;
                }
                let here = self.agrees(self.scan);
                proof {
                    if here && scsc == self.scan {
                        let j = self.scan + off;
                        assert(needle[0] == nb[self.scan as int]);
                        assert(0 <= j < ob.len() && ob[j] == needle[0]);
                        assert(first_byte_occurs(ob, needle));
                    }
                    if scsc > self.scan {
                        lemma_agree_count_first(ob, nb, off, self.scan as int, scsc as int);
                    }
                }
                if here {
                    oldscore -= 1;
                }
                self.scan += 1;
            }
            let done_scanning = self.scan == nbuflen;
            if self.length != oldscore || done_scanning {
                let mut lenf = self.forward_extension();
                let mut lenb: usize = if self.scan >= nbuflen {
                    0
                } else {
                    self.backward_extension()
                };
                let ghost lenf0 = lenf as int;
                let ghost lenb0 = lenb as int;
                let ghost mut lens0: int = 0;
                if self.lastscan + lenf > self.scan - lenb {
                    let overlap = (self.lastscan + lenf) - (self.scan - lenb);
                    let lens = self.overlap_split(lenf, lenb, overlap);
                    proof {
                        lens0 = lens as int;
                    }
                    lenf += lens;
                    lenf -= overlap;
                    lenb -= lens;
                }
                let ghost m_spec = Match {
                    add_old_start: self.lastpos,
                    add_new_start: self.lastscan,
                    add_length: lenf,
                    copy_end: (self.scan - lenb) as usize,
                };
                proof {
                    let ls = self.lastscan as int;
                    let lp = self.lastpos as int;
                    let sc = self.scan as int;
                    let p = self.pos as int;
                    if ls + lenf0 > sc - lenb0 {
                        let overlap = ls + lenf0 - (sc - lenb0);
                        assert(is_first_best(
                            |j: int| split_score(ob, nb, lp + lenf0 - overlap, sc - lenb0, p - lenb0, j),
                            overlap,
                            lens0,
                        ));
                    }
                    assert(cut_with(ob, nb, ls, lp, sc, p, lenf0, lenb0, lens0, m_spec));
                    assert(is_cut(ob, nb, ls, lp, sc, p, m_spec));
                }
                let m = Match {
                    add_old_start: self.lastpos,
                    add_new_start: self.lastscan,
                    add_length: lenf,
                    copy_end: self.scan - lenb,
                };
                self.lastscan = self.scan - lenb;
                self.lastpos = self.pos - lenb;
                self.lastoffset = self.pos as isize - self.scan as isize;
                return Some(m);
            }
        }
        None
    }
}

/// Runs a scanner over the whole new buffer and gathers its matches. They
/// lie within both buffers and tile the new buffer from start to end, the
/// first one starting at the beginning of the old buffer; an empty new
/// buffer gives no match.
pub fn scan_matches<'a>(obuf: &'a [u8], nbuf: &'a [u8], sa: &'a OldIndex<'a>) -> (r: Vec<Match>)
    requires
        obuf@.len() <= isize::MAX,
        nbuf@.len() <= isize::MAX,
        sa.text() == obuf@,
    ensures
        tiles(r@, obuf@.len() as int, nbuf@.len() as int, 0, nbuf@.len() as int),
        r@.len() > 0 ==> r@[0].add_old_start == 0,
        forall|i: int| 0 <= i < r@.len() ==> is_bsdiff_cut(obuf@, nbuf@, #[trigger] r@[i]),
        nbuf@.len() == 0 ==> r@.len() == 0,
        r@.len() <= nbuf@.len() + 1,
        forall|i: int| 0 <= i < r@.len() - 1 ==> (#[trigger] r@[i]).copy_end < nbuf@.len(),
        obuf@.len() == 0 && nbuf@.len() > 0 ==> r@ == seq![
            Match { add_old_start: 0, add_new_start: 0, add_length: 0, copy_end: nbuf@.len() as usize },
        ],
        forall|i: int|
            0 <= i < r@.len() - 1 ==> cut_then(obuf@, nbuf@, #[trigger] r@[i], r@[i + 1].add_old_start as int),
{
    let mut it = BsdiffIterator::new(obuf, nbuf, sa);
    let mut r: Vec<Match> = Vec::new();
    loop
        invariant_except_break
            it.wf(),
            it.old_bytes() == obuf@,
            it.new_bytes() == nbuf@,
            tiles(r@, obuf@.len() as int, nbuf@.len() as int, 0, it.last_scan()),
            r@.len() > 0 ==> r@[0].add_old_start == 0,
            r@.len() == 0 ==> it.last_pos() == 0,
            forall|i: int| 0 <= i < r@.len() ==> is_bsdiff_cut(obuf@, nbuf@, #[trigger] r@[i]),
            r@.len() + it.progress() <= nbuf@.len() + 1,
            nbuf@.len() == 0 ==> r@.len() == 0,
            forall|i: int|
                0 <= i < r@.len() - 1 ==> cut_then(obuf@, nbuf@, #[trigger] r@[i], r@[i + 1].add_old_start as int),
            r@.len() > 0 ==> cut_then(obuf@, nbuf@, r@.last(), it.last_pos()),
            forall|i: int| 0 <= i < r@.len() - 1 ==> (#[trigger] r@[i]).copy_end < nbuf@.len(),
            r@.len() > 0 ==> (it.is_done() <==> r@.last().copy_end == nbuf@.len()),
            r@.len() == 0 ==> it.last_scan() == 0,
            obuf@.len() == 0 ==> r@.len() <= 1,
            obuf@.len() == 0 && r@.len() == 1 ==> r@[0] == (Match {
                add_old_start: 0,
                add_new_start: 0,
                add_length: 0,
                copy_end: nbuf@.len() as usize,
            }),
        ensures
            tiles(r@, obuf@.len() as int, nbuf@.len() as int, 0, nbuf@.len() as int),
            r@.len() > 0 ==> r@[0].add_old_start == 0,
            forall|i: int| 0 <= i < r@.len() ==> is_bsdiff_cut(obuf@, nbuf@, #[trigger] r@[i]),
            nbuf@.len() == 0 ==> r@.len() == 0,
            r@.len() <= nbuf@.len() + 1,
            forall|i: int| 0 <= i < r@.len() - 1 ==> (#[trigger] r@[i]).copy_end < nbuf@.len(),
            obuf@.len() == 0 && nbuf@.len() > 0 ==> r@ == seq![
                Match { add_old_start: 0, add_new_start: 0, add_length: 0, copy_end: nbuf@.len() as usize },
            ],
            forall|i: int|
                0 <= i < r@.len() - 1 ==> cut_then(obuf@, nbuf@, #[trigger] r@[i], r@[i + 1].add_old_start as int),
        decreases it.progress(),
    {
        let ghost before = r@;
        let ghost ls = it.last_scan();
        let ghost lp = it.last_pos();
        match it.next() {
            Some(m) => {
                r.push(m);
                proof {
                    assert(is_cut(obuf@, nbuf@, ls, lp, it.probe(), it.found_at(), m));
                    assert(is_bsdiff_cut(obuf@, nbuf@, m));
                    assert(cut_then(obuf@, nbuf@, m, it.last_pos()));
                    assert(r@.last() == m);
                    assert forall|i: int| 0 <= i < r@.len() - 1 implies cut_then(
                        obuf@,
                        nbuf@,
                        #[trigger] r@[i],
                        r@[i + 1].add_old_start as int,
                    ) by {
                        assert(r@[i] == before[i]);
                        if i + 1 < before.len() {
                            assert(r@[i + 1] == before[i + 1]);
                        } else {
                            assert(before.last() == r@[i]);
                        }
                    }
                    assert forall|i: int| 0 <= i < r@.len() - 1 implies (#[trigger] r@[i]).copy_end
                        < nbuf@.len() by {
                        if i < before.len() - 1 {
                            assert(before[i] == r@[i]);
                        } else {
                            assert(before.last() == r@[i]);
                        }
                    }
                    assert forall|i: int| 0 <= i < r@.len() implies is_bsdiff_cut(
                        obuf@,
                        nbuf@,
                        #[trigger] r@[i],
                    ) by {
                        if i < before.len() {
                            assert(before[i] == r@[i]);
                        }
                    }
                    assert forall|i: int| 0 <= i < r@.len() implies (#[trigger] r@[i]).within(
                        obuf@.len() as int,
                        nbuf@.len() as int,
                    ) by {
                        if i < before.len() {
                            assert(before[i] == r@[i]);
                        }
                    }
                    assert forall|i: int| 0 <= i < r@.len() - 1 implies (#[trigger] r@[i
                        + 1]).add_new_start == r@[i].copy_end by {
                        if i + 1 < before.len() {
                            assert(before[i + 1] == r@[i + 1]);
                            assert(before[i] == r@[i]);
                        } else {
                            assert(before.last() == r@[i]);
                        }
                    }
                }
            },
            None => {
                proof {
                    if obuf@.len() == 0 && nbuf@.len() > 0 {
                        assert(r@ =~= seq![
                            Match { add_old_start: 0, add_new_start: 0, add_length: 0, copy_end: nbuf@.len() as usize },
                        ]);
                    }
                }
                break;
            },
        }
    }
    r
}

} // verus!
