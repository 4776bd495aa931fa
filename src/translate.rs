//! Turns a stream of matches into control records. A record's seek depends
//! on the match after it, so the translator holds one match back.
use vstd::prelude::*;
use vstd::slice::slice_to_vec;
use crate::model::{Match, Control, ControlModel, diff_region, control_for, controls_for, tiles};

verus! {

pub struct Translator<'a> {
    obuf: &'a [u8],
    nbuf: &'a [u8],
    prev_match: Option<Match>,
    buf: Vec<u8>,
    closed: bool,
    /// Every match handed to `translate`, in order.
    history: Ghost<Seq<Match>>,
    /// Every control record handed out, in order.
    sent: Ghost<Seq<ControlModel>>,
}

impl<'a> Translator<'a> {
    pub closed spec fn old_bytes(&self) -> Seq<u8> {
        self.obuf@
    }

    pub closed spec fn new_bytes(&self) -> Seq<u8> {
        self.nbuf@
    }

    /// Every match handed to `translate`, in order.
    pub closed spec fn matches_seen(&self) -> Seq<Match> {
        self.history@
    }

    /// Every control record handed out, in order.
    pub closed spec fn controls_sent(&self) -> Seq<ControlModel> {
        self.sent@
    }

    pub closed spec fn is_closed(&self) -> bool {
        self.closed
    }

    pub closed spec fn wf(&self) -> bool {
        let ms = self.history@;
        let old = self.obuf@;
        let new = self.nbuf@;
        &&& old.len() <= isize::MAX
        &&& new.len() <= isize::MAX
        &&& ms.len() == 0 || tiles(
            ms,
            old.len() as int,
            new.len() as int,
            ms[0].add_new_start as int,
            ms.last().copy_end as int,
        )
        &&& self.closed ==> self.prev_match is None && self.sent@ == controls_for(old, new, ms)
        &&& !self.closed ==> (self.prev_match is Some <==> ms.len() > 0)
        &&& !self.closed && ms.len() > 0 ==> {
            let p = self.prev_match->0;
            &&& p == ms.last()
            &&& self.buf@ == diff_region(old, new, p)
            &&& self.sent@ == controls_for(old, new, ms).take(ms.len() - 1)
        }
        &&& !self.closed && ms.len() == 0 ==> self.sent@.len() == 0
    }

    /// The last match handed to `translate`, if the translator is open.
    pub closed spec fn pending(&self) -> Option<Match> {
        self.prev_match
    }

    pub fn new(obuf: &'a [u8], nbuf: &'a [u8]) -> (r: Self)
        requires
            obuf@.len() <= isize::MAX,
            nbuf@.len() <= isize::MAX,
        ensures
            r.wf(),
            !r.is_closed(),
            r.pending() is None,
            r.old_bytes() == obuf@,
            r.new_bytes() == nbuf@,
            r.matches_seen().len() == 0,
            r.controls_sent().len() == 0,
    {
        Translator {
            obuf,
            nbuf,
            prev_match: None,
            buf: Vec::new(),
            closed: false,
            history: Ghost(Seq::empty()),
            sent: Ghost(Seq::empty()),
        }
    }

    /// The record for the held match, whose successor is `next`.
    fn make_control(&self, pm: Match, next: Option<Match>) -> (c: Control)
        requires
            self.obuf@.len() <= isize::MAX,
            self.nbuf@.len() <= isize::MAX,
            pm.within(self.obuf@.len() as int, self.nbuf@.len() as int),
            self.buf@ == diff_region(self.obuf@, self.nbuf@, pm),
            next matches Some(n) ==> n.within(self.obuf@.len() as int, self.nbuf@.len() as int),
        ensures
            c.model() == control_for(self.obuf@, self.nbuf@, pm, next),
    {
        let seek: i64 = match next {
            Some(n) => {
                let end: usize = pm.add_old_start + pm.add_length;
                let to: i64 = n.add_old_start as i64;
                let from: i64 = end as i64;
                to - from
            },
            None => 0,
        };
        let copy = slice_to_vec(&self.nbuf[pm.copy_start()..pm.copy_end]);
        let add = slice_to_vec(self.buf.as_slice());
        Control { add, copy, seek }
    }

    /// Takes the next match. Returns the record of the match before it, if
    /// there was one; the new match is held back until its successor or
    /// `close` fixes its seek.
    pub fn translate(&mut self, m: Match) -> (r: Option<Control>)
        requires
            old(self).wf(),
            !old(self).is_closed(),
            m.within(old(self).old_bytes().len() as int, old(self).new_bytes().len() as int),
            old(self).pending() matches Some(p) ==> m.add_new_start == p.copy_end,
        ensures
            final(self).wf(),
            !final(self).is_closed(),
            final(self).pending() == Some(m),
            final(self).old_bytes() == old(self).old_bytes(),
            final(self).new_bytes() == old(self).new_bytes(),
            final(self).matches_seen() == old(self).matches_seen().push(m),
            match old(self).pending() {
                Some(p) => r matches Some(c) && c.model() == control_for(
                    old(self).old_bytes(),
                    old(self).new_bytes(),
                    p,
                    Some(m),
                ) && final(self).controls_sent() == old(self).controls_sent().push(c.model()),
                None => r is None && final(self).controls_sent() == old(self).controls_sent(),
            },
    {
        let ghost old_ms = self.history@;
        let ghost obytes = self.obuf@;
        let ghost nbytes = self.nbuf@;
        let ghost old_sent = self.sent@;
        proof {
            if old_ms.len() > 0 {
                assert(self.prev_match == Some(old_ms.last()));
                assert(old_sent == controls_for(obytes, nbytes, old_ms).take(old_ms.len() - 1));
            } else {
                assert(self.prev_match is None);
                assert(old_sent.len() == 0);
            }
        }
        let r = match self.prev_match {
            Some(pm) => {
                let c = self.make_control(pm, Some(m));
                self.sent = Ghost(self.sent@.push(c.model()));
                Some(c)
            },
            None => None,
        };
        let ghost sent_now = self.sent@;
        let ghost closed_now = self.closed;
        self.buf.clear();
        let mut i: usize = 0;
        while i < m.add_length
            invariant
                self.obuf@ == obytes,
                self.nbuf@ == nbytes,
                self.sent@ == sent_now,
                self.history@ == old_ms,
                self.closed == closed_now,
                m.within(obytes.len() as int, nbytes.len() as int),
                obytes.len() <= isize::MAX,
                nbytes.len() <= isize::MAX,
                i <= m.add_length,
                self.buf@ =~= diff_region(obytes, nbytes, m).take(i as int),
            decreases m.add_length - i,
        {
            let d = self.nbuf[m.add_new_start + i].wrapping_sub(self.obuf[m.add_old_start + i]);
            self.buf.push(d);
            i += 1;
        }
        self.prev_match = Some(m);
        self.history = Ghost(old_ms.push(m));
        proof {
            let ms = self.history@;
            assert(self.buf@ =~= diff_region(obytes, nbytes, m));
            assert(ms.last() == m);
            assert forall|k: int| 0 <= k < ms.len() - 1 implies
                (#[trigger] ms[k + 1]).add_new_start == ms[k].copy_end by {
                if k + 1 < old_ms.len() {
                    assert(old_ms[k + 1] == ms[k + 1]);
                }
            }
            assert forall|k: int| 0 <= k < ms.len() implies
                (#[trigger] ms[k]).within(obytes.len() as int, nbytes.len() as int) by {
                if k < old_ms.len() {
                    assert(old_ms[k] == ms[k]);
                }
            }
            let cs_old = controls_for(obytes, nbytes, old_ms);
            let cs = controls_for(obytes, nbytes, ms);
            if old_ms.len() > 0 {
                assert(self.sent@ == old_sent.push(control_for(obytes, nbytes, old_ms.last(), Some(m))));
                assert(old_ms.last() == ms[old_ms.len() - 1]);
                assert(cs[old_ms.len() - 1] == control_for(obytes, nbytes, old_ms.last(), Some(m)));
                assert forall|k: int| 0 <= k < old_ms.len() - 1 implies cs_old[k] == cs[k] by {
                    assert(old_ms[k] == ms[k]);
                    assert(old_ms[k + 1] == ms[k + 1]);
                }
            }
            assert(self.sent@ =~= cs.take(ms.len() - 1));
        }
        r
    }

    /// Ends the stream: the held match, if any, is handed out with seek 0.
    /// A second call hands out nothing.
    pub fn close(&mut self) -> (r: Option<Control>)
        requires
            old(self).wf(),
        ensures
            final(self).wf(),
            final(self).is_closed(),
            final(self).old_bytes() == old(self).old_bytes(),
            final(self).new_bytes() == old(self).new_bytes(),
            final(self).matches_seen() == old(self).matches_seen(),
            final(self).controls_sent() == controls_for(
                old(self).old_bytes(),
                old(self).new_bytes(),
                old(self).matches_seen(),
            ),
            old(self).is_closed() ==> r is None && final(self).controls_sent() == old(self).controls_sent(),
            !old(self).is_closed() ==> match old(self).pending() {
                Some(p) => r matches Some(c) && c.model() == control_for(
                    old(self).old_bytes(),
                    old(self).new_bytes(),
                    p,
                    None,
                ) && final(self).controls_sent() == old(self).controls_sent().push(c.model()),
                None => r is None && final(self).controls_sent() == old(self).controls_sent(),
            },
    {
        if self.closed {
            return None;
        }
        let ghost ms = self.history@;
        let r = match self.prev_match {
            Some(pm) => {
                let c = self.make_control(pm, None);
                self.sent = Ghost(self.sent@.push(c.model()));
                Some(c)
            },
            None => None,
        };
        self.prev_match = None;
        self.closed = true;
        proof {
            let cs = controls_for(self.obuf@, self.nbuf@, ms);
            assert(self.sent@ =~= cs);
        }
        r
    }
}

} // verus!
