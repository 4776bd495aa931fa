//! The records that the engine produces, and the mathematical model that
//! their contracts speak of: what a control record holds for a match, and
//! how an applier rebuilds the new buffer from a stream of them.
use vstd::prelude::*;

verus! {

/// One segment of the new buffer: a diff region of `add_length` bytes that
/// starts at `add_new_start` in the new buffer and at `add_old_start` in the
/// old one, followed by literal bytes of the new buffer up to `copy_end`.
#[derive(Debug, Clone, Copy, PartialEq, Eq)]
pub struct Match {
    pub add_old_start: usize,
    pub add_new_start: usize,
    pub add_length: usize,
    pub copy_end: usize,
}

impl Match {
    /// Where the literal copy region begins in the new buffer.
    pub open spec fn spec_copy_start(&self) -> int {
        self.add_new_start + self.add_length
    }

    /// The match lies within buffers of these lengths.
    pub open spec fn within(&self, old_len: int, new_len: int) -> bool {
        &&& self.add_old_start + self.add_length <= old_len
        &&& self.add_new_start + self.add_length <= self.copy_end
        &&& self.copy_end <= new_len
    }

    pub fn copy_start(&self) -> (r: usize)
        requires
            self.add_new_start + self.add_length <= usize::MAX,
        ensures
            r == self.spec_copy_start(),
    {
        self.add_new_start + self.add_length
    }
}

/// A control record: bytes to add to the old buffer, bytes to copy
/// verbatim, and how far to move the old cursor afterwards.
#[derive(Debug, Clone)]
pub struct Control {
    pub add: Vec<u8>,
    pub copy: Vec<u8>,
    pub seek: i64,
}

/// The mathematical content of a control record.
pub struct ControlModel {
    pub add: Seq<u8>,
    pub copy: Seq<u8>,
    pub seek: int,
}

impl Control {
    pub open spec fn model(&self) -> ControlModel {
        ControlModel { add: self.add@, copy: self.copy@, seek: self.seek as int }
    }
}

/// `n - o` with 8-bit wrap-around.
pub open spec fn byte_diff(n: u8, o: u8) -> u8 {
    if n >= o {
        (n - o) as u8
    } else {
        (n - o + 256) as u8
    }
}

/// `a + o` with 8-bit wrap-around.
pub open spec fn byte_sum(a: u8, o: u8) -> u8 {
    if a + o < 256 {
        (a + o) as u8
    } else {
        (a + o - 256) as u8
    }
}

/// The diff region of `m`: each new byte minus the old byte it is paired with.
pub open spec fn diff_region(old: Seq<u8>, new: Seq<u8>, m: Match) -> Seq<u8> {
    Seq::new(
        m.add_length as nat,
        |i: int| byte_diff(new[m.add_new_start + i], old[m.add_old_start + i]),
    )
}

/// How far the old cursor moves between the end of the diff region of `m`
/// and the start of the diff region of the next match; zero after the last.
pub open spec fn seek_after(m: Match, next: Option<Match>) -> int {
    match next {
        Some(n) => n.add_old_start - (m.add_old_start + m.add_length),
        None => 0,
    }
}

/// The control record that stands for `m`, followed by `next` if any.
pub open spec fn control_for(old: Seq<u8>, new: Seq<u8>, m: Match, next: Option<Match>) -> ControlModel {
    ControlModel {
        add: diff_region(old, new, m),
        copy: new.subrange(m.spec_copy_start(), m.copy_end as int),
        seek: seek_after(m, next),
    }
}

/// The control records that stand for a whole sequence of matches.
pub open spec fn controls_for(old: Seq<u8>, new: Seq<u8>, ms: Seq<Match>) -> Seq<ControlModel> {
    Seq::new(
        ms.len(),
        |i: int|
            control_for(
                old,
                new,
                ms[i],
                if i + 1 < ms.len() {
                    Some(ms[i + 1])
                } else {
                    None
                },
            ),
    )
}

/// The matches lie within the buffers and cover `[from, to)` of the new
/// buffer in order, each one starting where the previous one ends.
pub open spec fn tiles(ms: Seq<Match>, old_len: int, new_len: int, from: int, to: int) -> bool {
    &&& forall|i: int| 0 <= i < ms.len() ==> (#[trigger] ms[i]).within(old_len, new_len)
    &&& forall|i: int|
        0 <= i < ms.len() - 1 ==> (#[trigger] ms[i + 1]).add_new_start == ms[i].copy_end
    &&& ms.len() == 0 ==> from == to
    &&& ms.len() > 0 ==> ms[0].add_new_start == from && ms.last().copy_end == to
}

/// What an applier rebuilds from `cs`, with its old cursor at `cursor`: for
/// each record the added bytes, then the copied ones; then the cursor moves
/// past the added bytes and by the seek.
pub open spec fn apply(old: Seq<u8>, cs: Seq<ControlModel>, cursor: int) -> Seq<u8>
    decreases cs.len(),
{
    if cs.len() == 0 {
        Seq::empty()
    } else {
        let c = cs[0];
        let added = Seq::new(c.add.len(), |i: int| byte_sum(c.add[i], old[cursor + i]));
        added + c.copy + apply(old, cs.drop_first(), cursor + c.add.len() + c.seek)
    }
}

/// One control record stands for each match, and the last record's seek is
/// zero.
pub proof fn lemma_one_record_per_match(old: Seq<u8>, new: Seq<u8>, ms: Seq<Match>)
    ensures
        controls_for(old, new, ms).len() == ms.len(),
        ms.len() > 0 ==> controls_for(old, new, ms).last().seek == 0,
{
}

proof fn lemma_apply_from(old: Seq<u8>, new: Seq<u8>, ms: Seq<Match>, k: int)
    requires
        0 <= k < ms.len(),
        tiles(ms, old.len() as int, new.len() as int, ms[0].add_new_start as int, new.len() as int),
    ensures
        apply(
            old,
            controls_for(old, new, ms).subrange(k, ms.len() as int),
            ms[k].add_old_start as int,
        ) == new.subrange(ms[k].add_new_start as int, new.len() as int),
    decreases ms.len() - k,
{
    let cs = controls_for(old, new, ms);
    let tail = cs.subrange(k, ms.len() as int);
    let m = ms[k];
    assert(m.within(old.len() as int, new.len() as int));
    let c = tail[0];
    assert(c == cs[k]);
    assert(c.add == diff_region(old, new, m));
    let cursor = m.add_old_start as int;
    let added = Seq::new(c.add.len(), |i: int| byte_sum(c.add[i], old[cursor + i]));
    assert(added =~= new.subrange(m.add_new_start as int, m.spec_copy_start()));
    if k + 1 < ms.len() {
        lemma_apply_from(old, new, ms, k + 1);
        assert(tail.drop_first() =~= cs.subrange(k + 1, ms.len() as int));
        assert(c.seek == ms[k + 1].add_old_start - (m.add_old_start + m.add_length));
        assert(ms[k + 1].add_new_start == m.copy_end);
        assert(new.subrange(m.add_new_start as int, new.len() as int) =~= new.subrange(
            m.add_new_start as int,
            m.spec_copy_start(),
        ) + new.subrange(m.spec_copy_start(), m.copy_end as int) + new.subrange(
            m.copy_end as int,
            new.len() as int,
        ));
    } else {
        assert(ms.last() == m);
        assert(tail.drop_first().len() == 0);
        assert(apply(old, tail.drop_first(), cursor + c.add.len() + c.seek) =~= Seq::<u8>::empty());
        assert(new.subrange(m.add_new_start as int, new.len() as int) =~= new.subrange(
            m.add_new_start as int,
            m.spec_copy_start(),
        ) + new.subrange(m.spec_copy_start(), m.copy_end as int));
    }
}

/// Round trip: for matches that lie within the buffers and tile the whole
/// new buffer, the first one starting at old offset zero, an applier that
/// starts with its old cursor at zero rebuilds exactly the new buffer from
/// the control records that stand for them.
pub proof fn lemma_round_trip(old: Seq<u8>, new: Seq<u8>, ms: Seq<Match>)
    requires
        tiles(ms, old.len() as int, new.len() as int, 0, new.len() as int),
        ms.len() > 0 ==> ms[0].add_old_start == 0,
    ensures
        apply(old, controls_for(old, new, ms), 0) == new,
{
    if ms.len() == 0 {
        assert(new =~= Seq::<u8>::empty());
    } else {
        lemma_apply_from(old, new, ms, 0);
        assert(controls_for(old, new, ms).subrange(0, ms.len() as int) =~= controls_for(old, new, ms));
        assert(new.subrange(0, new.len() as int) =~= new);
    }
}

} // verus!
