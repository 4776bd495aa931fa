//! The whole pipeline end to end: diff, translate, then rebuild the new
//! buffer the way an applier does and compare.
use vstd::prelude::*;
use crate::model::{
    Match,
    Control,
    ControlModel,
    apply,
    byte_sum,
    controls_for,
    tiles,
    lemma_round_trip,
};
use crate::translate::Translator;
use crate::DiffParams;
use crate::diff;

verus! {

/// Applying `cs` from `cursor` never reads outside an old buffer of
/// `old_len` bytes.
pub open spec fn fits(old_len: int, cs: Seq<ControlModel>, cursor: int) -> bool
    decreases cs.len(),
{
    cs.len() == 0 || (0 <= cursor && cursor + cs[0].add.len() <= old_len && fits(
        old_len,
        cs.drop_first(),
        cursor + cs[0].add.len() + cs[0].seek,
    ))
}

pub open spec fn models(cs: Seq<Control>) -> Seq<ControlModel> {
    cs.map_values(|c: Control| c.model())
}

proof fn lemma_fits_from(old: Seq<u8>, new: Seq<u8>, ms: Seq<Match>, k: int)
    requires
        0 <= k < ms.len(),
        tiles(ms, old.len() as int, new.len() as int, 0, new.len() as int),
    ensures
        fits(
            old.len() as int,
            controls_for(old, new, ms).subrange(k, ms.len() as int),
            ms[k].add_old_start as int,
        ),
    decreases ms.len() - k,
{
    let cs = controls_for(old, new, ms);
    let tail = cs.subrange(k, ms.len() as int);
    assert(ms[k].within(old.len() as int, new.len() as int));
    assert(tail[0] == cs[k]);
    assert(tail[0].add.len() == ms[k].add_length);
    if k + 1 < ms.len() {
        assert(tail[0].seek == ms[k + 1].add_old_start - (ms[k].add_old_start + ms[k].add_length));
        lemma_fits_from(old, new, ms, k + 1);
        assert(tail.drop_first() =~= cs.subrange(k + 1, ms.len() as int));
        assert(fits(
            old.len() as int,
            tail.drop_first(),
            ms[k].add_old_start + tail[0].add.len() + tail[0].seek,
        ));
    } else {
        assert(tail.drop_first().len() == 0);
        assert(fits(
            old.len() as int,
            tail.drop_first(),
            ms[k].add_old_start + tail[0].add.len() + tail[0].seek,
        ));
    }
}

/// Runs a translator over `ms` and closes it: one control record per match,
/// each the one that stands for it.
pub fn translate_all(obuf: &[u8], nbuf: &[u8], ms: &Vec<Match>) -> (r: Vec<Control>)
    requires
        obuf@.len() <= isize::MAX,
        nbuf@.len() <= isize::MAX,
        tiles(ms@, obuf@.len() as int, nbuf@.len() as int, 0, nbuf@.len() as int),
    ensures
        models(r@) == controls_for(obuf@, nbuf@, ms@),
{
    let mut t = Translator::new(obuf, nbuf);
    let mut r: Vec<Control> = Vec::new();
    let mut i: usize = 0;
    while i < ms.len()
        invariant
            t.wf(),
            !t.is_closed(),
            t.old_bytes() == obuf@,
            t.new_bytes() == nbuf@,
            i <= ms@.len(),
            tiles(ms@, obuf@.len() as int, nbuf@.len() as int, 0, nbuf@.len() as int),
            t.matches_seen() == ms@.take(i as int),
            i > 0 ==> t.pending() == Some(ms@[i - 1]),
            i == 0 ==> t.pending() is None,
            models(r@) == t.controls_sent(),
        decreases ms@.len() - i,
    {
        let m = ms[i];
        assert(ms@[i as int].within(obuf@.len() as int, nbuf@.len() as int));
        proof {
            if i > 0 {
                let j = i - 1;
                assert(ms@[j + 1].add_new_start == ms@[j].copy_end);
            }
        }
        let ghost before = r@;
        if let Some(c) = t.translate(m) {
            r.push(c);
            assert(models(r@) =~= models(before).push(c.model()));
        }
        assert(ms@.take(i + 1) =~= ms@.take(i as int).push(m));
        i += 1;
    }
    let ghost before = r@;
    if let Some(c) = t.close() {
        r.push(c);
        assert(models(r@) =~= models(before).push(c.model()));
    }
    assert(ms@.take(ms@.len() as int) =~= ms@);
    r
}

/// Rebuilds a buffer from `old` and `cs` as an applier does: for each record
/// the added bytes (wrapping sum with the old bytes at the cursor), then the
/// copied ones, then the cursor moves past the added bytes and by the seek.
/// `None` exactly when a record would read outside `old`.
pub fn apply_controls(old: &[u8], cs: &Vec<Control>) -> (r: Option<Vec<u8>>)
    requires
        old@.len() <= isize::MAX,
    ensures
        r is Some <==> fits(old@.len() as int, models(cs@), 0),
        r matches Some(v) ==> v@ == apply(old@, models(cs@), 0),
{
    let ghost all = models(cs@);
    let mut out: Vec<u8> = Vec::new();
    let mut cursor: i128 = 0;
    let mut k: usize = 0;
    assert(all.skip(0) =~= all);
    assert(out@ + apply(old@, all, 0) =~= apply(old@, all, 0));
    while k < cs.len()
        invariant
            old@.len() <= isize::MAX,
            all == models(cs@),
            k <= cs@.len(),
            -0x1_0000_0000_0000_0000 <= cursor <= 0x2_0000_0000_0000_0000,
            out@ + apply(old@, all.skip(k as int), cursor as int) == apply(old@, all, 0),
            fits(old@.len() as int, all, 0) == fits(old@.len() as int, all.skip(k as int), cursor as int),
        decreases cs@.len() - k,
    {
        let c = &cs[k];
        let ghost rest = all.skip(k as int);
        assert(rest[0] == c.model());
        assert(rest.drop_first() =~= all.skip(k + 1));
        if cursor < 0 || cursor + c.add.len() as i128 > old.len() as i128 {
            return None;
        }
        let start: usize = cursor as usize;
        let ghost out0 = out@;
        let mut i: usize = 0;
        while i < c.add.len()
            invariant
                old@.len() <= isize::MAX,
                start + c.add@.len() <= old@.len(),
                i <= c.add@.len(),
                out@ == out0 + Seq::new(i as nat, |j: int| byte_sum(c.add@[j], old@[start + j])),
            decreases c.add@.len() - i,
        {
            let b = c.add[i].wrapping_add(old[start + i]);
            out.push(b);
            assert(out@ =~= out0 + Seq::new((i + 1) as nat, |j: int| byte_sum(c.add@[j], old@[start + j])));
            i += 1;
        }
        let ghost out1 = out@;
        let mut j: usize = 0;
        while j < c.copy.len()
            invariant
                j <= c.copy@.len(),
                out@ == out1 + c.copy@.take(j as int),
            decreases c.copy@.len() - j,
        {
            out.push(c.copy[j]);
            assert(out@ =~= out1 + c.copy@.take(j + 1));
            j += 1;
        }
        proof {
            let added = Seq::new(c.add@.len(), |j: int| byte_sum(c.add@[j], old@[cursor + j]));
            assert(out@ =~= out0 + added + c.copy@);
            assert(c.copy@.take(c.copy@.len() as int) =~= c.copy@);
        }
        cursor = cursor + c.add.len() as i128 + c.seek as i128;
        k += 1;
    }
    proof {
        assert(all.skip(k as int).len() == 0);
        assert(out@ + Seq::<u8>::empty() =~= out@);
    }
    Some(out)
}

/// Whether two byte buffers are equal.
fn same_bytes(a: &Vec<u8>, b: &[u8]) -> (r: bool)
    ensures
        r == (a@ == b@),
{
    if a.len() != b.len() {
        return false;
    }
    let mut i: usize = 0;
    while i < a.len()
        invariant
            a@.len() == b@.len(),
            i <= a@.len(),
            a@.take(i as int) == b@.take(i as int),
        decreases a@.len() - i,
    {
        if a[i] != b[i] {
            assert(a@[i as int] != b@[i as int]);
            return false;
        }
        assert(a@.take(i + 1) =~= a@.take(i as int).push(a@[i as int]));
        assert(b@.take(i + 1) =~= b@.take(i as int).push(b@[i as int]));
        i += 1;
    }
    assert(a@.take(i as int) =~= a@);
    assert(b@.take(i as int) =~= b@);
    true
}

/// Diffs `older` into `newer` with the default parameters, translates the
/// matches into control records, rebuilds the new buffer from them and
/// compares. This always holds.
pub fn assert_cycle(older: &[u8], newer: &[u8]) -> (r: bool)
    requires
        older@.len() < i32::MAX,
        newer@.len() <= isize::MAX,
    ensures
        r,
{
    let params = DiffParams::default();
    let ms = diff(older, newer, &params);
    let cs = translate_all(older, newer, &ms);
    proof {
        lemma_round_trip(older@, newer@, ms@);
        if ms@.len() > 0 {
            lemma_fits_from(older@, newer@, ms@, 0);
            assert(controls_for(older@, newer@, ms@).subrange(0, ms@.len() as int) =~= controls_for(older@, newer@, ms@));
        } else {
            assert(controls_for(older@, newer@, ms@).len() == 0);
        }
    }
    match apply_controls(older, &cs) {
        Some(v) => same_bytes(&v, newer),
        None => false,
    }
}

} // verus!
