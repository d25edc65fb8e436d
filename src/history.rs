//! Undo/redo of edits to an entry list, kept as the edits themselves rather
//! than as copies of the list.

use vstd::prelude::*;
use crate::ui_state::{Entry, EntryV, entry_views};

verus! {

pub const DEFAULT_HISTORY_LIMIT: usize = 100;

/// One entry's texts before and after an edit.
#[derive(Clone, Debug, PartialEq, Eq)]
pub struct SingleEditOp {
    pub index: usize,
    pub before_source: String,
    pub before_target: String,
    pub after_source: String,
    pub after_target: String,
}

/// One entry's target text before and after a batch edit.
#[derive(Clone, Debug, PartialEq, Eq)]
pub struct BatchTargetChange {
    pub index: usize,
    pub before_target: String,
    pub after_target: String,
}

#[derive(Debug)]
enum EntryOp {
    SingleEdit(SingleEditOp),
    BatchTargetEdit(Vec<BatchTargetChange>),
}

/// An edit as the history sees it.
pub enum OpV {
    Single(usize, Seq<char>, Seq<char>, Seq<char>, Seq<char>),
    Batch(Seq<(usize, Seq<char>, Seq<char>)>),
}

pub open spec fn change_view(c: BatchTargetChange) -> (usize, Seq<char>, Seq<char>) {
    (c.index, c.before_target@, c.after_target@)
}

pub open spec fn change_views(s: Seq<BatchTargetChange>) -> Seq<(usize, Seq<char>, Seq<char>)> {
    s.map_values(|c: BatchTargetChange| change_view(c))
}

spec fn op_view(op: EntryOp) -> OpV {
    match op {
        EntryOp::SingleEdit(o) => OpV::Single(
            o.index,
            o.before_source@,
            o.before_target@,
            o.after_source@,
            o.after_target@,
        ),
        EntryOp::BatchTargetEdit(v) => OpV::Batch(change_views(v@)),
    }
}

spec fn op_views(s: Seq<EntryOp>) -> Seq<OpV> {
    s.map_values(|o: EntryOp| op_view(o))
}

/// Edits done (oldest first), edits undone (latest undone last), and how
/// many done edits are kept.
#[derive(Debug)]
pub struct EntryHistory {
    past: Vec<EntryOp>,
    future: Vec<EntryOp>,
    limit: usize,
}

impl View for EntryHistory {
    type V = (Seq<OpV>, Seq<OpV>, usize);

    closed spec fn view(&self) -> (Seq<OpV>, Seq<OpV>, usize) {
        (op_views(self.past@), op_views(self.future@), self.limit)
    }
}

/// Sets the target of entry `i`.
pub open spec fn set_target(es: Seq<EntryV>, i: int, t: Seq<char>) -> Seq<EntryV> {
    es.update(i, (es[i].0, es[i].1, t))
}

/// The first `n` changes applied in order, each setting the target to its
/// after (`forward`) or before text; an index past the end stops the work,
/// the changes before it applied.
pub open spec fn batch_applied(es: Seq<EntryV>, cs: Seq<(usize, Seq<char>, Seq<char>)>, forward: bool, n: int) -> (Seq<EntryV>, bool)
    decreases n,
{
    if n <= 0 {
        (es, true)
    } else {
        let prev = batch_applied(es, cs, forward, n - 1);
        if !prev.1 {
            prev
        } else {
            let c = cs[n - 1];
            if c.0 >= prev.0.len() {
                (prev.0, false)
            } else {
                (set_target(prev.0, c.0 as int, if forward { c.2 } else { c.1 }), true)
            }
        }
    }
}

/// An edit applied forward or backward: the entries after it, and whether
/// every index it names exists.
pub open spec fn op_applied(es: Seq<EntryV>, op: OpV, forward: bool) -> (Seq<EntryV>, bool) {
    match op {
        OpV::Single(i, bs, bt, a_s, at) => if i < es.len() {
            (es.update(i as int, (es[i as int].0, if forward { a_s } else { bs }, if forward { at } else { bt })), true)
        } else {
            (es, false)
        },
        OpV::Batch(cs) => batch_applied(es, cs, forward, cs.len() as int),
    }
}

/// The changes of a batch that change something, in order.
pub open spec fn effective_changes(cs: Seq<(usize, Seq<char>, Seq<char>)>, n: int) -> Seq<(usize, Seq<char>, Seq<char>)>
    decreases n,
{
    if n <= 0 {
        Seq::empty()
    } else if cs[n - 1].1 != cs[n - 1].2 {
        effective_changes(cs, n - 1).push(cs[n - 1])
    } else {
        effective_changes(cs, n - 1)
    }
}

/// The done edits once `op` is recorded: the latest `limit` of them.
pub open spec fn pushed(past: Seq<OpV>, op: OpV, limit: usize) -> Seq<OpV> {
    let p = past.push(op);
    if p.len() > limit {
        p.subrange(p.len() - limit, p.len() as int)
    } else {
        p
    }
}

fn copy_entry_with(e: &Entry, source: &String, target: &String) -> (r: Entry)
    ensures
        r@ == (e.key@, source@, target@),
{
    Entry { key: e.key.clone(), source_text: source.clone(), target_text: target.clone() }
}

fn apply_single(entries: &mut Vec<Entry>, op: &SingleEditOp, forward: bool) -> (r: bool)
    ensures
        (entry_views(final(entries)@), r) == op_applied(
            entry_views(old(entries)@),
            op_view(EntryOp::SingleEdit(*op)),
            forward,
        ),
{
    if op.index >= entries.len() {
        return false;
    }
    let i = op.index;
    let ghost before = entries@;
    let e = if forward {
        copy_entry_with(&entries[i], &op.after_source, &op.after_target)
    } else {
        copy_entry_with(&entries[i], &op.before_source, &op.before_target)
    };
    entries[i] = e;
    proof {
        assert(entry_views(entries@) =~= entry_views(before).update(i as int, e@));
    }
    true
}

fn apply_batch_target(entries: &mut Vec<Entry>, changes: &Vec<BatchTargetChange>, forward: bool) -> (r: bool)
    ensures
        (entry_views(final(entries)@), r) == batch_applied(
            entry_views(old(entries)@),
            change_views(changes@),
            forward,
            changes@.len() as int,
        ),
{
    let ghost start = entry_views(entries@);
    let ghost cs = change_views(changes@);
    let n = changes.len();
    for k in 0..n
        invariant
            n == changes@.len(),
            cs == change_views(changes@),
            start == entry_views(old(entries)@),
            batch_applied(start, cs, forward, k as int) == (entry_views(entries@), true),
    {
        let c = &changes[k];
        proof {
            assert(cs[k as int] == change_view(*c));
        }
        if c.index >= entries.len() {
            proof {
                lemma_batch_stops(start, cs, forward, k + 1, n as int);
            }
            return false;
        }
        let i = c.index;
        let ghost before = entries@;
        let e = if forward {
            copy_entry_with(&entries[i], &entries[i].source_text, &c.after_target)
        } else {
            copy_entry_with(&entries[i], &entries[i].source_text, &c.before_target)
        };
        entries[i] = e;
        proof {
            assert(entry_views(entries@) =~= set_target(entry_views(before), i as int, if forward {
                c.after_target@
            } else {
                c.before_target@
            }));
        }
    }
    true
}

proof fn lemma_batch_stops(es: Seq<EntryV>, cs: Seq<(usize, Seq<char>, Seq<char>)>, forward: bool, m: int, n: int)
    requires
        0 < m <= n,
        !batch_applied(es, cs, forward, m).1,
    ensures
        batch_applied(es, cs, forward, n) == batch_applied(es, cs, forward, m),
    decreases n - m,
{
    if n > m {
        lemma_batch_stops(es, cs, forward, m, n - 1);
    }
}

fn apply_op(entries: &mut Vec<Entry>, op: &EntryOp, forward: bool) -> (r: bool)
    ensures
        (entry_views(final(entries)@), r) == op_applied(entry_views(old(entries)@), op_view(*op), forward),
{
    match op {
        EntryOp::SingleEdit(o) => apply_single(entries, o, forward),
        EntryOp::BatchTargetEdit(cs) => apply_batch_target(entries, cs, forward),
    }
}

fn copy_change(c: &BatchTargetChange) -> (r: BatchTargetChange)
    ensures
        change_view(r) == change_view(*c),
{
    BatchTargetChange { index: c.index, before_target: c.before_target.clone(), after_target: c.after_target.clone() }
}

impl EntryHistory {
    pub fn with_limit(limit: usize) -> (r: Self)
        ensures
            r@ == (Seq::<OpV>::empty(), Seq::<OpV>::empty(), limit),
    {
        let r = EntryHistory { past: Vec::new(), future: Vec::new(), limit };
        proof {
            assert(op_views(r.past@) =~= Seq::<OpV>::empty());
        }
        r
    }

    pub fn clear(&mut self)
        ensures
            final(self)@ == (Seq::<OpV>::empty(), Seq::<OpV>::empty(), old(self)@.2),
    {
        self.past.clear();
        self.future.clear();
        proof {
            assert(op_views(self.past@) =~= Seq::<OpV>::empty());
            assert(op_views(self.future@) =~= Seq::<OpV>::empty());
        }
    }

    fn push_op(&mut self, op: EntryOp)
        ensures
            final(self)@ == (pushed(old(self)@.0, op_view(op), old(self)@.2), Seq::<OpV>::empty(), old(self)@.2),
    {
        let ghost v = op_view(op);
        let ghost before = op_views(self.past@);
        self.past.push(op);
        proof {
            assert(op_views(self.past@) =~= before.push(v));
        }
        if self.past.len() > self.limit {
            let overflow = self.past.len() - self.limit;
            let ghost full = self.past@;
            let kept = self.past.split_off(overflow);
            self.past = kept;
            proof {
                assert(op_views(self.past@) =~= op_views(full).subrange(overflow as int, full.len() as int));
            }
        }
        self.future.clear();
        proof {
            assert(op_views(self.future@) =~= Seq::<OpV>::empty());
        }
    }

    /// Records an edit of one entry; one that changes nothing is not recorded.
    pub fn record_single_edit(&mut self, op: SingleEditOp) -> (r: bool)
        ensures
            r == !(op.before_source@ == op.after_source@ && op.before_target@ == op.after_target@),
            r ==> final(self)@ == (
                pushed(
                    old(self)@.0,
                    OpV::Single(op.index, op.before_source@, op.before_target@, op.after_source@, op.after_target@),
                    old(self)@.2,
                ),
                Seq::<OpV>::empty(),
                old(self)@.2,
            ),
            !r ==> final(self)@ == old(self)@,
    {
        if op.before_source == op.after_source && op.before_target == op.after_target {
            return false;
        }
        self.push_op(EntryOp::SingleEdit(op));
        true
    }

    /// Records the changes of a batch that change something; false, and
    /// nothing recorded, when none does.
    pub fn record_batch_target_edit(&mut self, changes: Vec<BatchTargetChange>) -> (r: bool)
        ensures
            ({
                let eff = effective_changes(change_views(changes@), changes@.len() as int);
                &&& r == (eff.len() > 0)
                &&& r ==> final(self)@ == (pushed(old(self)@.0, OpV::Batch(eff), old(self)@.2), Seq::<OpV>::empty(), old(self)@.2)
                &&& !r ==> final(self)@ == old(self)@
            }),
    {
        let ghost cs = change_views(changes@);
        let mut kept: Vec<BatchTargetChange> = Vec::new();
        let n = changes.len();
        for k in 0..n
            invariant
                n == changes@.len(),
                cs == change_views(changes@),
                change_views(kept@) == effective_changes(cs, k as int),
        {
            let c = &changes[k];
            proof {
                assert(cs[k as int] == change_view(*c));
            }
            if c.before_target != c.after_target {
                let ghost before = kept@;
                kept.push(copy_change(c));
                proof {
                    assert(change_views(kept@) =~= change_views(before).push(change_view(*c)));
                }
            }
        }
        if kept.len() == 0 {
            return false;
        }
        self.push_op(EntryOp::BatchTargetEdit(kept));
        true
    }

    /// Undoes the latest done edit. False when there is none, and also when
    /// the edit names an entry the list no longer has: then the history is
    /// cleared.
    pub fn undo(&mut self, entries: &mut Vec<Entry>) -> (r: bool)
        ensures
            old(self)@.0.len() == 0 ==> !r && final(self)@ == old(self)@ && final(entries)@ == old(entries)@,
            old(self)@.0.len() > 0 ==> ({
                let done = op_applied(entry_views(old(entries)@), old(self)@.0.last(), false);
                &&& entry_views(final(entries)@) == done.0
                &&& r == done.1
                &&& r ==> final(self)@ == (old(self)@.0.drop_last(), old(self)@.1.push(old(self)@.0.last()), old(self)@.2)
                &&& !r ==> final(self)@ == (Seq::<OpV>::empty(), Seq::<OpV>::empty(), old(self)@.2)
            }),
    {
        let ghost p = op_views(self.past@);
        let ghost f = op_views(self.future@);
        let op = match self.past.pop() {
            Some(op) => op,
            None => return false,
        };
        proof {
            assert(op_views(self.past@) =~= p.drop_last());
        }
        if !apply_op(entries, &op, false) {
            self.past.clear();
            self.future.clear();
            proof {
                assert(op_views(self.past@) =~= Seq::<OpV>::empty());
                assert(op_views(self.future@) =~= Seq::<OpV>::empty());
            }
            return false;
        }
        self.future.push(op);
        proof {
            assert(op_views(self.future@) =~= f.push(p.last()));
        }
        true
    }

    /// Redoes the latest undone edit, under the same rules as `undo`.
    pub fn redo(&mut self, entries: &mut Vec<Entry>) -> (r: bool)
        ensures
            old(self)@.1.len() == 0 ==> !r && final(self)@ == old(self)@ && final(entries)@ == old(entries)@,
            old(self)@.1.len() > 0 ==> ({
                let done = op_applied(entry_views(old(entries)@), old(self)@.1.last(), true);
                &&& entry_views(final(entries)@) == done.0
                &&& r == done.1
                &&& r ==> final(self)@ == (old(self)@.0.push(old(self)@.1.last()), old(self)@.1.drop_last(), old(self)@.2)
                &&& !r ==> final(self)@ == (Seq::<OpV>::empty(), Seq::<OpV>::empty(), old(self)@.2)
            }),
    {
        let ghost p = op_views(self.past@);
        let ghost f = op_views(self.future@);
        let op = match self.future.pop() {
            Some(op) => op,
            None => return false,
        };
        proof {
            assert(op_views(self.future@) =~= f.drop_last());
        }
        if !apply_op(entries, &op, true) {
            self.past.clear();
            self.future.clear();
            proof {
                assert(op_views(self.past@) =~= Seq::<OpV>::empty());
                assert(op_views(self.future@) =~= Seq::<OpV>::empty());
            }
            return false;
        }
        self.past.push(op);
        proof {
            assert(op_views(self.past@) =~= p.push(f.last()));
        }
        true
    }
}

} // verus!
