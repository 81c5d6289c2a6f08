//! The work waiting for the background scan: recordings one at a time, current selection first.
//! Once no scan is waiting, loudness is measured for the scanned files (slower, and not needed
//! to start working on a file).
use vstd::prelude::*;
use crate::text::{same_str, strings};

verus! {

/// Paths waiting to be scanned, and paths waiting for their loudness.
#[derive(Clone, Debug, PartialEq, Eq)]
pub struct Queues {
    pub scans: Vec<String>,
    pub loudness: Vec<String>,
}

/// What to do next.
#[derive(Clone, Debug, PartialEq, Eq)]
pub enum Work {
    Scan(String),
    Loudness(String),
}

/// `list` without `path`.
pub open spec fn without(list: Seq<Seq<char>>, path: Seq<char>) -> Seq<Seq<char>>
    decreases list.len(),
{
    if list.len() == 0 {
        Seq::empty()
    } else if list.last() == path {
        without(list.drop_last(), path)
    } else {
        without(list.drop_last(), path).push(list.last())
    }
}

/// `path`, and then the rest of `list`.
pub open spec fn first_of_all(list: Seq<Seq<char>>, path: Seq<char>) -> Seq<Seq<char>> {
    seq![path] + without(list, path)
}

fn to_front(list: &Vec<String>, path: String) -> (r: Vec<String>)
    ensures
        strings(r@) == first_of_all(strings(list@), path@),
{
    let mut out: Vec<String> = Vec::new();
    let ghost all = strings(list@);
    let ghost p = path@;
    let p2 = path.clone();
    out.push(path);
    let mut i: usize = 0;
    assert(strings(out@) =~= seq![p] + without(all.take(0), p));
    while i < list.len()
        invariant
            i <= list@.len(),
            all == strings(list@),
            p2@ == p,
            strings(out@) == seq![p] + without(all.take(i as int), p),
        decreases list@.len() - i,
    {
        let ghost before = strings(out@);
        assert(all.take(i + 1).drop_last() =~= all.take(i as int));
        assert(all.take(i + 1).last() == list@[i as int]@);
        if !same_str(list[i].as_str(), p2.as_str()) {
            out.push(list[i].clone());
            assert(strings(out@) =~= before.push(list@[i as int]@));
            assert(before.push(list@[i as int]@) =~= seq![p] + without(all.take(i + 1), p));
        }
        i += 1;
    }
    assert(all.take(i as int) =~= all);
    out
}

impl Default for Queues {
    fn default() -> (r: Queues)
        ensures
            r.scans@.len() == 0,
            r.loudness@.len() == 0,
    {
        Queues { scans: Vec::new(), loudness: Vec::new() }
    }
}

impl Queues {
    /// Replace the pending work (e.g. a new folder was opened).
    pub fn set_queue(&mut self, paths: Vec<String>)
        ensures
            final(self).scans@ == paths@,
            final(self).loudness@.len() == 0,
    {
        self.scans = paths;
        self.loudness = Vec::new();
    }

    /// Move `path` to the front of the scan queue (adding it if missing).
    pub fn prioritize(&mut self, path: String)
        ensures
            strings(final(self).scans@) == first_of_all(strings(old(self).scans@), path@),
            final(self).loudness == old(self).loudness,
    {
        self.scans = to_front(&self.scans, path);
    }

    /// Measure loudness for an already-scanned file, ahead of the others.
    pub fn prioritize_loudness(&mut self, path: String)
        ensures
            strings(final(self).loudness@) == first_of_all(strings(old(self).loudness@), path@),
            final(self).scans == old(self).scans,
    {
        self.loudness = to_front(&self.loudness, path);
    }

    /// `path` has been scanned: its loudness comes last.
    pub fn scanned(&mut self, path: String)
        ensures
            final(self).loudness@ == old(self).loudness@.push(path),
            final(self).scans == old(self).scans,
    {
        self.loudness.push(path);
    }

    /// What to do next: the first scan, or the first loudness once no scan is waiting.
    pub fn next_work(&mut self) -> (r: Option<Work>)
        ensures
            old(self).scans@.len() > 0 ==> {
                &&& r == Some(Work::Scan(old(self).scans@[0]))
                &&& final(self).scans@ == old(self).scans@.skip(1)
                &&& final(self).loudness == old(self).loudness
            },
            old(self).scans@.len() == 0 && old(self).loudness@.len() > 0 ==> {
                &&& r == Some(Work::Loudness(old(self).loudness@[0]))
                &&& final(self).loudness@ == old(self).loudness@.skip(1)
                &&& final(self).scans == old(self).scans
            },
            old(self).scans@.len() == 0 && old(self).loudness@.len() == 0 ==> r is None && *final(self) == *old(self),
    {
        if self.scans.len() > 0 {
            let p = self.scans.remove(0);
            assert(self.scans@ =~= old(self).scans@.skip(1));
            return Some(Work::Scan(p));
        }
        if self.loudness.len() > 0 {
            let p = self.loudness.remove(0);
            assert(self.loudness@ =~= old(self).loudness@.skip(1));
            return Some(Work::Loudness(p));
        }
        None
    }
}

/// A path put first is waiting exactly once, and everything else waits as before.
pub proof fn law_prioritized_once(list: Seq<Seq<char>>, path: Seq<char>)
    ensures
        first_of_all(list, path)[0] == path,
        !first_of_all(list, path).skip(1).contains(path),
        forall|q: Seq<char>| q != path ==> (#[trigger] list.contains(q) <==> first_of_all(list, path).contains(q)),
{
    let w = without(list, path);
    let f = first_of_all(list, path);
    assert(f.skip(1) =~= w);
    assert forall|q: Seq<char>| q != path implies (#[trigger] list.contains(q) <==> f.contains(q)) by {
        lemma_without(list, path, q);
        if w.contains(q) {
            let i = choose|i: int| 0 <= i < w.len() && w[i] == q;
            assert(f[i + 1] == q);
        }
        if f.contains(q) {
            let i = choose|i: int| 0 <= i < f.len() && f[i] == q;
            assert(i > 0);
            assert(w[i - 1] == q);
        }
    }
    lemma_without(list, path, path);
}

proof fn lemma_without(list: Seq<Seq<char>>, path: Seq<char>, q: Seq<char>)
    ensures
        without(list, path).contains(q) <==> list.contains(q) && q != path,
    decreases list.len(),
{
    if list.len() > 0 {
        let t = list.drop_last();
        let w = without(list, path);
        let v = without(t, path);
        lemma_without(t, path, q);
        if list.contains(q) {
            let i = choose|i: int| 0 <= i < list.len() && list[i] == q;
            if i < t.len() {
                assert(t[i] == q);
                if q != path {
                    let k = choose|k: int| 0 <= k < v.len() && v[k] == q;
                    assert(w[k] == q);
                }
            } else if q != path {
                assert(w[w.len() - 1] == q);
            }
        }
        if w.contains(q) {
            let k = choose|k: int| 0 <= k < w.len() && w[k] == q;
            if k < v.len() {
                assert(v[k] == q);
                let i = choose|i: int| 0 <= i < t.len() && t[i] == q;
                assert(list[i] == q);
            } else {
                assert(list[list.len() - 1] == q);
            }
        }
    }
}

} // verus!
