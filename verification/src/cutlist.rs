//! All edits for a folder, keyed by file name so the folder can move.
use vstd::prelude::*;
use crate::edit::{default_params, RecordingEdit};
use crate::export::{ExportSettings, Normalize, Profile, VideoProfile};
use crate::recording::Status;
use crate::text::same_str;

verus! {

/// The name of the file in which a folder's edits are kept.
pub const FILE_NAME: &'static str = "splitter.cutlist.json";

/// The edit of one recording.
#[derive(Clone, Debug)]
pub struct Entry {
    pub key: String,
    pub edit: RecordingEdit,
}

/// All edits of a folder, and how its tracks are exported.
#[derive(Clone, Debug)]
pub struct Cutlist {
    pub version: u32,
    pub export: ExportSettings,
    pub recordings: Vec<Entry>,
}

/// The edit kept under `key` among the first `n` entries.
pub open spec fn kept_under(entries: Seq<Entry>, key: Seq<char>, n: int) -> Option<RecordingEdit>
    decreases n,
{
    if n <= 0 {
        None
    } else if entries[n - 1].key@ == key {
        Some(entries[n - 1].edit)
    } else {
        kept_under(entries, key, n - 1)
    }
}

/// An edit as it is before anything was done.
pub open spec fn untouched(e: RecordingEdit) -> bool {
    &&& e.splits@.len() == 0
    &&& e.silences@.len() == 0
    &&& e.head@.plain()
    &&& !e.detected
    &&& !e.silences_detected
    &&& e.status == Status::Todo
    &&& e.detect == default_params()
}

impl Default for Cutlist {
    fn default() -> (r: Cutlist)
        ensures
            r.wf(),
            r.version == 1,
            r.recordings@.len() == 0,
            r.export.naming@ == "{nn} - {title}"@,
            r.export.profile == Profile::Original,
            r.export.normalize == Normalize::Off,
            r.export.video == (VideoProfile::Mp4 { crf: 18 }),
    {
        Cutlist { version: 1, export: ExportSettings::default(), recordings: Vec::new() }
    }
}

impl Cutlist {
    /// Every key stands there once, and every edit has its splits in order.
    pub open spec fn wf(&self) -> bool {
        &&& forall|i: int, j: int| #![trigger self.recordings@[i], self.recordings@[j]]
            0 <= i < j < self.recordings@.len() ==> self.recordings@[i].key@ != self.recordings@[j].key@
        &&& forall|i: int| 0 <= i < self.recordings@.len() ==> (#[trigger] self.recordings@[i]).edit.wf()
    }

    /// The edit of the recording with the given key.
    pub open spec fn of(&self, key: Seq<char>) -> Option<RecordingEdit> {
        kept_under(self.recordings@, key, self.recordings@.len() as int)
    }

    /// Where the edit of a recording stands.
    pub fn find(&self, key: &str) -> (r: Option<usize>)
        ensures
            match r {
                Some(i) => i < self.recordings@.len() && self.recordings@[i as int].key@ == key@ && self.of(key@) == Some(
                    self.recordings@[i as int].edit,
                ),
                None => self.of(key@) is None,
            },
    {
        let mut n: usize = self.recordings.len();
        while n > 0
            invariant
                n <= self.recordings@.len(),
                self.of(key@) == kept_under(self.recordings@, key@, n as int),
            decreases n,
        {
            if same_str(self.recordings[n - 1].key.as_str(), key) {
                return Some(n - 1);
            }
            n -= 1;
        }
        None
    }

    /// Where the edit of a recording stands, which is made if there is none yet.
    pub fn entry(&mut self, key: &str) -> (r: usize)
        requires
            old(self).wf(),
        ensures
            final(self).wf(),
            final(self).version == old(self).version,
            final(self).export == old(self).export,
            r < final(self).recordings@.len(),
            final(self).recordings@[r as int].key@ == key@,
            final(self).of(key@) == Some(final(self).recordings@[r as int].edit),
            old(self).of(key@) is Some ==> *final(self) == *old(self),
            old(self).of(key@) is None ==> untouched(final(self).recordings@[r as int].edit),
            forall|k: Seq<char>| k != key@ ==> #[trigger] final(self).of(k) == old(self).of(k),
    {
        if let Some(i) = self.find(key) {
            return i;
        }
        let ghost was = self.recordings@;
        proof {
            lemma_kept_under(was, key@, was.len() as int);
        }
        let n: usize = self.recordings.len();
        let edit = RecordingEdit::default();
        self.recordings.push(Entry { key: key.to_owned(), edit });
        proof {
            assert forall|k: Seq<char>| k != key@ implies #[trigger] self.of(k) == old(self).of(k) by {
                lemma_same_prefix(was, self.recordings@, k, was.len() as int);
            }
        }
        n
    }

    /// Forget the edit of a recording.
    pub fn remove(&mut self, key: &str)
        requires
            old(self).wf(),
        ensures
            final(self).wf(),
            final(self).version == old(self).version,
            final(self).export == old(self).export,
            final(self).of(key@) is None,
            forall|k: Seq<char>| k != key@ ==> #[trigger] final(self).of(k) == old(self).of(k),
    {
        if let Some(i) = self.find(key) {
            let ghost was = self.recordings@;
            let _gone = self.recordings.remove(i);
            proof {
                let now = self.recordings@;
                assert forall|a: int, b: int| #![trigger now[a], now[b]] 0 <= a < b < now.len() implies now[a].key@
                    != now[b].key@ by {
                    let x = if a < i {
                        a
                    } else {
                        a + 1
                    };
                    let y = if b < i {
                        b
                    } else {
                        b + 1
                    };
                    assert(now[a] == was[x] && now[b] == was[y]);
                }
                assert forall|a: int| 0 <= a < now.len() implies (#[trigger] now[a]).edit.wf() by {
                    assert(now[a] == was[if a < i {
                        a
                    } else {
                        a + 1
                    }]);
                }
                lemma_removed(was, i as int, key@, was.len() as int);
                assert forall|k: Seq<char>| k != key@ implies #[trigger] self.of(k) == old(self).of(k) by {
                    lemma_removed(was, i as int, k, was.len() as int);
                }
            }
        }
    }
}

/// Where nothing is kept under a key, no entry has it.
proof fn lemma_kept_under(entries: Seq<Entry>, key: Seq<char>, n: int)
    requires
        n <= entries.len(),
        kept_under(entries, key, n) is None,
    ensures
        forall|i: int| 0 <= i < n ==> (#[trigger] entries[i]).key@ != key,
    decreases n,
{
    if n > 0 {
        lemma_kept_under(entries, key, n - 1);
    }
}

proof fn lemma_same_prefix(a: Seq<Entry>, b: Seq<Entry>, key: Seq<char>, n: int)
    requires
        n <= a.len(),
        n <= b.len(),
        forall|i: int| 0 <= i < n ==> #[trigger] a[i] == b[i],
    ensures
        kept_under(a, key, n) == kept_under(b, key, n),
    decreases n,
{
    if n > 0 {
        lemma_same_prefix(a, b, key, n - 1);
    }
}

/// Without entry `i`, its key is kept nowhere (each stands there once) and the others where they
/// were.
proof fn lemma_removed(a: Seq<Entry>, i: int, key: Seq<char>, n: int)
    requires
        0 <= i < a.len(),
        0 <= n <= a.len(),
        forall|x: int, y: int| #![trigger a[x], a[y]] 0 <= x < y < a.len() ==> a[x].key@ != a[y].key@,
    ensures
        ({
            let m = if n > i {
                n - 1
            } else {
                n
            };
            let b = kept_under(a.remove(i), key, m);
            if key == a[i].key@ {
                b is None
            } else {
                b == kept_under(a, key, n)
            }
        }),
    decreases n,
{
    if n > 0 {
        lemma_removed(a, i, key, n - 1);
        if n - 1 < i {
            assert(a.remove(i)[n - 1] == a[n - 1]);
        } else if n - 1 > i {
            assert(a.remove(i)[n - 2] == a[n - 1]);
        }
        if n - 1 != i {
            assert(a[n - 1].key@ != a[i].key@);
        }
    }
}

} // verus!
