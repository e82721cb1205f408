use vstd::prelude::*;

use crate::index::{IndexRecord, IndexRecordView};

verus! {

/// Index of the first record in `s` named `name`, or `s.len()` when no
/// record carries that name.
pub open spec fn name_idx(s: Seq<IndexRecordView>, name: Seq<u8>) -> int
    decreases s.len(),
{
    if s.len() == 0 {
        0
    } else if s[0].name == name {
        0
    } else {
        1 + name_idx(s.skip(1), name)
    }
}

/// Whether some record in `s` is named `name`.
pub open spec fn has_name(s: Seq<IndexRecordView>, name: Seq<u8>) -> bool {
    name_idx(s, name) < s.len()
}

/// `s` with `r` committed: a record already carrying `r`'s name is
/// overwritten in place (last write wins, position kept), otherwise `r`
/// is appended.
pub open spec fn upsert(s: Seq<IndexRecordView>, r: IndexRecordView) -> Seq<IndexRecordView> {
    if has_name(s, r.name) {
        s.update(name_idx(s, r.name), r)
    } else {
        s.push(r)
    }
}

/// What `name_idx` finds: a position within bounds; the record there (if
/// any) carries the name; nothing before it does.
pub proof fn lemma_name_idx(s: Seq<IndexRecordView>, name: Seq<u8>)
    ensures
        0 <= name_idx(s, name) <= s.len(),
        name_idx(s, name) < s.len() ==> s[name_idx(s, name)].name == name,
        forall|i: int| 0 <= i < name_idx(s, name) ==> s[i].name != name,
        name_idx(s, name) == s.len() ==> forall|i: int| 0 <= i < s.len() ==> s[i].name != name,
    decreases s.len(),
{
    if s.len() == 0 {
    } else if s[0].name == name {
    } else {
        lemma_name_idx(s.skip(1), name);
        assert forall|i: int| 0 <= i < name_idx(s, name) implies s[i].name != name by {
            if i > 0 {
                assert(s[i] == s.skip(1)[i - 1]);
            }
        }
        if name_idx(s, name) == s.len() {
            assert forall|i: int| 0 <= i < s.len() implies s[i].name != name by {
                if i > 0 {
                    assert(s[i] == s.skip(1)[i - 1]);
                }
            }
        }
    }
}

/// The in-memory index: the rows in build order.  Lookup is by name;
/// iteration (for serialization) follows build order.
#[derive(Debug)]
pub struct IndexStore {
    pub records: Vec<IndexRecord>,
}

impl View for IndexStore {
    type V = Seq<IndexRecordView>;

    open spec fn view(&self) -> Seq<IndexRecordView> {
        self.records@.map_values(|r: IndexRecord| r@)
    }
}

impl IndexStore {
    /// Every row is well formed and names are unique.
    pub open spec fn wf(self) -> bool {
        &&& forall|i: int| 0 <= i < self@.len() ==> (#[trigger] self@[i]).wf()
        &&& forall|i: int, j: int|
            0 <= i < j < self@.len() ==> (#[trigger] self@[i]).name != (#[trigger] self@[j]).name
    }

    /// An empty index.
    pub fn new() -> (r: IndexStore)
        ensures
            r@ == Seq::<IndexRecordView>::empty(),
            r.wf(),
    {
        let r = IndexStore { records: Vec::new() };
        proof {
            assert(r@ =~= Seq::<IndexRecordView>::empty());
        }
        r
    }

    /// Number of records held.
    pub fn len(&self) -> (n: usize)
        ensures
            n == self@.len(),
    {
        self.records.len()
    }

    /// The record at build position `i`.
    pub fn get(&self, i: usize) -> (r: &IndexRecord)
        requires
            i < self@.len(),
        ensures
            r@ == self@[i as int],
    {
        &self.records[i]
    }

    /// Commits a record: overwrites the row already carrying its name
    /// (keeping that row's position), or appends a new row.
    #[verifier::loop_isolation(false)]
    pub fn insert(&mut self, rec: IndexRecord)
        requires
            old(self).wf(),
            rec@.wf(),
        ensures
            final(self)@ == upsert(old(self)@, rec@),
            final(self).wf(),
    {
        proof {
            lemma_name_idx(self@, rec@.name);
        }
        let n = self.records.len();
        let mut i: usize = 0;
        while i < n
            invariant
                self@ == old(self)@,
                n == self@.len(),
                i <= n,
                forall|m: int| 0 <= m < i ==> (#[trigger] self@[m]).name != rec@.name,
            decreases n - i,
        {
            if bytes_eq(self.records[i].name.as_slice(), rec.name.as_slice()) {
                proof {
                    lemma_name_idx(self@, rec@.name);
                    assert(self@[i as int] == self.records@[i as int]@);
                    assert(self@[i as int].name == rec@.name);
                    assert(name_idx(self@, rec@.name) == i);
                }
                let ghost pre = self@;
                let _ = self.records.remove(i);
                self.records.insert(i, rec);
                proof {
                    assert(self@ =~= pre.update(i as int, rec@));
                }
                return ;
            }
            i = i + 1;
        }
        proof {
            lemma_name_idx(self@, rec@.name);
        }
        let ghost pre = self@;
        proof {
            assert(!has_name(pre, rec@.name));
        }
        self.records.push(rec);
        proof {
            assert(self@ =~= pre.push(rec@));
            assert(upsert(pre, rec@) == pre.push(rec@));
            assert forall|a: int, b: int| 0 <= a < b < self@.len() implies self@[a].name != self@[
                b
            ].name by {
                if b == pre.len() {
                    assert(self@[a] == pre[a]);
                    assert(self@[b] == rec@);
                } else {
                    assert(self@[a] == pre[a]);
                    assert(self@[b] == pre[b]);
                }
            }
            assert forall|a: int| 0 <= a < self@.len() implies self@[a].wf() by {
                if a == pre.len() {
                    assert(self@[a] == rec@);
                } else {
                    assert(self@[a] == pre[a]);
                }
            }
        }
    }

    /// Looks a record up by sequence name; `None` exactly when no record
    /// carries the name.
    #[verifier::loop_isolation(false)]
    pub fn lookup(&self, name: &[u8]) -> (r: Option<&IndexRecord>)
        ensures
            r matches Some(rec) ==> has_name(self@, name@) && rec@ == self@[name_idx(
                self@,
                name@,
            )] && rec@.name == name@,
            r is None ==> !has_name(self@, name@),
    {
        proof {
            lemma_name_idx(self@, name@);
        }
        let n = self.records.len();
        let mut i: usize = 0;
        while i < n
            invariant
                n == self@.len(),
                i <= n,
                forall|m: int| 0 <= m < i ==> (#[trigger] self@[m]).name != name@,
            decreases n - i,
        {
            if bytes_eq(self.records[i].name.as_slice(), name) {
                proof {
                    lemma_name_idx(self@, name@);
                    assert(self@[i as int] == self.records@[i as int]@);
                    assert(self@[i as int].name == name@);
                    assert(name_idx(self@, name@) == i);
                }
                return Some(&self.records[i]);
            }
            i = i + 1;
        }
        proof {
            lemma_name_idx(self@, name@);
        }
        None
    }
}

/// Byte-wise equality of two byte strings.
pub fn bytes_eq(a: &[u8], b: &[u8]) -> (r: bool)
    ensures
        r == (a@ == b@),
{
    if a.len() != b.len() {
        proof {
            assert(a@.len() != b@.len());
        }
        return false;
    }
    let n = a.len();
    let mut i: usize = 0;
    while i < n
        invariant
            n == a@.len() == b@.len(),
            i <= n,
            forall|m: int| 0 <= m < i ==> a@[m] == b@[m],
        decreases n - i,
    {
        if a[i] != b[i] {
            return false;
        }
        i = i + 1;
    }
    proof {
        assert(a@ =~= b@);
    }
    true
}

} // verus!
