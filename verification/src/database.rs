//! The task store: a mapping from unique string identifiers to tasks,
//! with an auto-increment counter for generated identifiers.

use vstd::prelude::*;

use crate::chars::chars_to_string;
use crate::dec::dec_val;
use crate::dec::lemma_dec_digits;
use crate::dec::lemma_dec_val_inverse;
use crate::dec::spec_dec;
use crate::dec::u64_to_chars;
use crate::task::Task;
use crate::task::TaskState;

verus! {

/// Some entry of `s` carries the identifier `id`.
pub open spec fn has_key(s: Seq<(String, Task)>, id: Seq<char>) -> bool {
    exists|i: int| 0 <= i < s.len() && (#[trigger] s[i]).0@ == id
}

/// The position of the entry carrying `id`; meaningful only where the
/// identifiers of `s` are unique and `id` is among them.
pub open spec fn idx_of(s: Seq<(String, Task)>, id: Seq<char>) -> int {
    choose|i: int| 0 <= i < s.len() && (#[trigger] s[i]).0@ == id
}

/// The task stored under `id`.
pub open spec fn task_of(s: Seq<(String, Task)>, id: Seq<char>) -> Task {
    s[idx_of(s, id)].1
}

/// No identifier appears twice.
pub open spec fn unique_keys(s: Seq<(String, Task)>) -> bool {
    forall|i: int, j: int| 0 <= i < j < s.len() ==> (#[trigger] s[i]).0@ != (#[trigger] s[j]).0@
}

/// Insertion as the store performs it: an entry already carrying the
/// identifier is overwritten in place; otherwise the new entry is
/// appended.
pub open spec fn spec_insert(s: Seq<(String, Task)>, id: String, t: Task) -> Seq<(String, Task)> {
    if has_key(s, id@) {
        s.update(idx_of(s, id@), (id, t))
    } else {
        s.push((id, t))
    }
}

/// The entries reduced to identifier and description, in store order.
pub open spec fn pairs_of(s: Seq<(String, Task)>) -> Seq<(String, String)> {
    s.map_values(|e: (String, Task)| (e.0, e.1.desc))
}

/// The entries whose task is in state `st`, in store order.
pub open spec fn sel_state(s: Seq<(String, Task)>, st: TaskState) -> Seq<(String, Task)>
    decreases s.len(),
{
    if s.len() == 0 {
        Seq::empty()
    } else {
        let rest = sel_state(s.drop_last(), st);
        if s.last().1.state == st {
            rest.push(s.last())
        } else {
            rest
        }
    }
}

/// The longest identifier among the entries, in characters.
pub open spec fn max_klen(s: Seq<(String, Task)>) -> nat
    decreases s.len(),
{
    if s.len() == 0 {
        0
    } else {
        let rest = max_klen(s.drop_last());
        let l = s.last().0@.len();
        if l > rest {
            l
        } else {
            rest
        }
    }
}

/// An entry at a known position pins down `idx_of` wherever the
/// identifiers are unique.
pub proof fn lemma_idx_of(s: Seq<(String, Task)>, id: Seq<char>, k: int)
    requires
        unique_keys(s),
        0 <= k < s.len(),
        s[k].0@ == id,
    ensures
        has_key(s, id),
        idx_of(s, id) == k,
        task_of(s, id) == s[k].1,
{
    assert(has_key(s, id));
    let i0 = idx_of(s, id);
    assert(0 <= i0 < s.len() && s[i0].0@ == id);
    if i0 != k {
        if i0 < k {
            assert(s[i0].0@ != s[k].0@);
        } else {
            assert(s[k].0@ != s[i0].0@);
        }
        assert(false);
    }
}

/// What insertion does to the mapping: the inserted identifier now
/// carries the inserted task; every other identifier and its task are
/// untouched; uniqueness is kept.
pub proof fn lemma_spec_insert(s: Seq<(String, Task)>, id: String, t: Task)
    requires
        unique_keys(s),
    ensures
        unique_keys(spec_insert(s, id, t)),
        has_key(spec_insert(s, id, t), id@),
        task_of(spec_insert(s, id, t), id@) == t,
        forall|x: Seq<char>|
            x != id@ ==> (has_key(spec_insert(s, id, t), x) <==> has_key(s, x)),
        forall|x: Seq<char>|
            x != id@ && has_key(s, x) ==> task_of(spec_insert(s, id, t), x) == task_of(s, x),
        spec_insert(s, id, t).len() == if has_key(s, id@) {
            s.len()
        } else {
            s.len() + 1
        },
{
    let s2 = spec_insert(s, id, t);
    if has_key(s, id@) {
        let k = idx_of(s, id@);
        assert(0 <= k < s.len() && s[k].0@ == id@);
        assert(forall|j: int| 0 <= j < s2.len() && j != k ==> s2[j] == s[j]);
        assert(s2[k] == (id, t));
        assert forall|i: int, j: int| 0 <= i < j < s2.len() implies (#[trigger] s2[i]).0@ != (
        #[trigger] s2[j]).0@ by {
            assert(s[i].0@ != s[j].0@);
        }
        lemma_idx_of(s2, id@, k);
        assert forall|x: Seq<char>| x != id@ && has_key(s2, x) implies has_key(s, x) by {
            let j = choose|j: int| 0 <= j < s2.len() && (#[trigger] s2[j]).0@ == x;
            assert(j != k);
            assert(s[j].0@ == x);
        }
        assert forall|x: Seq<char>| x != id@ && has_key(s, x) implies has_key(s2, x) && task_of(
            s2,
            x,
        ) == task_of(s, x) by {
            let j = choose|j: int| 0 <= j < s.len() && (#[trigger] s[j]).0@ == x;
            assert(j != k);
            assert(s2[j].0@ == x);
            lemma_idx_of(s, x, j);
            lemma_idx_of(s2, x, j);
        }
    } else {
        let k = s.len() as int;
        assert(forall|j: int| 0 <= j < k ==> s2[j] == s[j]);
        assert(s2[k] == (id, t));
        assert forall|i: int, j: int| 0 <= i < j < s2.len() implies (#[trigger] s2[i]).0@ != (
        #[trigger] s2[j]).0@ by {
            if j < k {
                assert(s[i].0@ != s[j].0@);
            } else {
                assert(s2[j].0@ == id@);
                assert(s[i].0@ != id@);
            }
        }
        lemma_idx_of(s2, id@, k);
        assert forall|x: Seq<char>| x != id@ && has_key(s2, x) implies has_key(s, x) by {
            let j = choose|j: int| 0 <= j < s2.len() && (#[trigger] s2[j]).0@ == x;
            assert(j != k);
            assert(s[j].0@ == x);
        }
        assert forall|x: Seq<char>| x != id@ && has_key(s, x) implies has_key(s2, x) && task_of(
            s2,
            x,
        ) == task_of(s, x) by {
            let j = choose|j: int| 0 <= j < s.len() && (#[trigger] s[j]).0@ == x;
            assert(s2[j].0@ == x);
            lemma_idx_of(s, x, j);
            lemma_idx_of(s2, x, j);
        }
    }
}

/// Inserting twice under one identifier leaves exactly one entry under
/// it, carrying the later task.
pub proof fn lemma_insert_same_id_overwrites(
    s: Seq<(String, Task)>,
    id1: String,
    id2: String,
    t1: Task,
    t2: Task,
)
    requires
        unique_keys(s),
        id1@ == id2@,
    ensures
        ({
            let s2 = spec_insert(spec_insert(s, id1, t1), id2, t2);
            exists|i: int|
                0 <= i < s2.len() && (#[trigger] s2[i]).0@ == id1@ && s2[i].1 == t2 && (forall|
                    j: int,
                |
                    0 <= j < s2.len() && j != i ==> (#[trigger] s2[j]).0@ != id1@)
        }),
{
    let s1 = spec_insert(s, id1, t1);
    lemma_spec_insert(s, id1, t1);
    lemma_spec_insert(s1, id2, t2);
    let s2 = spec_insert(s1, id2, t2);
    let i = idx_of(s2, id1@);
    assert(0 <= i < s2.len() && s2[i].0@ == id1@);
    assert(s2[i].1 == t2);
    assert forall|j: int| 0 <= j < s2.len() && j != i implies (#[trigger] s2[j]).0@ != id1@ by {
        if s2[j].0@ == id1@ {
            if j < i {
                assert(s2[j].0@ != s2[i].0@);
            } else {
                assert(s2[i].0@ != s2[j].0@);
            }
        }
    }
}

/// Removing the entry under an identifier leaves no entry under it and
/// touches no other identifier.
pub proof fn lemma_remove_key(s: Seq<(String, Task)>, id: Seq<char>)
    requires
        unique_keys(s),
        has_key(s, id),
    ensures
        ({
            let s2 = s.remove(idx_of(s, id));
            &&& !has_key(s2, id)
            &&& unique_keys(s2)
            &&& forall|x: Seq<char>| x != id ==> (has_key(s2, x) <==> has_key(s, x))
        }),
{
    let k = idx_of(s, id);
    assert(0 <= k < s.len() && s[k].0@ == id);
    let s2 = s.remove(k);
    assert(forall|j: int| 0 <= j < k ==> s2[j] == s[j]);
    assert(forall|j: int| k <= j < s2.len() ==> s2[j] == s[j + 1]);
    assert forall|j: int| 0 <= j < s2.len() implies (#[trigger] s2[j]).0@ != id by {
        if j < k {
            assert(s[j].0@ != s[k].0@);
        } else {
            assert(s[k].0@ != s[j + 1].0@);
        }
    }
    assert forall|i: int, j: int| 0 <= i < j < s2.len() implies (#[trigger] s2[i]).0@ != (
    #[trigger] s2[j]).0@ by {
        let i1: int = if i < k {
            i
        } else {
            i + 1
        };
        let j1: int = if j < k {
            j
        } else {
            j + 1
        };
        assert(s2[i] == s[i1] && s2[j] == s[j1]);
        assert(s[i1].0@ != s[j1].0@);
    }
    assert forall|x: Seq<char>| x != id && has_key(s2, x) implies has_key(s, x) by {
        let j = choose|j: int| 0 <= j < s2.len() && (#[trigger] s2[j]).0@ == x;
        if j < k {
            assert(s[j].0@ == x);
        } else {
            assert(s[j + 1].0@ == x);
        }
    }
    assert forall|x: Seq<char>| x != id && has_key(s, x) implies has_key(s2, x) by {
        let j = choose|j: int| 0 <= j < s.len() && (#[trigger] s[j]).0@ == x;
        assert(j != k);
        if j < k {
            assert(s2[j].0@ == x);
        } else {
            assert(s2[j - 1].0@ == x);
        }
    }
}

/// Auto-generated identifiers strictly increase: the store hands out
/// the numeral of its counter after each increment, and later counters
/// yield numerals of strictly greater value, never a repeat — whatever
/// deletions happen in between, since deletion never touches the
/// counter.
pub proof fn lemma_auto_ids_increase(c1: nat, c2: nat)
    requires
        c1 < c2,
    ensures
        spec_dec(c1) != spec_dec(c2),
        dec_val(spec_dec(c1)) < dec_val(spec_dec(c2)),
{
    lemma_dec_val_inverse(c1);
    lemma_dec_val_inverse(c2);
}

/// The task store: entries under unique, non-empty identifiers, plus
/// the counter from which auto-generated identifiers are drawn.
#[derive(Debug)]
pub struct Database {
    pub tasks: Vec<(String, Task)>,
    pub ptr: usize,
}

impl Database {
    /// The entries, in store order.
    pub open spec fn entries(self) -> Seq<(String, Task)> {
        self.tasks@
    }

    /// Identifiers are unique and non-empty; every task records no
    /// change earlier than its creation.
    pub open spec fn wf(self) -> bool {
        &&& unique_keys(self.entries())
        &&& forall|i: int|
            0 <= i < self.entries().len() ==> (#[trigger] self.entries()[i]).0@.len() > 0
                && self.entries()[i].1.wf()
    }

    /// The empty store.
    pub fn new() -> (db: Database)
        ensures
            db.entries() == Seq::<(String, Task)>::empty(),
            db.ptr == 0,
            db.wf(),
    {
        let db = Database { tasks: Vec::new(), ptr: 0 };
        proof {
            assert(db.tasks@ =~= Seq::<(String, Task)>::empty());
        }
        db
    }

    /// The position of the entry under `id`, if there is one.
    fn find(&self, id: &String) -> (r: Option<usize>)
        ensures
            match r {
                Some(k) => k < self.tasks@.len() && self.tasks@[k as int].0@ == id@,
                None => !has_key(self.tasks@, id@),
            },
    {
        let n = self.tasks.len();
        let mut i: usize = 0;
        while i < n
            invariant
                n == self.tasks@.len(),
                i <= n,
                forall|j: int| 0 <= j < i ==> (#[trigger] self.tasks@[j]).0@ != id@,
            decreases n - i,
        {
            if self.tasks[i].0 == *id {
                return Some(i);
            }
            i = i + 1;
        }
        None
    }

    /// Stores `t` under `id`: an entry already under `id` is replaced
    /// in place, with no warning and no record of what it held; a new
    /// identifier is appended.
    fn insert_pair(&mut self, id: String, t: Task)
        requires
            old(self).wf(),
            id@.len() > 0,
            t.wf(),
        ensures
            final(self).entries() == spec_insert(old(self).entries(), id, t),
            final(self).ptr == old(self).ptr,
            final(self).wf(),
    {
        proof {
            lemma_spec_insert(old(self).entries(), id, t);
        }
        match self.find(&id) {
            Some(k) => {
                proof {
                    lemma_idx_of(self.tasks@, id@, k as int);
                }
                self.tasks.remove(k);
                self.tasks.insert(k, (id, t));
                proof {
                    assert(self.tasks@ =~= spec_insert(old(self).entries(), id, t));
                }
            },
            None => {
                self.tasks.push((id, t));
            },
        }
        proof {
            let s2 = spec_insert(old(self).entries(), id, t);
            assert forall|i: int| 0 <= i < s2.len() implies (#[trigger] s2[i]).0@.len() > 0
                && s2[i].1.wf() by {
                if s2[i] != (id, t) {
                    if has_key(old(self).entries(), id@) {
                        assert(s2[i] == old(self).entries()[i]);
                    } else if i < old(self).entries().len() {
                        assert(s2[i] == old(self).entries()[i]);
                    }
                }
            }
        }
    }

    /// Stores a fresh task with the given description under the
    /// caller-supplied identifier, overwriting any entry already there.
    /// The auto-id counter is not touched.
    pub fn add_task_with_id(&mut self, task_desc: String, id: String)
        requires
            old(self).wf(),
            id@.len() > 0,
        ensures
            final(self).ptr == old(self).ptr,
            final(self).wf(),
            exists|t: Task|
                (#[trigger] t.is_fresh(task_desc@)) && final(self).entries() == spec_insert(
                    old(self).entries(),
                    id,
                    t,
                ),
    {
        let t = Task::new(task_desc);
        let ghost tg = t;
        self.insert_pair(id, t);
        proof {
            assert(tg.is_fresh(task_desc@) && self.tasks@ == spec_insert(old(self).entries(), id, tg));
        }
    }

    /// Advances the counter by one, stores a fresh task with the given
    /// description under the counter's numeral, and returns that
    /// generated identifier.
    pub fn add_task(&mut self, task_desc: String) -> (id: String)
        requires
            old(self).wf(),
            old(self).ptr < usize::MAX,
        ensures
            final(self).ptr == old(self).ptr + 1,
            final(self).wf(),
            id@ == spec_dec((old(self).ptr + 1) as nat),
            exists|t: Task|
                t.is_fresh(task_desc@) && final(self).entries() == #[trigger] spec_insert(
                    old(self).entries(),
                    id,
                    t,
                ),
    {
        self.ptr = self.ptr + 1;
        let digits = u64_to_chars(self.ptr as u64);
        let key = chars_to_string(&digits);
        let id = key.clone();
        proof {
            assert((self.ptr as u64) as nat == self.ptr as nat);
            lemma_dec_digits(self.ptr as nat);
            assert(key@.len() > 0);
        }
        let t = Task::new(task_desc);
        let ghost tg = t;
        self.insert_pair(key, t);
        proof {
            assert(tg.is_fresh(task_desc@) && self.tasks@ == spec_insert(
                old(self).entries(),
                id,
                tg,
            ));
        }
        id
    }

    /// Removes the entry under `id` if there is one, reporting whether
    /// anything was removed. A missing identifier leaves the store
    /// unchanged.
    pub fn delete_task(&mut self, id: String) -> (removed: bool)
        requires
            old(self).wf(),
        ensures
            removed == has_key(old(self).entries(), id@),
            final(self).ptr == old(self).ptr,
            final(self).wf(),
            removed ==> final(self).entries() == old(self).entries().remove(
                idx_of(old(self).entries(), id@),
            ),
            !removed ==> final(self).entries() == old(self).entries(),
    {
        match self.find(&id) {
            Some(k) => {
                proof {
                    lemma_idx_of(self.tasks@, id@, k as int);
                }
                self.tasks.remove(k);
                proof {
                    let s = old(self).entries();
                    let s2 = s.remove(k as int);
                    assert forall|i: int, j: int| 0 <= i < j < s2.len() implies (
                    #[trigger] s2[i]).0@ != (#[trigger] s2[j]).0@ by {
                        let i1: int = if i < k {
                            i
                        } else {
                            i + 1
                        };
                        let j1: int = if j < k {
                            j
                        } else {
                            j + 1
                        };
                        assert(s2[i] == s[i1] && s2[j] == s[j1]);
                        assert(s[i1].0@ != s[j1].0@);
                    }
                    assert forall|i: int| 0 <= i < s2.len() implies (#[trigger] s2[i]).0@.len() > 0
                        && s2[i].1.wf() by {
                        let i1: int = if i < k {
                            i
                        } else {
                            i + 1
                        };
                        assert(s2[i] == s[i1]);
                    }
                }
                true
            },
            None => false,
        }
    }

    /// Replaces the description of the task under `id` and bumps its
    /// update timestamp; its state and creation timestamp are kept. A
    /// missing identifier is a silent no-op.
    pub fn update_task(&mut self, task_desc: String, id: String)
        requires
            old(self).wf(),
        ensures
            final(self).ptr == old(self).ptr,
            final(self).wf(),
            has_key(old(self).entries(), id@) ==> ({
                let k = idx_of(old(self).entries(), id@);
                exists|t: Task|
                    (#[trigger] t.wf()) && t.desc@ == task_desc@ && t.state
                        == old(self).entries()[k].1.state && t.created_at
                        == old(self).entries()[k].1.created_at && final(self).entries()
                        == old(self).entries().update(k, (old(self).entries()[k].0, t))
            }),
            !has_key(old(self).entries(), id@) ==> final(self).entries() == old(self).entries(),
    {
        match self.find(&id) {
            Some(k) => {
                proof {
                    lemma_idx_of(self.tasks@, id@, k as int);
                }
                let (key, mut t) = self.tasks.remove(k);
                t.update(task_desc);
                let ghost tg = t;
                self.tasks.insert(k, (key, t));
                proof {
                    let s = old(self).entries();
                    assert(self.tasks@ =~= s.update(k as int, (s[k as int].0, tg)));
                    assert(tg.wf() && tg.desc@ == task_desc@ && tg.state == s[k as int].1.state
                        && tg.created_at == s[k as int].1.created_at && self.tasks@ == s.update(
                        k as int,
                        (s[k as int].0, tg),
                    ));
                    assert forall|i: int, j: int|
                        0 <= i < j < self.tasks@.len() implies (#[trigger] self.tasks@[i]).0@ != (
                    #[trigger] self.tasks@[j]).0@ by {
                        assert(s[i].0@ != s[j].0@);
                    }
                }
            },
            None => {},
        }
    }

    /// Sets the state of the task under `id` to the one persisted under
    /// `task_statecode` and bumps its update timestamp; its description
    /// and creation timestamp are kept. A missing identifier is a
    /// silent no-op. Codes above 2 name no state and are not accepted.
    pub fn change_task_state(&mut self, task_statecode: u8, id: String)
        requires
            old(self).wf(),
            task_statecode <= 2,
        ensures
            final(self).ptr == old(self).ptr,
            final(self).wf(),
            has_key(old(self).entries(), id@) ==> ({
                let k = idx_of(old(self).entries(), id@);
                exists|t: Task|
                    (#[trigger] t.wf()) && t.state == TaskState::spec_from_code(task_statecode)
                        && t.desc@ == old(self).entries()[k].1.desc@ && t.created_at
                        == old(self).entries()[k].1.created_at && final(self).entries()
                        == old(self).entries().update(k, (old(self).entries()[k].0, t))
            }),
            !has_key(old(self).entries(), id@) ==> final(self).entries() == old(self).entries(),
    {
        match self.find(&id) {
            Some(k) => {
                proof {
                    lemma_idx_of(self.tasks@, id@, k as int);
                }
                let (key, mut t) = self.tasks.remove(k);
                t.change_state(task_statecode);
                let ghost tg = t;
                self.tasks.insert(k, (key, t));
                proof {
                    let s = old(self).entries();
                    assert(self.tasks@ =~= s.update(k as int, (s[k as int].0, tg)));
                    assert(tg.wf() && tg.state == TaskState::spec_from_code(task_statecode)
                        && tg.desc@ == s[k as int].1.desc@ && tg.created_at == s[k as int
                    ].1.created_at && self.tasks@ == s.update(k as int, (s[k as int].0, tg)));
                    assert forall|i: int, j: int|
                        0 <= i < j < self.tasks@.len() implies (#[trigger] self.tasks@[i]).0@ != (
                    #[trigger] self.tasks@[j]).0@ by {
                        assert(s[i].0@ != s[j].0@);
                    }
                }
            },
            None => {},
        }
    }

    /// Every entry as an (identifier, description) pair, in store
    /// order, with the length of the longest identifier among them for
    /// column alignment.
    pub fn kv(&self) -> (r: (Vec<(String, String)>, usize))
        ensures
            r.0@ == pairs_of(self.entries()),
            r.1 as nat == max_klen(self.entries()),
    {
        let n = self.tasks.len();
        let mut out: Vec<(String, String)> = Vec::new();
        let mut m: usize = 0;
        let mut i: usize = 0;
        while i < n
            invariant
                n == self.tasks@.len(),
                i <= n,
                out@ == pairs_of(self.tasks@.take(i as int)),
                m as nat == max_klen(self.tasks@.take(i as int)),
            decreases n - i,
        {
            let key = self.tasks[i].0.clone();
            let desc = self.tasks[i].1.desc.clone();
            let l = key.as_str().unicode_len();
            if l > m {
                m = l;
            }
            out.push((key, desc));
            proof {
                let s = self.tasks@;
                assert(s.take(i + 1 as int).drop_last() =~= s.take(i as int));
                assert(s.take(i + 1 as int).last() == s[i as int]);
                assert(out@ =~= pairs_of(s.take(i + 1 as int)));
            }
            i = i + 1;
        }
        proof {
            assert(self.tasks@.take(n as int) =~= self.tasks@);
        }
        (out, m)
    }

    /// The two-tier filter. The query is first read as a state name,
    /// case-insensitively; if it names a state, the result is every
    /// entry in that state, in store order. Otherwise the query is a
    /// literal identifier: the entry under it alone, or nothing at all.
    /// Alongside the pairs comes the length of the longest identifier
    /// among them.
    pub fn filt_kv(&self, filt: String) -> (r: (Vec<(String, String)>, usize))
        requires
            self.wf(),
        ensures
            (match TaskState::spec_parse(filt@) {
                Some(st) => r.0@ == pairs_of(sel_state(self.entries(), st)) && r.1 as nat
                    == max_klen(sel_state(self.entries(), st)),
                None => if has_key(self.entries(), filt@) {
                    let k = idx_of(self.entries(), filt@);
                    r.0@ == seq![(self.entries()[k].0, self.entries()[k].1.desc)] && r.1 as nat
                        == self.entries()[k].0@.len()
                } else {
                    r.0@ == Seq::<(String, String)>::empty() && r.1 == 0
                },
            }),
    {
        match TaskState::parse(filt.as_str()) {
            Some(st) => {
                let n = self.tasks.len();
                let mut out: Vec<(String, String)> = Vec::new();
                let mut m: usize = 0;
                let mut i: usize = 0;
                while i < n
                    invariant
                        n == self.tasks@.len(),
                        i <= n,
                        out@ == pairs_of(sel_state(self.tasks@.take(i as int), st)),
                        m as nat == max_klen(sel_state(self.tasks@.take(i as int), st)),
                    decreases n - i,
                {
                    proof {
                        let s = self.tasks@;
                        assert(s.take(i + 1 as int).drop_last() =~= s.take(i as int));
                        assert(s.take(i + 1 as int).last() == s[i as int]);
                    }
                    if self.tasks[i].1.is_state(st) {
                        let key = self.tasks[i].0.clone();
                        let desc = self.tasks[i].1.desc.clone();
                        let l = key.as_str().unicode_len();
                        if l > m {
                            m = l;
                        }
                        out.push((key, desc));
                        proof {
                            let s = self.tasks@;
                            assert(sel_state(s.take(i + 1 as int), st) =~= sel_state(
                                s.take(i as int),
                                st,
                            ).push(s[i as int]));
                            assert(sel_state(s.take(i + 1 as int), st).drop_last() =~= sel_state(
                                s.take(i as int),
                                st,
                            ));
                            assert(sel_state(s.take(i + 1 as int), st).last() == s[i as int]);
                            assert(out@ =~= pairs_of(sel_state(s.take(i + 1 as int), st)));
                        }
                    }
                    i = i + 1;
                }
                proof {
                    assert(self.tasks@.take(n as int) =~= self.tasks@);
                }
                (out, m)
            },
            None => {
                match self.find(&filt) {
                    Some(k) => {
                        proof {
                            lemma_idx_of(self.tasks@, filt@, k as int);
                        }
                        let key = self.tasks[k].0.clone();
                        let desc = self.tasks[k].1.desc.clone();
                        let l = key.as_str().unicode_len();
                        let mut out: Vec<(String, String)> = Vec::new();
                        out.push((key, desc));
                        proof {
                            let kk = idx_of(self.tasks@, filt@);
                            assert(out@ =~= seq![
                                (self.tasks@[kk].0, self.tasks@[kk].1.desc),
                            ]);
                        }
                        (out, l)
                    },
                    None => {
                        let out: Vec<(String, String)> = Vec::new();
                        proof {
                            assert(out@ =~= Seq::<(String, String)>::empty());
                        }
                        (out, 0)
                    },
                }
            },
        }
    }
}

} // verus!
