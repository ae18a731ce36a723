//! An in-memory model of one mailbox directory.
//!
//! The mailbox protocol coordinates producer and consumer entirely through
//! files in a shared directory, with atomic create-if-absent as the only
//! exclusion primitive. [`Directory`] models such a directory: a listing of
//! named files in enumeration order, plus whether the directory exists at
//! all. Every protocol operation is implemented and verified against this
//! model; an embedding application replays the same primitive steps —
//! create-if-absent, read, delete, list — on a real filesystem directory.

use vstd::prelude::*;

verus! {

/// The listing of a directory: `(file name, file content)` in enumeration
/// order, as character sequences.
pub open spec fn names_of(es: Seq<(Seq<char>, Seq<char>)>) -> Seq<Seq<char>> {
    es.map_values(|e: (Seq<char>, Seq<char>)| e.0)
}

/// The character views of a sequence of strings.
pub open spec fn views_of(v: Seq<String>) -> Seq<Seq<char>> {
    Seq::new(v.len(), |i: int| v[i]@)
}

/// Whether the listing `es` holds a file named `n`.
pub open spec fn has_name(es: Seq<(Seq<char>, Seq<char>)>, n: Seq<char>) -> bool {
    names_of(es).contains(n)
}

/// The position of the file named `n` in the listing `es`.
pub open spec fn index_of_name(es: Seq<(Seq<char>, Seq<char>)>, n: Seq<char>) -> int {
    names_of(es).index_of(n)
}

/// The content of the file named `n` in the listing `es`.
pub open spec fn content_of(es: Seq<(Seq<char>, Seq<char>)>, n: Seq<char>) -> Seq<char> {
    es[index_of_name(es, n)].1
}

/// No two files of the listing share a name.
pub open spec fn distinct_names(es: Seq<(Seq<char>, Seq<char>)>) -> bool {
    forall|i: int, j: int|
        0 <= i < j < es.len() ==> names_of(es)[i] != names_of(es)[j]
}

/// In a listing with distinct names, the entry at any index whose name is
/// `n` is the entry that `index_of_name` and `content_of` speak of.
pub proof fn lemma_entry_at_index(es: Seq<(Seq<char>, Seq<char>)>, k: int)
    requires
        distinct_names(es),
        0 <= k < es.len(),
    ensures
        has_name(es, es[k].0),
        index_of_name(es, es[k].0) == k,
        content_of(es, es[k].0) == es[k].1,
{
    assert(names_of(es)[k] == es[k].0);
    let i = index_of_name(es, es[k].0);
    assert(names_of(es).contains(es[k].0));
    assert(0 <= i < es.len() && names_of(es)[i] == es[k].0);
    if i != k {
        if i < k {
            assert(names_of(es)[i] != names_of(es)[k]);
        } else {
            assert(names_of(es)[k] != names_of(es)[i]);
        }
    }
}

/// The name listing of a concatenation is the concatenation of the listings.
pub proof fn lemma_names_of_concat(a: Seq<(Seq<char>, Seq<char>)>, b: Seq<(Seq<char>, Seq<char>)>)
    ensures
        names_of(a + b) == names_of(a) + names_of(b),
{
    assert(names_of(a + b) =~= names_of(a) + names_of(b));
}

/// A name stands in a concatenated listing exactly when it stands in one part.
pub proof fn lemma_has_name_concat(
    a: Seq<(Seq<char>, Seq<char>)>,
    b: Seq<(Seq<char>, Seq<char>)>,
    n: Seq<char>,
)
    ensures
        has_name(a + b, n) == (has_name(a, n) || has_name(b, n)),
{
    lemma_names_of_concat(a, b);
    if has_name(a + b, n) {
        let k = choose|k: int|
            0 <= k < names_of(a + b).len() && names_of(a + b)[k] == n;
        if k < a.len() {
            assert(names_of(a)[k] == n);
        } else {
            assert(names_of(b)[k - a.len()] == n);
        }
    }
    if has_name(a, n) {
        let k = choose|k: int| 0 <= k < names_of(a).len() && names_of(a)[k] == n;
        assert(names_of(a + b)[k] == n);
    }
    if has_name(b, n) {
        let k = choose|k: int| 0 <= k < names_of(b).len() && names_of(b)[k] == n;
        assert(names_of(a + b)[k + a.len()] == n);
    }
}

/// A name stands in a listing extended by one entry exactly when it stands
/// in the listing or names that entry.
pub proof fn lemma_has_name_push(
    es: Seq<(Seq<char>, Seq<char>)>,
    e: (Seq<char>, Seq<char>),
    n: Seq<char>,
)
    ensures
        has_name(es.push(e), n) == (has_name(es, n) || e.0 == n),
{
    assert(es.push(e) =~= es + seq![e]);
    lemma_has_name_concat(es, seq![e], n);
    if has_name(seq![e], n) {
        let k = choose|k: int|
            0 <= k < names_of(seq![e]).len() && names_of(seq![e])[k] == n;
        assert(names_of(seq![e])[0] == e.0);
    }
    if e.0 == n {
        assert(names_of(seq![e])[0] == n);
    }
}

struct FileEntry {
    name: String,
    content: String,
}

/// One mailbox directory, modeled in memory: whether it exists, and its
/// files in enumeration order.
pub struct Directory {
    present: bool,
    files: Vec<FileEntry>,
}

impl Directory {
    /// The listing: name and content of each file, in enumeration order.
    pub closed spec fn entries(&self) -> Seq<(Seq<char>, Seq<char>)> {
        self.files@.map_values(|f: FileEntry| (f.name@, f.content@))
    }

    /// Whether the directory exists.
    pub closed spec fn present(&self) -> bool {
        self.present
    }

    /// Well-formed: file names are distinct, and a directory that does not
    /// exist holds no files.
    pub open spec fn wf(&self) -> bool {
        &&& distinct_names(self.entries())
        &&& !self.present() ==> self.entries().len() == 0
    }

    /// A directory that does not exist yet.
    pub fn new() -> (d: Directory)
        ensures
            d.wf(),
            !d.present(),
            d.entries() == Seq::<(Seq<char>, Seq<char>)>::empty(),
    {
        let d = Directory { present: false, files: Vec::new() };
        proof {
            assert(d.entries() =~= Seq::<(Seq<char>, Seq<char>)>::empty());
        }
        d
    }

    /// Creates the directory if it is absent; idempotent, as the recursive
    /// directory creation of the enqueue path is.
    pub fn ensure_present(&mut self)
        requires
            old(self).wf(),
        ensures
            final(self).wf(),
            final(self).present(),
            final(self).entries() == old(self).entries(),
    {
        self.present = true;
    }

    /// Whether the directory exists.
    pub fn is_present(&self) -> (b: bool)
        ensures
            b == self.present(),
    {
        self.present
    }

    /// How many files the directory holds.
    pub fn file_count(&self) -> (n: usize)
        ensures
            n as int == self.entries().len(),
    {
        self.files.len()
    }

    /// Whether a file named `name` exists in the directory.
    pub fn contains_name(&self, name: &str) -> (b: bool)
        ensures
            b == has_name(self.entries(), name@),
    {
        let n = self.files.len();
        let mut i: usize = 0;
        while i < n
            invariant
                0 <= i <= n,
                n == self.files@.len(),
                forall|k: int| 0 <= k < i ==> #[trigger] self.entries()[k].0 != name@,
            decreases n - i,
        {
            if crate::text::str_eq(self.files[i].name.as_str(), name) {
                proof {
                    assert(names_of(self.entries())[i as int] == name@);
                }
                return true;
            }
            i = i + 1;
        }
        proof {
            if has_name(self.entries(), name@) {
                let k = choose|k: int|
                    0 <= k < names_of(self.entries()).len() && names_of(self.entries())[k]
                        == name@;
                assert(self.entries()[k].0 == name@);
            }
        }
        false
    }

    /// Atomic create-if-absent: the claim primitive of the protocol. Adds a
    /// file `name` with `content` and returns true, unless a file of that
    /// exact name already exists, in which case it returns false and leaves
    /// the directory unchanged.
    pub fn create_new(&mut self, name: &str, content: &str) -> (ok: bool)
        requires
            old(self).wf(),
            old(self).present(),
        ensures
            final(self).wf(),
            final(self).present(),
            ok == !has_name(old(self).entries(), name@),
            ok ==> final(self).entries() == old(self).entries().push((name@, content@)),
            !ok ==> final(self).entries() == old(self).entries(),
    {
        if self.contains_name(name) {
            return false;
        }
        let entry = FileEntry { name: String::from_str(name), content: String::from_str(content) };
        self.files.push(entry);
        proof {
            let es = old(self).entries();
            assert(self.entries() =~= es.push((name@, content@)));
            assert forall|i: int, j: int|
                0 <= i < j < self.entries().len() implies names_of(self.entries())[i] != names_of(
                self.entries(),
            )[j] by {
                if j < es.len() {
                    assert(names_of(es)[i] != names_of(es)[j]);
                } else {
                    assert(names_of(self.entries())[j] == name@);
                    assert(names_of(es)[i] == names_of(self.entries())[i]);
                    if names_of(es)[i] == name@ {
                        assert(names_of(es).contains(name@));
                    }
                }
            }
        }
        true
    }

    /// The content of the file named `name`.
    pub fn read_file(&self, name: &str) -> (c: String)
        requires
            self.wf(),
            has_name(self.entries(), name@),
        ensures
            c@ == content_of(self.entries(), name@),
    {
        let n = self.files.len();
        let mut i: usize = 0;
        while i < n
            invariant
                0 <= i <= n,
                n == self.files@.len(),
                self.wf(),
                has_name(self.entries(), name@),
                forall|k: int| 0 <= k < i ==> #[trigger] self.entries()[k].0 != name@,
            decreases n - i,
        {
            if crate::text::str_eq(self.files[i].name.as_str(), name) {
                proof {
                    lemma_entry_at_index(self.entries(), i as int);
                }
                return self.files[i].content.clone();
            }
            i = i + 1;
        }
        proof {
            let k = choose|k: int|
                0 <= k < names_of(self.entries()).len() && names_of(self.entries())[k] == name@;
            assert(self.entries()[k].0 == name@);
            assert(false);
        }
        unreached()
    }

    /// Deletes the file named `name`; the remaining files keep their order.
    pub fn remove_file(&mut self, name: &str)
        requires
            old(self).wf(),
            has_name(old(self).entries(), name@),
        ensures
            final(self).wf(),
            final(self).present() == old(self).present(),
            final(self).entries() == old(self).entries().remove(
                index_of_name(old(self).entries(), name@),
            ),
    {
        let ghost es = old(self).entries();
        let n = self.files.len();
        let mut i: usize = 0;
        while i < n
            invariant
                0 <= i <= n,
                n == self.files@.len(),
                *self == *old(self),
                es == old(self).entries(),
                old(self).wf(),
                has_name(es, name@),
                forall|k: int| 0 <= k < i ==> #[trigger] es[k].0 != name@,
            decreases n - i,
        {
            if crate::text::str_eq(self.files[i].name.as_str(), name) {
                proof {
                    lemma_entry_at_index(es, i as int);
                }
                self.files.remove(i);
                proof {
                    assert(self.entries() =~= es.remove(i as int));
                    assert forall|p: int, q: int|
                        0 <= p < q < self.entries().len() implies names_of(self.entries())[p]
                        != names_of(self.entries())[q] by {
                        let p0 = if p < i as int {
                            p
                        } else {
                            p + 1
                        };
                        let q0 = if q < i as int {
                            q
                        } else {
                            q + 1
                        };
                        assert(self.entries()[p] == es[p0] && self.entries()[q] == es[q0]);
                        assert(names_of(es)[p0] != names_of(es)[q0]);
                    }
                    assert(es.len() > 0);
                    assert(old(self).present());
                }
                return ;
            }
            i = i + 1;
        }
        proof {
            let k = choose|k: int|
                0 <= k < names_of(es).len() && names_of(es)[k] == name@;
            assert(es[k].0 == name@);
            assert(false);
        }
    }

    /// The names of all files, in enumeration order: the directory listing
    /// that the drain path walks.
    pub fn list_names(&self) -> (v: Vec<String>)
        ensures
            views_of(v@) == names_of(self.entries()),
    {
        let n = self.files.len();
        let mut v: Vec<String> = Vec::new();
        let mut i: usize = 0;
        while i < n
            invariant
                0 <= i <= n,
                n == self.files@.len(),
                v@.len() == i as int,
                views_of(v@) =~= names_of(self.entries()).take(i as int),
            decreases n - i,
        {
            let ghost prev = v@;
            v.push(self.files[i].name.clone());
            proof {
                assert(v@ == prev.push(v@[i as int]));
                assert(v@[i as int]@ == self.files@[i as int].name@);
                assert(names_of(self.entries())[i as int] == self.entries()[i as int].0);
                assert(self.entries()[i as int].0 == self.files@[i as int].name@);
                assert forall|k: int| 0 <= k < i as int + 1 implies views_of(v@)[k] == names_of(
                    self.entries(),
                )[k] by {
                    if k < i as int {
                        assert(views_of(prev)[k] == names_of(self.entries()).take(i as int)[k]);
                    }
                }
                assert(views_of(v@) =~= names_of(self.entries()).take(i as int + 1));
            }
            i = i + 1;
        }
        proof {
            assert(views_of(v@) =~= names_of(self.entries()));
        }
        v
    }
}

} // verus!
