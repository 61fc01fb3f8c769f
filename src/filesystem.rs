//! Directory sizes of a file tree rebuilt from a terminal session.
//!
//! A directory's size is the total size of the files below it. The tree is
//! rebuilt from the session's `cd` commands and `ls` listings by keeping the
//! chain of directories from the root to the current one as a stack.
use vstd::prelude::*;

verus! {

broadcast use vstd::std_specs::vec::group_vec_axioms;

/// Directories of at most this size count toward the small-directory total.
pub const SMALL_DIR: u64 = 100000;

/// A file (with a size) or a directory (with named children).
#[derive(Debug)]
pub struct File {
    pub is_dir: bool,
    pub size: Option<u64>,
    pub children: Vec<(String, File)>,
}

/// Total size of the files in the tree `f`; a file without a size counts 0.
pub open spec fn total(f: File) -> nat
    decreases f,
{
    if f.is_dir {
        total_from(f.children, 0)
    } else {
        match f.size {
            Some(s) => s as nat,
            None => 0,
        }
    }
}

/// Total size of the trees `v[k..]`.
pub open spec fn total_from(v: Vec<(String, File)>, k: int) -> nat
    decreases v, v@.len() - k,
{
    if 0 <= k < v@.len() {
        total(v[k].1) + total_from(v, k + 1)
    } else {
        0
    }
}

/// Sizes, in preorder, of the directories of `f` (itself first) whose size is
/// at least `required`.
pub open spec fn big_dirs(f: File, required: int) -> Seq<nat>
    decreases f,
{
    if f.is_dir {
        (if total(f) >= required { seq![total(f)] } else { seq![] }) + big_dirs_from(
            f.children,
            0,
            required,
        )
    } else {
        seq![]
    }
}

pub open spec fn big_dirs_from(v: Vec<(String, File)>, k: int, required: int) -> Seq<nat>
    decreases v, v@.len() - k,
{
    if 0 <= k < v@.len() {
        big_dirs(v[k].1, required) + big_dirs_from(v, k + 1, required)
    } else {
        seq![]
    }
}

/// Sum of the sizes of the directories of `f` (itself included) that are at
/// most `SMALL_DIR`.
pub open spec fn small_total(f: File) -> nat
    decreases f,
{
    if f.is_dir {
        (if total(f) <= SMALL_DIR { total(f) } else { 0 }) + small_total_from(f.children, 0)
    } else {
        0
    }
}

pub open spec fn small_total_from(v: Vec<(String, File)>, k: int) -> nat
    decreases v, v@.len() - k,
{
    if 0 <= k < v@.len() {
        small_total(v[k].1) + small_total_from(v, k + 1)
    } else {
        0
    }
}

/// Number of directories in `f`, itself included.
pub open spec fn dir_count(f: File) -> nat
    decreases f,
{
    if f.is_dir {
        1 + dir_count_from(f.children, 0)
    } else {
        0
    }
}

pub open spec fn dir_count_from(v: Vec<(String, File)>, k: int) -> nat
    decreases v, v@.len() - k,
{
    if 0 <= k < v@.len() {
        dir_count(v[k].1) + dir_count_from(v, k + 1)
    } else {
        0
    }
}

impl File {
    /// An empty directory, or a file of the given size.
    pub fn new(is_dir: bool, size: Option<u64>) -> (r: File)
        ensures
            r.is_dir == is_dir,
            r.size == size,
            r.children@.len() == 0,
    {
        File { is_dir, size, children: Vec::new() }
    }

    /// Total size of the files below (or of the file itself).
    pub fn get_size(&self) -> (r: u64)
        requires
            total(*self) <= u64::MAX,
        ensures
            r == total(*self),
        decreases *self,
    {
        if self.is_dir {
            let mut sum: u64 = 0;
            let mut k: usize = 0;
            while k < self.children.len()
                invariant
                    self.is_dir,
                    0 <= k <= self.children@.len(),
                    total(*self) == total_from(self.children, 0),
                    total(*self) <= u64::MAX,
                    sum + total_from(self.children, k as int) == total(*self),
                decreases self.children@.len() - k,
            {
                let s = self.children[k].1.get_size();
                sum = sum + s;
                k = k + 1;
            }
            sum
        } else {
            match self.size {
                Some(s) => s,
                None => 0,
            }
        }
    }

    /// Total size of the files directly in this directory.
    pub fn get_size_files_only(&self) -> (r: u64)
        requires
            total(*self) <= u64::MAX,
            self.is_dir,
        ensures
            r == files_only_from(self.children@, 0),
    {
        let mut sum: u64 = 0;
        let mut k: usize = 0;
        proof {
            lemma_files_only_le(self.children, 0);
        }
        while k < self.children.len()
            invariant
                0 <= k <= self.children@.len(),
                files_only_from(self.children@, 0) <= total_from(self.children, 0),
                total_from(self.children, 0) <= u64::MAX,
                sum + files_only_from(self.children@, k as int) == files_only_from(self.children@, 0),
            decreases self.children@.len() - k,
        {
            let c = &self.children[k].1;
            if !c.is_dir {
                match c.size {
                    Some(s) => {
                        sum = sum + s;
                    },
                    None => {},
                }
            }
            k = k + 1;
        }
        sum
    }

    /// Adds `child` under `name`, replacing an entry of the same name. The
    /// children stay sorted by name, each name once, as in a name-ordered map.
    pub fn insert_child(&mut self, name: String, child: File)
        requires
            names_sorted(old(self).children@),
        ensures
            final(self).is_dir == old(self).is_dir,
            final(self).size == old(self).size,
            names_sorted(final(self).children@),
            tree_sorted(*old(self)) && tree_sorted(child) ==> tree_sorted(*final(self)),
            exists|k: int|
                0 <= k <= old(self).children@.len() && ((k < old(self).children@.len() && key(
                    old(self).children@[k].0,
                ) == key(name) && final(self).children@ == old(self).children@.update(k, (name, child)))
                    || ((forall|j: int|
                    0 <= j < old(self).children@.len() ==> key(#[trigger] old(self).children@[j].0)
                        != key(name)) && final(self).children@ == old(self).children@.insert(
                    k,
                    (name, child),
                ))),
    {
        let ghost entry = (name, child);
        let ghost old_children = self.children@;
        let mut k: usize = 0;
        while k < self.children.len() && key_less(self.children[k].0.as_str().as_bytes(), name.as_str().as_bytes())
            invariant
                self.children@ == old_children,
                self.is_dir == old(self).is_dir,
                self.size == old(self).size,
                old_children == old(self).children@,
                0 <= k <= self.children@.len(),
                forall|i: int| 0 <= i < k ==> lex_lt(key(#[trigger] self.children@[i].0), key(name)),
            decreases self.children@.len() - k,
        {
            k = k + 1;
        }
        let same = k < self.children.len() && key_equal(
            self.children[k].0.as_str().as_bytes(),
            name.as_str().as_bytes(),
        );
        proof {
            assert forall|i: int, j: int| 0 <= i < old_children.len() && 0 <= j < old_children.len() && i < j implies key(old_children[i].0) != key(name) || key(old_children[j].0) != key(name) by {
                lemma_lex_irreflexive(key(name));
            }
            if k < old_children.len() && !same {
                lemma_lex_total(key(old_children[k as int].0), key(name));
            }
        }
        if same {
            self.children.set(k, (name, child));
            proof {
                assert(self.children@ == old_children.update(k as int, entry));
                assert forall|i: int, j: int| 0 <= i < j < self.children@.len() implies lex_lt(
                    key(#[trigger] self.children@[i].0),
                    key(#[trigger] self.children@[j].0),
                ) by {
                    assert(lex_lt(key(old_children[i].0), key(old_children[j].0)));
                }
                if tree_sorted(*old(self)) && tree_sorted(entry.1) {
                    lemma_sorted_from(old(self).children, 0);
                    lemma_sorted_from(self.children, 0);
                    assert forall|i: int| 0 <= i < self.children@.len() implies tree_sorted(#[trigger] self.children@[i].1) by {
                        if i != k {
                            assert(self.children@[i] == old_children[i]);
                        }
                    }
                }
            }
        } else {
            self.children.insert(k, (name, child));
            proof {
                assert(self.children@ == old_children.insert(k as int, entry));
                assert forall|j: int| 0 <= j < old_children.len() implies key(#[trigger] old_children[j].0) != key(entry.0) by {
                    lemma_lex_irreflexive(key(entry.0));
                    if j >= k {
                        if j > k {
                            lemma_lex_transitive(key(entry.0), key(old_children[k as int].0), key(old_children[j].0));
                        }
                    }
                }
                assert forall|i: int, j: int| 0 <= i < j < self.children@.len() implies lex_lt(
                    key(#[trigger] self.children@[i].0),
                    key(#[trigger] self.children@[j].0),
                ) by {
                    let c = self.children@;
                    if j < k {
                        assert(c[i] == old_children[i] && c[j] == old_children[j]);
                    } else if j == k {
                        assert(c[i] == old_children[i]);
                    } else if i < k {
                        assert(c[i] == old_children[i] && c[j] == old_children[j - 1]);
                        lemma_lex_transitive(key(c[i].0), key(entry.0), key(old_children[k as int].0));
                        if j - 1 > k {
                            lemma_lex_transitive(key(c[i].0), key(old_children[k as int].0), key(old_children[j - 1].0));
                        }
                    } else if i == k {
                        assert(c[j] == old_children[j - 1]);
                        if j - 1 > k {
                            lemma_lex_transitive(key(entry.0), key(old_children[k as int].0), key(old_children[j - 1].0));
                        }
                    } else {
                        assert(c[i] == old_children[i - 1] && c[j] == old_children[j - 1]);
                    }
                }
                if tree_sorted(*old(self)) && tree_sorted(entry.1) {
                    lemma_sorted_from(old(self).children, 0);
                    lemma_sorted_from(self.children, 0);
                    assert forall|i: int| 0 <= i < self.children@.len() implies tree_sorted(#[trigger] self.children@[i].1) by {
                        if i < k {
                            assert(self.children@[i] == old_children[i]);
                        } else if i > k {
                            assert(self.children@[i] == old_children[i - 1]);
                        }
                    }
                }
            }
        }
    }
}

/// The byte key by which names are ordered: their UTF-8 encoding.
pub open spec fn key(s: String) -> Seq<u8> {
    vstd::utf8::encode_utf8(s@)
}

/// Lexicographic order on byte strings, a proper prefix first.
pub open spec fn lex_lt(a: Seq<u8>, b: Seq<u8>) -> bool
    decreases a.len(),
{
    if a.len() == 0 {
        b.len() > 0
    } else if b.len() == 0 {
        false
    } else if a[0] != b[0] {
        a[0] < b[0]
    } else {
        lex_lt(a.drop_first(), b.drop_first())
    }
}

/// Every directory of `f` lists its children in strictly increasing name order.
pub open spec fn tree_sorted(f: File) -> bool
    decreases f,
{
    names_sorted(f.children@) && sorted_from(f.children, 0)
}

/// The subtrees of the children `v[k..]` are sorted throughout.
pub open spec fn sorted_from(v: Vec<(String, File)>, k: int) -> bool
    decreases v, v@.len() - k,
{
    if 0 <= k < v@.len() {
        tree_sorted(v[k].1) && sorted_from(v, k + 1)
    } else {
        true
    }
}

proof fn lemma_sorted_from(v: Vec<(String, File)>, k: int)
    requires
        0 <= k <= v@.len(),
    ensures
        sorted_from(v, k) <==> forall|i: int| k <= i < v@.len() ==> tree_sorted(#[trigger] v@[i].1),
    decreases v@.len() - k,
{
    if k < v@.len() {
        lemma_sorted_from(v, k + 1);
        assert(v[k] == v@[k]);
    }
}

/// Children listed in strictly increasing name order.
pub open spec fn names_sorted(children: Seq<(String, File)>) -> bool {
    forall|i: int, j: int|
        0 <= i < j < children.len() ==> lex_lt(key(#[trigger] children[i].0), key(#[trigger] children[j].0))
}

pub proof fn lemma_lex_irreflexive(a: Seq<u8>)
    ensures
        !lex_lt(a, a),
    decreases a.len(),
{
    if a.len() > 0 {
        lemma_lex_irreflexive(a.drop_first());
    }
}

pub proof fn lemma_lex_transitive(a: Seq<u8>, b: Seq<u8>, c: Seq<u8>)
    requires
        lex_lt(a, b),
        lex_lt(b, c),
    ensures
        lex_lt(a, c),
    decreases a.len(),
{
    if a.len() > 0 && b.len() > 0 && c.len() > 0 && a[0] == b[0] && b[0] == c[0] {
        lemma_lex_transitive(a.drop_first(), b.drop_first(), c.drop_first());
    }
}

pub proof fn lemma_lex_total(a: Seq<u8>, b: Seq<u8>)
    requires
        a != b,
        !lex_lt(a, b),
    ensures
        lex_lt(b, a),
    decreases a.len(),
{
    if a.len() > 0 && b.len() > 0 && a[0] == b[0] {
        if a.drop_first() == b.drop_first() {
            assert(a =~= seq![a[0]] + a.drop_first());
            assert(b =~= seq![b[0]] + b.drop_first());
        }
        lemma_lex_total(a.drop_first(), b.drop_first());
    } else if a.len() == 0 && b.len() == 0 {
        assert(a =~= b);
    }
}

/// Whether `a` comes before `b` in byte order.
fn key_less(a: &[u8], b: &[u8]) -> (r: bool)
    ensures
        r == lex_lt(a@, b@),
{
    let mut i: usize = 0;
    proof {
        assert(a@.subrange(0, a@.len() as int) =~= a@);
        assert(b@.subrange(0, b@.len() as int) =~= b@);
    }
    while i < a.len() && i < b.len() && a[i] == b[i]
        invariant
            0 <= i <= a@.len(),
            i <= b@.len(),
            lex_lt(a@, b@) == lex_lt(a@.subrange(i as int, a@.len() as int), b@.subrange(i as int, b@.len() as int)),
        decreases a@.len() - i,
    {
        proof {
            assert(a@.subrange(i as int, a@.len() as int).drop_first() =~= a@.subrange(i + 1, a@.len() as int));
            assert(b@.subrange(i as int, b@.len() as int).drop_first() =~= b@.subrange(i + 1, b@.len() as int));
        }
        i = i + 1;
    }
    if i == a.len() {
        i < b.len()
    } else if i == b.len() {
        false
    } else {
        a[i] < b[i]
    }
}

/// Whether the two byte strings are equal.
fn key_equal(a: &[u8], b: &[u8]) -> (r: bool)
    ensures
        r == (a@ == b@),
{
    if a.len() != b.len() {
        return false;
    }
    let mut i: usize = 0;
    while i < a.len()
        invariant
            a@.len() == b@.len(),
            0 <= i <= a@.len(),
            forall|j: int| 0 <= j < i ==> a@[j] == b@[j],
        decreases a@.len() - i,
    {
        if a[i] != b[i] {
            return false;
        }
        i = i + 1;
    }
    proof {
        assert(a@ =~= b@);
    }
    true
}

/// Total size of the files directly among `v[k..]`.
pub open spec fn files_only_from(v: Seq<(String, File)>, k: int) -> nat
    decreases v.len() - k,
{
    if 0 <= k < v.len() {
        (if !v[k].1.is_dir {
            match v[k].1.size {
                Some(s) => s as nat,
                None => 0,
            }
        } else {
            0
        }) + files_only_from(v, k + 1)
    } else {
        0
    }
}

proof fn lemma_files_only_le(v: Vec<(String, File)>, k: int)
    requires
        0 <= k <= v@.len(),
    ensures
        files_only_from(v@, k) <= total_from(v, k),
    decreases v@.len() - k,
{
    if k < v@.len() {
        lemma_files_only_le(v, k + 1);
        assert(v[k] == v@[k]);
        let f = v@[k].1;
        if !f.is_dir {
            assert(total(f) == match f.size {
                Some(s) => s as nat,
                None => 0,
            });
        }
    }
}

/// Size of `f` as counted by the bounded sum: a file counts when its size is
/// within `min..=max`; a directory sums those of its children that fall
/// within `min..=max`.
pub open spec fn bounded_size(f: File, min: int, max: int) -> nat
    decreases f,
{
    if f.is_dir {
        bounded_from(f.children, 0, min, max)
    } else {
        match f.size {
            Some(s) => if min <= s <= max {
                s as nat
            } else {
                0
            },
            None => 0,
        }
    }
}

pub open spec fn bounded_from(v: Vec<(String, File)>, k: int, min: int, max: int) -> nat
    decreases v, v@.len() - k,
{
    if 0 <= k < v@.len() {
        let b = bounded_size(v[k].1, min, max);
        (if min <= b <= max {
            b
        } else {
            0
        }) + bounded_from(v, k + 1, min, max)
    } else {
        0
    }
}

pub open spec fn as_nats(v: Seq<u64>) -> Seq<nat> {
    v.map_values(|x: u64| x as nat)
}

proof fn lemma_child_total(v: Vec<(String, File)>, k: int, j: int)
    requires
        0 <= k <= j < v@.len(),
    ensures
        total(v[j].1) <= total_from(v, k),
        total_from(v, j + 1) <= total_from(v, k),
    decreases j - k,
{
    if k < j {
        lemma_child_total(v, k + 1, j);
    }
}

proof fn lemma_child_small(v: Vec<(String, File)>, k: int, j: int)
    requires
        0 <= k <= j < v@.len(),
    ensures
        small_total(v[j].1) <= small_total_from(v, k),
        small_total_from(v, j + 1) <= small_total_from(v, k),
    decreases j - k,
{
    if k < j {
        lemma_child_small(v, k + 1, j);
    }
}

proof fn lemma_bounded_le(f: File, min: int, max: int)
    ensures
        bounded_size(f, min, max) <= total(f),
    decreases f,
{
    if f.is_dir {
        lemma_bounded_from_le(f.children, 0, min, max);
    }
}

proof fn lemma_bounded_from_le(v: Vec<(String, File)>, k: int, min: int, max: int)
    ensures
        bounded_from(v, k, min, max) <= total_from(v, k),
    decreases v, v@.len() - k,
{
    if 0 <= k < v@.len() {
        lemma_bounded_le(v[k].1, min, max);
        lemma_bounded_from_le(v, k + 1, min, max);
    }
}

impl File {
    /// The bounded sum of sizes over `min..=max` (see `bounded_size`).
    pub fn get_size_min_max(&self, min: u64, max: u64) -> (r: u64)
        requires
            total(*self) <= u64::MAX,
        ensures
            r == bounded_size(*self, min as int, max as int),
        decreases *self,
    {
        if self.is_dir {
            let mut sum: u64 = 0;
            let mut k: usize = 0;
            proof {
                lemma_bounded_from_le(self.children, 0, min as int, max as int);
            }
            while k < self.children.len()
                invariant
                    self.is_dir,
                    0 <= k <= self.children@.len(),
                    bounded_size(*self, min as int, max as int) == bounded_from(self.children, 0, min as int, max as int),
                    total(*self) == total_from(self.children, 0),
                    bounded_size(*self, min as int, max as int) <= total(*self),
                    total(*self) <= u64::MAX,
                    sum + bounded_from(self.children, k as int, min as int, max as int) == bounded_size(*self, min as int, max as int),
                decreases self.children@.len() - k,
            {
                proof {
                    lemma_child_total(self.children, 0, k as int);
                }
                let v = self.children[k].1.get_size_min_max(min, max);
                if v >= min && v <= max {
                    sum = sum + v;
                }
                k = k + 1;
            }
            sum
        } else {
            match self.size {
                Some(s) => if s >= min && s <= max {
                    s
                } else {
                    0
                },
                None => 0,
            }
        }
    }

    /// Sum of the sizes of the directories (this one included) whose size is
    /// at most `SMALL_DIR`.
    pub fn task_one(&self) -> (r: u64)
        requires
            total(*self) <= u64::MAX,
            small_total(*self) <= u64::MAX,
        ensures
            r == small_total(*self),
        decreases *self,
    {
        if !self.is_dir {
            return 0;
        }
        let mut sum: u64 = 0;
        let s = self.get_size();
        if s <= SMALL_DIR {
            sum = s;
        }
        let mut k: usize = 0;
        while k < self.children.len()
            invariant
                self.is_dir,
                0 <= k <= self.children@.len(),
                total(*self) == total_from(self.children, 0),
                total(*self) <= u64::MAX,
                small_total(*self) <= u64::MAX,
                small_total(*self) == (if total(*self) <= SMALL_DIR { total(*self) } else { 0 })
                    + small_total_from(self.children, 0),
                sum + small_total_from(self.children, k as int) == small_total(*self),
            decreases self.children@.len() - k,
        {
            proof {
                lemma_child_total(self.children, 0, k as int);
                lemma_child_small(self.children, 0, k as int);
            }
            let c = &self.children[k].1;
            if c.is_dir {
                let t = c.task_one();
                sum = sum + t;
            }
            k = k + 1;
        }
        sum
    }

    /// Sizes, in preorder, of the directories (this one included) of at
    /// least `required_space`; children come in their stored order, which is
    /// name order for directories filled by `insert_child`.
    pub fn task_two(&self, required_space: u64) -> (r: Vec<u64>)
        requires
            total(*self) <= u64::MAX,
        ensures
            as_nats(r@) == big_dirs(*self, required_space as int),
        decreases *self,
    {
        let mut v: Vec<u64> = Vec::new();
        if !self.is_dir {
            proof {
                assert(as_nats(v@) =~= Seq::<nat>::empty());
            }
            return v;
        }
        let s = self.get_size();
        if s >= required_space {
            v.push(s);
        }
        let ghost head = if total(*self) >= required_space { seq![total(*self)] } else { Seq::<nat>::empty() };
        proof {
            assert(as_nats(v@) =~= head);
        }
        let mut k: usize = 0;
        while k < self.children.len()
            invariant
                self.is_dir,
                0 <= k <= self.children@.len(),
                total(*self) == total_from(self.children, 0),
                total(*self) <= u64::MAX,
                big_dirs(*self, required_space as int) == head + big_dirs_from(self.children, 0, required_space as int),
                as_nats(v@) + big_dirs_from(self.children, k as int, required_space as int)
                    == head + big_dirs_from(self.children, 0, required_space as int),
            decreases self.children@.len() - k,
        {
            proof {
                lemma_child_total(self.children, 0, k as int);
            }
            let c = &self.children[k].1;
            if c.is_dir {
                let mut sub = c.task_two(required_space);
                let ghost before = v@;
                let ghost subs = sub@;
                v.append(&mut sub);
                proof {
                    assert(as_nats(v@) =~= as_nats(before) + as_nats(subs));
                }
            } else {
                proof {
                    assert(big_dirs(*c, required_space as int) == Seq::<nat>::empty());
                }
            }
            proof {
                let a = as_nats(v@);
                assert(big_dirs_from(self.children, k as int, required_space as int) =~= big_dirs(
                    self.children[k as int].1,
                    required_space as int,
                ) + big_dirs_from(self.children, k + 1, required_space as int));
            }
            k = k + 1;
        }
        proof {
            assert(big_dirs_from(self.children, k as int, required_space as int) =~= Seq::<nat>::empty());
        }
        v
    }
}

/// One line of a terminal session: a change of directory or a listed file.
/// Listed directories need no record: `cd` creates them.
#[derive(Debug, Clone)]
pub enum Record {
    /// `cd /`
    CdRoot,
    /// `cd ..`
    CdUp,
    /// `cd <name>`: enter a new, empty directory `<name>`.
    Cd(String),
    /// A file `<name>` of the given size in the current directory.
    Sized(String, u64),
}

/// Every entry of the stack is a directory.
pub open spec fn all_dirs(stack: Seq<(String, File)>) -> bool {
    forall|k: int| 0 <= k < stack.len() ==> (#[trigger] stack[k]).1.is_dir && tree_sorted(stack[k].1)
}

/// Closes the innermost open directory: it becomes a child of the one above.
fn close_top(stack: &mut Vec<(String, File)>)
    requires
        old(stack)@.len() > 1,
        all_dirs(old(stack)@),
    ensures
        final(stack)@.len() == old(stack)@.len() - 1,
        all_dirs(final(stack)@),
{
    let (name, dir) = stack.pop().unwrap();
    let p = stack.len() - 1;
    let mut parent = (String::new(), File::new(true, None));
    stack.set_and_swap(p, &mut parent);
    proof {
        assert(parent.1.is_dir);
    }
    parent.1.insert_child(name, dir);
    stack.set_and_swap(p, &mut parent);
    proof {
        assert forall|k: int| 0 <= k < stack@.len() implies (#[trigger] stack@[k]).1.is_dir by {
            if k != p {
                assert(stack@[k] == old(stack)@[k]);
            }
        }
    }
}

/// Rebuilds the directory tree from a terminal session, starting at the root.
/// `cd ..` at the root is ignored.
pub fn build_tree(log: &Vec<Record>) -> (r: File)
    ensures
        r.is_dir,
        tree_sorted(r),
{
    let mut stack: Vec<(String, File)> = Vec::new();
    stack.push((String::new(), File::new(true, None)));
    let mut i: usize = 0;
    while i < log.len()
        invariant
            0 <= i <= log@.len(),
            stack@.len() >= 1,
            all_dirs(stack@),
        decreases log@.len() - i,
    {
        match &log[i] {
            Record::CdRoot => {
                while stack.len() > 1
                    invariant
                        stack@.len() >= 1,
                        all_dirs(stack@),
                    decreases stack@.len(),
                {
                    close_top(&mut stack);
                }
            },
            Record::CdUp => {
                if stack.len() > 1 {
                    close_top(&mut stack);
                }
            },
            Record::Cd(name) => {
                stack.push((name.clone(), File::new(true, None)));
                proof {
                    assert forall|k: int| 0 <= k < stack@.len() implies (#[trigger] stack@[k]).1.is_dir by {
                        if k < stack@.len() - 1 {
                            assert(stack@[k] == stack@.drop_last()[k]);
                        }
                    }
                }
            },
            Record::Sized(name, size) => {
                let p = stack.len() - 1;
                let mut top = (String::new(), File::new(true, None));
                stack.set_and_swap(p, &mut top);
                let ghost was = top.1.is_dir;
                top.1.insert_child(name.clone(), File::new(false, Some(*size)));
                stack.set_and_swap(p, &mut top);
                proof {
                    assert(was);
                }
            },
        }
        i = i + 1;
    }
    while stack.len() > 1
        invariant
            stack@.len() >= 1,
            all_dirs(stack@),
        decreases stack@.len(),
    {
        close_top(&mut stack);
    }
    let (_, root) = stack.pop().unwrap();
    root
}

/// The smallest of the directory sizes that are at least `required`, if any.
pub fn smallest_at_least(root: &File, required: u64) -> (r: Option<u64>)
    requires
        total(*root) <= u64::MAX,
    ensures
        r matches Some(m) ==> big_dirs(*root, required as int).contains(m as nat) && forall|k: int|
            0 <= k < big_dirs(*root, required as int).len() ==> m <= #[trigger] big_dirs(
                *root,
                required as int,
            )[k],
        r is None ==> big_dirs(*root, required as int).len() == 0,
{
    let v = root.task_two(required);
    let ghost b = big_dirs(*root, required as int);
    if v.len() == 0 {
        return None;
    }
    let mut best = v[0];
    let mut i: usize = 1;
    while i < v.len()
        invariant
            1 <= i <= v@.len(),
            as_nats(v@) == b,
            exists|j: int| 0 <= j < v@.len() && v@[j] == best,
            forall|k: int| 0 <= k < i ==> best <= v@[k],
        decreases v@.len() - i,
    {
        if v[i] < best {
            best = v[i];
        }
        i = i + 1;
    }
    proof {
        let j = choose|j: int| 0 <= j < v@.len() && v@[j] == best;
        assert(b[j] == best as nat);
        assert forall|k: int| 0 <= k < b.len() implies best <= #[trigger] b[k] by {
            assert(b[k] == v@[k] as nat);
        }
    }
    Some(best)
}

} // verus!
