//! The symbol table: function signatures keyed by name, kept in name order.
use vstd::prelude::*;
use crate::model::Function;

verus! {

/// Compares two names character by character, by code point: -1, 0 or 1.
/// (On UTF-8 text this is the byte order that `String`'s `Ord` uses.)
pub open spec fn compare(a: Seq<char>, b: Seq<char>) -> int
    decreases a.len(),
{
    if a.len() == 0 && b.len() == 0 {
        0
    } else if a.len() == 0 {
        -1
    } else if b.len() == 0 {
        1
    } else if a[0] < b[0] {
        -1
    } else if a[0] > b[0] {
        1
    } else {
        compare(a.drop_first(), b.drop_first())
    }
}

pub proof fn lemma_compare_eq(a: Seq<char>, b: Seq<char>)
    ensures
        compare(a, b) == 0 <==> a == b,
    decreases a.len(),
{
    if a.len() == 0 && b.len() == 0 {
        assert(a =~= b);
    }
    if a.len() > 0 && b.len() > 0 && a[0] == b[0] {
        lemma_compare_eq(a.drop_first(), b.drop_first());
        if a.drop_first() == b.drop_first() {
            assert(a =~= seq![a[0]] + a.drop_first());
            assert(b =~= seq![b[0]] + b.drop_first());
        }
    }
}

pub proof fn lemma_compare_antisym(a: Seq<char>, b: Seq<char>)
    ensures
        compare(a, b) == -compare(b, a),
    decreases a.len(),
{
    if a.len() > 0 && b.len() > 0 && a[0] == b[0] {
        lemma_compare_antisym(a.drop_first(), b.drop_first());
    }
}

pub proof fn lemma_compare_trans(a: Seq<char>, b: Seq<char>, c: Seq<char>)
    requires
        compare(a, b) < 0,
        compare(b, c) < 0,
    ensures
        compare(a, c) < 0,
    decreases a.len(),
{
    if a.len() > 0 && b.len() > 0 && c.len() > 0 && a[0] == b[0] && b[0] == c[0] {
        lemma_compare_trans(a.drop_first(), b.drop_first(), c.drop_first());
    }
}

/// Compares two names as `compare` does.
pub fn compare_names(a: &str, b: &str) -> (r: i8)
    ensures
        r as int == compare(a@, b@),
{
    let la = a.unicode_len();
    let lb = b.unicode_len();
    let mut i: usize = 0;
    assert(a@.skip(0) =~= a@);
    assert(b@.skip(0) =~= b@);
    while i < la && i < lb
        invariant
            la == a@.len(),
            lb == b@.len(),
            i <= la,
            i <= lb,
            compare(a@, b@) == compare(a@.skip(i as int), b@.skip(i as int)),
        decreases la - i,
    {
        let x = a.get_char(i);
        let y = b.get_char(i);
        let ghost sa = a@.skip(i as int);
        let ghost sb = b@.skip(i as int);
        assert(sa[0] == x && sb[0] == y);
        if x < y {
            return -1;
        }
        if x > y {
            return 1;
        }
        assert(sa.drop_first() =~= a@.skip(i + 1));
        assert(sb.drop_first() =~= b@.skip(i + 1));
        i = i + 1;
    }
    if i < la {
        1
    } else if i < lb {
        -1
    } else {
        0
    }
}

/// A function's key in the table: its name.
pub open spec fn key(f: Function) -> Seq<char> {
    match f.name {
        Some(s) => s@,
        None => seq![],
    }
}

/// The name of a function, or the empty string where it has none.
pub fn name_of(f: &Function) -> (r: &str)
    ensures
        r@ == key(*f),
{
    match &f.name {
        Some(s) => s.as_str(),
        None => {
            proof {
                reveal_strlit("");
            }
            ""
        },
    }
}

/// The index of the function named `k`, if there is one.
pub open spec fn index_of(fs: Seq<Function>, k: Seq<char>) -> Option<int> {
    if exists|i: int| 0 <= i < fs.len() && key(#[trigger] fs[i]) == k {
        Some(choose|i: int| 0 <= i < fs.len() && key(#[trigger] fs[i]) == k)
    } else {
        None
    }
}

/// The function named `k` among `fs`, if there is one.
pub open spec fn lookup(fs: Seq<Function>, k: Seq<char>) -> Option<Function> {
    match index_of(fs, k) {
        Some(i) => Some(fs[i]),
        None => None,
    }
}

/// The last function named `k` among `fs`, if there is one.
pub open spec fn last_with_key(fs: Seq<Function>, k: Seq<char>) -> Option<Function>
    decreases fs.len(),
{
    if fs.len() == 0 {
        None
    } else if key(fs.last()) == k {
        Some(fs.last())
    } else {
        last_with_key(fs.drop_last(), k)
    }
}

/// In a table with unique names, a function is found at its own index.
pub proof fn lemma_index_of(fs: Seq<Function>, i: int)
    requires
        0 <= i < fs.len(),
        forall|a: int, b: int| 0 <= a < b < fs.len() ==> compare(key(#[trigger] fs[a]), key(#[trigger] fs[b])) < 0,
    ensures
        index_of(fs, key(fs[i])) == Some(i),
{
    let k = key(fs[i]);
    assert(key(fs[i]) == k);
    let j = choose|j: int| 0 <= j < fs.len() && key(#[trigger] fs[j]) == k;
    if j < i {
        lemma_compare_eq(key(fs[j]), key(fs[i]));
    } else if j > i {
        lemma_compare_eq(key(fs[i]), key(fs[j]));
    }
}

/// The functions of a binary, by name: each named, the names unique and in
/// increasing order. A sorted vector holds them so that this order, and
/// lookup by name, are proved here; std's ordered map promises nothing that
/// can be proved for `String` keys.
pub struct Symbols {
    pub functions: Vec<Function>,
}

impl Symbols {
    pub open spec fn wf(&self) -> bool {
        &&& forall|i: int| 0 <= i < self.functions@.len() ==> (#[trigger] self.functions@[i]).name is Some
        &&& forall|i: int, j: int|
            0 <= i < j < self.functions@.len() ==> compare(
                key(#[trigger] self.functions@[i]),
                key(#[trigger] self.functions@[j]),
            ) < 0
    }

    /// An empty table.
    pub fn new() -> (s: Symbols)
        ensures
            s.wf(),
            s.functions@.len() == 0,
    {
        Symbols { functions: Vec::new() }
    }

    /// The number of functions.
    pub fn len(&self) -> (n: usize)
        ensures
            n == self.functions@.len(),
    {
        self.functions.len()
    }

    /// Adds `f` under its name, replacing a function of the same name.
    pub fn insert(&mut self, f: Function)
        requires
            old(self).wf(),
            f.name is Some,
        ensures
            final(self).wf(),
            match index_of(old(self).functions@, key(f)) {
                Some(i) => final(self).functions@ == old(self).functions@.update(i, f),
                None => exists|p: int|
                    0 <= p <= old(self).functions@.len() && final(self).functions@
                        == old(self).functions@.insert(p, f),
            },
            forall|k: Seq<char>|
                #[trigger] lookup(final(self).functions@, k) == if k == key(f) {
                    Some(f)
                } else {
                    lookup(old(self).functions@, k)
                },
    {
        let ghost fs = self.functions@;
        let name: &str = name_of(&f);
        assert(name@ == key(f));
        let n = self.functions.len();
        let mut i: usize = 0;
        let mut c: i8 = -1;
        while i < n
            invariant
                n == fs.len(),
                fs == self.functions@,
                self.wf(),
                i <= n,
                name@ == key(f),
                forall|j: int| 0 <= j < i ==> compare(key(#[trigger] fs[j]), key(f)) < 0,
            ensures
                i <= n,
                forall|j: int| 0 <= j < i ==> compare(key(#[trigger] fs[j]), key(f)) < 0,
                i < n ==> c >= 0 && c as int == compare(key(fs[i as int]), key(f)),
            decreases n - i,
        {
            let other: &str = name_of(&self.functions[i]);
            c = compare_names(other, name);
            if c >= 0 {
                break;
            }
            i = i + 1;
        }
        if i < n && c == 0 {
            proof {
                lemma_compare_eq(key(fs[i as int]), key(f));
                assert(key(fs[i as int]) == key(f));
                let w = index_of(fs, key(f));
                assert(w is Some);
                let j = w->Some_0;
                if j != i {
                    lemma_compare_eq(key(fs[j]), key(fs[i as int]));
                }
            }
            self.functions.set(i, f);
            proof {
                assert forall|a: int, b: int| 0 <= a < b < self.functions@.len() implies compare(
                    key(#[trigger] self.functions@[a]),
                    key(#[trigger] self.functions@[b]),
                ) < 0 by {
                    assert(fs[a] == self.functions@[a] || a == i);
                    assert(fs[b] == self.functions@[b] || b == i);
                    assert(key(self.functions@[a]) == key(fs[a]));
                    assert(key(self.functions@[b]) == key(fs[b]));
                }
                let gs = self.functions@;
                assert forall|k: Seq<char>| #[trigger] lookup(gs, k) == if k == key(f) {
                    Some(f)
                } else {
                    lookup(fs, k)
                } by {
                    if k == key(f) {
                        lemma_index_of(gs, i as int);
                    } else {
                        if exists|j: int| 0 <= j < gs.len() && key(#[trigger] gs[j]) == k {
                            let j = choose|j: int| 0 <= j < gs.len() && key(#[trigger] gs[j]) == k;
                            lemma_index_of(gs, j);
                            assert(gs[j] == fs[j]);
                            lemma_index_of(fs, j);
                        } else {
                            if exists|j: int| 0 <= j < fs.len() && key(#[trigger] fs[j]) == k {
                                let j = choose|j: int| 0 <= j < fs.len() && key(#[trigger] fs[j]) == k;
                                assert(gs[j] == fs[j]);
                            }
                        }
                    }
                }
            }
        } else {
            proof {
                assert forall|j: int| 0 <= j < fs.len() implies key(#[trigger] fs[j]) != key(f) by {
                    if j < i {
                        lemma_compare_eq(key(fs[j]), key(f));
                    } else {
                        assert(i < n && c > 0);
                        lemma_compare_eq(key(fs[i as int]), key(f));
                        lemma_compare_antisym(key(fs[i as int]), key(f));
                        if j > i {
                            lemma_compare_trans(key(f), key(fs[i as int]), key(fs[j]));
                            lemma_compare_eq(key(f), key(fs[j]));
                        }
                    }
                }
                assert(index_of(fs, key(f)) is None);
                if i < n {
                    lemma_compare_antisym(key(fs[i as int]), key(f));
                }
            }
            self.functions.insert(i, f);
            proof {
                let gs = self.functions@;
                assert(gs == fs.insert(i as int, f));
                assert forall|a: int, b: int| 0 <= a < b < gs.len() implies compare(
                    key(#[trigger] gs[a]),
                    key(#[trigger] gs[b]),
                ) < 0 by {
                    if a < i && b < i {
                        assert(gs[a] == fs[a] && gs[b] == fs[b]);
                    } else if a < i && b == i {
                        assert(gs[a] == fs[a]);
                    } else if a < i {
                        assert(gs[a] == fs[a] && gs[b] == fs[b - 1]);
                    } else if a == i {
                        assert(gs[b] == fs[b - 1]);
                        if b - 1 > i {
                            lemma_compare_trans(key(f), key(fs[i as int]), key(fs[b - 1]));
                        }
                    } else {
                        assert(gs[a] == fs[a - 1] && gs[b] == fs[b - 1]);
                    }
                }
                assert(0 <= i <= fs.len() && gs == fs.insert(i as int, f));
                assert forall|k: Seq<char>| #[trigger] lookup(gs, k) == if k == key(f) {
                    Some(f)
                } else {
                    lookup(fs, k)
                } by {
                    if k == key(f) {
                        assert(gs[i as int] == f);
                        lemma_index_of(gs, i as int);
                    } else {
                        if exists|j: int| 0 <= j < gs.len() && key(#[trigger] gs[j]) == k {
                            let j = choose|j: int| 0 <= j < gs.len() && key(#[trigger] gs[j]) == k;
                            lemma_index_of(gs, j);
                            let j2 = if j < i { j } else { j - 1 };
                            assert(gs[j] == fs[j2]);
                            lemma_index_of(fs, j2);
                        } else {
                            if exists|j: int| 0 <= j < fs.len() && key(#[trigger] fs[j]) == k {
                                let j = choose|j: int| 0 <= j < fs.len() && key(#[trigger] fs[j]) == k;
                                let j2 = if j < i { j } else { j + 1 };
                                assert(gs[j2] == fs[j]);
                            }
                        }
                    }
                }
            }
        }
    }

    /// Adds each of `fs` in turn: where several share a name, the last
    /// stays.
    pub fn extend(&mut self, fs: Vec<Function>)
        requires
            old(self).wf(),
            forall|m: int| 0 <= m < fs@.len() ==> (#[trigger] fs@[m]).name is Some,
        ensures
            final(self).wf(),
            forall|k: Seq<char>|
                #[trigger] lookup(final(self).functions@, k) == match last_with_key(fs@, k) {
                    Some(g) => Some(g),
                    None => lookup(old(self).functions@, k),
                },
    {
        let ghost base = self.functions@;
        let ghost all = fs@;
        let mut rest = fs;
        let n = rest.len();
        let mut i: usize = 0;
        assert(all.skip(0) =~= all);
        assert(all.take(0) =~= Seq::<Function>::empty());
        while i < n
            invariant
                self.wf(),
                n == all.len(),
                i <= n,
                rest@.len() == n - i,
                rest@ == all.skip(i as int),
                forall|m: int| 0 <= m < all.len() ==> (#[trigger] all[m]).name is Some,
                forall|k: Seq<char>|
                    #[trigger] lookup(self.functions@, k) == match last_with_key(all.take(i as int), k) {
                        Some(g) => Some(g),
                        None => lookup(base, k),
                    },
            decreases n - i,
        {
            let f = rest.remove(0);
            assert(f == all[i as int]);
            assert(rest@ =~= all.skip(i + 1));
            let ghost before = self.functions@;
            self.insert(f);
            proof {
                assert(all.take(i + 1).drop_last() =~= all.take(i as int));
                assert(all.take(i + 1).last() == all[i as int]);
            }
            i = i + 1;
        }
        assert(all.take(n as int) =~= all);
    }

    /// The function named `name`.
    pub fn get(&self, name: &str) -> (r: Option<&Function>)
        requires
            self.wf(),
        ensures
            match index_of(self.functions@, name@) {
                Some(i) => r == Some(&self.functions@[i]),
                None => r is None,
            },
    {
        let n = self.functions.len();
        let mut i: usize = 0;
        while i < n
            invariant
                n == self.functions@.len(),
                self.wf(),
                i <= n,
                forall|j: int| 0 <= j < i ==> key(#[trigger] self.functions@[j]) != name@,
            decreases n - i,
        {
            let other: &str = name_of(&self.functions[i]);
            if compare_names(other, name) == 0 {
                proof {
                    lemma_compare_eq(other@, name@);
                    assert(key(self.functions@[i as int]) == name@);
                    let w = index_of(self.functions@, name@);
                    let j = w->Some_0;
                    if j != i {
                        if j < i {
                            lemma_compare_eq(key(self.functions@[j]), key(self.functions@[i as int]));
                        } else {
                            lemma_compare_eq(key(self.functions@[i as int]), key(self.functions@[j]));
                        }
                    }
                }
                return Some(&self.functions[i]);
            }
            proof {
                lemma_compare_eq(other@, name@);
            }
            i = i + 1;
        }
        None
    }
}

} // verus!
