//! The identifier table: interns names to small dense ids.
//!
//! The core never manipulates identifier text; it only needs the same name
//! to map to the same id.  Ids are indices into the list of names, handed
//! out in order of first appearance.

use vstd::prelude::*;

verus! {

/// Interns byte-string names; the id of a name is its index.
#[derive(Debug)]
pub struct IdentArena {
    names: Vec<Vec<u8>>,
}

impl IdentArena {
    /// The interned names, in id order.
    pub closed spec fn view_names(self) -> Seq<Seq<u8>> {
        self.names@.map_values(|n: Vec<u8>| n@)
    }

    /// No name is interned twice.
    pub open spec fn wf(self) -> bool {
        forall|i: int, j: int|
            0 <= i < j < self.view_names().len()
                ==> #[trigger] self.view_names()[i] != #[trigger] self.view_names()[j]
    }

    pub open spec fn contains_name(self, s: Seq<u8>) -> bool {
        exists|i: int| 0 <= i < self.view_names().len() && #[trigger] self.view_names()[i] == s
    }

    /// The id `add` gives name `s`: its index if interned, else the next
    /// free id.
    pub open spec fn spec_id_of(self, s: Seq<u8>) -> int {
        if self.contains_name(s) {
            choose|i: int| 0 <= i < self.view_names().len() && #[trigger] self.view_names()[i] == s
        } else {
            self.view_names().len() as int
        }
    }

    pub fn new() -> (r: Self)
        ensures
            r.wf(),
            r.view_names().len() == 0,
    {
        let r = IdentArena { names: Vec::new() };
        proof {
            assert(r.view_names() =~= Seq::<Seq<u8>>::empty());
        }
        r
    }

    /// Interns `v`: returns the id it already has, or the next free id,
    /// under which it is stored from now on.
    #[verifier::loop_isolation(false)]
    pub fn add(&mut self, v: &[u8]) -> (r: usize)
        requires
            old(self).wf(),
        ensures
            final(self).wf(),
            r < final(self).view_names().len(),
            final(self).view_names()[r as int] == v@,
            old(self).contains_name(v@) ==> *final(self) == *old(self),
            !old(self).contains_name(v@) ==> final(self).view_names()
                == old(self).view_names().push(v@) && r == old(self).view_names().len(),
            r == old(self).spec_id_of(v@),
    {
        let n = self.names.len();
        let mut i: usize = 0;
        while i < n
            invariant
                i <= n,
                forall|t: int| 0 <= t < i ==> self.view_names()[t] != v@,
            decreases n - i,
        {
            if slice_eq(self.names[i].as_slice(), v) {
                proof {
                    assert(self.view_names()[i as int] == self.names@[i as int]@);
                    assert(self.contains_name(v@));
                    let c = self.spec_id_of(v@);
                    assert(self.view_names()[c] == v@);
                    assert(c == i);
                }
                return i;
            }
            i = i + 1;
        }
        let mut owned: Vec<u8> = Vec::new();
        let mut t: usize = 0;
        while t < v.len()
            invariant
                t <= v.len(),
                owned@ == v@.subrange(0, t as int),
            decreases v.len() - t,
        {
            owned.push(v[t]);
            t = t + 1;
        }
        proof {
            assert(owned@ =~= v@);
            if self.contains_name(v@) {
                let w = choose|w: int|
                    0 <= w < self.view_names().len() && #[trigger] self.view_names()[w] == v@;
                assert(false);
            }
        }
        self.names.push(owned);
        proof {
            assert(self.view_names() =~= old(self).view_names().push(v@));
        }
        n
    }

    /// The name interned under `id`, if any id that small was handed out.
    pub fn get(&self, id: usize) -> (r: Option<&Vec<u8>>)
        ensures
            match r {
                Some(name) => id < self.view_names().len() && name@ == self.view_names()[id as int],
                None => id >= self.view_names().len(),
            },
    {
        if id < self.names.len() {
            Some(&self.names[id])
        } else {
            None
        }
    }

    /// How many names have been interned.
    pub fn len(&self) -> (r: usize)
        ensures
            r == self.view_names().len(),
    {
        self.names.len()
    }
}

/// Any index holding `n` is the id `spec_id_of` denotes: interned names
/// are unique.
pub proof fn lemma_spec_id_at(a: IdentArena, n: Seq<u8>, i: int)
    requires
        a.wf(),
        0 <= i < a.view_names().len(),
        a.view_names()[i] == n,
    ensures
        a.contains_name(n),
        a.spec_id_of(n) == i,
{
    assert(a.contains_name(n));
    let c = a.spec_id_of(n);
    assert(0 <= c < a.view_names().len() && a.view_names()[c] == n);
    assert(c == i);
}

/// Once interned, a name keeps its id as the table grows.
pub proof fn lemma_id_stable(a1: IdentArena, a2: IdentArena, n: Seq<u8>)
    requires
        a1.wf(),
        a2.wf(),
        a1.contains_name(n),
        a1.view_names().is_prefix_of(a2.view_names()),
    ensures
        a2.contains_name(n),
        a2.spec_id_of(n) == a1.spec_id_of(n),
{
    let i1 = a1.spec_id_of(n);
    assert(0 <= i1 < a1.view_names().len() && a1.view_names()[i1] == n);
    assert(a2.view_names()[i1] == n);
    lemma_spec_id_at(a2, n, i1);
}

/// After interning `n` (which either finds it or appends it), the old
/// table is a prefix of the new one and `n`'s id is unchanged.
pub proof fn lemma_id_after_add(a1: IdentArena, a2: IdentArena, n: Seq<u8>)
    requires
        a1.wf(),
        a2.wf(),
        a2.view_names() == (if a1.contains_name(n) {
            a1.view_names()
        } else {
            a1.view_names().push(n)
        }),
    ensures
        a1.view_names().is_prefix_of(a2.view_names()),
        a2.contains_name(n),
        a2.spec_id_of(n) == a1.spec_id_of(n),
{
    if a1.contains_name(n) {
        assert(a1.view_names() =~= a2.view_names().subrange(0, a1.view_names().len() as int));
        let i1 = a1.spec_id_of(n);
        assert(0 <= i1 < a1.view_names().len() && a1.view_names()[i1] == n);
        lemma_spec_id_at(a2, n, i1);
    } else {
        assert(a1.view_names() =~= a2.view_names().subrange(0, a1.view_names().len() as int));
        lemma_spec_id_at(a2, n, a1.view_names().len() as int);
    }
}

/// Prefixes compose.
pub proof fn lemma_prefix_trans(a: Seq<Seq<u8>>, b: Seq<Seq<u8>>, c: Seq<Seq<u8>>)
    requires
        a.is_prefix_of(b),
        b.is_prefix_of(c),
    ensures
        a.is_prefix_of(c),
{
    assert(a =~= c.subrange(0, a.len() as int));
}

/// Different names never share an id.
pub proof fn lemma_distinct_ids(a: IdentArena, n1: Seq<u8>, n2: Seq<u8>)
    requires
        a.wf(),
        a.contains_name(n1),
        a.contains_name(n2),
        n1 != n2,
    ensures
        a.spec_id_of(n1) != a.spec_id_of(n2),
{
    let i1 = a.spec_id_of(n1);
    let i2 = a.spec_id_of(n2);
    assert(0 <= i1 < a.view_names().len() && a.view_names()[i1] == n1);
    assert(0 <= i2 < a.view_names().len() && a.view_names()[i2] == n2);
}

/// Byte-for-byte equality of two slices.
#[verifier::loop_isolation(false)]
pub fn slice_eq(a: &[u8], b: &[u8]) -> (r: bool)
    ensures
        r == (a@ == b@),
{
    if a.len() != b.len() {
        proof {
            assert(a@.len() != b@.len());
        }
        return false;
    }
    let n = a.len();
    let mut i: usize = 0;
    while i < n
        invariant
            i <= n,
            forall|t: int| 0 <= t < i ==> a@[t] == b@[t],
        decreases n - i,
    {
        if a[i] != b[i] {
            proof {
                assert(a@[i as int] != b@[i as int]);
            }
            return false;
        }
        i = i + 1;
    }
    proof {
        assert(a@ =~= b@);
    }
    true
}

} // verus!
