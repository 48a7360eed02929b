use vstd::prelude::*;

pub mod pattern;

use crate::pattern::{Pattern, compiles, split_tokens};

verus! {

/// What can go wrong while loading or running a patch set.
#[derive(Debug, PartialEq, Eq, Structural)]
pub enum DobfError {
    /// A signature or replacement is malformed, or the two differ in length.
    ParseError,
    /// The working buffer holds no bytes.
    EmptyBuffer,
}

/// `d` with `rep` written at offset `o`, keeping the bytes under its wildcards.
pub open spec fn write_at(d: Seq<u8>, rep: Pattern, o: int) -> Seq<u8> {
    Seq::new(
        d.len(),
        |k: int|
            if o <= k < o + rep.bytes().len() && !rep.is_wild(k - o) {
                rep.bytes()[k - o]
            } else {
                d[k]
            },
    )
}

/// `d` with `rep` written at each offset of `offs`, in turn.
pub open spec fn write_all(d: Seq<u8>, rep: Pattern, offs: Seq<usize>) -> Seq<u8>
    decreases offs.len(),
{
    if offs.len() == 0 {
        d
    } else {
        write_at(write_all(d, rep, offs.drop_last()), rep, offs.last() as int)
    }
}

/// A named patch: a search template, the replacement written over each match,
/// and the key that orders it among the others of its set.
pub struct Transform {
    name: String,
    pattern: Pattern,
    patch: Pattern,
    order: usize,
}

impl Transform {
    pub closed spec fn spec_name(&self) -> Seq<char> {
        self.name@
    }

    pub closed spec fn search(&self) -> Pattern {
        self.pattern
    }

    pub closed spec fn replacement(&self) -> Pattern {
        self.patch
    }

    pub closed spec fn order_key(&self) -> usize {
        self.order
    }

    /// Both templates are usable and of the same length.
    pub open spec fn wf(&self) -> bool {
        &&& self.search().wf()
        &&& self.replacement().wf()
        &&& self.search().bytes().len() == self.replacement().bytes().len()
    }

    /// The buffer after this patch: the replacement written at each match
    /// that the search template has in `d`, in ascending order.
    pub open spec fn patched(&self, d: Seq<u8>) -> Seq<u8> {
        write_all(d, self.replacement(), self.search().all_matches(d))
    }

    /// Compiles a patch; the replacement's no-operation runs are
    /// canonicalized. Absent when either text is malformed or their lengths
    /// differ.
    pub fn new(name: &str, p: &str, patch: &str, o: usize) -> (r: Option<Transform>)
        ensures
            r is Some <==> (compiles(p@) && compiles(patch@) && split_tokens(p@).len() == split_tokens(patch@).len()),
            r matches Some(t) ==> {
                &&& t.wf()
                &&& Pattern::compiled_from(t.search(), p@, false)
                &&& Pattern::compiled_from(t.replacement(), patch@, true)
                &&& t.spec_name() == name@
                &&& t.order_key() == o
            },
    {
        let pattern = match Pattern::builder(p).build() {
            Some(x) => x,
            None => {
                return None;
            },
        };
        let replacement = match Pattern::builder(patch).simplify_nops().build() {
            Some(x) => x,
            None => {
                return None;
            },
        };
        if pattern.len() != replacement.len() {
            return None;
        }
        Some(Transform { name: name.to_owned(), pattern, patch: replacement, order: o })
    }

    /// The patch's name.
    pub fn name(&self) -> (r: &str)
        ensures
            r@ == self.spec_name(),
    {
        self.name.as_str()
    }

    /// The key that orders this patch among the others of its set.
    pub fn order(&self) -> (r: usize)
        ensures
            r == self.order_key(),
    {
        self.order
    }

    /// Writes the replacement over every match of the search template, the
    /// matches taken from `data` as it is at the start of the call. Under a
    /// wildcard of the replacement, the byte already in `data` stays.
    /// Returns the offsets of the matches, in ascending order.
    pub fn patch(&self, data: &mut Vec<u8>) -> (r: Vec<usize>)
        requires
            self.wf(),
        ensures
            final(data)@ == self.patched(old(data)@),
            r@ == self.search().all_matches(old(data)@),
    {
        let ghost d0 = data@;
        let ghost rep = self.replacement();
        let matches = self.pattern.matches_all(data.as_slice());
        let m = self.patch.len();
        let n = data.len();
        let mut k: usize = 0;
        while k < matches.len()
            invariant
                self.wf(),
                rep == self.replacement(),
                m == rep.bytes().len(),
                data@.len() == d0.len(),
                d0.len() == n,
                matches@ == self.search().all_matches(d0),
                forall|i: int| 0 <= i < matches@.len() ==> #[trigger] matches@[i] + m <= d0.len(),
                0 <= k <= matches@.len(),
                data@ == write_all(d0, rep, matches@.take(k as int)),
            decreases matches@.len() - k,
        {
            let o = matches[k];
            assert(matches@[k as int] + m <= d0.len());
            let ghost before = data@;
            let mut j: usize = 0;
            while j < m
                invariant
                    self.wf(),
                    rep == self.replacement(),
                    m == rep.bytes().len(),
                    o + m <= before.len(),
                    before.len() == n,
                    data@.len() == before.len(),
                    0 <= j <= m,
                    forall|x: int| 0 <= x < before.len() ==> #[trigger] data@[x] == if o <= x < o + j && !rep.is_wild(x - o) {
                        rep.bytes()[x - o]
                    } else {
                        before[x]
                    },
                decreases m - j,
            {
                if !self.patch.is_wildcard(j) {
                    let b = self.patch.byte_at(j);
                    data[o + j] = b;
                }
                j = j + 1;
            }
            assert(data@ =~= write_at(before, rep, o as int));
            assert(matches@.take(k + 1).drop_last() =~= matches@.take(k as int));
            k = k + 1;
        }
        assert(matches@.take(k as int) =~= matches@);
        matches
    }
}


/// Where a patch with order key `key` goes in the ordered list `t`: before the
/// first one whose key is not smaller.
pub open spec fn insert_pos(t: Seq<Transform>, key: usize) -> nat
    decreases t.len(),
{
    if t.len() == 0 || t[0].order_key() >= key {
        0
    } else {
        1 + insert_pos(t.drop_first(), key)
    }
}

/// The patches of `s` ordered by ascending order key; patches with equal keys
/// keep their relative order.
pub open spec fn sort_by_order(s: Seq<Transform>) -> Seq<Transform>
    decreases s.len(),
{
    if s.len() == 0 {
        s
    } else {
        let t = sort_by_order(s.drop_first());
        t.insert(insert_pos(t, s[0].order_key()) as int, s[0])
    }
}

/// The patches whose order key is `key`.
pub open spec fn has_order(key: usize) -> spec_fn(Transform) -> bool {
    |t: Transform| t.order_key() == key
}

proof fn lemma_insert_pos(t: Seq<Transform>, key: usize)
    ensures
        insert_pos(t, key) <= t.len(),
        forall|i: int| 0 <= i < insert_pos(t, key) ==> #[trigger] t[i].order_key() < key,
        insert_pos(t, key) < t.len() ==> t[insert_pos(t, key) as int].order_key() >= key,
    decreases t.len(),
{
    if t.len() > 0 && t[0].order_key() < key {
        lemma_insert_pos(t.drop_first(), key);
        assert forall|i: int| 0 <= i < insert_pos(t, key) implies #[trigger] t[i].order_key() < key by {
            if i > 0 {
                assert(t[i] == t.drop_first()[i - 1]);
            }
        }
    }
}

proof fn lemma_insert_pos_exact(t: Seq<Transform>, key: usize, p: nat)
    requires
        p <= t.len(),
        forall|i: int| 0 <= i < p ==> #[trigger] t[i].order_key() < key,
        p == t.len() || t[p as int].order_key() >= key,
    ensures
        insert_pos(t, key) == p,
    decreases p,
{
    if p > 0 {
        assert(t[0].order_key() < key);
        assert forall|i: int| 0 <= i < p - 1 implies #[trigger] t.drop_first()[i].order_key() < key by {
            assert(t.drop_first()[i] == t[i + 1]);
        }
        lemma_insert_pos_exact(t.drop_first(), key, (p - 1) as nat);
    }
}

proof fn lemma_sort_len(s: Seq<Transform>)
    ensures
        sort_by_order(s).len() == s.len(),
    decreases s.len(),
{
    if s.len() > 0 {
        lemma_sort_len(s.drop_first());
        lemma_insert_pos(sort_by_order(s.drop_first()), s[0].order_key());
    }
}

/// Ordering a patch set by key puts the keys in ascending order, and keeps
/// the patches that share a key in the order in which they were given.
pub proof fn lemma_sort_by_order(s: Seq<Transform>)
    ensures
        forall|i: int, j: int|
            0 <= i < j < sort_by_order(s).len() ==> #[trigger] sort_by_order(s)[i].order_key()
                <= #[trigger] sort_by_order(s)[j].order_key(),
        forall|key: usize| #[trigger] sort_by_order(s).filter(has_order(key)) == s.filter(has_order(key)),
    decreases s.len(),
{
    if s.len() > 0 {
        let rest = s.drop_first();
        let t = sort_by_order(rest);
        let x = s[0];
        let p = insert_pos(t, x.order_key());
        lemma_sort_by_order(rest);
        lemma_sort_len(rest);
        lemma_insert_pos(t, x.order_key());
        let r = t.insert(p as int, x);
        assert(r == sort_by_order(s));
        assert forall|i: int| p <= i < t.len() implies #[trigger] t[i].order_key() >= x.order_key() by {
            if i > p {
                assert(t[p as int].order_key() <= t[i].order_key());
            }
        }
        assert forall|i: int, j: int| 0 <= i < j < r.len() implies #[trigger] r[i].order_key() <= #[trigger] r[j].order_key() by {
            let ti = if i < p { i } else if i == p { -1 } else { i - 1 };
            let tj = if j < p { j } else if j == p { -1 } else { j - 1 };
            if i != p && j != p {
                assert(r[i] == t[ti] && r[j] == t[tj]);
                assert(t[ti].order_key() <= t[tj].order_key());
            } else if i == p {
                assert(r[j] == t[tj]);
            } else {
                assert(r[i] == t[ti]);
            }
        }
        assert(r =~= t.take(p as int) + seq![x] + t.skip(p as int));
        assert(t =~= t.take(p as int) + t.skip(p as int));
        assert(s =~= seq![x] + rest);
        assert forall|key: usize| #[trigger] r.filter(has_order(key)) == s.filter(has_order(key)) by {
            let f = has_order(key);
            Seq::filter_distributes_over_add(t.take(p as int) + seq![x], t.skip(p as int), f);
            Seq::filter_distributes_over_add(t.take(p as int), seq![x], f);
            Seq::filter_distributes_over_add(t.take(p as int), t.skip(p as int), f);
            Seq::filter_distributes_over_add(seq![x], rest, f);
            assert(seq![x].filter(f) == if f(x) { seq![x] } else { Seq::<Transform>::empty() }) by {
                reveal_with_fuel(Seq::filter, 2);
            }
            if f(x) {
                assert forall|i: int| 0 <= i < t.take(p as int).len() implies !f(#[trigger] t.take(p as int)[i]) by {
                    assert(t.take(p as int)[i] == t[i]);
                }
                t.take(p as int).lemma_all_neg_filter_empty(f);
            }
        }
    }
}

/// The entry `(name, pattern, patch, order)` describes a patch that compiles.
pub open spec fn entry_ok(e: (String, String, String, usize)) -> bool {
    compiles(e.1@) && compiles(e.2@) && split_tokens(e.1@).len() == split_tokens(e.2@).len()
}

/// `t` is the patch compiled from the entry `(name, pattern, patch, order)`.
pub open spec fn built_from(t: Transform, e: (String, String, String, usize)) -> bool {
    &&& t.wf()
    &&& Pattern::compiled_from(t.search(), e.1@, false)
    &&& Pattern::compiled_from(t.replacement(), e.2@, true)
    &&& t.spec_name() == e.0@
    &&& t.order_key() == e.3
}

/// `transforms` ordered by ascending key; patches with equal keys keep their
/// relative order.
fn sort_transforms(transforms: Vec<Transform>) -> (r: Vec<Transform>)
    ensures
        r@ == sort_by_order(transforms@),
        (forall|i: int| 0 <= i < transforms@.len() ==> #[trigger] transforms@[i].wf()) ==> forall|i: int|
            0 <= i < r@.len() ==> #[trigger] r@[i].wf(),
{
    let ghost s = transforms@;
    let mut rest = transforms;
    let mut out: Vec<Transform> = Vec::new();
    while rest.len() > 0
        invariant
            rest@ == s.take(rest@.len() as int),
            rest@.len() <= s.len(),
            out@ == sort_by_order(s.skip(rest@.len() as int)),
            (forall|i: int| 0 <= i < s.len() ==> #[trigger] s[i].wf()) ==> forall|i: int|
                0 <= i < out@.len() ==> #[trigger] out@[i].wf(),
        decreases rest@.len(),
    {
        let x = rest.pop().unwrap();
        let ghost done = s.skip((rest@.len() + 1) as int);
        proof {
            lemma_sort_len(done);
            assert(s.skip(rest@.len() as int).drop_first() =~= done);
            assert(s.skip(rest@.len() as int)[0] == x);
        }
        let mut p: usize = 0;
        while p < out.len() && out[p].order < x.order
            invariant
                0 <= p <= out@.len(),
                forall|i: int| 0 <= i < p ==> #[trigger] out@[i].order_key() < x.order_key(),
            decreases out@.len() - p,
        {
            p = p + 1;
        }
        proof {
            lemma_insert_pos_exact(out@, x.order_key(), p as nat);
        }
        let ghost prev = out@;
        out.insert(p, x);
        assert(rest@ =~= s.take(rest@.len() as int));
        proof {
            if forall|i: int| 0 <= i < s.len() ==> #[trigger] s[i].wf() {
            assert(s[rest@.len() as int] == x);
            assert forall|i: int| 0 <= i < out@.len() implies #[trigger] out@[i].wf() by {
                if i < p {
                    assert(out@[i] == prev[i]);
                } else if i > p {
                    assert(out@[i] == prev[i - 1]);
                }
            }
            }
        }
    }
    assert(s.skip(0) =~= s);
    out
}

/// A loaded patch set: its name and its patches, ordered by key.
pub struct DobfConfig {
    pub name: String,
    pub transforms: Vec<Transform>,
}

impl DobfConfig {
    /// A patch set whose patches are `transforms` ordered by ascending key;
    /// patches with equal keys keep their relative order.
    pub fn from_transforms(name: String, transforms: Vec<Transform>) -> (r: DobfConfig)
        ensures
            r.name@ == name@,
            r.transforms@ == sort_by_order(transforms@),
            (forall|i: int| 0 <= i < transforms@.len() ==> #[trigger] transforms@[i].wf()) ==> forall|i: int|
                0 <= i < r.transforms@.len() ==> #[trigger] r.transforms@[i].wf(),
    {
        DobfConfig { name, transforms: sort_transforms(transforms) }
    }
}

impl DobfConfig {
    /// Compiles each entry `(name, pattern, patch, order)` of a patch set and
    /// orders the patches by key. One entry that does not compile fails the
    /// whole set.
    pub fn from_entries(name: String, entries: &Vec<(String, String, String, usize)>) -> (r: Result<DobfConfig, DobfError>)
        ensures
            r is Err <==> exists|i: int| 0 <= i < entries@.len() && !entry_ok(#[trigger] entries@[i]),
            r matches Err(e) ==> e == DobfError::ParseError,
            r matches Ok(c) ==> c.name@ == name@ && exists|ts: Seq<Transform>|
                {
                    &&& ts.len() == entries@.len()
                    &&& forall|i: int| 0 <= i < ts.len() ==> #[trigger] built_from(ts[i], entries@[i])
                    &&& c.transforms@ == sort_by_order(ts)
                },
            r matches Ok(c) ==> forall|i: int| 0 <= i < c.transforms@.len() ==> #[trigger] c.transforms@[i].wf(),
    {
        let mut ts: Vec<Transform> = Vec::new();
        let mut i: usize = 0;
        while i < entries.len()
            invariant
                0 <= i <= entries@.len(),
                ts@.len() == i,
                forall|k: int| 0 <= k < i ==> #[trigger] built_from(ts@[k], entries@[k]),
                forall|k: int| 0 <= k < i ==> #[trigger] entry_ok(entries@[k]),
            decreases entries@.len() - i,
        {
            let e = &entries[i];
            match Transform::new(e.0.as_str(), e.1.as_str(), e.2.as_str(), e.3) {
                Some(t) => {
                    ts.push(t);
                },
                None => {
                    assert(!entry_ok(entries@[i as int]));
                    return Err(DobfError::ParseError);
                },
            }
            i = i + 1;
        }
        let ghost built = ts@;
        assert(forall|k: int| 0 <= k < built.len() ==> #[trigger] built[k].wf()) by {
            assert forall|k: int| 0 <= k < built.len() implies #[trigger] built[k].wf() by {
                assert(built_from(built[k], entries@[k]));
            }
        }
        let c = DobfConfig::from_transforms(name, ts);
        assert(forall|k: int| 0 <= k < built.len() ==> #[trigger] built_from(built[k], entries@[k]));
        Ok(c)
    }
}

/// The buffer after running each patch of `ops` over `d`, first to last.
pub open spec fn run_all(d: Seq<u8>, ops: Seq<Transform>) -> Seq<u8>
    decreases ops.len(),
{
    if ops.len() == 0 {
        d
    } else {
        ops.last().patched(run_all(d, ops.drop_last()))
    }
}

/// The patches of `ops` at the indices `idx`, in the order of `idx`.
pub open spec fn pick(ops: Seq<Transform>, idx: Seq<usize>) -> Seq<Transform> {
    Seq::new(idx.len(), |k: int| ops[idx[k] as int])
}

/// A working buffer and the patches to run over it, by ascending order key.
pub struct DobfInstance {
    contents: Vec<u8>,
    transforms: Vec<Transform>,
}

impl DobfInstance {
    pub closed spec fn data(&self) -> Seq<u8> {
        self.contents@
    }

    pub closed spec fn ops(&self) -> Seq<Transform> {
        self.transforms@
    }

    /// Every patch is usable.
    pub open spec fn wf(&self) -> bool {
        forall|i: int| 0 <= i < self.ops().len() ==> #[trigger] self.ops()[i].wf()
    }

    /// An instance over `contents`, with no patches yet.
    pub fn new(contents: Vec<u8>) -> (r: DobfInstance)
        ensures
            r.data() == contents@,
            r.ops() == Seq::<Transform>::empty(),
            r.wf(),
    {
        DobfInstance { contents, transforms: Vec::new() }
    }

    /// Appends the patches of a loaded set, in the set's order.
    pub fn load_config(&mut self, config: DobfConfig) -> (r: &mut DobfInstance)
        requires
            old(self).wf(),
            forall|i: int| 0 <= i < config.transforms@.len() ==> #[trigger] config.transforms@[i].wf(),
        ensures
            r.data() == old(self).data(),
            r.ops() == old(self).ops() + config.transforms@,
            r.wf(),
            *final(self) == *final(r),
    {
        let mut ts = config.transforms;
        self.transforms.append(&mut ts);
        self
    }

    /// Appends one patch.
    pub fn add_transform(&mut self, t: Transform) -> (r: &mut DobfInstance)
        requires
            old(self).wf(),
            t.wf(),
        ensures
            r.data() == old(self).data(),
            r.ops() == old(self).ops().push(t),
            r.wf(),
            *final(self) == *final(r),
    {
        self.transforms.push(t);
        self
    }

    /// Indices into the patch list, in the order in which the patches run:
    /// ascending key, and list order among equal keys.
    fn key_order(&self) -> (r: Vec<usize>)
        ensures
            forall|k: int| 0 <= k < r@.len() ==> #[trigger] r@[k] < self.ops().len(),
            pick(self.ops(), r@) == sort_by_order(self.ops()),
    {
        let ghost ops = self.ops();
        let n = self.transforms.len();
        let mut out: Vec<usize> = Vec::new();
        let mut rest: usize = n;
        while rest > 0
            invariant
                ops == self.ops(),
                n == ops.len(),
                0 <= rest <= n,
                forall|k: int| 0 <= k < out@.len() ==> #[trigger] out@[k] < n,
                pick(ops, out@) == sort_by_order(ops.skip(rest as int)),
            decreases rest,
        {
            let x = rest - 1;
            let key = self.transforms[x].order;
            proof {
                assert(ops.skip(x as int).drop_first() =~= ops.skip(rest as int));
                assert(ops.skip(x as int)[0] == ops[x as int]);
                lemma_sort_len(ops.skip(rest as int));
            }
            let mut p: usize = 0;
            while p < out.len() && self.transforms[out[p]].order < key
                invariant
                    ops == self.ops(),
                    n == ops.len(),
                    key == ops[x as int].order_key(),
                    forall|k: int| 0 <= k < out@.len() ==> #[trigger] out@[k] < n,
                    0 <= p <= out@.len(),
                    forall|i: int| 0 <= i < p ==> #[trigger] pick(ops, out@)[i].order_key() < key,
                decreases out@.len() - p,
            {
                assert(pick(ops, out@)[p as int] == ops[out@[p as int] as int]);
                p = p + 1;
            }
            proof {
                if p < out@.len() {
                    assert(pick(ops, out@)[p as int] == ops[out@[p as int] as int]);
                }
                lemma_insert_pos_exact(pick(ops, out@), key, p as nat);
            }
            let ghost prev = out@;
            out.insert(p, x);
            assert(pick(ops, out@) =~= pick(ops, prev).insert(p as int, ops[x as int]));
            rest = x;
        }
        assert(ops.skip(0) =~= ops);
        out
    }

    /// Runs every patch over the buffer in ascending order key; patches with
    /// equal keys run in the order in which they were added. Returns, for
    /// each patch in that order, the offsets at which it matched. The patch
    /// list is left as it is. Fails, changing nothing, when the buffer is
    /// empty.
    pub fn run(&mut self) -> (r: Result<Vec<Vec<usize>>, DobfError>)
        requires
            old(self).wf(),
        ensures
            final(self).ops() == old(self).ops(),
            final(self).wf(),
            old(self).data().len() == 0 ==> r is Err && r->Err_0 == DobfError::EmptyBuffer && final(self).data()
                == old(self).data(),
            old(self).data().len() > 0 ==> r is Ok && final(self).data() == run_all(old(self).data(), sort_by_order(old(self).ops())),
            r matches Ok(found) ==> found@.len() == old(self).ops().len() && forall|k: int|
                0 <= k < found@.len() ==> #[trigger] found@[k]@ == sort_by_order(old(self).ops())[k].search().all_matches(
                    run_all(old(self).data(), sort_by_order(old(self).ops()).take(k)),
                ),
    {
        if self.contents.len() < 1 {
            return Err(DobfError::EmptyBuffer);
        }
        let ghost d0 = self.contents@;
        let ghost ops = self.ops();
        let order = self.key_order();
        let ghost sorted = sort_by_order(ops);
        let mut found: Vec<Vec<usize>> = Vec::new();
        let mut i: usize = 0;
        while i < order.len()
            invariant
                self.wf(),
                self.ops() == ops,
                sorted == sort_by_order(ops),
                pick(ops, order@) == sorted,
                forall|k: int| 0 <= k < order@.len() ==> #[trigger] order@[k] < ops.len(),
                0 <= i <= order@.len(),
                self.contents@ == run_all(d0, sorted.take(i as int)),
                found@.len() == i,
                forall|k: int| 0 <= k < i ==> #[trigger] found@[k]@ == sorted[k].search().all_matches(run_all(d0, sorted.take(k))),
            decreases order@.len() - i,
        {
            let j = order[i];
            assert(sorted[i as int] == ops[j as int]);
            assert(self.ops()[j as int].wf());
            let m = self.transforms[j].patch(&mut self.contents);
            found.push(m);
            assert(sorted.take(i + 1).drop_last() =~= sorted.take(i as int));
            i = i + 1;
        }
        proof {
            lemma_sort_len(ops);
        }
        assert(sorted.take(i as int) =~= sorted);
        Ok(found)
    }

    /// The buffer to be saved; an empty buffer is not saved.
    pub fn output(&self) -> (r: Result<&Vec<u8>, DobfError>)
        ensures
            self.data().len() == 0 ==> r == Err::<&Vec<u8>, DobfError>(DobfError::EmptyBuffer),
            r matches Ok(v) ==> v@ == self.data() && v@.len() > 0,
            self.data().len() > 0 ==> r is Ok,
    {
        if self.contents.len() < 1 {
            Err(DobfError::EmptyBuffer)
        } else {
            Ok(&self.contents)
        }
    }
}

} // verus!
