//! The list of mount points that the kernel component leaves mounted, kept on
//! disk and replayed into the kernel.
use vstd::prelude::*;

use crate::plan::{
    effects, lemma_run_append, lemma_run_one, lemma_run_two, run, Effect, KernelCall, KernelOp, Step, World,
};

verus! {

/// The stored unmount configuration: a mapping from path to flags, held as a
/// list of entries whose paths are distinct.
#[derive(Debug)]
pub struct Config {
    pub paths: Vec<(String, u32)>,
}

impl Config {
    /// The paths of the entries are distinct.
    pub open spec fn wf(&self) -> bool {
        forall|i: int, j: int|
            0 <= i < j < self.paths@.len() ==> (#[trigger] self.paths@[i]).0@
                != (#[trigger] self.paths@[j]).0@
    }

    /// Whether the entry at `i` has path `k`.
    pub open spec fn holds_at(&self, k: Seq<char>, i: int) -> bool {
        0 <= i < self.paths@.len() && self.paths@[i].0@ == k
    }

    proof fn lemma_entry(&self, i: int)
        requires
            self.wf(),
            0 <= i < self.paths@.len(),
        ensures
            self@.contains_key(self.paths@[i].0@),
            self@[self.paths@[i].0@] == self.paths@[i].1,
    {
        let k = self.paths@[i].0@;
        assert(self.holds_at(k, i));
        let j = choose|j: int| self.holds_at(k, j);
        if i < j {
            assert(self.paths@[i].0@ != self.paths@[j].0@);
        } else if j < i {
            assert(self.paths@[j].0@ != self.paths@[i].0@);
        }
    }

    /// An empty configuration.
    pub fn new() -> (r: Config)
        ensures
            r.wf(),
            r@ == Map::<Seq<char>, u32>::empty(),
    {
        let r = Config { paths: Vec::new() };
        assert(r@ =~= Map::<Seq<char>, u32>::empty());
        r
    }

    /// The index of the entry for `path`, if there is one.
    pub fn find(&self, path: &str) -> (r: Option<usize>)
        requires
            self.wf(),
        ensures
            r matches Some(i) ==> self.holds_at(path@, i as int),
            r is None <==> !self@.contains_key(path@),
    {
        let key = path.to_owned();
        let mut i: usize = 0;
        while i < self.paths.len()
            invariant
                key@ == path@,
                i <= self.paths@.len(),
                forall|j: int| 0 <= j < i ==> !self.holds_at(path@, j),
            decreases self.paths@.len() - i,
        {
            if self.paths[i].0 == key {
                assert(self.holds_at(path@, i as int));
                return Some(i);
            }
            i += 1;
        }
        None
    }

    /// The flags stored for `path`.
    pub fn get(&self, path: &str) -> (r: Option<u32>)
        requires
            self.wf(),
        ensures
            r == (if self@.contains_key(path@) {
                Some(self@[path@])
            } else {
                None
            }),
    {
        match self.find(path) {
            Some(i) => {
                proof {
                    self.lemma_entry(i as int);
                }
                Some(self.paths[i].1)
            },
            None => None,
        }
    }

    /// Sets the flags of `path`, adding it if it is not there yet.
    pub fn insert(&mut self, path: &str, flags: u32)
        requires
            old(self).wf(),
        ensures
            final(self).wf(),
            final(self)@ == old(self)@.insert(path@, flags),
    {
        let key = path.to_owned();
        match self.find(path) {
            Some(i) => {
                self.paths.set(i, (key, flags));
                proof {
                    self.lemma_update_view(*old(self), i as int);
                }
            },
            None => {
                self.paths.push((key, flags));
                proof {
                    assert(self.paths@.drop_last() =~= old(self).paths@);
                    self.lemma_push_view(*old(self));
                }
            },
        }
    }

    /// Drops the entry for `path`, if there is one.
    pub fn remove(&mut self, path: &str)
        requires
            old(self).wf(),
        ensures
            final(self).wf(),
            final(self)@ == old(self)@.remove(path@),
    {
        match self.find(path) {
            Some(i) => {
                self.paths.remove(i);
                proof {
                    self.lemma_remove_view(*old(self), i as int);
                }
            },
            None => {
                assert(self@ =~= old(self)@.remove(path@));
            },
        }
    }

    proof fn lemma_remove_view(&self, prev: Config, i: int)
        requires
            prev.wf(),
            0 <= i < prev.paths@.len(),
            self.paths@ == prev.paths@.remove(i),
        ensures
            self.wf(),
            self@ == prev@.remove(prev.paths@[i].0@),
    {
        let k = prev.paths@[i].0@;
        assert forall|a: int, b: int|
            0 <= a < b < self.paths@.len() implies (#[trigger] self.paths@[a]).0@
            != (#[trigger] self.paths@[b]).0@ by {
            let pa = if a < i { a } else { a + 1 };
            let pb = if b < i { b } else { b + 1 };
            assert(prev.paths@[pa].0@ != prev.paths@[pb].0@);
        }
        let m = prev@.remove(k);
        assert forall|q: Seq<char>| #[trigger] self@.contains_key(q) <==> m.contains_key(q) by {
            if self@.contains_key(q) {
                let j = choose|j: int| self.holds_at(q, j);
                let pj = if j < i { j } else { j + 1 };
                assert(prev.holds_at(q, pj));
                if q == k {
                    assert(prev.paths@[pj].0@ == prev.paths@[i].0@);
                }
            }
            if m.contains_key(q) {
                let j = choose|j: int| prev.holds_at(q, j);
                if j < i {
                    assert(self.holds_at(q, j));
                } else {
                    assert(j != i);
                    assert(self.holds_at(q, j - 1));
                }
            }
        }
        assert forall|q: Seq<char>| #[trigger] self@.contains_key(q) implies self@[q] == m[q] by {
            let j = choose|j: int| self.holds_at(q, j);
            self.lemma_entry(j);
            let pj = if j < i { j } else { j + 1 };
            assert(prev.holds_at(q, pj));
            prev.lemma_entry(pj);
        }
        assert(self@ =~= m);
    }

    proof fn lemma_update_view(&self, prev: Config, i: int)
        requires
            prev.wf(),
            0 <= i < prev.paths@.len(),
            prev.paths@[i].0@ == self.paths@[i].0@,
            self.paths@ == prev.paths@.update(i, self.paths@[i]),
        ensures
            self.wf(),
            self@ == prev@.insert(self.paths@[i].0@, self.paths@[i].1),
    {
        let k = self.paths@[i].0@;
        assert forall|a: int, b: int|
            0 <= a < b < self.paths@.len() implies (#[trigger] self.paths@[a]).0@
            != (#[trigger] self.paths@[b]).0@ by {
            assert(prev.paths@[a].0@ != prev.paths@[b].0@);
        }
        let m = prev@.insert(k, self.paths@[i].1);
        assert forall|q: Seq<char>| #[trigger] self@.contains_key(q) <==> m.contains_key(q) by {
            if self@.contains_key(q) {
                let j = choose|j: int| self.holds_at(q, j);
                assert(prev.holds_at(q, j));
            }
            if prev@.contains_key(q) {
                let j = choose|j: int| prev.holds_at(q, j);
                assert(self.holds_at(q, j));
            }
            if q == k {
                assert(self.holds_at(q, i));
            }
        }
        assert forall|q: Seq<char>| #[trigger] self@.contains_key(q) implies self@[q] == m[q] by {
            let j = choose|j: int| self.holds_at(q, j);
            self.lemma_entry(j);
            if j != i {
                assert(prev.holds_at(q, j));
                prev.lemma_entry(j);
            }
        }
        assert(self@ =~= m);
    }

    proof fn lemma_push_view(&self, prev: Config)
        requires
            prev.wf(),
            self.paths@.len() == prev.paths@.len() + 1,
            self.paths@.drop_last() == prev.paths@,
            !prev@.contains_key(self.paths@.last().0@),
        ensures
            self.wf(),
            self@ == prev@.insert(self.paths@.last().0@, self.paths@.last().1),
    {
        let n = prev.paths@.len() as int;
        let k = self.paths@[n].0@;
        assert forall|j: int| 0 <= j < n implies self.paths@[j] == prev.paths@[j] by {
            assert(self.paths@.drop_last()[j] == self.paths@[j]);
        }
        assert forall|a: int, b: int|
            0 <= a < b < self.paths@.len() implies (#[trigger] self.paths@[a]).0@
            != (#[trigger] self.paths@[b]).0@ by {
            if b == n {
                assert(!prev.holds_at(k, a));
            } else {
                assert(prev.paths@[a].0@ != prev.paths@[b].0@);
            }
        }
        let m = prev@.insert(k, self.paths@[n].1);
        assert forall|q: Seq<char>| #[trigger] self@.contains_key(q) <==> m.contains_key(q) by {
            if self@.contains_key(q) {
                let j = choose|j: int| self.holds_at(q, j);
                if j < n {
                    assert(prev.holds_at(q, j));
                }
            }
            if prev@.contains_key(q) {
                let j = choose|j: int| prev.holds_at(q, j);
                assert(self.holds_at(q, j));
            }
            if q == k {
                assert(self.holds_at(q, n));
            }
        }
        assert forall|q: Seq<char>| #[trigger] self@.contains_key(q) implies self@[q] == m[q] by {
            let j = choose|j: int| self.holds_at(q, j);
            self.lemma_entry(j);
            if j != n {
                assert(prev.holds_at(q, j));
                prev.lemma_entry(j);
            }
        }
        assert(self@ =~= m);
    }
}

impl View for Config {
    type V = Map<Seq<char>, u32>;

    /// The mapping from path to flags.
    open spec fn view(&self) -> Map<Seq<char>, u32> {
        Map::new(
            |k: Seq<char>| exists|i: int| self.holds_at(k, i),
            |k: Seq<char>| self.paths@[choose|i: int| self.holds_at(k, i)].1,
        )
    }
}

/// The mapping held by a configuration that was read, if one was.
pub open spec fn loaded_view(loaded: Option<Config>) -> Option<Map<Seq<char>, u32>> {
    match loaded {
        Some(c) => Some(c@),
        None => None,
    }
}

/// Making sure that a well-formed configuration is on disk: where none could
/// be read, an empty one is stored; one that was read is left as it is.
pub open spec fn ensure_effects(loaded: Option<Map<Seq<char>, u32>>) -> Seq<Effect> {
    match loaded {
        Some(_) => Seq::empty(),
        None => seq![Effect::StoreUmount(Map::empty())],
    }
}

/// Replaying a configuration: one kernel add per entry, in the order stored.
pub open spec fn replay_effects(entries: Seq<(String, u32)>) -> Seq<Effect> {
    Seq::new(
        entries.len(),
        |i: int| Effect::Kernel(KernelOp::UmountAdd(entries[i].0@, entries[i].1)),
    )
}

/// Adding a path: the kernel first, then the file with the path set to `flags`.
pub open spec fn add_effects(m: Map<Seq<char>, u32>, p: Seq<char>, f: u32) -> Seq<Effect> {
    seq![Effect::Kernel(KernelOp::UmountAdd(p, f)), Effect::StoreUmount(m.insert(p, f))]
}

/// Deleting a path: the kernel first, then the file without the path.
pub open spec fn del_effects(m: Map<Seq<char>, u32>, p: Seq<char>) -> Seq<Effect> {
    seq![Effect::Kernel(KernelOp::UmountDel(p)), Effect::StoreUmount(m.remove(p))]
}

/// Wiping the list: the kernel first, then the file, so that a failed kernel
/// wipe leaves the file as it was.
pub open spec fn wipe_effects() -> Seq<Effect> {
    seq![Effect::Kernel(KernelOp::UmountWipe), Effect::StoreUmount(Map::empty())]
}

/// Decides what to store so that the configuration file holds a well-formed
/// configuration; `loaded` is what was read from it, `None` where the file is
/// missing or does not parse.
pub fn ensure_config(loaded: &Option<Config>) -> (r: Vec<Step>)
    ensures
        effects(r@) == ensure_effects(loaded_view(*loaded)),
{
    match loaded {
        Some(_) => {
            let r: Vec<Step> = Vec::new();
            assert(effects(r@) =~= ensure_effects(loaded_view(*loaded)));
            r
        },
        None => {
            let r = vec![Step::StoreUmount(Config::new())];
            assert(effects(r@) =~= ensure_effects(loaded_view(*loaded)));
            r
        },
    }
}

/// The steps that replay a stored configuration into the kernel at boot.
pub fn load_umount_config(cfg: &Config) -> (r: Vec<Step>)
    ensures
        effects(r@) == replay_effects(cfg.paths@),
{
    let mut r: Vec<Step> = Vec::new();
    let mut i: usize = 0;
    while i < cfg.paths.len()
        invariant
            i <= cfg.paths@.len(),
            r@.len() == i,
            effects(r@) == replay_effects(cfg.paths@.subrange(0, i as int)),
        decreases cfg.paths@.len() - i,
    {
        let ghost prev = r@;
        let path = cfg.paths[i].0.clone();
        r.push(Step::Kernel(KernelCall::UmountAdd { path, flags: cfg.paths[i].1 }));
        assert forall|j: int| 0 <= j <= i implies effects(r@)[j] == replay_effects(
            cfg.paths@.subrange(0, i + 1),
        )[j] by {
            if j < i {
                assert(r@[j] == prev[j]);
                assert(effects(prev)[j] == replay_effects(cfg.paths@.subrange(0, i as int))[j]);
            }
        }
        assert(effects(r@) =~= replay_effects(cfg.paths@.subrange(0, i + 1)));
        i += 1;
    }
    assert(cfg.paths@.subrange(0, i as int) =~= cfg.paths@);
    r
}

/// The stored entries, for display.
pub fn list_umount(cfg: &Config) -> (r: Vec<(String, u32)>)
    ensures
        r@.len() == cfg.paths@.len(),
        forall|i: int|
            0 <= i < r@.len() ==> (#[trigger] r@[i]).0@ == cfg.paths@[i].0@ && r@[i].1
                == cfg.paths@[i].1,
{
    let mut r: Vec<(String, u32)> = Vec::new();
    let mut i: usize = 0;
    while i < cfg.paths.len()
        invariant
            i <= cfg.paths@.len(),
            r@.len() == i,
            forall|j: int|
                0 <= j < i ==> (#[trigger] r@[j]).0@ == cfg.paths@[j].0@ && r@[j].1
                    == cfg.paths@[j].1,
        decreases cfg.paths@.len() - i,
    {
        r.push((cfg.paths[i].0.clone(), cfg.paths[i].1));
        i += 1;
    }
    r
}

/// The steps that exempt `path` from unmounting with `flags`, replacing any
/// flags it had.
pub fn add_umount(cfg: Config, path: &str, flags: u32) -> (r: Vec<Step>)
    requires
        cfg.wf(),
    ensures
        effects(r@) == add_effects(cfg@, path@, flags),
{
    let mut next = cfg;
    next.insert(path, flags);
    let r = vec![
        Step::Kernel(KernelCall::UmountAdd { path: path.to_owned(), flags }),
        Step::StoreUmount(next),
    ];
    assert(effects(r@) =~= add_effects(cfg@, path@, flags));
    r
}

/// The steps that drop `path` from the exemption list; a path that is not
/// there is no error.
pub fn del_umount(cfg: Config, path: &str) -> (r: Vec<Step>)
    requires
        cfg.wf(),
    ensures
        effects(r@) == del_effects(cfg@, path@),
{
    let mut next = cfg;
    next.remove(path);
    let r = vec![
        Step::Kernel(KernelCall::UmountDel { path: path.to_owned() }),
        Step::StoreUmount(next),
    ];
    assert(effects(r@) =~= del_effects(cfg@, path@));
    r
}

/// The steps that empty the exemption list.
pub fn wipe_umount() -> (r: Vec<Step>)
    ensures
        effects(r@) == wipe_effects(),
{
    let r = vec![Step::Kernel(KernelCall::UmountWipe), Step::StoreUmount(Config::new())];
    assert(effects(r@) =~= wipe_effects());
    r
}

/// Adding a path stores it with its flags, and adding it again with other
/// flags replaces them; a kernel list that mirrored the file still does.
pub proof fn lemma_add_then_list(w: World, m: Map<Seq<char>, u32>, p: Seq<char>, f: u32, f2: u32)
    requires
        w.umount_file == Some(m),
    ensures
        ({
            let w1 = run(w, add_effects(m, p, f));
            let m1 = m.insert(p, f);
            let w2 = run(w1, add_effects(m1, p, f2));
            &&& w1.umount_file == Some(m1)
            &&& m1.contains_key(p) && m1[p] == f
            &&& w2.umount_file == Some(m1.insert(p, f2))
            &&& m1.insert(p, f2).contains_key(p) && m1.insert(p, f2)[p] == f2
            &&& (w.umount_kernel == m ==> w1.umount_kernel == m1 && w2.umount_kernel == m1.insert(
                p,
                f2,
            ))
        }),
{
    let m1 = m.insert(p, f);
    let a = add_effects(m, p, f);
    lemma_run_two(w, a[0], a[1]);
    assert(a == seq![a[0], a[1]]);
    let w1 = run(w, a);
    let b = add_effects(m1, p, f2);
    lemma_run_two(w1, b[0], b[1]);
    assert(b == seq![b[0], b[1]]);
}

/// Deleting a path that is not stored succeeds and leaves the stored mapping
/// as it was.
pub proof fn lemma_del_absent(w: World, m: Map<Seq<char>, u32>, p: Seq<char>)
    requires
        w.umount_file == Some(m),
        !m.contains_key(p),
    ensures
        run(w, del_effects(m, p)).umount_file == Some(m),
{
    let a = del_effects(m, p);
    lemma_run_two(w, a[0], a[1]);
    assert(a == seq![a[0], a[1]]);
    assert(m.remove(p) =~= m);
}

/// After a wipe both the stored mapping and the kernel's list are empty.
pub proof fn lemma_wipe_clears(w: World)
    ensures
        run(w, wipe_effects()).umount_file == Some(Map::<Seq<char>, u32>::empty()),
        run(w, wipe_effects()).umount_kernel == Map::<Seq<char>, u32>::empty(),
{
    let a = wipe_effects();
    lemma_run_two(w, a[0], a[1]);
    assert(a == seq![a[0], a[1]]);
}

/// Replaying a configuration adds each stored entry to the kernel exactly
/// once, and adds nothing else.
pub proof fn lemma_replay_each_entry_once(cfg: Config)
    requires
        cfg.wf(),
    ensures
        ({
            let es = replay_effects(cfg.paths@);
            &&& forall|i: int|
                0 <= i < es.len() ==> match #[trigger] es[i] {
                    Effect::Kernel(KernelOp::UmountAdd(p, f)) => cfg@.contains_key(p) && cfg@[p] == f,
                    _ => false,
                }
            &&& forall|p: Seq<char>|
                #[trigger] cfg@.contains_key(p) ==> exists|i: int|
                    0 <= i < es.len() && es[i] == Effect::Kernel(KernelOp::UmountAdd(p, cfg@[p]))
            &&& forall|i: int, j: int|
                0 <= i < es.len() && 0 <= j < es.len() && #[trigger] es[i] == #[trigger] es[j]
                    ==> i == j
        }),
{
    let es = replay_effects(cfg.paths@);
    assert forall|i: int| 0 <= i < es.len() implies match #[trigger] es[i] {
        Effect::Kernel(KernelOp::UmountAdd(p, f)) => cfg@.contains_key(p) && cfg@[p] == f,
        _ => false,
    } by {
        cfg.lemma_entry(i);
    }
    assert forall|p: Seq<char>| #[trigger] cfg@.contains_key(p) implies exists|i: int|
        0 <= i < es.len() && es[i] == Effect::Kernel(KernelOp::UmountAdd(p, cfg@[p])) by {
        let i = choose|i: int| cfg.holds_at(p, i);
        cfg.lemma_entry(i);
        assert(es[i] == Effect::Kernel(KernelOp::UmountAdd(p, cfg@[p])));
    }
    assert forall|i: int, j: int|
        0 <= i < es.len() && 0 <= j < es.len() && es[i] == es[j] implies i == j by {
        if i < j {
            assert(cfg.paths@[i].0@ != cfg.paths@[j].0@);
        } else if j < i {
            assert(cfg.paths@[j].0@ != cfg.paths@[i].0@);
        }
    }
}

proof fn lemma_replay_prefix(w: World, cfg: Config, n: int)
    requires
        cfg.wf(),
        0 <= n <= cfg.paths@.len(),
        w.umount_kernel == Map::<Seq<char>, u32>::empty(),
    ensures
        ({
            let v = run(w, replay_effects(cfg.paths@.subrange(0, n)));
            &&& v == World { umount_kernel: v.umount_kernel, ..w }
            &&& forall|p: Seq<char>|
                #[trigger] v.umount_kernel.contains_key(p) <==> exists|i: int|
                    0 <= i < n && cfg.holds_at(p, i)
            &&& forall|i: int|
                0 <= i < n ==> v.umount_kernel[(#[trigger] cfg.paths@[i]).0@] == cfg.paths@[i].1
        }),
    decreases n,
{
    let s = cfg.paths@;
    if n == 0 {
        assert(replay_effects(s.subrange(0, 0)) =~= Seq::<Effect>::empty());
    } else {
        lemma_replay_prefix(w, cfg, n - 1);
        let a = replay_effects(s.subrange(0, n - 1));
        let e = Effect::Kernel(KernelOp::UmountAdd(s[n - 1].0@, s[n - 1].1));
        assert(replay_effects(s.subrange(0, n)) =~= a + seq![e]);
        lemma_run_append(w, a, seq![e]);
        let u = run(w, a);
        lemma_run_one(u, e);
        let v = run(w, replay_effects(s.subrange(0, n)));
        assert(v.umount_kernel == u.umount_kernel.insert(s[n - 1].0@, s[n - 1].1));
        assert forall|p: Seq<char>| #[trigger] v.umount_kernel.contains_key(p) <==> exists|i: int|
            0 <= i < n && cfg.holds_at(p, i) by {
            if p == s[n - 1].0@ {
                assert(cfg.holds_at(p, n - 1));
            }
            if exists|i: int| 0 <= i < n && cfg.holds_at(p, i) {
                let i = choose|i: int| 0 <= i < n && cfg.holds_at(p, i);
                if i < n - 1 {
                    assert(u.umount_kernel.contains_key(p));
                }
            }
        }
        assert forall|i: int| 0 <= i < n implies v.umount_kernel[(#[trigger] s[i]).0@]
            == s[i].1 by {
            if i < n - 1 {
                assert(s[i].0@ != s[n - 1].0@);
            }
        }
    }
}

/// Replaying a configuration into a kernel whose list was reset leaves the
/// kernel's list equal to the stored mapping, and touches nothing else.
pub proof fn lemma_replay_mirrors(w: World, cfg: Config)
    requires
        cfg.wf(),
        w.umount_kernel == Map::<Seq<char>, u32>::empty(),
    ensures
        run(w, replay_effects(cfg.paths@)) == (World { umount_kernel: cfg@, ..w }),
{
    let n = cfg.paths@.len() as int;
    lemma_replay_prefix(w, cfg, n);
    assert(cfg.paths@.subrange(0, n) =~= cfg.paths@);
    let v = run(w, replay_effects(cfg.paths@));
    assert forall|p: Seq<char>| #[trigger] v.umount_kernel.contains_key(p) <==> cfg@.contains_key(
        p,
    ) by {}
    assert forall|p: Seq<char>| #[trigger] v.umount_kernel.contains_key(p) implies v.umount_kernel[p]
        == cfg@[p] by {
        let i = choose|i: int| 0 <= i < n && cfg.holds_at(p, i);
        cfg.lemma_entry(i);
    }
    assert(v.umount_kernel =~= cfg@);
}

/// Adding, deleting and wiping keep a kernel list that mirrors the file in
/// step with it.
pub proof fn lemma_mutations_keep_mirror(w: World, m: Map<Seq<char>, u32>, p: Seq<char>, f: u32)
    requires
        w.umount_file == Some(m),
        w.umount_kernel == m,
    ensures
        run(w, add_effects(m, p, f)).umount_file == Some(run(w, add_effects(m, p, f)).umount_kernel),
        run(w, del_effects(m, p)).umount_file == Some(run(w, del_effects(m, p)).umount_kernel),
        run(w, wipe_effects()).umount_file == Some(run(w, wipe_effects()).umount_kernel),
{
    let a = add_effects(m, p, f);
    lemma_run_two(w, a[0], a[1]);
    assert(a == seq![a[0], a[1]]);
    let d = del_effects(m, p);
    lemma_run_two(w, d[0], d[1]);
    assert(d == seq![d[0], d[1]]);
    lemma_wipe_clears(w);
}

/// Ensuring the file stores an empty mapping where none could be read, and
/// leaves everything untouched where one was read.
pub proof fn lemma_ensure_initialized(w: World, loaded: Option<Map<Seq<char>, u32>>)
    requires
        w.umount_file == loaded,
    ensures
        loaded is None ==> run(w, ensure_effects(loaded)).umount_file == Some(
            Map::<Seq<char>, u32>::empty(),
        ),
        loaded is Some ==> run(w, ensure_effects(loaded)) == w,
{
    match loaded {
        None => {
            lemma_run_one(w, Effect::StoreUmount(Map::empty()));
        },
        Some(_) => {},
    }
}

} // verus!


