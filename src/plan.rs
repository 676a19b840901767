//! The steps that reconciling the stored configuration with the kernel takes,
//! and a model of what running them does to the file system and the kernel.
//!
//! An operation of this library decides a sequence of steps; the caller
//! performs them in order and stops at the first one that fails, so that a
//! step runs only after every step before it succeeded.
use vstd::prelude::*;

use crate::dynamic_manager::Config as ManagerConfig;
use crate::umount::Config as UmountConfig;

verus! {

/// A command to the kernel component.
#[derive(Debug)]
pub enum KernelCall {
    /// Exempt a mount point from unmounting, with the given flags; re-adding a
    /// path replaces its flags.
    UmountAdd { path: String, flags: u32 },
    /// Drop a mount point from the exemption list.
    UmountDel { path: String },
    /// Empty the exemption list.
    UmountWipe,
    /// Register the manager application by the size and hash of its package.
    ManagerSet { size: u32, hash: [u8; 64] },
}

/// What a kernel command means.
#[verifier::ext_equal]
pub enum KernelOp {
    UmountAdd(Seq<char>, u32),
    UmountDel(Seq<char>),
    UmountWipe,
    ManagerSet(u32, Seq<u8>),
}

impl View for KernelCall {
    type V = KernelOp;

    open spec fn view(&self) -> KernelOp {
        match self {
            KernelCall::UmountAdd { path, flags } => KernelOp::UmountAdd(path@, *flags),
            KernelCall::UmountDel { path } => KernelOp::UmountDel(path@),
            KernelCall::UmountWipe => KernelOp::UmountWipe,
            KernelCall::ManagerSet { size, hash } => KernelOp::ManagerSet(*size, hash@),
        }
    }
}

/// One step of an operation.
#[derive(Debug)]
pub enum Step {
    /// Send a command to the kernel component.
    Kernel(KernelCall),
    /// Overwrite the unmount configuration file with this configuration.
    StoreUmount(UmountConfig),
    /// Overwrite the manager registration file with this record.
    StoreManager(ManagerConfig),
}

/// What a step means.
#[verifier::ext_equal]
pub enum Effect {
    Kernel(KernelOp),
    StoreUmount(Map<Seq<char>, u32>),
    StoreManager(u32, Seq<char>),
}

impl View for Step {
    type V = Effect;

    open spec fn view(&self) -> Effect {
        match self {
            Step::Kernel(c) => Effect::Kernel(c@),
            Step::StoreUmount(c) => Effect::StoreUmount(c@),
            Step::StoreManager(c) => Effect::StoreManager(c.size, c.hash@),
        }
    }
}

/// The meaning of a sequence of steps.
pub open spec fn effects(steps: Seq<Step>) -> Seq<Effect> {
    steps.map_values(|s: Step| s@)
}

/// The state that the steps act on: the two files and the kernel's records.
#[verifier::ext_equal]
pub struct World {
    /// The unmount configuration on disk; `None` where the file is missing or
    /// does not hold a well-formed configuration.
    pub umount_file: Option<Map<Seq<char>, u32>>,
    /// The kernel's unmount exemption list.
    pub umount_kernel: Map<Seq<char>, u32>,
    /// The manager registration on disk: size and hash text.
    pub manager_file: Option<(u32, Seq<char>)>,
    /// The manager registration the kernel holds: size and hash.
    pub manager_kernel: Option<(u32, Seq<u8>)>,
}

/// What a successful kernel command does to the world.
pub open spec fn apply_kernel(w: World, op: KernelOp) -> World {
    match op {
        KernelOp::UmountAdd(p, f) => World { umount_kernel: w.umount_kernel.insert(p, f), ..w },
        KernelOp::UmountDel(p) => World { umount_kernel: w.umount_kernel.remove(p), ..w },
        KernelOp::UmountWipe => World { umount_kernel: Map::empty(), ..w },
        KernelOp::ManagerSet(size, hash) => World { manager_kernel: Some((size, hash)), ..w },
    }
}

/// What a successful step does to the world.
pub open spec fn apply(w: World, e: Effect) -> World {
    match e {
        Effect::Kernel(op) => apply_kernel(w, op),
        Effect::StoreUmount(m) => World { umount_file: Some(m), ..w },
        Effect::StoreManager(size, text) => World { manager_file: Some((size, text)), ..w },
    }
}

/// What running a sequence of steps, all of which succeed, does to the world.
pub open spec fn run(w: World, es: Seq<Effect>) -> World
    decreases es.len(),
{
    if es.len() == 0 {
        w
    } else {
        run(apply(w, es[0]), es.drop_first())
    }
}

/// Running one step.
pub proof fn lemma_run_one(w: World, a: Effect)
    ensures
        run(w, seq![a]) == apply(w, a),
{
    assert(seq![a].drop_first() =~= Seq::<Effect>::empty());
    reveal_with_fuel(run, 2);
}

/// Running two steps.
pub proof fn lemma_run_two(w: World, a: Effect, b: Effect)
    ensures
        run(w, seq![a, b]) == apply(apply(w, a), b),
{
    assert(seq![a, b].drop_first() =~= seq![b]);
    lemma_run_one(apply(w, a), b);
}

/// Running two sequences one after the other.
pub proof fn lemma_run_append(w: World, a: Seq<Effect>, b: Seq<Effect>)
    ensures
        run(w, a + b) == run(run(w, a), b),
    decreases a.len(),
{
    if a.len() == 0 {
        assert(a + b =~= b);
    } else {
        assert((a + b)[0] == a[0]);
        assert((a + b).drop_first() =~= a.drop_first() + b);
        lemma_run_append(apply(w, a[0]), a.drop_first(), b);
    }
}

} // verus!

