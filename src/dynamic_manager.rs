//! The registration of the manager application: the size and hash of its
//! package, kept on disk and handed to the kernel at boot.
use vstd::prelude::*;

use crate::hash_codec::{
    decode_hash, encode_hash, encode_hash_text, lemma_hash_round_trip, parse_hash, HASH_LEN,
};
use crate::plan::{effects, lemma_run_two, run, Effect, KernelCall, KernelOp, Step, World};

verus! {

/// The stored manager registration; `hash` holds the hash in textual form.
#[derive(Debug)]
pub struct Config {
    pub size: u32,
    pub hash: String,
}

impl Config {
    /// The hash that the record holds, where its text is the form of one.
    pub fn hash_bytes(&self) -> (r: Result<[u8; 64], String>)
        ensures
            r is Ok <==> decode_hash(self.hash@) is Some,
            r matches Ok(h) ==> decode_hash(self.hash@) == Some(h@),
            r matches Err(e) ==> e@ == "Incorrect hash"@,
    {
        parse_hash(self.hash.as_str())
    }

    /// Stores `hash` in the record, in textual form.
    pub fn set_hash_from_bytes(&mut self, hash: [u8; 64])
        ensures
            final(self).size == old(self).size,
            final(self).hash@ == encode_hash(hash@),
    {
        self.hash = encode_hash_text(&hash);
    }
}

/// The error of a registration that cannot be made.
#[derive(Debug)]
pub enum ManagerError {
    /// The hash is not `HASH_LEN` bytes long; holds the length given.
    HashLength(usize),
}

/// What is handed to the kernel at boot for the registration read from disk:
/// nothing where there is none, or where its hash text does not decode.
pub open spec fn booted_effects(stored: Option<(u32, Seq<char>)>) -> Seq<Effect> {
    match stored {
        None => Seq::empty(),
        Some((size, text)) => match decode_hash(text) {
            Some(h) => seq![Effect::Kernel(KernelOp::ManagerSet(size, h))],
            None => Seq::empty(),
        },
    }
}

/// Registering a manager: the file first, then the kernel.
pub open spec fn set_effects(size: u32, hash: Seq<u8>) -> Seq<Effect> {
    seq![
        Effect::StoreManager(size, encode_hash(hash)),
        Effect::Kernel(KernelOp::ManagerSet(size, hash)),
    ]
}

/// The registration a stored record holds.
pub open spec fn stored_view(stored: Option<Config>) -> Option<(u32, Seq<char>)> {
    match stored {
        Some(c) => Some((c.size, c.hash@)),
        None => None,
    }
}

/// The steps that hand the stored registration to the kernel at boot;
/// `stored` is the record read from disk, `None` where there is no file.
pub fn booted_load(stored: &Option<Config>) -> (r: Vec<Step>)
    ensures
        effects(r@) == booted_effects(stored_view(*stored)),
{
    let r: Vec<Step> = match stored {
        None => Vec::new(),
        Some(c) => match c.hash_bytes() {
            Ok(hash) => vec![Step::Kernel(KernelCall::ManagerSet { size: c.size, hash })],
            Err(_) => Vec::new(),
        },
    };
    assert(effects(r@) =~= booted_effects(stored_view(*stored)));
    r
}

/// The steps that register the manager whose package has `size` bytes and the
/// given hash; a hash of any length but `HASH_LEN` is refused before anything
/// is written.
pub fn set(size: u32, hash: &[u8]) -> (r: Result<Vec<Step>, ManagerError>)
    ensures
        r is Err <==> hash@.len() != HASH_LEN,
        r matches Err(ManagerError::HashLength(n)) ==> n == hash@.len(),
        r matches Ok(steps) ==> effects(steps@) == set_effects(size, hash@),
{
    if hash.len() != HASH_LEN {
        return Err(ManagerError::HashLength(hash.len()));
    }
    let mut bytes = [0u8; 64];
    let mut i: usize = 0;
    while i < HASH_LEN
        invariant
            hash@.len() == HASH_LEN,
            bytes@.len() == HASH_LEN,
            i <= HASH_LEN,
            forall|j: int| 0 <= j < i ==> bytes@[j] == hash@[j],
        decreases HASH_LEN - i,
    {
        bytes[i] = hash[i];
        i += 1;
    }
    assert(bytes@ =~= hash@);
    let mut record = Config { size, hash: String::new() };
    record.set_hash_from_bytes(bytes);
    let r = vec![Step::StoreManager(record), Step::Kernel(KernelCall::ManagerSet { size, hash: bytes })];
    assert(effects(r@) =~= set_effects(size, hash@));
    Ok(r)
}

/// A registration that was made is on disk and in the kernel, and loading it
/// at the next boot hands the kernel the same size and hash.
pub proof fn lemma_set_then_boot(w: World, size: u32, hash: Seq<u8>)
    requires
        hash.len() == HASH_LEN,
    ensures
        run(w, set_effects(size, hash)).manager_file == Some((size, encode_hash(hash))),
        run(w, set_effects(size, hash)).manager_kernel == Some((size, hash)),
        booted_effects(run(w, set_effects(size, hash)).manager_file) == seq![
            Effect::Kernel(KernelOp::ManagerSet(size, hash)),
        ],
{
    let a = set_effects(size, hash);
    lemma_run_two(w, a[0], a[1]);
    assert(a == seq![a[0], a[1]]);
    lemma_hash_round_trip(hash);
}

} // verus!


