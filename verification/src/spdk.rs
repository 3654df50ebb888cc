//! Construction of the storage-engine environment configured for a
//! user-space block device.

use vstd::prelude::*;

use std::sync::Arc;

verus! {

/// The environment a storage engine runs in: the filesystem name, the
/// configuration file, the block device, and the cache budget in
/// megabytes.
#[derive(Debug)]
pub struct Env {
    pub fsname: Vec<u8>,
    pub confname: Vec<u8>,
    pub bdevname: Vec<u8>,
    pub cache_size_in_mb: u64,
}

impl Env {
    /// An environment over a user-space block device.
    pub fn new_spdk(fsname: &[u8], confname: &[u8], bdevname: &[u8], cache_size_in_mb: u64) -> (r:
        Env)
        ensures
            r.fsname@ == fsname@,
            r.confname@ == confname@,
            r.bdevname@ == bdevname@,
            r.cache_size_in_mb == cache_size_in_mb,
    {
        Env {
            fsname: copy_slice(fsname),
            confname: copy_slice(confname),
            bdevname: copy_slice(bdevname),
            cache_size_in_mb,
        }
    }
}

/// Copies a byte slice into an owned vector.
fn copy_slice(b: &[u8]) -> (r: Vec<u8>)
    ensures
        r@ =~= b@,
{
    let mut v: Vec<u8> = Vec::new();
    let mut i: usize = 0;
    while i < b.len()
        invariant
            i <= b@.len(),
            v@ =~= b@.take(i as int),
        decreases b@.len() - i,
    {
        v.push(b[i]);
        proof {
            assert(b@.take(i + 1 as int) =~= b@.take(i as int).push(b@[i as int]));
        }
        i = i + 1;
    }
    proof {
        assert(b@.take(b@.len() as int) =~= b@);
    }
    v
}

/// A shared handle on the block-device environment.
pub fn get_env(fsname: &[u8], confname: &[u8], bdevname: &[u8], cache_size_in_mb: u64) -> (r: Arc<
    Env,
>)
    ensures
        (*r).fsname@ == fsname@,
        (*r).confname@ == confname@,
        (*r).bdevname@ == bdevname@,
        (*r).cache_size_in_mb == cache_size_in_mb,
{
    Arc::new(Env::new_spdk(fsname, confname, bdevname, cache_size_in_mb))
}

} // verus!
