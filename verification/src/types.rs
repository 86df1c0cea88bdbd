//! Core data model: frontend and client identities, backend link addresses,
//! and the per-frontend backend pool with its rotation cursor.

use vstd::prelude::*;

verus! {

/// Fixed capacity of one frontend's backend pool.
pub const BACKENDS_ARRAY_CAPACITY: usize = 64;

/// Maximum number of distinct frontends the frontend table may hold.
pub const FRONTEND_TABLE_CAPACITY: usize = 128;

/// Default capacity of the connection-affinity table.
pub const CONNECTIONS_CAPACITY: usize = 8198;

/// A 6-byte link-layer (hardware) address of one backend host.
pub type Backend = [u8; 6];

/// Identity of an inbound flow's origin: source IPv4 address and TCP source
/// port, both in host byte order. The port is numerically a 16-bit value but
/// is stored widened for map-key alignment.
#[derive(Copy, Clone, Debug, PartialEq, Eq, Structural)]
pub struct ClientKey {
    pub ip: u32,
    pub port: u32,
}

/// Identity a client targets: the virtual destination IPv4 address and TCP
/// port, both in host byte order. The port is stored widened for map-key
/// alignment.
#[derive(Copy, Clone, Debug, PartialEq, Eq, Structural)]
pub struct Frontend {
    pub ip: u32,
    pub port: u32,
}

/// The backend pool attached to one frontend: a fixed-capacity ordered array
/// of link addresses, a count of how many leading entries are valid, and the
/// rotation cursor naming the next slot to hand out.
#[derive(Copy, Clone, Debug)]
pub struct BackendList {
    pub backends: [Backend; BACKENDS_ARRAY_CAPACITY],
    /// Number of leading entries of `backends` that are meaningful.
    pub backends_len: u16,
    /// Rotation cursor; may drift past `backends_len` and is re-normalized
    /// modulo the live range at every read.
    pub backend_idx: u16,
}

impl BackendList {
    /// A pool is well formed when its live count fits the fixed array.
    pub open spec fn wf(self) -> bool {
        self.backends_len as int <= BACKENDS_ARRAY_CAPACITY as int
    }

    /// The ordered sequence of live backends.
    pub open spec fn pool(self) -> Seq<Backend> {
        self.backends@.take(self.backends_len as int)
    }

    /// The rotation cursor clamped into the live range: a cursor that has
    /// drifted to or past `backends_len` restarts at slot zero.
    pub open spec fn norm_idx(self) -> int {
        if self.backend_idx < self.backends_len {
            self.backend_idx as int
        } else {
            0
        }
    }

    /// The backend the rotation policy picks next (meaningful only when the
    /// pool is non-empty).
    pub open spec fn selected(self) -> Backend {
        self.backends@[self.norm_idx()]
    }

    /// The pool as it is written back after one rotation step: same backends,
    /// cursor advanced one past the slot just handed out.
    pub open spec fn advanced(self) -> BackendList {
        BackendList {
            backends: self.backends,
            backends_len: self.backends_len,
            backend_idx: (self.norm_idx() + 1) as u16,
        }
    }

    /// Build a pool from an ordered list of backends with the rotation cursor
    /// at zero. Returns `None` exactly when the list exceeds the fixed pool
    /// capacity, which is a configuration error.
    pub fn from_backends(list: &Vec<Backend>) -> (r: Option<BackendList>)
        ensures
            r is Some <==> list@.len() <= BACKENDS_ARRAY_CAPACITY as int,
            r matches Some(bl) ==> bl.wf() && bl.pool() == list@ && bl.backend_idx == 0,
    {
        if list.len() > BACKENDS_ARRAY_CAPACITY {
            return None;
        }
        let mut backends: [Backend; BACKENDS_ARRAY_CAPACITY] =
            [[0u8, 0u8, 0u8, 0u8, 0u8, 0u8]; BACKENDS_ARRAY_CAPACITY];
        let mut i: usize = 0;
        while i < list.len()
            invariant
                i <= list@.len() <= BACKENDS_ARRAY_CAPACITY as int,
                backends@.len() == BACKENDS_ARRAY_CAPACITY as int,
                forall|j: int| 0 <= j < i ==> backends@[j] == list@[j],
            decreases list@.len() - i,
        {
            backends[i] = list[i];
            i += 1;
        }
        let bl = BackendList { backends, backends_len: list.len() as u16, backend_idx: 0 };
        proof {
            assert(bl.pool() =~= list@);
        }
        Some(bl)
    }
}

} // verus!
