//! The engine handle: the variable set and the encodings of prefixes and
//! device ids over it.
//!
//! The header space has `ip_bits_len` Boolean variables. The first sixteen
//! hold the id of the device a packet came from; the trailing ones hold the
//! destination address, whose most significant bit sits on the last variable,
//! so that a longer prefix of the same address is a subset of a shorter one.
use crate::kernel::{
    all_valuations, bdd_reduced, bdd_sat, bdd_width, clause_space, conjunctive_clause, is_space, variable_count,
};
use crate::util::bdd_table::{table_id, table_insert, valid_id, BDDTable};
use crate::util::ip_text::{addr_bit, address_bit, ip_octets, parse_ip};
use crate::util::layer_cache::LayerCache;
use biodivine_lib_bdd::{Bdd, BddVariableSet};
use vstd::prelude::*;

verus! {

/// Why an engine operation could not be carried out.
#[derive(Debug, Clone, Copy, PartialEq, Eq, Structural)]
pub enum EngineError {
    /// An id that the canonical table never handed out.
    UnknownId,
    /// The canonical table holds as many diagrams as an id can number.
    TableFull,
    /// An address that cannot be read, or a prefix longer than the address
    /// or than the variables left for it.
    BadPrefix,
    /// A device whose ports fall into more groups than can be numbered.
    SpaceIdsExhausted,
    /// No subnet has been declared, so there is no space to compile against.
    NoPacketSpace,
    /// A device that is named but not among the devices at hand.
    UnknownDevice,
    /// A diagram over another number of variables than the engine's.
    ForeignDiagram,
}

/// The number of variables that hold the source device id.
pub const DEVICE_ID_BITS: usize = 16;

/// The headers whose destination address begins with the first `len` bits of
/// `octets`: address bit `i` sits on variable `n - 1 - i`.
pub open spec fn prefix_space(n: nat, octets: Seq<u8>, len: nat) -> Set<Seq<bool>> {
    Set::new(
        |v: Seq<bool>|
            v.len() == n && forall|i: int| 0 <= i < len ==> #[trigger] v[n - 1 - i] == addr_bit(octets, i),
    )
}

/// Whether `ip/len` can be encoded over `n` variables: a prefix of length
/// zero always can; any other needs a readable address with at least `len`
/// bits, and `len` variables outside the device-id range.
pub open spec fn prefix_ok(n: nat, ip: Seq<char>, len: nat) -> bool {
    len == 0 || (ip_octets(ip).is_some() && len <= 8 * ip_octets(ip).unwrap().len() && len
        + DEVICE_ID_BITS <= n)
}

/// The headers that the prefix `ip/len` matches.
pub open spec fn prefix_text_space(n: nat, ip: Seq<char>, len: nat) -> Set<Seq<bool>> {
    if len == 0 {
        all_valuations(n)
    } else {
        prefix_space(n, ip_octets(ip).unwrap(), len)
    }
}

/// Bit `k` of a device id, bit 0 being the least significant.
pub open spec fn id_bit(id: usize, k: int) -> bool {
    id & (1usize << (k as usize)) != 0
}

/// The headers that carry the low sixteen bits of `id` in the device-id
/// range, most significant bit on the first variable.
pub open spec fn src_device_space(n: nat, id: usize) -> Set<Seq<bool>> {
    Set::new(
        |v: Seq<bool>|
            v.len() == n && forall|j: int|
                0 <= j < DEVICE_ID_BITS ==> #[trigger] v[j] == id_bit(id, DEVICE_ID_BITS - 1 - j),
    )
}

/// The variable set of one verification run.
pub struct Engine {
    ip_bits_len: usize,
    variable_set: BddVariableSet,
}

impl Engine {
    /// The number of header variables.
    pub closed spec fn width(&self) -> nat {
        self.ip_bits_len as nat
    }

    /// The variable set has `width` variables, enough for the device id and
    /// no more than the kernel can number.
    pub closed spec fn wf(&self) -> bool {
        &&& variable_count(self.variable_set) == self.ip_bits_len
        &&& DEVICE_ID_BITS <= self.ip_bits_len < 65534
    }

    /// An engine over `ip_bits_len` variables, or `None` when that is fewer
    /// than the device id needs or more than the kernel can number.
    pub fn init(ip_bits_len: usize) -> (r: Option<Engine>)
        ensures
            r.is_some() == (DEVICE_ID_BITS <= ip_bits_len < 65534),
            r matches Some(e) ==> e.wf() && e.width() == ip_bits_len,
    {
        if ip_bits_len < DEVICE_ID_BITS || ip_bits_len >= 65534 {
            return None;
        }
        let variable_set = BddVariableSet::new_anonymous(ip_bits_len as u16);
        Some(Engine { ip_bits_len, variable_set })
    }

    pub fn ip_bits_len(&self) -> (r: usize)
        ensures
            r == self.width(),
    {
        self.ip_bits_len
    }

    /// Whether `b` is a diagram over this engine's variables.
    pub fn owns(&self, b: &Bdd) -> (r: bool)
        requires
            self.wf(),
        ensures
            r == (bdd_width(*b) == self.width()),
            r ==> is_space(*b, self.width()),
    {
        b.num_vars() as usize == self.ip_bits_len
    }

    /// The empty header set.
    pub fn make_none_space_bdd(&self) -> (r: Bdd)
        requires
            self.wf(),
        ensures
            is_space(r, self.width()),
            bdd_reduced(r),
            bdd_sat(r) == Set::<Seq<bool>>::empty(),
    {
        self.variable_set.mk_false()
    }

    /// The set of all headers.
    pub fn make_all_space_bdd(&self) -> (r: Bdd)
        requires
            self.wf(),
        ensures
            is_space(r, self.width()),
            bdd_reduced(r),
            bdd_sat(r) == all_valuations(self.width()),
    {
        self.variable_set.mk_true()
    }

    /// The headers whose destination address lies in `ip_address/prefix_length`.
    pub fn encode_dst_ip_prefix_clause(&self, ip_address: &str, prefix_length: usize) -> (r: Result<
        Bdd,
        EngineError,
    >)
        requires
            self.wf(),
        ensures
            r.is_ok() == prefix_ok(self.width(), ip_address@, prefix_length as nat),
            r matches Ok(b) ==> is_space(b, self.width()) && bdd_reduced(b) && bdd_sat(b)
                == prefix_text_space(
                self.width(),
                ip_address@,
                prefix_length as nat,
            ),
            r matches Err(e) ==> e == EngineError::BadPrefix,
    {
        if prefix_length == 0 {
            return Ok(self.variable_set.mk_true());
        }
        let octets = match parse_ip(ip_address) {
            Some(o) => o,
            None => {
                return Err(EngineError::BadPrefix);
            },
        };
        proof {
            lemma_octet_count(ip_address@);
        }
        if prefix_length > 8 * octets.len() || prefix_length > self.ip_bits_len - DEVICE_ID_BITS {
            return Err(EngineError::BadPrefix);
        }
        let n = self.ip_bits_len;
        let mut literals: Vec<(u16, bool)> = Vec::new();
        let mut i: usize = 0;
        while i < prefix_length
            invariant
                i <= prefix_length <= 8 * octets.len(),
                prefix_length <= n < 65534,
                literals.len() == i,
                forall|j: int|
                    0 <= j < i ==> #[trigger] literals[j] == ((n - 1 - j) as u16, addr_bit(octets@, j)),
            decreases prefix_length - i,
        {
            literals.push(((n - 1 - i) as u16, address_bit(&octets, i)));
            i += 1;
        }
        let b = conjunctive_clause(&self.variable_set, &literals);
        proof {
            let want = prefix_space(n as nat, octets@, prefix_length as nat);
            assert forall|v: Seq<bool>| clause_space(n as nat, literals@).contains(v) implies want.contains(
                v,
            ) by {
                assert forall|k: int| 0 <= k < prefix_length implies #[trigger] v[n - 1 - k]
                    == addr_bit(octets@, k) by {
                    assert(literals[k].0 as int == n - 1 - k);
                }
            }
            assert forall|v: Seq<bool>| want.contains(v) implies clause_space(
                n as nat,
                literals@,
            ).contains(v) by {
                assert forall|k: int| 0 <= k < literals.len() implies v[(#[trigger] literals[k]).0 as int]
                    == literals[k].1 by {
                    assert(v[n - 1 - k] == addr_bit(octets@, k));
                }
            }
            assert(bdd_sat(b) =~= want);
        }
        Ok(b)
    }

    /// The headers that come from the device numbered `src_device_id`. Only
    /// the low sixteen bits of the id are encoded.
    pub fn encode_src_device_constraint(&self, src_device_id: usize) -> (r: Bdd)
        requires
            self.wf(),
        ensures
            is_space(r, self.width()),
            bdd_reduced(r),
            bdd_sat(r) == src_device_space(self.width(), src_device_id),
    {
        let mut literals: Vec<(u16, bool)> = Vec::new();
        let mut j: usize = 0;
        while j < DEVICE_ID_BITS
            invariant
                j <= DEVICE_ID_BITS,
                literals.len() == j,
                forall|k: int|
                    0 <= k < j ==> #[trigger] literals[k] == (
                        k as u16,
                        id_bit(src_device_id, DEVICE_ID_BITS - 1 - k),
                    ),
            decreases DEVICE_ID_BITS - j,
        {
            let shift: usize = DEVICE_ID_BITS - 1 - j;
            literals.push((j as u16, src_device_id & (1usize << shift) != 0));
            j += 1;
        }
        let b = conjunctive_clause(&self.variable_set, &literals);
        proof {
            let n = self.width();
            let want = src_device_space(n, src_device_id);
            assert forall|v: Seq<bool>| clause_space(n, literals@).contains(v) implies want.contains(
                v,
            ) by {
                assert forall|k: int| 0 <= k < DEVICE_ID_BITS implies #[trigger] v[k] == id_bit(
                    src_device_id,
                    DEVICE_ID_BITS - 1 - k,
                ) by {
                    assert(literals[k].0 as int == k);
                }
            }
            assert forall|v: Seq<bool>| want.contains(v) implies clause_space(n, literals@).contains(
                v,
            ) by {
                assert forall|k: int| 0 <= k < literals.len() implies v[(#[trigger] literals[k]).0 as int]
                    == literals[k].1 by {
                    assert(v[k] == id_bit(src_device_id, DEVICE_ID_BITS - 1 - k));
                }
            }
            assert(bdd_sat(b) =~= want);
        }
        b
    }
}

/// One run's engine: the variable set, the canonical table and the caches.
pub struct NPBDD {
    pub engine: Engine,
    pub table: BDDTable,
    pub cache: LayerCache,
}

impl NPBDD {
    /// The number of header variables.
    pub open spec fn width(&self) -> nat {
        self.engine.width()
    }

    /// The table holds diagrams over the engine's variables and the caches
    /// are sound for the table.
    pub open spec fn wf(&self) -> bool {
        &&& self.engine.wf()
        &&& self.table.wf()
        &&& self.table.width() == self.engine.width()
        &&& self.cache.wf(self.table@, self.engine.width())
    }

    /// What every operation on the engine keeps: it stays well formed over
    /// the same variables and its table only grows.
    pub open spec fn extends(&self, before: &NPBDD) -> bool {
        &&& self.wf()
        &&& self.width() == before.width()
        &&& before.table@.is_prefix_of(self.table@)
    }

    /// An engine over `ip_bits_len` variables with an empty table and empty
    /// caches, or `None` when the engine cannot have that many variables.
    pub fn init(ip_bits_len: usize) -> (r: Option<NPBDD>)
        ensures
            r.is_some() == (DEVICE_ID_BITS <= ip_bits_len < 65534),
            r matches Some(b) ==> b.wf() && b.width() == ip_bits_len && b.table@
                == Seq::<Bdd>::empty(),
    {
        match Engine::init(ip_bits_len) {
            Some(engine) => Some(
                NPBDD { engine, table: BDDTable::init(ip_bits_len), cache: LayerCache::init() },
            ),
            None => None,
        }
    }

    /// The id of `bdd` in the canonical table, which takes it up if it does
    /// not hold it yet.
    pub fn intern(&mut self, bdd: Bdd) -> (r: Result<u32, EngineError>)
        requires
            old(self).wf(),
            is_space(bdd, old(self).width()),
            bdd_reduced(bdd),
        ensures
            final(self).extends(old(self)),
            final(self).table@ == table_insert(old(self).table@, bdd),
            match r {
                Ok(id) => table_id(final(self).table@, bdd) == Some(id) && valid_id(
                    final(self).table@,
                    id,
                ) && final(self).table@[id - 1] == bdd,
                Err(e) => e == EngineError::TableFull && final(self).table@ == old(self).table@
                    && old(self).table@.len() == u32::MAX,
            },
    {
        let ghost t0 = self.table@;
        let r = self.table.insert_bdd(bdd);
        proof {
            self.cache.lemma_wf_grows(t0, self.table@, self.engine.width());
        }
        r
    }

    /// The empty header set.
    pub fn make_none_space_bdd(&self) -> (r: Bdd)
        requires
            self.engine.wf(),
        ensures
            is_space(r, self.width()),
            bdd_reduced(r),
            bdd_sat(r) == Set::<Seq<bool>>::empty(),
    {
        self.engine.make_none_space_bdd()
    }

    /// The set of all headers.
    pub fn make_all_space_bdd(&self) -> (r: Bdd)
        requires
            self.engine.wf(),
        ensures
            is_space(r, self.width()),
            bdd_reduced(r),
            bdd_sat(r) == all_valuations(self.width()),
    {
        self.engine.make_all_space_bdd()
    }

    /// The headers whose destination address lies in `ip_address/prefix_length`.
    pub fn make_prefix_bdd(&self, ip_address: &str, prefix_length: usize) -> (r: Result<
        Bdd,
        EngineError,
    >)
        requires
            self.engine.wf(),
        ensures
            r.is_ok() == prefix_ok(self.width(), ip_address@, prefix_length as nat),
            r matches Ok(b) ==> is_space(b, self.width()) && bdd_reduced(b) && bdd_sat(b)
                == prefix_text_space(
                self.width(),
                ip_address@,
                prefix_length as nat,
            ),
            r matches Err(e) ==> e == EngineError::BadPrefix,
    {
        self.engine.encode_dst_ip_prefix_clause(ip_address, prefix_length)
    }

    /// The headers that come from the device numbered `src_device_id`.
    pub fn make_src_device_bdd(&self, src_device_id: usize) -> (r: Bdd)
        requires
            self.engine.wf(),
        ensures
            is_space(r, self.width()),
            bdd_reduced(r),
            bdd_sat(r) == src_device_space(self.width(), src_device_id),
    {
        self.engine.encode_src_device_constraint(src_device_id)
    }
}

/// A readable address has four or sixteen octets.
pub proof fn lemma_octet_count(ip: Seq<char>)
    ensures
        ip_octets(ip) matches Some(o) ==> o.len() == 4 || o.len() == 16,
{
}

} // verus!
