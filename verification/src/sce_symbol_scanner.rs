//! SCE SDK symbol matching support: relocation kinds and the masks that hide
//! their link-time fields, the static-bit entropy measure of a symbol, and
//! the masked-body SHA-1 comparison that confirms a candidate.

use vstd::prelude::*;
use sha1::Digest;
use vstd::string::StringSliceAdditionalSpecFns;
use crate::text::{dec_nat, hex_fixed, owned, push_char, push_dec_u64, push_hex_fixed, push_str};

verus! {

/// A MIPS relocation kind recognized by the matcher.
#[derive(Clone, Copy, PartialEq, Eq, Debug, Structural)]
pub enum RelocationType {
    NoRelocation,
    Mips26,
    MipsLo16,
    MipsHi16,
    Mips32,
    MipsGpRel16,
    MipsLiteral,
}

/// A relocation recorded against a symbol's body.
#[derive(Clone, Copy, Debug)]
pub struct RelocationRecord {
    pub offset: u32,
    pub r_type: RelocationType,
}

/// A database symbol: its identity, the SHA-1 of its masked body, its size
/// and its relocations.
#[derive(Clone, Debug)]
pub struct SymbolRecord {
    pub library: String,
    pub name: String,
    pub hash_text: String,
    pub hash: [u8; 20],
    pub variant_hash: u32,
    pub size: u32,
    pub is_function: bool,
    pub relocations: Vec<RelocationRecord>,
}

/// A confirmed SDK function.
#[derive(Clone, Debug)]
pub struct SceSymbolMatch {
    pub address: u32,
    pub size: u32,
    pub name: String,
    pub library: String,
    pub hash: String,
    pub variant_hash: u32,
}

/// A code section the matcher reads (little-endian words).
pub struct CodeSection<'a> {
    pub address: u32,
    pub data: &'a [u8],
}

/// The bits of a word that stay fixed at link time for a relocation kind.
pub open spec fn spec_relocation_mask(t: RelocationType) -> u32 {
    match t {
        RelocationType::NoRelocation => 0xFFFF_FFFF,
        RelocationType::Mips26 => 0xFC00_0000,
        RelocationType::MipsLo16 | RelocationType::MipsHi16 | RelocationType::MipsGpRel16 | RelocationType::MipsLiteral => 0xFFFF_0000,
        RelocationType::Mips32 => 0,
    }
}

/// The mask applied in the trie comparison: only static bits take part.
pub fn relocation_mask(r_type: RelocationType) -> (m: u32)
    ensures
        m == spec_relocation_mask(r_type),
{
    match r_type {
        RelocationType::NoRelocation => 0xFFFF_FFFF,
        RelocationType::Mips26 => 0xFC00_0000,
        RelocationType::MipsLo16 | RelocationType::MipsHi16 | RelocationType::MipsGpRel16 | RelocationType::MipsLiteral => 0xFFFF_0000,
        RelocationType::Mips32 => 0,
    }
}

/// The value written into a body copy before hashing: the word with its
/// link-time-variable bits cleared.
pub fn disabled_relocation_value(r_type: RelocationType, value: u32) -> (r: u32)
    ensures
        r == value & spec_relocation_mask(r_type),
{
    let r = match r_type {
        RelocationType::NoRelocation => value,
        RelocationType::Mips26 => value & 0xFC00_0000,
        RelocationType::MipsLo16 | RelocationType::MipsHi16 | RelocationType::MipsGpRel16 | RelocationType::MipsLiteral => value & 0xFFFF_0000,
        RelocationType::Mips32 => 0,
    };
    assert(value & 0xFFFF_FFFFu32 == value) by (bit_vector);
    assert(value & 0u32 == 0) by (bit_vector);
    r
}

/// The bits a relocation of kind `t` keeps (as counted by the matcher).
pub open spec fn kept_bits(t: RelocationType) -> nat {
    match t {
        RelocationType::NoRelocation => 32,
        RelocationType::Mips26 => 6,
        RelocationType::MipsLo16 | RelocationType::MipsHi16 | RelocationType::MipsGpRel16 | RelocationType::MipsLiteral => 16,
        RelocationType::Mips32 => 0,
    }
}

/// The kept bits of the first `n` relocations.
pub open spec fn kept_total(rs: Seq<RelocationRecord>, n: int) -> nat
    decreases n,
{
    if n <= 0 { 0 } else { kept_total(rs, n - 1) + kept_bits(rs[n - 1].r_type) }
}

/// The static-bit count: body bits minus the kept bits, floored at 0.
pub open spec fn spec_static_bits(size: u32, rs: Seq<RelocationRecord>) -> nat {
    let total = size as nat * 8;
    let kept = kept_total(rs, rs.len() as int);
    if kept >= total { 0 } else { (total - kept) as nat }
}

impl SymbolRecord {
    /// Count of static bits hashed into the digest: `size * 8` minus the bits
    /// each relocation keeps (NoRelocation 32, Mips26 6, 16-bit kinds 16, Mips32 0),
    /// clamped at 0.
    pub fn static_bit_count(&self) -> (n: usize)
        requires
            self.size as nat * 8 <= usize::MAX,
        ensures
            n == spec_static_bits(self.size, self.relocations@),
    {
        let mut kept: u128 = 0;
        let mut i: usize = 0;
        while i < self.relocations.len()
            invariant
                i <= self.relocations.len(),
                kept == kept_total(self.relocations@, i as int),
                kept <= 32 * i,
            decreases self.relocations.len() - i,
        {
            kept = kept + match self.relocations[i].r_type {
                RelocationType::NoRelocation => 32,
                RelocationType::Mips26 => 6,
                RelocationType::MipsLo16 | RelocationType::MipsHi16 | RelocationType::MipsGpRel16 | RelocationType::MipsLiteral => 16,
                RelocationType::Mips32 => 0,
            };
            i = i + 1;
        }
        let total: u128 = (self.size as u128) * 8;
        if kept >= total { 0 } else { (total - kept) as usize }
    }
}

/// The little-endian word at `offset` of `data`.
pub fn read_le32(data: &[u8], offset: usize) -> (r: u32)
    requires
        offset + 4 <= data.len(),
    ensures
        r == crate::cfg::word_at(data@, offset as int, true),
{
    crate::cfg::read_word(data, offset, true)
}

/// Store `value` little-endian at `offset`.
pub fn write_le32(buf: &mut Vec<u8>, offset: usize, value: u32)
    requires
        offset + 4 <= old(buf)@.len(),
    ensures
        final(buf)@.len() == old(buf)@.len(),
        crate::cfg::word_at(final(buf)@, offset as int, true) == value,
        forall|i: int| 0 <= i < final(buf)@.len() && !(offset <= i < offset + 4) ==> final(buf)@[i] == old(buf)@[i],
        final(buf)@[offset as int] == (value & 0xFF) as u8,
        final(buf)@[offset + 1] == ((value >> 8) & 0xFF) as u8,
        final(buf)@[offset + 2] == ((value >> 16) & 0xFF) as u8,
        final(buf)@[offset + 3] == ((value >> 24) & 0xFF) as u8,
{
    let len = buf.len();
    assert(offset + 4 <= len);
    buf.set(offset, (value & 0xFF) as u8);
    buf.set(offset + 1, ((value >> 8) & 0xFF) as u8);
    buf.set(offset + 2, ((value >> 16) & 0xFF) as u8);
    buf.set(offset + 3, ((value >> 24) & 0xFF) as u8);
    let ghost b0 = buf@[offset as int];
    let ghost b1 = buf@[offset + 1];
    let ghost b2 = buf@[offset + 2];
    let ghost b3 = buf@[offset + 3];
    assert((b0 as u32) | ((b1 as u32) << 8u32) | ((b2 as u32) << 16u32) | ((b3 as u32) << 24u32) == value) by (bit_vector)
        requires
            b0 == (value & 0xFF) as u8,
            b1 == ((value >> 8) & 0xFF) as u8,
            b2 == ((value >> 16) & 0xFF) as u8,
            b3 == ((value >> 24) & 0xFF) as u8;
}


/// The 20-byte SHA-1 digest the `sha1` crate computes for `bytes`.
pub uninterp spec fn sha1_of(bytes: Seq<u8>) -> Seq<u8>;

/// `sha1::Sha1::digest`: the SHA-1 digest of `bytes`. Claimed: the digest is
/// a function of the bytes alone (named, not stated).
#[verifier::external_body]
fn sha1_digest(bytes: &[u8]) -> (d: [u8; 20])
    ensures
        d@ == sha1_of(bytes@),
{
    sha1::Sha1::digest(bytes).into()
}

/// `b` with the little-endian word `v` stored at `off`.
pub open spec fn put_le32(b: Seq<u8>, off: int, v: u32) -> Seq<u8> {
    b.update(off, (v & 0xFF) as u8).update(off + 1, ((v >> 8u32) & 0xFF) as u8)
        .update(off + 2, ((v >> 16u32) & 0xFF) as u8).update(off + 3, ((v >> 24u32) & 0xFF) as u8)
}

/// `b` with the word relocation `r` patches masked, when it lies inside.
pub open spec fn mask_reloc(b: Seq<u8>, r: RelocationRecord) -> Seq<u8> {
    let off = r.offset as int;
    if off <= b.len() && b.len() - off >= 4 {
        put_le32(b, off, crate::cfg::word_at(b, off, true) & spec_relocation_mask(r.r_type))
    } else {
        b
    }
}

/// `b` with the first `n` relocations masked, in order.
pub open spec fn masked_body(b: Seq<u8>, rs: Seq<RelocationRecord>, n: int) -> Seq<u8>
    decreases n,
{
    if n <= 0 { b } else { mask_reloc(masked_body(b, rs, n - 1), rs[n - 1]) }
}

/// Copy the candidate body at `offset`, mask each relocated word's
/// link-time bits, and compare its SHA-1 with the symbol's digest.
pub fn matches_symbol(section: &CodeSection<'_>, offset: u32, symbol: &SymbolRecord) -> (b: bool)
    requires
        offset as int + symbol.size as int <= section.data@.len(),
    ensures
        b == (sha1_of(masked_body(section.data@.subrange(offset as int, offset + symbol.size), symbol.relocations@,
            symbol.relocations@.len() as int)) == symbol.hash@),
{
    let start: usize = offset as usize;
    let sz: usize = symbol.size as usize;
    assert(start + sz <= section.data.len());
    let end: usize = start + sz;
    let mut bytes = vstd::slice::slice_to_vec(&section.data[start..end]);
    let ghost body = section.data@.subrange(offset as int, offset + symbol.size);
    assert(bytes@ =~= body);
    let mut i: usize = 0;
    while i < symbol.relocations.len()
        invariant
            i <= symbol.relocations.len(),
            bytes@ == masked_body(body, symbol.relocations@, i as int),
            bytes@.len() == body.len(),
        decreases symbol.relocations.len() - i,
    {
        let reloc = symbol.relocations[i];
        let ro: usize = reloc.offset as usize;
        let ghost before = bytes@;
        if !(ro > bytes.len() || bytes.len() - ro < 4) {
            let v = read_le32(&bytes, ro);
            write_le32(&mut bytes, ro, disabled_relocation_value(reloc.r_type, v));
            assert(bytes@ =~= put_le32(before, ro as int, v & spec_relocation_mask(reloc.r_type)));
        }
        i = i + 1;
    }
    let digest = sha1_digest(&bytes);
    let mut k: usize = 0;
    while k < 20
        invariant
            k <= 20,
            digest@ == sha1_of(bytes@),
            body == section.data@.subrange(offset as int, offset + symbol.size),
            bytes@ == masked_body(body, symbol.relocations@, symbol.relocations@.len() as int),
            forall|q: int| 0 <= q < k ==> digest@[q] == symbol.hash@[q],
        decreases 20 - k,
    {
        if digest[k] != symbol.hash[k] {
            assert(digest@[k as int] != symbol.hash@[k as int]);
            return false;
        }
        k = k + 1;
    }
    assert(digest@ =~= symbol.hash@);
    true
}

// ---------------------------------------------------------------------------
// Symbol database and trie
// ---------------------------------------------------------------------------

/// A trie leaf's reference to a symbol: (library, name, hash, variant).
#[derive(Clone, Debug)]
pub struct MatchSymbolKey {
    pub library: String,
    pub name: String,
    pub hash: String,
    pub variant: u32,
}

/// An edge of the discrimination trie: the word (under the relocation's
/// mask) that leads to node `child` of the database's node table.
#[derive(Clone, Copy, Debug)]
pub struct MatchEdge {
    pub value: u32,
    pub relocation_type: RelocationType,
    pub child: usize,
}

/// A trie node: its edges compare the word at byte `offset` from the
/// candidate start; `symbols` are the symbols reached at this node.
#[derive(Clone, Debug)]
pub struct MatchNode {
    pub offset: u32,
    pub next: Vec<MatchEdge>,
    pub symbols: Vec<MatchSymbolKey>,
}

/// A symbol's identity as plain values: (library, name, hash text, variant).
pub type SymbolKey = (Seq<char>, Seq<char>, Seq<char>, u32);

pub open spec fn record_key(r: SymbolRecord) -> SymbolKey {
    (r.library@, r.name@, r.hash_text@, r.variant_hash)
}

pub open spec fn leaf_key(k: MatchSymbolKey) -> SymbolKey {
    (k.library@, k.name@, k.hash@, k.variant)
}

/// No two records share a key.
pub open spec fn keys_distinct(syms: Seq<SymbolRecord>) -> bool {
    forall|i: int, j: int| 0 <= i < j < syms.len() ==> record_key(#[trigger] syms[i]) != record_key(#[trigger] syms[j])
}

/// Every edge leads to a later node of the table (so the trie has no cycle).
pub open spec fn tree_ordered(nodes: Seq<MatchNode>) -> bool {
    forall|n: int, e: int| 0 <= n < nodes.len() && 0 <= e < nodes[n].next@.len()
        ==> n < #[trigger] nodes[n].next@[e].child < nodes.len()
}

/// The loaded database: the symbol records (one per key) and the trie's
/// nodes, the root first (no nodes: no trie).
pub struct SceSymbolDatabase {
    symbols: Vec<SymbolRecord>,
    nodes: Vec<MatchNode>,
}

/// The records after adding `r`: it replaces the record with its key, or
/// comes last when there is none.
pub open spec fn with_record(syms: Seq<SymbolRecord>, r: SymbolRecord) -> Seq<SymbolRecord> {
    match find_key(syms, record_key(r), 0) {
        Some(i) => syms.update(i, r),
        None => syms.push(r),
    }
}

/// Index of the first record with key `k`, from `i` on.
pub open spec fn find_key(syms: Seq<SymbolRecord>, k: SymbolKey, i: int) -> Option<int>
    decreases syms.len() - i,
{
    if i < 0 || i >= syms.len() {
        None
    } else if record_key(syms[i]) == k {
        Some(i)
    } else {
        find_key(syms, k, i + 1)
    }
}

/// The records that the leaf keys name (keys naming no record are skipped).
pub open spec fn leaf_records(syms: Seq<SymbolRecord>, keys: Seq<MatchSymbolKey>) -> Seq<int>
    decreases keys.len(),
{
    if keys.len() == 0 {
        Seq::empty()
    } else {
        let rest = leaf_records(syms, keys.drop_last());
        match find_key(syms, leaf_key(keys.last()), 0) {
            Some(i) => rest.push(i),
            None => rest,
        }
    }
}

/// The node's word lies inside the section after the candidate start.
pub open spec fn node_in_range(node: MatchNode, len: int, off: int) -> bool {
    node.offset <= len && off <= len - node.offset && len - off - node.offset >= 4
}

/// Symbols reached from node `n` for a candidate at `off` of `d`: every
/// edge whose masked word matches contributes its child's symbols and,
/// when the child has edges, what the child reaches.
pub open spec fn node_cands(syms: Seq<SymbolRecord>, nodes: Seq<MatchNode>, d: Seq<u8>, off: int, n: int) -> Seq<int>
    decreases nodes.len() - n, nodes[n].next@.len() + 1,
{
    if 0 <= n < nodes.len() && node_in_range(nodes[n], d.len() as int, off) {
        edge_cands(syms, nodes, d, off, n, 0)
    } else {
        Seq::empty()
    }
}

/// What edges `e..` of node `n` contribute, in order.
pub open spec fn edge_cands(syms: Seq<SymbolRecord>, nodes: Seq<MatchNode>, d: Seq<u8>, off: int, n: int, e: int) -> Seq<int>
    decreases nodes.len() - n, nodes[n].next@.len() - e,
{
    if 0 <= n < nodes.len() && 0 <= e < nodes[n].next@.len() {
        let edge = nodes[n].next@[e];
        let word = crate::cfg::word_at(d, off + nodes[n].offset, true);
        let mask = spec_relocation_mask(edge.relocation_type);
        let here = if word & mask == edge.value & mask && n < edge.child < nodes.len() {
            let child = nodes[edge.child as int];
            leaf_records(syms, child.symbols@)
                + if child.next@.len() > 0 { node_cands(syms, nodes, d, off, edge.child as int) } else { Seq::empty() }
        } else {
            Seq::empty()
        };
        here + edge_cands(syms, nodes, d, off, n, e + 1)
    } else {
        Seq::empty()
    }
}

impl SceSymbolDatabase {
    #[verifier::type_invariant]
    spec fn db_wf(self) -> bool {
        &&& keys_distinct(self.symbols@)
        &&& tree_ordered(self.nodes@)
    }

    /// The records, in table order.
    pub closed spec fn records(self) -> Seq<SymbolRecord> {
        self.symbols@
    }

    /// The trie's nodes, root first.
    pub closed spec fn trie(self) -> Seq<MatchNode> {
        self.nodes@
    }

    /// A database with no symbols, over the trie `nodes` (root first), when
    /// every edge leads to a later node of the table; `None` otherwise.
    pub fn new(nodes: Vec<MatchNode>) -> (r: Option<Self>)
        ensures
            r is Some <==> tree_ordered(nodes@),
            r matches Some(db) ==> db.records().len() == 0 && db.trie() == nodes@,
    {
        let mut n: usize = 0;
        while n < nodes.len()
            invariant
                forall|m: int, e: int| 0 <= m < n && 0 <= e < nodes@[m].next@.len()
                    ==> m < #[trigger] nodes@[m].next@[e].child < nodes@.len(),
            decreases nodes.len() - n,
        {
            let mut e: usize = 0;
            while e < nodes[n].next.len()
                invariant
                    n < nodes@.len(),
                    forall|m: int, f: int| 0 <= m < n && 0 <= f < nodes@[m].next@.len()
                        ==> m < #[trigger] nodes@[m].next@[f].child < nodes@.len(),
                    forall|f: int| 0 <= f < e ==> n < #[trigger] nodes@[n as int].next@[f].child < nodes@.len(),
                    e <= nodes@[n as int].next@.len(),
                decreases nodes@[n as int].next@.len() - e,
            {
                let c = nodes[n].next[e].child;
                if !(n < c && c < nodes.len()) {
                    return None;
                }
                e = e + 1;
            }
            n = n + 1;
        }
        Some(SceSymbolDatabase { symbols: Vec::new(), nodes })
    }

    /// Add a record; a record with the same (library, name, hash, variant)
    /// is replaced.
    pub fn insert_symbol(&mut self, rec: SymbolRecord)
        ensures
            final(self).trie() == old(self).trie(),
            final(self).records() == with_record(old(self).records(), rec),
    {
        proof { use_type_invariant(&*self); }
        let mut syms: Vec<SymbolRecord> = Vec::new();
        std::mem::swap(&mut syms, &mut self.symbols);
        let ghost old_syms = syms@;
        assert(old_syms == old(self).symbols@);
        let mut i: usize = 0;
        while i < syms.len()
            invariant
                i <= syms@.len(),
                syms@ == old_syms,
                old_syms == old(self).symbols@,
                keys_distinct(old_syms),
                self.nodes == old(self).nodes,
                tree_ordered(self.nodes@),
                self.symbols@.len() == 0,
                find_key(old_syms, record_key(rec), 0) == find_key(old_syms, record_key(rec), i as int),
            decreases syms@.len() - i,
        {
            let same = syms[i].library == rec.library && syms[i].name == rec.name
                && syms[i].hash_text == rec.hash_text && syms[i].variant_hash == rec.variant_hash;
            if same {
                assert(record_key(old_syms[i as int]) == record_key(rec));
                assert(find_key(old_syms, record_key(rec), i as int) == Some(i as int));
                syms.set(i, rec);
                proof {
                    assert forall|a: int, b: int| 0 <= a < b < syms@.len() implies
                        record_key(#[trigger] syms@[a]) != record_key(#[trigger] syms@[b]) by {
                        assert(record_key(old_syms[a]) != record_key(old_syms[b]));
                    }
                }
                assert(syms@ == old_syms.update(i as int, rec));
                self.symbols = syms;
                return;
            }
            i = i + 1;
        }
        assert(find_key(old_syms, record_key(rec), old_syms.len() as int) is None);
        assert forall|j: int| 0 <= j < old_syms.len() implies record_key(#[trigger] old_syms[j]) != record_key(rec) by {
            lemma_find_key_none(old_syms, record_key(rec), 0, j);
        }
        syms.push(rec);
        self.symbols = syms;
    }

    /// Number of symbol records.
    pub fn symbol_count(&self) -> (n: usize)
        ensures
            n == self.records().len(),
    {
        self.symbols.len()
    }
}

/// A key that `find_key` does not find from `i` is on no record from `i` on.
proof fn lemma_find_key_none(syms: Seq<SymbolRecord>, k: SymbolKey, i: int, j: int)
    requires
        0 <= i <= j < syms.len(),
        find_key(syms, k, i) is None,
    ensures
        record_key(syms[j]) != k,
    decreases j - i,
{
    if i < j {
        lemma_find_key_none(syms, k, i + 1, j);
    }
}

impl SceSymbolDatabase {
    /// Index of the record with the leaf's key, if any.
    fn lookup_key(&self, k: &MatchSymbolKey) -> (r: Option<usize>)
        ensures
            r matches Some(i) ==> find_key(self.records(), leaf_key(*k), 0) == Some(i as int),
            r is None ==> find_key(self.records(), leaf_key(*k), 0) is None,
    {
        let mut i: usize = 0;
        while i < self.symbols.len()
            invariant
                i <= self.symbols@.len(),
                find_key(self.symbols@, leaf_key(*k), 0) == find_key(self.symbols@, leaf_key(*k), i as int),
            decreases self.symbols@.len() - i,
        {
            if self.symbols[i].library == k.library && self.symbols[i].name == k.name
                && self.symbols[i].hash_text == k.hash && self.symbols[i].variant_hash == k.variant {
                return Some(i);
            }
            i = i + 1;
        }
        None
    }

    /// Append the records that node `n` reaches for a candidate at `offset`
    /// of `data` (the trie walk, depth first over matching edges).
    fn collect_candidates(&self, n: usize, data: &[u8], offset: u32, out: &mut Vec<usize>)
        requires
            tree_ordered(self.trie()),
        ensures
            final(out)@.map_values(|i: usize| i as int)
                == old(out)@.map_values(|i: usize| i as int) + node_cands(self.records(), self.trie(), data@, offset as int, n as int),
        decreases self.trie().len() - n, if n < self.trie().len() { self.trie()[n as int].next@.len() + 1 } else { 0 },
    {
        if n >= self.nodes.len() {
            assert(out@.map_values(|i: usize| i as int) =~= out@.map_values(|i: usize| i as int) + Seq::<int>::empty());
            return;
        }
        let len = data.len();
        let node = &self.nodes[n];
        if !(node.offset as usize <= len && offset as usize <= len - node.offset as usize
            && len - offset as usize - node.offset as usize >= 4) {
            assert(out@.map_values(|i: usize| i as int) =~= out@.map_values(|i: usize| i as int) + Seq::<int>::empty());
            return;
        }
        let value = read_le32(data, offset as usize + node.offset as usize);
        self.collect_edges(n, 0, value, data, offset, out);
    }

    fn collect_edges(&self, n: usize, e: usize, value: u32, data: &[u8], offset: u32, out: &mut Vec<usize>)
        requires
            tree_ordered(self.trie()),
            n < self.trie().len(),
            node_in_range(self.trie()[n as int], data@.len() as int, offset as int),
            value == crate::cfg::word_at(data@, offset + self.trie()[n as int].offset, true),
        ensures
            final(out)@.map_values(|i: usize| i as int)
                == old(out)@.map_values(|i: usize| i as int) + edge_cands(self.records(), self.trie(), data@, offset as int, n as int, e as int),
        decreases self.trie().len() - n, self.trie()[n as int].next@.len() - e,
    {
        let ghost o0 = out@.map_values(|i: usize| i as int);
        let node = &self.nodes[n];
        if e >= node.next.len() {
            assert(out@.map_values(|i: usize| i as int) =~= o0 + Seq::<int>::empty());
            return;
        }
        let edge = node.next[e];
        let mask = relocation_mask(edge.relocation_type);
        let ghost syms = self.records();
        let ghost nodes = self.trie();
        if (value & mask) == (edge.value & mask) {
            assert(n < edge.child < nodes.len());
            let child = &self.nodes[edge.child];
            let mut k: usize = 0;
            while k < child.symbols.len()
                invariant
                    k <= child.symbols@.len(),
                    edge.child < nodes.len(),
                    *child == nodes[edge.child as int],
                    syms == self.records(),
                    out@.map_values(|i: usize| i as int) == o0 + leaf_records(syms, child.symbols@.take(k as int)),
                decreases child.symbols@.len() - k,
            {
                assert(child.symbols@.take(k + 1).drop_last() =~= child.symbols@.take(k as int));
                assert(child.symbols@.take(k + 1).last() == child.symbols@[k as int]);
                let ghost before = out@;
                let ghost pre = leaf_records(syms, child.symbols@.take(k as int));
                assert(leaf_key(child.symbols@.take(k + 1).last()) == leaf_key(child.symbols@[k as int]));
                match self.lookup_key(&child.symbols[k]) {
                    Some(i) => {
                        out.push(i);
                        assert(leaf_records(syms, child.symbols@.take(k + 1)) == pre.push(i as int));
                        assert(out@.map_values(|i: usize| i as int) =~= before.map_values(|i: usize| i as int).push(i as int));
                        assert(out@.map_values(|i: usize| i as int) =~= o0 + leaf_records(syms, child.symbols@.take(k + 1)));
                    },
                    None => {
                        assert(out@.map_values(|i: usize| i as int) =~= o0 + leaf_records(syms, child.symbols@.take(k + 1)));
                    },
                }
                k = k + 1;
            }
            assert(child.symbols@.take(child.symbols@.len() as int) =~= child.symbols@);
            let ghost o1 = out@.map_values(|i: usize| i as int);
            if child.next.len() > 0 {
                self.collect_candidates(edge.child, data, offset, out);
            }
            let ghost o2 = out@.map_values(|i: usize| i as int);
            self.collect_edges(n, e + 1, value, data, offset, out);
            assert(out@.map_values(|i: usize| i as int) =~= o0 + edge_cands(syms, nodes, data@, offset as int, n as int, e as int));
        } else {
            self.collect_edges(n, e + 1, value, data, offset, out);
            assert(out@.map_values(|i: usize| i as int) =~= o0 + edge_cands(syms, nodes, data@, offset as int, n as int, e as int));
        }
    }
}

// ---------------------------------------------------------------------------
// Scanning
// ---------------------------------------------------------------------------

/// The candidate's size once trailing zero words (NOP padding) after
/// `size` bytes at `off` are counted in.
pub open spec fn grown_size(d: Seq<u8>, off: int, size: int) -> int
    decreases d.len() - off - size,
{
    if size >= 0 && off + size + 4 <= d.len() && crate::cfg::word_at(d, off + size, true) == 0 {
        grown_size(d, off, size + 4)
    } else {
        size
    }
}

/// The size a record matches with at `off` of `d`, if it is a function
/// whose masked body hashes to its digest there.
pub open spec fn cand_size(d: Seq<u8>, off: int, r: SymbolRecord) -> Option<u32> {
    if !r.is_function || r.size == 0 || off > d.len() || r.size > d.len() - off {
        None
    } else if sha1_of(masked_body(d.subrange(off, off + r.size), r.relocations@, r.relocations@.len() as int)) != r.hash@ {
        None
    } else {
        Some(grown_size(d, off, r.size as int) as u32)
    }
}

/// Confirmed candidates among records `cs` at `off` of a section at `addr`:
/// (address, record index, size), in order.
pub open spec fn cands_entries(syms: Seq<SymbolRecord>, addr: u32, d: Seq<u8>, off: int, cs: Seq<int>) -> Seq<(u32, int, u32)>
    decreases cs.len(),
{
    if cs.len() == 0 {
        Seq::empty()
    } else {
        let rest = cands_entries(syms, addr, d, off, cs.drop_last());
        let i = cs.last();
        match cand_size(d, off, syms[i]) {
            Some(sz) => rest.push(((addr + off) as u32, i, sz)),
            None => rest,
        }
    }
}

/// The entries found at the first `k` word offsets of a section.
pub open spec fn section_entries(syms: Seq<SymbolRecord>, nodes: Seq<MatchNode>, addr: u32, d: Seq<u8>, k: int) -> Seq<(u32, int, u32)>
    decreases k,
{
    if k <= 0 {
        Seq::empty()
    } else {
        let off = 4 * (k - 1);
        section_entries(syms, nodes, addr, d, k - 1)
            + cands_entries(syms, addr, d, off, node_cands(syms, nodes, d, off, 0))
    }
}

/// A code section as plain values.
pub open spec fn section_view(c: CodeSection) -> (u32, Seq<u8>) {
    (c.address, c.data@)
}

/// The entries of the first `n` sections, in scan order.
pub open spec fn scan_entries(syms: Seq<SymbolRecord>, nodes: Seq<MatchNode>, secs: Seq<(u32, Seq<u8>)>, n: int) -> Seq<(u32, int, u32)>
    decreases n,
{
    if n <= 0 {
        Seq::empty()
    } else {
        let (addr, d) = secs[n - 1];
        scan_entries(syms, nodes, secs, n - 1) + section_entries(syms, nodes, addr, d, (d.len() / 4) as int)
    }
}

/// The candidates recorded at address `a` (record index to size; a later
/// entry for the same record replaces an earlier one).
pub open spec fn at_addr(es: Seq<(u32, int, u32)>, a: u32) -> Map<int, u32>
    decreases es.len(),
{
    if es.len() == 0 {
        Map::empty()
    } else {
        let m = at_addr(es.drop_last(), a);
        let (b, i, sz) = es.last();
        if b == a { m.insert(i, sz) } else { m }
    }
}

pub open spec fn static_bits_of(r: SymbolRecord) -> nat {
    spec_static_bits(r.size, r.relocations@)
}

/// A candidate with at least 256 static bits.
pub open spec fn viable(syms: Seq<SymbolRecord>, m: Map<int, u32>, i: int) -> bool {
    m.dom().contains(i) && 0 <= i < syms.len() && static_bits_of(syms[i]) >= 256
}

/// Some candidate is viable and all viable ones are the same (library, name).
pub open spec fn resolvable(syms: Seq<SymbolRecord>, m: Map<int, u32>) -> bool {
    &&& exists|i: int| viable(syms, m, i)
    &&& forall|i: int, j: int| viable(syms, m, i) && viable(syms, m, j)
        ==> syms[i].library@ == syms[j].library@ && syms[i].name@ == syms[j].name@
}

/// `i` is a viable candidate of greatest size, then greatest static-bit count.
pub open spec fn best(syms: Seq<SymbolRecord>, m: Map<int, u32>, i: int) -> bool {
    &&& viable(syms, m, i)
    &&& forall|j: int| viable(syms, m, j) ==> m[j] < m[i] || (m[j] == m[i] && static_bits_of(syms[j]) <= static_bits_of(syms[i]))
}

/// A match as plain values: (address, size, name, library, hash, variant).
pub open spec fn match_view(x: SceSymbolMatch) -> (u32, u32, Seq<char>, Seq<char>, Seq<char>, u32) {
    (x.address, x.size, x.name@, x.library@, x.hash@, x.variant_hash)
}

/// The match that record `i` gives at `a` with size `sz`.
pub open spec fn match_of(syms: Seq<SymbolRecord>, i: int, a: u32, sz: u32) -> (u32, u32, Seq<char>, Seq<char>, Seq<char>, u32) {
    (a, sz, syms[i].name@, syms[i].library@, syms[i].hash_text@, syms[i].variant_hash)
}

/// The static-bit count, computed without a bound on the body size.
fn static_bits_wide(r: &SymbolRecord) -> (n: u128)
    ensures
        n == static_bits_of(*r),
{
    let mut kept: u128 = 0;
    let mut i: usize = 0;
    while i < r.relocations.len()
        invariant
            i <= r.relocations.len(),
            kept == kept_total(r.relocations@, i as int),
            kept <= 32 * i,
        decreases r.relocations.len() - i,
    {
        kept = kept + match r.relocations[i].r_type {
            RelocationType::NoRelocation => 32,
            RelocationType::Mips26 => 6,
            RelocationType::MipsLo16 | RelocationType::MipsHi16 | RelocationType::MipsGpRel16 | RelocationType::MipsLiteral => 16,
            RelocationType::Mips32 => 0,
        };
        i = i + 1;
    }
    let total: u128 = (r.size as u128) * 8;
    if kept >= total { 0 } else { total - kept }
}

/// The size record `r` matches with at `offset` of `data`, if any.
fn candidate_size(data: &[u8], offset: u32, r: &SymbolRecord) -> (res: Option<u32>)
    requires
        offset + 4 <= data@.len(),
        data@.len() <= u32::MAX,
    ensures
        res == cand_size(data@, offset as int, *r),
{
    let len = data.len() as u32;
    if !r.is_function || r.size == 0 {
        return None;
    }
    if offset > len || r.size > len - offset {
        return None;
    }
    let section = CodeSection { address: 0, data };
    if !matches_symbol(&section, offset, r) {
        return None;
    }
    let mut actual: u32 = r.size;
    while actual <= len - offset - 4 && read_le32(data, (offset + actual) as usize) == 0
        invariant
            offset + 4 <= len,
            len == data@.len(),
            r.size <= actual <= len - offset,
            (actual - r.size) % 4 == 0,
            grown_size(data@, offset as int, r.size as int) == grown_size(data@, offset as int, actual as int),
        decreases len - offset - actual,
    {
        actual = actual + 4;
    }
    Some(actual)
}

impl SceSymbolDatabase {
    /// Append the entries found at `offset` of a section at `addr`.
    fn offset_entries(&self, addr: u32, data: &[u8], offset: u32, es: &mut Vec<(u32, usize, u32)>)
        requires
            offset + 4 <= data@.len(),
            data@.len() <= u32::MAX,
            addr + data@.len() <= 0x1_0000_0000,
        ensures
            final(es)@.map_values(|e: (u32, usize, u32)| entry_view(e))
                == old(es)@.map_values(|e: (u32, usize, u32)| entry_view(e))
                    + cands_entries(self.records(), addr, data@, offset as int,
                        node_cands(self.records(), self.trie(), data@, offset as int, 0)),
    {
        proof { use_type_invariant(self); }
        let mut cands: Vec<usize> = Vec::new();
        self.collect_candidates(0, data, offset, &mut cands);
        let ghost cs = cands@.map_values(|i: usize| i as int);
        assert(cs =~= node_cands(self.records(), self.trie(), data@, offset as int, 0));
        proof {
            lemma_node_cands_range(self.records(), self.trie(), data@, offset as int, 0);
            assert forall|q: int| 0 <= q < cands@.len() implies cands@[q] < self.records().len() by {
                assert(cs[q] == cands@[q] as int);
            }
        }
        let ghost e0 = es@.map_values(|e: (u32, usize, u32)| entry_view(e));
        let mut k: usize = 0;
        while k < cands.len()
            invariant
                k <= cands@.len(),
                cs == cands@.map_values(|i: usize| i as int),
                offset + 4 <= data@.len(),
                data@.len() <= u32::MAX,
                addr + data@.len() <= 0x1_0000_0000,
                es@.map_values(|e: (u32, usize, u32)| entry_view(e))
                    == e0 + cands_entries(self.records(), addr, data@, offset as int, cs.take(k as int)),
                forall|q: int| 0 <= q < cands@.len() ==> cands@[q] < self.records().len(),
            decreases cands@.len() - k,
        {
            let i = cands[k];
            assert(cs.take(k + 1).drop_last() =~= cs.take(k as int));
            assert(cs.take(k + 1).last() == i as int);
            let ghost before = es@;
            match candidate_size(data, offset, &self.symbols[i]) {
                Some(sz) => {
                    es.push((addr + offset, i, sz));
                    assert(es@.map_values(|e: (u32, usize, u32)| entry_view(e))
                        =~= before.map_values(|e: (u32, usize, u32)| entry_view(e)).push(((addr + offset) as u32, i as int, sz)));
                },
                None => {},
            }
            k = k + 1;
        }
        assert(cs.take(cands@.len() as int) =~= cs);
    }
}

proof fn lemma_find_key_range(syms: Seq<SymbolRecord>, k: SymbolKey, i: int)
    ensures
        find_key(syms, k, i) matches Some(j) ==> 0 <= j < syms.len(),
    decreases syms.len() - i,
{
    if 0 <= i < syms.len() && record_key(syms[i]) != k {
        lemma_find_key_range(syms, k, i + 1);
    }
}

proof fn lemma_leaf_records_range(syms: Seq<SymbolRecord>, keys: Seq<MatchSymbolKey>)
    ensures
        forall|q: int| 0 <= q < leaf_records(syms, keys).len() ==> 0 <= #[trigger] leaf_records(syms, keys)[q] < syms.len(),
    decreases keys.len(),
{
    if keys.len() > 0 {
        let rest = leaf_records(syms, keys.drop_last());
        lemma_leaf_records_range(syms, keys.drop_last());
        lemma_find_key_range(syms, leaf_key(keys.last()), 0);
        assert forall|q: int| 0 <= q < leaf_records(syms, keys).len() implies 0 <= #[trigger] leaf_records(syms, keys)[q] < syms.len() by {
            if q < rest.len() {
                assert(leaf_records(syms, keys)[q] == rest[q]);
            }
        }
    }
}

/// All elements of `a + b` are indices of the table when those of `a` and
/// `b` are.
proof fn lemma_concat_range(a: Seq<int>, b: Seq<int>, len: int)
    requires
        forall|q: int| 0 <= q < a.len() ==> 0 <= #[trigger] a[q] < len,
        forall|q: int| 0 <= q < b.len() ==> 0 <= #[trigger] b[q] < len,
    ensures
        forall|q: int| 0 <= q < (a + b).len() ==> 0 <= #[trigger] (a + b)[q] < len,
{
    assert forall|q: int| 0 <= q < (a + b).len() implies 0 <= #[trigger] (a + b)[q] < len by {
        if q < a.len() {
            assert((a + b)[q] == a[q]);
        } else {
            assert((a + b)[q] == b[q - a.len()]);
        }
    }
}

/// Every record the trie walk reaches is an index of the table.
proof fn lemma_node_cands_range(syms: Seq<SymbolRecord>, nodes: Seq<MatchNode>, d: Seq<u8>, off: int, n: int)
    ensures
        forall|q: int| 0 <= q < node_cands(syms, nodes, d, off, n).len()
            ==> 0 <= #[trigger] node_cands(syms, nodes, d, off, n)[q] < syms.len(),
    decreases nodes.len() - n, nodes[n].next@.len() + 1,
{
    if 0 <= n < nodes.len() && node_in_range(nodes[n], d.len() as int, off) {
        lemma_edge_cands_range(syms, nodes, d, off, n, 0);
        assert(node_cands(syms, nodes, d, off, n) == edge_cands(syms, nodes, d, off, n, 0));
    } else {
        assert(node_cands(syms, nodes, d, off, n) =~= Seq::<int>::empty());
    }
}

proof fn lemma_edge_cands_range(syms: Seq<SymbolRecord>, nodes: Seq<MatchNode>, d: Seq<u8>, off: int, n: int, e: int)
    ensures
        forall|q: int| 0 <= q < edge_cands(syms, nodes, d, off, n, e).len()
            ==> 0 <= #[trigger] edge_cands(syms, nodes, d, off, n, e)[q] < syms.len(),
    decreases nodes.len() - n, nodes[n].next@.len() - e,
{
    if 0 <= n < nodes.len() && 0 <= e < nodes[n].next@.len() {
        let edge = nodes[n].next@[e];
        let word = crate::cfg::word_at(d, off + nodes[n].offset, true);
        let mask = spec_relocation_mask(edge.relocation_type);
        lemma_edge_cands_range(syms, nodes, d, off, n, e + 1);
        let rest = edge_cands(syms, nodes, d, off, n, e + 1);
        if word & mask == edge.value & mask && n < edge.child < nodes.len() {
            let child = nodes[edge.child as int];
            lemma_leaf_records_range(syms, child.symbols@);
            let deeper = if child.next@.len() > 0 { node_cands(syms, nodes, d, off, edge.child as int) } else { Seq::empty() };
            if child.next@.len() > 0 {
                lemma_node_cands_range(syms, nodes, d, off, edge.child as int);
            }
            lemma_concat_range(leaf_records(syms, child.symbols@), deeper, syms.len() as int);
            lemma_concat_range(leaf_records(syms, child.symbols@) + deeper, rest, syms.len() as int);
        } else {
            lemma_concat_range(Seq::empty(), rest, syms.len() as int);
        }
    }
}

/// The map a list of (record, size) pairs describes, later pairs winning.
pub open spec fn list_map(l: Seq<(int, u32)>) -> Map<int, u32>
    decreases l.len(),
{
    if l.len() == 0 {
        Map::empty()
    } else {
        list_map(l.drop_last()).insert(l.last().0, l.last().1)
    }
}

pub open spec fn firsts_distinct(l: Seq<(int, u32)>) -> bool {
    forall|p: int, q: int| 0 <= p < q < l.len() ==> (#[trigger] l[p]).0 != (#[trigger] l[q]).0
}

proof fn lemma_list_map_dom(l: Seq<(int, u32)>, i: int)
    ensures
        list_map(l).dom().contains(i) <==> exists|p: int| 0 <= p < l.len() && (#[trigger] l[p]).0 == i,
    decreases l.len(),
{
    if l.len() > 0 {
        lemma_list_map_dom(l.drop_last(), i);
        if list_map(l.drop_last()).dom().contains(i) {
            let p = choose|p: int| 0 <= p < l.drop_last().len() && (#[trigger] l.drop_last()[p]).0 == i;
            assert(l[p] == l.drop_last()[p]);
        }
        if exists|p: int| 0 <= p < l.len() && (#[trigger] l[p]).0 == i {
            let p = choose|p: int| 0 <= p < l.len() && (#[trigger] l[p]).0 == i;
            if p < l.len() - 1 {
                assert(l.drop_last()[p] == l[p]);
            }
        }
    }
}

proof fn lemma_list_map_at(l: Seq<(int, u32)>, p: int)
    requires
        firsts_distinct(l),
        0 <= p < l.len(),
    ensures
        list_map(l).dom().contains(l[p].0),
        list_map(l)[l[p].0] == l[p].1,
    decreases l.len(),
{
    if p < l.len() - 1 {
        assert(l.drop_last()[p] == l[p]);
        assert(firsts_distinct(l.drop_last())) by {
            assert forall|a: int, b: int| 0 <= a < b < l.drop_last().len() implies
                (#[trigger] l.drop_last()[a]).0 != (#[trigger] l.drop_last()[b]).0 by {
                assert(l.drop_last()[a] == l[a] && l.drop_last()[b] == l[b]);
            }
        }
        lemma_list_map_at(l.drop_last(), p);
        assert(l[p].0 != l.last().0);
    }
}

proof fn lemma_list_map_update(l: Seq<(int, u32)>, p: int, sz: u32)
    requires
        firsts_distinct(l),
        0 <= p < l.len(),
    ensures
        list_map(l.update(p, (l[p].0, sz))) == list_map(l).insert(l[p].0, sz),
    decreases l.len(),
{
    let u = l.update(p, (l[p].0, sz));
    if p == l.len() - 1 {
        assert(u.drop_last() =~= l.drop_last());
        assert(list_map(l.drop_last()).insert(l[p].0, l[p].1).insert(l[p].0, sz) =~= list_map(l.drop_last()).insert(l[p].0, sz));
    } else {
        assert(firsts_distinct(l.drop_last())) by {
            assert forall|a: int, b: int| 0 <= a < b < l.drop_last().len() implies
                (#[trigger] l.drop_last()[a]).0 != (#[trigger] l.drop_last()[b]).0 by {
                assert(l.drop_last()[a] == l[a] && l.drop_last()[b] == l[b]);
            }
        }
        lemma_list_map_update(l.drop_last(), p, sz);
        assert(u.drop_last() =~= l.drop_last().update(p, (l[p].0, sz)));
        assert(l[p].0 != l.last().0);
        assert(list_map(u) =~= list_map(l).insert(l[p].0, sz));
    }
}

/// A section's address range fits the 32-bit address space.
pub open spec fn section_fits(c: CodeSection) -> bool {
    c.data@.len() <= u32::MAX && c.address + c.data@.len() <= 0x1_0000_0000
}

/// An entry with the record index as a plain integer.
pub open spec fn entry_view(e: (u32, usize, u32)) -> (u32, int, u32) {
    (e.0, e.1 as int, e.2)
}

impl SceSymbolDatabase {
    /// Every (address, record, size) the scan confirms, in scan order.
    fn entries_of(&self, sections: &[CodeSection<'_>]) -> (es: Vec<(u32, usize, u32)>)
        requires
            forall|k: int| 0 <= k < sections@.len() ==> section_fits(#[trigger] sections@[k]),
        ensures
            es@.map_values(|e: (u32, usize, u32)| entry_view(e))
                == scan_entries(self.records(), self.trie(), sections@.map_values(|c: CodeSection| section_view(c)), sections@.len() as int),
            forall|q: int| 0 <= q < es@.len() ==> (#[trigger] es@[q]).1 < self.records().len(),
    {
        let ghost secs = sections@.map_values(|c: CodeSection| section_view(c));
        let mut es: Vec<(u32, usize, u32)> = Vec::new();
        let mut si: usize = 0;
        while si < sections.len()
            invariant
                si <= sections@.len(),
                secs == sections@.map_values(|c: CodeSection| section_view(c)),
                forall|k: int| 0 <= k < sections@.len() ==> section_fits(#[trigger] sections@[k]),
                es@.map_values(|e: (u32, usize, u32)| entry_view(e)) == scan_entries(self.records(), self.trie(), secs, si as int),
                forall|q: int| 0 <= q < es@.len() ==> (#[trigger] es@[q]).1 < self.records().len(),
            decreases sections@.len() - si,
        {
            let sec = &sections[si];
            let addr = sec.address;
            let data = sec.data;
            assert(section_fits(sections@[si as int]));
            let words = data.len() / 4;
            let ghost base = es@.map_values(|e: (u32, usize, u32)| entry_view(e));
            let mut k: usize = 0;
            while k < words
                invariant
                    k <= words,
                    words == data@.len() / 4,
                    data@.len() <= u32::MAX,
                    addr + data@.len() <= 0x1_0000_0000,
                    es@.map_values(|e: (u32, usize, u32)| entry_view(e))
                        == base + section_entries(self.records(), self.trie(), addr, data@, k as int),
                    forall|q: int| 0 <= q < es@.len() ==> (#[trigger] es@[q]).1 < self.records().len(),
                decreases words - k,
            {
                let ghost before = es@.map_values(|e: (u32, usize, u32)| entry_view(e));
                let ghost old_raw = es@;
                let ghost blen = es@.len();
                assert(k * 4 + 4 <= data@.len());
                let offset = (k * 4) as u32;
                assert(offset == k * 4);
                self.offset_entries(addr, data, offset, &mut es);
                proof {
                    let cs = node_cands(self.records(), self.trie(), data@, offset as int, 0);
                    let ce = cands_entries(self.records(), addr, data@, offset as int, cs);
                    lemma_node_cands_range(self.records(), self.trie(), data@, offset as int, 0);
                    lemma_cands_entries_range(self.records(), addr, data@, offset as int, cs);
                    let mapped = es@.map_values(|e: (u32, usize, u32)| entry_view(e));
                    assert(mapped == before + ce);
                    assert forall|q: int| 0 <= q < es@.len() implies (#[trigger] es@[q]).1 < self.records().len() by {
                        assert(entry_view(es@[q]) == mapped[q]);
                        if q >= blen {
                            assert(mapped[q] == ce[q - blen]);
                        } else {
                            assert(mapped[q] == before[q]);
                            assert(before[q] == entry_view(old_raw[q]));
                        }
                    }
                }
                assert(es@.map_values(|e: (u32, usize, u32)| entry_view(e))
                    =~= base + section_entries(self.records(), self.trie(), addr, data@, k + 1));
                k = k + 1;
            }
            assert(secs[si as int] == (addr, data@));
            assert(es@.map_values(|e: (u32, usize, u32)| entry_view(e)) =~= scan_entries(self.records(), self.trie(), secs, si + 1));
            si = si + 1;
        }
        es
    }
}

/// Confirmed entries name records of the table.
proof fn lemma_cands_entries_range(syms: Seq<SymbolRecord>, addr: u32, d: Seq<u8>, off: int, cs: Seq<int>)
    requires
        forall|q: int| 0 <= q < cs.len() ==> 0 <= #[trigger] cs[q] < syms.len(),
    ensures
        forall|q: int| 0 <= q < cands_entries(syms, addr, d, off, cs).len()
            ==> 0 <= (#[trigger] cands_entries(syms, addr, d, off, cs)[q]).1 < syms.len(),
    decreases cs.len(),
{
    if cs.len() > 0 {
        let rest = cands_entries(syms, addr, d, off, cs.drop_last());
        assert forall|q: int| 0 <= q < cs.drop_last().len() implies 0 <= #[trigger] cs.drop_last()[q] < syms.len() by {
            assert(cs.drop_last()[q] == cs[q]);
        }
        lemma_cands_entries_range(syms, addr, d, off, cs.drop_last());
        assert forall|q: int| 0 <= q < cands_entries(syms, addr, d, off, cs).len()
            implies 0 <= (#[trigger] cands_entries(syms, addr, d, off, cs)[q]).1 < syms.len() by {
            if q < rest.len() {
                assert(cands_entries(syms, addr, d, off, cs)[q] == rest[q]);
            } else {
                assert(cs.last() == cs[cs.len() - 1]);
            }
        }
    }
}

/// The map a list of (record, size) pairs describes.
pub open spec fn pairs_map(cl: Seq<(usize, u32)>) -> Map<int, u32> {
    list_map(cl.map_values(|p: (usize, u32)| pair_view(p)))
}

/// A (record, size) pair with the record index as a plain integer.
pub open spec fn pair_view(p: (usize, u32)) -> (int, u32) {
    (p.0 as int, p.1)
}

/// The distinct candidates at address `a`, each with its last recorded size.
fn candidates_at(es: &Vec<(u32, usize, u32)>, a: u32) -> (cl: Vec<(usize, u32)>)
    ensures
        firsts_distinct(cl@.map_values(|p: (usize, u32)| pair_view(p))),
        list_map(cl@.map_values(|p: (usize, u32)| pair_view(p))) == at_addr(es@.map_values(|e: (u32, usize, u32)| entry_view(e)), a),
        forall|q: int| 0 <= q < cl@.len() ==> exists|j: int| 0 <= j < es@.len() && (#[trigger] cl@[q]).0 == es@[j].1,
{
    let ghost ev = es@.map_values(|e: (u32, usize, u32)| entry_view(e));
    let mut cl: Vec<(usize, u32)> = Vec::new();
    let mut j: usize = 0;
    while j < es.len()
        invariant
            j <= es@.len(),
            ev == es@.map_values(|e: (u32, usize, u32)| entry_view(e)),
            firsts_distinct(cl@.map_values(|p: (usize, u32)| pair_view(p))),
            list_map(cl@.map_values(|p: (usize, u32)| pair_view(p))) == at_addr(ev.take(j as int), a),
            forall|q: int| 0 <= q < cl@.len() ==> exists|t: int| 0 <= t < es@.len() && (#[trigger] cl@[q]).0 == es@[t].1,
        decreases es@.len() - j,
    {
        let (b, i, sz) = es[j];
        assert(ev.take(j + 1).drop_last() =~= ev.take(j as int));
        assert(ev.take(j + 1).last() == (b, i as int, sz));
        assert(at_addr(ev.take(j + 1), a) == if b == a {
            at_addr(ev.take(j as int), a).insert(i as int, sz)
        } else {
            at_addr(ev.take(j as int), a)
        });
        if b == a {
            let ghost lv = cl@.map_values(|p: (usize, u32)| pair_view(p));
            let mut p: usize = 0;
            let mut found: bool = false;
            while p < cl.len() && !found
                invariant
                    p <= cl@.len(),
                    lv == cl@.map_values(|p: (usize, u32)| pair_view(p)),
                    found ==> p < cl@.len() && cl@[p as int].0 == i,
                    !found ==> forall|r: int| 0 <= r < p ==> (#[trigger] cl@[r]).0 != i,
                decreases cl@.len() - p + (if found { 0int } else { 1int }),
            {
                if cl[p].0 == i {
                    found = true;
                } else {
                    p = p + 1;
                }
            }
            if found {
                proof {
                    lemma_list_map_update(lv, p as int, sz);
                    assert(lv[p as int].0 == i as int);
                }
                let ghost old_cl = cl@;
                cl.set(p, (i, sz));
                assert(cl@.map_values(|p: (usize, u32)| pair_view(p)) =~= lv.update(p as int, (i as int, sz)));
                assert(firsts_distinct(cl@.map_values(|p: (usize, u32)| pair_view(p)))) by {
                    let nv = cl@.map_values(|p: (usize, u32)| pair_view(p));
                    assert forall|x: int, y: int| 0 <= x < y < nv.len() implies (#[trigger] nv[x]).0 != (#[trigger] nv[y]).0 by {
                        assert(lv[x].0 != lv[y].0);
                    }
                }
                assert forall|q: int| 0 <= q < cl@.len() implies exists|t: int| 0 <= t < es@.len() && (#[trigger] cl@[q]).0 == es@[t].1 by {
                    if q == p {
                        assert(cl@[q].0 == es@[j as int].1);
                    } else {
                        assert(cl@[q] == old_cl[q]);
                    }
                }
            } else {
                let ghost old_cl = cl@;
                cl.push((i, sz));
                assert(cl@.map_values(|p: (usize, u32)| pair_view(p)) =~= lv.push((i as int, sz)));
                assert(lv.push((i as int, sz)).drop_last() =~= lv);
                assert(firsts_distinct(cl@.map_values(|p: (usize, u32)| pair_view(p)))) by {
                    let nv = cl@.map_values(|p: (usize, u32)| pair_view(p));
                    assert forall|x: int, y: int| 0 <= x < y < nv.len() implies (#[trigger] nv[x]).0 != (#[trigger] nv[y]).0 by {
                        if y < lv.len() {
                            assert(lv[x].0 != lv[y].0);
                        } else {
                            assert(old_cl[x].0 != i);
                        }
                    }
                }
                assert forall|q: int| 0 <= q < cl@.len() implies exists|t: int| 0 <= t < es@.len() && (#[trigger] cl@[q]).0 == es@[t].1 by {
                    if q == old_cl.len() {
                        assert(cl@[q].0 == es@[j as int].1);
                    } else {
                        assert(cl@[q] == old_cl[q]);
                    }
                }
            }
        }
        j = j + 1;
    }
    assert(ev.take(es@.len() as int) =~= ev);
    cl
}

/// Viability in the map of a list is viability of one of its pairs.
proof fn lemma_viable_list(syms: Seq<SymbolRecord>, l: Seq<(int, u32)>, i: int)
    requires
        firsts_distinct(l),
    ensures
        viable(syms, list_map(l), i) <==> exists|p: int| 0 <= p < l.len() && (#[trigger] l[p]).0 == i
            && 0 <= i < syms.len() && static_bits_of(syms[i]) >= 256,
{
    lemma_list_map_dom(l, i);
}

impl SceSymbolDatabase {
    /// The match at `a` among the candidates `cl`: none unless some candidate
    /// has at least 256 static bits and all such agree on (library, name);
    /// then the one of greatest size, then greatest static-bit count.
    fn resolve_at(&self, cl: &Vec<(usize, u32)>, a: u32) -> (r: Option<SceSymbolMatch>)
        requires
            firsts_distinct(cl@.map_values(|p: (usize, u32)| pair_view(p))),
            forall|q: int| 0 <= q < cl@.len() ==> (#[trigger] cl@[q]).0 < self.records().len(),
        ensures
            r is Some <==> resolvable(self.records(), pairs_map(cl@)),
            r matches Some(x) ==> exists|i: int| #[trigger] best(self.records(), pairs_map(cl@), i)
                && match_view(x) == match_of(self.records(), i, a, pairs_map(cl@)[i]),
    {
        let ghost syms = self.records();
        let ghost l = cl@.map_values(|p: (usize, u32)| pair_view(p));
        let ghost m = list_map(l);
        let mut p0: usize = 0;
        let mut found: bool = false;
        while p0 < cl.len() && !found
            invariant
                p0 <= cl@.len(),
                found ==> p0 < cl@.len() && static_bits_of(syms[cl@[p0 as int].0 as int]) >= 256,
                !found ==> forall|r: int| 0 <= r < p0 ==> static_bits_of(syms[(#[trigger] cl@[r]).0 as int]) < 256,
                syms == self.records(),
                forall|q: int| 0 <= q < cl@.len() ==> (#[trigger] cl@[q]).0 < self.records().len(),
            decreases cl@.len() - p0 + (if found { 0int } else { 1int }),
        {
            if static_bits_wide(&self.symbols[cl[p0].0]) >= 256 {
                found = true;
            } else {
                p0 = p0 + 1;
            }
        }
        if !found {
            assert(!resolvable(syms, m)) by {
                assert forall|i: int| !viable(syms, m, i) by {
                    lemma_viable_list(syms, l, i);
                    if viable(syms, m, i) {
                        let p = choose|p: int| 0 <= p < l.len() && (#[trigger] l[p]).0 == i
                            && 0 <= i < syms.len() && static_bits_of(syms[i]) >= 256;
                        assert(l[p] == pair_view(cl@[p]));
                    }
                }
            }
            return None;
        }
        let i0 = cl[p0].0;
        let mut q: usize = 0;
        while q < cl.len()
            invariant
                q <= cl@.len(),
                syms == self.records(),
                l == cl@.map_values(|p: (usize, u32)| pair_view(p)),
                firsts_distinct(l),
                m == list_map(l),
                p0 < cl@.len(),
                i0 == cl@[p0 as int].0,
                static_bits_of(syms[i0 as int]) >= 256,
                i0 < syms.len(),
                forall|t: int| 0 <= t < cl@.len() ==> (#[trigger] cl@[t]).0 < self.records().len(),
                forall|t: int| 0 <= t < q && static_bits_of(syms[(#[trigger] cl@[t]).0 as int]) >= 256
                    ==> syms[cl@[t].0 as int].library@ == syms[i0 as int].library@ && syms[cl@[t].0 as int].name@ == syms[i0 as int].name@,
            decreases cl@.len() - q,
        {
            let iq = cl[q].0;
            if static_bits_wide(&self.symbols[iq]) >= 256 {
                if !(self.symbols[iq].library == self.symbols[i0].library && self.symbols[iq].name == self.symbols[i0].name) {
                    assert(!resolvable(syms, m)) by {
                        lemma_viable_list(syms, l, iq as int);
                        lemma_viable_list(syms, l, i0 as int);
                        assert(l[q as int] == pair_view(cl@[q as int]));
                        assert(l[p0 as int] == pair_view(cl@[p0 as int]));
                        assert(viable(syms, m, iq as int));
                        assert(viable(syms, m, i0 as int));
                    }
                    return None;
                }
            }
            q = q + 1;
        }
        assert(resolvable(syms, m)) by {
            lemma_viable_list(syms, l, i0 as int);
            assert(l[p0 as int] == pair_view(cl@[p0 as int]));
            assert(viable(syms, m, i0 as int));
            assert forall|x: int, y: int| viable(syms, m, x) && viable(syms, m, y)
                implies syms[x].library@ == syms[y].library@ && syms[x].name@ == syms[y].name@ by {
                lemma_viable_list(syms, l, x);
                lemma_viable_list(syms, l, y);
                let px = choose|p: int| 0 <= p < l.len() && (#[trigger] l[p]).0 == x
                    && 0 <= x < syms.len() && static_bits_of(syms[x]) >= 256;
                let py = choose|p: int| 0 <= p < l.len() && (#[trigger] l[p]).0 == y
                    && 0 <= y < syms.len() && static_bits_of(syms[y]) >= 256;
                assert(l[px] == pair_view(cl@[px]));
                assert(l[py] == pair_view(cl@[py]));
            }
        }
        let mut bp: usize = p0;
        let mut bsb: u128 = static_bits_wide(&self.symbols[i0]);
        let mut k: usize = 0;
        while k < cl.len()
            invariant
                k <= cl@.len(),
                syms == self.records(),
                bp < cl@.len(),
                forall|t: int| 0 <= t < cl@.len() ==> (#[trigger] cl@[t]).0 < self.records().len(),
                static_bits_of(syms[cl@[bp as int].0 as int]) >= 256,
                bsb == static_bits_of(syms[cl@[bp as int].0 as int]),
                forall|t: int| 0 <= t < k && static_bits_of(syms[(#[trigger] cl@[t]).0 as int]) >= 256
                    ==> cl@[t].1 < cl@[bp as int].1 || (cl@[t].1 == cl@[bp as int].1
                        && static_bits_of(syms[cl@[t].0 as int]) <= bsb),
            decreases cl@.len() - k,
        {
            let sb = static_bits_wide(&self.symbols[cl[k].0]);
            if sb >= 256 {
                if cl[k].1 > cl[bp].1 || (cl[k].1 == cl[bp].1 && sb > bsb) {
                    bp = k;
                    bsb = sb;
                }
            }
            k = k + 1;
        }
        let bi = cl[bp].0;
        let sz = cl[bp].1;
        let rec = &self.symbols[bi];
        let x = SceSymbolMatch {
            address: a,
            size: sz,
            name: rec.name.clone(),
            library: rec.library.clone(),
            hash: rec.hash_text.clone(),
            variant_hash: rec.variant_hash,
        };
        proof {
            lemma_list_map_at(l, bp as int);
            assert(l[bp as int] == pair_view(cl@[bp as int]));
            lemma_viable_list(syms, l, bi as int);
            assert(viable(syms, m, bi as int));
            assert forall|j: int| viable(syms, m, j) implies m[j] < m[bi as int]
                || (m[j] == m[bi as int] && static_bits_of(syms[j]) <= static_bits_of(syms[bi as int])) by {
                lemma_viable_list(syms, l, j);
                let pj = choose|p: int| 0 <= p < l.len() && (#[trigger] l[p]).0 == j
                    && 0 <= j < syms.len() && static_bits_of(syms[j]) >= 256;
                assert(l[pj] == pair_view(cl@[pj]));
                lemma_list_map_at(l, pj);
            }
            assert(best(syms, m, bi as int));
            assert(m == pairs_map(cl@));
            assert(m[bi as int] == sz);
            assert(match_view(x) == match_of(syms, bi as int, a, m[bi as int]));
        }
        Some(x)
    }
}

/// `b` lies above the bound `last` (every address does when there is none).
pub open spec fn above(last: Option<u32>, b: u32) -> bool {
    match last { None => true, Some(l) => b > l }
}

/// The addresses of the matches strictly increase.
pub open spec fn addresses_increasing(out: Seq<SceSymbolMatch>) -> bool {
    forall|p: int, q: int| 0 <= p < q < out.len() ==> (#[trigger] out[p]).address < (#[trigger] out[q]).address
}

/// `x` is the match that the candidates at its address resolve to.
pub open spec fn resolved_match(syms: Seq<SymbolRecord>, es: Seq<(u32, int, u32)>, x: SceSymbolMatch) -> bool {
    let m = at_addr(es, x.address);
    &&& resolvable(syms, m)
    &&& exists|i: int| #[trigger] best(syms, m, i) && match_view(x) == match_of(syms, i, x.address, m[i])
}

impl SceSymbolDatabase {
    /// Everything the scan confirms over `secs`, in scan order:
    /// (address, record index, size).
    pub open spec fn scan_found(self, secs: Seq<CodeSection>) -> Seq<(u32, int, u32)> {
        scan_entries(self.records(), self.trie(), secs.map_values(|c: CodeSection| section_view(c)), secs.len() as int)
    }

    /// Scan the code sections: at every word offset, walk the trie for the
    /// candidate records, confirm each by its masked-body digest (growing its
    /// size over trailing zero words), then resolve each address's candidates.
    /// The matches come in increasing address order, one per address whose
    /// candidates resolve.
    pub fn scan(&self, sections: &[CodeSection<'_>]) -> (out: Vec<SceSymbolMatch>)
        requires
            forall|k: int| 0 <= k < sections@.len() ==> section_fits(#[trigger] sections@[k]),
        ensures
            addresses_increasing(out@),
            forall|k: int| 0 <= k < out@.len() ==> resolved_match(self.records(),
                self.scan_found(sections@), #[trigger] out@[k]),
            forall|j: int| 0 <= j < self.scan_found(sections@).len()
                && resolvable(self.records(), at_addr(self.scan_found(sections@),
                    #[trigger] self.scan_found(sections@)[j].0))
                ==> exists|k: int| 0 <= k < out@.len() && (#[trigger] out@[k]).address
                    == self.scan_found(sections@)[j].0,
    {
        let es = self.entries_of(sections);
        let ghost ev = es@.map_values(|e: (u32, usize, u32)| entry_view(e));
        let ghost syms = self.records();
        assert(ev == self.scan_found(sections@));
        let mut out: Vec<SceSymbolMatch> = Vec::new();
        let mut last: Option<u32> = None;
        loop
            invariant
                ev == es@.map_values(|e: (u32, usize, u32)| entry_view(e)),
                syms == self.records(),
                forall|q: int| 0 <= q < es@.len() ==> (#[trigger] es@[q]).1 < self.records().len(),
                addresses_increasing(out@),
                last is None ==> out@.len() == 0,
                forall|k: int| 0 <= k < out@.len() ==> !above(last, (#[trigger] out@[k]).address),
                forall|k: int| 0 <= k < out@.len() ==> resolved_match(syms, ev, #[trigger] out@[k]),
                forall|j: int| 0 <= j < ev.len() && !above(last, (#[trigger] ev[j]).0)
                    && resolvable(syms, at_addr(ev, ev[j].0))
                    ==> exists|k: int| 0 <= k < out@.len() && (#[trigger] out@[k]).address == ev[j].0,
            ensures
                forall|t: int| 0 <= t < ev.len() ==> !above(last, (#[trigger] ev[t]).0),
            decreases (match last { None => 0x1_0000_0001int, Some(l) => 0xFFFF_FFFFint - l }),
        {
            let mut nxt: Option<u32> = None;
            let mut j: usize = 0;
            while j < es.len()
                invariant
                    j <= es@.len(),
                    ev == es@.map_values(|e: (u32, usize, u32)| entry_view(e)),
                    nxt is Some ==> (exists|t: int| 0 <= t < j && (#[trigger] ev[t]).0 == nxt->0) && above(last, nxt->0),
                    forall|t: int| 0 <= t < j && above(last, (#[trigger] ev[t]).0) ==> nxt is Some && nxt->0 <= ev[t].0,
                decreases es@.len() - j,
            {
                let b = es[j].0;
                assert(ev[j as int].0 == b);
                let up = match last { None => true, Some(l) => b > l };
                if up {
                    let better = match nxt { None => true, Some(n) => b < n };
                    if better {
                        nxt = Some(b);
                    }
                }
                j = j + 1;
            }
            let a = match nxt {
                None => {
                    assert forall|t: int| 0 <= t < ev.len() implies !above(last, (#[trigger] ev[t]).0) by {}
                    break;
                },
                Some(n) => n,
            };
            let cl = candidates_at(&es, a);
            proof {
                assert forall|q: int| 0 <= q < cl@.len() implies (#[trigger] cl@[q]).0 < self.records().len() by {
                    let t = choose|t: int| 0 <= t < es@.len() && cl@[q].0 == es@[t].1;
                }
            }
            let ghost out0 = out@;
            match self.resolve_at(&cl, a) {
                Some(x) => {
                    out.push(x);
                    proof {
                        assert(pairs_map(cl@) == at_addr(ev, a));
                        assert(resolved_match(syms, ev, x));
                        assert forall|k: int| 0 <= k < out@.len() implies resolved_match(syms, ev, #[trigger] out@[k]) by {
                            if k < out0.len() {
                                assert(out@[k] == out0[k]);
                            }
                        }
                        assert forall|p: int, q: int| 0 <= p < q < out@.len() implies (#[trigger] out@[p]).address < (#[trigger] out@[q]).address by {
                            if q < out0.len() {
                                assert(out@[p] == out0[p] && out@[q] == out0[q]);
                            } else {
                                assert(out@[q] == x);
                                if p < out0.len() {
                                    assert(out@[p] == out0[p]);
                                }
                            }
                        }
                    }
                },
                None => {
                    assert(pairs_map(cl@) == at_addr(ev, a));
                },
            }
            proof {
                assert forall|t: int| 0 <= t < ev.len() && !above(Some(a), (#[trigger] ev[t]).0)
                    && resolvable(syms, at_addr(ev, ev[t].0))
                    implies exists|k: int| 0 <= k < out@.len() && (#[trigger] out@[k]).address == ev[t].0 by {
                    if ev[t].0 == a {
                        assert(out@[out@.len() - 1].address == a);
                    } else {
                        assert(!above(last, ev[t].0));
                        let k = choose|k: int| 0 <= k < out0.len() && (#[trigger] out0[k]).address == ev[t].0;
                        assert(out@[k] == out0[k]);
                    }
                }
                assert forall|k: int| 0 <= k < out@.len() implies !above(Some(a), (#[trigger] out@[k]).address) by {
                    if k < out0.len() {
                        assert(out@[k] == out0[k]);
                    }
                }
            }
            last = Some(a);
        }
        assert forall|j: int| 0 <= j < ev.len() && resolvable(syms, at_addr(ev, #[trigger] ev[j].0))
            implies exists|k: int| 0 <= k < out@.len() && (#[trigger] out@[k]).address == ev[j].0 by {
            assert(!above(last, ev[j].0));
        }
        out
    }
}

proof fn lemma_find_key_update(syms: Seq<SymbolRecord>, k: SymbolKey, i: int, p: int, r: SymbolRecord)
    requires
        0 <= i <= p < syms.len(),
        find_key(syms, k, i) == Some(p),
        record_key(r) == k,
    ensures
        find_key(syms.update(p, r), k, i) == Some(p),
    decreases p - i,
{
    if i < p {
        lemma_find_key_update(syms, k, i + 1, p, r);
    }
}

proof fn lemma_find_key_push(syms: Seq<SymbolRecord>, k: SymbolKey, i: int, r: SymbolRecord)
    requires
        0 <= i <= syms.len(),
        find_key(syms, k, i) is None,
        record_key(r) == k,
    ensures
        find_key(syms.push(r), k, i) == Some(syms.len() as int),
    decreases syms.len() - i,
{
    if i < syms.len() {
        assert(syms.push(r)[i] == syms[i]);
        lemma_find_key_push(syms, k, i + 1, r);
    }
}

/// Adding two records with the same (library, name, hash, variant) leaves
/// the later one: the table is as if only the later had been added.
pub proof fn later_record_with_same_key_wins(syms: Seq<SymbolRecord>, r1: SymbolRecord, r2: SymbolRecord)
    requires
        record_key(r1) == record_key(r2),
    ensures
        with_record(with_record(syms, r1), r2) == with_record(syms, r2),
{
    let k = record_key(r1);
    match find_key(syms, k, 0) {
        Some(i) => {
            lemma_find_key_range(syms, k, 0);
            lemma_find_key_update(syms, k, 0, i, r1);
            assert(syms.update(i, r1).update(i, r2) =~= syms.update(i, r2));
        },
        None => {
            lemma_find_key_push(syms, k, 0, r1);
            assert(syms.push(r1).update(syms.len() as int, r2) =~= syms.push(r2));
        },
    }
}

// ---------------------------------------------------------------------------
// Database text fields
// ---------------------------------------------------------------------------

/// `c` with ASCII lowercase letters made uppercase.
pub open spec fn ascii_upper(c: char) -> char {
    if 'a' <= c && c <= 'z' { ((c as u32) - 32) as char } else { c }
}

/// The relocation kind a (case-insensitive) database name denotes; unknown
/// names mean no relocation.
pub open spec fn spec_parse_relocation(s: Seq<char>) -> RelocationType {
    let u = s.map_values(|c: char| ascii_upper(c));
    if u == "MIPS_26"@ || u == "MIPS26"@ {
        RelocationType::Mips26
    } else if u == "LO16"@ || u == "MIPS_LO16"@ || u == "MIPSLO16"@ {
        RelocationType::MipsLo16
    } else if u == "HI16"@ || u == "MIPS_HI16"@ || u == "MIPSHI16"@ {
        RelocationType::MipsHi16
    } else if u == "MIPS_32"@ || u == "MIPS32"@ {
        RelocationType::Mips32
    } else if u == "MIPS_GPREL16"@ || u == "MIPSGPREL16"@ {
        RelocationType::MipsGpRel16
    } else if u == "MIPS_LITERAL"@ || u == "MIPSLITERAL"@ {
        RelocationType::MipsLiteral
    } else {
        RelocationType::NoRelocation
    }
}

/// `value` with its ASCII lowercase letters made uppercase.
fn upper_ascii(value: &str) -> (r: String)
    ensures
        r@ == value@.map_values(|c: char| ascii_upper(c)),
{
    let mut upper = String::new();
    for ch in it: value.chars()
        invariant
            it.seq() == value@,
            upper@ == value@.take(it.index()).map_values(|c: char| ascii_upper(c)),
    {
        let ghost q = it.index();
        let u = if 'a' <= ch && ch <= 'z' { ((ch as u8) - 32) as char } else { ch };
        assert(u == ascii_upper(ch));
        push_char(&mut upper, u);
        assert(value@.take(q + 1) =~= value@.take(q).push(ch));
        assert(upper@ =~= value@.take(q + 1).map_values(|c: char| ascii_upper(c)));
    }
    assert(value@.take(value@.len() as int) =~= value@);
    upper
}

impl RelocationType {
    /// The relocation kind a database name denotes (case-insensitive
    /// `MIPS_*` names); unknown names, and `NONE`, mean no relocation.
    pub fn parse(value: &str) -> (r: RelocationType)
        ensures
            r == spec_parse_relocation(value@),
    {
        let upper = upper_ascii(value);
        if upper == owned("MIPS_26") || upper == owned("MIPS26") {
            RelocationType::Mips26
        } else if upper == owned("LO16") || upper == owned("MIPS_LO16") || upper == owned("MIPSLO16") {
            RelocationType::MipsLo16
        } else if upper == owned("HI16") || upper == owned("MIPS_HI16") || upper == owned("MIPSHI16") {
            RelocationType::MipsHi16
        } else if upper == owned("MIPS_32") || upper == owned("MIPS32") {
            RelocationType::Mips32
        } else if upper == owned("MIPS_GPREL16") || upper == owned("MIPSGPREL16") {
            RelocationType::MipsGpRel16
        } else if upper == owned("MIPS_LITERAL") || upper == owned("MIPSLITERAL") {
            RelocationType::MipsLiteral
        } else {
            RelocationType::NoRelocation
        }
    }
}

/// A database entry type names a function (`FUNCTION` or `FUNC`, any case).
pub open spec fn spec_is_function_type(t: Seq<char>) -> bool {
    let u = t.map_values(|c: char| ascii_upper(c));
    u == "FUNCTION"@ || u == "FUNC"@
}

/// Whether a database entry's type names a function (`FUNCTION` or `FUNC`,
/// case-insensitive).
pub fn is_function_type(t: &str) -> (b: bool)
    ensures
        b == spec_is_function_type(t@),
{
    let upper = upper_ascii(t);
    upper == owned("FUNCTION") || upper == owned("FUNC")
}

/// The value of a hex digit byte.
pub open spec fn hex_val(b: u8) -> Option<u8> {
    if 0x30 <= b <= 0x39 {
        Some((b - 0x30) as u8)
    } else if 0x61 <= b <= 0x66 {
        Some((b - 0x61 + 10) as u8)
    } else if 0x41 <= b <= 0x46 {
        Some((b - 0x41 + 10) as u8)
    } else {
        None
    }
}

/// The byte a two-character hex field denotes (a leading `+` is allowed).
pub open spec fn pair_val(b0: u8, b1: u8) -> Option<u8> {
    if b0 == 0x2B {
        hex_val(b1)
    } else {
        match (hex_val(b0), hex_val(b1)) {
            (Some(h), Some(l)) => Some((h * 16 + l) as u8),
            _ => None,
        }
    }
}

/// The digest a 40-character hex text denotes, or the error text.
pub open spec fn spec_parse_sha1(text: Seq<char>, bytes: Seq<u8>) -> Result<Seq<u8>, Seq<char>> {
    if bytes.len() != 40 {
        Err("invalid SHA-1 length ("@ + dec_nat(bytes.len()) + "): "@ + text)
    } else if forall|i: int| 0 <= i < 20 ==> (#[trigger] pair_val(bytes[2 * i], bytes[2 * i + 1])) is Some {
        Ok(Seq::new(20, |i: int| pair_val(bytes[2 * i], bytes[2 * i + 1])->0))
    } else {
        Err("invalid hex digit in "@ + text + ": invalid digit found in string"@)
    }
}

/// Byte `2k` starts a character (so the two-byte fields of the text can be
/// cut out).
pub open spec fn even_boundary(b: Seq<u8>, k: int) -> bool {
    vstd::utf8::is_char_boundary(b, 2 * k)
}

fn hex_val_exec(b: u8) -> (r: Option<u8>)
    ensures
        r == hex_val(b),
{
    if 0x30 <= b && b <= 0x39 {
        Some(b - 0x30)
    } else if 0x61 <= b && b <= 0x66 {
        Some(b - 0x61 + 10)
    } else if 0x41 <= b && b <= 0x46 {
        Some(b - 0x41 + 10)
    } else {
        None
    }
}

/// Parse a SHA-1 digest written as 40 hex digits (two per byte, either
/// case).
pub fn parse_sha1(hex: &str) -> (r: Result<[u8; 20], String>)
    requires
        hex.spec_bytes().len() == 40 ==> forall|k: int| 0 <= k <= 20 ==> #[trigger] even_boundary(hex.spec_bytes(), k),
    ensures
        match spec_parse_sha1(hex@, hex.spec_bytes()) {
            Ok(d) => r matches Ok(out) && out@ == d,
            Err(e) => r matches Err(m) && m@ == e,
        },
{
    let bytes = hex.as_bytes();
    if bytes.len() != 40 {
        let mut m = owned("invalid SHA-1 length (");
        push_dec_u64(&mut m, bytes.len() as u64);
        push_str(&mut m, "): ");
        push_str(&mut m, hex);
        return Err(m);
    }
    let mut out: [u8; 20] = [0u8; 20];
    let mut i: usize = 0;
    while i < 20
        invariant
            i <= 20,
            bytes@ == hex.spec_bytes(),
            bytes@.len() == 40,
            forall|k: int| 0 <= k < i ==> (#[trigger] pair_val(bytes@[2 * k], bytes@[2 * k + 1])) is Some
                && out@[k] == pair_val(bytes@[2 * k], bytes@[2 * k + 1])->0,
        decreases 20 - i,
    {
        let b0 = bytes[2 * i];
        let b1 = bytes[2 * i + 1];
        let v: Option<u8> = if b0 == 0x2B {
            hex_val_exec(b1)
        } else {
            match (hex_val_exec(b0), hex_val_exec(b1)) {
                (Some(h), Some(l)) => Some(h * 16 + l),
                _ => None,
            }
        };
        assert(v == pair_val(b0, b1));
        match v {
            Some(x) => {
                out[i] = x;
            },
            None => {
                let mut m = owned("invalid hex digit in ");
                push_str(&mut m, hex);
                push_str(&mut m, ": invalid digit found in string");
                return Err(m);
            },
        }
        i = i + 1;
    }
    assert(out@ =~= Seq::new(20, |i: int| pair_val(bytes@[2 * i], bytes@[2 * i + 1])->0));
    Ok(out)
}

} // verus!
