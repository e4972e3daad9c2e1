//! PS1 binary analysis heuristics over section bytes (little-endian MIPS):
//! string extraction, LUI+ORI constant pairs, interrupt-handler prologues and
//! jump-table dispatch patterns, and their combination over an ELF image's
//! sections.
use vstd::prelude::*;
use crate::cfg::{read_word, word_at};
use crate::engine::{ElfFileInfo, ElfSection};
use crate::text::{contains_str, has_infix, owned, starts_with_str, utf8_lossy, utf8_lossy_text};

verus! {

/// A string found in a read-only data section.
#[derive(Debug)]
pub struct ExtractedString {
    /// Offset of the first byte within the section data.
    pub offset: usize,
    /// The decoded (lossy) string value.
    pub value: String,
    /// Length in bytes (excluding the terminating NUL).
    pub length: usize,
}

/// A LUI+ORI pair that loads a full 32-bit constant into one register.
#[derive(Debug)]
pub struct ConstantPoolEntry {
    pub register: u8,
    pub value: u32,
    pub lui_offset: usize,
    pub ori_offset: usize,
}

/// A prologue that matches PS1 interrupt-handler conventions.
#[derive(Debug)]
pub struct InterruptHandler {
    pub offset: usize,
    pub size: usize,
    pub reasons: Vec<String>,
}

/// A jump-table dispatch (state machine) pattern.
#[derive(Debug)]
pub struct StateMachinePattern {
    pub load_offset: usize,
    pub index_register: u8,
    pub base_register: Option<u8>,
    pub jump_offset: usize,
    pub estimated_entries: u32,
}

/// Everything the heuristics found in an image.
#[derive(Debug)]
pub struct Ps1AnalysisResult {
    pub strings: Vec<ExtractedString>,
    pub constants: Vec<ConstantPoolEntry>,
    pub interrupt_handlers: Vec<InterruptHandler>,
    pub state_machines: Vec<StateMachinePattern>,
}

/// A named view of a section's bytes.
pub struct SectionView<'a> {
    pub name: &'a str,
    pub data: &'a [u8],
}

impl<'a> SectionView<'a> {
    pub fn new(name: &'a str, data: &'a [u8]) -> (v: SectionView<'a>)
        ensures
            v.name == name,
            v.data == data,
    {
        SectionView { name, data }
    }
}

// ---------------------------------------------------------------------------
// Strings
// ---------------------------------------------------------------------------

pub open spec fn printable(b: u8) -> bool {
    0x20 <= b <= 0x7E
}

/// The index of the first byte at or after `i` that is not printable ASCII,
/// or the end.
pub open spec fn run_end(d: Seq<u8>, i: int) -> int
    decreases d.len() - i,
{
    if i < 0 || i >= d.len() || !printable(d[i]) {
        i
    } else {
        run_end(d, i + 1)
    }
}

/// A printable run ending at `e` is NUL-terminated (or ends the data).
pub open spec fn terminated(d: Seq<u8>, e: int) -> bool {
    e >= d.len() || d[e] == 0
}

/// A string as plain values: offset, text, length.
pub type StringView = (usize, Seq<char>, usize);

pub open spec fn string_view(s: ExtractedString) -> StringView {
    (s.offset, s.value@, s.length)
}

/// The strings found from `i` on: every maximal run of printable ASCII that
/// is terminated by a NUL (or by the end of the data) and is at least
/// `min_len` bytes long. A run stopped by any other byte is no string.
pub open spec fn strings_from(d: Seq<u8>, i: int, min_len: int) -> Seq<StringView>
    decreases d.len() - i,
{
    if i < 0 || i >= d.len() {
        Seq::empty()
    } else if printable(d[i]) {
        proof {
            lemma_run_end(d, i);
        }
        let e = run_end(d, i);
        let rest = strings_from(d, e, min_len);
        if terminated(d, e) && e - i >= min_len {
            seq![(i as usize, utf8_lossy_text(d.subrange(i, e)), (e - i) as usize)] + rest
        } else {
            rest
        }
    } else {
        strings_from(d, i + 1, min_len)
    }
}

pub proof fn lemma_run_end(d: Seq<u8>, i: int)
    requires
        0 <= i <= d.len(),
    ensures
        i <= run_end(d, i) <= d.len(),
        i < d.len() && printable(d[i]) ==> i < run_end(d, i),
        run_end(d, i) < d.len() ==> !printable(d[run_end(d, i)]),
        forall|k: int| i <= k < run_end(d, i) ==> printable(d[k]),
    decreases d.len() - i,
{
    if i < d.len() && printable(d[i]) {
        lemma_run_end(d, i + 1);
    }
}

/// Scan `data` for NUL-terminated ASCII strings: runs of printable bytes
/// (0x20..=0x7E) of at least `min_len` bytes that end at a NUL or at the end
/// of the data.
pub fn extract_strings(data: &[u8], min_len: usize) -> (out: Vec<ExtractedString>)
    ensures
        out@.map_values(|s: ExtractedString| string_view(s)) == strings_from(data@, 0, min_len as int),
{
    let ghost d = data@;
    let mut out: Vec<ExtractedString> = Vec::new();
    let mut i: usize = 0;
    while i < data.len()
        invariant
            d == data@,
            i <= d.len(),
            out@.map_values(|s: ExtractedString| string_view(s)) + strings_from(d, i as int, min_len as int)
                == strings_from(d, 0, min_len as int),
        decreases d.len() - i,
    {
        let ghost before = out@.map_values(|s: ExtractedString| string_view(s));
        if 0x20 <= data[i] && data[i] <= 0x7E {
            let start = i;
            proof {
                lemma_run_end(d, start as int);
            }
            while i < data.len() && 0x20 <= data[i] && data[i] <= 0x7E
                invariant
                    d == data@,
                    start <= i <= d.len(),
                    run_end(d, start as int) == run_end(d, i as int),
                decreases d.len() - i,
            {
                i = i + 1;
            }
            let len = i - start;
            if (i == data.len() || data[i] == 0) && len >= min_len {
                let value = utf8_lossy(vstd::slice::slice_subrange(data, start, i));
                out.push(ExtractedString { offset: start, value, length: len });
                assert(out@.map_values(|s: ExtractedString| string_view(s)) =~= before.push(
                    (start, utf8_lossy_text(d.subrange(start as int, i as int)), len),
                ));
                assert(before.push((start, utf8_lossy_text(d.subrange(start as int, i as int)), len)) + strings_from(
                    d,
                    i as int,
                    min_len as int,
                ) =~= before + (seq![(start, utf8_lossy_text(d.subrange(start as int, i as int)), len)] + strings_from(
                    d,
                    i as int,
                    min_len as int,
                )));
            }
        } else {
            i = i + 1;
        }
    }
    assert(out@.map_values(|s: ExtractedString| string_view(s)) + Seq::<StringView>::empty()
        =~= out@.map_values(|s: ExtractedString| string_view(s)));
    out
}

// ---------------------------------------------------------------------------
// Instruction fields
// ---------------------------------------------------------------------------

pub open spec fn op6(w: u32) -> u32 {
    w >> 26u32
}

pub open spec fn field_rt(w: u32) -> u8 {
    ((w >> 16u32) & 0x1Fu32) as u8
}

pub open spec fn field_rs(w: u32) -> u8 {
    ((w >> 21u32) & 0x1Fu32) as u8
}

fn reg_rt(instr: u32) -> (r: u8)
    ensures
        r == field_rt(instr),
{
    ((instr >> 16) & 0x1f) as u8
}

fn reg_rs(instr: u32) -> (r: u8)
    ensures
        r == field_rs(instr),
{
    ((instr >> 21) & 0x1f) as u8
}

// ---------------------------------------------------------------------------
// Constant pools
// ---------------------------------------------------------------------------

/// A constant pair as plain values: register, value, LUI offset, ORI offset.
pub type ConstantView = (u8, u32, usize, usize);

pub open spec fn constant_view(c: ConstantPoolEntry) -> ConstantView {
    (c.register, c.value, c.lui_offset, c.ori_offset)
}

/// `lui $r, hi` (opcode 0x0F) at `i` followed by `ori $r, $r, lo` (opcode
/// 0x0D), with `$r` not `$zero`; both immediates are bits 15..0.
pub open spec fn pair_at(d: Seq<u8>, i: int) -> Option<ConstantView> {
    let lui = word_at(d, i, true);
    let ori = word_at(d, i + 4, true);
    let r = field_rt(lui);
    if op6(lui) == 0x0F && op6(ori) == 0x0D && r != 0 && r == field_rt(ori) && r == field_rs(ori) {
        Some((r, ((lui & 0xFFFFu32) << 16u32) | (ori & 0xFFFFu32), i as usize, (i + 4) as usize))
    } else {
        None
    }
}

/// The pairs found at the first `k` word offsets (0, 4, ..).
pub open spec fn pairs_upto(d: Seq<u8>, k: int) -> Seq<ConstantView>
    decreases k,
{
    if k <= 0 {
        Seq::empty()
    } else {
        match pair_at(d, 4 * (k - 1)) {
            Some(c) => pairs_upto(d, k - 1).push(c),
            None => pairs_upto(d, k - 1),
        }
    }
}

/// How many word offsets `i` have `i + 8` within `len` bytes.
pub open spec fn pair_positions(len: int) -> int {
    if len < 8 { 0 } else { (len - 8) / 4 + 1 }
}

/// Scan a code section for `lui $rx, hi` immediately followed by
/// `ori $rx, $rx, lo` at word offsets; each pair loads `(hi << 16) | lo`.
pub fn identify_constant_pools(data: &[u8]) -> (out: Vec<ConstantPoolEntry>)
    ensures
        out@.map_values(|c: ConstantPoolEntry| constant_view(c)) == pairs_upto(data@, pair_positions(data@.len() as int)),
{
    let mut out: Vec<ConstantPoolEntry> = Vec::new();
    if data.len() < 8 {
        return out;
    }
    let mut i: usize = 0;
    while i <= data.len() - 8
        invariant
            data@.len() >= 8,
            i % 4 == 0,
            i <= data@.len() - 4,
            out@.map_values(|c: ConstantPoolEntry| constant_view(c)) == pairs_upto(data@, (i / 4) as int),
        decreases data@.len() - i,
    {
        let ghost k = i / 4;
        let lui = read_word(data, i, true);
        let ori = read_word(data, i + 4, true);
        let ghost before = out@.map_values(|c: ConstantPoolEntry| constant_view(c));
        if (lui >> 26) == 0x0F && (ori >> 26) == 0x0D {
            let rt_lui = reg_rt(lui);
            let rs_ori = reg_rs(ori);
            let rt_ori = reg_rt(ori);
            if rt_lui != 0 && rt_lui == rt_ori && rt_lui == rs_ori {
                let value = ((lui & 0xffff) << 16) | (ori & 0xffff);
                out.push(ConstantPoolEntry { register: rt_lui, value, lui_offset: i, ori_offset: i + 4 });
                assert(out@.map_values(|c: ConstantPoolEntry| constant_view(c)) =~= before.push(
                    pair_at(data@, 4 * k)->0,
                ));
            }
        }
        assert((i + 4) / 4 == k + 1);
        i = i + 4;
    }
    assert(i / 4 == pair_positions(data@.len() as int));
    out
}

// ---------------------------------------------------------------------------
// Interrupt handlers
// ---------------------------------------------------------------------------

/// `addiu $sp, $sp, imm`.
pub open spec fn is_addiu_sp(w: u32) -> bool {
    (w >> 26u32) & 0x3Fu32 == 0x09 && field_rt(w) == 29 && field_rs(w) == 29
}

/// `jalr`: SPECIAL (opcode 0) with function field 0x09.
pub open spec fn is_jalr(w: u32) -> bool {
    op6(w) == 0 && (w & 0x3Fu32) == 0x09
}

/// The word at `j` exists and is a `jalr`.
pub open spec fn jalr_at(d: Seq<u8>, j: int) -> bool {
    j + 4 <= d.len() && is_jalr(word_at(d, j, true))
}

/// The reasons a prologue at `i` (which stores `$ra`) is flagged.
pub open spec fn handler_reasons(d: Seq<u8>, i: int) -> Seq<Seq<char>> {
    let base = seq!["saves $ra on the stack"@];
    let with_frame = if i + 8 <= d.len() && is_addiu_sp(word_at(d, i + 4, true)) {
        base.push("adjusts stack frame (addiu $sp)"@)
    } else {
        base
    };
    if exists|q: int| 0 <= q < 5 && #[trigger] jalr_at(d, i + 4 * q) {
        with_frame.push("dispatches via jalr (IRQ dispatch)"@)
    } else {
        with_frame
    }
}

/// A handler as plain values: offset, size, reasons.
pub type HandlerView = (usize, usize, Seq<Seq<char>>);

pub open spec fn handler_view(h: InterruptHandler) -> HandlerView {
    (h.offset, h.size, h.reasons@.map_values(|r: String| r@))
}

/// The handler at word offset `i`, if its word is `sw $ra, off(..)` (opcode
/// 0x2B, rt 31) and another signal follows: a frame setup right after it, or
/// a `jalr` among the five words from it.
pub open spec fn handler_at(d: Seq<u8>, i: int) -> Option<HandlerView> {
    let w = word_at(d, i, true);
    if op6(w) == 0x2B && field_rt(w) == 31 && handler_reasons(d, i).len() >= 2 {
        Some((i as usize, 16usize, handler_reasons(d, i)))
    } else {
        None
    }
}

/// The handlers found at the first `k` word offsets.
pub open spec fn handlers_upto(d: Seq<u8>, k: int) -> Seq<HandlerView>
    decreases k,
{
    if k <= 0 {
        Seq::empty()
    } else {
        match handler_at(d, 4 * (k - 1)) {
            Some(h) => handlers_upto(d, k - 1).push(h),
            None => handlers_upto(d, k - 1),
        }
    }
}

/// How many word offsets `i` have `i + 4` within `len` bytes.
pub open spec fn word_positions(len: int) -> int {
    if len < 4 { 0 } else { (len - 4) / 4 + 1 }
}

fn strings_of(v: &Vec<&str>) -> (r: Vec<String>)
    ensures
        r@.map_values(|s: String| s@) == v@.map_values(|s: &str| s@),
{
    let mut r: Vec<String> = Vec::new();
    let mut k: usize = 0;
    while k < v.len()
        invariant
            k <= v@.len(),
            r@.len() == k,
            forall|q: int| 0 <= q < k ==> #[trigger] r@[q]@ == v@[q]@,
        decreases v@.len() - k,
    {
        r.push(owned(v[k]));
        k = k + 1;
    }
    assert(r@.map_values(|s: String| s@) =~= v@.map_values(|s: &str| s@));
    r
}

/// Whether a `jalr` starts at one of `i, i+4, .., i+16`.
fn dispatch_near(data: &[u8], i: usize) -> (b: bool)
    requires
        i <= data@.len(),
    ensures
        b == exists|q: int| 0 <= q < 5 && #[trigger] jalr_at(data@, i + 4 * q),
{
    let mut q: usize = 0;
    while q < 5
        invariant
            q <= 5,
            i <= data@.len(),
            forall|p: int| 0 <= p < q ==> !#[trigger] jalr_at(data@, i + 4 * p),
        decreases 5 - q,
    {
        if data.len() - i >= 4 * q + 4 {
            let cand = read_word(data, i + 4 * q, true);
            if (cand >> 26) == 0 && (cand & 0x3f) == 0x09 {
                assert(jalr_at(data@, i + 4 * q));
                return true;
            }
        }
        q = q + 1;
    }
    false
}

/// Flag word offsets whose word stores `$ra` on the stack (`sw`, opcode
/// 0x2B, rt 31) and that show a second signal: `addiu $sp, $sp, imm` right
/// after, or a `jalr` dispatch among the five words from it. Each is
/// reported with size 16 and its reasons. Buffers under 16 bytes give none.
pub fn detect_interrupt_handlers(data: &[u8]) -> (out: Vec<InterruptHandler>)
    ensures
        out@.map_values(|h: InterruptHandler| handler_view(h)) == (if data@.len() < 16 {
            Seq::<HandlerView>::empty()
        } else {
            handlers_upto(data@, word_positions(data@.len() as int))
        }),
{
    let mut out: Vec<InterruptHandler> = Vec::new();
    if data.len() < 16 {
        return out;
    }
    let mut i: usize = 0;
    while i <= data.len() - 4
        invariant
            data@.len() >= 16,
            i % 4 == 0,
            i <= data@.len(),
            out@.map_values(|h: InterruptHandler| handler_view(h)) == handlers_upto(data@, (i / 4) as int),
        decreases data@.len() - i,
    {
        let ghost k = i / 4;
        let instr = read_word(data, i, true);
        let ghost before = out@.map_values(|h: InterruptHandler| handler_view(h));
        if (instr >> 26) == 0x2B && reg_rt(instr) == 31 {
            let mut reasons: Vec<&str> = Vec::new();
            reasons.push("saves $ra on the stack");
            if data.len() - i >= 8 {
                let next = read_word(data, i + 4, true);
                if ((next >> 26) & 0x3f) == 0x09 && reg_rt(next) == 29 && reg_rs(next) == 29 {
                    reasons.push("adjusts stack frame (addiu $sp)");
                }
            }
            if dispatch_near(data, i) {
                reasons.push("dispatches via jalr (IRQ dispatch)");
            }
            assert(reasons@.map_values(|s: &str| s@) =~= handler_reasons(data@, i as int));
            if reasons.len() >= 2 {
                let rs = strings_of(&reasons);
                out.push(InterruptHandler { offset: i, size: 16, reasons: rs });
                assert(out@.map_values(|h: InterruptHandler| handler_view(h)) =~= before.push(
                    handler_at(data@, 4 * k)->0,
                ));
            }
        }
        assert((i + 4) / 4 == k + 1);
        i = i + 4;
    }
    assert(i / 4 == word_positions(data@.len() as int));
    out
}

// ---------------------------------------------------------------------------
// Jump-table dispatch
// ---------------------------------------------------------------------------

/// A pattern as plain values: load offset, index register, base register,
/// jump offset, estimated entries.
pub type PatternView = (usize, u8, Option<u8>, usize, u32);

pub open spec fn pattern_view(p: StateMachinePattern) -> PatternView {
    (p.load_offset, p.index_register, p.base_register, p.jump_offset, p.estimated_entries)
}

/// A `j` (opcode 2) or a `jalr` starts at `j`.
pub open spec fn dispatch_at(d: Seq<u8>, j: int) -> bool {
    j + 4 <= d.len() && (is_jalr(word_at(d, j, true)) || op6(word_at(d, j, true)) == 0x02)
}

/// The first dispatch word among `i+4, i+8, i+12`.
pub open spec fn first_dispatch(d: Seq<u8>, i: int) -> Option<int> {
    if dispatch_at(d, i + 4) {
        Some(i + 4)
    } else if dispatch_at(d, i + 8) {
        Some(i + 8)
    } else if dispatch_at(d, i + 12) {
        Some(i + 12)
    } else {
        None
    }
}

/// The magnitude of the signed 16-bit offset in bits 15..0 of `w`.
pub open spec fn offset_magnitude(w: u32) -> int {
    let raw = (w & 0xFFFFu32) as int;
    if raw >= 0x8000 { 0x10000 - raw } else { raw }
}

/// The pattern at word offset `i`: `lw $rt, off($base)` (opcode 0x23) with
/// a nonzero offset and a nonzero target register, and a dispatch word
/// within the next three words; the table is estimated at `|off| / 4`
/// entries.
pub open spec fn pattern_at(d: Seq<u8>, i: int) -> Option<PatternView> {
    let w = word_at(d, i, true);
    if op6(w) == 0x23 && (w & 0xFFFFu32) != 0 && field_rt(w) != 0 {
        match first_dispatch(d, i) {
            Some(j) => Some((i as usize, field_rt(w), Some(field_rs(w)), j as usize, (offset_magnitude(w) / 4) as u32)),
            None => None,
        }
    } else {
        None
    }
}

/// The patterns found at the first `k` word offsets.
pub open spec fn patterns_upto(d: Seq<u8>, k: int) -> Seq<PatternView>
    decreases k,
{
    if k <= 0 {
        Seq::empty()
    } else {
        match pattern_at(d, 4 * (k - 1)) {
            Some(p) => patterns_upto(d, k - 1).push(p),
            None => patterns_upto(d, k - 1),
        }
    }
}

/// How many word offsets `i` have `i + 12` within `len` bytes.
pub open spec fn pattern_positions(len: int) -> int {
    if len < 12 { 0 } else { (len - 12) / 4 + 1 }
}

fn find_dispatch(data: &[u8], i: usize) -> (r: Option<usize>)
    requires
        i + 12 <= data@.len(),
    ensures
        match first_dispatch(data@, i as int) {
            Some(j) => r == Some(j as usize),
            None => r is None,
        },
{
    let len = data.len();
    let mut j = i + 4;
    while j - i < 16 && data.len() - j >= 4
        invariant
            i + 12 <= data@.len(),
            i + 4 <= j <= i + 16,
            j <= data@.len(),
            (j - i) % 4 == 0,
            forall|p: int| i + 4 <= p < j && (p - i) % 4 == 0 ==> !#[trigger] dispatch_at(data@, p),
        decreases i + 16 - j,
    {
        let cand = read_word(data, j, true);
        if ((cand >> 26) == 0 && (cand & 0x3f) == 0x09) || (cand >> 26) == 0x02 {
            assert(dispatch_at(data@, j as int));
            return Some(j);
        }
        j = j + 4;
    }
    assert(!dispatch_at(data@, i + 4) && !dispatch_at(data@, i + 8) && !dispatch_at(data@, i + 12)) by {
        if j < i + 16 {
            assert(j + 4 > data@.len());
        }
    }
    None
}

/// Detect jump-table dispatch: an indexed load `lw $rt, off($base)` with a
/// nonzero offset, followed within three words by a `j` or `jalr`.
/// Buffers under 12 bytes give none.
pub fn detect_state_machines(data: &[u8]) -> (out: Vec<StateMachinePattern>)
    ensures
        out@.map_values(|p: StateMachinePattern| pattern_view(p)) == patterns_upto(
            data@,
            pattern_positions(data@.len() as int),
        ),
{
    let mut out: Vec<StateMachinePattern> = Vec::new();
    if data.len() < 12 {
        return out;
    }
    let mut i: usize = 0;
    while i <= data.len() - 12
        invariant
            data@.len() >= 12,
            i % 4 == 0,
            i <= data@.len() - 8,
            out@.map_values(|p: StateMachinePattern| pattern_view(p)) == patterns_upto(data@, (i / 4) as int),
        decreases data@.len() - i,
    {
        let ghost k = i / 4;
        let load = read_word(data, i, true);
        let ghost before = out@.map_values(|p: StateMachinePattern| pattern_view(p));
        if (load >> 26) == 0x23 {
            let rt = reg_rt(load);
            let base = reg_rs(load);
            let raw = load & 0xffff;
            assert(load & 0xffff <= 0xffff) by (bit_vector);
            let offset = if raw >= 0x8000 { 0x10000 - raw } else { raw };
            if raw != 0 && rt != 0 {
                match find_dispatch(data, i) {
                    Some(j) => {
                        out.push(StateMachinePattern {
                            load_offset: i,
                            index_register: rt,
                            base_register: Some(base),
                            jump_offset: j,
                            estimated_entries: offset / 4,
                        });
                        assert(out@.map_values(|p: StateMachinePattern| pattern_view(p)) =~= before.push(
                            pattern_at(data@, 4 * k)->0,
                        ));
                    },
                    None => {},
                }
            }
        }
        assert((i + 4) / 4 == k + 1);
        i = i + 4;
    }
    assert(i / 4 == pattern_positions(data@.len() as int));
    out
}


// ---------------------------------------------------------------------------
// Whole images
// ---------------------------------------------------------------------------

/// A read-only data section: its name contains `rodata`, or is `.data.rel.ro`.
pub open spec fn rodata_like(name: Seq<char>) -> bool {
    has_infix(name, "rodata"@) || name == ".data.rel.ro"@
}

/// A code section: its name starts with `.text`, or is `.init` or `.fini`.
pub open spec fn code_like(name: Seq<char>) -> bool {
    (name.len() >= 5 && name.take(5) == ".text"@) || name == ".init"@ || name == ".fini"@
}

/// The strings of the read-only data sections among the first `n`, in order.
pub open spec fn all_strings(secs: Seq<ElfSection>, n: int) -> Seq<StringView>
    decreases n,
{
    if n <= 0 {
        Seq::empty()
    } else {
        let s = secs[n - 1];
        all_strings(secs, n - 1) + if rodata_like(s.name@) { strings_from(s.data@, 0, 4) } else { Seq::empty() }
    }
}

/// A section that is code and not read-only data.
pub open spec fn scanned_code(s: ElfSection) -> bool {
    !rodata_like(s.name@) && code_like(s.name@)
}

/// The constant pairs of the code sections among the first `n`.
pub open spec fn all_constants(secs: Seq<ElfSection>, n: int) -> Seq<ConstantView>
    decreases n,
{
    if n <= 0 {
        Seq::empty()
    } else {
        let s = secs[n - 1];
        all_constants(secs, n - 1) + if scanned_code(s) {
            pairs_upto(s.data@, pair_positions(s.data@.len() as int))
        } else {
            Seq::empty()
        }
    }
}

/// The interrupt handlers of the code sections among the first `n`.
pub open spec fn all_handlers(secs: Seq<ElfSection>, n: int) -> Seq<HandlerView>
    decreases n,
{
    if n <= 0 {
        Seq::empty()
    } else {
        let s = secs[n - 1];
        all_handlers(secs, n - 1) + if scanned_code(s) && s.data@.len() >= 16 {
            handlers_upto(s.data@, word_positions(s.data@.len() as int))
        } else {
            Seq::empty()
        }
    }
}

/// The dispatch patterns of the code sections among the first `n`.
pub open spec fn all_patterns(secs: Seq<ElfSection>, n: int) -> Seq<PatternView>
    decreases n,
{
    if n <= 0 {
        Seq::empty()
    } else {
        let s = secs[n - 1];
        all_patterns(secs, n - 1) + if scanned_code(s) {
            patterns_upto(s.data@, pattern_positions(s.data@.len() as int))
        } else {
            Seq::empty()
        }
    }
}

fn append_strings(out: &mut Vec<ExtractedString>, more: Vec<ExtractedString>)
    ensures
        final(out)@.map_values(|s: ExtractedString| string_view(s)) == old(out)@.map_values(|s: ExtractedString| string_view(s))
            + more@.map_values(|s: ExtractedString| string_view(s)),
{
    let mut more = more;
    let ghost o = out@;
    let ghost m = more@;
    out.append(&mut more);
    assert(out@.map_values(|s: ExtractedString| string_view(s)) =~= o.map_values(|s: ExtractedString| string_view(s))
        + m.map_values(|s: ExtractedString| string_view(s)));
}

/// Run the four heuristics over an image's sections: strings (of at least
/// four bytes) from read-only data sections, and constant pairs, interrupt
/// handlers and dispatch patterns from code sections, each list in section
/// order.
pub fn analyze_ps1_sections(info: &ElfFileInfo) -> (r: Ps1AnalysisResult)
    ensures
        r.strings@.map_values(|s: ExtractedString| string_view(s)) == all_strings(info.sections@, info.sections@.len() as int),
        r.constants@.map_values(|c: ConstantPoolEntry| constant_view(c)) == all_constants(
            info.sections@,
            info.sections@.len() as int,
        ),
        r.interrupt_handlers@.map_values(|h: InterruptHandler| handler_view(h)) == all_handlers(
            info.sections@,
            info.sections@.len() as int,
        ),
        r.state_machines@.map_values(|p: StateMachinePattern| pattern_view(p)) == all_patterns(
            info.sections@,
            info.sections@.len() as int,
        ),
{
    let ghost secs = info.sections@;
    let mut strings: Vec<ExtractedString> = Vec::new();
    let mut constants: Vec<ConstantPoolEntry> = Vec::new();
    let mut interrupt_handlers: Vec<InterruptHandler> = Vec::new();
    let mut state_machines: Vec<StateMachinePattern> = Vec::new();
    let mut k: usize = 0;
    while k < info.sections.len()
        invariant
            secs == info.sections@,
            k <= secs.len(),
            strings@.map_values(|s: ExtractedString| string_view(s)) == all_strings(secs, k as int),
            constants@.map_values(|c: ConstantPoolEntry| constant_view(c)) == all_constants(secs, k as int),
            interrupt_handlers@.map_values(|h: InterruptHandler| handler_view(h)) == all_handlers(secs, k as int),
            state_machines@.map_values(|p: StateMachinePattern| pattern_view(p)) == all_patterns(secs, k as int),
        decreases secs.len() - k,
    {
        let s = &info.sections[k];
        let name = s.name.as_str();
        let rodata = contains_str(name, "rodata") || s.name == owned(".data.rel.ro");
        let code = starts_with_str(name, ".text") || s.name == owned(".init") || s.name == owned(".fini");
        proof {
            reveal_strlit("rodata");
            reveal_strlit(".text");
        }
        let ghost s0 = strings@.map_values(|x: ExtractedString| string_view(x));
        let ghost c0 = constants@.map_values(|x: ConstantPoolEntry| constant_view(x));
        let ghost h0 = interrupt_handlers@.map_values(|x: InterruptHandler| handler_view(x));
        let ghost p0 = state_machines@.map_values(|x: StateMachinePattern| pattern_view(x));
        if rodata {
            let found = extract_strings(s.data.as_slice(), 4);
            append_strings(&mut strings, found);
            assert(c0 + Seq::<ConstantView>::empty() =~= c0);
            assert(h0 + Seq::<HandlerView>::empty() =~= h0);
            assert(p0 + Seq::<PatternView>::empty() =~= p0);
        } else if code {
            let mut found_c = identify_constant_pools(s.data.as_slice());
            let ghost fc = found_c@;
            constants.append(&mut found_c);
            let mut found_h = detect_interrupt_handlers(s.data.as_slice());
            let ghost fh = found_h@;
            interrupt_handlers.append(&mut found_h);
            let mut found_p = detect_state_machines(s.data.as_slice());
            let ghost fp = found_p@;
            state_machines.append(&mut found_p);
            assert(s0 + Seq::<StringView>::empty() =~= s0);
            assert(constants@.map_values(|x: ConstantPoolEntry| constant_view(x)) =~= c0 + fc.map_values(
                |x: ConstantPoolEntry| constant_view(x),
            ));
            assert(interrupt_handlers@.map_values(|x: InterruptHandler| handler_view(x)) =~= h0
                + fh.map_values(|x: InterruptHandler| handler_view(x)));
            assert(state_machines@.map_values(|x: StateMachinePattern| pattern_view(x)) =~= p0
                + fp.map_values(|x: StateMachinePattern| pattern_view(x)));
        } else {
            assert(s0 + Seq::<StringView>::empty() =~= s0);
            assert(c0 + Seq::<ConstantView>::empty() =~= c0);
            assert(h0 + Seq::<HandlerView>::empty() =~= h0);
            assert(p0 + Seq::<PatternView>::empty() =~= p0);
        }
        k = k + 1;
    }
    Ps1AnalysisResult { strings, constants, interrupt_handlers, state_machines }
}

} // verus!
