//! Projects: the user's annotation layer over a binary (names, comments and
//! signatures per address, byte patches, notes), applied back over detected
//! functions and section bytes.
use vstd::prelude::*;
use std::collections::BTreeMap;
use crate::text::owned;

verus! {

broadcast use vstd::laws_cmp::group_laws_cmp, vstd::std_specs::btree::group_btree_axioms;

/// A user annotation on a single address.
#[derive(Debug, Clone)]
pub struct Annotation {
    pub name: Option<String>,
    pub comment: Option<String>,
    pub signature: Option<String>,
}

impl Default for Annotation {
    fn default() -> (a: Annotation)
        ensures
            a.name is None && a.comment is None && a.signature is None,
    {
        Annotation { name: None, comment: None, signature: None }
    }
}

/// A byte patch the user applied to the binary.
#[derive(Debug, Clone)]
pub struct Patch {
    pub address: u32,
    pub bytes: Vec<u8>,
    pub note: Option<String>,
}

/// An Aura project.
#[derive(Debug, Clone)]
pub struct AuraProject {
    pub version: u32,
    pub binary_path: String,
    pub binary_sha1: Option<String>,
    pub binary_name: Option<String>,
    pub annotations: BTreeMap<u32, Annotation>,
    pub patches: Vec<Patch>,
    pub notes: Option<String>,
}

pub open spec fn text_opt(o: Option<String>) -> Option<Seq<char>> {
    match o {
        Some(s) => Some(s@),
        None => None,
    }
}

/// An annotation as plain values: name, comment, signature.
pub type AnnView = (Option<Seq<char>>, Option<Seq<char>>, Option<Seq<char>>);

pub open spec fn ann_view(a: Annotation) -> AnnView {
    (text_opt(a.name), text_opt(a.comment), text_opt(a.signature))
}

/// The annotations of a project as plain values.
pub open spec fn annotations_view(m: Map<u32, Annotation>) -> Map<u32, AnnView> {
    Map::new(|k: u32| m.contains_key(k), |k: u32| ann_view(m[k]))
}

/// The annotation at `addr` (all empty when there is none).
pub open spec fn ann_at(m: Map<u32, AnnView>, addr: u32) -> AnnView {
    if m.contains_key(addr) { m[addr] } else { (None, None, None) }
}

/// A patch as plain values.
pub open spec fn patch_view(p: Patch) -> (u32, Seq<u8>, Option<Seq<char>>) {
    (p.address, p.bytes@, text_opt(p.note))
}

/// Everything but the annotations and patches, as plain values.
pub open spec fn header_view(p: AuraProject) -> (u32, Seq<char>, Option<Seq<char>>, Option<Seq<char>>, Option<Seq<char>>) {
    (p.version, p.binary_path@, text_opt(p.binary_sha1), text_opt(p.binary_name), text_opt(p.notes))
}

impl Default for AuraProject {
    fn default() -> (p: AuraProject)
        ensures
            header_view(p) == (1u32, Seq::<char>::empty(), None::<Seq<char>>, None::<Seq<char>>, None::<Seq<char>>),
            p.annotations@ == Map::<u32, Annotation>::empty(),
            p.patches@.len() == 0,
    {
        AuraProject {
            version: 1,
            binary_path: String::new(),
            binary_sha1: None,
            binary_name: None,
            annotations: BTreeMap::new(),
            patches: Vec::new(),
            notes: None,
        }
    }
}

impl AuraProject {
    /// Take the annotation at `addr` out of the map (an empty one when there is none).
    fn take_annotation(&mut self, addr: u32) -> (a: Annotation)
        ensures
            ann_view(a) == ann_at(annotations_view(old(self).annotations@), addr),
            final(self).annotations@ == old(self).annotations@.remove(addr),
            final(self).patches@ == old(self).patches@,
            header_view(*final(self)) == header_view(*old(self)),
    {
        match self.annotations.remove(&addr) {
            Some(a) => a,
            None => Annotation::default(),
        }
    }

    /// Name the function at `addr`.
    pub fn rename(&mut self, addr: u32, name: String)
        ensures
            annotations_view(final(self).annotations@) == annotations_view(old(self).annotations@).insert(
                addr,
                (Some(name@), ann_at(annotations_view(old(self).annotations@), addr).1, ann_at(
                    annotations_view(old(self).annotations@),
                    addr,
                ).2),
            ),
            final(self).patches@ == old(self).patches@,
            header_view(*final(self)) == header_view(*old(self)),
    {
        let mut a = self.take_annotation(addr);
        a.name = Some(name);
        self.annotations.insert(addr, a);
        assert(annotations_view(self.annotations@) =~= annotations_view(old(self).annotations@).insert(
            addr,
            (Some(name@), ann_at(annotations_view(old(self).annotations@), addr).1, ann_at(
                annotations_view(old(self).annotations@),
                addr,
            ).2),
        ));
    }

    /// Comment the address `addr`.
    pub fn comment(&mut self, addr: u32, text: String)
        ensures
            annotations_view(final(self).annotations@) == annotations_view(old(self).annotations@).insert(
                addr,
                (ann_at(annotations_view(old(self).annotations@), addr).0, Some(text@), ann_at(
                    annotations_view(old(self).annotations@),
                    addr,
                ).2),
            ),
            final(self).patches@ == old(self).patches@,
            header_view(*final(self)) == header_view(*old(self)),
    {
        let mut a = self.take_annotation(addr);
        a.comment = Some(text);
        self.annotations.insert(addr, a);
        assert(annotations_view(self.annotations@) =~= annotations_view(old(self).annotations@).insert(
            addr,
            (ann_at(annotations_view(old(self).annotations@), addr).0, Some(text@), ann_at(
                annotations_view(old(self).annotations@),
                addr,
            ).2),
        ));
    }

    /// Give the function at `addr` a type signature.
    pub fn signature(&mut self, addr: u32, sig: String)
        ensures
            annotations_view(final(self).annotations@) == annotations_view(old(self).annotations@).insert(
                addr,
                (ann_at(annotations_view(old(self).annotations@), addr).0, ann_at(
                    annotations_view(old(self).annotations@),
                    addr,
                ).1, Some(sig@)),
            ),
            final(self).patches@ == old(self).patches@,
            header_view(*final(self)) == header_view(*old(self)),
    {
        let mut a = self.take_annotation(addr);
        a.signature = Some(sig);
        self.annotations.insert(addr, a);
        assert(annotations_view(self.annotations@) =~= annotations_view(old(self).annotations@).insert(
            addr,
            (ann_at(annotations_view(old(self).annotations@), addr).0, ann_at(
                annotations_view(old(self).annotations@),
                addr,
            ).1, Some(sig@)),
        ));
    }

    /// Record a byte patch.
    pub fn patch(&mut self, addr: u32, bytes: Vec<u8>, note: Option<String>)
        ensures
            final(self).patches@.map_values(|p: Patch| patch_view(p)) == old(self).patches@.map_values(
                |p: Patch| patch_view(p),
            ).push((addr, bytes@, text_opt(note))),
            final(self).annotations@ == old(self).annotations@,
            header_view(*final(self)) == header_view(*old(self)),
    {
        let ghost o = self.patches@.map_values(|p: Patch| patch_view(p));
        let p = Patch { address: addr, bytes, note };
        self.patches.push(p);
        assert(self.patches@.map_values(|p: Patch| patch_view(p)) =~= o.push(patch_view(p)));
    }

    /// The user's name for `addr`, if any.
    pub fn name_at(&self, addr: u32) -> (r: Option<&str>)
        ensures
            match r {
                Some(s) => ann_at(annotations_view(self.annotations@), addr).0 == Some(s@),
                None => ann_at(annotations_view(self.annotations@), addr).0 is None,
            },
    {
        match self.annotations.get(&addr) {
            Some(a) => match &a.name {
                Some(n) => Some(n.as_str()),
                None => None,
            },
            None => None,
        }
    }

    /// The user's comment at `addr`, if any.
    pub fn comment_at(&self, addr: u32) -> (r: Option<&str>)
        ensures
            match r {
                Some(s) => ann_at(annotations_view(self.annotations@), addr).1 == Some(s@),
                None => ann_at(annotations_view(self.annotations@), addr).1 is None,
            },
    {
        match self.annotations.get(&addr) {
            Some(a) => match &a.comment {
                Some(n) => Some(n.as_str()),
                None => None,
            },
            None => None,
        }
    }
}

/// The function `(address, name)` with the project's name for its address
/// when there is one.
pub open spec fn renamed(f: (u32, String), m: Map<u32, AnnView>) -> (u32, Seq<char>) {
    match ann_at(m, f.0).0 {
        Some(n) => (f.0, n),
        None => (f.0, f.1@),
    }
}

/// Rename detected functions after the project: each function whose start
/// address has a user name takes it.
pub fn apply_project_to_functions(functions: &[(u32, String)], proj: &AuraProject) -> (r: Vec<(u32, String)>)
    ensures
        r@.map_values(|f: (u32, String)| (f.0, f.1@)) == functions@.map_values(
            |f: (u32, String)| renamed(f, annotations_view(proj.annotations@)),
        ),
{
    let ghost m = annotations_view(proj.annotations@);
    let mut r: Vec<(u32, String)> = Vec::new();
    let mut k: usize = 0;
    while k < functions.len()
        invariant
            k <= functions@.len(),
            m == annotations_view(proj.annotations@),
            r@.map_values(|f: (u32, String)| (f.0, f.1@)) == functions@.take(k as int).map_values(
                |f: (u32, String)| renamed(f, m),
            ),
        decreases functions@.len() - k,
    {
        let addr = functions[k].0;
        let n = match proj.name_at(addr) {
            Some(s) => owned(s),
            None => functions[k].1.clone(),
        };
        let ghost before = r@.map_values(|f: (u32, String)| (f.0, f.1@));
        r.push((addr, n));
        assert(r@.map_values(|f: (u32, String)| (f.0, f.1@)) =~= functions@.take(k + 1).map_values(
            |f: (u32, String)| renamed(f, m),
        )) by {
            assert(r@.map_values(|f: (u32, String)| (f.0, f.1@)) =~= before.push((addr, n@)));
        }
        k = k + 1;
    }
    assert(functions@.take(k as int) =~= functions@);
    r
}

/// Patch `p` lands inside section bytes of length `len` loaded at `base`.
pub open spec fn patch_fits(p: (u32, Seq<u8>, Option<Seq<char>>), base: u32, len: int) -> bool {
    p.0 >= base && (p.0 - base) + p.1.len() <= len
}

/// The bytes after applying the first `n` patches that fit, in order.
pub open spec fn patched(d: Seq<u8>, ps: Seq<(u32, Seq<u8>, Option<Seq<char>>)>, base: u32, n: int) -> Seq<u8>
    decreases n,
{
    if n <= 0 {
        d
    } else {
        let prev = patched(d, ps, base, n - 1);
        let p = ps[n - 1];
        if patch_fits(p, base, d.len() as int) {
            let off = p.0 - base;
            prev.take(off) + p.1 + prev.skip(off + p.1.len())
        } else {
            prev
        }
    }
}

/// How many of the first `n` patches fit.
pub open spec fn fitting(ps: Seq<(u32, Seq<u8>, Option<Seq<char>>)>, base: u32, len: int, n: int) -> nat
    decreases n,
{
    if n <= 0 {
        0
    } else {
        fitting(ps, base, len, n - 1) + if patch_fits(ps[n - 1], base, len) { 1nat } else { 0nat }
    }
}

proof fn lemma_patched_len(d: Seq<u8>, ps: Seq<(u32, Seq<u8>, Option<Seq<char>>)>, base: u32, n: int)
    ensures
        patched(d, ps, base, n).len() == d.len(),
    decreases n,
{
    if n > 0 {
        lemma_patched_len(d, ps, base, n - 1);
    }
}

/// Apply the project's byte patches to section bytes loaded at `base`, in
/// order; a patch is applied when it starts at or after `base` and ends
/// within the bytes. Returns how many were applied.
pub fn apply_patches(data: &mut Vec<u8>, base: u32, proj: &AuraProject) -> (applied: usize)
    ensures
        final(data)@ == patched(
            old(data)@,
            proj.patches@.map_values(|p: Patch| patch_view(p)),
            base,
            proj.patches@.len() as int,
        ),
        applied == fitting(
            proj.patches@.map_values(|p: Patch| patch_view(p)),
            base,
            old(data)@.len() as int,
            proj.patches@.len() as int,
        ),
{
    let ghost d = data@;
    let ghost ps = proj.patches@.map_values(|p: Patch| patch_view(p));
    let mut applied: usize = 0;
    let mut k: usize = 0;
    while k < proj.patches.len()
        invariant
            k <= proj.patches@.len(),
            ps == proj.patches@.map_values(|p: Patch| patch_view(p)),
            data@ == patched(d, ps, base, k as int),
            data@.len() == d.len(),
            applied == fitting(ps, base, d.len() as int, k as int),
            applied <= k,
        decreases proj.patches@.len() - k,
    {
        let p = &proj.patches[k];
        let ghost prev = data@;
        if p.address >= base {
            let off = (p.address - base) as usize;
            if off <= data.len() && p.bytes.len() <= data.len() - off {
                let len = data.len();
                let mut j: usize = 0;
                while j < p.bytes.len()
                    invariant
                        len == data@.len(),
                        j <= p.bytes@.len(),
                        off + p.bytes@.len() <= data@.len(),
                        data@.len() == prev.len(),
                        data@ == prev.take(off as int) + p.bytes@.take(j as int) + prev.skip(off + j),
                    decreases p.bytes@.len() - j,
                {
                    data.set(off + j, p.bytes[j]);
                    assert(data@ =~= prev.take(off as int) + p.bytes@.take(j + 1) + prev.skip(off + j + 1));
                    j = j + 1;
                }
                assert(p.bytes@.take(j as int) =~= p.bytes@);
                applied = applied + 1;
            }
        }
        proof {
            lemma_patched_len(d, ps, base, k as int);
        }
        k = k + 1;
    }
    applied
}

/// The last fitting patch among the first `n` that covers byte `i`, as the
/// byte it writes there.
pub open spec fn last_cover(ps: Seq<(u32, Seq<u8>, Option<Seq<char>>)>, base: u32, len: int, n: int, i: int) -> Option<u8>
    decreases n,
{
    if n <= 0 {
        None
    } else {
        let p = ps[n - 1];
        let off = p.0 - base;
        if patch_fits(p, base, len) && off <= i < off + p.1.len() {
            Some(p.1[i - off])
        } else {
            last_cover(ps, base, len, n - 1, i)
        }
    }
}

proof fn lemma_patched_at(d: Seq<u8>, ps: Seq<(u32, Seq<u8>, Option<Seq<char>>)>, base: u32, n: int, i: int)
    requires
        0 <= i < d.len(),
    ensures
        patched(d, ps, base, n)[i] == match last_cover(ps, base, d.len() as int, n, i) {
            Some(b) => b,
            None => d[i],
        },
    decreases n,
{
    if n > 0 {
        lemma_patched_at(d, ps, base, n - 1, i);
        lemma_patched_len(d, ps, base, n - 1);
        let prev = patched(d, ps, base, n - 1);
        let p = ps[n - 1];
        if patch_fits(p, base, d.len() as int) {
            let off = p.0 - base;
            let r = prev.take(off) + p.1 + prev.skip(off + p.1.len());
            if i < off {
                assert(r[i] == prev[i]);
            } else if i < off + p.1.len() {
                assert(r[i] == p.1[i - off]);
            } else {
                assert(r[i] == prev[i]);
            }
        }
    }
}

/// Patching is idempotent: applying a project's patches to bytes that
/// already carry them changes nothing.
pub proof fn patches_applied_twice_equal_once(d: Seq<u8>, ps: Seq<(u32, Seq<u8>, Option<Seq<char>>)>, base: u32)
    ensures
        patched(patched(d, ps, base, ps.len() as int), ps, base, ps.len() as int) == patched(d, ps, base, ps.len() as int),
{
    let n = ps.len() as int;
    let once = patched(d, ps, base, n);
    lemma_patched_len(d, ps, base, n);
    lemma_patched_len(once, ps, base, n);
    assert forall|i: int| 0 <= i < d.len() implies patched(once, ps, base, n)[i] == once[i] by {
        lemma_patched_at(d, ps, base, n, i);
        lemma_patched_at(once, ps, base, n, i);
    }
    assert(patched(once, ps, base, n) =~= once);
}

/// Patches keep the length of the bytes they are applied to.
pub proof fn patches_keep_length(d: Seq<u8>, ps: Seq<(u32, Seq<u8>, Option<Seq<char>>)>, base: u32)
    ensures
        patched(d, ps, base, ps.len() as int).len() == d.len(),
{
    lemma_patched_len(d, ps, base, ps.len() as int);
}

/// A name given with `rename` is what `name_at` reads back; the comment and
/// signature at that address, and every other address, are untouched.
pub proof fn rename_is_read_back(m: Map<u32, AnnView>, addr: u32, name: Seq<char>)
    ensures
        ({
            let after = m.insert(addr, (Some(name), ann_at(m, addr).1, ann_at(m, addr).2));
            &&& ann_at(after, addr).0 == Some(name)
            &&& ann_at(after, addr).1 == ann_at(m, addr).1
            &&& ann_at(after, addr).2 == ann_at(m, addr).2
            &&& forall|a: u32| a != addr ==> ann_at(after, a) == ann_at(m, a)
        }),
{
}

/// A comment given with `comment` is what `comment_at` reads back; the name
/// at that address and every other address are untouched.
pub proof fn comment_is_read_back(m: Map<u32, AnnView>, addr: u32, text: Seq<char>)
    ensures
        ({
            let after = m.insert(addr, (ann_at(m, addr).0, Some(text), ann_at(m, addr).2));
            &&& ann_at(after, addr).1 == Some(text)
            &&& ann_at(after, addr).0 == ann_at(m, addr).0
            &&& forall|a: u32| a != addr ==> ann_at(after, a) == ann_at(m, a)
        }),
{
}

/// After a rename, applying the project to the function list gives the
/// function at that address the new name.
pub proof fn renamed_function_takes_new_name(m: Map<u32, AnnView>, addr: u32, name: Seq<char>, f: (u32, String))
    requires
        f.0 == addr,
    ensures
        renamed(f, m.insert(addr, (Some(name), ann_at(m, addr).1, ann_at(m, addr).2))) == (addr, name),
{
}

/// What a script run reports.
#[derive(Debug, Clone)]
pub struct ScriptResult {
    pub success: bool,
    pub output: String,
    pub annotation_count: usize,
    pub patch_count: usize,
    pub project_json: String,
}

/// The context a script runs in.
pub struct ScriptContext {
    pub binary_path: String,
    pub project: AuraProject,
    pub functions: Vec<(u32, String)>,
    pub code_data: Vec<u8>,
    pub code_base: u32,
    pub is_le: bool,
}

/// A failed run reporting `msg`.
pub fn err_result(msg: String) -> (r: ScriptResult)
    ensures
        !r.success,
        r.output@ == msg@,
        r.annotation_count == 0,
        r.patch_count == 0,
        r.project_json@ == "{}"@,
{
    ScriptResult { success: false, output: msg, annotation_count: 0, patch_count: 0, project_json: owned("{}") }
}

} // verus!
