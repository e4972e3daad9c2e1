//! PS4/PS5 NID → symbol-name database (aerolib-compatible).
//!
//! Orbis binaries name SDK imports and exports by NID rather than by symbol
//! name. An aerolib-style text table maps NIDs back to C symbol names: one
//! record per line, `NID<delim>NAME`, where the delimiter is the first comma
//! or whitespace character. Blank lines, `#` comments and lines without a
//! delimiter are skipped; a later record for the same NID replaces an earlier
//! one.
use vstd::prelude::*;
use crate::text::{ltrim, push_char, rtrim, trim_set};

verus! {

/// The Unicode `White_Space` property, which `char::is_whitespace` tests.
pub open spec fn white_space(c: char) -> bool {
    let u = c as u32;
    ||| 0x09 <= u <= 0x0D
    ||| u == 0x20 || u == 0x85 || u == 0xA0 || u == 0x1680
    ||| 0x2000 <= u <= 0x200A
    ||| u == 0x2028 || u == 0x2029 || u == 0x202F || u == 0x205F || u == 0x3000
}

/// Whether `c` has the Unicode `White_Space` property (as `char::is_whitespace`).
fn is_whitespace(c: char) -> (b: bool)
    ensures
        b == white_space(c),
{
    let u = c as u32;
    (0x09 <= u && u <= 0x0D) || u == 0x20 || u == 0x85 || u == 0xA0 || u == 0x1680 || (0x2000 <= u && u <= 0x200A)
        || u == 0x2028 || u == 0x2029 || u == 0x202F || u == 0x205F || u == 0x3000
}

/// The characters trimmed from both ends of every line.
pub open spec fn line_pad() -> Set<char> {
    set!['\r', '\n', ' ', '\t']
}

/// A record delimiter: a comma or any whitespace character.
pub open spec fn is_delim(c: char) -> bool {
    c == ',' || white_space(c)
}

/// Index of the first delimiter of `s` at or after `i` (`s.len()` when none).
pub open spec fn first_delim(s: Seq<char>, i: int) -> int
    decreases s.len() - i,
{
    if i >= s.len() {
        s.len() as int
    } else if is_delim(s[i]) {
        i
    } else {
        first_delim(s, i + 1)
    }
}

/// `s` without its leading delimiters.
pub open spec fn skip_delims(s: Seq<char>) -> Seq<char>
    decreases s.len(),
{
    if s.len() > 0 && is_delim(s[0]) {
        skip_delims(s.drop_first())
    } else {
        s
    }
}

/// The (NID, name) record a line holds, if any.
pub open spec fn parse_record(seg: Seq<char>) -> Option<(Seq<char>, Seq<char>)> {
    let line = trim_set(seg, line_pad());
    if line.len() == 0 || line[0] == '#' {
        None
    } else {
        let idx = first_delim(line, 0);
        if idx >= line.len() {
            None
        } else {
            let nid = line.take(idx);
            let name = skip_delims(line.skip(idx));
            if nid.len() == 0 || name.len() == 0 {
                None
            } else {
                Some((nid, name))
            }
        }
    }
}

/// The text split at every `'\n'`: the pieces between newlines, the last one
/// after the final newline (empty when the text ends with one).
pub open spec fn segments(t: Seq<char>) -> Seq<Seq<char>>
    decreases t.len(),
{
    if t.len() == 0 {
        seq![Seq::<char>::empty()]
    } else {
        let prev = segments(t.drop_last());
        if t.last() == '\n' {
            prev.push(Seq::<char>::empty())
        } else {
            prev.update(prev.len() - 1, prev.last().push(t.last()))
        }
    }
}

/// The database that the lines `segs` build, in order: each record sets its
/// NID's name.
pub open spec fn nid_map(segs: Seq<Seq<char>>) -> Map<Seq<char>, Seq<char>>
    decreases segs.len(),
{
    if segs.len() == 0 {
        Map::empty()
    } else {
        let m = nid_map(segs.drop_last());
        match parse_record(segs.last()) {
            Some(r) => m.insert(r.0, r.1),
            None => m,
        }
    }
}

/// The database that a whole text builds.
pub open spec fn csv_map(t: Seq<char>) -> Map<Seq<char>, Seq<char>> {
    nid_map(segments(t))
}

/// The map that a list of (NID, name) pairs denotes.
pub open spec fn pairs_map(s: Seq<(String, String)>) -> Map<Seq<char>, Seq<char>>
    decreases s.len(),
{
    if s.len() == 0 {
        Map::empty()
    } else {
        pairs_map(s.drop_last()).insert(s.last().0@, s.last().1@)
    }
}

/// No NID occurs twice.
pub open spec fn keys_distinct(s: Seq<(String, String)>) -> bool {
    forall|i: int, j: int| 0 <= i < j < s.len() ==> #[trigger] s[i].0@ != #[trigger] s[j].0@
}

/// A loaded NID → symbol-name database.
#[derive(Debug)]
pub struct NidDb {
    nids: Vec<(String, String)>,
}

impl NidDb {
    #[verifier::type_invariant]
    closed spec fn distinct_nids(self) -> bool {
        keys_distinct(self.nids@)
    }
}

impl View for NidDb {
    type V = Map<Seq<char>, Seq<char>>;

    closed spec fn view(&self) -> Map<Seq<char>, Seq<char>> {
        pairs_map(self.nids@)
    }
}

proof fn lemma_pairs_map(s: Seq<(String, String)>)
    requires
        keys_distinct(s),
    ensures
        pairs_map(s).dom().finite(),
        pairs_map(s).dom().len() == s.len(),
        forall|k: Seq<char>| pairs_map(s).contains_key(k) <==> exists|i: int| 0 <= i < s.len() && #[trigger] s[i].0@ == k,
        forall|i: int| 0 <= i < s.len() ==> #[trigger] pairs_map(s)[s[i].0@] == s[i].1@,
    decreases s.len(),
{
    if s.len() > 0 {
        let p = s.drop_last();
        assert(keys_distinct(p));
        lemma_pairs_map(p);
        assert(!pairs_map(p).contains_key(s.last().0@)) by {
            if pairs_map(p).contains_key(s.last().0@) {
                let i = choose|i: int| 0 <= i < p.len() && #[trigger] p[i].0@ == s.last().0@;
                assert(s[i].0@ != s[s.len() - 1].0@);
            }
        }
        assert forall|k: Seq<char>| pairs_map(s).contains_key(k) implies exists|i: int| 0 <= i < s.len() && #[trigger] s[i].0@ == k by {
            if k == s.last().0@ {
                assert(s[s.len() - 1].0@ == k);
            } else {
                let i = choose|i: int| 0 <= i < p.len() && #[trigger] p[i].0@ == k;
                assert(s[i].0@ == k);
            }
        }
        assert forall|k: Seq<char>| (exists|i: int| 0 <= i < s.len() && #[trigger] s[i].0@ == k) implies pairs_map(s).contains_key(k) by {
            let i = choose|i: int| 0 <= i < s.len() && #[trigger] s[i].0@ == k;
            if i < s.len() - 1 {
                assert(p[i].0@ == k);
            }
        }
        assert forall|i: int| 0 <= i < s.len() implies #[trigger] pairs_map(s)[s[i].0@] == s[i].1@ by {
            if i < s.len() - 1 {
                assert(p[i] == s[i]);
                assert(s[i].0@ != s[s.len() - 1].0@);
            }
        }
    }
}

proof fn lemma_pairs_map_update(s: Seq<(String, String)>, i: int, p: (String, String))
    requires
        keys_distinct(s),
        0 <= i < s.len(),
        p.0@ == s[i].0@,
    ensures
        keys_distinct(s.update(i, p)),
        pairs_map(s.update(i, p)) == pairs_map(s).insert(p.0@, p.1@),
    decreases s.len(),
{
    let u = s.update(i, p);
    assert(keys_distinct(u)) by {
        assert forall|a: int, b: int| 0 <= a < b < u.len() implies #[trigger] u[a].0@ != #[trigger] u[b].0@ by {
            assert(s[a].0@ != s[b].0@);
        }
    }
    lemma_pairs_map(s);
    lemma_pairs_map(u);
    assert forall|k: Seq<char>| #[trigger] pairs_map(u).contains_key(k) <==> pairs_map(s).insert(p.0@, p.1@).contains_key(k) by {
        if pairs_map(u).contains_key(k) {
            let j = choose|j: int| 0 <= j < u.len() && #[trigger] u[j].0@ == k;
            assert(s[j].0@ == k);
        }
        if pairs_map(s).contains_key(k) {
            let j = choose|j: int| 0 <= j < s.len() && #[trigger] s[j].0@ == k;
            assert(u[j].0@ == k);
        }
        if k == p.0@ {
            assert(u[i].0@ == k);
        }
    }
    assert forall|k: Seq<char>| #[trigger] pairs_map(u).contains_key(k) implies pairs_map(u)[k] == pairs_map(s).insert(p.0@, p.1@)[k] by {
        let j = choose|j: int| 0 <= j < u.len() && #[trigger] u[j].0@ == k;
        assert(pairs_map(u)[u[j].0@] == u[j].1@);
        if j != i {
            assert(pairs_map(s)[s[j].0@] == s[j].1@);
            assert(s[i].0@ != s[j].0@);
        }
    }
    assert(pairs_map(u) =~= pairs_map(s).insert(p.0@, p.1@));
}

/// Set `nid`'s name in a list of distinct NIDs.
fn insert_pair(v: &mut Vec<(String, String)>, nid: String, name: String)
    requires
        keys_distinct(old(v)@),
    ensures
        keys_distinct(final(v)@),
        pairs_map(final(v)@) == pairs_map(old(v)@).insert(nid@, name@),
{
    let mut i: usize = 0;
    while i < v.len()
        invariant
            i <= v@.len(),
            v@ == old(v)@,
            keys_distinct(v@),
            forall|j: int| 0 <= j < i ==> #[trigger] v@[j].0@ != nid@,
        decreases v@.len() - i,
    {
        if v[i].0 == nid {
            proof {
                lemma_pairs_map_update(v@, i as int, (nid, name));
            }
            v.set(i, (nid, name));
            return;
        }
        i = i + 1;
    }
    let ghost s = v@;
    v.push((nid, name));
    assert(v@.drop_last() =~= s);
    assert(keys_distinct(v@)) by {
        assert forall|a: int, b: int| 0 <= a < b < v@.len() implies #[trigger] v@[a].0@ != #[trigger] v@[b].0@ by {
            if b == v@.len() - 1 {
                assert(s[a].0@ != nid@);
            } else {
                assert(s[a].0@ != s[b].0@);
            }
        }
    }
}

/// The characters of `s`.
fn chars_of(s: &str) -> (v: Vec<char>)
    ensures
        v@ == s@,
{
    let mut v: Vec<char> = Vec::new();
    for c in it: s.chars()
        invariant
            it.seq() == s@,
            v@ == s@.take(it.index()),
    {
        v.push(c);
        assert(v@ =~= s@.take(it.index() + 1));
    }
    assert(v@ =~= s@);
    v
}

/// The characters `v[lo..hi]` as a `String`.
fn string_of(v: &Vec<char>, lo: usize, hi: usize) -> (r: String)
    requires
        lo <= hi <= v@.len(),
    ensures
        r@ == v@.subrange(lo as int, hi as int),
{
    let mut r = String::new();
    let mut k: usize = lo;
    while k < hi
        invariant
            lo <= k <= hi <= v@.len(),
            r@ == v@.subrange(lo as int, k as int),
        decreases hi - k,
    {
        push_char(&mut r, v[k]);
        assert(r@ =~= v@.subrange(lo as int, k + 1));
        k = k + 1;
    }
    r
}

fn is_pad(c: char) -> (b: bool)
    ensures
        b == line_pad().contains(c),
{
    c == '\r' || c == '\n' || c == ' ' || c == '\t'
}

fn is_delim_char(c: char) -> (b: bool)
    ensures
        b == is_delim(c),
{
    c == ',' || is_whitespace(c)
}

proof fn lemma_first_delim(s: Seq<char>, i: int)
    requires
        0 <= i <= s.len(),
        forall|j: int| 0 <= j < i ==> !is_delim(#[trigger] s[j]),
    ensures
        first_delim(s, 0) == first_delim(s, i),
    decreases i,
{
    if i > 0 {
        lemma_first_delim(s, i - 1);
    }
}

/// The record of the line `v[lo..hi]`.
fn parse_line(v: &Vec<char>, lo: usize, hi: usize) -> (r: Option<(String, String)>)
    requires
        lo <= hi <= v@.len(),
    ensures
        match parse_record(v@.subrange(lo as int, hi as int)) {
            Some(p) => r matches Some(q) && q.0@ == p.0 && q.1@ == p.1,
            None => r is None,
        },
{
    let ghost seg = v@.subrange(lo as int, hi as int);
    let ghost pad = line_pad();
    let mut a: usize = lo;
    while a < hi && is_pad(v[a])
        invariant
            lo <= a <= hi <= v@.len(),
            seg == v@.subrange(lo as int, hi as int),
            pad == line_pad(),
            ltrim(seg, pad) == ltrim(v@.subrange(a as int, hi as int), pad),
        decreases hi - a,
    {
        assert(v@.subrange(a as int, hi as int).drop_first() =~= v@.subrange(a + 1, hi as int));
        a = a + 1;
    }
    assert(ltrim(seg, pad) == v@.subrange(a as int, hi as int));
    let mut b: usize = hi;
    while b > a && is_pad(v[b - 1])
        invariant
            lo <= a <= b <= hi <= v@.len(),
            seg == v@.subrange(lo as int, hi as int),
            pad == line_pad(),
            rtrim(ltrim(seg, pad), pad) == rtrim(v@.subrange(a as int, b as int), pad),
        decreases b,
    {
        assert(v@.subrange(a as int, b as int).drop_last() =~= v@.subrange(a as int, b - 1));
        b = b - 1;
    }
    let ghost line = v@.subrange(a as int, b as int);
    assert(trim_set(seg, pad) == line);
    if a == b || v[a] == '#' {
        return None;
    }
    let mut j: usize = a;
    while j < b && !is_delim_char(v[j])
        invariant
            a <= j <= b <= v@.len(),
            line == v@.subrange(a as int, b as int),
            forall|k: int| 0 <= k < j - a ==> !is_delim(#[trigger] line[k]),
        decreases b - j,
    {
        assert(line[j - a] == v@[j as int]);
        j = j + 1;
    }
    proof {
        lemma_first_delim(line, j - a);
        if j < b {
            assert(line[j - a] == v@[j as int]);
        }
    }
    if j == b {
        return None;
    }
    let mut k: usize = j;
    assert(line.skip(j - a) =~= v@.subrange(j as int, b as int));
    while k < b && is_delim_char(v[k])
        invariant
            a <= j <= k <= b <= v@.len(),
            line == v@.subrange(a as int, b as int),
            skip_delims(line.skip(j - a)) == skip_delims(v@.subrange(k as int, b as int)),
        decreases b - k,
    {
        assert(v@.subrange(k as int, b as int).drop_first() =~= v@.subrange(k + 1, b as int));
        k = k + 1;
    }
    assert(skip_delims(v@.subrange(k as int, b as int)) == v@.subrange(k as int, b as int));
    if j == a || k == b {
        return None;
    }
    let nid = string_of(v, a, j);
    let name = string_of(v, k, b);
    assert(line.take(j - a) =~= v@.subrange(a as int, j as int));
    Some((nid, name))
}

proof fn lemma_segments_step(t: Seq<char>, i: int, done: Seq<Seq<char>>, start: int)
    requires
        0 <= start <= i < t.len(),
        segments(t.take(i)) == done.push(t.subrange(start, i)),
    ensures
        t[i] == '\n' ==> segments(t.take(i + 1)) == done.push(t.subrange(start, i)).push(Seq::<char>::empty()),
        t[i] != '\n' ==> segments(t.take(i + 1)) == done.push(t.subrange(start, i + 1)),
{
    assert(t.take(i + 1).drop_last() =~= t.take(i));
    assert(t.take(i + 1).last() == t[i]);
    assert(t.subrange(start, i).push(t[i]) =~= t.subrange(start, i + 1));
    let prev = segments(t.take(i));
    if t[i] != '\n' {
        assert(prev.update(prev.len() - 1, prev.last().push(t[i])) =~= done.push(t.subrange(start, i + 1)));
    }
}

impl Default for NidDb {
    fn default() -> (db: NidDb)
        ensures
            db@ == Map::<Seq<char>, Seq<char>>::empty(),
    {
        NidDb { nids: Vec::new() }
    }
}

impl NidDb {
    /// An empty database (no NIDs known).
    pub fn empty() -> (db: NidDb)
        ensures
            db@ == Map::<Seq<char>, Seq<char>>::empty(),
    {
        NidDb { nids: Vec::new() }
    }

    /// Parse an aerolib-style text into a database: each line `NID<delim>NAME`
    /// sets the NID's name, the delimiter being the first comma or whitespace
    /// character after trimming `\r`, `\n`, spaces and tabs from the line;
    /// the name is what follows the delimiters. Blank lines, `#` comments and
    /// lines with no delimiter, an empty NID or an empty name are skipped.
    /// Never fails.
    pub fn load_from_csv(text: &str) -> (r: Result<NidDb, String>)
        ensures
            r matches Ok(db) && db@ == csv_map(text@),
    {
        let v = chars_of(text);
        let ghost t = text@;
        let mut nids: Vec<(String, String)> = Vec::new();
        let ghost mut done: Seq<Seq<char>> = Seq::empty();
        let mut start: usize = 0;
        let mut i: usize = 0;
        assert(t.take(0) =~= Seq::<char>::empty());
        assert(t.subrange(0, 0) =~= Seq::<char>::empty());
        assert(segments(t.take(0)) =~= done.push(t.subrange(0, 0)));
        while i < v.len()
            invariant
                v@ == t,
                start <= i <= v@.len(),
                segments(t.take(i as int)) == done.push(t.subrange(start as int, i as int)),
                keys_distinct(nids@),
                pairs_map(nids@) == nid_map(done),
            decreases v@.len() - i,
        {
            proof {
                lemma_segments_step(t, i as int, done, start as int);
            }
            if v[i] == '\n' {
                let rec = parse_line(&v, start, i);
                let ghost seg = t.subrange(start as int, i as int);
                let ghost done2 = done.push(seg);
                assert(done2.drop_last() =~= done);
                if let Some((nid, name)) = rec {
                    insert_pair(&mut nids, nid, name);
                }
                proof {
                    done = done2;
                }
                start = i + 1;
                assert(t.subrange(start as int, i + 1) =~= Seq::<char>::empty());
            }
            i = i + 1;
        }
        let rec = parse_line(&v, start, i);
        let ghost done2 = done.push(t.subrange(start as int, i as int));
        assert(done2.drop_last() =~= done);
        if let Some((nid, name)) = rec {
            insert_pair(&mut nids, nid, name);
        }
        assert(t.take(i as int) =~= t);
        Ok(NidDb { nids })
    }

    /// The symbol name recorded for `nid`, if any.
    pub fn lookup(&self, nid: &str) -> (r: Option<&str>)
        ensures
            match r {
                Some(name) => self@.contains_key(nid@) && name@ == self@[nid@],
                None => !self@.contains_key(nid@),
            },
    {
        proof {
            use_type_invariant(self);
        }
        let key = nid.to_owned();
        let mut i: usize = 0;
        while i < self.nids.len()
            invariant
                i <= self.nids@.len(),
                key@ == nid@,
                keys_distinct(self.nids@),
                forall|j: int| 0 <= j < i ==> #[trigger] self.nids@[j].0@ != nid@,
            decreases self.nids@.len() - i,
        {
            if self.nids[i].0 == key {
                proof {
                    lemma_pairs_map(self.nids@);
                }
                return Some(self.nids[i].1.as_str());
            }
            i = i + 1;
        }
        proof {
            lemma_pairs_map(self.nids@);
        }
        None
    }

    /// Number of NID → name entries in the database.
    pub fn len(&self) -> (n: usize)
        ensures
            self@.dom().finite(),
            n == self@.dom().len(),
    {
        proof {
            use_type_invariant(self);
            lemma_pairs_map(self.nids@);
        }
        self.nids.len()
    }

    /// Whether the database has any entries.
    pub fn is_empty(&self) -> (b: bool)
        ensures
            b == (self@.dom().len() == 0),
    {
        let n = self.len();
        n == 0
    }
}

/// A later line for a NID overrides an earlier one; a line that holds no
/// record (blank, a `#` comment, no delimiter) changes nothing.
pub proof fn later_nid_line_wins(segs: Seq<Seq<char>>, line: Seq<char>)
    ensures
        parse_record(line) matches Some(r) ==> nid_map(segs.push(line)) == nid_map(segs).insert(r.0, r.1),
        parse_record(line) is None ==> nid_map(segs.push(line)) == nid_map(segs),
{
    assert(segs.push(line).drop_last() =~= segs);
}

/// A line whose first non-blank character is `#` is a comment: it holds no
/// record.
pub proof fn comment_lines_hold_no_record(seg: Seq<char>)
    requires
        trim_set(seg, line_pad()).len() > 0,
        trim_set(seg, line_pad())[0] == '#',
    ensures
        parse_record(seg) is None,
{
}

} // verus!
