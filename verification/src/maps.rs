use vstd::prelude::*;

use crate::errors::TraceError;

verus! {

/// The four permission flags of one mapped region, decoded from the fixed
/// four-character flag field of the region listing.
#[derive(Clone, Copy, Debug, PartialEq, Eq, Structural)]
pub struct Permissions {
    pub read: bool,
    pub write: bool,
    pub execute: bool,
    pub private: bool,
}

/// One region of the target's address space, parsed from one line of its
/// region listing.  A region is an immutable snapshot: it goes stale the
/// moment the target's mappings change.
#[derive(Debug)]
pub struct MemoryRegion {
    /// The first address of the region.
    pub start: u64,
    /// The address one past the region.
    pub end: u64,
    /// The region's decoded permission flags.
    pub perms: Permissions,
    /// The offset of the region within its backing file.
    pub file_offset: u64,
    /// The backing path, absent on lines without a trailing pathname.
    pub path: Option<Vec<u8>>,
}

/// The mathematical model of one region: the same fields with the path as a
/// byte sequence.
pub struct RegionModel {
    pub start: u64,
    pub end: u64,
    pub perms: Permissions,
    pub file_offset: u64,
    pub path: Option<Seq<u8>>,
}

impl View for MemoryRegion {
    type V = RegionModel;

    open spec fn view(&self) -> RegionModel {
        RegionModel {
            start: self.start,
            end: self.end,
            perms: self.perms,
            file_offset: self.file_offset,
            path: match self.path {
                Some(p) => Some(p@),
                None => None,
            },
        }
    }
}

/// The models of a parsed region sequence.
pub open spec fn models(regions: Seq<MemoryRegion>) -> Seq<RegionModel> {
    regions.map_values(|r: MemoryRegion| r@)
}

/// Field separators of the region listing: space and tab.
pub open spec fn is_space(b: u8) -> bool {
    b == 32 || b == 9
}

/// The index of the first occurrence of `b` in `s`, or `s.len()` if absent.
pub open spec fn spec_find(s: Seq<u8>, b: u8) -> nat
    decreases s.len(),
{
    if s.len() == 0 || s[0] == b {
        0
    } else {
        (1 + spec_find(s.drop_first(), b)) as nat
    }
}

proof fn lemma_spec_find_char(s: Seq<u8>, b: u8, n: int)
    requires
        0 <= n <= s.len(),
        forall|j: int| 0 <= j < n ==> s[j] != b,
        n == s.len() || s[n] == b,
    ensures
        spec_find(s, b) == n,
    decreases s.len(),
{
    if n == 0 {
        if s.len() != 0 {
            assert(s.len() == 0 || s[0] == b);
        }
    } else {
        assert(s[0] != b);
        let t = s.drop_first();
        assert forall|j: int| 0 <= j < n - 1 implies t[j] != b by {
            assert(t[j] == s[j + 1]);
        }
        lemma_spec_find_char(t, b, n - 1);
    }
}

/// How many leading bytes of `s` are not separators.
pub open spec fn run_len(s: Seq<u8>) -> nat
    decreases s.len(),
{
    if s.len() == 0 || is_space(s[0]) {
        0
    } else {
        (1 + run_len(s.drop_first())) as nat
    }
}

proof fn lemma_run_len_char(s: Seq<u8>, n: int)
    requires
        0 <= n <= s.len(),
        forall|j: int| 0 <= j < n ==> !is_space(s[j]),
        n == s.len() || is_space(s[n]),
    ensures
        run_len(s) == n,
    decreases s.len(),
{
    if n == 0 {
        if s.len() != 0 {
            assert(is_space(s[0]));
        }
    } else {
        assert(!is_space(s[0]));
        let t = s.drop_first();
        assert forall|j: int| 0 <= j < n - 1 implies !is_space(t[j]) by {
            assert(t[j] == s[j + 1]);
        }
        lemma_run_len_char(t, n - 1);
    }
}

/// The separator-delimited fields of `s`, in order, separators dropped.
pub open spec fn spec_tokens(s: Seq<u8>) -> Seq<Seq<u8>>
    decreases s.len(),
    via spec_tokens_decreases
{
    if s.len() == 0 {
        Seq::empty()
    } else if is_space(s[0]) {
        spec_tokens(s.drop_first())
    } else {
        seq![s.take(run_len(s) as int)] + spec_tokens(s.skip(run_len(s) as int))
    }
}

proof fn lemma_run_len_le(s: Seq<u8>)
    ensures
        run_len(s) <= s.len(),
    decreases s.len(),
{
    if !(s.len() == 0 || is_space(s[0])) {
        lemma_run_len_le(s.drop_first());
    }
}

#[via_fn]
proof fn spec_tokens_decreases(s: Seq<u8>) {
    if s.len() != 0 && !is_space(s[0]) {
        lemma_run_len_le(s);
        assert(run_len(s) >= 1);
    }
}

/// The value of one hexadecimal digit, if the byte is one.
pub open spec fn hex_digit(b: u8) -> Option<u8> {
    if 48 <= b <= 57 {
        Some((b - 48) as u8)
    } else if 97 <= b <= 102 {
        Some((b - 87) as u8)
    } else if 65 <= b <= 70 {
        Some((b - 55) as u8)
    } else {
        None
    }
}

/// Folds hexadecimal digits into `acc` from the left; fails on the first
/// byte that is no digit or when the value no longer fits a word.
pub open spec fn spec_parse_hex_acc(s: Seq<u8>, acc: u64) -> Option<u64>
    decreases s.len(),
{
    if s.len() == 0 {
        Some(acc)
    } else {
        match hex_digit(s[0]) {
            None => None,
            Some(d) => if acc > (0xffff_ffff_ffff_ffffu64 - d) / 16 {
                None
            } else {
                spec_parse_hex_acc(s.drop_first(), (16 * acc + d) as u64)
            },
        }
    }
}

/// The value of a non-empty, all-digit hexadecimal field.
pub open spec fn spec_parse_hex(s: Seq<u8>) -> Option<u64> {
    if s.len() == 0 {
        None
    } else {
        spec_parse_hex_acc(s, 0)
    }
}

/// Parses one hexadecimal field.  Yields a value exactly for a non-empty
/// field of digits whose value fits in a word.
pub fn parse_hex(digits: &Vec<u8>) -> (r: Option<u64>)
    ensures
        r == spec_parse_hex(digits@),
{
    let len = digits.len();
    if len == 0 {
        return None;
    }
    let mut acc: u64 = 0;
    let mut i: usize = 0;
    proof {
        assert(digits@.skip(0) =~= digits@);
    }
    while i < len
        invariant
            i <= len,
            len == digits@.len(),
            spec_parse_hex_acc(digits@.skip(i as int), acc) == spec_parse_hex_acc(digits@, 0),
        decreases len - i,
    {
        let b = digits[i];
        proof {
            assert(digits@.skip(i as int)[0] == b);
            assert(digits@.skip(i as int).drop_first() =~= digits@.skip(i as int + 1));
        }
        let d: u8;
        if 48 <= b && b <= 57 {
            d = b - 48;
        } else if 97 <= b && b <= 102 {
            d = b - 87;
        } else if 65 <= b && b <= 70 {
            d = b - 55;
        } else {
            return None;
        }
        if acc > (0xffff_ffff_ffff_ffffu64 - d as u64) / 16 {
            return None;
        }
        proof {
            assert(16 * acc + d <= 0xffff_ffff_ffff_ffffu64) by (nonlinear_arith)
                requires
                    acc <= (0xffff_ffff_ffff_ffffu64 - d as u64) / 16,
                    d < 16,
            ;
        }
        acc = 16 * acc + d as u64;
        i += 1;
    }
    proof {
        assert(digits@.skip(len as int) =~= Seq::<u8>::empty());
    }
    Some(acc)
}

/// The index of the first occurrence of `b` in `v` at or after `from`, or
/// `v`'s length if there is none.
pub fn find_byte(v: &Vec<u8>, from: usize, b: u8) -> (r: usize)
    requires
        from <= v@.len(),
    ensures
        from <= r <= v@.len(),
        forall|j: int| from <= j < r ==> v@[j] != b,
        r < v@.len() ==> v@[r as int] == b,
{
    let len = v.len();
    let mut i = from;
    while i < len
        invariant
            from <= i <= len,
            len == v@.len(),
            forall|j: int| from <= j < i ==> v@[j] != b,
        decreases len - i,
    {
        if v[i] == b {
            return i;
        }
        i += 1;
    }
    len
}

/// A copy of the bytes of `v` from `lo` up to `hi`.
pub fn subvec(v: &Vec<u8>, lo: usize, hi: usize) -> (r: Vec<u8>)
    requires
        lo <= hi <= v@.len(),
    ensures
        r@ == v@.subrange(lo as int, hi as int),
{
    let mut r: Vec<u8> = Vec::new();
    let mut i = lo;
    while i < hi
        invariant
            lo <= i <= hi <= v@.len(),
            r@ == v@.subrange(lo as int, i as int),
        decreases hi - i,
    {
        r.push(v[i]);
        i += 1;
        proof {
            assert(r@ =~= v@.subrange(lo as int, i as int));
        }
    }
    proof {
        assert(r@ =~= v@.subrange(lo as int, hi as int));
    }
    r
}

/// Splits one line into its separator-delimited fields.
pub fn tokenize(line: &Vec<u8>) -> (toks: Vec<Vec<u8>>)
    ensures
        toks@.map_values(|t: Vec<u8>| t@) == spec_tokens(line@),
{
    let len = line.len();
    let mut toks: Vec<Vec<u8>> = Vec::new();
    let mut i: usize = 0;
    proof {
        assert(line@.skip(0) =~= line@);
        assert(toks@.map_values(|t: Vec<u8>| t@) =~= Seq::<Seq<u8>>::empty());
    }
    while i < len
        invariant
            i <= len,
            len == line@.len(),
            toks@.map_values(|t: Vec<u8>| t@) + spec_tokens(line@.skip(i as int)) == spec_tokens(
                line@,
            ),
        decreases len - i,
    {
        if is_space_byte(line[i]) {
            proof {
                assert(line@.skip(i as int)[0] == line@[i as int]);
                assert(line@.skip(i as int).drop_first() =~= line@.skip(i as int + 1));
            }
            i += 1;
        } else {
            let mut j = i + 1;
            while j < len && !is_space_byte(line[j])
                invariant
                    i < j <= len,
                    len == line@.len(),
                    !is_space(line@[i as int]),
                    forall|m: int| i <= m < j ==> !is_space(line@[m]),
                decreases len - j,
            {
                j += 1;
            }
            let tok = subvec(line, i, j);
            proof {
                let s = line@.skip(i as int);
                assert forall|m: int| 0 <= m < j - i implies !is_space(s[m]) by {
                    assert(s[m] == line@[i + m]);
                }
                if j < len {
                    assert(s[j - i] == line@[j as int]);
                }
                lemma_run_len_char(s, j - i);
                assert(s.take(j - i) =~= line@.subrange(i as int, j as int));
                assert(s.skip(j - i) =~= line@.skip(j as int));
                assert(spec_tokens(s) == seq![tok@] + spec_tokens(line@.skip(j as int)));
            }
            let ghost toks_pre = toks@;
            toks.push(tok);
            proof {
                assert(toks@.map_values(|t: Vec<u8>| t@) =~= toks_pre.map_values(|t: Vec<u8>| t@)
                    + seq![tok@]);
            }
            i = j;
        }
    }
    proof {
        assert(line@.skip(len as int) =~= Seq::<u8>::empty());
        assert(toks@.map_values(|t: Vec<u8>| t@) =~= spec_tokens(line@));
    }
    toks
}

/// Executable test for a separator byte.
fn is_space_byte(b: u8) -> (r: bool)
    ensures
        r == is_space(b),
{
    b == 32 || b == 9
}

/// The permission flags a four-byte field decodes to: `r`, `w`, `x` at the
/// first three positions, and `p` (private) against `s` (shared) at the
/// fourth.  A field of any other length is malformed.
pub open spec fn spec_perms(t: Seq<u8>) -> Option<Permissions> {
    if t.len() == 4 {
        Some(
            Permissions {
                read: t[0] == 114,
                write: t[1] == 119,
                execute: t[2] == 120,
                private: t[3] == 112,
            },
        )
    } else {
        None
    }
}

/// The region one listing line describes, if well-formed.  A line reads
/// `start-end permissions offset device inode [path]` with whitespace
/// between fields: the first field is two hexadecimal addresses joined by a
/// hyphen, the second the four-character flag field, the third the
/// hexadecimal file offset; a sixth field, when present, is the path.
pub open spec fn spec_parse_line(line: Seq<u8>) -> Option<RegionModel> {
    let toks = spec_tokens(line);
    if toks.len() < 5 {
        None
    } else {
        let range = toks[0];
        let d = spec_find(range, 45) as int;
        if d >= range.len() {
            None
        } else {
            match (
                spec_parse_hex(range.take(d)),
                spec_parse_hex(range.skip(d + 1)),
                spec_perms(toks[1]),
                spec_parse_hex(toks[2]),
            ) {
                (Some(start), Some(end), Some(perms), Some(off)) => Some(
                    RegionModel {
                        start,
                        end,
                        perms,
                        file_offset: off,
                        path: if toks.len() >= 6 {
                            Some(toks[5])
                        } else {
                            None
                        },
                    },
                ),
                _ => None,
            }
        }
    }
}

/// Parses one line of the region listing into a typed region; a malformed
/// line yields nothing.
pub fn parse_region_line(line: &Vec<u8>) -> (r: Option<MemoryRegion>)
    ensures
        r matches Some(reg) ==> spec_parse_line(line@) == Some(reg@),
        r is None ==> spec_parse_line(line@) is None,
{
    let toks = tokenize(line);
    let ghost stoks = spec_tokens(line@);
    if toks.len() < 5 {
        return None;
    }
    let range = &toks[0];
    proof {
        assert(stoks[0] == range@);
    }
    let d = find_byte(range, 0, 45);
    proof {
        lemma_spec_find_char(range@, 45, d as int);
    }
    if d == range.len() {
        return None;
    }
    let start_digits = subvec(range, 0, d);
    let end_digits = subvec(range, d + 1, range.len());
    let start_v = parse_hex(&start_digits);
    let end_v = parse_hex(&end_digits);
    proof {
        assert(start_digits@ =~= range@.take(d as int));
        assert(end_digits@ =~= range@.skip(d as int + 1));
        assert(stoks[1] == toks@[1]@);
        assert(stoks[2] == toks@[2]@);
    }
    let pt = &toks[1];
    if pt.len() != 4 {
        return None;
    }
    let perms = Permissions {
        read: pt[0] == 114,
        write: pt[1] == 119,
        execute: pt[2] == 120,
        private: pt[3] == 112,
    };
    let off_v = parse_hex(&toks[2]);
    match (start_v, end_v, off_v) {
        (Some(start), Some(end), Some(off)) => {
            let path: Option<Vec<u8>> = if toks.len() >= 6 {
                let p = subvec(&toks[5], 0, toks[5].len());
                proof {
                    assert(stoks[5] == toks@[5]@);
                    assert(p@ =~= stoks[5]);
                }
                Some(p)
            } else {
                None
            };
            let reg = MemoryRegion { start, end, perms, file_offset: off, path };
            proof {
                assert(spec_parse_line(line@) == Some(reg@));
            }
            Some(reg)
        },
        _ => None,
    }
}

/// The regions a whole listing describes: each line up to a line feed is
/// parsed on its own, and the malformed ones are dropped.
pub open spec fn spec_snapshot(t: Seq<u8>) -> Seq<RegionModel>
    decreases t.len(),
{
    if t.len() == 0 {
        Seq::empty()
    } else {
        let n = spec_find(t, 10) as int;
        let line = t.take(n);
        let rest = if n < t.len() {
            t.skip(n + 1)
        } else {
            Seq::empty()
        };
        let head = match spec_parse_line(line) {
            Some(m) => seq![m],
            None => Seq::<RegionModel>::empty(),
        };
        head + spec_snapshot(rest)
    }
}

/// Parses the whole region listing, one region per line.
pub fn snapshot(text: &Vec<u8>) -> (regions: Vec<MemoryRegion>)
    ensures
        models(regions@) == spec_snapshot(text@),
{
    let len = text.len();
    let mut regions: Vec<MemoryRegion> = Vec::new();
    let mut i: usize = 0;
    proof {
        assert(text@.skip(0) =~= text@);
        assert(models(regions@) =~= Seq::<RegionModel>::empty());
    }
    while i < len
        invariant
            i <= len,
            len == text@.len(),
            models(regions@) + spec_snapshot(text@.skip(i as int)) == spec_snapshot(text@),
        decreases len - i,
    {
        let f = find_byte(text, i, 10);
        let line = subvec(text, i, f);
        proof {
            let s = text@.skip(i as int);
            assert forall|j: int| 0 <= j < f - i implies s[j] != 10 by {
                assert(s[j] == text@[i + j]);
            }
            if f < len {
                assert(s[f - i] == text@[f as int]);
            }
            lemma_spec_find_char(s, 10, f - i);
            assert(s.take(f - i) =~= line@);
            if f < len {
                assert(s.skip(f - i + 1) =~= text@.skip(f as int + 1));
            }
        }
        let parsed = parse_region_line(&line);
        let ghost regs_pre = regions@;
        match parsed {
            Some(reg) => {
                regions.push(reg);
                proof {
                    assert(models(regions@) =~= models(regs_pre) + seq![reg@]);
                }
            },
            None => {},
        }
        if f < len {
            i = f + 1;
        } else {
            i = len;
            proof {
                assert(text@.skip(len as int) =~= Seq::<u8>::empty());
            }
        }
    }
    proof {
        assert(text@.skip(len as int) =~= Seq::<u8>::empty());
        assert(models(regions@) =~= spec_snapshot(text@));
    }
    regions
}

/// `needle` occurs somewhere in `hay` as a contiguous run of bytes.
pub open spec fn contains_sub(hay: Seq<u8>, needle: Seq<u8>) -> bool {
    exists|i: int|
        0 <= i && i + needle.len() <= hay.len() && #[trigger] hay.subrange(i, i + needle.len())
            == needle
}

fn match_at(hay: &Vec<u8>, needle: &Vec<u8>, at: usize) -> (r: bool)
    requires
        at + needle@.len() <= hay@.len(),
    ensures
        r == (hay@.subrange(at as int, at as int + needle@.len()) == needle@),
{
    let hl = hay.len();
    let nl = needle.len();
    let mut j: usize = 0;
    while j < nl
        invariant
            at + nl <= hl,
            hl == hay@.len(),
            nl == needle@.len(),
            j <= nl,
            forall|m: int| 0 <= m < j ==> hay@[at + m] == needle@[m],
        decreases nl - j,
    {
        if hay[at + j] != needle[j] {
            proof {
                assert(hay@.subrange(at as int, at as int + nl as int)[j as int] == hay@[at + j]);
            }
            return false;
        }
        j += 1;
    }
    proof {
        assert(hay@.subrange(at as int, at as int + nl as int) =~= needle@);
    }
    true
}

/// Whether `needle` occurs in `hay`.
pub fn contains_bytes(hay: &Vec<u8>, needle: &Vec<u8>) -> (r: bool)
    ensures
        r == contains_sub(hay@, needle@),
{
    let hl = hay.len();
    let nl = needle.len();
    if nl == 0 {
        proof {
            assert(hay@.subrange(0, 0 + needle@.len() as int) =~= needle@);
            assert(contains_sub(hay@, needle@));
        }
        return true;
    }
    if nl > hl {
        proof {
            assert(!contains_sub(hay@, needle@)) by {
                if contains_sub(hay@, needle@) {
                    let x = choose|x: int|
                        0 <= x && x + needle@.len() <= hay@.len() && #[trigger] hay@.subrange(
                            x,
                            x + needle@.len(),
                        ) == needle@;
                    assert(x + needle@.len() <= hay@.len());
                }
            }
        }
        return false;
    }
    let end = hl - nl;
    let mut i: usize = 0;
    while i <= end
        invariant
            1 <= nl <= hl,
            end == hl - nl,
            nl == needle@.len(),
            hl == hay@.len(),
            i <= end + 1,
            forall|x: int|
                0 <= x < i ==> #[trigger] hay@.subrange(x, x + needle@.len()) != needle@,
        decreases end + 1 - i,
    {
        if match_at(hay, needle, i) {
            proof {
                assert(contains_sub(hay@, needle@));
            }
            return true;
        }
        i += 1;
    }
    proof {
        assert(!contains_sub(hay@, needle@)) by {
            if contains_sub(hay@, needle@) {
                let x = choose|x: int|
                    0 <= x && x + needle@.len() <= hay@.len() && #[trigger] hay@.subrange(
                        x,
                        x + needle@.len(),
                    ) == needle@;
                assert(x < i);
            }
        }
    }
    false
}

/// A region matches a module name when it has a path and the name occurs in
/// that path.
pub open spec fn region_matches_name(r: RegionModel, pattern: Seq<u8>) -> bool {
    match r.path {
        Some(p) => contains_sub(p, pattern),
        None => false,
    }
}

/// A region resolves a module when it matches the name and is executable.
pub open spec fn exec_match(r: RegionModel, pattern: Seq<u8>) -> bool {
    region_matches_name(r, pattern) && r.perms.execute
}

/// What resolving a module name against a region sequence yields: the start
/// of the first executable region whose path contains the name; failing
/// that, `NotExecutableSegment` when some region matches the name but none
/// of the matching ones is executable, and `ModuleNotFound` when no region
/// matches the name at all.
pub open spec fn spec_resolve(rs: Seq<RegionModel>, pattern: Seq<u8>) -> Result<u64, TraceError>
    decreases rs.len(),
{
    if rs.len() == 0 {
        Err(TraceError::ModuleNotFound)
    } else if exec_match(rs[0], pattern) {
        Ok(rs[0].start)
    } else {
        let rest = spec_resolve(rs.drop_first(), pattern);
        if region_matches_name(rs[0], pattern) && rest == Err::<u64, TraceError>(
            TraceError::ModuleNotFound,
        ) {
            Err(TraceError::NotExecutableSegment)
        } else {
            rest
        }
    }
}

/// Law: the first executable region matching the name decides the
/// resolution, and its start address is the resolved base.
pub proof fn lemma_resolve_first(rs: Seq<RegionModel>, pattern: Seq<u8>, i: int)
    requires
        0 <= i < rs.len(),
        exec_match(rs[i], pattern),
        forall|j: int| 0 <= j < i ==> !exec_match(rs[j], pattern),
    ensures
        spec_resolve(rs, pattern) == Ok::<u64, TraceError>(rs[i].start),
    decreases rs.len(),
{
    if i > 0 {
        assert(!exec_match(rs[0], pattern));
        let t = rs.drop_first();
        assert forall|j: int| 0 <= j < i - 1 implies !exec_match(t[j], pattern) by {
            assert(t[j] == rs[j + 1]);
        }
        assert(t[i - 1] == rs[i]);
        lemma_resolve_first(t, pattern, i - 1);
    }
}

/// Law: when no region matches the name, resolution fails with
/// `ModuleNotFound`.
pub proof fn lemma_resolve_not_found(rs: Seq<RegionModel>, pattern: Seq<u8>)
    requires
        forall|i: int| 0 <= i < rs.len() ==> !region_matches_name(rs[i], pattern),
    ensures
        spec_resolve(rs, pattern) == Err::<u64, TraceError>(TraceError::ModuleNotFound),
    decreases rs.len(),
{
    if rs.len() > 0 {
        assert(!region_matches_name(rs[0], pattern));
        let t = rs.drop_first();
        assert forall|i: int| 0 <= i < t.len() implies !region_matches_name(t[i], pattern) by {
            assert(t[i] == rs[i + 1]);
        }
        lemma_resolve_not_found(t, pattern);
    }
}

/// Law: when some region matches the name but no matching region is
/// executable, resolution fails with `NotExecutableSegment`.
pub proof fn lemma_resolve_not_exec(rs: Seq<RegionModel>, pattern: Seq<u8>, w: int)
    requires
        0 <= w < rs.len(),
        region_matches_name(rs[w], pattern),
        forall|i: int| 0 <= i < rs.len() ==> !exec_match(rs[i], pattern),
    ensures
        spec_resolve(rs, pattern) == Err::<u64, TraceError>(TraceError::NotExecutableSegment),
    decreases rs.len(),
{
    assert(!exec_match(rs[0], pattern));
    let t = rs.drop_first();
    assert forall|i: int| 0 <= i < t.len() implies !exec_match(t[i], pattern) by {
        assert(t[i] == rs[i + 1]);
    }
    if region_matches_name(rs[0], pattern) {
        if exists|i: int| 0 <= i < t.len() && #[trigger] region_matches_name(t[i], pattern) {
            let wt = choose|i: int|
                0 <= i < t.len() && #[trigger] region_matches_name(t[i], pattern);
            lemma_resolve_not_exec(t, pattern, wt);
        } else {
            assert forall|i: int| 0 <= i < t.len() implies !region_matches_name(t[i], pattern) by {
            }
            lemma_resolve_not_found(t, pattern);
        }
    } else {
        assert(w > 0);
        assert(t[w - 1] == rs[w]);
        lemma_resolve_not_exec(t, pattern, w - 1);
    }
}

impl MemoryRegion {
    /// Whether this region's path, if any, contains `name`.
    pub fn matches_name(&self, name: &Vec<u8>) -> (r: bool)
        ensures
            r == region_matches_name(self@, name@),
    {
        match &self.path {
            Some(p) => contains_bytes(p, name),
            None => false,
        }
    }
}

/// Resolves a module's base address: the start of the first executable
/// region whose path contains `name`.  Fails with `ModuleNotFound` when no
/// region matches the name, and with `NotExecutableSegment` when regions
/// match but none of them is executable.
pub fn resolve_module_base(regions: &Vec<MemoryRegion>, name: &Vec<u8>) -> (r: Result<
    u64,
    TraceError,
>)
    ensures
        r == spec_resolve(models(regions@), name@),
        r matches Ok(a) ==> exists|i: int|
            0 <= i < regions@.len() && #[trigger] exec_match(models(regions@)[i], name@) && a
                == models(regions@)[i].start,
        r == Err::<u64, TraceError>(TraceError::ModuleNotFound) ==> forall|i: int|
            0 <= i < regions@.len() ==> !region_matches_name(
                #[trigger] models(regions@)[i],
                name@,
            ),
        r == Err::<u64, TraceError>(TraceError::NotExecutableSegment) ==> (forall|i: int|
            0 <= i < regions@.len() ==> !exec_match(#[trigger] models(regions@)[i], name@))
            && (exists|i: int|
            0 <= i < regions@.len() && region_matches_name(
                #[trigger] models(regions@)[i],
                name@,
            )),
{
    let ghost ms = models(regions@);
    let n = regions.len();
    let mut saw_name = false;
    let ghost mut witness: int = 0;
    let mut i: usize = 0;
    while i < n
        invariant
            i <= n,
            n == regions@.len(),
            ms == models(regions@),
            forall|j: int| 0 <= j < i ==> !exec_match(#[trigger] ms[j], name@),
            saw_name ==> 0 <= witness < i && region_matches_name(ms[witness], name@),
            !saw_name ==> forall|j: int|
                0 <= j < i ==> !region_matches_name(#[trigger] ms[j], name@),
        decreases n - i,
    {
        let reg = &regions[i];
        proof {
            assert(ms[i as int] == regions@[i as int]@);
        }
        let name_match = reg.matches_name(name);
        if name_match && reg.perms.execute {
            proof {
                lemma_resolve_first(ms, name@, i as int);
                assert(exec_match(models(regions@)[i as int], name@));
            }
            return Ok(reg.start);
        }
        proof {
            assert(!exec_match(ms[i as int], name@));
            if name_match {
                witness = i as int;
            }
        }
        if name_match {
            saw_name = true;
        }
        i += 1;
    }
    if saw_name {
        proof {
            lemma_resolve_not_exec(ms, name@, witness);
            assert(region_matches_name(models(regions@)[witness], name@));
        }
        Err(TraceError::NotExecutableSegment)
    } else {
        proof {
            lemma_resolve_not_found(ms, name@);
        }
        Err(TraceError::ModuleNotFound)
    }
}

} // verus!
