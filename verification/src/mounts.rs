use vstd::prelude::*;

verus! {

/// The byte sequences held by a list of byte vectors.
pub open spec fn views(v: Seq<Vec<u8>>) -> Seq<Seq<u8>> {
    v.map_values(|x: Vec<u8>| x@)
}

/// `s` cut at every `c`, as `str::split` does: `n` separators give `n + 1` pieces, empty
/// ones included.
pub open spec fn split(s: Seq<u8>, c: u8) -> Seq<Seq<u8>>
    decreases s.len(),
{
    if s.len() == 0 {
        seq![Seq::<u8>::empty()]
    } else {
        let ps = split(s.drop_last(), c);
        if s.last() == c {
            ps.push(Seq::<u8>::empty())
        } else {
            ps.update(ps.len() - 1, ps.last().push(s.last()))
        }
    }
}

/// Splitting always gives at least one piece.
pub proof fn lemma_split_nonempty(s: Seq<u8>, c: u8)
    ensures
        split(s, c).len() >= 1,
    decreases s.len(),
{
    if s.len() > 0 {
        lemma_split_nonempty(s.drop_last(), c);
    }
}

/// The pieces of `s` between the bytes `c`.
pub fn split_bytes(s: &[u8], c: u8) -> (r: Vec<Vec<u8>>)
    ensures
        views(r@) == split(s@, c),
{
    let mut pieces: Vec<Vec<u8>> = Vec::new();
    let mut cur: Vec<u8> = Vec::new();
    let mut i: usize = 0;
    while i < s.len()
        invariant
            i <= s@.len(),
            split(s@.subrange(0, i as int), c) == views(pieces@).push(cur@),
        decreases s@.len() - i,
    {
        let b = s[i];
        proof {
            let pre = s@.subrange(0, i + 1);
            assert(pre.drop_last() =~= s@.subrange(0, i as int));
            assert(pre.last() == b);
            lemma_split_nonempty(pre.drop_last(), c);
        }
        if b == c {
            let done = cur;
            cur = Vec::new();
            let ghost before = pieces@;
            pieces.push(done);
            proof {
                assert(views(pieces@) =~= views(before).push(done@));
                assert(split(s@.subrange(0, i + 1), c) =~= views(pieces@).push(cur@));
            }
        } else {
            let ghost old_cur = cur@;
            cur.push(b);
            proof {
                let ps = views(pieces@).push(old_cur);
                assert(ps.update(ps.len() - 1, ps.last().push(b)) =~= views(pieces@).push(cur@));
            }
        }
        i += 1;
    }
    let ghost before = pieces@;
    pieces.push(cur);
    proof {
        assert(s@.subrange(0, s@.len() as int) =~= s@);
        assert(views(pieces@) =~= views(before).push(pieces@.last()@));
    }
    pieces
}

/// A line without one trailing carriage return.
pub open spec fn strip_cr(l: Seq<u8>) -> Seq<u8> {
    if l.len() > 0 && l.last() == 13u8 {
        l.drop_last()
    } else {
        l
    }
}

/// Each line without one trailing carriage return.
pub open spec fn stripped(ls: Seq<Seq<u8>>) -> Seq<Seq<u8>> {
    ls.map_values(|l: Seq<u8>| strip_cr(l))
}

/// The lines of `t` as `str::lines` gives them: split at `\n`; a line ended by `\n`
/// loses one trailing `\r`; a final line ending gives no empty last line.
pub open spec fn lines(t: Seq<u8>) -> Seq<Seq<u8>> {
    let ps = split(t, 10u8);
    let ended = stripped(ps.drop_last());
    if ps.last().len() == 0 {
        ended
    } else {
        ended.push(ps.last())
    }
}

/// Whether `b` is an ASCII octal digit.
pub open spec fn is_octal(b: u8) -> bool {
    48u8 <= b <= 55u8
}

/// Whether an octal escape `\ddd` begins at `i` (the check that `unescape` makes).
pub open spec fn escape_at(b: Seq<u8>, i: int) -> bool {
    &&& 0 <= i
    &&& b[i] == 92u8
    &&& i + 3 < b.len()
    &&& is_octal(b[i + 1])
    &&& is_octal(b[i + 2])
    &&& is_octal(b[i + 3])
}

/// `/proc/mounts` writes blanks and the like as three-digit octal escapes (`\040`):
/// each backslash followed by three octal digits stands for the byte they spell.
pub open spec fn unescape(b: Seq<u8>) -> Seq<u8>
    decreases b.len(),
{
    if b.len() == 0 {
        Seq::empty()
    } else if escape_at(b, 0) {
        seq![((b[1] - 48) * 64 + (b[2] - 48) * 8 + (b[3] - 48)) as u8] + unescape(b.skip(4))
    } else {
        seq![b[0]] + unescape(b.skip(1))
    }
}

/// A byte written as `/proc/mounts` writes it: a backslash and three octal digits.
pub open spec fn octal_escape(v: u8) -> Seq<u8> {
    seq![92u8, (48 + v / 64) as u8, (48 + (v / 8) % 8) as u8, (48 + v % 8) as u8]
}

/// `b` with the bytes that `esc` picks written as octal escapes.
pub open spec fn escape_with(b: Seq<u8>, esc: spec_fn(u8) -> bool) -> Seq<u8>
    decreases b.len(),
{
    if b.len() == 0 {
        Seq::empty()
    } else {
        (if esc(b[0]) {
            octal_escape(b[0])
        } else {
            seq![b[0]]
        }) + escape_with(b.skip(1), esc)
    }
}

/// Reading back what was written with octal escapes gives the original bytes, provided
/// the backslash itself is among the escaped bytes (as the kernel does it, with blanks,
/// tabs, newlines and backslashes).
pub proof fn lemma_unescape_inverts_escape(b: Seq<u8>, esc: spec_fn(u8) -> bool)
    requires
        esc(92u8),
    ensures
        unescape(escape_with(b, esc)) == b,
    decreases b.len(),
{
    if b.len() > 0 {
        let v = b[0];
        let rest = escape_with(b.skip(1), esc);
        lemma_unescape_inverts_escape(b.skip(1), esc);
        let e = escape_with(b, esc);
        if esc(v) {
            assert(e == octal_escape(v) + rest);
            assert(e[0] == 92u8 && e[1] == (48 + v / 64) as u8 && e[2] == (48 + (v / 8) % 8) as u8 && e[3]
                == (48 + v % 8) as u8);
            assert(v / 64 <= 3 && (v / 8) % 8 < 8 && v % 8 < 8) by (nonlinear_arith);
            assert(escape_at(e, 0));
            assert(((e[1] - 48) * 64 + (e[2] - 48) * 8 + (e[3] - 48)) as u8 == v) by (nonlinear_arith)
                requires
                    e[1] == (48 + v / 64) as u8,
                    e[2] == (48 + (v / 8) % 8) as u8,
                    e[3] == (48 + v % 8) as u8,
                    v / 64 <= 3,
            ;
            assert(e.skip(4) =~= rest);
        } else {
            assert(v != 92u8);
            assert(e == seq![v] + rest);
            assert(!escape_at(e, 0));
            assert(e.skip(1) =~= rest);
        }
        assert(b =~= seq![v] + b.skip(1));
    }
}

/// Every octal escape in `b` spells a byte: its first digit is at most 3.
pub open spec fn escapes_fit(b: Seq<u8>) -> bool {
    forall|i: int| #![trigger b[i]] 0 <= i < b.len() && escape_at(b, i) ==> b[i + 1] <= 51u8
}

/// The bytes that `s` stands for in `/proc/mounts`.
pub fn unescape_mount(s: &[u8]) -> (r: Vec<u8>)
    requires
        escapes_fit(s@),
    ensures
        r@ == unescape(s@),
{
    let mut out: Vec<u8> = Vec::new();
    let mut i: usize = 0;
    assert(s@.skip(0) =~= s@);
    while i < s.len()
        invariant
            i <= s@.len(),
            escapes_fit(s@),
            unescape(s@) == out@ + unescape(s@.skip(i as int)),
        decreases s@.len() - i,
    {
        let ghost rest = s@.skip(i as int);
        if s[i] == 92u8 && s.len() - i > 3 && 48u8 <= s[i + 1] && s[i + 1] <= 55u8 && 48u8 <= s[i
            + 2] && s[i + 2] <= 55u8 && 48u8 <= s[i + 3] && s[i + 3] <= 55u8 {
            proof {
                assert(escape_at(s@, i as int));
                assert(s@[i as int] == 92u8);
                assert(rest[0] == s@[i as int] && rest[1] == s@[i + 1] && rest[2] == s@[i + 2]
                    && rest[3] == s@[i + 3]);
                assert(escape_at(rest, 0));
                assert(rest.skip(4) =~= s@.skip(i + 4));
                assert(s@[i + 1] <= 51u8);
            }
            let v = (s[i + 1] - 48u8) * 64 + (s[i + 2] - 48u8) * 8 + (s[i + 3] - 48u8);
            let ghost before = out@;
            out.push(v);
            proof {
                assert(out@ + unescape(s@.skip(i + 4)) =~= before + (seq![v] + unescape(s@.skip(i + 4))));
            }
            i += 4;
        } else {
            proof {
                assert(rest[0] == s@[i as int]);
                assert(!escape_at(rest, 0)) by {
                    if escape_at(rest, 0) {
                        assert(rest[1] == s@[i + 1] && rest[2] == s@[i + 2] && rest[3] == s@[i + 3]);
                    }
                }
                assert(rest.skip(1) =~= s@.skip(i + 1));
            }
            let ghost before = out@;
            out.push(s[i]);
            proof {
                assert(out@ + unescape(s@.skip(i + 1)) =~= before + (seq![s@[i as int]] + unescape(s@.skip(i + 1))));
            }
            i += 1;
        }
    }
    proof {
        assert(s@.skip(s@.len() as int) =~= Seq::<u8>::empty());
        assert(out@ + Seq::<u8>::empty() =~= out@);
    }
    out
}


/// The bytes of `v` kept by a line: a copy.
fn copy_vec(v: &Vec<u8>) -> (r: Vec<u8>)
    ensures
        r@ == v@,
{
    let mut r: Vec<u8> = Vec::new();
    let mut i: usize = 0;
    while i < v.len()
        invariant
            i <= v@.len(),
            r@ == v@.subrange(0, i as int),
        decreases v@.len() - i,
    {
        r.push(v[i]);
        i += 1;
        assert(r@ =~= v@.subrange(0, i as int));
    }
    assert(v@.subrange(0, v@.len() as int) =~= v@);
    r
}

/// Whether two byte sequences are equal.
pub fn bytes_eq(a: &[u8], b: &[u8]) -> (r: bool)
    ensures
        r == (a@ == b@),
{
    if a.len() != b.len() {
        return false;
    }
    let mut i: usize = 0;
    while i < a.len()
        invariant
            a@.len() == b@.len(),
            i <= a@.len(),
            a@.subrange(0, i as int) == b@.subrange(0, i as int),
        decreases a@.len() - i,
    {
        if a[i] != b[i] {
            assert(a@.subrange(0, i + 1)[i as int] != b@.subrange(0, i + 1)[i as int]);
            return false;
        }
        i += 1;
        assert(a@.subrange(0, i as int) =~= b@.subrange(0, i as int)) by {
            assert(a@.subrange(0, i as int).drop_last() =~= a@.subrange(0, i - 1));
            assert(b@.subrange(0, i as int).drop_last() =~= b@.subrange(0, i - 1));
        }
    }
    assert(a@ =~= a@.subrange(0, a@.len() as int));
    assert(b@ =~= b@.subrange(0, b@.len() as int));
    true
}

/// The lines of `t` (see `lines`).
pub fn text_lines(t: &[u8]) -> (r: Vec<Vec<u8>>)
    ensures
        views(r@) == lines(t@),
{
    let mut ps = split_bytes(t, 10u8);
    proof {
        lemma_split_nonempty(t@, 10u8);
    }
    let last = ps.pop().unwrap();
    let ghost pv = split(t@, 10u8);
    assert(views(ps@) =~= pv.drop_last());
    let mut out: Vec<Vec<u8>> = Vec::new();
    let mut k: usize = 0;
    while k < ps.len()
        invariant
            k <= ps@.len(),
            views(ps@) == pv.drop_last(),
            views(out@) == stripped(pv.drop_last().subrange(0, k as int)),
        decreases ps@.len() - k,
    {
        let line = &ps[k];
        let n = line.len();
        let mut c = copy_vec(line);
        if n > 0 && line[n - 1] == 13u8 {
            c.pop();
        }
        let ghost before = out@;
        proof {
            assert(pv.drop_last()[k as int] == views(ps@)[k as int]);
            assert(c@ == strip_cr(pv.drop_last()[k as int]));
        }
        out.push(c);
        k += 1;
        assert(views(out@) =~= stripped(pv.drop_last().subrange(0, k as int))) by {
            assert(views(before) == stripped(pv.drop_last().subrange(0, k - 1)));
            assert(views(out@) =~= views(before).push(c@));
        }
    }
    assert(pv.drop_last().subrange(0, ps@.len() as int) =~= pv.drop_last());
    if last.len() > 0 {
        let ghost before = out@;
        out.push(last);
        assert(views(out@) =~= views(before).push(pv.last()));
    }
    out
}

/// Whether the path is absolute.
pub open spec fn has_root(p: Seq<u8>) -> bool {
    p.len() > 0 && p[0] == 47u8
}

/// Whether a relative path starts with a `.` component (`Path::components` keeps that one).
pub open spec fn has_cur_dir(p: Seq<u8>) -> bool {
    !has_root(p) && p.len() > 0 && p[0] == 46u8 && (p.len() == 1 || p[1] == 47u8)
}

/// A piece between slashes that `Path::components` yields: neither empty nor `.`.
pub open spec fn is_normal_piece(x: Seq<u8>) -> bool {
    x.len() > 0 && x != seq![46u8]
}

/// The pieces of `ps` that are components.
pub open spec fn keep_normal(ps: Seq<Seq<u8>>) -> Seq<Seq<u8>>
    decreases ps.len(),
{
    if ps.len() == 0 {
        Seq::empty()
    } else if is_normal_piece(ps.last()) {
        keep_normal(ps.drop_last()).push(ps.last())
    } else {
        keep_normal(ps.drop_last())
    }
}

/// The components of a path after any root or leading `.`.
pub open spec fn normal_parts(p: Seq<u8>) -> Seq<Seq<u8>> {
    keep_normal(split(p, 47u8))
}

/// Path equality as `Path` has it: the same components.
pub open spec fn same_path(a: Seq<u8>, b: Seq<u8>) -> bool {
    &&& has_root(a) == has_root(b)
    &&& has_cur_dir(a) == has_cur_dir(b)
    &&& normal_parts(a) == normal_parts(b)
}

/// Whether `Path::starts_with("/snap")` holds: the path is absolute and its first
/// component is `snap`.
pub open spec fn under_snap(p: Seq<u8>) -> bool {
    has_root(p) && normal_parts(p).len() > 0 && normal_parts(p)[0] == seq![115u8, 110, 97, 112]  // snap
}

/// The components of `p` after any root or leading `.`.
fn normal_parts_exec(p: &[u8]) -> (r: Vec<Vec<u8>>)
    ensures
        views(r@) == normal_parts(p@),
{
    let ps = split_bytes(p, 47u8);
    let mut out: Vec<Vec<u8>> = Vec::new();
    let mut k: usize = 0;
    while k < ps.len()
        invariant
            k <= ps@.len(),
            views(out@) == keep_normal(views(ps@).subrange(0, k as int)),
        decreases ps@.len() - k,
    {
        let piece = &ps[k];
        proof {
            let pre = views(ps@).subrange(0, k + 1);
            assert(pre.drop_last() =~= views(ps@).subrange(0, k as int));
            assert(pre.last() == piece@);
        }
        let dot = piece.len() == 1 && piece[0] == 46u8;
        proof {
            assert(dot == (piece@ == seq![46u8])) by {
                if piece@.len() == 1 && piece@[0] == 46u8 {
                    assert(piece@ =~= seq![46u8]);
                }
            }
        }
        if piece.len() > 0 && !dot {
            let ghost before = out@;
            out.push(copy_vec(piece));
            assert(views(out@) =~= views(before).push(piece@));
        }
        k += 1;
    }
    assert(views(ps@).subrange(0, ps@.len() as int) =~= views(ps@));
    out
}

/// Whether two component lists are equal.
fn same_parts(a: &Vec<Vec<u8>>, b: &Vec<Vec<u8>>) -> (r: bool)
    ensures
        r == (views(a@) == views(b@)),
{
    if a.len() != b.len() {
        assert(views(a@).len() != views(b@).len());
        return false;
    }
    let mut k: usize = 0;
    while k < a.len()
        invariant
            a@.len() == b@.len(),
            k <= a@.len(),
            forall|i: int| #![trigger a@[i]] 0 <= i < k ==> a@[i]@ == b@[i]@,
        decreases a@.len() - k,
    {
        if !bytes_eq(a[k].as_slice(), b[k].as_slice()) {
            assert(views(a@)[k as int] != views(b@)[k as int]);
            return false;
        }
        k += 1;
    }
    assert(views(a@) =~= views(b@)) by {
        assert forall|i: int| 0 <= i < a@.len() implies #[trigger] views(a@)[i] == views(b@)[i] by {
            assert(a@[i]@ == b@[i]@);
        }
    }
    true
}

/// The file-system types shown as local disks.
pub open spec fn is_local_type(t: Seq<u8>) -> bool {
    ||| t == seq![101u8, 120, 116, 50]  // ext2
    ||| t == seq![101u8, 120, 116, 51]  // ext3
    ||| t == seq![101u8, 120, 116, 52]  // ext4
    ||| t == seq![98u8, 116, 114, 102, 115]  // btrfs
    ||| t == seq![120u8, 102, 115]  // xfs
    ||| t == seq![102u8, 50, 102, 115]  // f2fs
    ||| t == seq![118u8, 102, 97, 116]  // vfat
    ||| t == seq![101u8, 120, 102, 97, 116]  // exfat
    ||| t == seq![110u8, 116, 102, 115]  // ntfs
    ||| t == seq![110u8, 116, 102, 115, 51]  // ntfs3
    ||| t == seq![102u8, 117, 115, 101, 98, 108, 107]  // fuseblk
    ||| t == seq![122u8, 102, 115]  // zfs
    ||| t == seq![106u8, 102, 115]  // jfs
    ||| t == seq![114u8, 101, 105, 115, 101, 114, 102, 115]  // reiserfs
}

/// The file-system types shown as network shares.
pub open spec fn is_network_type(t: Seq<u8>) -> bool {
    ||| t == seq![99u8, 105, 102, 115]  // cifs
    ||| t == seq![115u8, 109, 98, 51]  // smb3
    ||| t == seq![110u8, 102, 115]  // nfs
    ||| t == seq![110u8, 102, 115, 52]  // nfs4
    ||| t == seq![115u8, 115, 104, 102, 115]  // sshfs
    ||| t == seq![102u8, 117, 115, 101, 46, 115, 115, 104, 102, 115]  // fuse.sshfs
}

/// Whether `t` names a local disk file system.
pub fn is_local_type_exec(t: &[u8]) -> (r: bool)
    ensures
        r == is_local_type(t@),
{
    bytes_eq(t, &[101u8, 120, 116, 50])  // ext2
        || bytes_eq(t, &[101u8, 120, 116, 51])  // ext3
        || bytes_eq(t, &[101u8, 120, 116, 52])  // ext4
        || bytes_eq(t, &[98u8, 116, 114, 102, 115])  // btrfs
        || bytes_eq(t, &[120u8, 102, 115])  // xfs
        || bytes_eq(t, &[102u8, 50, 102, 115])  // f2fs
        || bytes_eq(t, &[118u8, 102, 97, 116])  // vfat
        || bytes_eq(t, &[101u8, 120, 102, 97, 116])  // exfat
        || bytes_eq(t, &[110u8, 116, 102, 115])  // ntfs
        || bytes_eq(t, &[110u8, 116, 102, 115, 51])  // ntfs3
        || bytes_eq(t, &[102u8, 117, 115, 101, 98, 108, 107])  // fuseblk
        || bytes_eq(t, &[122u8, 102, 115])  // zfs
        || bytes_eq(t, &[106u8, 102, 115])  // jfs
        || bytes_eq(t, &[114u8, 101, 105, 115, 101, 114, 102, 115])  // reiserfs
}

/// Whether `t` names a network file system.
pub fn is_network_type_exec(t: &[u8]) -> (r: bool)
    ensures
        r == is_network_type(t@),
{
    bytes_eq(t, &[99u8, 105, 102, 115])  // cifs
        || bytes_eq(t, &[115u8, 109, 98, 51])  // smb3
        || bytes_eq(t, &[110u8, 102, 115])  // nfs
        || bytes_eq(t, &[110u8, 102, 115, 52])  // nfs4
        || bytes_eq(t, &[115u8, 115, 104, 102, 115])  // sshfs
        || bytes_eq(t, &[102u8, 117, 115, 101, 46, 115, 115, 104, 102, 115])  // fuse.sshfs
}


/// A mounted file system offered for scanning.
pub struct MountEntry {
    /// Mount point, as raw bytes.
    pub path: Vec<u8>,
    pub fstype: String,
    /// Total and free bytes; left out for network mounts, which may hang while their
    /// server is away.
    pub space: Option<(u64, u64)>,
}

/// ASCII bytes read as text.
pub open spec fn ascii_text(b: Seq<u8>) -> Seq<char> {
    b.map_values(|x: u8| x as char)
}

/// Two byte strings that read as the same ASCII text are the same bytes.
proof fn lemma_ascii_same(a: Seq<u8>, b: Seq<u8>)
    requires
        ascii_text(a) == ascii_text(b),
    ensures
        a == b,
{
    assert(ascii_text(a).len() == a.len());
    assert(ascii_text(b).len() == b.len());
    assert forall|i: int| 0 <= i < a.len() implies a[i] == b[i] by {
        assert(ascii_text(a)[i] == a[i] as char);
        assert(ascii_text(b)[i] == b[i] as char);
        assert((a[i] as char) as int == a[i] as int);
        assert((b[i] as char) as int == b[i] as int);
    }
    assert(a =~= b);
}

/// The local disk file-system types are exactly ext2, ext3, ext4, btrfs, xfs, f2fs, vfat, exfat, ntfs, ntfs3, fuseblk, zfs, jfs and reiserfs, spelled in ASCII.
pub proof fn lemma_local_types(t: Seq<u8>)
    ensures
        is_local_type(t) <==> {
            let s = ascii_text(t);
            ||| s == seq!['e', 'x', 't', '2']
            ||| s == seq!['e', 'x', 't', '3']
            ||| s == seq!['e', 'x', 't', '4']
            ||| s == seq!['b', 't', 'r', 'f', 's']
            ||| s == seq!['x', 'f', 's']
            ||| s == seq!['f', '2', 'f', 's']
            ||| s == seq!['v', 'f', 'a', 't']
            ||| s == seq!['e', 'x', 'f', 'a', 't']
            ||| s == seq!['n', 't', 'f', 's']
            ||| s == seq!['n', 't', 'f', 's', '3']
            ||| s == seq!['f', 'u', 's', 'e', 'b', 'l', 'k']
            ||| s == seq!['z', 'f', 's']
            ||| s == seq!['j', 'f', 's']
            ||| s == seq!['r', 'e', 'i', 's', 'e', 'r', 'f', 's']
        },
{
    assert(ascii_text(seq![101u8, 120, 116, 50]) =~= seq!['e', 'x', 't', '2']);
    assert(ascii_text(seq![101u8, 120, 116, 51]) =~= seq!['e', 'x', 't', '3']);
    assert(ascii_text(seq![101u8, 120, 116, 52]) =~= seq!['e', 'x', 't', '4']);
    assert(ascii_text(seq![98u8, 116, 114, 102, 115]) =~= seq!['b', 't', 'r', 'f', 's']);
    assert(ascii_text(seq![120u8, 102, 115]) =~= seq!['x', 'f', 's']);
    assert(ascii_text(seq![102u8, 50, 102, 115]) =~= seq!['f', '2', 'f', 's']);
    assert(ascii_text(seq![118u8, 102, 97, 116]) =~= seq!['v', 'f', 'a', 't']);
    assert(ascii_text(seq![101u8, 120, 102, 97, 116]) =~= seq!['e', 'x', 'f', 'a', 't']);
    assert(ascii_text(seq![110u8, 116, 102, 115]) =~= seq!['n', 't', 'f', 's']);
    assert(ascii_text(seq![110u8, 116, 102, 115, 51]) =~= seq!['n', 't', 'f', 's', '3']);
    assert(ascii_text(seq![102u8, 117, 115, 101, 98, 108, 107]) =~= seq!['f', 'u', 's', 'e', 'b', 'l', 'k']);
    assert(ascii_text(seq![122u8, 102, 115]) =~= seq!['z', 'f', 's']);
    assert(ascii_text(seq![106u8, 102, 115]) =~= seq!['j', 'f', 's']);
    assert(ascii_text(seq![114u8, 101, 105, 115, 101, 114, 102, 115]) =~= seq!['r', 'e', 'i', 's', 'e', 'r', 'f', 's']);
    if ascii_text(t) == seq!['e', 'x', 't', '2'] {
        lemma_ascii_same(t, seq![101u8, 120, 116, 50]);
    }
    if ascii_text(t) == seq!['e', 'x', 't', '3'] {
        lemma_ascii_same(t, seq![101u8, 120, 116, 51]);
    }
    if ascii_text(t) == seq!['e', 'x', 't', '4'] {
        lemma_ascii_same(t, seq![101u8, 120, 116, 52]);
    }
    if ascii_text(t) == seq!['b', 't', 'r', 'f', 's'] {
        lemma_ascii_same(t, seq![98u8, 116, 114, 102, 115]);
    }
    if ascii_text(t) == seq!['x', 'f', 's'] {
        lemma_ascii_same(t, seq![120u8, 102, 115]);
    }
    if ascii_text(t) == seq!['f', '2', 'f', 's'] {
        lemma_ascii_same(t, seq![102u8, 50, 102, 115]);
    }
    if ascii_text(t) == seq!['v', 'f', 'a', 't'] {
        lemma_ascii_same(t, seq![118u8, 102, 97, 116]);
    }
    if ascii_text(t) == seq!['e', 'x', 'f', 'a', 't'] {
        lemma_ascii_same(t, seq![101u8, 120, 102, 97, 116]);
    }
    if ascii_text(t) == seq!['n', 't', 'f', 's'] {
        lemma_ascii_same(t, seq![110u8, 116, 102, 115]);
    }
    if ascii_text(t) == seq!['n', 't', 'f', 's', '3'] {
        lemma_ascii_same(t, seq![110u8, 116, 102, 115, 51]);
    }
    if ascii_text(t) == seq!['f', 'u', 's', 'e', 'b', 'l', 'k'] {
        lemma_ascii_same(t, seq![102u8, 117, 115, 101, 98, 108, 107]);
    }
    if ascii_text(t) == seq!['z', 'f', 's'] {
        lemma_ascii_same(t, seq![122u8, 102, 115]);
    }
    if ascii_text(t) == seq!['j', 'f', 's'] {
        lemma_ascii_same(t, seq![106u8, 102, 115]);
    }
    if ascii_text(t) == seq!['r', 'e', 'i', 's', 'e', 'r', 'f', 's'] {
        lemma_ascii_same(t, seq![114u8, 101, 105, 115, 101, 114, 102, 115]);
    }
}

/// The network file-system types are exactly cifs, smb3, nfs, nfs4, sshfs and fuse.sshfs, spelled in ASCII.
pub proof fn lemma_network_types(t: Seq<u8>)
    ensures
        is_network_type(t) <==> {
            let s = ascii_text(t);
            ||| s == seq!['c', 'i', 'f', 's']
            ||| s == seq!['s', 'm', 'b', '3']
            ||| s == seq!['n', 'f', 's']
            ||| s == seq!['n', 'f', 's', '4']
            ||| s == seq!['s', 's', 'h', 'f', 's']
            ||| s == seq!['f', 'u', 's', 'e', '.', 's', 's', 'h', 'f', 's']
        },
{
    assert(ascii_text(seq![99u8, 105, 102, 115]) =~= seq!['c', 'i', 'f', 's']);
    assert(ascii_text(seq![115u8, 109, 98, 51]) =~= seq!['s', 'm', 'b', '3']);
    assert(ascii_text(seq![110u8, 102, 115]) =~= seq!['n', 'f', 's']);
    assert(ascii_text(seq![110u8, 102, 115, 52]) =~= seq!['n', 'f', 's', '4']);
    assert(ascii_text(seq![115u8, 115, 104, 102, 115]) =~= seq!['s', 's', 'h', 'f', 's']);
    assert(ascii_text(seq![102u8, 117, 115, 101, 46, 115, 115, 104, 102, 115]) =~= seq!['f', 'u', 's', 'e', '.', 's', 's', 'h', 'f', 's']);
    if ascii_text(t) == seq!['c', 'i', 'f', 's'] {
        lemma_ascii_same(t, seq![99u8, 105, 102, 115]);
    }
    if ascii_text(t) == seq!['s', 'm', 'b', '3'] {
        lemma_ascii_same(t, seq![115u8, 109, 98, 51]);
    }
    if ascii_text(t) == seq!['n', 'f', 's'] {
        lemma_ascii_same(t, seq![110u8, 102, 115]);
    }
    if ascii_text(t) == seq!['n', 'f', 's', '4'] {
        lemma_ascii_same(t, seq![110u8, 102, 115, 52]);
    }
    if ascii_text(t) == seq!['s', 's', 'h', 'f', 's'] {
        lemma_ascii_same(t, seq![115u8, 115, 104, 102, 115]);
    }
    if ascii_text(t) == seq!['f', 'u', 's', 'e', '.', 's', 's', 'h', 'f', 's'] {
        lemma_ascii_same(t, seq![102u8, 117, 115, 101, 46, 115, 115, 104, 102, 115]);
    }
}

/// The escapes that reading a mount line would decode all spell bytes.
pub open spec fn mount_line_ok(line: Seq<u8>) -> bool {
    let f = split(line, 32u8);
    f.len() >= 3 && (is_local_type(f[2]) || is_network_type(f[2])) ==> escapes_fit(f[1])
}

/// Every line of a mount table can be read.
pub open spec fn mount_text_ok(text: Seq<u8>) -> bool {
    forall|k: int| #![trigger lines(text)[k]] 0 <= k < lines(text).len() ==> mount_line_ok(lines(text)[k])
}

/// One line of `/proc/self/mounts` ("device mount-point type options ...") added to the
/// entries so far: kept when its type is a known local or network file system, its mount
/// point is not under `/snap`, and no earlier entry has the same mount point.
pub open spec fn mount_step(acc: Seq<(Seq<u8>, Seq<u8>)>, line: Seq<u8>) -> Seq<(Seq<u8>, Seq<u8>)> {
    let f = split(line, 32u8);
    if f.len() < 3 || !(is_local_type(f[2]) || is_network_type(f[2])) {
        acc
    } else {
        let p = unescape(f[1]);
        if under_snap(p) || exists|k: int| 0 <= k < acc.len() && #[trigger] same_path(acc[k].0, p) {
            acc
        } else {
            acc.push((p, f[2]))
        }
    }
}

/// The mount points and types that the lines give, in order.
pub open spec fn mount_table(ls: Seq<Seq<u8>>) -> Seq<(Seq<u8>, Seq<u8>)>
    decreases ls.len(),
{
    if ls.len() == 0 {
        Seq::empty()
    } else {
        mount_step(mount_table(ls.drop_last()), ls.last())
    }
}

/// Every entry of a mount table has a known type, lies outside `/snap`, and names a
/// mount point of its own.
pub proof fn lemma_mount_table_props(ls: Seq<Seq<u8>>)
    ensures
        forall|k: int|
            #![trigger mount_table(ls)[k]]
            0 <= k < mount_table(ls).len() ==> {
                &&& is_local_type(mount_table(ls)[k].1) || is_network_type(mount_table(ls)[k].1)
                &&& !under_snap(mount_table(ls)[k].0)
            },
        forall|i: int, j: int|
            #![trigger mount_table(ls)[i], mount_table(ls)[j]]
            0 <= i < j < mount_table(ls).len() ==> !same_path(mount_table(ls)[i].0, mount_table(ls)[j].0),
    decreases ls.len(),
{
    if ls.len() > 0 {
        lemma_mount_table_props(ls.drop_last());
        let acc = mount_table(ls.drop_last());
        let t = mount_table(ls);
        if t.len() != acc.len() {
            let f = split(ls.last(), 32u8);
            let p = unescape(f[1]);
            assert(t == acc.push((p, f[2])));
            assert forall|i: int, j: int|
                #![trigger t[i], t[j]]
                0 <= i < j < t.len() implies !same_path(t[i].0, t[j].0) by {
                if j == t.len() - 1 {
                    assert(t[i] == acc[i]);
                    if same_path(acc[i].0, p) {
                        assert(exists|k: int| 0 <= k < acc.len() && #[trigger] same_path(acc[k].0, p));
                    }
                } else {
                    assert(t[i] == acc[i] && t[j] == acc[j]);
                }
            }
            assert forall|k: int|
                #![trigger t[k]]
                0 <= k < t.len() implies {
                    &&& is_local_type(t[k].1) || is_network_type(t[k].1)
                    &&& !under_snap(t[k].0)
                } by {
                if k < acc.len() {
                    assert(t[k] == acc[k]);
                }
            }
        }
    }
}

/// Whether every line of `text` can be read (see `mount_text_ok`).
pub fn mount_text_readable(text: &[u8]) -> (r: bool)
    ensures
        r == mount_text_ok(text@),
{
    let ls = text_lines(text);
    let mut k: usize = 0;
    while k < ls.len()
        invariant
            k <= ls@.len(),
            views(ls@) == lines(text@),
            forall|i: int| #![trigger lines(text@)[i]] 0 <= i < k ==> mount_line_ok(lines(text@)[i]),
        decreases ls@.len() - k,
    {
        let f = split_bytes(ls[k].as_slice(), 32u8);
        proof {
            assert(views(ls@)[k as int] == ls@[k as int]@);
        }
        if f.len() >= 3 && (is_local_type_exec(f[2].as_slice()) || is_network_type_exec(f[2].as_slice())) {
            proof {
                assert(views(f@)[2] == f@[2]@);
                assert(views(f@)[1] == f@[1]@);
            }
            if !escapes_fit_exec(f[1].as_slice()) {
                assert(!mount_line_ok(lines(text@)[k as int]));
                return false;
            }
        }
        proof {
            if f@.len() >= 3 {
                assert(views(f@)[2] == f@[2]@);
            }
        }
        k += 1;
    }
    true
}

/// Whether every escape in `b` spells a byte.
fn escapes_fit_exec(b: &[u8]) -> (r: bool)
    ensures
        r == escapes_fit(b@),
{
    let mut i: usize = 0;
    while i < b.len()
        invariant
            i <= b@.len(),
            forall|j: int| #![trigger b@[j]] 0 <= j < i && escape_at(b@, j) ==> b@[j + 1] <= 51u8,
        decreases b@.len() - i,
    {
        if b[i] == 92u8 && b.len() - i > 3 && 48u8 <= b[i + 1] && b[i + 1] <= 55u8 && 48u8 <= b[i
            + 2] && b[i + 2] <= 55u8 && 48u8 <= b[i + 3] && b[i + 3] <= 55u8 && b[i + 1] > 51u8 {
            assert(escape_at(b@, i as int));
            return false;
        }
        i += 1;
    }
    true
}

/// The mount points in the text of `/proc/self/mounts` that can be scanned (see
/// `mount_table`); the space of each is left for the caller to fill in.
pub fn parse_mounts(text: &[u8]) -> (r: Vec<MountEntry>)
    requires
        mount_text_ok(text@),
    ensures
        r@.len() == mount_table(lines(text@)).len(),
        forall|k: int|
            #![trigger r@[k]]
            0 <= k < r@.len() ==> {
                &&& r@[k].path@ == mount_table(lines(text@))[k].0
                &&& r@[k].fstype@ == ascii_text(mount_table(lines(text@))[k].1)
                &&& r@[k].space is None
            },
        forall|k: int|
            #![trigger r@[k]]
            0 <= k < r@.len() ==> !under_snap(r@[k].path@),
        forall|i: int, j: int|
            #![trigger r@[i], r@[j]]
            0 <= i < j < r@.len() ==> !same_path(r@[i].path@, r@[j].path@),
{
    proof {
        lemma_mount_table_props(lines(text@));
    }
    let ls = text_lines(text);
    let ghost lv = lines(text@);
    let mut out: Vec<MountEntry> = Vec::new();
    let mut seen: Vec<(bool, bool, Vec<Vec<u8>>)> = Vec::new();
    let mut k: usize = 0;
    while k < ls.len()
        invariant
            k <= ls@.len(),
            views(ls@) == lv,
            lv == lines(text@),
            mount_text_ok(text@),
            out@.len() == mount_table(lv.subrange(0, k as int)).len(),
            seen@.len() == out@.len(),
            forall|i: int|
                #![trigger out@[i]]
                #![trigger seen@[i]]
                0 <= i < out@.len() ==> {
                    let e = mount_table(lv.subrange(0, k as int))[i];
                    &&& out@[i].path@ == e.0
                    &&& out@[i].fstype@ == ascii_text(e.1)
                    &&& out@[i].space is None
                    &&& seen@[i].0 == has_root(e.0)
                    &&& seen@[i].1 == has_cur_dir(e.0)
                    &&& views(seen@[i].2@) == normal_parts(e.0)
                },
        decreases ls@.len() - k,
    {
        let ghost acc = mount_table(lv.subrange(0, k as int));
        let ghost line = lv[k as int];
        proof {
            assert(lv.subrange(0, k + 1).drop_last() =~= lv.subrange(0, k as int));
            assert(lv.subrange(0, k + 1).last() == line);
            assert(ls@[k as int]@ == line);
            assert(mount_line_ok(line));
        }
        let f = split_bytes(ls[k].as_slice(), 32u8);
        if f.len() < 3 {
            k += 1;
            continue;
        }
        proof {
            assert(views(f@)[2] == f@[2]@);
            assert(views(f@)[1] == f@[1]@);
        }
        if !(is_local_type_exec(f[2].as_slice()) || is_network_type_exec(f[2].as_slice())) {
            k += 1;
            continue;
        }
        let path = unescape_mount(f[1].as_slice());
        let parts = normal_parts_exec(path.as_slice());
        let root = path.len() > 0 && path[0] == 47u8;
        let cur = !root && path.len() > 0 && path[0] == 46u8 && (path.len() == 1 || path[1] == 47u8);
        let snap = root && parts.len() > 0 && bytes_eq(parts[0].as_slice(), &[115u8, 110, 97, 112]);
        proof {
            if parts@.len() > 0 {
                assert(views(parts@)[0] == parts@[0]@);
            }
            assert(snap == under_snap(path@)) by {
                if root && parts@.len() > 0 {
                    assert(seq![115u8, 110, 97, 112] =~= [115u8, 110, 97, 112]@);
                }
            }
        }
        let mut dup = false;
        let mut i: usize = 0;
        assert forall|j: int| #![trigger seen@[j]] 0 <= j < out@.len() implies {
            &&& seen@[j].0 == has_root(acc[j].0)
            &&& seen@[j].1 == has_cur_dir(acc[j].0)
            &&& views(seen@[j].2@) == normal_parts(acc[j].0)
        } by {
            assert(seen@[j] == seen@[j]);
        }
        while i < seen.len()
            invariant
                i <= seen@.len(),
                seen@.len() == out@.len(),
                out@.len() == acc.len(),
                forall|j: int|
                    #![trigger seen@[j]]
                    0 <= j < out@.len() ==> {
                        &&& seen@[j].0 == has_root(acc[j].0)
                        &&& seen@[j].1 == has_cur_dir(acc[j].0)
                        &&& views(seen@[j].2@) == normal_parts(acc[j].0)
                    },
                root == has_root(path@),
                cur == has_cur_dir(path@),
                views(parts@) == normal_parts(path@),
                dup == exists|j: int| 0 <= j < i && #[trigger] same_path(acc[j].0, path@),
            decreases seen@.len() - i,
        {
            let same = seen[i].0 == root && seen[i].1 == cur && same_parts(&seen[i].2, &parts);
            proof {
                assert(same == same_path(acc[i as int].0, path@));
                if same {
                    assert(same_path(acc[i as int].0, path@));
                }
            }
            dup = dup || same;
            i += 1;
        }
        if !snap && !dup {
            let mut fstype = String::new();
            let t = &f[2];
            let mut m: usize = 0;
            while m < t.len()
                invariant
                    m <= t@.len(),
                    fstype@ == ascii_text(t@.subrange(0, m as int)),
                decreases t@.len() - m,
            {
                crate::text::push_char(&mut fstype, t[m] as char);
                m += 1;
                assert(fstype@ =~= ascii_text(t@.subrange(0, m as int)));
            }
            assert(t@.subrange(0, t@.len() as int) =~= t@);
            let ghost before_out = out@;
            let ghost before_seen = seen@;
            out.push(MountEntry { path: copy_vec(&path), fstype, space: None });
            seen.push((root, cur, parts));
            proof {
                assert(mount_table(lv.subrange(0, k + 1)) == acc.push((path@, views(f@)[2])));
                assert forall|j: int|
                    #![trigger out@[j]]
                    0 <= j < out@.len() implies {
                        let e = acc.push((path@, views(f@)[2]))[j];
                        &&& out@[j].path@ == e.0
                        &&& out@[j].fstype@ == ascii_text(e.1)
                        &&& out@[j].space is None
                        &&& seen@[j].0 == has_root(e.0)
                        &&& seen@[j].1 == has_cur_dir(e.0)
                        &&& views(seen@[j].2@) == normal_parts(e.0)
                    } by {
                    if j < before_out.len() {
                        assert(out@[j] == before_out[j]);
                        assert(seen@[j] == before_seen[j]);
                    }
                }
            }
        } else {
            proof {
                assert(mount_table(lv.subrange(0, k + 1)) == acc);
            }
        }
        k += 1;
    }
    assert(lv.subrange(0, ls@.len() as int) =~= lv);
    proof {
        let t = mount_table(lv);
        assert forall|i: int, j: int|
            #![trigger out@[i], out@[j]]
            0 <= i < j < out@.len() implies !same_path(out@[i].path@, out@[j].path@) by {
            assert(out@[i].path@ == t[i].0);
            assert(out@[j].path@ == t[j].0);
        }
        assert forall|k: int| #![trigger out@[k]] 0 <= k < out@.len() implies !under_snap(out@[k].path@) by {
            assert(out@[k].path@ == t[k].0);
        }
    }
    out
}

} // verus!
