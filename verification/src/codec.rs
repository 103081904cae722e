//! Binary codec for per-atom shell data.
//!
//! The persisted layout is fixed and self-describing, all integers
//! little-endian: first the shell count as 8 bytes, then for each shell
//! in order its angular-momentum code (1 byte), its row count (8 bytes),
//! its column count (8 bytes), and its `rows * cols` matrix values in
//! row-major order, 8 bytes each (IEEE-754 double bit patterns).
//!
//! `decode` accepts a byte sequence exactly when it is `spec_encode` of
//! some well-formed shell list, and returns that list; anything
//! truncated, out of range, or with trailing bytes is `CorruptEncoding`.

use vstd::bytes::{
    lemma_auto_spec_u64_to_from_le_bytes, spec_u64_from_le_bytes, spec_u64_to_le_bytes,
    u64_from_le_bytes, u64_to_le_bytes,
};
use vstd::prelude::*;
use vstd::slice::slice_subrange;

use crate::data::{shells_v, wf_basis_v, wf_shell_v, AtomBasis, BasisError, Shell, ShellV};

verus! {

pub open spec fn enc_data(d: Seq<u64>) -> Seq<u8>
    decreases d.len(),
{
    if d.len() == 0 {
        Seq::empty()
    } else {
        spec_u64_to_le_bytes(d[0]) + enc_data(d.drop_first())
    }
}

pub open spec fn enc_shell(s: ShellV) -> Seq<u8> {
    seq![s.am as u8] + spec_u64_to_le_bytes(s.rows as u64) + spec_u64_to_le_bytes(s.cols as u64)
        + enc_data(s.data)
}

pub open spec fn enc_shells(b: Seq<ShellV>) -> Seq<u8>
    decreases b.len(),
{
    if b.len() == 0 {
        Seq::empty()
    } else {
        enc_shell(b[0]) + enc_shells(b.drop_first())
    }
}

/// The byte sequence that encodes a shell list.
pub open spec fn spec_encode(b: Seq<ShellV>) -> Seq<u8> {
    spec_u64_to_le_bytes(b.len() as u64) + enc_shells(b)
}

/// The eight bytes at `pos`, read as a little-endian integer.
pub open spec fn le64_at(b: Seq<u8>, pos: int) -> nat {
    spec_u64_from_le_bytes(b.subrange(pos, pos + 8)) as nat
}

/// Decodes one shell at `pos`; `None` on truncation or a code outside
/// the table or extents beyond the machine's limits.
pub open spec fn dec_shell(b: Seq<u8>, pos: int) -> Option<(ShellV, int)> {
    if pos + 17 > b.len() {
        None
    } else {
        let am = b[pos];
        let rows = le64_at(b, pos + 1);
        let cols = le64_at(b, pos + 9);
        if am > 6 || rows > usize::MAX || cols > usize::MAX {
            None
        } else {
            let cnt = rows * cols;
            if pos + 17 + 8 * cnt > b.len() {
                None
            } else {
                Some(
                    (
                        ShellV {
                            am: am as int,
                            rows,
                            cols,
                            data: Seq::new(
                                cnt,
                                |i: int|
                                    spec_u64_from_le_bytes(
                                        b.subrange(pos + 17 + 8 * i, pos + 25 + 8 * i),
                                    ),
                            ),
                        },
                        pos + 17 + 8 * cnt,
                    ),
                )
            }
        }
    }
}

/// Decodes `n` consecutive shells starting at `pos`.
pub open spec fn dec_shells(b: Seq<u8>, pos: int, n: nat) -> Option<(Seq<ShellV>, int)>
    decreases n,
{
    if n == 0 {
        Some((Seq::empty(), pos))
    } else {
        match dec_shell(b, pos) {
            None => None,
            Some((s, p2)) => match dec_shells(b, p2, (n - 1) as nat) {
                None => None,
                Some((ss, p3)) => Some((seq![s] + ss, p3)),
            },
        }
    }
}

/// The shell list a byte sequence decodes to, or `None` when the bytes
/// are not exactly one well-formed encoding.
pub open spec fn spec_decode(b: Seq<u8>) -> Option<Seq<ShellV>> {
    if b.len() < 8 {
        None
    } else {
        match dec_shells(b, 8, le64_at(b, 0)) {
            None => None,
            Some((ss, end)) => if end == b.len() {
                Some(ss)
            } else {
                None
            },
        }
    }
}

pub proof fn lemma_enc_data_len(d: Seq<u64>)
    ensures
        enc_data(d).len() == 8 * d.len(),
    decreases d.len(),
{
    broadcast use vstd::seq_lib::group_seq_properties;

    if d.len() > 0 {
        lemma_auto_spec_u64_to_from_le_bytes();
        lemma_enc_data_len(d.drop_first());
    }
}

pub proof fn lemma_enc_data_index(d: Seq<u64>, i: int)
    requires
        0 <= i < d.len(),
    ensures
        enc_data(d).subrange(8 * i, 8 * i + 8) == spec_u64_to_le_bytes(d[i]),
    decreases d.len(),
{
    lemma_auto_spec_u64_to_from_le_bytes();
    lemma_enc_data_len(d);
    lemma_enc_data_len(d.drop_first());
    if i == 0 {
        assert(enc_data(d).subrange(0, 8) =~= spec_u64_to_le_bytes(d[0]));
    } else {
        lemma_enc_data_index(d.drop_first(), i - 1);
        assert(enc_data(d).subrange(8 * i, 8 * i + 8) =~= enc_data(d.drop_first()).subrange(
            8 * (i - 1),
            8 * (i - 1) + 8,
        ));
        assert(d.drop_first()[i - 1] == d[i]);
    }
}

pub proof fn lemma_enc_shell_len(s: ShellV)
    requires
        wf_shell_v(s),
    ensures
        enc_shell(s).len() == 17 + 8 * s.data.len(),
{
    lemma_auto_spec_u64_to_from_le_bytes();
    lemma_enc_data_len(s.data);
}

/// Appending one shell on the right extends the encoding on the right.
pub proof fn lemma_enc_shells_push(b: Seq<ShellV>, s: ShellV)
    ensures
        enc_shells(b.push(s)) == enc_shells(b) + enc_shell(s),
    decreases b.len(),
{
    if b.len() == 0 {
        assert(b.push(s)[0] == s);
        assert(b.push(s).drop_first() =~= Seq::<ShellV>::empty());
        assert(enc_shells(Seq::<ShellV>::empty()) == Seq::<u8>::empty());
        assert(enc_shells(b.push(s)) == enc_shell(s) + Seq::<u8>::empty());
        assert(enc_shell(s) + Seq::<u8>::empty() =~= enc_shell(s));
        assert(enc_shells(b) + enc_shell(s) =~= enc_shell(s));
    } else {
        assert(b.push(s).drop_first() =~= b.drop_first().push(s));
        lemma_enc_shells_push(b.drop_first(), s);
        assert(b.push(s)[0] == b[0]);
        assert(enc_shells(b.push(s)) =~= enc_shells(b) + enc_shell(s));
    }
}

pub proof fn lemma_enc_data_push(d: Seq<u64>, x: u64)
    ensures
        enc_data(d.push(x)) == enc_data(d) + spec_u64_to_le_bytes(x),
    decreases d.len(),
{
    if d.len() == 0 {
        assert(d.push(x)[0] == x);
        assert(d.push(x).drop_first() =~= Seq::<u64>::empty());
        assert(enc_data(Seq::<u64>::empty()) == Seq::<u8>::empty());
        assert(enc_data(d.push(x)) == spec_u64_to_le_bytes(x) + Seq::<u8>::empty());
        assert(spec_u64_to_le_bytes(x) + Seq::<u8>::empty() =~= spec_u64_to_le_bytes(x));
        assert(enc_data(d) + spec_u64_to_le_bytes(x) =~= spec_u64_to_le_bytes(x));
    } else {
        assert(d.push(x).drop_first() =~= d.drop_first().push(x));
        lemma_enc_data_push(d.drop_first(), x);
        assert(d.push(x)[0] == d[0]);
        assert(enc_data(d.push(x)) =~= enc_data(d) + spec_u64_to_le_bytes(x));
    }
}

/// A shell decodes back from anywhere its encoding sits in a buffer.
proof fn lemma_dec_shell_at(b: Seq<u8>, pos: int, s: ShellV)
    requires
        wf_shell_v(s),
        0 <= pos,
        pos + enc_shell(s).len() <= b.len(),
        b.subrange(pos, pos + enc_shell(s).len()) == enc_shell(s),
    ensures
        dec_shell(b, pos) == Some((s, pos + enc_shell(s).len())),
{
    lemma_auto_spec_u64_to_from_le_bytes();
    lemma_enc_shell_len(s);
    lemma_enc_data_len(s.data);
    let e = enc_shell(s);
    let n = e.len();
    assert forall|k: int| 0 <= k < n implies b[pos + k] == e[k] by {
        assert(b.subrange(pos, pos + n)[k] == b[pos + k]);
    }
    assert(e[0] == s.am as u8);
    assert(b[pos] == s.am as u8);
    let rb = b.subrange(pos + 1, pos + 9);
    assert forall|k: int| 0 <= k < 8 implies #[trigger] rb[k] == spec_u64_to_le_bytes(
        s.rows as u64,
    )[k] by {
        assert(b[pos + (1 + k)] == e[1 + k]);
        assert(e[1 + k] == spec_u64_to_le_bytes(s.rows as u64)[k]);
    }
    assert(rb =~= spec_u64_to_le_bytes(s.rows as u64));
    let cb = b.subrange(pos + 9, pos + 17);
    assert forall|k: int| 0 <= k < 8 implies #[trigger] cb[k] == spec_u64_to_le_bytes(
        s.cols as u64,
    )[k] by {
        assert(b[pos + (9 + k)] == e[9 + k]);
        assert(e[9 + k] == spec_u64_to_le_bytes(s.cols as u64)[k]);
    }
    assert(cb =~= spec_u64_to_le_bytes(s.cols as u64));
    assert(le64_at(b, pos + 1) == s.rows);
    assert(le64_at(b, pos + 9) == s.cols);
    let cnt = s.rows * s.cols;
    assert(cnt == s.data.len());
    assert(pos + 17 + 8 * cnt <= b.len());
    let dd = Seq::new(
        cnt,
        |i: int| spec_u64_from_le_bytes(b.subrange(pos + 17 + 8 * i, pos + 25 + 8 * i)),
    );
    assert forall|i: int| 0 <= i < cnt implies dd[i] == s.data[i] by {
        lemma_enc_data_index(s.data, i);
        let lhs = b.subrange(pos + 17 + 8 * i, pos + 25 + 8 * i);
        let rhs = enc_data(s.data).subrange(8 * i, 8 * i + 8);
        assert forall|k: int| 0 <= k < 8 implies #[trigger] lhs[k] == rhs[k] by {
            assert(b[pos + 17 + 8 * i + k] == e[17 + 8 * i + k]);
            assert(e[17 + 8 * i + k] == enc_data(s.data)[8 * i + k]);
        }
        assert(lhs =~= rhs);
        assert(dd[i] == spec_u64_from_le_bytes(spec_u64_to_le_bytes(s.data[i])));
    }
    assert(dd =~= s.data);
}

/// A shell list decodes back from anywhere its encoding sits in a buffer.
proof fn lemma_dec_shells_at(b: Seq<u8>, pos: int, ss: Seq<ShellV>)
    requires
        wf_basis_v(ss),
        0 <= pos,
        pos + enc_shells(ss).len() <= b.len(),
        b.subrange(pos, pos + enc_shells(ss).len()) == enc_shells(ss),
    ensures
        dec_shells(b, pos, ss.len()) == Some((ss, pos + enc_shells(ss).len())),
    decreases ss.len(),
{
    if ss.len() == 0 {
        assert(dec_shells(b, pos, 0) == Some((Seq::<ShellV>::empty(), pos)));
        assert(ss =~= Seq::<ShellV>::empty());
    } else {
        let s = ss[0];
        let rest = ss.drop_first();
        let e0 = enc_shell(s);
        let er = enc_shells(rest);
        assert(enc_shells(ss) == e0 + er);
        lemma_enc_shell_len(s);
        assert forall|k: int| 0 <= k < e0.len() + er.len() implies b[pos + k] == (e0 + er)[k] by {
            assert(b.subrange(pos, pos + enc_shells(ss).len())[k] == b[pos + k]);
        }
        assert(b.subrange(pos, pos + e0.len()) =~= e0);
        lemma_dec_shell_at(b, pos, s);
        let p2 = pos + e0.len();
        assert(wf_basis_v(rest));
        let sr = b.subrange(p2, p2 + er.len());
        assert forall|k: int| 0 <= k < er.len() implies #[trigger] sr[k] == er[k] by {
            assert(b[pos + (e0.len() + k)] == (e0 + er)[e0.len() + k]);
        }
        assert(sr =~= er);
        lemma_dec_shells_at(b, p2, rest);
        assert(seq![s] + rest =~= ss);
    }
}

/// The codec round trip: decoding the encoding of any well-formed shell
/// list yields that list again, bit for bit.
pub proof fn lemma_codec_round_trip(ss: Seq<ShellV>)
    requires
        wf_basis_v(ss),
        ss.len() <= usize::MAX,
    ensures
        spec_decode(spec_encode(ss)) == Some(ss),
{
    lemma_auto_spec_u64_to_from_le_bytes();
    let b = spec_encode(ss);
    assert(b.len() >= 8);
    assert(b.subrange(0, 8) =~= spec_u64_to_le_bytes(ss.len() as u64));
    assert(le64_at(b, 0) == ss.len());
    assert(b.subrange(8, 8 + enc_shells(ss).len() as int) =~= enc_shells(ss));
    lemma_dec_shells_at(b, 8, ss);
}

fn read_u64(b: &[u8], pos: usize) -> (r: u64)
    requires
        pos + 8 <= b@.len() <= usize::MAX,
    ensures
        r as nat == le64_at(b@, pos as int),
{
    u64_from_le_bytes(slice_subrange(b, pos, pos + 8))
}

/// Serializes one atom's shell list into the fixed binary layout.
pub fn encode(b: &AtomBasis) -> (r: Vec<u8>)
    requires
        b.wf(),
    ensures
        r@ == spec_encode(b@),
{
    let mut out: Vec<u8> = Vec::new();
    let mut head = u64_to_le_bytes(b.basis.len() as u64);
    out.append(&mut head);
    assert(out@ =~= spec_u64_to_le_bytes(b@.len() as u64) + enc_shells(b@.take(0)));
    let n = b.basis.len();
    for i in 0..n
        invariant
            n == b.basis.len(),
            b.wf(),
            out@ == spec_u64_to_le_bytes(b@.len() as u64) + enc_shells(b@.take(i as int)),
    {
        let s = &b.basis[i];
        assert(s@ == b@[i as int]);
        assert(wf_shell_v(b@[i as int]));
        out.push(s.am as u8);
        let mut rb = u64_to_le_bytes(s.rows as u64);
        out.append(&mut rb);
        let mut cb = u64_to_le_bytes(s.cols as u64);
        out.append(&mut cb);
        let m = s.data.len();
        let ghost mid = out@;
        for j in 0..m
            invariant
                m == s.data.len(),
                out@ == mid + enc_data(s.data@.take(j as int)),
        {
            let mut vb = u64_to_le_bytes(s.data[j]);
            out.append(&mut vb);
            proof {
                lemma_enc_data_push(s.data@.take(j as int), s.data@[j as int]);
                assert(s.data@.take(j as int).push(s.data@[j as int]) =~= s.data@.take(
                    j + 1 as int,
                ));
            }
        }
        proof {
            assert(s.data@.take(m as int) =~= s.data@);
            assert(out@ =~= (spec_u64_to_le_bytes(b@.len() as u64) + enc_shells(b@.take(i as int)))
                + enc_shell(b@[i as int]));
            lemma_enc_shells_push(b@.take(i as int), b@[i as int]);
            assert(b@.take(i as int).push(b@[i as int]) =~= b@.take(i + 1 as int));
            assert(out@ =~= spec_u64_to_le_bytes(b@.len() as u64) + enc_shells(
                b@.take(i + 1 as int),
            ));
        }
    }
    proof {
        assert(b@.take(n as int) =~= b@);
    }
    out
}

fn decode_shell(b: &[u8], pos: usize) -> (r: Result<(Shell, usize), BasisError>)
    requires
        pos <= b@.len(),
    ensures
        match r {
            Ok(p) => {
                &&& dec_shell(b@, pos as int) == Some((p.0@, p.1 as int))
                &&& p.0.wf()
                &&& pos < p.1 <= b@.len()
            },
            Err(e) => e == BasisError::CorruptEncoding && dec_shell(b@, pos as int) is None,
        },
{
    if b.len() - pos < 17 {
        return Err(BasisError::CorruptEncoding);
    }
    let am = b[pos];
    let rows64 = read_u64(b, pos + 1);
    let cols64 = read_u64(b, pos + 9);
    if am > 6 || rows64 > usize::MAX as u64 || cols64 > usize::MAX as u64 {
        return Err(BasisError::CorruptEncoding);
    }
    let rows = rows64 as usize;
    let cols = cols64 as usize;
    let remaining = b.len() - (pos + 17);
    // At most `remaining / 8` values fit in the rest of the buffer.
    let cap = remaining / 8;
    proof {
        vstd::arithmetic::div_mod::lemma_fundamental_div_mod(remaining as int, 8);
        assert(rows as u128 * cols as u128 == rows as nat * cols as nat) by (nonlinear_arith);
        assert(rows as u128 * cols as u128 <= u128::MAX) by (nonlinear_arith)
            requires
                rows <= u64::MAX && cols <= u64::MAX,
        ;
    }
    let need: u128 = rows as u128 * cols as u128;
    if need > cap as u128 {
        proof {
            let cnt = le64_at(b@, pos as int + 1) * le64_at(b@, pos as int + 9);
            assert(cnt > cap);
            assert(8 * cnt >= 8 * (cap + 1));
            assert(pos as int + 17 + 8 * cnt > b@.len());
        }
        return Err(BasisError::CorruptEncoding);
    }
    proof {
        assert(rows as nat * cols as nat <= cap as nat);
        assert(8 * (rows as nat * cols as nat) <= remaining as nat);
    }
    let cnt: usize = rows * cols;
    let mut data: Vec<u64> = Vec::new();
    let ghost gd = Seq::new(
        (cnt as nat),
        |i: int| spec_u64_from_le_bytes(b@.subrange(pos + 17 + 8 * i, pos + 25 + 8 * i)),
    );
    for j in 0..cnt
        invariant
            pos + 17 + 8 * (cnt as int) <= b@.len() <= usize::MAX,
            data@ =~= gd.take(j as int),
            gd == Seq::new(
                (cnt as nat),
                |i: int| spec_u64_from_le_bytes(b@.subrange(pos + 17 + 8 * i, pos + 25 + 8 * i)),
            ),
    {
        proof {
            assert(8 * (j as int) + 8 <= 8 * (cnt as int)) by (nonlinear_arith)
                requires
                    j < cnt,
            ;
        }
        let v = read_u64(b, pos + 17 + 8 * j);
        data.push(v);
        proof {
            assert(data@ =~= gd.take(j + 1 as int));
        }
    }
    proof {
        assert(data@ =~= gd);
    }
    let s = Shell { am: am as i32, rows, cols, data };
    let end = pos + 17 + 8 * cnt;
    proof {
        assert(s@ == (ShellV { am: am as int, rows: rows as nat, cols: cols as nat, data: gd }));
        assert(dec_shell(b@, pos as int) == Some((s@, end as int)));
        assert(rows as nat * cols as nat == s@.data.len());
    }
    Ok((s, end))
}

fn decode_shells(b: &[u8], pos: usize, n: u64) -> (r: Result<(Vec<Shell>, usize), BasisError>)
    requires
        pos <= b@.len(),
    ensures
        match r {
            Ok(p) => {
                &&& dec_shells(b@, pos as int, n as nat) == Some((shells_v(p.0@), p.1 as int))
                &&& wf_basis_v(shells_v(p.0@))
                &&& pos <= p.1 <= b@.len()
            },
            Err(e) => e == BasisError::CorruptEncoding && dec_shells(b@, pos as int, n as nat)
                is None,
        },
    decreases n,
{
    if n == 0 {
        let v: Vec<Shell> = Vec::new();
        proof {
            assert(shells_v(v@) =~= Seq::<ShellV>::empty());
        }
        return Ok((v, pos));
    }
    let (s, p2) = match decode_shell(b, pos) {
        Ok(p) => p,
        Err(e) => {
            return Err(e);
        },
    };
    let (mut v, p3) = match decode_shells(b, p2, n - 1) {
        Ok(p) => p,
        Err(e) => {
            return Err(e);
        },
    };
    let ghost tail = shells_v(v@);
    v.insert(0, s);
    proof {
        assert(shells_v(v@) =~= seq![s@] + tail);
    }
    Ok((v, p3))
}

/// Deserializes one atom's shell list; the result is exactly the shell
/// list whose encoding the input is, and `CorruptEncoding` when the
/// input encodes none.
pub fn decode(bytes: &[u8]) -> (r: Result<AtomBasis, BasisError>)
    ensures
        match r {
            Ok(ab) => {
                &&& ab.wf()
                &&& spec_decode(bytes@) == Some(ab@)
            },
            Err(e) => e == BasisError::CorruptEncoding && spec_decode(bytes@) is None,
        },
{
    if bytes.len() < 8 {
        return Err(BasisError::CorruptEncoding);
    }
    let n = read_u64(bytes, 0);
    let (v, end) = match decode_shells(bytes, 8, n) {
        Ok(p) => p,
        Err(e) => {
            return Err(e);
        },
    };
    if end != bytes.len() {
        return Err(BasisError::CorruptEncoding);
    }
    Ok(AtomBasis { basis: v })
}

} // verus!
