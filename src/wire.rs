use vstd::prelude::*;

verus! {

/// 256 to the power `w`.
pub open spec fn pow256(w: nat) -> nat
    decreases w,
{
    if w == 0 {
        1
    } else {
        256 * pow256((w - 1) as nat)
    }
}

/// `x` as `w` big-endian bytes (the low `w` bytes of `x`).
pub open spec fn enc_uint(x: nat, w: nat) -> Seq<u8>
    decreases w,
{
    if w == 0 {
        seq![]
    } else {
        enc_uint(x / 256, (w - 1) as nat).push((x % 256) as u8)
    }
}

/// The number that the big-endian bytes `s` spell.
pub open spec fn be_value(s: Seq<u8>) -> nat
    decreases s.len(),
{
    if s.len() == 0 {
        0
    } else {
        be_value(s.drop_last()) * 256 + s.last() as nat
    }
}

pub proof fn lemma_enc_uint(x: nat, w: nat)
    requires
        x < pow256(w),
    ensures
        enc_uint(x, w).len() == w,
        be_value(enc_uint(x, w)) == x,
    decreases w,
{
    if w > 0 {
        let p = pow256((w - 1) as nat);
        assert(x / 256 < p) by (nonlinear_arith)
            requires
                x < 256 * p,
        ;
        lemma_enc_uint(x / 256, (w - 1) as nat);
        assert(enc_uint(x, w).drop_last() =~= enc_uint(x / 256, (w - 1) as nat));
    }
}

pub proof fn lemma_be_value_bound(s: Seq<u8>)
    ensures
        be_value(s) < pow256(s.len()),
    decreases s.len(),
{
    if s.len() > 0 {
        lemma_be_value_bound(s.drop_last());
        let v = be_value(s.drop_last());
        let p = pow256((s.len() - 1) as nat);
        assert(v * 256 + (s.last() as nat) < 256 * p) by (nonlinear_arith)
            requires
                v < p,
                s.last() < 256,
        ;
    }
}

proof fn lemma_pow256_u64(w: nat)
    requires
        w <= 8,
    ensures
        pow256(w) <= 0x1_0000_0000_0000_0000,
        w < 8 ==> pow256(w) * 256 <= 0x1_0000_0000_0000_0000,
    decreases w,
{
    reveal_with_fuel(pow256, 9);
}

/// Appends `x` as `w` big-endian bytes.
pub fn put_uint(out: &mut Vec<u8>, x: u64, w: usize)
    requires
        w <= 8,
        x < pow256(w as nat),
    ensures
        final(out)@ == old(out)@ + enc_uint(x as nat, w as nat),
    decreases w,
{
    if w > 0 {
        proof {
            let p = pow256((w - 1) as nat);
            assert(x / 256 < p) by (nonlinear_arith)
                requires
                    x < 256 * p,
            ;
        }
        put_uint(out, x / 256, w - 1);
        out.push((x % 256) as u8);
        assert(final(out)@ =~= old(out)@ + enc_uint(x as nat, w as nat));
    } else {
        assert(final(out)@ =~= old(out)@ + enc_uint(x as nat, w as nat));
    }
}

/// Reads `w` big-endian bytes at `pos`; `None` when fewer are left.
pub fn get_uint(buf: &Vec<u8>, pos: usize, w: usize) -> (r: Option<(u64, usize)>)
    requires
        w <= 8,
        pos <= buf@.len(),
    ensures
        match r {
            Some((x, next)) => {
                &&& pos + w <= buf@.len()
                &&& next == pos + w
                &&& x as nat == be_value(buf@.subrange(pos as int, next as int))
            },
            None => buf@.len() < pos + w,
        },
{
    if buf.len() - pos < w {
        return None;
    }
    let n = buf.len();
    let mut x: u64 = 0;
    let mut i: usize = 0;
    while i < w
        invariant
            n == buf@.len(),
            w <= 8,
            i <= w,
            pos + w <= buf@.len(),
            x as nat == be_value(buf@.subrange(pos as int, pos + i)),
        decreases w - i,
    {
        proof {
            lemma_be_value_bound(buf@.subrange(pos as int, pos + i));
            lemma_pow256_u64(i as nat);
            assert(x * 256 + 255 < 0x1_0000_0000_0000_0000) by (nonlinear_arith)
                requires
                    x < pow256(i as nat),
                    pow256(i as nat) * 256 <= 0x1_0000_0000_0000_0000,
            ;
        }
        let b = buf[pos + i];
        x = x * 256 + b as u64;
        i = i + 1;
        assert(buf@.subrange(pos as int, pos + i).drop_last() =~= buf@.subrange(pos as int, pos + i - 1));
    }
    Some((x, pos + w))
}

/// `s` with its length in front, as four big-endian bytes.
pub open spec fn enc_bytes(s: Seq<u8>) -> Seq<u8> {
    enc_uint(s.len(), 4) + s
}

/// Reads `w` big-endian bytes at `pos`.
pub open spec fn parse_uint(b: Seq<u8>, pos: int, w: nat) -> Option<(nat, int)> {
    if pos + w <= b.len() {
        Some((be_value(b.subrange(pos, pos + w)), pos + w))
    } else {
        None
    }
}

/// Reads a length-prefixed byte string at `pos`.
pub open spec fn parse_bytes(b: Seq<u8>, pos: int) -> Option<(Seq<u8>, int)> {
    match parse_uint(b, pos, 4) {
        Some((l, p)) => if p + l <= b.len() {
            Some((b.subrange(p, p + l), p + l))
        } else {
            None
        },
        None => None,
    }
}

/// `b` holds `e` at `pos`.
pub open spec fn holds_at(b: Seq<u8>, pos: int, e: Seq<u8>) -> bool {
    0 <= pos && pos + e.len() <= b.len() && b.subrange(pos, pos + e.len()) == e
}

pub proof fn lemma_holds_split(b: Seq<u8>, pos: int, x: Seq<u8>, y: Seq<u8>)
    requires
        holds_at(b, pos, x + y),
    ensures
        holds_at(b, pos, x),
        holds_at(b, pos + x.len(), y),
{
    assert(b.subrange(pos, pos + x.len()) =~= (x + y).subrange(0, x.len() as int));
    assert(b.subrange(pos + x.len(), pos + x.len() + y.len()) =~= (x + y).subrange(x.len() as int, (x.len() + y.len()) as int));
    assert((x + y).subrange(0, x.len() as int) =~= x);
    assert((x + y).subrange(x.len() as int, (x.len() + y.len()) as int) =~= y);
}

pub proof fn lemma_parse_uint(b: Seq<u8>, pos: int, x: nat, w: nat)
    requires
        x < pow256(w),
        holds_at(b, pos, enc_uint(x, w)),
    ensures
        parse_uint(b, pos, w) == Some((x, pos + w)),
{
    lemma_enc_uint(x, w);
}

pub proof fn lemma_parse_bytes(b: Seq<u8>, pos: int, s: Seq<u8>)
    requires
        s.len() < pow256(4),
        holds_at(b, pos, enc_bytes(s)),
    ensures
        parse_bytes(b, pos) == Some((s, pos + enc_bytes(s).len())),
{
    lemma_enc_uint(s.len(), 4);
    lemma_holds_split(b, pos, enc_uint(s.len(), 4), s);
    lemma_parse_uint(b, pos, s.len(), 4);
}

/// Appends `s` with its length in front.
pub fn put_bytes(out: &mut Vec<u8>, s: &Vec<u8>)
    requires
        s@.len() < pow256(4),
    ensures
        final(out)@ == old(out)@ + enc_bytes(s@),
{
    proof {
        reveal_with_fuel(pow256, 5);
    }
    put_uint(out, s.len() as u64, 4);
    let ghost mid = out@;
    let mut i: usize = 0;
    while i < s.len()
        invariant
            i <= s@.len(),
            out@ == mid + s@.subrange(0, i as int),
        decreases s@.len() - i,
    {
        out.push(s[i]);
        i = i + 1;
        assert(out@ =~= mid + s@.subrange(0, i as int));
    }
    assert(s@.subrange(0, s@.len() as int) =~= s@);
    assert(final(out)@ =~= old(out)@ + enc_bytes(s@));
}

/// Reads a length-prefixed byte string at `pos`.
pub fn get_bytes(buf: &Vec<u8>, pos: usize) -> (r: Option<(Vec<u8>, usize)>)
    requires
        pos <= buf@.len(),
    ensures
        match r {
            Some((s, next)) => parse_bytes(buf@, pos as int) == Some((s@, next as int)) && next <= buf@.len(),
            None => parse_bytes(buf@, pos as int) is None,
        },
{
    let (l, p) = match get_uint(buf, pos, 4) {
        Some(x) => x,
        None => return None,
    };
    if l > 0xffff_ffff || buf.len() - p < l as usize {
        proof {
            lemma_be_value_bound(buf@.subrange(pos as int, pos + 4));
            reveal_with_fuel(pow256, 5);
        }
        return None;
    }
    let l = l as usize;
    let n = buf.len();
    let mut s: Vec<u8> = Vec::new();
    let mut i: usize = 0;
    while i < l
        invariant
            n == buf@.len(),
            i <= l,
            p + l <= buf@.len(),
            s@ == buf@.subrange(p as int, p + i),
        decreases l - i,
    {
        s.push(buf[p + i]);
        i = i + 1;
        assert(s@ =~= buf@.subrange(p as int, p + i));
    }
    Some((s, p + l))
}

} // verus!
