use vstd::prelude::*;

use crate::network::SourceRoutingHeader;
use crate::packet::{Fragment, FragmentView, Packet, PacketTypeView, PacketView, FRAGMENT_DSIZE};

verus! {

/// Number of fragments a payload of `len` bytes is cut into; an empty payload
/// still travels as one (empty) fragment.
pub open spec fn n_fragments(len: nat) -> nat {
    if len == 0 {
        1
    } else {
        ((len + 127) / 128) as nat
    }
}

/// Payload length of fragment `i` of a payload of `len` bytes.
pub open spec fn piece_len(len: nat, i: nat) -> nat {
    if len >= 128 * (i + 1) {
        128
    } else if len >= 128 * i {
        (len - 128 * i) as nat
    } else {
        0
    }
}

/// Payload bytes of fragment `i` of `m`.
pub open spec fn piece(m: Seq<u8>, i: nat) -> Seq<u8> {
    m.subrange(128 * i as int, (128 * i + piece_len(m.len(), i)) as int)
}

/// Fragment `i` of `m`: its piece, padded with zeros to the full payload area.
pub open spec fn fragment_of(m: Seq<u8>, i: nat) -> FragmentView {
    FragmentView {
        fragment_index: i as u64,
        total_n_fragments: n_fragments(m.len()) as u64,
        length: piece_len(m.len(), i) as u8,
        data: piece(m, i) + Seq::new((128 - piece_len(m.len(), i)) as nat, |j: int| 0u8),
    }
}

/// All fragments of `m`, in index order.
pub open spec fn fragments_of(m: Seq<u8>) -> Seq<FragmentView> {
    Seq::new(n_fragments(m.len()), |i: int| fragment_of(m, i as nat))
}

pub open spec fn views(fs: Seq<Fragment>) -> Seq<FragmentView> {
    fs.map_values(|f: Fragment| f@)
}

/// A complete set of fragments of one message: as many as each of them announces,
/// each well formed, and each index from 0 up to that count held by exactly one.
pub open spec fn frames_valid(fs: Seq<FragmentView>) -> bool {
    &&& fs.len() >= 1
    &&& forall|i: int| 0 <= i < fs.len() ==> {
        &&& (#[trigger] fs[i]).wf()
        &&& fs[i].total_n_fragments as int == fs.len()
        &&& (fs[i].fragment_index as int) < fs.len()
    }
    &&& forall|i: int, j: int| 0 <= i < fs.len() && 0 <= j < fs.len() && i != j
        ==> (#[trigger] fs[i]).fragment_index != (#[trigger] fs[j]).fragment_index
    &&& forall|k: int| 0 <= k < fs.len() ==> #[trigger] has_index(fs, k)
}

/// Some fragment of `fs` has index `k`.
pub open spec fn has_index(fs: Seq<FragmentView>, k: int) -> bool {
    exists|i: int| 0 <= i < fs.len() && #[trigger] fs[i].fragment_index == k
}

/// Some position of `p` maps to `k`.
pub open spec fn hits(p: Seq<int>, k: int) -> bool {
    exists|i: int| 0 <= i < p.len() && #[trigger] p[i] == k
}

/// Position in `fs` of the fragment with index `k`.
pub open spec fn slot(fs: Seq<FragmentView>, k: int) -> int {
    choose|i: int| 0 <= i < fs.len() && #[trigger] fs[i].fragment_index == k
}

/// The payloads of `fs` in fragment-index order.
pub open spec fn ordered_payloads(fs: Seq<FragmentView>) -> Seq<Seq<u8>> {
    Seq::new(fs.len(), |k: int| fs[slot(fs, k)].payload())
}

/// The message a complete set of fragments carries.
pub open spec fn assembled(fs: Seq<FragmentView>) -> Seq<u8> {
    ordered_payloads(fs).flatten()
}

/// `p` maps positions `0..n` one to one onto `0..n`.
pub open spec fn is_permutation(p: Seq<int>, n: int) -> bool {
    &&& p.len() == n
    &&& forall|i: int| 0 <= i < n ==> 0 <= #[trigger] p[i] < n
    &&& forall|i: int, j: int| 0 <= i < n && 0 <= j < n && i != j ==> #[trigger] p[i] != #[trigger] p[j]
    &&& forall|k: int| 0 <= k < n ==> #[trigger] hits(p, k)
}

/// `fs` rearranged by `p`.
pub open spec fn permuted(fs: Seq<FragmentView>, p: Seq<int>) -> Seq<FragmentView> {
    Seq::new(p.len(), |i: int| fs[p[i]])
}

proof fn lemma_pieces_prefix(m: Seq<u8>, j: nat)
    requires
        j <= n_fragments(m.len()),
    ensures
        Seq::new(j, |k: int| piece(m, k as nat)).flatten() =~= m.subrange(
            0,
            if 128 * j <= m.len() { (128 * j) as int } else { m.len() as int },
        ),
    decreases j,
{
    if j > 0 {
        let jj = (j - 1) as nat;
        lemma_pieces_prefix(m, jj);
        let s = Seq::new(jj, |k: int| piece(m, k as nat));
        let t = Seq::new(j, |k: int| piece(m, k as nat));
        assert(t =~= s.push(piece(m, jj)));
        s.lemma_flatten_push(piece(m, jj));
    }
}

proof fn lemma_pieces(m: Seq<u8>)
    ensures
        Seq::new(n_fragments(m.len()), |k: int| piece(m, k as nat)).flatten() =~= m,
{
    lemma_pieces_prefix(m, n_fragments(m.len()));
    assert(128 * n_fragments(m.len()) >= m.len());
}

/// Cutting a message into fragments and joining the fragments again, in any order
/// of arrival, gives the message back.
pub proof fn lemma_reassembly(m: Seq<u8>, p: Seq<int>)
    requires
        n_fragments(m.len()) < 0x1_0000_0000_0000_0000,
        is_permutation(p, n_fragments(m.len()) as int),
    ensures
        frames_valid(permuted(fragments_of(m), p)),
        assembled(permuted(fragments_of(m), p)) == m,
{
    let d = fragments_of(m);
    let n = n_fragments(m.len()) as int;
    let fs = permuted(d, p);
    assert forall|i: int| 0 <= i < n implies #[trigger] fs[i].fragment_index == p[i] && fs[i] == fragment_of(m, p[i] as nat) by {
        assert(0 <= p[i] < n);
    }
    assert forall|i: int| 0 <= i < fs.len() implies {
        &&& (#[trigger] fs[i]).wf()
        &&& fs[i].total_n_fragments as int == fs.len()
        &&& (fs[i].fragment_index as int) < fs.len()
    } by {
        assert(0 <= p[i] < n);
        assert(fs[i].fragment_index == p[i]);
    }
    assert forall|i: int, j: int| 0 <= i < fs.len() && 0 <= j < fs.len() && i != j
        implies (#[trigger] fs[i]).fragment_index != (#[trigger] fs[j]).fragment_index by {
        assert(p[i] != p[j]);
        assert(fs[i].fragment_index == p[i]);
        assert(fs[j].fragment_index == p[j]);
    }
    assert forall|k: int| 0 <= k < fs.len() implies #[trigger] has_index(fs, k) by {
        assert(hits(p, k));
        let i = choose|i: int| 0 <= i < n && #[trigger] p[i] == k;
        assert(fs[i].fragment_index == p[i]);
    }
    assert(frames_valid(fs));
    let pieces = Seq::new(n_fragments(m.len()), |k: int| piece(m, k as nat));
    assert forall|k: int| 0 <= k < n implies #[trigger] ordered_payloads(fs)[k] == pieces[k] by {
        let i = slot(fs, k);
        assert(has_index(fs, k));
        assert(fs[i].fragment_index == k);
        assert(fs[i].fragment_index == p[i]);
        assert(fs[i] == fragment_of(m, k as nat));
        assert(fs[i].payload() =~= piece(m, k as nat));
    }
    assert(ordered_payloads(fs) =~= pieces);
    lemma_pieces(m);
}

/// Cuts `m` into its fragments, in index order.
pub fn disassemble_payload(m: &Vec<u8>) -> (r: Vec<Fragment>)
    ensures
        views(r@) == fragments_of(m@),
{
    let len = m.len();
    let n: usize = if len == 0 { 1 } else { (len - 1) / FRAGMENT_DSIZE + 1 };
    assert(n == n_fragments(m@.len()));
    let mut r: Vec<Fragment> = Vec::new();
    let mut i: usize = 0;
    while i < n
        invariant
            i <= n,
            len == m@.len(),
            n == n_fragments(m@.len()),
            r@.len() == i,
            forall|k: int| 0 <= k < i ==> (#[trigger] r@[k])@ == fragment_of(m@, k as nat),
        decreases n - i,
    {
        proof {
            if len > 0 {
                assert(n == (len - 1) / 128 + 1);
                assert(i <= (len - 1) / 128);
                assert(128 * i <= len - 1) by (nonlinear_arith)
                    requires
                        i <= (len - 1) / 128,
                        len >= 1,
                ;
            }
        }
        let start = i * FRAGMENT_DSIZE;
        let length: usize = if len - start >= FRAGMENT_DSIZE {
            FRAGMENT_DSIZE
        } else if len >= start {
            len - start
        } else {
            0
        };
        assert(length == piece_len(m@.len(), i as nat));
        let mut data: Vec<u8> = Vec::new();
        let mut j: usize = 0;
        while j < FRAGMENT_DSIZE
            invariant
                j <= FRAGMENT_DSIZE,
                length <= FRAGMENT_DSIZE,
                start + length <= len,
                len == m@.len(),
                data@.len() == j,
                forall|x: int| 0 <= x < j ==> #[trigger] data@[x] == (if x < length {
                    m@[start + x]
                } else {
                    0u8
                }),
            decreases FRAGMENT_DSIZE - j,
        {
            if j < length {
                data.push(m[start + j]);
            } else {
                data.push(0);
            }
            j = j + 1;
        }
        let f = Fragment {
            fragment_index: i as u64,
            total_n_fragments: n as u64,
            length: length as u8,
            data,
        };
        assert(f@.data =~= fragment_of(m@, i as nat).data);
        r.push(f);
        i = i + 1;
    }
    assert(views(r@) =~= fragments_of(m@));
    r
}

/// The packets that carry `m` as session `session` along `route`, one per
/// fragment, in index order.
pub fn disassemble(m: &Vec<u8>, route: &SourceRoutingHeader, session: u64) -> (r: Vec<Packet>)
    ensures
        r@.len() == n_fragments(m@.len()),
        forall|i: int| 0 <= i < r@.len() ==> (#[trigger] r@[i])@ == (PacketView {
            pack_type: PacketTypeView::MsgFragment(fragment_of(m@, i as nat)),
            routing_header: route@,
            session_id: session,
        }),
{
    let frags = disassemble_payload(m);
    let n = frags.len();
    assert(views(frags@).len() == frags@.len());
    assert(fragments_of(m@).len() == n_fragments(m@.len()));
    let mut r: Vec<Packet> = Vec::new();
    let mut i: usize = 0;
    while i < n
        invariant
            n == frags@.len(),
            n == n_fragments(m@.len()),
            i <= n,
            r@.len() == i,
            views(frags@) == fragments_of(m@),
            forall|k: int| 0 <= k < i ==> (#[trigger] r@[k])@ == (PacketView {
                pack_type: PacketTypeView::MsgFragment(fragment_of(m@, k as nat)),
                routing_header: route@,
                session_id: session,
            }),
        decreases n - i,
    {
        assert(views(frags@)[i as int] == frags@[i as int]@);
        assert(fragments_of(m@)[i as int] == fragment_of(m@, i as nat));
        let f = frags[i].duplicate();
        r.push(Packet::new_fragment(route.duplicate(), session, f));
        i = i + 1;
    }
    r
}

/// Joins a complete set of fragments, in whatever order they came, back into the
/// message; `None` when the set is not complete and consistent.
pub fn assemble_payload(fs: &Vec<Fragment>) -> (r: Option<Vec<u8>>)
    ensures
        r.is_some() <==> frames_valid(views(fs@)),
        r matches Some(m) ==> m@ == assembled(views(fs@)),
{
    let ghost v = views(fs@);
    let n = fs.len();
    if n == 0 {
        return None;
    }
    let mut pos: Vec<usize> = Vec::new();
    let mut k: usize = 0;
    while k < n
        invariant
            k <= n,
            pos@.len() == k,
            forall|x: int| 0 <= x < k ==> pos@[x] == n,
        decreases n - k,
    {
        pos.push(n);
        k = k + 1;
    }
    let mut i: usize = 0;
    while i < n
        invariant
            n == fs@.len(),
            v == views(fs@),
            i <= n,
            pos@.len() == n,
            forall|j: int| 0 <= j < i ==> {
                &&& (#[trigger] v[j]).wf()
                &&& v[j].total_n_fragments as int == n
                &&& (v[j].fragment_index as int) < n
                &&& pos@[v[j].fragment_index as int] == j
            },
            forall|x: int| 0 <= x < n ==> (#[trigger] pos@[x] == n <==> !exists|j: int| 0 <= j < i && #[trigger] v[j].fragment_index == x),
            forall|x: int| 0 <= x < n && pos@[x] != n ==> pos@[x] < i && v[pos@[x] as int].fragment_index == x,
        decreases n - i,
    {
        let f = &fs[i];
        assert(v[i as int] == f@);
        if f.data.len() != FRAGMENT_DSIZE || f.length as usize > FRAGMENT_DSIZE || f.total_n_fragments != n as u64
            || f.fragment_index >= n as u64 {
            assert(!frames_valid(v));
            return None;
        }
        let idx = f.fragment_index as usize;
        if pos[idx] != n {
            proof {
                let j = pos@[idx as int] as int;
                assert(v[j].fragment_index == idx);
                assert(!frames_valid(v));
            }
            return None;
        }
        pos.set(idx, i);
        proof {
            assert forall|x: int| 0 <= x < n implies (#[trigger] pos@[x] == n <==> !exists|j: int| 0 <= j < i + 1 && #[trigger] v[j].fragment_index == x) by {
                if x != idx {
                    if exists|j: int| 0 <= j < i + 1 && #[trigger] v[j].fragment_index == x {
                        let j = choose|j: int| 0 <= j < i + 1 && #[trigger] v[j].fragment_index == x;
                        assert(j != i);
                    }
                } else {
                    assert(v[i as int].fragment_index == x);
                }
            }
        }
        i = i + 1;
    }
    let mut k2: usize = 0;
    while k2 < n
        invariant
            n == fs@.len(),
            v == views(fs@),
            k2 <= n,
            pos@.len() == n,
            forall|x: int| 0 <= x < k2 ==> pos@[x] != n,
            forall|x: int| 0 <= x < n ==> (#[trigger] pos@[x] == n <==> !exists|j: int| 0 <= j < n && #[trigger] v[j].fragment_index == x),
        decreases n - k2,
    {
        if pos[k2] == n {
            proof {
                assert(!has_index(v, k2 as int));
            }
            return None;
        }
        k2 = k2 + 1;
    }
    proof {
        assert forall|x: int| 0 <= x < n implies #[trigger] has_index(v, x) by {
            assert(pos@[x] != n);
        }
        assert forall|a: int, b: int| 0 <= a < n && 0 <= b < n && a != b
            implies (#[trigger] v[a]).fragment_index != (#[trigger] v[b]).fragment_index by {
            if v[a].fragment_index == v[b].fragment_index {
                assert(pos@[v[a].fragment_index as int] == a);
                assert(pos@[v[b].fragment_index as int] == b);
            }
        }
        assert(frames_valid(v));
    }
    let mut out: Vec<u8> = Vec::new();
    let mut k3: usize = 0;
    while k3 < n
        invariant
            n == fs@.len(),
            v == views(fs@),
            frames_valid(v),
            k3 <= n,
            pos@.len() == n,
            forall|x: int| 0 <= x < n ==> 0 <= #[trigger] pos@[x] < n && v[pos@[x] as int].fragment_index == x,
            out@ == ordered_payloads(v).subrange(0, k3 as int).flatten(),
        decreases n - k3,
    {
        let f = &fs[pos[k3]];
        let ghost before = out@;
        proof {
            let s = slot(v, k3 as int);
            assert(has_index(v, k3 as int));
            assert(v[s].fragment_index == k3);
            assert(s == pos@[k3 as int]);
            assert(v[pos@[k3 as int] as int] == f@);
        }
        let mut b: usize = 0;
        while b < f.length as usize
            invariant
                f@.wf(),
                b <= f.length,
                out@ == before + f.data@.subrange(0, b as int),
            decreases f.length - b,
        {
            out.push(f.data[b]);
            b = b + 1;
            assert(out@ =~= before + f.data@.subrange(0, b as int));
        }
        proof {
            let os = ordered_payloads(v);
            assert(os.subrange(0, k3 + 1) =~= os.subrange(0, k3 as int).push(os[k3 as int]));
            os.subrange(0, k3 as int).lemma_flatten_push(os[k3 as int]);
        }
        k3 = k3 + 1;
    }
    assert(ordered_payloads(v).subrange(0, n as int) =~= ordered_payloads(v));
    Some(out)
}

} // verus!
