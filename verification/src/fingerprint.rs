//! Fingerprints: a digest over the vertices of a line, standing for the
//! line where its geometry need not be kept.

use sha2::{Digest, Sha256};
use vstd::prelude::*;
use crate::line::PolyLine;
use crate::point::GridPoint;
use crate::retain::{Retained, TopKSelector};

verus! {

/// The SHA-256 digest of a byte string.
pub uninterp spec fn sha256(data: Seq<u8>) -> Seq<u8>;

/// The coordinate read as an unsigned 32-bit number in two's complement.
pub open spec fn unsigned(x: i32) -> int {
    if x >= 0 {
        x as int
    } else {
        x + 0x1_0000_0000
    }
}

/// The four bytes of a coordinate, most significant first.
pub open spec fn be_bytes(x: i32) -> Seq<u8> {
    seq![
        (unsigned(x) / 0x100_0000) as u8,
        ((unsigned(x) / 0x1_0000) % 0x100) as u8,
        ((unsigned(x) / 0x100) % 0x100) as u8,
        (unsigned(x) % 0x100) as u8,
    ]
}

/// The bytes a line is hashed from: for each vertex in order its `x`, then
/// its `y`, four bytes each.
pub open spec fn encode(line: Seq<GridPoint>) -> Seq<u8>
    decreases line.len(),
{
    if line.len() == 0 {
        Seq::empty()
    } else {
        encode(line.drop_last()) + be_bytes(line.last().x) + be_bytes(line.last().y)
    }
}

/// The fingerprint of a line.
pub open spec fn fingerprint(line: Seq<GridPoint>) -> Seq<u8> {
    sha256(encode(line))
}

/// A vertex takes eight bytes.
pub proof fn lemma_encode_len(line: Seq<GridPoint>)
    ensures
        encode(line).len() == 8 * line.len(),
    decreases line.len(),
{
    if line.len() > 0 {
        lemma_encode_len(line.drop_last());
    }
}

/// The bytes of a coordinate determine it.
pub proof fn lemma_be_bytes_injective(x: i32, y: i32)
    requires
        be_bytes(x) == be_bytes(y),
    ensures
        x == y,
{
    let a = be_bytes(x);
    let b = be_bytes(y);
    assert(a[0] == b[0] && a[1] == b[1] && a[2] == b[2] && a[3] == b[3]);
    let u = unsigned(x);
    let v = unsigned(y);
    assert(u == (u / 0x100_0000) * 0x100_0000 + ((u / 0x1_0000) % 0x100) * 0x1_0000 + ((u / 0x100)
        % 0x100) * 0x100 + u % 0x100);
    assert(v == (v / 0x100_0000) * 0x100_0000 + ((v / 0x1_0000) % 0x100) * 0x1_0000 + ((v / 0x100)
        % 0x100) * 0x100 + v % 0x100);
}

/// The encoding loses nothing: lines with the same bytes have the same
/// vertices in the same order. Any change of a coordinate, of the order or
/// of the length changes the bytes that are hashed.
pub proof fn lemma_encode_injective(a: Seq<GridPoint>, b: Seq<GridPoint>)
    requires
        encode(a) == encode(b),
    ensures
        a == b,
    decreases a.len(),
{
    lemma_encode_len(a);
    lemma_encode_len(b);
    if a.len() == 0 {
        assert(a =~= b);
    } else {
        let ea = encode(a.drop_last());
        let eb = encode(b.drop_last());
        lemma_encode_len(a.drop_last());
        lemma_encode_len(b.drop_last());
        let n = ea.len() as int;
        let whole = encode(a);
        assert(whole == ea + be_bytes(a.last().x) + be_bytes(a.last().y));
        assert(whole == eb + be_bytes(b.last().x) + be_bytes(b.last().y));
        assert(be_bytes(a.last().x) =~= whole.subrange(n, n + 4));
        assert(be_bytes(b.last().x) =~= whole.subrange(n, n + 4));
        assert(be_bytes(a.last().y) =~= whole.subrange(n + 4, n + 8));
        assert(be_bytes(b.last().y) =~= whole.subrange(n + 4, n + 8));
        assert(ea =~= whole.subrange(0, n));
        assert(eb =~= whole.subrange(0, n));
        lemma_be_bytes_injective(a.last().x, b.last().x);
        lemma_be_bytes_injective(a.last().y, b.last().y);
        lemma_encode_injective(a.drop_last(), b.drop_last());
        assert(a =~= a.drop_last().push(a.last()));
        assert(b =~= b.drop_last().push(b.last()));
    }
}

/// The fingerprint depends on the vertex sequence alone: lines with the
/// same vertices in the same order have the same fingerprint.
pub proof fn lemma_fingerprint_of_vertices(a: PolyLine, b: PolyLine)
    requires
        a@ == b@,
    ensures
        fingerprint(a@) == fingerprint(b@),
{
}

/// SHA-256 of `data`, computed by `Sha256::digest` of the crate `sha2`. The
/// digest is a function of the bytes alone and is 32 bytes long.
#[verifier::external_body]
fn sha256_digest(data: &Vec<u8>) -> (out: Vec<u8>)
    ensures
        out@ == sha256(data@),
        out@.len() == 32,
{
    Sha256::digest(data.as_slice()).to_vec()
}

/// Appends the four bytes of `x`, most significant first.
fn push_be_bytes(data: &mut Vec<u8>, x: i32)
    ensures
        final(data)@ == old(data)@ + be_bytes(x),
{
    let u: u32 = if x >= 0 {
        x as u32
    } else {
        (x as i64 + 0x1_0000_0000) as u32
    };
    data.push((u / 0x100_0000) as u8);
    data.push(((u / 0x1_0000) % 0x100) as u8);
    data.push(((u / 0x100) % 0x100) as u8);
    data.push((u % 0x100) as u8);
    assert(data@ =~= old(data)@ + be_bytes(x));
}

impl PolyLine {
    /// The bytes the fingerprint is taken over.
    pub fn to_bytes(&self) -> (data: Vec<u8>)
        ensures
            data@ == encode(self@),
    {
        let mut data: Vec<u8> = Vec::new();
        let mut k: usize = 0;
        assert(self@.take(0) =~= Seq::<GridPoint>::empty());
        while k < self.nodes.len()
            invariant
                k <= self@.len(),
                data@ == encode(self@.take(k as int)),
            decreases self@.len() - k,
        {
            let p = self.nodes[k];
            assert(self@.take(k + 1).drop_last() =~= self@.take(k as int));
            push_be_bytes(&mut data, p.x);
            push_be_bytes(&mut data, p.y);
            k += 1;
        }
        assert(self@.take(k as int) =~= self@);
        data
    }

    /// The fingerprint of the line: the SHA-256 digest of its vertices.
    pub fn calc_hash(&self) -> (hash: Vec<u8>)
        ensures
            hash@ == fingerprint(self@),
            hash@.len() == 32,
    {
        let data = self.to_bytes();
        sha256_digest(&data)
    }
}

/// The retained lines, each replaced by its fingerprint, scores and order
/// kept.
pub fn fingerprints(sel: &TopKSelector<PolyLine>) -> (out: Vec<Retained<Vec<u8>>>)
    ensures
        out@.len() == sel@.len(),
        forall|i: int|
            0 <= i < out@.len() ==> (#[trigger] out@[i]).score == sel@[i].score && out@[i].item@
                == fingerprint(sel@[i].item@),
{
    let entries = sel.entries();
    let mut out: Vec<Retained<Vec<u8>>> = Vec::new();
    let mut k: usize = 0;
    while k < entries.len()
        invariant
            entries@ == sel@,
            k <= entries@.len(),
            out@.len() == k,
            forall|i: int|
                0 <= i < k ==> (#[trigger] out@[i]).score == sel@[i].score && out@[i].item@
                    == fingerprint(sel@[i].item@),
        decreases entries@.len() - k,
    {
        let hash = entries[k].item.calc_hash();
        out.push(Retained { score: entries[k].score, item: hash });
        k += 1;
    }
    out
}

} // verus!
